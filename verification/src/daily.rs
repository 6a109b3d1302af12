//! Daily challenge system: date-based seeds so everyone plays the same
//! layout each day, a local leaderboard and shareable score codes.

use chrono::Datelike;
use vstd::prelude::*;
use vstd::string::StringSliceAdditionalSpecFns;
use vstd::utf8::{decode_utf8, encode_utf8, is_char_boundary};

verus! {

// ---------------------------------------------------------------------------
// Calendar dates
// ---------------------------------------------------------------------------

/// Gregorian leap-year rule (proleptic, also for years before 1 AD).
pub open spec fn is_leap_year(y: int) -> bool {
    (y % 4 == 0 && y % 100 != 0) || y % 400 == 0
}

/// Number of days in month `m` of year `y`.
pub open spec fn days_in_month(y: int, m: int) -> int {
    if m == 2 {
        if is_leap_year(y) {
            29
        } else {
            28
        }
    } else if m == 4 || m == 6 || m == 9 || m == 11 {
        30
    } else {
        31
    }
}

/// The calendar dates that exist in the supported range of years.
pub open spec fn valid_ymd(y: int, m: int, d: int) -> bool {
    &&& -262143 <= y <= 262142
    &&& 1 <= m <= 12
    &&& 1 <= d <= days_in_month(y, m)
}

/// A calendar date (year, month 1-12, day of month 1-31).
#[derive(Clone, Copy, PartialEq, Eq, Structural, Debug, Hash)]
pub struct Date {
    pub year: i32,
    pub month: u32,
    pub day: u32,
}

impl Date {
    /// The date exists in the calendar.
    pub open spec fn is_valid(self) -> bool {
        valid_ymd(self.year as int, self.month as int, self.day as int)
    }

    /// The date with the given year, month and day, if it exists.
    pub fn from_ymd_opt(year: i32, month: u32, day: u32) -> (r: Option<Date>)
        ensures
            r is Some <==> valid_ymd(year as int, month as int, day as int),
            r matches Some(d) ==> d.year == year && d.month == month && d.day == day,
    {
        if calendar_date_exists(year, month, day) {
            Some(Date { year, month, day })
        } else {
            None
        }
    }

    /// The year.
    pub fn year(&self) -> (y: i32)
        ensures
            y == self.year,
    {
        self.year
    }

    /// The month, 1 to 12.
    pub fn month(&self) -> (m: u32)
        ensures
            m == self.month,
    {
        self.month
    }

    /// The day of the month, 1 to 31.
    pub fn day(&self) -> (d: u32)
        ensures
            d == self.day,
    {
        self.day
    }
}

/// Whether `chrono::NaiveDate::from_ymd_opt` accepts the year, month and day:
/// chrono holds the proleptic Gregorian calendar for years -262143 to 262142,
/// and accepts exactly the dates that exist there.
#[verifier::external_body]
fn calendar_date_exists(year: i32, month: u32, day: u32) -> (b: bool)
    ensures
        b == valid_ymd(year as int, month as int, day as int),
{
    chrono::NaiveDate::from_ymd_opt(year, month, day).is_some()
}

/// Today's date in the local time zone, from `chrono::Local::now().date_naive()`.
/// It depends on the clock and the time zone, so only that it is a real
/// calendar date is stated.
#[verifier::external_body]
fn local_today() -> (d: Date)
    ensures
        d.is_valid(),
{
    let today = chrono::Local::now().date_naive();
    Date { year: today.year(), month: today.month(), day: today.day() }
}

// ---------------------------------------------------------------------------
// Decimal text
// ---------------------------------------------------------------------------

/// The character of a decimal digit.
pub open spec fn digit_char(d: int) -> char {
    ('0' as int + d) as char
}

/// Decimal notation of a natural number, without leading zeros.
pub open spec fn decimal(n: nat) -> Seq<char>
    decreases n,
{
    if n < 10 {
        seq![digit_char(n as int)]
    } else {
        decimal(n / 10).push(digit_char((n % 10) as int))
    }
}

/// Decimal notation left-padded with zeros to at least `width` digits.
pub open spec fn zero_padded(n: nat, width: nat) -> Seq<char> {
    let digits = decimal(n);
    if digits.len() < width {
        Seq::new((width - digits.len()) as nat, |i: int| '0') + digits
    } else {
        digits
    }
}

/// A year as `%Y` writes it: four digits for years 0 to 9999, otherwise
/// a sign followed by at least four digits.
pub open spec fn year_text(y: int) -> Seq<char> {
    if 0 <= y <= 9999 {
        zero_padded(y as nat, 4)
    } else if y < 0 {
        seq!['-'] + zero_padded((-y) as nat, 4)
    } else {
        seq!['+'] + zero_padded(y as nat, 4)
    }
}

/// A date as `YYYY-MM-DD`.
pub open spec fn date_text(y: int, m: int, d: int) -> Seq<char> {
    year_text(y) + seq!['-'] + zero_padded(m as nat, 2) + seq!['-'] + zero_padded(d as nat, 2)
}

/// The one-character text of a decimal digit.
fn digit_text(d: u32) -> (s: &'static str)
    requires
        d < 10,
    ensures
        s@ == seq![digit_char(d as int)],
{
    match d {
        0 => {
            proof {
                reveal_strlit("0");
            }
            "0"
        },
        1 => {
            proof {
                reveal_strlit("1");
            }
            "1"
        },
        2 => {
            proof {
                reveal_strlit("2");
            }
            "2"
        },
        3 => {
            proof {
                reveal_strlit("3");
            }
            "3"
        },
        4 => {
            proof {
                reveal_strlit("4");
            }
            "4"
        },
        5 => {
            proof {
                reveal_strlit("5");
            }
            "5"
        },
        6 => {
            proof {
                reveal_strlit("6");
            }
            "6"
        },
        7 => {
            proof {
                reveal_strlit("7");
            }
            "7"
        },
        8 => {
            proof {
                reveal_strlit("8");
            }
            "8"
        },
        _ => {
            proof {
                reveal_strlit("9");
            }
            "9"
        },
    }
}

/// Decimal notation of `n`.
pub fn decimal_text(n: u32) -> (s: String)
    ensures
        s@ == decimal(n as nat),
    decreases n,
{
    if n < 10 {
        String::from_str(digit_text(n))
    } else {
        let mut s = decimal_text(n / 10);
        s.append(digit_text(n % 10));
        s
    }
}

// ---------------------------------------------------------------------------
// Seeds and date strings
// ---------------------------------------------------------------------------

/// The daily seed of a date: year * 31337 + month * 1337 + day * 37, with the
/// year taken as a 64-bit two's-complement word and all arithmetic modulo 2^64.
pub open spec fn date_seed(d: Date) -> u64 {
    (((d.year as u64) as int * 31337 + d.month as int * 1337 + d.day as int * 37)
        % 0x1_0000_0000_0000_0000) as u64
}

/// Get the seed for a specific date.
pub fn seed_for_date(date: Date) -> (seed: u64)
    ensures
        seed == date_seed(date),
{
    let year = date.year as u64;
    let month = date.month as u64;
    let day = date.day as u64;
    let a = year.wrapping_mul(31337);
    let b = month.wrapping_mul(1337);
    let c = day.wrapping_mul(37);
    let ab = a.wrapping_add(b);
    let seed = ab.wrapping_add(c);
    proof {
        let m: int = 0x1_0000_0000_0000_0000;
        let y = year as int;
        assert(b == month as int * 1337);
        assert(c == day as int * 37);
        assert(a == (y * 31337) % m);
        assert(ab == (a + b) % m);
        assert(seed == (ab + c) % m);
        vstd::arithmetic::div_mod::lemma_add_mod_noop(y * 31337, b as int, m);
        vstd::arithmetic::div_mod::lemma_mod_twice(b as int, m);
        vstd::arithmetic::div_mod::lemma_small_mod(b as nat, m as nat);
        vstd::arithmetic::div_mod::lemma_add_mod_noop(y * 31337 + b, c as int, m);
        vstd::arithmetic::div_mod::lemma_small_mod(c as nat, m as nat);
    }
    seed
}

/// A 32-bit signed value read as a 64-bit word: negative values wrap by 2^64.
proof fn lemma_i32_as_u64(y: i32)
    ensures
        (y as u64) as int == if y >= 0 { y as int } else { y as int + 0x1_0000_0000_0000_0000 },
{
    if y >= 0 {
        assert(y >= 0 ==> (y as u64) == (y as u32) as u64) by (bit_vector);
    } else {
        assert(y < 0 ==> (y as u64) == 0xffff_ffff_0000_0000u64 + (y as u32) as u64) by (bit_vector);
        assert(y < 0 ==> (y as u32) as int == y as int + 0x1_0000_0000) by (bit_vector);
    }
}

/// Different calendar dates get different seeds: the month and day terms stay
/// below 31337, and all valid years fit far inside the 64-bit word.
pub proof fn lemma_seed_injective(a: Date, b: Date)
    requires
        a.is_valid(),
        b.is_valid(),
        date_seed(a) == date_seed(b),
    ensures
        a == b,
{
    let m: int = 0x1_0000_0000_0000_0000;
    let va = a.year as int * 31337 + a.month as int * 1337 + a.day as int * 37;
    let vb = b.year as int * 31337 + b.month as int * 1337 + b.day as int * 37;
    lemma_i32_as_u64(a.year);
    lemma_i32_as_u64(b.year);
    // Reduce both seeds to their values on the integers.
    vstd::arithmetic::div_mod::lemma_mod_add_multiples_vanish(va, m);
    assert(date_seed(a) as int == va % m) by {
        if a.year < 0 {
            assert(((a.year as u64) as int * 31337 + a.month as int * 1337 + a.day as int * 37)
                == va + 31337 * m);
            vstd::arithmetic::div_mod::lemma_mod_multiples_vanish(31337, va, m);
        }
    }
    assert(date_seed(b) as int == vb % m) by {
        if b.year < 0 {
            assert(((b.year as u64) as int * 31337 + b.month as int * 1337 + b.day as int * 37)
                == vb + 31337 * m);
            vstd::arithmetic::div_mod::lemma_mod_multiples_vanish(31337, vb, m);
        }
    }
    // Both values lie in an interval shorter than the modulus.
    assert(-262143 * 31337 <= va <= 262142 * 31337 + 12 * 1337 + 31 * 37);
    assert(-262143 * 31337 <= vb <= 262142 * 31337 + 12 * 1337 + 31 * 37);
    assert(va == vb) by {
        let lo: int = -262143 * 31337;
        vstd::arithmetic::div_mod::lemma_mod_add_multiples_vanish(va - lo, m);
        vstd::arithmetic::div_mod::lemma_small_mod((va - lo) as nat, m as nat);
        vstd::arithmetic::div_mod::lemma_small_mod((vb - lo) as nat, m as nat);
        vstd::arithmetic::div_mod::lemma_add_mod_noop(va, -lo, m);
        vstd::arithmetic::div_mod::lemma_add_mod_noop(vb, -lo, m);
    }
    // The month and day terms lie in [1374, 16471], below one year step.
    let ra = a.month as int * 1337 + a.day as int * 37;
    let rb = b.month as int * 1337 + b.day as int * 37;
    assert(a.year == b.year) by {
        if a.year < b.year {
            assert(va <= a.year as int * 31337 + 16471);
            assert(vb >= (a.year as int + 1) * 31337 + 1374);
        } else if a.year > b.year {
            assert(vb <= b.year as int * 31337 + 16471);
            assert(va >= (b.year as int + 1) * 31337 + 1374);
        }
    }
    assert(ra == rb);
    // 1337 = 36 * 37 + 5, so equal residues force equal months and days.
    assert(a.month == b.month && a.day == b.day) by (nonlinear_arith)
        requires
            a.month as int * 1337 + a.day as int * 37 == b.month as int * 1337 + b.day as int * 37,
            1 <= a.month <= 12,
            1 <= b.month <= 12,
            1 <= a.day <= 31,
            1 <= b.day <= 31,
    ;
}

/// `chrono::NaiveDate::format("%Y-%m-%d")` rendered to a string: the year as
/// `%Y` writes it, then the month and the day as two digits each.
#[verifier::external_body]
fn chrono_date_text(date: Date) -> (s: String)
    requires
        date.is_valid(),
    ensures
        s@ == date_text(date.year as int, date.month as int, date.day as int),
{
    let naive = chrono::NaiveDate::from_ymd_opt(date.year, date.month, date.day).unwrap();
    naive.format("%Y-%m-%d").to_string()
}

/// Format a date as a readable string (YYYY-MM-DD).
pub fn date_string(date: Date) -> (s: String)
    requires
        date.is_valid(),
    ensures
        s@ == date_text(date.year as int, date.month as int, date.day as int),
{
    chrono_date_text(date)
}

/// Get the seed for today's daily challenge.
pub fn today_seed() -> (seed: u64)
    ensures
        exists|d: Date| d.is_valid() && seed == date_seed(d),
{
    let today = local_today();
    let seed = seed_for_date(today);
    assert(today.is_valid() && seed == date_seed(today));
    seed
}

/// Get today's date string.
pub fn today_string() -> (s: String)
    ensures
        exists|d: Date| d.is_valid() && s@ == date_text(d.year as int, d.month as int, d.day as int),
{
    let today = local_today();
    let s = date_string(today);
    assert(today.is_valid() && s@ == date_text(today.year as int, today.month as int, today.day as int));
    s
}

// ---------------------------------------------------------------------------
// Scores and share codes
// ---------------------------------------------------------------------------

/// The score of a run: 1000 per floor, an efficiency bonus of 10000 less ten
/// per turn (never below zero), ten per remaining hit point and fifty per kill.
pub open spec fn run_score(floor_reached: int, turns_taken: int, health_remaining: int, enemies_killed: int) -> int {
    let efficiency = if 10 * turns_taken >= 10000 { 0 } else { 10000 - 10 * turns_taken };
    let health = if health_remaining > 0 { health_remaining } else { 0 };
    floor_reached * 1000 + efficiency + health * 10 + enemies_killed * 50
}

/// Every kill is worth fifty points, with no cap: one more kill adds fifty,
/// and `k` kills add `50 k` to a run without any. Each floor reached adds a
/// thousand and each remaining hit point ten.
pub proof fn lemma_score_parts(floor_reached: int, turns_taken: int, health_remaining: int, enemies_killed: int)
    ensures
        run_score(floor_reached, turns_taken, health_remaining, enemies_killed + 1) == run_score(
            floor_reached,
            turns_taken,
            health_remaining,
            enemies_killed,
        ) + 50,
        run_score(floor_reached, turns_taken, health_remaining, enemies_killed) == run_score(
            floor_reached,
            turns_taken,
            health_remaining,
            0,
        ) + 50 * enemies_killed,
        run_score(floor_reached + 1, turns_taken, health_remaining, enemies_killed) == run_score(
            floor_reached,
            turns_taken,
            health_remaining,
            enemies_killed,
        ) + 1000,
        health_remaining >= 0 ==> run_score(floor_reached, turns_taken, health_remaining + 1, enemies_killed)
            == run_score(floor_reached, turns_taken, health_remaining, enemies_killed) + 10,
        turns_taken >= 1000 ==> run_score(floor_reached, turns_taken, health_remaining, enemies_killed) == 1000
            * floor_reached + 10 * (if health_remaining > 0 { health_remaining } else { 0 }) + 50 * enemies_killed,
{
}

/// Calculate score based on run performance.
pub fn calculate_score(floor_reached: i32, turns_taken: u32, health_remaining: i32, enemies_killed: u32) -> (score: u32)
    requires
        floor_reached >= 0,
        turns_taken * 10 <= u32::MAX,
        run_score(floor_reached as int, turns_taken as int, health_remaining as int, enemies_killed as int)
            <= u32::MAX,
    ensures
        score == run_score(floor_reached as int, turns_taken as int, health_remaining as int, enemies_killed as int),
{
    let floor_bonus = (floor_reached as u32) * 1000;
    let efficiency_bonus = 10000u32.saturating_sub(turns_taken * 10);
    let health: i32 = if health_remaining > 0 { health_remaining } else { 0 };
    let health_bonus = (health as u32) * 10;
    let kill_bonus = enemies_killed * 50;
    floor_bonus + efficiency_bonus + health_bonus + kill_bonus
}

/// Index of the first element that satisfies `p`, or the length if none does.
pub open spec fn first_index<T>(s: Seq<T>, p: spec_fn(T) -> bool) -> int
    decreases s.len(),
{
    if s.len() == 0 {
        0
    } else if p(s[0]) {
        0
    } else {
        1 + first_index(s.drop_first(), p)
    }
}

/// `first_index` is the position before which nothing satisfies `p` and at
/// which (unless it is the end) something does.
pub proof fn lemma_first_index<T>(s: Seq<T>, p: spec_fn(T) -> bool, i: int)
    requires
        0 <= i <= s.len(),
        forall|j: int| 0 <= j < i ==> !p(#[trigger] s[j]),
        i == s.len() || p(s[i]),
    ensures
        first_index(s, p) == i,
    decreases i,
{
    if i > 0 {
        assert(!p(s[0]));
        assert forall|j: int| 0 <= j < i - 1 implies !p(#[trigger] s.drop_first()[j]) by {
            assert(s.drop_first()[j] == s[j + 1]);
        }
        lemma_first_index(s.drop_first(), p, i - 1);
    }
}

/// What `first_index` says of the elements before and at it.
pub proof fn lemma_first_index_facts<T>(s: Seq<T>, p: spec_fn(T) -> bool)
    ensures
        0 <= first_index(s, p) <= s.len(),
        forall|j: int| 0 <= j < first_index(s, p) ==> !p(#[trigger] s[j]),
        first_index(s, p) < s.len() ==> p(s[first_index(s, p)]),
    decreases s.len(),
{
    if s.len() > 0 && !p(s[0]) {
        lemma_first_index_facts(s.drop_first(), p);
        assert forall|j: int| 0 <= j < first_index(s, p) implies !p(#[trigger] s[j]) by {
            if j > 0 {
                assert(s[j] == s.drop_first()[j - 1]);
            }
        }
    }
}

/// The characters of `s` without its dashes.
pub open spec fn without_dashes(s: Seq<char>) -> Seq<char> {
    s.filter(|c: char| c != '-')
}

/// The share code of a score: `HEXCASTER-`, the date without dashes, `-`, the score.
pub open spec fn share_text(date: Seq<char>, score: u32) -> Seq<char> {
    "HEXCASTER-"@ + without_dashes(date) + seq!['-'] + decimal(score as nat)
}

/// Generate a shareable code for a score.
pub fn share_code(date: &str, score: u32) -> (code: String)
    ensures
        code@ == share_text(date@, score),
{
    let mut code = String::from_str("HEXCASTER-");
    let n = date.unicode_len();
    let mut i: usize = 0;
    while i < n
        invariant
            n == date@.len(),
            i <= n,
            code@ == "HEXCASTER-"@ + without_dashes(date@.take(i as int)),
        decreases n - i,
    {
        let c = date.get_char(i);
        proof {
            assert(date@.take(i as int + 1) =~= date@.take(i as int).push(c));
            date@.take(i as int).lemma_filter_push(c, |c: char| c != '-');
        }
        if c != '-' {
            code.append(date.substring_char(i, i + 1));
            assert(date@.subrange(i as int, i as int + 1) =~= seq![c]);
        }
        i = i + 1;
    }
    assert(date@.take(n as int) =~= date@);
    proof {
        reveal_strlit("-");
    }
    code.append("-");
    code.append(decimal_text(score).as_str());
    code
}

/// Is the character an ASCII decimal digit?
pub open spec fn is_digit(c: char) -> bool {
    '0' <= c <= '9'
}

/// The number that a string of decimal digits denotes.
pub open spec fn digits_value(s: Seq<char>) -> nat
    decreases s.len(),
{
    if s.len() == 0 {
        0
    } else {
        digits_value(s.drop_last()) * 10 + (s.last() as nat - '0' as nat) as nat
    }
}

/// The value of a nonempty string of decimal digits that fits in 32 bits.
pub open spec fn digits_u32(d: Seq<char>) -> Option<u32> {
    if d.len() > 0 && (forall|i: int| 0 <= i < d.len() ==> is_digit(#[trigger] d[i]))
        && digits_value(d) <= u32::MAX {
        Some(digits_value(d) as u32)
    } else {
        None
    }
}

/// What `str::parse::<u32>` gives: an optional `+`, then one or more decimal
/// digits whose value fits in 32 bits.
pub open spec fn parse_u32_text(s: Seq<char>) -> Option<u32> {
    if s.len() > 0 && s[0] == '+' {
        digits_u32(s.drop_first())
    } else {
        digits_u32(s)
    }
}

/// A prefix of a digit string denotes no more than the whole string.
proof fn lemma_digits_value_prefix(s: Seq<char>, k: int)
    requires
        0 <= k <= s.len(),
        forall|i: int| 0 <= i < s.len() ==> is_digit(#[trigger] s[i]),
    ensures
        digits_value(s.take(k)) <= digits_value(s),
    decreases s.len(),
{
    if k < s.len() {
        let t = s.drop_last();
        assert(s.take(k) =~= t.take(k));
        assert forall|i: int| 0 <= i < t.len() implies is_digit(#[trigger] t[i]) by {
            assert(t[i] == s[i]);
        }
        lemma_digits_value_prefix(t, k);
        assert(is_digit(s[s.len() - 1]));
    } else {
        assert(s.take(k) =~= s);
    }
}

/// Read the digits of `s` from `start` to the end as a `u32`.
fn parse_digits(s: &str, start: usize) -> (r: Option<u32>)
    requires
        start <= s@.len(),
    ensures
        r == digits_u32(s@.skip(start as int)),
{
    let ghost digits = s@.skip(start as int);
    let n = s.unicode_len();
    if start == n {
        return None;
    }
    let mut i: usize = start;
    let mut value: u32 = 0;
    while i < n
        invariant
            n == s@.len(),
            start < n,
            digits == s@.skip(start as int),
            start <= i <= n,
            value == digits_value(digits.take(i - start)),
            forall|j: int| 0 <= j < i - start ==> is_digit(#[trigger] digits[j]),
        decreases n - i,
    {
        let c = s.get_char(i);
        let ghost k = i - start;
        assert(digits[k] == c);
        if !('0' <= c && c <= '9') {
            assert(!is_digit(digits[k]));
            return None;
        }
        let d = (c as u32) - ('0' as u32);
        assert(digits.take(k + 1).drop_last() =~= digits.take(k));
        assert(digits_value(digits.take(k + 1)) == value * 10 + d);
        if value > (u32::MAX - d) / 10 {
            proof {
                assert(value * 10 + d > u32::MAX) by (nonlinear_arith)
                    requires
                        value > (u32::MAX - d) / 10,
                        d <= 9,
                ;
                if forall|j: int| 0 <= j < digits.len() ==> is_digit(#[trigger] digits[j]) {
                    lemma_digits_value_prefix(digits, k + 1);
                }
            }
            return None;
        }
        value = value * 10 + d;
        i = i + 1;
    }
    assert(digits.take(n - start) =~= digits);
    Some(value)
}

/// Parse a decimal `u32` the way `str::parse` does.
pub fn parse_u32(s: &str) -> (r: Option<u32>)
    ensures
        r == parse_u32_text(s@),
{
    if s.unicode_len() > 0 && s.get_char(0) == '+' {
        assert(s@.skip(1) =~= s@.drop_first());
        parse_digits(s, 1)
    } else {
        assert(s@.skip(0) =~= s@);
        parse_digits(s, 0)
    }
}

/// Is the character a dash?
pub open spec fn is_dash() -> spec_fn(char) -> bool {
    |c: char| c == '-'
}

/// The three dash-separated fields of a share code, if there are exactly three.
pub open spec fn share_fields(code: Seq<char>) -> Option<(Seq<char>, Seq<char>, Seq<char>)> {
    let dash = is_dash();
    let i1 = first_index(code, dash);
    let rest = code.skip(i1 + 1);
    let i2 = first_index(rest, dash);
    let tail = rest.skip(i2 + 1);
    if i1 < code.len() && i2 < rest.len() && first_index(tail, dash) == tail.len() {
        Some((code.take(i1), rest.take(i2), tail))
    } else {
        None
    }
}

/// The date field's UTF-8 bytes cut at 4 and 6, rejoined with dashes.
pub open spec fn dashed_date(field: Seq<char>) -> Seq<char> {
    let b = encode_utf8(field);
    decode_utf8(b.subrange(0, 4)) + seq!['-'] + decode_utf8(b.subrange(4, 6)) + seq!['-']
        + decode_utf8(b.subrange(6, 8))
}

/// The share code names the game and carries an eight-byte date field.
pub open spec fn share_code_shape(code: Seq<char>) -> bool {
    share_fields(code) matches Some((head, date, _)) && head == "HEXCASTER"@ && encode_utf8(
        date,
    ).len() == 8
}

/// Bytes 4 and 6 of the date field start characters, so it can be cut there.
pub open spec fn date_field_cuts(code: Seq<char>) -> bool {
    match share_fields(code) {
        Some((_, date, _)) => {
            let b = encode_utf8(date);
            is_char_boundary(b, 4) && is_char_boundary(b, 6)
        },
        None => true,
    }
}

/// The date and score that a share code carries.
pub open spec fn parsed_share(code: Seq<char>) -> Option<(Seq<char>, u32)> {
    match share_fields(code) {
        Some((head, date, score)) => {
            if share_code_shape(code) {
                match parse_u32_text(score) {
                    Some(n) => Some((dashed_date(date), n)),
                    None => None,
                }
            } else {
                None
            }
        },
        None => None,
    }
}

/// Index of the first dash at or after `from`, or the length.
fn next_dash(s: &str, from: usize) -> (r: usize)
    requires
        from <= s@.len(),
    ensures
        r == from + first_index(s@.skip(from as int), is_dash()),
        from <= r <= s@.len(),
{
    let n = s.unicode_len();
    let mut i = from;
    while i < n && s.get_char(i) != '-'
        invariant
            n == s@.len(),
            from <= i <= n,
            forall|j: int| from <= j < i ==> s@[j] != '-',
        decreases n - i,
    {
        i = i + 1;
    }
    proof {
        let t = s@.skip(from as int);
        assert forall|j: int| 0 <= j < i - from implies !is_dash()(#[trigger] t[j]) by {
            assert(t[j] == s@[from + j]);
        }
        lemma_first_index(t, is_dash(), i - from);
    }
    i
}

/// Split a share code at its dashes into exactly three fields.
fn split_share_fields(code: &str) -> (r: Option<(&str, &str, &str)>)
    ensures
        match r {
            Some((head, date, score)) => share_fields(code@) == Some((head@, date@, score@)),
            None => share_fields(code@) is None,
        },
{
    let n = code.unicode_len();
    let i1 = next_dash(code, 0);
    assert(code@.skip(0) =~= code@);
    if i1 == n {
        return None;
    }
    let i2 = next_dash(code, i1 + 1);
    if i2 == n {
        return None;
    }
    let i3 = next_dash(code, i2 + 1);
    let ghost rest = code@.skip(i1 + 1);
    assert(rest.skip(i2 - i1) =~= code@.skip(i2 + 1));
    if i3 < n {
        return None;
    }
    let head = code.substring_char(0, i1);
    let date = code.substring_char(i1 + 1, i2);
    let score = code.substring_char(i2 + 1, n);
    assert(rest.take(i2 - i1 - 1) =~= date@);
    assert(code@.skip(i2 + 1) =~= score@);
    assert(code@.take(i1 as int) =~= head@);
    Some((head, date, score))
}

/// The eight-byte date field cut into year, month and day and joined with dashes.
fn dashed_date_text(date: &str) -> (text: String)
    requires
        encode_utf8(date@).len() == 8,
        is_char_boundary(encode_utf8(date@), 4),
        is_char_boundary(encode_utf8(date@), 6),
    ensures
        text@ == dashed_date(date@),
{
    let ghost b = date.spec_bytes();
    let (year, month_day) = date.split_at(4);
    proof {
        broadcast use vstd::utf8::encode_utf8_valid_utf8;
        vstd::utf8::valid_utf8_split(b, 4);
        let md = b.subrange(4, 8);
        assert(md =~= month_day.spec_bytes());
        vstd::utf8::is_char_boundary_iff_not_is_continuation_byte(b, 6);
        vstd::utf8::is_char_boundary_iff_not_is_continuation_byte(md, 2);
        assert(md[2] == b[6]);
    }
    let (month, day) = month_day.split_at(2);
    let mut text = String::from_str(year);
    proof {
        reveal_strlit("-");
    }
    text.append("-");
    text.append(month);
    text.append("-");
    text.append(day);
    proof {
        broadcast use vstd::utf8::encode_utf8_decode_utf8;
        assert(year.spec_bytes() =~= b.subrange(0, 4));
        assert(month.spec_bytes() =~= b.subrange(4, 6));
        assert(day.spec_bytes() =~= b.subrange(6, 8));
        assert(decode_utf8(encode_utf8(year@)) == year@);
        assert(decode_utf8(encode_utf8(month@)) == month@);
        assert(decode_utf8(encode_utf8(day@)) == day@);
        assert(text@ =~= dashed_date(date@));
    }
    text
}

/// Parse a share code to get date and score.
pub fn parse_share_code(code: &str) -> (r: Option<(String, u32)>)
    requires
        share_code_shape(code@) ==> date_field_cuts(code@),
    ensures
        match r {
            Some((date, score)) => parsed_share(code@) == Some((date@, score)),
            None => parsed_share(code@) is None,
        },
{
    let fields = split_share_fields(code);
    match fields {
        Some((head, date, score)) => {
            if String::from_str(head) != String::from_str("HEXCASTER") || date.as_bytes().len() != 8 {
                return None;
            }
            let text = dashed_date_text(date);
            match parse_u32(score) {
                Some(value) => Some((text, value)),
                None => None,
            }
        },
        None => None,
    }
}

// ---------------------------------------------------------------------------
// Share codes read back
// ---------------------------------------------------------------------------

/// Every character is a decimal digit.
pub open spec fn all_digits(s: Seq<char>) -> bool {
    forall|i: int| 0 <= i < s.len() ==> is_digit(#[trigger] s[i])
}

/// The character of a digit is a digit character with that value.
proof fn lemma_digit_char(d: int)
    requires
        0 <= d < 10,
    ensures
        is_digit(digit_char(d)),
        digit_char(d) as nat == '0' as nat + d,
{
    if d == 0 {
    } else if d == 1 {
    } else if d == 2 {
    } else if d == 3 {
    } else if d == 4 {
    } else if d == 5 {
    } else if d == 6 {
    } else if d == 7 {
    } else if d == 8 {
    } else {
    }
}

/// Decimal notation is a nonempty digit string of the number's value, and
/// short for small numbers.
proof fn lemma_decimal_digits(n: nat)
    ensures
        decimal(n).len() > 0,
        all_digits(decimal(n)),
        digits_value(decimal(n)) == n,
        n < 10 ==> decimal(n).len() == 1,
        n < 100 ==> decimal(n).len() <= 2,
        n < 1000 ==> decimal(n).len() <= 3,
        n < 10000 ==> decimal(n).len() <= 4,
    decreases n,
{
    let s = decimal(n);
    lemma_digit_char((n % 10) as int);
    if n < 10 {
        assert(s.drop_last() =~= Seq::<char>::empty());
        assert(n % 10 == n);
        assert(digits_value(Seq::<char>::empty()) == 0);
        assert(s.last() == digit_char(n as int));
        assert(digits_value(s) == digits_value(s.drop_last()) * 10 + (s.last() as nat - '0' as nat) as nat);
    } else {
        lemma_decimal_digits(n / 10);
        let t = decimal(n / 10);
        assert(s.drop_last() =~= t);
        assert(s.last() == digit_char((n % 10) as int));
        assert(digits_value(s) == digits_value(t) * 10 + (n % 10));
        assert forall|i: int| 0 <= i < s.len() implies is_digit(#[trigger] s[i]) by {
            if i < t.len() {
                assert(s[i] == t[i]);
            }
        }
    }
}

/// A number below `10^width` (for widths two and four) padded to `width`
/// is `width` digits.
proof fn lemma_zero_padded(n: nat, width: nat)
    requires
        width == 2 || width == 4,
        width == 2 ==> n < 100,
        width == 4 ==> n < 10000,
    ensures
        zero_padded(n, width).len() == width,
        all_digits(zero_padded(n, width)),
{
    lemma_decimal_digits(n);
    let digits = decimal(n);
    let z = zero_padded(n, width);
    if digits.len() < width {
        let pad = Seq::new((width - digits.len()) as nat, |i: int| '0');
        assert(z == pad + digits);
        assert forall|i: int| 0 <= i < z.len() implies is_digit(#[trigger] z[i]) by {
            if i >= pad.len() {
                assert(z[i] == digits[i - pad.len()]);
            }
        }
    }
}

/// Dropping dashes from a concatenation drops them from each part.
proof fn lemma_without_dashes_add(a: Seq<char>, b: Seq<char>)
    ensures
        without_dashes(a + b) == without_dashes(a) + without_dashes(b),
    decreases b.len(),
{
    reveal(Seq::filter);
    if b.len() == 0 {
        assert(a + b =~= a);
        assert(without_dashes(b) =~= Seq::<char>::empty());
        assert(without_dashes(a) + without_dashes(b) =~= without_dashes(a));
    } else {
        lemma_without_dashes_add(a, b.drop_last());
        assert((a + b).drop_last() =~= a + b.drop_last());
        assert((a + b).last() == b.last());
        let pa = without_dashes(a);
        let pb = without_dashes(b.drop_last());
        assert((pa + pb).push(b.last()) =~= pa + pb.push(b.last()));
    }
}

/// A digit string has no dash to drop; a lone dash is all dash.
proof fn lemma_without_dashes_digits(s: Seq<char>)
    requires
        all_digits(s),
    ensures
        without_dashes(s) == s,
        without_dashes(seq!['-']) == Seq::<char>::empty(),
    decreases s.len(),
{
    reveal_with_fuel(Seq::filter, 2);
    assert(seq!['-'].drop_last() =~= Seq::<char>::empty());
    assert(seq!['-'].last() == '-');
    if s.len() > 0 {
        let t = s.drop_last();
        assert forall|i: int| 0 <= i < t.len() implies is_digit(#[trigger] t[i]) by {
            assert(t[i] == s[i]);
        }
        lemma_without_dashes_digits(t);
        assert(is_digit(s[s.len() - 1]));
        assert(t.push(s.last()) =~= s);
    }
}

/// The UTF-8 encoding of a concatenation is the concatenation of the encodings.
proof fn lemma_encode_concat(a: Seq<char>, b: Seq<char>)
    ensures
        encode_utf8(a + b) == encode_utf8(a) + encode_utf8(b),
    decreases a.len(),
{
    if a.len() == 0 {
        assert(a + b =~= b);
        assert(encode_utf8(a) + encode_utf8(b) =~= encode_utf8(b));
    } else {
        lemma_encode_concat(a.drop_first(), b);
        assert((a + b).drop_first() =~= a.drop_first() + b);
        assert((a + b)[0] == a[0]);
        assert(encode_utf8(a + b) =~= encode_utf8(a) + encode_utf8(b));
    }
}

/// Decimal digits take one byte each in UTF-8.
proof fn lemma_encode_digits_len(s: Seq<char>)
    requires
        all_digits(s),
    ensures
        encode_utf8(s).len() == s.len(),
    decreases s.len(),
{
    if s.len() > 0 {
        let t = s.drop_first();
        assert forall|i: int| 0 <= i < t.len() implies is_digit(#[trigger] t[i]) by {
            assert(t[i] == s[i + 1]);
        }
        lemma_encode_digits_len(t);
        assert(is_digit(s[0]));
        assert(vstd::utf8::has_width_1_encoding(s[0] as u32));
    }
}

/// Decimal digits encode to bytes below 0x80, none a continuation byte.
proof fn lemma_encode_digits_ascii(s: Seq<char>)
    requires
        all_digits(s),
    ensures
        forall|i: int| 0 <= i < encode_utf8(s).len() ==> #[trigger] encode_utf8(s)[i] < 0x80,
    decreases s.len(),
{
    if s.len() > 0 {
        let t = s.drop_first();
        assert forall|i: int| 0 <= i < t.len() implies is_digit(#[trigger] t[i]) by {
            assert(t[i] == s[i + 1]);
        }
        lemma_encode_digits_ascii(t);
        assert(is_digit(s[0]));
        let v = s[0] as u32;
        assert(vstd::utf8::has_width_1_encoding(v));
        let b = vstd::utf8::leading_byte_width_1(v);
        assert((v & 0x7F) as u8 <= 0x7F) by (bit_vector);
        let e = encode_utf8(s);
        assert(e == seq![b] + encode_utf8(t));
        assert forall|i: int| 0 <= i < e.len() implies #[trigger] e[i] < 0x80 by {
            if i > 0 {
                assert(e[i] == encode_utf8(t)[i - 1]);
            }
        }
    }
}

/// No digit is a dash.
proof fn lemma_digits_dashless(s: Seq<char>)
    requires
        all_digits(s),
    ensures
        first_index(s, is_dash()) == s.len(),
{
    assert forall|j: int| 0 <= j < s.len() implies !is_dash()(#[trigger] s[j]) by {
        assert(is_digit(s[j]));
    }
    lemma_first_index(s, is_dash(), s.len() as int);
}

/// Date text of the form `DDDD-DD-DD`: ten characters, dashes at positions
/// four and seven, decimal digits everywhere else.
pub open spec fn digit_date(s: Seq<char>) -> bool {
    &&& s.len() == 10
    &&& s[4] == '-'
    &&& s[7] == '-'
    &&& forall|i: int| 0 <= i < 10 && i != 4 && i != 7 ==> is_digit(#[trigger] s[i])
}

/// A date text `DDDD-DD-DD`: its digits without the dashes are the
/// eight-byte date field of a share code, which cuts back into the same text.
proof fn lemma_date_field(text: Seq<char>)
    requires
        digit_date(text),
    ensures
        ({
            let field = without_dashes(text);
            &&& field.len() == 8
            &&& all_digits(field)
            &&& encode_utf8(field).len() == 8
            &&& dashed_date(field) == text
        }),
{
    let y = text.subrange(0, 4);
    let m = text.subrange(5, 7);
    let d = text.subrange(8, 10);
    assert(all_digits(y)) by {
        assert forall|i: int| 0 <= i < y.len() implies is_digit(#[trigger] y[i]) by {
            assert(y[i] == text[i]);
        }
    }
    assert(all_digits(m)) by {
        assert forall|i: int| 0 <= i < m.len() implies is_digit(#[trigger] m[i]) by {
            assert(m[i] == text[i + 5]);
        }
    }
    assert(all_digits(d)) by {
        assert forall|i: int| 0 <= i < d.len() implies is_digit(#[trigger] d[i]) by {
            assert(d[i] == text[i + 8]);
        }
    }
    assert(text =~= y + seq!['-'] + m + seq!['-'] + d);
    let ym = y + m;
    let ymd = y + m + d;
    assert(all_digits(ymd)) by {
        assert forall|i: int| 0 <= i < ymd.len() implies is_digit(#[trigger] ymd[i]) by {
            if i < 4 {
                assert(ymd[i] == y[i]);
            } else if i < 6 {
                assert(ymd[i] == m[i - 4]);
            } else {
                assert(ymd[i] == d[i - 6]);
            }
        }
    }
    assert(without_dashes(text) =~= ymd) by {
        lemma_without_dashes_add(y + seq!['-'] + m + seq!['-'], d);
        lemma_without_dashes_add(y + seq!['-'] + m, seq!['-']);
        lemma_without_dashes_add(y + seq!['-'], m);
        lemma_without_dashes_add(y, seq!['-']);
        lemma_without_dashes_digits(y);
        lemma_without_dashes_digits(m);
        lemma_without_dashes_digits(d);
    }
    lemma_encode_concat(y, m);
    lemma_encode_concat(ym, d);
    lemma_encode_digits_len(y);
    lemma_encode_digits_len(m);
    lemma_encode_digits_len(d);
    let b = encode_utf8(ymd);
    assert(b =~= encode_utf8(y) + encode_utf8(m) + encode_utf8(d));
    assert(b.subrange(0, 4) =~= encode_utf8(y));
    assert(b.subrange(4, 6) =~= encode_utf8(m));
    assert(b.subrange(6, 8) =~= encode_utf8(d));
    vstd::utf8::encode_utf8_decode_utf8(y);
    vstd::utf8::encode_utf8_decode_utf8(m);
    vstd::utf8::encode_utf8_decode_utf8(d);
    assert(dashed_date(ymd) =~= text);
}

/// The text of a date of the years 0 to 9999 is `DDDD-DD-DD`.
proof fn lemma_date_text_digits(date: Date)
    requires
        date.is_valid(),
        0 <= date.year <= 9999,
    ensures
        digit_date(date_text(date.year as int, date.month as int, date.day as int)),
{
    let text = date_text(date.year as int, date.month as int, date.day as int);
    let y = zero_padded(date.year as nat, 4);
    let m = zero_padded(date.month as nat, 2);
    let d = zero_padded(date.day as nat, 2);
    lemma_zero_padded(date.year as nat, 4);
    lemma_zero_padded(date.month as nat, 2);
    lemma_zero_padded(date.day as nat, 2);
    assert(text == y + seq!['-'] + m + seq!['-'] + d);
    assert forall|i: int| 0 <= i < 10 && i != 4 && i != 7 implies is_digit(#[trigger] text[i]) by {
        if i < 4 {
            assert(text[i] == y[i]);
        } else if i < 7 {
            assert(text[i] == m[i - 5]);
        } else {
            assert(text[i] == d[i - 8]);
        }
    }
}

/// A code made of the game's name, a digit field and a digit score splits
/// into those three fields.
proof fn lemma_code_fields(field: Seq<char>, digits: Seq<char>)
    requires
        field.len() == 8,
        all_digits(field),
        digits.len() > 0,
        all_digits(digits),
    ensures
        share_fields("HEXCASTER-"@ + field + seq!['-'] + digits) == Some(("HEXCASTER"@, field, digits)),
{
    reveal_strlit("HEXCASTER-");
    reveal_strlit("HEXCASTER");
    let prefix = "HEXCASTER-"@;
    let code = prefix + field + seq!['-'] + digits;
    assert(first_index(code, is_dash()) == 9) by {
        assert forall|j: int| 0 <= j < 9 implies !is_dash()(#[trigger] code[j]) by {
            assert(code[j] == prefix[j]);
        }
        assert(code[9] == '-');
        lemma_first_index(code, is_dash(), 9);
    }
    let rest = code.skip(10);
    assert(rest =~= field + seq!['-'] + digits);
    assert(first_index(rest, is_dash()) == 8) by {
        assert forall|j: int| 0 <= j < 8 implies !is_dash()(#[trigger] rest[j]) by {
            assert(rest[j] == field[j]);
            assert(is_digit(field[j]));
        }
        assert(rest[8] == '-');
        lemma_first_index(rest, is_dash(), 8);
    }
    assert(rest.skip(9) =~= digits);
    lemma_digits_dashless(digits);
    assert(code.take(9) =~= "HEXCASTER"@);
    assert(rest.take(8) =~= field);
}

/// A share code reads back as the date text and the score it was made of,
/// for every date text of the form `DDDD-DD-DD` and every score; such a code
/// also meets what `parse_share_code` requires, since its date field cuts
/// at bytes four and six.
pub proof fn lemma_share_code_round_trip_text(date: Seq<char>, score: u32)
    requires
        digit_date(date),
    ensures
        parsed_share(share_text(date, score)) == Some((date, score)),
        share_code_shape(share_text(date, score)),
        date_field_cuts(share_text(date, score)),
{
    let field = without_dashes(date);
    lemma_date_field(date);
    lemma_decimal_digits(score as nat);
    let digits = decimal(score as nat);
    assert(digits[0] != '+') by {
        assert(is_digit(digits[0]));
    }
    assert(parse_u32_text(digits) == Some(score));
    lemma_code_fields(field, digits);
    reveal_strlit("HEXCASTER");
    assert(share_text(date, score) == "HEXCASTER-"@ + field + seq!['-'] + digits);
    let b = encode_utf8(field);
    vstd::utf8::encode_utf8_valid_utf8(field);
    lemma_encode_digits_ascii(field);
    vstd::utf8::is_char_boundary_iff_not_is_continuation_byte(b, 4);
    vstd::utf8::is_char_boundary_iff_not_is_continuation_byte(b, 6);
    assert(b[4] < 0x80 && b[6] < 0x80);
}

/// A share code reads back as the date and the score it was made of, for
/// every real calendar date of the years 0 to 9999 (whose text is
/// `YYYY-MM-DD`) and every score, and `parse_share_code` may be called on it.
pub proof fn lemma_share_code_round_trip(date: Date, score: u32)
    requires
        date.is_valid(),
        0 <= date.year <= 9999,
    ensures
        parsed_share(share_text(date_text(date.year as int, date.month as int, date.day as int), score))
            == Some((date_text(date.year as int, date.month as int, date.day as int), score)),
        date_field_cuts(share_text(date_text(date.year as int, date.month as int, date.day as int), score)),
{
    lemma_date_text_digits(date);
    lemma_share_code_round_trip_text(date_text(date.year as int, date.month as int, date.day as int), score);
}

// ---------------------------------------------------------------------------
// Leaderboard
// ---------------------------------------------------------------------------

/// A score entry for the leaderboard.
#[derive(Debug, Clone)]
pub struct ScoreEntry {
    pub name: String,
    pub score: u32,
    pub floor_reached: i32,
    pub turns_taken: u32,
    pub timestamp: i64,
}

/// Seconds since the Unix epoch, from `chrono::Utc::now().timestamp()`.
/// It reads the clock, so nothing is stated of it.
#[verifier::external_body]
fn unix_timestamp() -> i64 {
    chrono::Utc::now().timestamp()
}

impl ScoreEntry {
    /// A new entry stamped with the current time.
    pub fn new(name: &str, score: u32, floor_reached: i32, turns_taken: u32) -> (e: Self)
        ensures
            e.name@ == name@,
            e.score == score,
            e.floor_reached == floor_reached,
            e.turns_taken == turns_taken,
    {
        ScoreEntry {
            name: String::from_str(name),
            score,
            floor_reached,
            turns_taken,
            timestamp: unix_timestamp(),
        }
    }
}

/// Entries ordered by score, highest first.
pub open spec fn sorted_by_score(s: Seq<ScoreEntry>) -> bool {
    forall|i: int, j: int| 0 <= i < j < s.len() ==> s[i].score >= s[j].score
}

/// Does an entry score less than `score`?
pub open spec fn scores_below(score: u32) -> spec_fn(ScoreEntry) -> bool {
    |x: ScoreEntry| x.score < score
}

/// Where `e` goes in a list ordered by score: after every entry that scores
/// at least as much, so that equal scores keep their order of arrival.
pub open spec fn score_slot(s: Seq<ScoreEntry>, e: ScoreEntry) -> int {
    first_index(s, scores_below(e.score))
}

/// `e` placed in its slot.
pub open spec fn insert_by_score(s: Seq<ScoreEntry>, e: ScoreEntry) -> Seq<ScoreEntry> {
    s.insert(score_slot(s, e), e)
}

/// The stable sort of the entries by score, highest first: each entry in
/// turn is placed after the ones before it that score at least as much.
pub open spec fn sort_by_score(s: Seq<ScoreEntry>) -> Seq<ScoreEntry>
    decreases s.len(),
{
    if s.len() == 0 {
        s
    } else {
        insert_by_score(sort_by_score(s.drop_last()), s.last())
    }
}

/// At most the first ten entries.
pub open spec fn top_ten(s: Seq<ScoreEntry>) -> Seq<ScoreEntry> {
    if s.len() > 10 {
        s.take(10)
    } else {
        s
    }
}

/// Placing an entry in its slot keeps a list ordered and adds one entry.
pub proof fn lemma_insert_by_score(s: Seq<ScoreEntry>, e: ScoreEntry)
    requires
        sorted_by_score(s),
    ensures
        sorted_by_score(insert_by_score(s, e)),
        insert_by_score(s, e).len() == s.len() + 1,
        insert_by_score(s, e).to_multiset() == s.to_multiset().insert(e),
{
    let p = scores_below(e.score);
    lemma_first_index_facts(s, p);
    let k = score_slot(s, e);
    let t = insert_by_score(s, e);
    assert forall|i: int, j: int| 0 <= i < j < t.len() implies t[i].score >= t[j].score by {
        if j < k {
        } else if j == k {
            assert(!p(s[i]));
        } else if i == k {
            assert(p(s[k]));
        } else if i < k {
        } else {
        }
    }
    vstd::seq_lib::to_multiset_insert(s, k, e);
}

/// The sort puts entries in order, keeps each of them, and adds none.
pub proof fn lemma_sort_by_score(s: Seq<ScoreEntry>)
    ensures
        sorted_by_score(sort_by_score(s)),
        sort_by_score(s).len() == s.len(),
        sort_by_score(s).to_multiset() == s.to_multiset(),
    decreases s.len(),
{
    if s.len() > 0 {
        lemma_sort_by_score(s.drop_last());
        lemma_insert_by_score(sort_by_score(s.drop_last()), s.last());
        vstd::seq_lib::to_multiset_build(s.drop_last(), s.last());
        assert(s =~= s.drop_last().push(s.last()));
    }
}

/// Sort entries by score, highest first; equal scores keep their order.
fn sort_scores(entries: Vec<ScoreEntry>) -> (sorted: Vec<ScoreEntry>)
    ensures
        sorted@ == sort_by_score(entries@),
{
    let ghost all = entries@;
    let mut rest = entries;
    let mut sorted: Vec<ScoreEntry> = Vec::new();
    let ghost mut k: int = 0;
    assert(all.take(0) =~= Seq::<ScoreEntry>::empty());
    while rest.len() > 0
        invariant
            0 <= k <= all.len(),
            rest@ == all.skip(k),
            sorted@ == sort_by_score(all.take(k)),
        decreases rest@.len(),
    {
        let e = rest.remove(0);
        assert(e == all[k]);
        let mut i: usize = 0;
        while i < sorted.len() && sorted[i].score >= e.score
            invariant
                i <= sorted@.len(),
                forall|j: int| 0 <= j < i ==> sorted@[j].score >= e.score,
            decreases sorted@.len() - i,
        {
            i = i + 1;
        }
        proof {
            lemma_first_index(sorted@, scores_below(e.score), i as int);
            assert(all.take(k + 1).drop_last() =~= all.take(k));
            assert(rest@ =~= all.skip(k + 1));
        }
        sorted.insert(i, e);
        proof {
            k = k + 1;
        }
    }
    assert(all.take(k) =~= all);
    sorted
}

/// The leaderboard of a date with one more entry: all entries sorted by
/// score, highest first, and cut to the best ten.
pub open spec fn board_with(old_entries: Seq<ScoreEntry>, e: ScoreEntry) -> Seq<ScoreEntry> {
    top_ten(sort_by_score(old_entries.push(e)))
}

/// The entries recorded for a date, or none.
pub open spec fn entries_on(board: Map<Seq<char>, Seq<ScoreEntry>>, date: Seq<char>) -> Seq<ScoreEntry> {
    if board.contains_key(date) {
        board[date]
    } else {
        Seq::empty()
    }
}

/// The boards after adding an entry on a date.
pub open spec fn boards_with(board: Map<Seq<char>, Seq<ScoreEntry>>, date: Seq<char>, e: ScoreEntry) -> Map<
    Seq<char>,
    Seq<ScoreEntry>,
> {
    board.insert(date, board_with(entries_on(board, date), e))
}

/// Position of the first list kept for `date`, or the length.
pub open spec fn date_slot(s: Seq<(String, Vec<ScoreEntry>)>, date: Seq<char>) -> int {
    first_index(s, for_date(date))
}

/// Does a stored list belong to `date`?
pub open spec fn for_date(date: Seq<char>) -> spec_fn((String, Vec<ScoreEntry>)) -> bool {
    |q: (String, Vec<ScoreEntry>)| q.0@ == date
}

/// Daily leaderboard storage.
#[derive(Debug)]
pub struct Leaderboard {
    /// Scores keyed by date string (YYYY-MM-DD); where a date occurs more
    /// than once, its first list is the one that counts.
    pub scores: Vec<(String, Vec<ScoreEntry>)>,
}

impl View for Leaderboard {
    type V = Map<Seq<char>, Seq<ScoreEntry>>;

    /// The score lists by date.
    open spec fn view(&self) -> Map<Seq<char>, Seq<ScoreEntry>> {
        Map::new(
            |d: Seq<char>| date_slot(self.scores@, d) < self.scores@.len(),
            |d: Seq<char>| self.scores@[date_slot(self.scores@, d)].1@,
        )
    }
}

/// Replacing the list at the first slot of `date` by another list for the
/// same date moves no date's slot.
proof fn lemma_slots_after_update(
    s: Seq<(String, Vec<ScoreEntry>)>,
    i: int,
    x: (String, Vec<ScoreEntry>),
    date: Seq<char>,
)
    requires
        0 <= i < s.len(),
        i == date_slot(s, date),
        x.0@ == date,
    ensures
        forall|d: Seq<char>| #[trigger] date_slot(s.update(i, x), d) == date_slot(s, d),
{
    let t = s.update(i, x);
    assert forall|d: Seq<char>| #[trigger] date_slot(t, d) == date_slot(s, d) by {
        let p = for_date(d);
        let pd = for_date(date);
        lemma_first_index_facts(s, p);
        lemma_first_index_facts(s, pd);
        let k = date_slot(s, d);
        assert forall|j: int| 0 <= j < k implies !p(#[trigger] t[j]) by {
            if j != i {
                assert(t[j] == s[j]);
            }
        }
        if k == i {
            assert(t[i] == x);
        } else if k < s.len() {
            assert(t[k] == s[k]);
        }
        lemma_first_index(t, p, k);
    }
}

/// Appending a list for a date that has none gives it the last slot and moves
/// no other date's slot.
proof fn lemma_slots_after_push(s: Seq<(String, Vec<ScoreEntry>)>, x: (String, Vec<ScoreEntry>), date: Seq<char>)
    requires
        date_slot(s, date) == s.len(),
        x.0@ == date,
    ensures
        date_slot(s.push(x), date) == s.len(),
        forall|d: Seq<char>|
            d != date ==> #[trigger] date_slot(s.push(x), d) == if date_slot(s, d) < s.len() {
                date_slot(s, d)
            } else {
                s.len() + 1int
            },
{
    let t = s.push(x);
    let pd = for_date(date);
    lemma_first_index_facts(s, pd);
    assert forall|j: int| 0 <= j < s.len() implies !pd(#[trigger] t[j]) by {
        assert(t[j] == s[j]);
    }
    lemma_first_index(t, pd, s.len() as int);
    assert forall|d: Seq<char>| d != date implies #[trigger] date_slot(s.push(x), d) == if date_slot(
        s,
        d,
    ) < s.len() {
        date_slot(s, d)
    } else {
        s.len() + 1int
    } by {
        let p = for_date(d);
        lemma_first_index_facts(s, p);
        let k = date_slot(s, d);
        assert forall|j: int| 0 <= j < k implies !p(#[trigger] t[j]) by {
            assert(t[j] == s[j]);
        }
        if k < s.len() {
            assert(t[k] == s[k]);
            lemma_first_index(t, p, k);
        } else {
            lemma_first_index(t, p, t.len() as int);
        }
    }
}

/// Find the first list kept for `date`.
fn find_date(scores: &Vec<(String, Vec<ScoreEntry>)>, date: &str) -> (i: usize)
    ensures
        i == date_slot(scores@, date@),
        i <= scores@.len(),
{
    let key = String::from_str(date);
    let mut i: usize = 0;
    while i < scores.len() && scores[i].0 != key
        invariant
            key@ == date@,
            i <= scores@.len(),
            forall|j: int| 0 <= j < i ==> scores@[j].0@ != date@,
        decreases scores@.len() - i,
    {
        i = i + 1;
    }
    proof {
        let p = for_date(date@);
        assert forall|j: int| 0 <= j < i implies !p(#[trigger] scores@[j]) by {}
        lemma_first_index(scores@, p, i as int);
    }
    i
}

impl Leaderboard {
    /// An empty leaderboard.
    pub fn new() -> (b: Self)
        ensures
            b@ == Map::<Seq<char>, Seq<ScoreEntry>>::empty(),
    {
        let b = Leaderboard { scores: Vec::new() };
        assert(b@ =~= Map::<Seq<char>, Seq<ScoreEntry>>::empty());
        b
    }

    /// Add a score on the given date: the date's list gains the entry, is
    /// sorted by score (highest first, ties in order of arrival) and keeps
    /// only the top ten. Other dates are untouched.
    pub fn add_score_on(&mut self, date: &str, entry: ScoreEntry)
        ensures
            final(self)@ == boards_with(old(self)@, date@, entry),
            sorted_by_score(final(self)@[date@]),
            final(self)@[date@].len() <= 10,
    {
        let ghost old_scores = self.scores@;
        let ghost e = entry;
        let i = find_date(&self.scores, date);
        proof {
            lemma_first_index_facts(old_scores, for_date(date@));
        }
        if i < self.scores.len() {
            let (key, mut list) = self.scores.remove(i);
            let ghost before = list@;
            assert(before == entries_on(old(self)@, date@));
            list.push(entry);
            let mut sorted = sort_scores(list);
            sorted.truncate(10);
            let ghost kept = sorted@;
            assert(kept =~= board_with(before, e));
            self.scores.insert(i, (key, sorted));
            proof {
                let t = self.scores@;
                assert(t =~= old_scores.update(i as int, t[i as int]));
                lemma_slots_after_update(old_scores, i as int, t[i as int], date@);
                let target = boards_with(old(self)@, date@, e);
                assert forall|d: Seq<char>| #[trigger] self@.contains_key(d) == target.contains_key(d) by {
                    assert(date_slot(t, d) == date_slot(old_scores, d));
                }
                assert forall|d: Seq<char>| #[trigger] self@.contains_key(d) implies self@[d] == target[d] by {
                    assert(date_slot(t, d) == date_slot(old_scores, d));
                    let k = date_slot(old_scores, d);
                    lemma_first_index_facts(old_scores, for_date(d));
                    if d != date@ {
                        assert(for_date(date@)(old_scores[i as int]));
                        assert(k != i);
                        assert(t[k] == old_scores[k]);
                    }
                }
                assert(self@ =~= target);
            }
        } else {
            let mut list: Vec<ScoreEntry> = Vec::new();
            list.push(entry);
            let mut sorted = sort_scores(list);
            sorted.truncate(10);
            assert(Seq::<ScoreEntry>::empty().push(e) =~= list@);
            assert(sorted@ =~= board_with(Seq::empty(), e));
            self.scores.push((String::from_str(date), sorted));
            proof {
                let t = self.scores@;
                assert(t =~= old_scores.push(t.last()));
                lemma_slots_after_push(old_scores, t.last(), date@);
                let target = boards_with(old(self)@, date@, e);
                assert forall|d: Seq<char>| #[trigger] self@.contains_key(d) == target.contains_key(d) by {
                    if d != date@ {
                        assert(date_slot(t, d) == if date_slot(old_scores, d) < old_scores.len() {
                            date_slot(old_scores, d)
                        } else {
                            old_scores.len() + 1int
                        });
                    }
                }
                assert forall|d: Seq<char>| #[trigger] self@.contains_key(d) implies self@[d] == target[d] by {
                    if d != date@ {
                        assert(date_slot(t, d) == if date_slot(old_scores, d) < old_scores.len() {
                            date_slot(old_scores, d)
                        } else {
                            old_scores.len() + 1int
                        });
                        let k = date_slot(old_scores, d);
                        lemma_first_index_facts(old_scores, for_date(d));
                        assert(k < old_scores.len());
                        assert(t[k] == old_scores[k]);
                    }
                }
                assert(self@ =~= target);
            }
        }
        proof {
            lemma_sort_by_score(entries_on(old(self)@, date@).push(e));
        }
    }

    /// Add a score for today.
    pub fn add_score(&mut self, entry: ScoreEntry)
        ensures
            exists|d: Date|
                d.is_valid() && final(self)@ == boards_with(
                    old(self)@,
                    date_text(d.year as int, d.month as int, d.day as int),
                    entry,
                ),
    {
        let date = today_string();
        self.add_score_on(date.as_str(), entry);
    }

    /// Get today's scores.
    pub fn today_scores(&self) -> (s: &[ScoreEntry])
        ensures
            exists|d: Date|
                d.is_valid() && s@ == entries_on(
                    self@,
                    date_text(d.year as int, d.month as int, d.day as int),
                ),
    {
        let date = today_string();
        self.scores_for_date(date.as_str())
    }

    /// Get scores for a specific date.
    pub fn scores_for_date(&self, date: &str) -> (s: &[ScoreEntry])
        ensures
            s@ == entries_on(self@, date@),
    {
        let i = find_date(&self.scores, date);
        if i < self.scores.len() {
            self.scores[i].1.as_slice()
        } else {
            &[]
        }
    }
}

impl Default for Leaderboard {
    fn default() -> (b: Self)
        ensures
            b@ == Map::<Seq<char>, Seq<ScoreEntry>>::empty(),
    {
        Leaderboard::new()
    }
}

} // verus!
