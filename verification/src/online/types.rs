//! Online leaderboard types.

use hmac::{Hmac, Mac};
use sha2::Sha256;
use vstd::prelude::*;
use vstd::string::StringSliceAdditionalSpecFns;
use vstd::utf8::encode_utf8;

verus! {

/// Time period for leaderboard filtering.
#[derive(Debug, Clone, Copy, PartialEq, Eq, Structural)]
pub enum LeaderboardPeriod {
    Daily,
    Weekly,
    AllTime,
}

/// How a period is written: in URLs and on screen.
pub open spec fn period_text(p: LeaderboardPeriod) -> Seq<char> {
    match p {
        LeaderboardPeriod::Daily => "daily"@,
        LeaderboardPeriod::Weekly => "weekly"@,
        LeaderboardPeriod::AllTime => "all-time"@,
    }
}

impl LeaderboardPeriod {
    /// The period's name: `daily`, `weekly` or `all-time`.
    pub fn to_string(&self) -> (s: String)
        ensures
            s@ == period_text(*self),
    {
        match self {
            LeaderboardPeriod::Daily => String::from_str("daily"),
            LeaderboardPeriod::Weekly => String::from_str("weekly"),
            LeaderboardPeriod::AllTime => String::from_str("all-time"),
        }
    }
}

impl Default for LeaderboardPeriod {
    fn default() -> (p: Self)
        ensures
            p == LeaderboardPeriod::AllTime,
    {
        LeaderboardPeriod::AllTime
    }
}

/// A score entry in the leaderboard.
#[derive(Debug)]
pub struct LeaderboardEntry {
    pub rank: u32,
    pub player_name: String,
    pub score: u32,
    pub floor_reached: u32,
    pub turns_taken: u32,
    /// When the score was submitted, in seconds since the Unix epoch (UTC).
    pub submitted_at: i64,
}

/// Response from leaderboard fetch.
#[derive(Debug)]
pub struct LeaderboardResponse {
    pub period: LeaderboardPeriod,
    pub entries: Vec<LeaderboardEntry>,
    pub total_players: u32,
    pub your_rank: Option<u32>,
}

/// The version of the game that submissions carry.
pub const GAME_VERSION: &'static str = "0.3.0";

/// Score submission for anti-cheat verification.
#[derive(Debug, Clone)]
pub struct ScoreSubmission {
    pub player_name: String,
    pub score: u32,
    pub floor_reached: u32,
    pub turns_taken: u32,
    pub game_seed: u64,
    pub game_version: String,
    pub signature: String,
}

/// The HMAC-SHA256 code of `message` under `key` (RFC 2104 over the SHA-256
/// of FIPS 180-4), as `hmac::Hmac<sha2::Sha256>` computes it.
pub uninterp spec fn hmac_sha256(key: Seq<u8>, message: Seq<u8>) -> Seq<u8>;

/// `Hmac::<Sha256>::new_from_slice(key)`, then `update(message)` and
/// `finalize().into_bytes()`: the 32-byte code. `new_from_slice` accepts a
/// key of any length (longer keys are hashed first), so it never fails.
#[verifier::external_body]
fn hmac_sha256_bytes(key: &[u8], message: &[u8]) -> (mac: Vec<u8>)
    ensures
        mac@ == hmac_sha256(key@, message@),
        mac@.len() == 32,
{
    let mut m = <Hmac<Sha256> as Mac>::new_from_slice(key).expect("HMAC takes keys of any length");
    m.update(message);
    m.finalize().into_bytes().to_vec()
}

/// The `n` low bytes of `v`, least significant first.
pub open spec fn le_bytes(v: nat, n: nat) -> Seq<u8>
    decreases n,
{
    if n == 0 {
        Seq::empty()
    } else {
        seq![(v % 256) as u8] + le_bytes(v / 256, (n - 1) as nat)
    }
}

/// A text field of the signed message: its UTF-8 length as eight bytes,
/// then its UTF-8 bytes.
pub open spec fn text_field(s: Seq<char>) -> Seq<u8> {
    le_bytes(encode_utf8(s).len(), 8) + encode_utf8(s)
}

/// The bytes a submission's signature covers: the player name, score,
/// floor, turns, seed and game version, in that order, each integer as its
/// little-endian bytes (four for the `u32`s, eight for the seed).
pub open spec fn submission_message(s: ScoreSubmission) -> Seq<u8> {
    text_field(s.player_name@) + le_bytes(s.score as nat, 4) + le_bytes(s.floor_reached as nat, 4)
        + le_bytes(s.turns_taken as nat, 4) + le_bytes(s.game_seed as nat, 8) + text_field(
        s.game_version@,
    )
}

/// Append the `n` low bytes of `v`, least significant first.
fn push_le(out: &mut Vec<u8>, v: u64, n: u32)
    requires
        n <= 8,
    ensures
        final(out)@ == old(out)@ + le_bytes(v as nat, n as nat),
{
    let mut x: u64 = v;
    let mut i: u32 = 0;
    while i < n
        invariant
            i <= n,
            out@ + le_bytes(x as nat, (n - i) as nat) == old(out)@ + le_bytes(v as nat, n as nat),
        decreases n - i,
    {
        let ghost before = out@;
        let ghost k = (n - i) as nat;
        assert(le_bytes(x as nat, k) == seq![(x % 256) as u8] + le_bytes((x / 256) as nat, (k - 1) as nat));
        out.push((x % 256) as u8);
        assert(out@ + le_bytes((x / 256) as nat, (k - 1) as nat) =~= before + le_bytes(x as nat, k));
        x = x / 256;
        i = i + 1;
    }
    assert(out@ + le_bytes(x as nat, 0) =~= out@);
}

/// Append the bytes of `b`.
fn push_bytes(out: &mut Vec<u8>, b: &[u8])
    ensures
        final(out)@ == old(out)@ + b@,
{
    let mut i: usize = 0;
    while i < b.len()
        invariant
            i <= b@.len(),
            out@ == old(out)@ + b@.take(i as int),
        decreases b@.len() - i,
    {
        out.push(b[i]);
        assert(b@.take(i + 1) =~= b@.take(i as int).push(b@[i as int]));
        assert(out@ =~= old(out)@ + b@.take(i + 1));
        i = i + 1;
    }
    assert(b@.take(i as int) =~= b@);
}

/// Append a text field.
fn push_text(out: &mut Vec<u8>, s: &String)
    ensures
        final(out)@ == old(out)@ + text_field(s@),
{
    let bytes = s.as_str().as_bytes();
    assert(bytes@ == encode_utf8(s@));
    push_le(out, bytes.len() as u64, 8);
    push_bytes(out, bytes);
    assert(out@ =~= old(out)@ + text_field(s@));
}

/// The lowercase hexadecimal digit of `d` (0 to 15).
pub open spec fn hex_digit(d: int) -> char {
    if d < 10 {
        ('0' as int + d) as char
    } else {
        ('a' as int + d - 10) as char
    }
}

/// The last `count` hexadecimal digits of `n`, zero-padded, most significant first.
pub open spec fn hex_digits(n: nat, count: nat) -> Seq<char>
    decreases count,
{
    if count == 0 {
        Seq::empty()
    } else {
        hex_digits(n / 16, (count - 1) as nat).push(hex_digit((n % 16) as int))
    }
}

/// Bytes as lowercase hexadecimal text, two digits each.
pub open spec fn hex_bytes(b: Seq<u8>) -> Seq<char>
    decreases b.len(),
{
    if b.len() == 0 {
        Seq::empty()
    } else {
        hex_bytes(b.drop_last()) + hex_digits(b.last() as nat, 2)
    }
}

/// Two hexadecimal digits per byte.
proof fn lemma_hex_bytes_len(b: Seq<u8>)
    ensures
        hex_bytes(b).len() == 2 * b.len(),
    decreases b.len(),
{
    if b.len() > 0 {
        lemma_hex_bytes_len(b.drop_last());
        assert(hex_digits(b.last() as nat, 2).len() == 2) by {
            reveal_with_fuel(hex_digits, 3);
        }
    }
}

/// The signature that a submission's fields and a secret give: the
/// HMAC-SHA256 code of the submission's message under the secret, as 64
/// lowercase hexadecimal digits.
pub open spec fn signature_of(s: ScoreSubmission, secret: Seq<u8>) -> Seq<char> {
    hex_bytes(hmac_sha256(secret, submission_message(s)))
}

/// The one-character text of a hexadecimal digit.
fn hex_digit_text(d: u64) -> (s: &'static str)
    requires
        d < 16,
    ensures
        s@ == seq![hex_digit(d as int)],
{
    let digits = "0123456789abcdef";
    proof {
        reveal_strlit("0123456789abcdef");
    }
    let s = digits.substring_char(d as usize, d as usize + 1);
    assert(s@ =~= seq![digits@[d as int]]);
    s
}

/// The last `count` hexadecimal digits of `n`, zero-padded.
fn hex_text(n: u64, count: u32) -> (s: String)
    ensures
        s@ == hex_digits(n as nat, count as nat),
    decreases count,
{
    if count == 0 {
        String::new()
    } else {
        let mut s = hex_text(n / 16, count - 1);
        s.append(hex_digit_text(n % 16));
        s
    }
}

/// Bytes as lowercase hexadecimal text.
fn hex_bytes_text(b: &Vec<u8>) -> (s: String)
    ensures
        s@ == hex_bytes(b@),
{
    let mut s = String::new();
    let mut i: usize = 0;
    while i < b.len()
        invariant
            i <= b@.len(),
            s@ == hex_bytes(b@.take(i as int)),
        decreases b@.len() - i,
    {
        let t = hex_text(b[i] as u64, 2);
        s.append(t.as_str());
        assert(b@.take(i + 1).drop_last() =~= b@.take(i as int));
        i = i + 1;
    }
    assert(b@.take(i as int) =~= b@);
    s
}

/// The message a submission's signature covers.
fn message_bytes(s: &ScoreSubmission) -> (m: Vec<u8>)
    ensures
        m@ == submission_message(*s),
{
    let mut m: Vec<u8> = Vec::new();
    push_text(&mut m, &s.player_name);
    push_le(&mut m, s.score as u64, 4);
    push_le(&mut m, s.floor_reached as u64, 4);
    push_le(&mut m, s.turns_taken as u64, 4);
    push_le(&mut m, s.game_seed, 8);
    push_text(&mut m, &s.game_version);
    assert(m@ =~= submission_message(*s));
    m
}

impl ScoreSubmission {
    /// Create a new, unsigned score submission for this version of the game.
    pub fn new(player_name: String, score: u32, floor_reached: u32, turns_taken: u32, game_seed: u64) -> (s: Self)
        ensures
            s.player_name@ == player_name@,
            s.score == score,
            s.floor_reached == floor_reached,
            s.turns_taken == turns_taken,
            s.game_seed == game_seed,
            s.game_version@ == GAME_VERSION@,
            s.signature@ == Seq::<char>::empty(),
    {
        ScoreSubmission {
            player_name,
            score,
            floor_reached,
            turns_taken,
            game_seed,
            game_version: String::from_str(GAME_VERSION),
            signature: String::new(),
        }
    }

    /// Sign the submission with HMAC-SHA256 under the secret key: the
    /// signature becomes the code of every other field, as hexadecimal text.
    pub fn sign(&mut self, secret: &[u8])
        ensures
            final(self).signature@ == signature_of(*old(self), secret@),
            final(self).signature@.len() == 64,
            final(self).player_name == old(self).player_name,
            final(self).score == old(self).score,
            final(self).floor_reached == old(self).floor_reached,
            final(self).turns_taken == old(self).turns_taken,
            final(self).game_seed == old(self).game_seed,
            final(self).game_version == old(self).game_version,
    {
        let message = message_bytes(self);
        let mac = hmac_sha256_bytes(secret, message.as_slice());
        proof {
            lemma_hex_bytes_len(mac@);
        }
        self.signature = hex_bytes_text(&mac);
    }

    /// Verify the submission signature: it is the one that signing the
    /// other fields with this secret gives.
    pub fn verify(&self, secret: &[u8]) -> (ok: bool)
        ensures
            ok == (self.signature@ == signature_of(*self, secret@)),
    {
        let message = message_bytes(self);
        let mac = hmac_sha256_bytes(secret, message.as_slice());
        let expected = hex_bytes_text(&mac);
        expected == self.signature
    }
}

/// Signing a submission and then verifying it with the same secret accepts
/// it: the signature covers every field but itself.
pub proof fn lemma_sign_then_verify(s: ScoreSubmission, signed: ScoreSubmission, secret: Seq<u8>)
    requires
        signed.signature@ == signature_of(s, secret),
        signed.player_name == s.player_name,
        signed.score == s.score,
        signed.floor_reached == s.floor_reached,
        signed.turns_taken == s.turns_taken,
        signed.game_seed == s.game_seed,
        signed.game_version == s.game_version,
    ensures
        signed.signature@ == signature_of(signed, secret),
{
}

/// Response from score submission.
#[derive(Debug, Clone)]
pub struct SubmitResponse {
    pub success: bool,
    pub rank: Option<u32>,
    pub message: String,
}

/// The server that online play uses unless configured otherwise.
pub const DEFAULT_SERVER_URL: &'static str = "https://hexcaster.blackabee.com/api";

/// Online leaderboard configuration.
#[derive(Debug, Clone)]
pub struct OnlineConfig {
    pub enabled: bool,
    pub server_url: String,
    pub player_name: Option<String>,
}

impl Default for OnlineConfig {
    fn default() -> (c: Self)
        ensures
            !c.enabled,
            c.server_url@ == DEFAULT_SERVER_URL@,
            c.player_name is None,
    {
        OnlineConfig {
            enabled: false,
            server_url: String::from_str(DEFAULT_SERVER_URL),
            player_name: None,
        }
    }
}

} // verus!
