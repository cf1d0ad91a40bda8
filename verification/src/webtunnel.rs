//! Time-based WebTunnel paths.

use std::time::SystemTime;
use vstd::prelude::*;
use vstd::string::StringExecFns;
use vstd::utf8;

use crate::clock;
use crate::config::{AUTH_PERIOD_SECS, MIN_REASONABLE_TIMESTAMP, WT_TOKEN_REFRESH_INTERVAL_SECS};
use crate::digest;
use crate::text;

verus! {

/// The eight bytes of `n`, most significant first.
pub open spec fn big_endian(n: u64) -> Seq<u8> {
    seq![
        (n / 0x100_0000_0000_0000 % 0x100) as u8,
        (n / 0x1_0000_0000_0000 % 0x100) as u8,
        (n / 0x100_0000_0000 % 0x100) as u8,
        (n / 0x1_0000_0000 % 0x100) as u8,
        (n / 0x100_0000 % 0x100) as u8,
        (n / 0x1_0000 % 0x100) as u8,
        (n / 0x100 % 0x100) as u8,
        (n % 0x100) as u8,
    ]
}

/// What a token is the digest of: the certificate text, a version label and
/// the period.
pub open spec fn token_message_of(bridge_cert: Seq<char>, period: u64) -> Seq<u8> {
    utf8::encode_utf8(bridge_cert) + utf8::encode_utf8("webtunnel-v1"@) + big_endian(period)
}

/// The token that a digest gives: its first eight bytes in hexadecimal.
pub open spec fn token_of_digest(digest: Seq<u8>) -> Seq<char> {
    digest::hex_of(digest.take(8))
}

/// Sixteen lower-case hexadecimal digits.
pub open spec fn is_token(s: Seq<char>) -> bool {
    s.len() == 16 && forall|i: int|
        0 <= i < s.len() ==> ('0' <= #[trigger] s[i] <= '9' || 'a' <= s[i] <= 'f')
}

/// The token of a period.
pub open spec fn token_of(bridge_cert: Seq<char>, period: u64) -> Seq<char> {
    token_of_digest(digest::sha256_of(token_message_of(bridge_cert, period)))
}

/// The path that carries a token.
pub open spec fn path_of(base_path: Seq<char>, token: Seq<char>) -> Seq<char> {
    base_path + "/"@ + token
}

/// The period before this one; the first has none and stands for itself.
pub open spec fn period_before(period: u64) -> u64 {
    if period == 0 {
        0
    } else {
        (period - 1) as u64
    }
}

/// The paths that are valid in a period: those of the period before, of the
/// period itself and of the one after.
pub open spec fn paths_at(bridge_cert: Seq<char>, base_path: Seq<char>, period: u64) -> Seq<
    Seq<char>,
> {
    seq![
        path_of(base_path, token_of(bridge_cert, period_before(period))),
        path_of(base_path, token_of(bridge_cert, period)),
        path_of(base_path, token_of(bridge_cert, (period + 1) as u64)),
    ]
}

/// The paths that the relay accepts in a period. An empty base path turns
/// WebTunnel off.
pub open spec fn accepted_paths_at(
    bridge_cert: Seq<char>,
    base_path: Seq<char>,
    period: u64,
) -> Seq<Seq<char>> {
    if base_path.len() == 0 {
        Seq::empty()
    } else {
        paths_at(bridge_cert, base_path, period)
    }
}

/// The texts of some strings.
pub open spec fn texts(v: Seq<String>) -> Seq<Seq<char>> {
    Seq::new(v.len(), |i: int| v[i]@)
}

/// The message that a token is the digest of.
pub fn token_message(bridge_cert: &str, period: u64) -> (m: Vec<u8>)
    ensures
        m@ == token_message_of(bridge_cert@, period),
{
    let mut m: Vec<u8> = Vec::new();
    m.extend_from_slice(bridge_cert.as_bytes());
    m.extend_from_slice("webtunnel-v1".as_bytes());
    m.push((period / 0x100_0000_0000_0000 % 0x100) as u8);
    m.push((period / 0x1_0000_0000_0000 % 0x100) as u8);
    m.push((period / 0x100_0000_0000 % 0x100) as u8);
    m.push((period / 0x1_0000_0000 % 0x100) as u8);
    m.push((period / 0x100_0000 % 0x100) as u8);
    m.push((period / 0x1_0000 % 0x100) as u8);
    m.push((period / 0x100 % 0x100) as u8);
    m.push((period % 0x100) as u8);
    assert(m@ =~= token_message_of(bridge_cert@, period));
    m
}

/// The number that some bytes spell, most significant first.
pub open spec fn bytes_number(bytes: Seq<u8>) -> nat
    decreases bytes.len(),
{
    if bytes.len() == 0 {
        0
    } else {
        bytes_number(bytes.drop_last()) * 0x100 + bytes.last() as nat
    }
}

proof fn lemma_big_endian(n: u64)
    ensures
        bytes_number(big_endian(n)) == n,
{
    let b = big_endian(n);
    let n1 = n / 0x100;
    let n2 = n / 0x1_0000;
    let n3 = n / 0x100_0000;
    let n4 = n / 0x1_0000_0000;
    let n5 = n / 0x100_0000_0000;
    let n6 = n / 0x1_0000_0000_0000;
    let n7 = n / 0x100_0000_0000_0000;
    assert(n7 < 0x100);
    assert(n6 == n7 * 0x100 + n6 % 0x100);
    assert(n5 == n6 * 0x100 + n5 % 0x100);
    assert(n4 == n5 * 0x100 + n4 % 0x100);
    assert(n3 == n4 * 0x100 + n3 % 0x100);
    assert(n2 == n3 * 0x100 + n2 % 0x100);
    assert(n1 == n2 * 0x100 + n1 % 0x100);
    assert(n == n1 * 0x100 + n % 0x100);
    assert(b.take(0) =~= Seq::<u8>::empty());
    lemma_bytes_number_step(b, 0);
    lemma_bytes_number_step(b, 1);
    lemma_bytes_number_step(b, 2);
    lemma_bytes_number_step(b, 3);
    lemma_bytes_number_step(b, 4);
    lemma_bytes_number_step(b, 5);
    lemma_bytes_number_step(b, 6);
    lemma_bytes_number_step(b, 7);
    assert(bytes_number(b.take(0)) == 0);
    assert(bytes_number(b.take(1)) == n7);
    assert(bytes_number(b.take(2)) == n6);
    assert(bytes_number(b.take(3)) == n5);
    assert(bytes_number(b.take(4)) == n4);
    assert(bytes_number(b.take(5)) == n3);
    assert(bytes_number(b.take(6)) == n2);
    assert(bytes_number(b.take(7)) == n1);
    assert(b.take(8) =~= b);
}

proof fn lemma_bytes_number_step(b: Seq<u8>, i: int)
    requires
        0 <= i < b.len(),
    ensures
        bytes_number(b.take(i + 1)) == bytes_number(b.take(i)) * 0x100 + b[i],
{
    assert(b.take(i + 1).drop_last() =~= b.take(i));
}

/// A token's message is the certificate text, the label and then the period:
/// its last eight bytes spell the period, whatever the certificate.
pub proof fn law_message_spells_period(bridge_cert: &str, period: u64, m: Vec<u8>)
    requires
        call_ensures(token_message, (bridge_cert, period), m),
    ensures
        m@.len() >= 8,
        bytes_number(m@.skip(m@.len() - 8)) == period,
        m@.take(m@.len() - 8) == utf8::encode_utf8(bridge_cert@) + utf8::encode_utf8(
            "webtunnel-v1"@,
        ),
{
    lemma_big_endian(period);
    assert(m@.skip(m@.len() - 8) =~= big_endian(period));
    assert(m@.take(m@.len() - 8) =~= utf8::encode_utf8(bridge_cert@) + utf8::encode_utf8(
        "webtunnel-v1"@,
    ));
}

/// No two certificates or periods share a message.
pub proof fn law_message_determines_certificate_and_period(
    cert: &str,
    period: u64,
    m: Vec<u8>,
    other_cert: &str,
    other_period: u64,
    other: Vec<u8>,
)
    requires
        call_ensures(token_message, (cert, period), m),
        call_ensures(token_message, (other_cert, other_period), other),
        m@ == other@,
    ensures
        cert@ == other_cert@,
        period == other_period,
{
    law_message_spells_period(cert, period, m);
    law_message_spells_period(other_cert, other_period, other);
    let label = utf8::encode_utf8("webtunnel-v1"@);
    let a = utf8::encode_utf8(cert@);
    let b = utf8::encode_utf8(other_cert@);
    assert(a + label == b + label);
    assert(a.len() == b.len());
    assert((a + label).take(a.len() as int) =~= a);
    assert((b + label).take(b.len() as int) =~= b);
    utf8::encode_utf8_decode_utf8(cert@);
    utf8::encode_utf8_decode_utf8(other_cert@);
}

/// A token is sixteen lower-case hexadecimal digits that spell the first eight
/// bytes of the SHA-256 digest of its message.
pub proof fn law_token_spells_digest(
    bridge_cert: &str,
    period: u64,
    m: Vec<u8>,
    token: String,
)
    requires
        call_ensures(token_message, (bridge_cert, period), m),
        call_ensures(webtunnel_token, (bridge_cert, period), token),
    ensures
        token@.len() == 16,
        forall|i: int|
            0 <= i < 16 ==> '0' <= #[trigger] token@[i] <= '9' || 'a' <= token@[i] <= 'f',
        forall|i: int|
            0 <= i < 8 ==> text::digit_value(token@[2 * i], 16)->0 * 16 + text::digit_value(
                token@[2 * i + 1],
                16,
            )->0 == #[trigger] digest::sha256_of(m@)[i],
{
    let digest = digest::sha256_of(m@);
    digest::law_hexadecimal_reads_back(digest.take(8));
    assert forall|i: int| 0 <= i < 8 implies text::digit_value(token@[2 * i], 16)->0 * 16
        + text::digit_value(token@[2 * i + 1], 16)->0 == #[trigger] digest[i] by {
        assert(digest.take(8)[i] == digest[i]);
    }
}

/// The token that a digest gives: its first eight bytes in hexadecimal.
pub fn token_from_digest(digest: &[u8]) -> (token: String)
    requires
        digest@.len() >= 8,
    ensures
        token@ == token_of_digest(digest@),
        is_token(token@),
{
    let head: &[u8] = vstd::slice::slice_subrange(digest, 0, 8);
    assert(head@ =~= digest@.take(8));
    digest::hex_lower(head)
}

/// The WebTunnel token of a period: sixteen hexadecimal digits that relay and
/// client derive alike from the bridge certificate text and the period.
pub fn webtunnel_token(bridge_cert: &str, period: u64) -> (token: String)
    ensures
        token@ == token_of(bridge_cert@, period),
        is_token(token@),
        digest::sha256_of(token_message_of(bridge_cert@, period)).len() == 32,
{
    let message: Vec<u8> = token_message(bridge_cert, period);
    let digest: Vec<u8> = digest::sha256(message.as_slice());
    token_from_digest(digest.as_slice())
}

/// The path that carries a token.
pub fn path_with_token(base_path: &str, token: &str) -> (path: String)
    ensures
        path@ == path_of(base_path@, token@),
{
    base_path.to_owned().concat("/").concat(token)
}

/// The paths that are valid in a period, with one period of tolerance either way.
pub fn valid_wt_paths_at(bridge_cert: &str, base_path: &str, period: u64) -> (paths: Vec<String>)
    requires
        period < u64::MAX,
    ensures
        texts(paths@) == paths_at(bridge_cert@, base_path@, period),
{
    let before: u64 = if period == 0 {
        0
    } else {
        period - 1
    };
    let mut paths: Vec<String> = Vec::new();
    paths.push(path_with_token(base_path, webtunnel_token(bridge_cert, before).as_str()));
    paths.push(path_with_token(base_path, webtunnel_token(bridge_cert, period).as_str()));
    paths.push(path_with_token(base_path, webtunnel_token(bridge_cert, period + 1).as_str()));
    assert(texts(paths@) =~= paths_at(bridge_cert@, base_path@, period));
    paths
}

/// The paths that the relay accepts in a period: none where the base path is empty.
pub fn accepted_wt_paths_at(bridge_cert: &str, base_path: &str, period: u64) -> (paths: Vec<
    String,
>)
    requires
        period < u64::MAX,
    ensures
        texts(paths@) == accepted_paths_at(bridge_cert@, base_path@, period),
{
    if text::chars_of(base_path).len() == 0 {
        let none: Vec<String> = Vec::new();
        assert(texts(none@) =~= Seq::<Seq<char>>::empty());
        none
    } else {
        valid_wt_paths_at(bridge_cert, base_path, period)
    }
}

/// Whether `path` is one of the valid paths.
pub fn is_valid_path(valid_paths: &[String], path: &str) -> (r: bool)
    ensures
        r == texts(valid_paths@).contains(path@),
{
    let wanted: Vec<char> = text::chars_of(path);
    let mut i: usize = 0;
    while i < valid_paths.len()
        invariant
            i <= valid_paths@.len(),
            wanted@ == path@,
            forall|j: int| 0 <= j < i ==> (#[trigger] texts(valid_paths@)[j]) != path@,
        decreases valid_paths@.len() - i,
    {
        let candidate: Vec<char> = text::chars_of(valid_paths[i].as_str());
        if text::same_chars(candidate.as_slice(), wanted.as_slice()) {
            assert(texts(valid_paths@)[i as int] == path@);
            return true;
        }
        i = i + 1;
    }
    false
}

/// A path is valid exactly where it is one of the list, letter for letter.
pub proof fn law_valid_path_is_listed(valid_paths: &[String], path: &str, r: bool)
    requires
        call_ensures(is_valid_path, (valid_paths, path), r),
    ensures
        r <==> exists|i: int| 0 <= i < valid_paths@.len() && (#[trigger] valid_paths@[i])@ == path@,
{
    let all = texts(valid_paths@);
    if r {
        let i = all.index_of(path@);
        assert(valid_paths@[i]@ == path@);
    }
    if exists|i: int| 0 <= i < valid_paths@.len() && (#[trigger] valid_paths@[i])@ == path@ {
        let i = choose|i: int| 0 <= i < valid_paths@.len() && (#[trigger] valid_paths@[i])@ == path@;
        assert(all[i] == path@);
    }
}

/// The valid paths of a period are its base path, a slash and the token of the
/// period before, of the period itself and of the one after, in that order.
pub proof fn law_valid_paths_carry_three_tokens(
    bridge_cert: &str,
    base_path: &str,
    period: u64,
    before: String,
    now: String,
    after: String,
    paths: Vec<String>,
)
    requires
        period < u64::MAX,
        call_ensures(
            webtunnel_token,
            (
                bridge_cert,
                (if period == 0 {
                    0
                } else {
                    period - 1
                }) as u64,
            ),
            before,
        ),
        call_ensures(webtunnel_token, (bridge_cert, period), now),
        call_ensures(webtunnel_token, (bridge_cert, (period + 1) as u64), after),
        call_ensures(valid_wt_paths_at, (bridge_cert, base_path, period), paths),
    ensures
        paths@.len() == 3,
        paths@[0]@ == base_path@ + seq!['/'] + before@,
        paths@[1]@ == base_path@ + seq!['/'] + now@,
        paths@[2]@ == base_path@ + seq!['/'] + after@,
{
    reveal_strlit("/");
    assert("/"@ =~= seq!['/']);
    let t = texts(paths@);
    assert(t.len() == 3);
    assert(t[0] == paths@[0]@ && t[1] == paths@[1]@ && t[2] == paths@[2]@);
}

/// What the relay accepts, and what a cache of it holds, are the valid paths;
/// with an empty base path there are none.
pub proof fn law_accepted_paths_are_the_valid_ones(
    bridge_cert: &str,
    base_path: &str,
    period: u64,
    valid: Vec<String>,
    accepted: Vec<String>,
    cache: WtTokenCache,
    held: Vec<String>,
)
    requires
        call_ensures(valid_wt_paths_at, (bridge_cert, base_path, period), valid),
        call_ensures(accepted_wt_paths_at, (bridge_cert, base_path, period), accepted),
        call_ensures(WtTokenCache::new_at, (bridge_cert, base_path, period), cache),
        call_ensures(WtTokenCache::get, (&cache,), held),
    ensures
        accepted@.len() == held@.len(),
        forall|i: int| 0 <= i < held@.len() ==> (#[trigger] held@[i])@ == accepted@[i]@,
        base_path@.len() == 0 ==> accepted@.len() == 0,
        base_path@.len() > 0 ==> accepted@.len() == valid@.len() && forall|i: int|
            0 <= i < valid@.len() ==> (#[trigger] accepted@[i])@ == valid@[i]@,
{
    let a = texts(accepted@);
    let h = texts(held@);
    let v = texts(valid@);
    assert(a.len() == accepted@.len() && h.len() == held@.len() && v.len() == valid@.len());
    assert forall|i: int| 0 <= i < held@.len() implies (#[trigger] held@[i])@ == accepted@[i]@ by {
        assert(h[i] == held@[i]@ && a[i] == accepted@[i]@);
    }
    if base_path@.len() > 0 {
        assert forall|i: int| 0 <= i < valid@.len() implies (#[trigger] accepted@[i])@
            == valid@[i]@ by {
            assert(v[i] == valid@[i]@ && a[i] == accepted@[i]@);
        }
    }
}

/// A clock is wrong before the year 2025.
pub proof fn law_clock_before_2025_is_wrong(now: u64, r: bool)
    requires
        call_ensures(clock_is_wrong, (now,), r),
    ensures
        r <==> now < 1_735_689_600,
{
}

/// Periods are five minutes long, one after the other from the Unix epoch on.
pub proof fn law_periods_are_five_minutes(now: u64, period: u64)
    requires
        call_ensures(auth_period_at, (now,), period),
    ensures
        period * 300 <= now < (period + 1) * 300,
{
}

/// A reading of the wall clock lies in the period of its whole seconds since
/// the epoch; one before the epoch lies in the first period.
pub proof fn law_reading_lies_in_its_period(t: SystemTime)
    requires
        clock::unix_seconds_at(t) <= u64::MAX,
    ensures
        clock::span_since_epoch(t) matches Some(d) ==> period_at(t) * 300_000_000_000
            <= clock::nanos_of(d) < (period_at(t) + 1) * 300_000_000_000,
        clock::span_since_epoch(t) is None ==> period_at(t) == 0,
{
}

/// The period that a Unix time lies in.
pub open spec fn period_of(now: u64) -> u64 {
    now / AUTH_PERIOD_SECS
}

/// The period that a Unix time lies in.
pub fn auth_period_at(now: u64) -> (period: u64)
    ensures
        period == period_of(now),
{
    now / AUTH_PERIOD_SECS
}

/// Whether a Unix time is too early to be right, so that tokens may not match.
pub fn clock_is_wrong(now: u64) -> (r: bool)
    ensures
        r == (now < MIN_REASONABLE_TIMESTAMP),
{
    now < MIN_REASONABLE_TIMESTAMP
}

/// The period that a reading of the system clock lies in.
pub open spec fn period_at(t: SystemTime) -> u64 {
    period_of(clock::unix_seconds_at(t) as u64)
}

/// The current period by the system clock.
pub fn current_auth_period() -> (period: u64)
    ensures
        exists|t: SystemTime|
            call_ensures(SystemTime::now, (), t) && period == #[trigger] period_at(t),
        period < u64::MAX,
{
    let now: u64 = clock::unix_seconds();
    let ghost t = choose|t: SystemTime|
        call_ensures(SystemTime::now, (), t) && now == #[trigger] clock::unix_seconds_at(t);
    let period: u64 = auth_period_at(now);
    assert(period == period_at(t));
    period
}

/// The paths that were accepted in the period in which they were last computed.
pub struct WtTokenCache {
    paths: Vec<String>,
}

impl View for WtTokenCache {
    type V = Seq<Seq<char>>;

    closed spec fn view(&self) -> Seq<Seq<char>> {
        texts(self.paths@)
    }
}

impl WtTokenCache {
    /// The paths of the given period.
    pub fn new_at(bridge_cert: &str, base_path: &str, period: u64) -> (cache: Self)
        requires
            period < u64::MAX,
        ensures
            cache@ == accepted_paths_at(bridge_cert@, base_path@, period),
    {
        WtTokenCache { paths: accepted_wt_paths_at(bridge_cert, base_path, period) }
    }

    /// The paths of the current period.
    pub fn new(bridge_cert: &str, base_path: &str) -> (cache: Self)
        ensures
            exists|t: SystemTime|
                call_ensures(SystemTime::now, (), t) && cache@ == accepted_paths_at(bridge_cert@, base_path@, #[trigger] period_at(t)),
    {
        let period: u64 = current_auth_period();
        WtTokenCache::new_at(bridge_cert, base_path, period)
    }

    /// The cached paths.
    pub fn get(&self) -> (paths: Vec<String>)
        ensures
            texts(paths@) == self@,
    {
        let paths: Vec<String> = self.paths.clone();
        assert(texts(paths@) =~= texts(self.paths@));
        paths
    }

    /// Replaces the cached paths by those of the given period.
    pub fn refresh_at(&mut self, bridge_cert: &str, base_path: &str, period: u64)
        requires
            period < u64::MAX,
        ensures
            final(self)@ == accepted_paths_at(bridge_cert@, base_path@, period),
    {
        self.paths = accepted_wt_paths_at(bridge_cert, base_path, period);
    }

    /// Replaces the cached paths by those of the current period.
    pub fn refresh(&mut self, bridge_cert: &str, base_path: &str)
        ensures
            exists|t: SystemTime|
                call_ensures(SystemTime::now, (), t) && final(self)@ == accepted_paths_at(
                    bridge_cert@,
                    base_path@,
                    #[trigger] period_at(t),
                ),
    {
        let period: u64 = current_auth_period();
        self.refresh_at(bridge_cert, base_path, period);
    }
}

/// A client whose clock is off by no more than one period, five minutes, uses
/// a valid path, and one that the relay accepts unless WebTunnel is off.
pub proof fn law_clock_drift_is_tolerated(
    bridge_cert: Seq<char>,
    base_path: Seq<char>,
    relay_now: u64,
    client_now: u64,
)
    requires
        relay_now <= client_now + AUTH_PERIOD_SECS,
        client_now <= relay_now + AUTH_PERIOD_SECS,
    ensures
        paths_at(bridge_cert, base_path, period_of(relay_now)).contains(
            path_of(base_path, token_of(bridge_cert, period_of(client_now))),
        ),
        base_path.len() > 0 ==> accepted_paths_at(
            bridge_cert,
            base_path,
            period_of(relay_now),
        ).contains(path_of(base_path, token_of(bridge_cert, period_of(client_now)))),
{
    let r = period_of(relay_now);
    let c = period_of(client_now);
    let paths = paths_at(bridge_cert, base_path, r);
    let path = path_of(base_path, token_of(bridge_cert, c));
    assert(r <= c + 1 && c <= r + 1);
    if c == period_before(r) {
        assert(paths[0] == path);
    } else if c == r {
        assert(paths[1] == path);
    } else {
        assert(paths[2] == path);
    }
}

/// Paths that were computed no longer ago than the refresh interval still hold
/// the path of the current period, and so do the accepted ones unless WebTunnel
/// is off.
pub proof fn law_refresh_keeps_current_path(
    bridge_cert: Seq<char>,
    base_path: Seq<char>,
    refreshed: u64,
    now: u64,
)
    requires
        refreshed <= now <= refreshed + WT_TOKEN_REFRESH_INTERVAL_SECS,
    ensures
        paths_at(bridge_cert, base_path, period_of(refreshed)).contains(
            path_of(base_path, token_of(bridge_cert, period_of(now))),
        ),
        base_path.len() > 0 ==> accepted_paths_at(
            bridge_cert,
            base_path,
            period_of(refreshed),
        ).contains(path_of(base_path, token_of(bridge_cert, period_of(now)))),
{
    law_clock_drift_is_tolerated(bridge_cert, base_path, refreshed, now);
}

/// A valid path is that of a period at most one away.
pub proof fn law_valid_path_is_of_near_period(
    bridge_cert: Seq<char>,
    base_path: Seq<char>,
    period: u64,
    path: Seq<char>,
)
    requires
        period < u64::MAX,
        paths_at(bridge_cert, base_path, period).contains(path),
    ensures
        exists|p: u64|
            p <= period + 1 && period <= p + 1 && path == path_of(
                base_path,
                #[trigger] token_of(bridge_cert, p),
            ),
{
    let paths = paths_at(bridge_cert, base_path, period);
    let i = paths.index_of(path);
    if i == 0 {
        assert(path == path_of(base_path, token_of(bridge_cert, period_before(period))));
    } else if i == 1 {
        assert(path == path_of(base_path, token_of(bridge_cert, period)));
    } else {
        assert(path == path_of(base_path, token_of(bridge_cert, (period + 1) as u64)));
    }
}

} // verus!
