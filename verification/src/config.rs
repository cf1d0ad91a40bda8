//! Limits, defaults, the relay's settings and the trusted proxy ranges.

use vstd::arithmetic::power2;
use vstd::prelude::*;

use crate::addr;
use crate::addr::IpAddr;
use crate::notation;
use crate::text;

verus! {

/// Listening address when `LISTEN_ADDR` is not set.
pub const DEFAULT_LISTEN: &'static str = "0.0.0.0:443";

/// State directory when `STATE_DIR` is not set.
pub const DEFAULT_STATE: &'static str = "/data";

/// Name on the TLS certificate when `TLS_SNI_HOST` is not set.
pub const DEFAULT_SNI: &'static str = "fra1.digitaloceanspaces.com";

/// WebSocket path when `WT_PATH` is not set. The path is visible in HTTP
/// Upgrade requests, so it looks like a generic API endpoint. Where `WT_PATH` is
/// set and empty, WebTunnel is off.
pub const DEFAULT_WT_PATH: &'static str = "/api/stream";

/// Second listening address when `ALT_LISTEN_ADDR` is not set: no second listener.
pub const DEFAULT_ALT_LISTEN: &'static str = "";

/// Trusted proxy ranges when `TRUSTED_PROXIES` is not set: the Docker bridge networks.
pub const DEFAULT_TRUSTED_PROXIES: &'static str = "172.16.0.0/12";

/// Protocol offered to the upstream server in the TLS handshake. gRPC needs HTTP/2.
pub const UPSTREAM_ALPN: &'static str = "h2";

/// Concurrent connections over all addresses.
pub const MAX_GLOBAL_CONNECTIONS: usize = 2048;

/// Seconds that a TLS handshake may take.
pub const TLS_ACCEPT_TIMEOUT_SECS: u64 = 10;

/// Seconds in one authentication period.
pub const AUTH_PERIOD_SECS: u64 = 300;

/// Concurrent connections per address when `MAX_CONNS_PER_IP` is not set.
pub const DEFAULT_MAX_CONNS_PER_IP: usize = 24;

/// Authentication failures after which an address enters cooldown.
pub const AUTH_FAIL_THRESHOLD: usize = 3;

/// Nanoseconds that a blocked address stays in cooldown: one day.
pub const AUTH_FAIL_COOLDOWN_NANOS: u128 = 86_400_000_000_000;

/// Seconds between two purges of the failure table.
pub const AUTH_FAIL_CLEANUP_INTERVAL_SECS: u64 = 300;

/// Nanoseconds after which an entry below the threshold is stale: one day.
pub const AUTH_FAIL_ENTRY_TTL_NANOS: u128 = 86_400_000_000_000;

/// Seconds between two refreshes of the cached WebTunnel paths.
pub const WT_TOKEN_REFRESH_INTERVAL_SECS: u64 = 150;

/// Milliseconds before the decoy response goes out.
pub const DECOY_DELAY_MILLIS: u64 = 500;

/// Seconds of grace that open connections get at shutdown.
pub const SHUTDOWN_GRACE_SECS: u64 = 10;

/// Seconds of silence before the first TCP keepalive probe.
pub const KEEPALIVE_IDLE_SECS: u64 = 15;

/// Seconds between two TCP keepalive probes.
pub const KEEPALIVE_INTERVAL_SECS: u64 = 5;

/// TCP keepalive probes without an answer after which a connection is dead.
pub const KEEPALIVE_RETRIES: u32 = 3;

/// Bytes of a connection that are looked at before its transport is known.
pub const PEEK_CAPACITY: usize = 8192;

/// Unix time of 2025-01-01 00:00 UTC. An earlier clock is wrong.
pub const MIN_REASONABLE_TIMESTAMP: u64 = 1_735_689_600;

/// The width of the addresses of this family.
pub open spec fn width(ip: IpAddr) -> nat {
    match ip {
        IpAddr::V4(_) => 32,
        IpAddr::V6(_) => 128,
    }
}

/// The number of bits that a prefix leaves open in an address of this width.
pub open spec fn host_bits(width: nat, prefix: nat) -> nat {
    if prefix >= width {
        0
    } else {
        (width - prefix) as nat
    }
}

/// `ip` and `net` are of one family and agree in their first `prefix` bits. A
/// prefix beyond the address's width asks for all of its bits.
pub open spec fn in_network(ip: IpAddr, net: IpAddr, prefix: nat) -> bool {
    match (ip, net) {
        (IpAddr::V4(a), IpAddr::V4(b)) => a as nat / power2::pow2(host_bits(32, prefix)) == b as nat / power2::pow2(
            host_bits(32, prefix),
        ),
        (IpAddr::V6(a), IpAddr::V6(b)) => a as nat / power2::pow2(host_bits(128, prefix)) == b as nat
            / power2::pow2(host_bits(128, prefix)),
        _ => false,
    }
}

/// The number of addresses of each width.
proof fn lemma_whole_width()
    ensures
        power2::pow2(0) == 1,
        power2::pow2(32) == 0x1_0000_0000,
        power2::pow2(128) == u128::MAX + 1,
{
    power2::lemma2_to64();
    power2::lemma_pow2_adds(64, 64);
}

/// Whether `ip` lies in the network of `net` with the given prefix length.
pub fn ip_in_cidr(ip: IpAddr, net: IpAddr, prefix: u8) -> (r: bool)
    ensures
        r == in_network(ip, net, prefix as nat),
{
    proof {
        lemma_whole_width();
    }
    match (ip, net) {
        (IpAddr::V4(ip), IpAddr::V4(net)) => {
            if prefix == 0 {
                assert(ip as nat / 0x1_0000_0000 == 0 && net as nat / 0x1_0000_0000 == 0);
                return true;
            }
            if prefix >= 32 {
                assert(ip as nat / 1 == ip && net as nat / 1 == net);
                return ip == net;
            }
            let shift: u32 = 32 - prefix as u32;
            proof {
                vstd::bits::lemma_u32_shr_is_div(ip, shift);
                vstd::bits::lemma_u32_shr_is_div(net, shift);
            }
            (ip >> shift) == (net >> shift)
        },
        (IpAddr::V6(ip), IpAddr::V6(net)) => {
            if prefix == 0 {
                assert(ip as nat / power2::pow2(128) == 0 && net as nat / power2::pow2(128) == 0) by {
                    vstd::arithmetic::div_mod::lemma_basic_div(ip as int, power2::pow2(128) as int);
                    vstd::arithmetic::div_mod::lemma_basic_div(net as int, power2::pow2(128) as int);
                }
                return true;
            }
            if prefix >= 128 {
                assert(ip as nat / 1 == ip && net as nat / 1 == net);
                return ip == net;
            }
            let shift: u128 = 128 - prefix as u128;
            proof {
                vstd::bits::lemma_u128_shr_is_div(ip, shift);
                vstd::bits::lemma_u128_shr_is_div(net, shift);
            }
            (ip >> shift) == (net >> shift)
        },
        _ => false,
    }
}

/// `ip` lies in one of the ranges.
pub open spec fn is_trusted(ip: IpAddr, proxies: Seq<(IpAddr, u8)>) -> bool {
    exists|i: int|
        0 <= i < proxies.len() && in_network(ip, (#[trigger] proxies[i]).0, proxies[i].1 as nat)
}

/// Whether `ip` lies in one of the trusted proxy ranges.
pub fn is_trusted_proxy(ip: IpAddr, proxies: &[(IpAddr, u8)]) -> (r: bool)
    ensures
        r == is_trusted(ip, proxies@),
{
    let mut i: usize = 0;
    while i < proxies.len()
        invariant
            i <= proxies@.len(),
            forall|j: int|
                0 <= j < i ==> !in_network(
                    ip,
                    (#[trigger] proxies@[j]).0,
                    proxies@[j].1 as nat,
                ),
        decreases proxies@.len() - i,
    {
        let entry: (IpAddr, u8) = proxies[i];
        if ip_in_cidr(ip, entry.0, entry.1) {
            assert(in_network(ip, proxies@[i as int].0, proxies@[i as int].1 as nat));
            return true;
        }
        i = i + 1;
    }
    false
}

/// The range that one item of the list writes: an address with its prefix
/// length behind a slash, or an address alone, which stands for itself. White
/// space around the item and around the slash is ignored.
pub open spec fn proxy_range(item: Seq<char>) -> Option<(IpAddr, u8)> {
    let s = text::trim(item);
    let n = text::find(s, '/') as int;
    if n < s.len() {
        let ip = addr::ip_value(text::trim(s.take(n)));
        let prefix = text::unsigned_value(text::trim(s.skip(n + 1)), 255);
        if ip is Some && prefix is Some {
            Some((ip->0, prefix->0 as u8))
        } else {
            None
        }
    } else {
        match addr::ip_value(s) {
            Some(ip) => Some((ip, width(ip) as u8)),
            None => None,
        }
    }
}

/// The ranges that the items write, in order; items that write none are skipped.
pub open spec fn proxy_ranges(items: Seq<Seq<char>>) -> Seq<(IpAddr, u8)>
    decreases items.len(),
{
    if items.len() == 0 {
        Seq::empty()
    } else {
        let before = proxy_ranges(items.drop_last());
        match proxy_range(items.last()) {
            Some(range) => before.push(range),
            None => before,
        }
    }
}

fn parse_proxy_range(item: &[char]) -> (r: Option<(IpAddr, u8)>)
    ensures
        r == proxy_range(item@),
{
    let s: &[char] = text::trim_chars(item);
    let n: usize = text::find_char(s, '/');
    if n < s.len() {
        let ip_part: &[char] = vstd::slice::slice_subrange(s, 0, n);
        let prefix_part: &[char] = vstd::slice::slice_subrange(s, n + 1, s.len());
        assert(ip_part@ =~= s@.take(n as int));
        assert(prefix_part@ =~= s@.skip(n + 1));
        match (
            addr::parse_ip_chars(text::trim_chars(ip_part)),
            text::parse_unsigned(text::trim_chars(prefix_part), 255),
        ) {
            (Some(ip), Some(prefix)) => Some((ip, prefix as u8)),
            _ => None,
        }
    } else {
        match addr::parse_ip_chars(s) {
            Some(ip) => {
                let prefix: u8 = match ip {
                    IpAddr::V4(_) => 32,
                    IpAddr::V6(_) => 128,
                };
                Some((ip, prefix))
            },
            None => None,
        }
    }
}

/// Parses a comma-separated list of addresses and CIDR ranges. Items that do
/// not parse are skipped.
pub fn parse_trusted_proxies(raw: &str) -> (ranges: Vec<(IpAddr, u8)>)
    ensures
        ranges@ == proxy_ranges(text::split_on(raw@, ',')),
{
    let chars: Vec<char> = text::chars_of(raw);
    let items: Vec<&[char]> = text::split_chars(chars.as_slice(), ',');
    let ghost all = text::split_on(raw@, ',');
    let mut ranges: Vec<(IpAddr, u8)> = Vec::new();
    let mut i: usize = 0;
    assert(all.take(0) =~= Seq::<Seq<char>>::empty());
    while i < items.len()
        invariant
            i <= items@.len(),
            items@.len() == all.len(),
            forall|j: int| 0 <= j < items@.len() ==> (#[trigger] items@[j])@ == all[j],
            ranges@ == proxy_ranges(all.take(i as int)),
        decreases items@.len() - i,
    {
        assert(items@[i as int]@ == all[i as int]);
        assert(all.take(i + 1).drop_last() =~= all.take(i as int));
        match parse_proxy_range(items[i]) {
            Some(range) => {
                ranges.push(range);
            },
            None => {},
        }
        i = i + 1;
    }
    assert(all.take(i as int) =~= all);
    ranges
}

/// An address lies in every range that is written with that address.
pub proof fn law_network_contains_its_address(ip: IpAddr, prefix: nat)
    ensures
        in_network(ip, ip, prefix),
{
}

/// A range never matches an address of the other family.
pub proof fn law_families_are_apart(a: u32, b: u128, prefix: nat)
    ensures
        !in_network(IpAddr::V4(a), IpAddr::V6(b), prefix),
        !in_network(IpAddr::V6(b), IpAddr::V4(a), prefix),
{
}

/// The empty prefix matches every address of the family.
pub proof fn law_empty_prefix_matches_family(ip: IpAddr, net: IpAddr)
    requires
        width(ip) == width(net),
    ensures
        in_network(ip, net, 0),
{
    lemma_whole_width();
    match (ip, net) {
        (IpAddr::V4(a), IpAddr::V4(b)) => {
            assert(a as nat / 0x1_0000_0000 == 0 && b as nat / 0x1_0000_0000 == 0);
        },
        (IpAddr::V6(a), IpAddr::V6(b)) => {
            vstd::arithmetic::div_mod::lemma_basic_div(a as int, power2::pow2(128) as int);
            vstd::arithmetic::div_mod::lemma_basic_div(b as int, power2::pow2(128) as int);
        },
        _ => {},
    }
}

/// A prefix that covers the whole address matches that address alone.
pub proof fn law_full_prefix_is_equality(ip: IpAddr, net: IpAddr, prefix: nat)
    requires
        prefix >= width(net),
    ensures
        in_network(ip, net, prefix) <==> ip == net,
{
    lemma_whole_width();
    match (ip, net) {
        (IpAddr::V4(a), IpAddr::V4(b)) => {
            assert(a as nat / 1 == a && b as nat / 1 == b);
        },
        (IpAddr::V6(a), IpAddr::V6(b)) => {
            assert(a as nat / 1 == a && b as nat / 1 == b);
        },
        _ => {},
    }
}

proof fn lemma_fewer_bits_agree(a: nat, b: nat, fewer: nat, more: nat)
    requires
        fewer <= more,
        a / power2::pow2(fewer) == b / power2::pow2(fewer),
    ensures
        a / power2::pow2(more) == b / power2::pow2(more),
{
    let d = power2::pow2(fewer);
    let e = power2::pow2((more - fewer) as nat);
    power2::lemma_pow2_pos(fewer);
    power2::lemma_pow2_pos((more - fewer) as nat);
    power2::lemma_pow2_adds(fewer, (more - fewer) as nat);
    vstd::arithmetic::div_mod::lemma_div_denominator(a as int, d as int, e as int);
    vstd::arithmetic::div_mod::lemma_div_denominator(b as int, d as int, e as int);
}

/// A shorter prefix matches at least what a longer one does.
pub proof fn law_shorter_prefix_is_wider(ip: IpAddr, net: IpAddr, longer: nat, shorter: nat)
    requires
        shorter <= longer,
        in_network(ip, net, longer),
    ensures
        in_network(ip, net, shorter),
{
    match (ip, net) {
        (IpAddr::V4(a), IpAddr::V4(b)) => {
            lemma_fewer_bits_agree(
                a as nat,
                b as nat,
                host_bits(32, longer),
                host_bits(32, shorter),
            );
        },
        (IpAddr::V6(a), IpAddr::V6(b)) => {
            lemma_fewer_bits_agree(
                a as nat,
                b as nat,
                host_bits(128, longer),
                host_bits(128, shorter),
            );
        },
        _ => {},
    }
}

/// Two numbers agree above their lowest `low` bits exactly where all their
/// bits from there on are the same.
proof fn lemma_quotients_are_bits(a: nat, b: nat, low: nat, width: nat)
    requires
        low <= width,
        a < power2::pow2(width),
        b < power2::pow2(width),
    ensures
        a / power2::pow2(low) == b / power2::pow2(low) <==> (forall|j: nat|
            low <= j < width ==> #[trigger] (a / power2::pow2(j)) % 2 == (b / power2::pow2(j)) % 2),
    decreases width - low,
{
    let d = power2::pow2(low);
    power2::lemma_pow2_pos(low);
    if low == width {
        vstd::arithmetic::div_mod::lemma_basic_div(a as int, d as int);
        vstd::arithmetic::div_mod::lemma_basic_div(b as int, d as int);
    } else {
        lemma_quotients_are_bits(a, b, low + 1, width);
        power2::lemma_pow2_unfold(low + 1);
        vstd::arithmetic::div_mod::lemma_div_denominator(a as int, d as int, 2);
        vstd::arithmetic::div_mod::lemma_div_denominator(b as int, d as int, 2);
        let qa = a / d;
        let qb = b / d;
        assert(d * 2 == power2::pow2(low + 1)) by {
            assert(2 * d == d * 2);
        }
        assert(a / power2::pow2(low + 1) == qa / 2);
        assert(b / power2::pow2(low + 1) == qb / 2);
        assert(qa == qb <==> qa / 2 == qb / 2 && qa % 2 == qb % 2);
        if forall|j: nat|
            low <= j < width ==> #[trigger] (a / power2::pow2(j)) % 2 == (b / power2::pow2(j)) % 2 {
            assert((a / power2::pow2(low)) % 2 == (b / power2::pow2(low)) % 2);
        }
    }
}

/// An IPv4 address lies in a range exactly where each of its first `prefix`
/// bits, counted from the most significant, is that of the network.
pub proof fn law_prefix_compares_bits_v4(ip: u32, net: u32, prefix: u8, r: bool)
    requires
        call_ensures(ip_in_cidr, (IpAddr::V4(ip), IpAddr::V4(net), prefix), r),
    ensures
        r <==> (forall|k: int|
            0 <= k < 32 && k < prefix ==> (ip as nat / #[trigger] power2::pow2((31 - k) as nat)) % 2
                == (net as nat / power2::pow2((31 - k) as nat)) % 2),
{
    lemma_whole_width();
    let low = (if prefix >= 32 {
        0
    } else {
        32 - prefix
    }) as nat;
    let a = ip as nat;
    let b = net as nat;
    lemma_quotients_are_bits(a, b, low, 32);
    if r {
        assert forall|k: int| 0 <= k < 32 && k < prefix implies (a / #[trigger] power2::pow2(
            (31 - k) as nat,
        )) % 2 == (b / power2::pow2((31 - k) as nat)) % 2 by {
            assert(low <= (31 - k) as nat);
            assert((a / power2::pow2((31 - k) as nat)) % 2 == (b / power2::pow2((31 - k) as nat))
                % 2);
        }
    } else if forall|k: int|
        0 <= k < 32 && k < prefix ==> (a / #[trigger] power2::pow2((31 - k) as nat)) % 2 == (b
            / power2::pow2((31 - k) as nat)) % 2 {
        assert forall|j: nat| low <= j < 32 implies #[trigger] (a / power2::pow2(j)) % 2 == (b
            / power2::pow2(j)) % 2 by {
            assert(power2::pow2((31 - (31 - j)) as nat) == power2::pow2(j));
        }
    }
}

/// An IPv6 address lies in a range exactly where each of its first `prefix`
/// bits, counted from the most significant, is that of the network.
pub proof fn law_prefix_compares_bits_v6(ip: u128, net: u128, prefix: u8, r: bool)
    requires
        call_ensures(ip_in_cidr, (IpAddr::V6(ip), IpAddr::V6(net), prefix), r),
    ensures
        r <==> (forall|k: int|
            0 <= k < 128 && k < prefix ==> (ip as nat / #[trigger] power2::pow2((127 - k) as nat))
                % 2 == (net as nat / power2::pow2((127 - k) as nat)) % 2),
{
    lemma_whole_width();
    let low = (if prefix >= 128 {
        0
    } else {
        128 - prefix
    }) as nat;
    let a = ip as nat;
    let b = net as nat;
    lemma_quotients_are_bits(a, b, low, 128);
    if r {
        assert forall|k: int| 0 <= k < 128 && k < prefix implies (a / #[trigger] power2::pow2(
            (127 - k) as nat,
        )) % 2 == (b / power2::pow2((127 - k) as nat)) % 2 by {
            assert(low <= (127 - k) as nat);
            assert((a / power2::pow2((127 - k) as nat)) % 2 == (b / power2::pow2((127 - k) as nat))
                % 2);
        }
    } else if forall|k: int|
        0 <= k < 128 && k < prefix ==> (a / #[trigger] power2::pow2((127 - k) as nat)) % 2 == (b
            / power2::pow2((127 - k) as nat)) % 2 {
        assert forall|j: nat| low <= j < 128 implies #[trigger] (a / power2::pow2(j)) % 2 == (b
            / power2::pow2(j)) % 2 by {
            assert(power2::pow2((127 - (127 - j)) as nat) == power2::pow2(j));
        }
    }
}

/// Two addresses that differ in a bit share no range whose prefix covers it.
pub proof fn law_differing_bit_parts_addresses(
    a: u32,
    b: u32,
    net: u32,
    k: int,
    prefix: u8,
    ra: bool,
    rb: bool,
)
    requires
        0 <= k < 32,
        k < prefix,
        (a as nat / power2::pow2((31 - k) as nat)) % 2 != (b as nat / power2::pow2((31 - k) as nat))
            % 2,
        call_ensures(ip_in_cidr, (IpAddr::V4(a), IpAddr::V4(net), prefix), ra),
        call_ensures(ip_in_cidr, (IpAddr::V4(b), IpAddr::V4(net), prefix), rb),
    ensures
        !(ra && rb),
{
    law_prefix_compares_bits_v4(a, net, prefix, ra);
    law_prefix_compares_bits_v4(b, net, prefix, rb);
}

/// Numbers with the same quotient are those between two multiples.
proof fn lemma_quotient_is_interval(a: nat, b: nat, d: nat)
    requires
        d > 0,
    ensures
        a / d == b / d <==> b - b % d <= a < b - b % d + d,
{
    let q = b / d;
    vstd::arithmetic::div_mod::lemma_fundamental_div_mod(a as int, d as int);
    vstd::arithmetic::div_mod::lemma_fundamental_div_mod(b as int, d as int);
    assert(b - b % d == d * q);
    if d * q <= a < d * q + d {
        vstd::arithmetic::div_mod::lemma_fundamental_div_mod_converse(
            a as int,
            d as int,
            q as int,
            a - d * q,
        );
    }
}

/// A range of IPv4 addresses holds exactly the addresses of one aligned block,
/// whose size is two to the number of bits that the prefix leaves open.
pub proof fn law_range_is_aligned_block_v4(net: u32, prefix: u8)
    requires
        prefix <= 32,
    ensures
        forall|ip: u32, r: bool|
            #[trigger] call_ensures(ip_in_cidr, (IpAddr::V4(ip), IpAddr::V4(net), prefix), r) ==> (r
                <==> net - net as nat % power2::pow2((32 - prefix) as nat) <= ip < net - net as nat
                % power2::pow2((32 - prefix) as nat) + power2::pow2((32 - prefix) as nat)),
        Set::new(
            |n: int|
                0 <= n <= u32::MAX && in_network(
                    IpAddr::V4(n as u32),
                    IpAddr::V4(net),
                    prefix as nat,
                ),
        ).len() == power2::pow2((32 - prefix) as nat),
{
    lemma_whole_width();
    let open = (32 - prefix) as nat;
    let size = power2::pow2(open);
    let low = net - net as nat % size;
    power2::lemma_pow2_pos(open);
    assert forall|n: u32|
        in_network(IpAddr::V4(n), IpAddr::V4(net), prefix as nat) <==> low <= n < low + size by {
        lemma_quotient_is_interval(n as nat, net as nat, size);
    }
    let top = power2::pow2(prefix as nat);
    power2::lemma_pow2_adds(prefix as nat, open);
    power2::lemma_pow2_pos(prefix as nat);
    assert(0 <= low && low + size <= 0x1_0000_0000) by {
        vstd::arithmetic::div_mod::lemma_fundamental_div_mod(net as int, size as int);
        let q = net as nat / size;
        assert(q < top) by (nonlinear_arith)
            requires
                size * q <= net,
                net < top * size,
                size > 0,
        ;
        assert(size * q + size <= top * size) by (nonlinear_arith)
            requires
                q < top,
                size > 0,
        ;
    }
    let held = Set::new(
        |n: int|
            0 <= n <= u32::MAX && in_network(IpAddr::V4(n as u32), IpAddr::V4(net), prefix as nat),
    );
    assert(held =~= vstd::set_lib::set_int_range(low, low + size));
    vstd::set_lib::lemma_int_range(low, low + size);
}

/// A range of IPv6 addresses holds exactly the addresses of one aligned block,
/// whose size is two to the number of bits that the prefix leaves open.
pub proof fn law_range_is_aligned_block_v6(net: u128, prefix: u8)
    requires
        prefix <= 128,
    ensures
        forall|ip: u128, r: bool|
            #[trigger] call_ensures(ip_in_cidr, (IpAddr::V6(ip), IpAddr::V6(net), prefix), r) ==> (r
                <==> net - net as nat % power2::pow2((128 - prefix) as nat) <= ip < net - net as nat
                % power2::pow2((128 - prefix) as nat) + power2::pow2((128 - prefix) as nat)),
{
    lemma_whole_width();
    let open = (128 - prefix) as nat;
    let size = power2::pow2(open);
    power2::lemma_pow2_pos(open);
    assert forall|n: u128|
        in_network(IpAddr::V6(n), IpAddr::V6(net), prefix as nat) <==> net - net as nat % size <= n
            < net - net as nat % size + size by {
        lemma_quotient_is_interval(n as nat, net as nat, size);
    }
}

/// No address lies in a range of the other family, whatever the prefix.
pub proof fn law_other_family_never_matches(a: u32, b: u128, prefix: u8, r: bool)
    requires
        call_ensures(ip_in_cidr, (IpAddr::V4(a), IpAddr::V6(b), prefix), r) || call_ensures(
            ip_in_cidr,
            (IpAddr::V6(b), IpAddr::V4(a), prefix),
            r,
        ),
    ensures
        !r,
{
}

/// An address is trusted by a list exactly where one of the list's ranges holds it.
pub proof fn law_trusted_by_some_range(
    ip: IpAddr,
    proxies: &[(IpAddr, u8)],
    matches: Seq<bool>,
    r: bool,
)
    requires
        call_ensures(is_trusted_proxy, (ip, proxies), r),
        matches.len() == proxies@.len(),
        forall|i: int|
            0 <= i < proxies@.len() ==> call_ensures(
                ip_in_cidr,
                (ip, (#[trigger] proxies@[i]).0, proxies@[i].1),
                matches[i],
            ),
    ensures
        r <==> matches.contains(true),
{
    if r {
        let i = choose|i: int|
            0 <= i < proxies@.len() && in_network(
                ip,
                (#[trigger] proxies@[i]).0,
                proxies@[i].1 as nat,
            );
        assert(matches[i]);
    }
    if matches.contains(true) {
        let i = matches.index_of(true);
        assert(in_network(ip, proxies@[i].0, proxies@[i].1 as nat));
    }
}

/// A list trusts what either of its parts trusts; an empty one trusts nobody.
pub proof fn law_trust_adds_up(ip: IpAddr, a: Seq<(IpAddr, u8)>, b: Seq<(IpAddr, u8)>)
    ensures
        is_trusted(ip, a + b) <==> is_trusted(ip, a) || is_trusted(ip, b),
        !is_trusted(ip, Seq::empty()),
{
    let both = a + b;
    if is_trusted(ip, a) {
        let i = choose|i: int|
            0 <= i < a.len() && in_network(ip, (#[trigger] a[i]).0, a[i].1 as nat);
        assert(both[i] == a[i]);
    }
    if is_trusted(ip, b) {
        let i = choose|i: int|
            0 <= i < b.len() && in_network(ip, (#[trigger] b[i]).0, b[i].1 as nat);
        assert(both[a.len() + i] == b[i]);
    }
    if is_trusted(ip, both) {
        let i = choose|i: int|
            0 <= i < both.len() && in_network(ip, (#[trigger] both[i]).0, both[i].1 as nat);
        if i < a.len() {
            assert(a[i] == both[i]);
        } else {
            assert(b[i - a.len()] == both[i]);
        }
    }
}

proof fn lemma_proxy_ranges_concat(a: Seq<Seq<char>>, b: Seq<Seq<char>>)
    ensures
        proxy_ranges(a + b) == proxy_ranges(a) + proxy_ranges(b),
    decreases b.len(),
{
    if b.len() == 0 {
        assert(a + b =~= a);
        assert(proxy_ranges(a) + proxy_ranges(b) =~= proxy_ranges(a));
    } else {
        assert((a + b).drop_last() =~= a + b.drop_last());
        lemma_proxy_ranges_concat(a, b.drop_last());
        assert(proxy_ranges(a + b) =~= proxy_ranges(a) + proxy_ranges(b));
    }
}

/// A list joined from two lists with a comma writes the ranges of the first
/// and then those of the second.
pub proof fn law_proxy_lists_join(a: Seq<char>, b: Seq<char>)
    ensures
        proxy_ranges(text::split_on(a + seq![','] + b, ',')) == proxy_ranges(
            text::split_on(a, ','),
        ) + proxy_ranges(text::split_on(b, ',')),
{
    text::lemma_split_on_join(a, b, ',');
    lemma_proxy_ranges_concat(text::split_on(a, ','), text::split_on(b, ','));
}

/// A range with its address in the given notation: address, slash and prefix.
pub open spec fn range_text(notation: Seq<char>, prefix: u8) -> Seq<char> {
    notation + seq!['/'] + text::decimal(prefix as nat)
}

/// An address alone is a range of that one address, and white space around it,
/// or around a range, or around its slash, is ignored.
pub proof fn law_item_may_be_bare_or_spaced(
    ip: IpAddr,
    notation: Seq<char>,
    prefix: u8,
    a: Seq<char>,
    b: Seq<char>,
    c: Seq<char>,
    d: Seq<char>,
)
    requires
        addr::ip_value(notation) == Some(ip),
        text::is_blank(a),
        text::is_blank(b),
        text::is_blank(c),
        text::is_blank(d),
    ensures
        proxy_range(a + notation + b) == Some(
            (
                ip,
                match ip {
                    IpAddr::V4(_) => 32u8,
                    IpAddr::V6(_) => 128u8,
                },
            ),
        ),
        proxy_range(
            a + (notation + b + seq!['/'] + c + text::decimal(prefix as nat)) + d,
        ) == Some((ip, prefix)),
{
    let digits = text::decimal(prefix as nat);
    let none = Seq::<char>::empty();
    text::lemma_decimal(prefix as nat);
    text::law_decimal_reads_back(prefix as nat, 255);
    addr::lemma_address_characters(notation);
    if notation.len() == 0 {
        addr::lemma_empty_is_no_address();
        assert(notation =~= none);
    }
    assert forall|i: int| 0 <= i < digits.len() implies '0' <= #[trigger] digits[i] <= '9' by {
        assert(text::digit_value(digits[i], 10) is Some);
    }
    assert(addr::is_address_character(notation[0]));
    assert(addr::is_address_character(notation[notation.len() - 1]));
    text::law_trim_takes_outer_white_space(a, notation, b);
    assert forall|i: int| 0 <= i < notation.len() implies notation[i] != '/' by {
        assert(addr::is_address_character(notation[i]));
    }
    text::lemma_find_unique(notation, '/', notation.len() as int);
    let s = notation + b + seq!['/'] + c + digits;
    assert(s[0] == notation[0]);
    assert(s.last() == digits.last());
    assert(digits.last() == digits[digits.len() - 1]);
    text::law_trim_takes_outer_white_space(a, s, d);
    let n = (notation.len() + b.len()) as int;
    assert forall|i: int| 0 <= i < n implies s[i] != '/' by {
        if i < notation.len() {
            assert(s[i] == notation[i]);
        } else {
            assert(s[i] == b[i - notation.len()]);
            assert(text::is_white_space(b[i - notation.len()]));
        }
    }
    text::lemma_find_unique(s, '/', n);
    assert(s.take(n) =~= none + notation + b);
    assert(s.skip(n + 1) =~= c + digits + none);
    text::law_trim_takes_outer_white_space(none, notation, b);
    text::law_trim_takes_outer_white_space(c, digits, none);
}

/// A prefix above 255, or a text that is no number, makes the item no range;
/// so does a text that is no address.
pub proof fn law_malformed_item_is_skipped(
    notation: Seq<char>,
    prefix: Seq<char>,
)
    requires
        !notation.contains('/'),
        addr::ip_value(text::trim(notation)) is None || text::unsigned_value(
            text::trim(prefix),
            255,
        ) is None,
        notation.len() > 0 ==> !text::is_white_space(notation[0]),
        prefix.len() > 0 ==> !text::is_white_space(prefix.last()),
    ensures
        proxy_range(notation + seq!['/'] + prefix) is None,
{
    let s = notation + seq!['/'] + prefix;
    let n = notation.len() as int;
    text::lemma_trim_keeps(s);
    assert forall|i: int| 0 <= i < n implies s[i] != '/' by {
        assert(s[i] == notation[i]);
        assert(notation.contains(notation[i]));
    }
    text::lemma_find_unique(s, '/', n);
    assert(s.take(n) =~= notation);
    assert(s.skip(n + 1) =~= prefix);
}

/// The ranges, each with its address in the given notation.
pub open spec fn range_texts(
    ranges: Seq<(IpAddr, u8)>,
    notations: Seq<Seq<char>>,
) -> Seq<Seq<char>> {
    Seq::new(ranges.len(), |i: int| range_text(notations[i], ranges[i].1))
}

/// The ranges, each with its address in the canonical notation.
pub open spec fn canonical_range_texts(ranges: Seq<(IpAddr, u8)>) -> Seq<Seq<char>> {
    Seq::new(ranges.len(), |i: int| range_text(notation::ip_text(ranges[i].0), ranges[i].1))
}

proof fn lemma_range_reads_back(ip: IpAddr, notation: Seq<char>, prefix: u8)
    requires
        addr::ip_value(notation) == Some(ip),
    ensures
        proxy_range(range_text(notation, prefix)) == Some((ip, prefix)),
        !range_text(notation, prefix).contains(','),
{
    let s = range_text(notation, prefix);
    let n = notation.len() as int;
    let digits = text::decimal(prefix as nat);
    text::lemma_decimal(prefix as nat);
    text::law_decimal_reads_back(prefix as nat, 255);
    addr::lemma_address_characters(notation);
    assert forall|i: int| 0 <= i < digits.len() implies '0' <= #[trigger] digits[i] <= '9' by {
        assert(text::digit_value(digits[i], 10) is Some);
    }
    assert forall|i: int| 0 <= i < s.len() implies s[i] != ',' && !text::is_white_space(s[i]) by {
        if i < n {
            assert(s[i] == notation[i]);
        } else if i > n {
            assert(s[i] == digits[i - n - 1]);
        }
    }
    text::lemma_trim_keeps(s);
    assert forall|i: int| 0 <= i < n implies s[i] != '/' by {
        assert(s[i] == notation[i]);
    }
    text::lemma_find_unique(s, '/', n);
    assert(s.take(n) =~= notation);
    assert(s.skip(n + 1) =~= digits);
    text::lemma_trim_keeps(notation);
    text::lemma_trim_keeps(digits);
}

/// A list of ranges, each written as address, slash and prefix and joined with
/// commas, reads back: the same ranges in the same order, whatever their
/// prefixes, and in whichever notation the addresses are written.
pub proof fn law_range_list_reads_back(
    ranges: Seq<(IpAddr, u8)>,
    notations: Seq<Seq<char>>,
)
    requires
        notations.len() == ranges.len(),
        forall|i: int|
            0 <= i < ranges.len() ==> addr::ip_value(#[trigger] notations[i]) == Some(
                ranges[i].0,
            ),
    ensures
        proxy_ranges(text::split_on(text::joined(range_texts(ranges, notations), ','), ','))
            == ranges,
{
    let items = range_texts(ranges, notations);
    if ranges.len() == 0 {
        let none = Seq::<char>::empty();
        text::lemma_split_on_whole(none, ',');
        text::lemma_trim_keeps(none);
        addr::lemma_empty_is_no_address();
        assert(proxy_range(none) is None);
        assert(seq![none].drop_last() =~= Seq::<Seq<char>>::empty());
        assert(proxy_ranges(seq![none].drop_last()) =~= ranges);
        assert(items =~= Seq::<Seq<char>>::empty());
    } else {
        assert forall|i: int| 0 <= i < items.len() implies !(#[trigger] items[i]).contains(',')
            && proxy_range(items[i]) == Some(ranges[i]) by {
            lemma_range_reads_back(ranges[i].0, notations[i], ranges[i].1);
        }
        text::law_joined_pieces_come_apart(items, ',');
        lemma_items_give_ranges(items, ranges);
    }
}

proof fn lemma_items_give_ranges(items: Seq<Seq<char>>, ranges: Seq<(IpAddr, u8)>)
    requires
        items.len() == ranges.len(),
        forall|i: int| 0 <= i < items.len() ==> proxy_range(#[trigger] items[i]) == Some(ranges[i]),
    ensures
        proxy_ranges(items) == ranges,
    decreases items.len(),
{
    if items.len() > 0 {
        assert forall|i: int| 0 <= i < items.drop_last().len() implies proxy_range(
            #[trigger] items.drop_last()[i],
        ) == Some(ranges.drop_last()[i]) by {
            assert(items.drop_last()[i] == items[i]);
        }
        lemma_items_give_ranges(items.drop_last(), ranges.drop_last());
        assert(items.last() == items[items.len() - 1]);
    }
    assert(proxy_ranges(items) =~= ranges);
}

/// A list of ranges in the canonical notation reads back unchanged.
pub proof fn law_canonical_range_list_reads_back(ranges: Seq<(IpAddr, u8)>)
    ensures
        proxy_ranges(text::split_on(text::joined(canonical_range_texts(ranges), ','), ','))
            == ranges,
{
    let notations = Seq::new(ranges.len(), |i: int| notation::ip_text(ranges[i].0));
    assert forall|i: int| 0 <= i < ranges.len() implies addr::ip_value(#[trigger] notations[i])
        == Some(ranges[i].0) by {
        notation::law_address_reads_back(ranges[i].0);
    }
    law_range_list_reads_back(ranges, notations);
    assert(range_texts(ranges, notations) =~= canonical_range_texts(ranges));
}

/// The relay's environment variables; `None` where one is not set.
pub struct EnvVars {
    /// `UPSTREAM`
    pub upstream: Option<String>,
    /// `UPSTREAM_TLS`
    pub upstream_tls: Option<String>,
    /// `LISTEN_ADDR`
    pub listen_addr: Option<String>,
    /// `ALT_LISTEN_ADDR`
    pub alt_listen_addr: Option<String>,
    /// `STATE_DIR`
    pub state_dir: Option<String>,
    /// `TLS_SNI_HOST`
    pub tls_sni_host: Option<String>,
    /// `WT_PATH`
    pub wt_path: Option<String>,
    /// `MAX_CONNS_PER_IP`
    pub max_conns_per_ip: Option<String>,
    /// `TRUSTED_PROXIES`
    pub trusted_proxies: Option<String>,
}

/// What the relay runs with.
pub struct Settings {
    pub upstream: String,
    pub upstream_tls: bool,
    pub listen: String,
    pub alt_listen: String,
    pub state_dir: String,
    pub sni: String,
    pub wt_path: String,
    pub max_conns_per_ip: usize,
    pub trusted_proxies: Vec<(IpAddr, u8)>,
}

/// Why there are no settings.
#[derive(Clone, Copy, Debug, PartialEq, Eq, Structural)]
pub enum SettingsError {
    /// `UPSTREAM` is not set.
    MissingUpstream,
}

/// The value of the variable, or the default where it is not set.
pub open spec fn value_or(var: Option<String>, default: Seq<char>) -> Seq<char> {
    match var {
        Some(v) => v@,
        None => default,
    }
}

/// `UPSTREAM_TLS` turns re-encryption off with `0` or with `false` in any case.
pub open spec fn tls_wanted(v: Seq<char>) -> bool {
    !text::same_ignoring_ascii_case(v, "false"@) && v != "0"@
}

impl Settings {
    /// Reads the settings out of the environment.
    pub fn from_env(env: EnvVars) -> (r: Result<Settings, SettingsError>)
        ensures
            r is Ok <==> env.upstream is Some,
            r matches Err(e) ==> e == SettingsError::MissingUpstream,
            r matches Ok(s) ==> {
                &&& s.upstream@ == env.upstream->0@
                &&& s.upstream_tls == (env.upstream_tls matches Some(v) ==> tls_wanted(v@))
                &&& s.listen@ == value_or(env.listen_addr, DEFAULT_LISTEN@)
                &&& s.alt_listen@ == value_or(env.alt_listen_addr, DEFAULT_ALT_LISTEN@)
                &&& s.state_dir@ == value_or(env.state_dir, DEFAULT_STATE@)
                &&& s.sni@ == value_or(env.tls_sni_host, DEFAULT_SNI@)
                &&& s.wt_path@ == value_or(env.wt_path, DEFAULT_WT_PATH@)
                &&& s.max_conns_per_ip == max_conns_setting(env.max_conns_per_ip)
                &&& s.trusted_proxies@ == proxy_ranges(
                    text::split_on(value_or(env.trusted_proxies, DEFAULT_TRUSTED_PROXIES@), ','),
                )
            },
    {
        let upstream: String = match env.upstream {
            Some(v) => v,
            None => {
                return Err(SettingsError::MissingUpstream);
            },
        };
        let upstream_tls: bool = match &env.upstream_tls {
            Some(v) => wants_tls(v.as_str()),
            None => true,
        };
        let max_conns_per_ip: usize = match &env.max_conns_per_ip {
            Some(v) => parse_max_conns(v.as_str()),
            None => DEFAULT_MAX_CONNS_PER_IP,
        };
        let trusted_proxies: Vec<(IpAddr, u8)> = match &env.trusted_proxies {
            Some(v) => parse_trusted_proxies(v.as_str()),
            None => parse_trusted_proxies(DEFAULT_TRUSTED_PROXIES),
        };
        Ok(
            Settings {
                upstream,
                upstream_tls,
                listen: or_default(env.listen_addr, DEFAULT_LISTEN),
                alt_listen: or_default(env.alt_listen_addr, DEFAULT_ALT_LISTEN),
                state_dir: or_default(env.state_dir, DEFAULT_STATE),
                sni: or_default(env.tls_sni_host, DEFAULT_SNI),
                wt_path: or_default(env.wt_path, DEFAULT_WT_PATH),
                max_conns_per_ip,
                trusted_proxies,
            },
        )
    }
}

/// TLS towards the upstream server is off exactly where the variable is `0` or
/// `false` in any case; it is on where the variable is not set.
pub proof fn law_tls_is_on_unless_turned_off(env: EnvVars, s: Settings)
    requires
        call_ensures(Settings::from_env, (env,), Ok(s)),
    ensures
        env.upstream_tls is None ==> s.upstream_tls,
        env.upstream_tls matches Some(v) ==> (!s.upstream_tls <==> v@ == seq!['0'] || (v@.len() == 5
            && (v@[0] == 'f' || v@[0] == 'F') && (v@[1] == 'a' || v@[1] == 'A') && (v@[2] == 'l'
            || v@[2] == 'L') && (v@[3] == 's' || v@[3] == 'S') && (v@[4] == 'e' || v@[4] == 'E'))),
{
    reveal_strlit("0");
    reveal_strlit("false");
    assert("0"@ =~= seq!['0']);
    assert("false"@ =~= seq!['f', 'a', 'l', 's', 'e']);
    if env.upstream_tls is Some {
        let v = env.upstream_tls->0@;
        if v.len() == 5 && text::same_ignoring_ascii_case(v, "false"@) {
            assert(text::ascii_lower(v[0]) == 'f');
            assert(text::ascii_lower(v[1]) == 'a');
            assert(text::ascii_lower(v[2]) == 'l');
            assert(text::ascii_lower(v[3]) == 's');
            assert(text::ascii_lower(v[4]) == 'e');
        }
    }
}

/// The limit per address is the number that the variable spells, whatever it
/// is; where it is not set, or spells none, the limit is 24.
pub proof fn law_limit_is_the_number_set(env: EnvVars, s: Settings, n: usize)
    requires
        call_ensures(Settings::from_env, (env,), Ok(s)),
    ensures
        env.max_conns_per_ip is None ==> s.max_conns_per_ip == 24,
        env.max_conns_per_ip matches Some(v) ==> {
            &&& v@ == text::decimal(n as nat) ==> s.max_conns_per_ip == n
            &&& v@.len() == 0 ==> s.max_conns_per_ip == 24
            &&& forall|i: int|
                0 <= i < v@.len() && !('0' <= #[trigger] v@[i] <= '9') && (i > 0 || v@[i] != '+')
                    ==> s.max_conns_per_ip == 24
        },
{
    text::law_decimal_reads_back(n as nat, usize::MAX as nat);
    if env.max_conns_per_ip is Some {
        let v = env.max_conns_per_ip->0@;
        assert forall|i: int|
            0 <= i < v.len() && !('0' <= #[trigger] v[i] <= '9') && (i > 0 || v[i]
                != '+') implies s.max_conns_per_ip == 24 by {
            text::law_unsigned_is_bounded_and_all_digits(0, usize::MAX as nat, v, i);
        }
    }
}

/// Settings are had exactly where the upstream server is set. Each text setting
/// is its variable's text, or where that is not set its default.
pub proof fn law_settings_follow_the_environment(
    env: EnvVars,
    r: Result<Settings, SettingsError>,
)
    requires
        call_ensures(Settings::from_env, (env,), r),
    ensures
        r is Ok <==> env.upstream is Some,
        r matches Ok(s) ==> {
            &&& s.upstream@ == env.upstream->0@
            &&& env.listen_addr matches Some(v) ==> s.listen@ == v@
            &&& env.listen_addr is None ==> s.listen@ == "0.0.0.0:443"@
            &&& env.alt_listen_addr matches Some(v) ==> s.alt_listen@ == v@
            &&& env.alt_listen_addr is None ==> s.alt_listen@ == ""@
            &&& env.state_dir matches Some(v) ==> s.state_dir@ == v@
            &&& env.state_dir is None ==> s.state_dir@ == "/data"@
            &&& env.tls_sni_host matches Some(v) ==> s.sni@ == v@
            &&& env.tls_sni_host is None ==> s.sni@ == "fra1.digitaloceanspaces.com"@
            &&& env.wt_path matches Some(v) ==> s.wt_path@ == v@
            &&& env.wt_path is None ==> s.wt_path@ == "/api/stream"@
        },
{
}

/// The trusted ranges are those that the variable's text gives; where it is not
/// set, those of the default.
pub proof fn law_proxies_follow_the_environment(
    env: EnvVars,
    s: Settings,
    text: &str,
    ranges: Vec<(IpAddr, u8)>,
)
    requires
        call_ensures(Settings::from_env, (env,), Ok(s)),
        call_ensures(parse_trusted_proxies, (text,), ranges),
    ensures
        env.trusted_proxies matches Some(v) ==> (v@ == text@ ==> s.trusted_proxies@ == ranges@),
        env.trusted_proxies is None && text@ == "172.16.0.0/12"@ ==> s.trusted_proxies@ == ranges@,
{
}

/// `MAX_CONNS_PER_IP` where it is set to a number, else the default.
pub open spec fn max_conns_setting(var: Option<String>) -> nat {
    match var {
        Some(v) => match text::unsigned_value(v@, usize::MAX as nat) {
            Some(n) => n,
            None => DEFAULT_MAX_CONNS_PER_IP as nat,
        },
        None => DEFAULT_MAX_CONNS_PER_IP as nat,
    }
}

fn parse_max_conns(v: &str) -> (n: usize)
    ensures
        n == (match text::unsigned_value(v@, usize::MAX as nat) {
            Some(n) => n,
            None => DEFAULT_MAX_CONNS_PER_IP as nat,
        }),
{
    match text::parse_unsigned(text::chars_of(v).as_slice(), usize::MAX as u64) {
        Some(n) => n as usize,
        None => DEFAULT_MAX_CONNS_PER_IP,
    }
}

fn wants_tls(v: &str) -> (b: bool)
    ensures
        b == tls_wanted(v@),
{
    let chars: Vec<char> = text::chars_of(v);
    let off: Vec<char> = text::chars_of("false");
    let zero: Vec<char> = text::chars_of("0");
    !text::eq_ignoring_ascii_case(chars.as_slice(), off.as_slice()) && !text::same_chars(
        chars.as_slice(),
        zero.as_slice(),
    )
}

fn or_default(var: Option<String>, default: &str) -> (s: String)
    ensures
        s@ == value_or(var, default@),
{
    match var {
        Some(v) => v,
        None => default.to_owned(),
    }
}

} // verus!
