//! The canonical notation of IP addresses, and that it reads back.

use vstd::prelude::*;

use crate::addr;
use crate::addr::IpAddr;
use crate::digest;
use crate::text;

verus! {

/// Four numbers in decimal with dots between them.
pub open spec fn dotted(a: nat, b: nat, c: nat, d: nat) -> Seq<char> {
    text::decimal(a) + seq!['.'] + text::decimal(b) + seq!['.'] + text::decimal(c) + seq!['.']
        + text::decimal(d)
}

/// Dotted decimal.
pub open spec fn ipv4_text(n: nat) -> Seq<char> {
    dotted(n / 0x100_0000, n / 0x1_0000 % 0x100, n / 0x100 % 0x100, n % 0x100)
}

/// The lower-case hexadecimal notation of `n`, without leading zeros.
pub open spec fn hexadecimal(n: nat) -> Seq<char>
    decreases n,
{
    if n < 16 {
        seq![digest::hex_digit(n)]
    } else {
        hexadecimal(n / 16).push(digest::hex_digit(n % 16))
    }
}

/// The last `count` groups of sixteen bits of `n`, most significant first.
pub open spec fn groups_in(n: nat, count: nat) -> Seq<nat>
    decreases count,
{
    if count == 0 {
        Seq::empty()
    } else {
        groups_in(n / 0x1_0000, (count - 1) as nat).push(n % 0x1_0000)
    }
}

/// The groups as colon-separated texts.
pub open spec fn colon_text(g: Seq<nat>) -> Seq<char> {
    text::joined(group_texts(g), ':')
}

pub open spec fn group_texts(g: Seq<nat>) -> Seq<Seq<char>> {
    Seq::new(g.len(), |i: int| hexadecimal(g[i]))
}

/// The number of zero groups from index `i` on.
pub open spec fn zeros_from(g: Seq<nat>, i: int) -> nat
    decreases g.len() - i,
{
    if 0 <= i < g.len() && g[i] == 0 {
        1 + zeros_from(g, i + 1)
    } else {
        0
    }
}

/// The first index up to `last` from which the most zero groups follow.
pub open spec fn longest_zeros(g: Seq<nat>, last: int) -> int
    decreases last,
{
    if last <= 0 {
        0
    } else {
        let best = longest_zeros(g, last - 1);
        if zeros_from(g, last) > zeros_from(g, best) {
            last
        } else {
            best
        }
    }
}

/// The address is an IPv4 address in IPv6 clothes.
pub open spec fn is_ipv4_mapped(n: nat) -> bool {
    n / 0x1_0000_0000 == 0xffff
}

/// Colon-separated groups. The longest run of at least two zero groups, the
/// first of them where several are as long, is written as `::`. A mapped IPv4
/// address is written in dotted decimal behind its prefix.
pub open spec fn ipv6_text(n: nat) -> Seq<char> {
    let g = groups_in(n, 8);
    let start = longest_zeros(g, 7);
    let zeros = zeros_from(g, start) as int;
    if is_ipv4_mapped(n) {
        seq![':', ':', 'f', 'f', 'f', 'f', ':'] + ipv4_text(n % 0x1_0000_0000)
    } else if zeros >= 2 {
        colon_text(g.take(start)) + seq![':', ':'] + colon_text(g.skip(start + zeros))
    } else {
        colon_text(g)
    }
}

/// The canonical notation of an address.
pub open spec fn ip_text(ip: IpAddr) -> Seq<char> {
    match ip {
        IpAddr::V4(n) => ipv4_text(n as nat),
        IpAddr::V6(n) => ipv6_text(n as nat),
    }
}

proof fn lemma_octet(n: nat)
    requires
        n <= 255,
    ensures
        addr::octet_value(text::decimal(n)) == Some(n),
{
    text::lemma_decimal(n);
    reveal_with_fuel(text::decimal, 3);
}

/// Digits are neither dots nor colons.
proof fn lemma_digits_are_not_marks(s: Seq<char>, radix: nat)
    requires
        text::all_digits(s, radix),
    ensures
        !s.contains('.'),
        !s.contains(':'),
{
    if s.contains('.') {
        assert(text::digit_value(s[s.index_of('.')], radix) is Some);
    }
    if s.contains(':') {
        assert(text::digit_value(s[s.index_of(':')], radix) is Some);
    }
}

/// Four parts with dots between them come apart again.
proof fn lemma_dotted(a: Seq<char>, b: Seq<char>, c: Seq<char>, d: Seq<char>)
    requires
        text::all_digits(a, 10),
        text::all_digits(b, 10),
        text::all_digits(c, 10),
        text::all_digits(d, 10),
    ensures
        ({
            let s = a + seq!['.'] + b + seq!['.'] + c + seq!['.'] + d;
            text::split_on(s, '.') == seq![a, b, c, d] && s.contains('.') && !s.contains(':')
        }),
{
    lemma_digits_are_not_marks(a, 10);
    lemma_digits_are_not_marks(b, 10);
    lemma_digits_are_not_marks(c, 10);
    lemma_digits_are_not_marks(d, 10);
    text::lemma_split_on_whole(a, '.');
    text::lemma_split_on_whole(b, '.');
    text::lemma_split_on_whole(c, '.');
    text::lemma_split_on_whole(d, '.');
    let ab = a + seq!['.'] + b;
    let abc = ab + seq!['.'] + c;
    let s = abc + seq!['.'] + d;
    let p = text::split_on(s, '.');
    text::lemma_split_on_join(a, b, '.');
    text::lemma_split_on_join(ab, c, '.');
    text::lemma_split_on_join(abc, d, '.');
    assert(p =~= seq![a, b, c, d]);
    assert(s[abc.len() as int] == '.');
    if s.contains(':') {
        text::lemma_split_on_covers(s, '.', s.index_of(':'));
        let k = choose|k: int| 0 <= k < p.len() && (#[trigger] p[k]).contains(':');
        assert(p[k] == a || p[k] == b || p[k] == c || p[k] == d);
    }
}

proof fn lemma_octets_read_back(a: nat, b: nat, c: nat, d: nat)
    requires
        a <= 255,
        b <= 255,
        c <= 255,
        d <= 255,
    ensures
        addr::ipv4_value(dotted(a, b, c, d)) == Some(
            a * 0x100_0000 + b * 0x1_0000 + c * 0x100 + d,
        ),
        dotted(a, b, c, d).contains('.'),
        !dotted(a, b, c, d).contains(':'),
{
    lemma_octet(a);
    lemma_octet(b);
    lemma_octet(c);
    lemma_octet(d);
    lemma_dotted(text::decimal(a), text::decimal(b), text::decimal(c), text::decimal(d));
}

proof fn lemma_octets(n: nat)
    requires
        n < 0x1_0000_0000,
    ensures
        n / 0x100_0000 <= 255,
        (n / 0x100_0000) * 0x100_0000 + (n / 0x1_0000 % 0x100) * 0x1_0000 + (n / 0x100 % 0x100)
            * 0x100 + n % 0x100 == n,
{
    assert(n / 0x1_0000 / 0x100 == n / 0x100_0000);
    assert(n / 0x100 / 0x100 == n / 0x1_0000);
}

proof fn lemma_ipv4_reads_back(n: nat)
    requires
        n < 0x1_0000_0000,
    ensures
        addr::ipv4_value(ipv4_text(n)) == Some(n),
        ipv4_text(n).contains('.'),
        !ipv4_text(n).contains(':'),
{
    lemma_octets(n);
    lemma_octets_read_back(
        n / 0x100_0000,
        n / 0x1_0000 % 0x100,
        n / 0x100 % 0x100,
        n % 0x100,
    );
}

proof fn lemma_hexadecimal(n: nat)
    ensures
        hexadecimal(n).len() >= 1,
        text::all_digits(hexadecimal(n), 16),
        text::digits_value(hexadecimal(n), 16) == n,
        n < 0x10 ==> hexadecimal(n).len() <= 1,
        n < 0x100 ==> hexadecimal(n).len() <= 2,
        n < 0x1000 ==> hexadecimal(n).len() <= 3,
        n < 0x1_0000 ==> hexadecimal(n).len() <= 4,
    decreases n,
{
    let s = hexadecimal(n);
    if n < 16 {
        assert(s.drop_last() =~= Seq::<char>::empty());
        assert(text::digits_value(s.drop_last(), 16) == 0);
    } else {
        lemma_hexadecimal(n / 16);
        assert(s.drop_last() =~= hexadecimal(n / 16));
        assert forall|i: int| 0 <= i < s.len() implies text::digit_value(
            #[trigger] s[i],
            16,
        ) is Some by {
            if i < s.len() - 1 {
                assert(s[i] == hexadecimal(n / 16)[i]);
            }
        }
    }
}

/// Every group fits in sixteen bits.
pub open spec fn are_groups(g: Seq<nat>) -> bool {
    forall|i: int| 0 <= i < g.len() ==> #[trigger] g[i] < 0x1_0000
}

proof fn lemma_group_texts(g: Seq<nat>)
    requires
        are_groups(g),
    ensures
        addr::all_groups(group_texts(g)),
        addr::group_values(group_texts(g)) == g,
        forall|i: int|
            0 <= i < g.len() ==> (#[trigger] group_texts(g)[i]).len() > 0 && !group_texts(
                g,
            )[i].contains(':') && !group_texts(g)[i].contains('.'),
{
    let t = group_texts(g);
    assert forall|i: int| 0 <= i < g.len() implies addr::group_value(#[trigger] t[i]) == Some(g[i])
        && t[i].len() > 0 && !t[i].contains(':') && !t[i].contains('.') by {
        lemma_hexadecimal(g[i]);
        lemma_digits_are_not_marks(t[i], 16);
    }
    assert(addr::group_values(t) =~= g);
}

/// Two colons stand next to each other at `i`.
spec fn is_gap(s: Seq<char>, i: int) -> bool {
    0 <= i && i + 1 < s.len() && s[i] == ':' && s[i + 1] == ':'
}

proof fn lemma_find_gap_none(s: Seq<char>)
    requires
        forall|i: int| !is_gap(s, i),
    ensures
        addr::find_gap(s) == s.len(),
    decreases s.len(),
{
    if s.len() >= 2 {
        assert(!is_gap(s, 0));
        let rest = s.skip(1);
        assert forall|i: int| !is_gap(rest, i) by {
            if is_gap(rest, i) {
                assert(is_gap(s, i + 1));
            }
        }
        lemma_find_gap_none(rest);
    }
}

proof fn lemma_find_gap_at(s: Seq<char>, n: int)
    requires
        is_gap(s, n),
        forall|i: int| 0 <= i < n ==> !is_gap(s, i),
    ensures
        addr::find_gap(s) == n,
    decreases n,
{
    if n > 0 {
        assert(!is_gap(s, 0));
        let rest = s.skip(1);
        assert(is_gap(rest, n - 1));
        assert forall|i: int| 0 <= i < n - 1 implies !is_gap(rest, i) by {
            if is_gap(rest, i) {
                assert(is_gap(s, i + 1));
            }
        }
        lemma_find_gap_at(rest, n - 1);
    }
}

/// No two colons meet in colon-separated groups, and none stands at either end.
proof fn lemma_colon_text_has_no_gap(g: Seq<nat>)
    requires
        are_groups(g),
    ensures
        forall|i: int| !is_gap(colon_text(g), i),
        g.len() > 0 ==> colon_text(g).len() > 0 && colon_text(g)[0] != ':' && colon_text(g).last()
            != ':',
        g.len() == 0 ==> colon_text(g).len() == 0,
    decreases g.len(),
{
    lemma_group_texts(g);
    let t = group_texts(g);
    let s = colon_text(g);
    if g.len() > 0 {
        let last = t.last();
        assert(last == t[g.len() - 1]);
        assert forall|i: int| 0 <= i < last.len() implies last[i] != ':' by {
            assert(last.contains(last[i]));
        }
        if g.len() == 1 {
            assert(s == last);
        } else {
            let before = g.drop_last();
            assert(t.drop_last() =~= group_texts(before));
            lemma_colon_text_has_no_gap(before);
            let head = colon_text(before);
            assert(s == head + seq![':'] + last);
            assert(s[0] == head[0]);
            assert(s.last() == last.last());
            assert forall|i: int| !is_gap(s, i) by {
                if is_gap(s, i) {
                    if i + 1 < head.len() {
                        assert(is_gap(head, i));
                    } else if i + 1 == head.len() {
                        assert(s[i] == head.last());
                    } else if i == head.len() {
                        assert(s[i + 1] == last[0]);
                    } else {
                        assert(s[i] == last[i - head.len() - 1]);
                    }
                }
            }
        }
    }
}

/// Colon-separated groups read back, on either side of a gap.
proof fn lemma_side_reads_back(g: Seq<nat>, tail: bool)
    requires
        are_groups(g),
    ensures
        addr::side_groups(colon_text(g), tail) == Some(g),
{
    lemma_group_texts(g);
    lemma_colon_text_has_no_gap(g);
    if g.len() > 0 {
        text::law_joined_pieces_come_apart(group_texts(g), ':');
    } else {
        assert(g =~= Seq::<nat>::empty());
    }
}

proof fn lemma_gap_reads_back(head: Seq<nat>, tail: Seq<nat>)
    requires
        are_groups(head),
        are_groups(tail),
        head.len() + tail.len() <= 7,
    ensures
        addr::ipv6_groups(colon_text(head) + seq![':', ':'] + colon_text(tail)) == Some(
            head + Seq::new((8 - head.len() - tail.len()) as nat, |i: int| 0nat) + tail,
        ),
{
    let h = colon_text(head);
    let s = h + seq![':', ':'] + colon_text(tail);
    let n = h.len() as int;
    lemma_colon_text_has_no_gap(head);
    assert(is_gap(s, n));
    assert forall|i: int| 0 <= i < n implies !is_gap(s, i) by {
        if is_gap(s, i) {
            if i + 1 < n {
                assert(is_gap(h, i));
            } else {
                assert(s[i] == h.last());
            }
        }
    }
    lemma_find_gap_at(s, n);
    assert(s.take(n) =~= h);
    assert(s.skip(n + 2) =~= colon_text(tail));
    lemma_side_reads_back(head, false);
    lemma_side_reads_back(tail, true);
}

proof fn lemma_zeros_from(g: Seq<nat>, i: int)
    requires
        0 <= i <= g.len(),
    ensures
        i + zeros_from(g, i) <= g.len(),
        forall|j: int| i <= j < i + zeros_from(g, i) ==> g[j] == 0,
    decreases g.len() - i,
{
    if i < g.len() && g[i] == 0 {
        lemma_zeros_from(g, i + 1);
    }
}

proof fn lemma_longest_zeros(g: Seq<nat>, last: int)
    requires
        0 <= last,
    ensures
        0 <= longest_zeros(g, last) <= last,
    decreases last,
{
    if last > 0 {
        lemma_longest_zeros(g, last - 1);
    }
}

/// The numbers that fit in so many groups.
spec fn groups_limit(count: nat) -> nat
    decreases count,
{
    if count == 0 {
        1
    } else {
        0x1_0000 * groups_limit((count - 1) as nat)
    }
}

proof fn lemma_groups_in(n: nat, count: nat)
    requires
        n < groups_limit(count),
    ensures
        groups_in(n, count).len() == count,
        are_groups(groups_in(n, count)),
        addr::groups_number(groups_in(n, count)) == n,
    decreases count,
{
    if count > 0 {
        lemma_groups_in(n / 0x1_0000, (count - 1) as nat);
        let g = groups_in(n, count);
        assert(g.drop_last() =~= groups_in(n / 0x1_0000, (count - 1) as nat));
        assert forall|i: int| 0 <= i < g.len() implies #[trigger] g[i] < 0x1_0000 by {
            if i < g.len() - 1 {
                assert(g[i] == g.drop_last()[i]);
            }
        }
    }
}

/// The prefix of a mapped address is one group.
proof fn lemma_mapped_prefix()
    ensures
        addr::group_value(seq!['f', 'f', 'f', 'f']) == Some(0xffffnat),
        !seq!['f', 'f', 'f', 'f'].contains(':'),
{
    let prefix = seq!['f', 'f', 'f', 'f'];
    assert(text::all_digits(prefix, 16));
    lemma_digits_are_not_marks(prefix, 16);
    reveal_with_fuel(text::digits_value, 5);
    assert(prefix.drop_last() =~= seq!['f', 'f', 'f']);
    assert(prefix.drop_last().drop_last() =~= seq!['f', 'f']);
    assert(prefix.drop_last().drop_last().drop_last() =~= seq!['f']);
}

/// What stands behind the gap of a mapped address reads back.
proof fn lemma_mapped_tail(low: nat)
    requires
        low < 0x1_0000_0000,
    ensures
        addr::side_groups(seq!['f', 'f', 'f', 'f'] + seq![':'] + ipv4_text(low), true) == Some(
            seq![0xffffnat, low / 0x1_0000, low % 0x1_0000],
        ),
{
    let v4 = ipv4_text(low);
    let prefix = seq!['f', 'f', 'f', 'f'];
    let rest = prefix + seq![':'] + v4;
    lemma_ipv4_reads_back(low);
    lemma_mapped_prefix();
    text::lemma_split_on_whole(prefix, ':');
    text::lemma_split_on_whole(v4, ':');
    text::lemma_split_on_join(prefix, v4, ':');
    let pieces = text::split_on(rest, ':');
    assert(pieces =~= seq![prefix, v4]);
    assert(!addr::all_groups(pieces)) by {
        if text::all_digits(v4, 16) {
            lemma_digits_are_not_marks(v4, 16);
        }
        assert(addr::group_value(pieces[1]) is None);
    }
    assert(pieces.drop_last() =~= seq![prefix]);
    assert(addr::group_values(pieces.drop_last()) =~= seq![0xffffnat]);
    assert(seq![0xffffnat] + seq![low / 0x1_0000, low % 0x1_0000] =~= seq![
        0xffffnat,
        low / 0x1_0000,
        low % 0x1_0000,
    ]);
}

/// The number of a mapped address's groups.
proof fn lemma_mapped_number(zeros: Seq<nat>, high: nat, low: nat)
    requires
        forall|i: int| 0 <= i < zeros.len() ==> zeros[i] == 0,
    ensures
        addr::groups_number(zeros.push(0xffff).push(high).push(low)) == 0xffff_0000_0000 + high
            * 0x1_0000 + low,
{
    lemma_zero_groups(zeros);
    let one = zeros.push(0xffff);
    let two = one.push(high);
    assert(one.drop_last() =~= zeros);
    assert(addr::groups_number(one) == 0xffff);
    assert(two.drop_last() =~= one);
    assert(addr::groups_number(two) == 0xffff_0000 + high);
    assert(two.push(low).drop_last() =~= two);
}

proof fn lemma_mapped_reads_back(n: nat)
    requires
        is_ipv4_mapped(n),
    ensures
        addr::ipv6_groups(ipv6_text(n)) is Some,
        addr::groups_number(addr::ipv6_groups(ipv6_text(n))->0) == n,
{
    let low = n % 0x1_0000_0000;
    let s = ipv6_text(n);
    assert(is_gap(s, 0));
    lemma_find_gap_at(s, 0);
    assert(s.take(0) =~= Seq::<char>::empty());
    assert(s.skip(2) =~= seq!['f', 'f', 'f', 'f'] + seq![':'] + ipv4_text(low));
    lemma_mapped_tail(low);
    let zeros = Seq::new(5, |i: int| 0nat);
    lemma_mapped_number(zeros, low / 0x1_0000, low % 0x1_0000);
    assert(addr::ipv6_groups(s)->0 =~= zeros.push(0xffff).push(low / 0x1_0000).push(
        low % 0x1_0000,
    ));
}

proof fn lemma_zero_groups(g: Seq<nat>)
    requires
        forall|i: int| 0 <= i < g.len() ==> g[i] == 0,
    ensures
        addr::groups_number(g) == 0,
    decreases g.len(),
{
    if g.len() > 0 {
        lemma_zero_groups(g.drop_last());
    }
}

/// Eight groups that are all written read back.
proof fn lemma_all_groups_read_back(g: Seq<nat>)
    requires
        are_groups(g),
        g.len() == 8,
    ensures
        addr::ipv6_groups(colon_text(g)) == Some(g),
        colon_text(g).contains(':'),
{
    let s = colon_text(g);
    lemma_colon_text_has_no_gap(g);
    lemma_find_gap_none(s);
    lemma_side_reads_back(g, true);
    let head = text::joined(group_texts(g).drop_last(), ':');
    assert(s == head + seq![':'] + group_texts(g).last());
    assert(s[head.len() as int] == ':');
}

/// Groups with a run of zeros left out read back.
proof fn lemma_compressed_reads_back(g: Seq<nat>, start: int, zeros: int)
    requires
        are_groups(g),
        g.len() == 8,
        0 <= start,
        1 <= zeros,
        start + zeros <= 8,
        forall|j: int| start <= j < start + zeros ==> g[j] == 0,
    ensures
        ({
            let s = colon_text(g.take(start)) + seq![':', ':'] + colon_text(
                g.skip(start + zeros),
            );
            addr::ipv6_groups(s) == Some(g) && s.contains(':')
        }),
{
    let head = g.take(start);
    let tail = g.skip(start + zeros);
    let s = colon_text(head) + seq![':', ':'] + colon_text(tail);
    lemma_gap_reads_back(head, tail);
    assert(head + Seq::new((8 - head.len() - tail.len()) as nat, |i: int| 0nat) + tail =~= g);
    assert(s[colon_text(head).len() as int] == ':');
}

proof fn lemma_eight_groups(n: nat)
    requires
        n <= u128::MAX,
    ensures
        groups_in(n, 8).len() == 8,
        are_groups(groups_in(n, 8)),
        addr::groups_number(groups_in(n, 8)) == n,
{
    assert(groups_limit(8) == u128::MAX + 1) by {
        reveal_with_fuel(groups_limit, 9);
    }
    lemma_groups_in(n, 8);
}

proof fn lemma_ipv6_reads_back(n: nat)
    requires
        n <= u128::MAX,
    ensures
        addr::ipv6_groups(ipv6_text(n)) is Some,
        addr::groups_number(addr::ipv6_groups(ipv6_text(n))->0) == n,
        ipv6_text(n).contains(':'),
{
    let g = groups_in(n, 8);
    lemma_eight_groups(n);
    let start = longest_zeros(g, 7);
    let zeros = zeros_from(g, start) as int;
    lemma_longest_zeros(g, 7);
    lemma_zeros_from(g, start);
    if is_ipv4_mapped(n) {
        lemma_mapped_reads_back(n);
        assert(ipv6_text(n)[0] == ':');
    } else if zeros >= 2 {
        lemma_compressed_reads_back(g, start, zeros);
    } else {
        lemma_all_groups_read_back(g);
    }
}

/// Dotted decimal holds no colon.
proof fn lemma_colon_is_not_ipv4(s: Seq<char>)
    requires
        s.contains(':'),
    ensures
        addr::ipv4_value(s) is None,
{
    let i = s.index_of(':');
    text::lemma_split_on_covers(s, '.', i);
    let p = text::split_on(s, '.');
    let k = choose|k: int| 0 <= k < p.len() && (#[trigger] p[k]).contains(':');
    if addr::octet_value(p[k]) is Some {
        lemma_digits_are_not_marks(p[k], 10);
    }
}

/// An address that is written in the canonical notation reads back.
pub proof fn law_address_reads_back(ip: IpAddr)
    ensures
        addr::ip_value(ip_text(ip)) == Some(ip),
{
    match ip {
        IpAddr::V4(n) => {
            lemma_ipv4_reads_back(n as nat);
        },
        IpAddr::V6(n) => {
            lemma_ipv6_reads_back(n as nat);
            lemma_colon_is_not_ipv4(ipv6_text(n as nat));
        },
    }
}

/// A decimal part is written in one way only.
proof fn lemma_octet_is_decimal(s: Seq<char>)
    requires
        addr::octet_value(s) is Some,
    ensures
        s == text::decimal(addr::octet_value(s)->0),
        addr::octet_value(s)->0 <= 255,
{
    let n = addr::octet_value(s)->0;
    reveal_with_fuel(text::digits_value, 4);
    reveal_with_fuel(text::decimal, 3);
    assert(text::digit_value(s[0], 10) is Some);
    if s.len() == 1 {
        assert(s.drop_last() =~= Seq::<char>::empty());
        assert(s =~= seq![s[0]]);
    } else if s.len() == 2 {
        assert(text::digit_value(s[1], 10) is Some);
        assert(s.drop_last() =~= seq![s[0]]);
        assert(s.drop_last().drop_last() =~= Seq::<char>::empty());
        let a = text::digit_value(s[0], 10)->0;
        let b = text::digit_value(s[1], 10)->0;
        assert(n == a * 10 + b);
        assert(n / 10 == a && n % 10 == b);
        assert(s =~= text::decimal(n));
    } else {
        assert(text::digit_value(s[1], 10) is Some);
        assert(text::digit_value(s[2], 10) is Some);
        assert(s.drop_last() =~= seq![s[0], s[1]]);
        assert(s.drop_last().drop_last() =~= seq![s[0]]);
        assert(s.drop_last().drop_last().drop_last() =~= Seq::<char>::empty());
        let a = text::digit_value(s[0], 10)->0;
        let b = text::digit_value(s[1], 10)->0;
        let c = text::digit_value(s[2], 10)->0;
        assert(n == (a * 10 + b) * 10 + c);
        assert(n / 10 == a * 10 + b && n % 10 == c);
        assert(n / 10 / 10 == a && n / 10 % 10 == b);
        assert(s =~= text::decimal(n));
    }
}

/// A text reads as an IPv4 address exactly where it is the dotted decimal
/// notation of that address.
pub proof fn law_ipv4_notation_is_unique(s: &str, r: Option<IpAddr>, n: u32)
    requires
        call_ensures(addr::parse_ip, (s,), r),
    ensures
        r == Some(IpAddr::V4(n)) <==> s@ == dotted(
            n as nat / 0x100_0000,
            n as nat / 0x1_0000 % 0x100,
            n as nat / 0x100 % 0x100,
            n as nat % 0x100,
        ),
{
    lemma_ipv4_reads_back(n as nat);
    if r == Some(IpAddr::V4(n)) {
        lemma_ipv4_is_dotted(s@);
    }
}

proof fn lemma_four_joined(p: Seq<Seq<char>>)
    requires
        p.len() == 4,
    ensures
        text::joined(p, '.') == p[0] + seq!['.'] + p[1] + seq!['.'] + p[2] + seq!['.'] + p[3],
{
    let three = p.drop_last();
    let two = three.drop_last();
    let one = two.drop_last();
    assert(text::joined(one, '.') == p[0]);
    assert(text::joined(two, '.') == p[0] + seq!['.'] + p[1]);
    assert(text::joined(three, '.') == p[0] + seq!['.'] + p[1] + seq!['.'] + p[2]);
}

proof fn lemma_octets_unique(a: nat, b: nat, c: nat, d: nat)
    requires
        a <= 255,
        b <= 255,
        c <= 255,
        d <= 255,
    ensures
        ({
            let n = a * 0x100_0000 + b * 0x1_0000 + c * 0x100 + d;
            n / 0x100_0000 == a && n / 0x1_0000 % 0x100 == b && n / 0x100 % 0x100 == c && n % 0x100
                == d
        }),
{
    let n = a * 0x100_0000 + b * 0x1_0000 + c * 0x100 + d;
    assert(n / 0x1_0000 == a * 0x100 + b);
    assert(n / 0x100 == (a * 0x100 + b) * 0x100 + c);
}

/// Groups in any spelling: one to four hexadecimal digits each, in either case
/// and with or without leading zeros.
pub open spec fn spells_groups(pieces: Seq<Seq<char>>, g: Seq<nat>) -> bool {
    pieces.len() == g.len() && forall|i: int|
        0 <= i < g.len() ==> 1 <= (#[trigger] pieces[i]).len() <= 4 && text::all_digits(
            pieces[i],
            16,
        ) && text::digits_value(pieces[i], 16) == g[i]
}

proof fn lemma_spelled(pieces: Seq<Seq<char>>, g: Seq<nat>)
    requires
        spells_groups(pieces, g),
    ensures
        addr::all_groups(pieces),
        addr::group_values(pieces) == g,
        forall|i: int|
            0 <= i < pieces.len() ==> (#[trigger] pieces[i]).len() > 0 && !pieces[i].contains(':'),
{
    assert forall|i: int| 0 <= i < pieces.len() implies (#[trigger] pieces[i]).len() > 0
        && !pieces[i].contains(':') && addr::group_value(pieces[i]) == Some(g[i]) by {
        lemma_digits_are_not_marks(pieces[i], 16);
    }
    assert(addr::group_values(pieces) =~= g);
}

/// No two colons meet in joined pieces, and none stands at either end.
proof fn lemma_joined_has_no_gap(pieces: Seq<Seq<char>>)
    requires
        forall|i: int|
            0 <= i < pieces.len() ==> (#[trigger] pieces[i]).len() > 0 && !pieces[i].contains(':'),
    ensures
        forall|i: int| !is_gap(text::joined(pieces, ':'), i),
        pieces.len() > 0 ==> text::joined(pieces, ':').len() > 0 && text::joined(pieces, ':')[0]
            != ':' && text::joined(pieces, ':').last() != ':',
        pieces.len() == 0 ==> text::joined(pieces, ':').len() == 0,
    decreases pieces.len(),
{
    let s = text::joined(pieces, ':');
    if pieces.len() > 0 {
        let last = pieces.last();
        assert(last == pieces[pieces.len() - 1]);
        assert forall|i: int| 0 <= i < last.len() implies last[i] != ':' by {
            assert(last.contains(last[i]));
        }
        if pieces.len() > 1 {
            let before = pieces.drop_last();
            assert forall|i: int| 0 <= i < before.len() implies (#[trigger] before[i]).len() > 0
                && !before[i].contains(':') by {
                assert(before[i] == pieces[i]);
            }
            lemma_joined_has_no_gap(before);
            let head = text::joined(before, ':');
            assert(s == head + seq![':'] + last);
            assert(s[0] == head[0]);
            assert(s.last() == last.last());
            assert forall|i: int| !is_gap(s, i) by {
                if is_gap(s, i) {
                    if i + 1 < head.len() {
                        assert(is_gap(head, i));
                    } else if i + 1 == head.len() {
                        assert(s[i] == head.last());
                    } else if i == head.len() {
                        assert(s[i + 1] == last[0]);
                    } else {
                        assert(s[i] == last[i - head.len() - 1]);
                    }
                }
            }
        }
    }
}

/// Pieces spell groups, the last two of them as a dotted IPv4 address where
/// `tail` allows it.
pub open spec fn spells_run(pieces: Seq<Seq<char>>, g: Seq<nat>, tail: bool) -> bool {
    ||| spells_groups(pieces, g)
    ||| tail && pieces.len() > 0 && g.len() >= 2 && spells_groups(
        pieces.drop_last(),
        g.take(g.len() - 2),
    ) && exists|n: nat|
        n < 0x1_0000_0000 && pieces.last() == #[trigger] ipv4_text(n) && g[g.len() - 2] == n
            / 0x1_0000 && g[g.len() - 1] == n % 0x1_0000
}

/// The text writes the IPv6 address: eight groups with colons between them, or
/// fewer with two colons in the place of those that are missing, all zero.
pub open spec fn writes_ipv6(s: Seq<char>, n: u128) -> bool {
    ||| exists|pieces: Seq<Seq<char>>, g: Seq<nat>| #[trigger]
        spells_run(pieces, g, true) && g.len() == 8 && s == text::joined(pieces, ':') && n
            == addr::groups_number(g) as u128
    ||| exists|head: Seq<Seq<char>>, h: Seq<nat>, tail: Seq<Seq<char>>, t: Seq<nat>| #[trigger]
        spells_run(head, h, false) && #[trigger] spells_run(tail, t, true) && h.len() + t.len() <= 7
            && s == text::joined(head, ':') + seq![':', ':'] + text::joined(tail, ':') && n
            == addr::groups_number(
            h + Seq::new((8 - h.len() - t.len()) as nat, |i: int| 0nat) + t,
        ) as u128
}

/// Pieces of a run are not empty and hold no colon.
proof fn lemma_run_pieces(pieces: Seq<Seq<char>>, g: Seq<nat>, tail: bool)
    requires
        spells_run(pieces, g, tail),
    ensures
        forall|i: int|
            0 <= i < pieces.len() ==> (#[trigger] pieces[i]).len() > 0 && !pieces[i].contains(':'),
        pieces.len() > 0 ==> addr::groups_of(pieces, tail) == Some(g),
        pieces.len() == 0 ==> g.len() == 0,
{
    if spells_groups(pieces, g) {
        lemma_spelled(pieces, g);
    } else {
        let hexed = pieces.drop_last();
        let n = choose|n: nat|
            n < 0x1_0000_0000 && pieces.last() == #[trigger] ipv4_text(n) && g[g.len() - 2] == n
                / 0x1_0000 && g[g.len() - 1] == n % 0x1_0000;
        let v4 = ipv4_text(n);
        lemma_spelled(hexed, g.take(g.len() - 2));
        lemma_ipv4_reads_back(n);
        assert forall|i: int| 0 <= i < pieces.len() implies (#[trigger] pieces[i]).len() > 0
            && !pieces[i].contains(':') by {
            if i < hexed.len() {
                assert(pieces[i] == hexed[i]);
            }
        }
        assert(!addr::all_groups(pieces)) by {
            if text::all_digits(v4, 16) {
                lemma_digits_are_not_marks(v4, 16);
            }
            assert(addr::group_value(pieces[pieces.len() - 1]) is None);
        }
        assert(g.take(g.len() - 2) + seq![n / 0x1_0000, n % 0x1_0000] =~= g);
    }
}

/// A run of pieces reads as its groups, on either side of a gap.
proof fn lemma_run_reads(pieces: Seq<Seq<char>>, g: Seq<nat>, tail: bool)
    requires
        spells_run(pieces, g, tail),
    ensures
        addr::side_groups(text::joined(pieces, ':'), tail) == Some(g),
{
    lemma_run_pieces(pieces, g, tail);
    lemma_joined_has_no_gap(pieces);
    if pieces.len() > 0 {
        text::law_joined_pieces_come_apart(pieces, ':');
    } else {
        assert(g =~= Seq::<nat>::empty());
    }
}

/// Pieces that read as groups spell them.
proof fn lemma_groups_are_spelled(pieces: Seq<Seq<char>>, tail: bool)
    requires
        pieces.len() > 0,
        addr::groups_of(pieces, tail) is Some,
    ensures
        spells_run(pieces, addr::groups_of(pieces, tail)->0, tail),
{
    let g = addr::groups_of(pieces, tail)->0;
    if addr::all_groups(pieces) {
        assert forall|i: int| 0 <= i < g.len() implies 1 <= (#[trigger] pieces[i]).len() <= 4
            && text::all_digits(pieces[i], 16) && text::digits_value(pieces[i], 16) == g[i] by {
            assert(addr::group_value(pieces[i]) is Some);
        }
    } else {
        let hexed = pieces.drop_last();
        let low = addr::group_values(hexed);
        assert(g.take(g.len() - 2) =~= low);
        assert forall|i: int| 0 <= i < low.len() implies 1 <= (#[trigger] hexed[i]).len() <= 4
            && text::all_digits(hexed[i], 16) && text::digits_value(hexed[i], 16) == low[i] by {
            assert(addr::group_value(hexed[i]) is Some);
        }
        let n = addr::ipv4_value(pieces.last())->0;
        lemma_ipv4_is_dotted(pieces.last());
        assert(pieces.last() == ipv4_text(n));
    }
}

/// A side of a gap that reads as groups is a run that spells them.
proof fn lemma_side_is_spelled(s: Seq<char>, tail: bool) -> (pieces: Seq<Seq<char>>)
    requires
        addr::side_groups(s, tail) is Some,
    ensures
        spells_run(pieces, addr::side_groups(s, tail)->0, tail),
        s == text::joined(pieces, ':'),
{
    if s.len() == 0 {
        assert(s =~= Seq::<char>::empty());
        Seq::empty()
    } else {
        text::law_split_text_joins_again(s, ':');
        lemma_groups_are_spelled(text::split_on(s, ':'), tail);
        text::split_on(s, ':')
    }
}

/// A text that reads as an IPv4 address is its dotted decimal notation.
proof fn lemma_ipv4_is_dotted(s: Seq<char>)
    requires
        addr::ipv4_value(s) is Some,
    ensures
        s == ipv4_text(addr::ipv4_value(s)->0),
        addr::ipv4_value(s)->0 < 0x1_0000_0000,
{
    let p = text::split_on(s, '.');
    text::law_split_text_joins_again(s, '.');
    lemma_octet_is_decimal(p[0]);
    lemma_octet_is_decimal(p[1]);
    lemma_octet_is_decimal(p[2]);
    lemma_octet_is_decimal(p[3]);
    lemma_four_joined(p);
    lemma_octets_unique(
        addr::octet_value(p[0])->0,
        addr::octet_value(p[1])->0,
        addr::octet_value(p[2])->0,
        addr::octet_value(p[3])->0,
    );
}

proof fn lemma_written_whole_reads(pieces: Seq<Seq<char>>, g: Seq<nat>)
    requires
        spells_run(pieces, g, true),
        g.len() == 8,
    ensures
        addr::ip_value(text::joined(pieces, ':')) == Some(
            IpAddr::V6(addr::groups_number(g) as u128),
        ),
{
    let s = text::joined(pieces, ':');
    lemma_run_pieces(pieces, g, true);
    lemma_joined_has_no_gap(pieces);
    lemma_find_gap_none(s);
    text::law_joined_pieces_come_apart(pieces, ':');
    assert(pieces.len() >= 2);
    let head = text::joined(pieces.drop_last(), ':');
    assert(s == head + seq![':'] + pieces.last());
    assert(s[head.len() as int] == ':');
    lemma_colon_is_not_ipv4(s);
}

proof fn lemma_written_gap_reads(
    head: Seq<Seq<char>>,
    h: Seq<nat>,
    tail: Seq<Seq<char>>,
    t: Seq<nat>,
)
    requires
        spells_run(head, h, false),
        spells_run(tail, t, true),
        h.len() + t.len() <= 7,
    ensures
        addr::ip_value(
            text::joined(head, ':') + seq![':', ':'] + text::joined(tail, ':'),
        ) == Some(
            IpAddr::V6(
                addr::groups_number(
                    h + Seq::new((8 - h.len() - t.len()) as nat, |i: int| 0nat) + t,
                ) as u128,
            ),
        ),
{
    let before = text::joined(head, ':');
    let after = text::joined(tail, ':');
    let s = before + seq![':', ':'] + after;
    let n = before.len() as int;
    lemma_run_pieces(head, h, false);
    lemma_joined_has_no_gap(head);
    assert(is_gap(s, n));
    assert forall|i: int| 0 <= i < n implies !is_gap(s, i) by {
        if is_gap(s, i) {
            if i + 1 < n {
                assert(is_gap(before, i));
            } else {
                assert(s[i] == before.last());
            }
        }
    }
    lemma_find_gap_at(s, n);
    assert(s.take(n) =~= before);
    assert(s.skip(n + 2) =~= after);
    lemma_run_reads(head, h, false);
    lemma_run_reads(tail, t, true);
    assert(s[n] == ':');
    lemma_colon_is_not_ipv4(s);
}

proof fn lemma_ipv6_is_written(s: Seq<char>)
    requires
        addr::ipv6_groups(s) is Some,
    ensures
        writes_ipv6(s, addr::groups_number(addr::ipv6_groups(s)->0) as u128),
{
    let n = addr::find_gap(s) as int;
    addr::lemma_find_gap(s);
    if n < s.len() {
        let head = lemma_side_is_spelled(s.take(n), false);
        let tail = lemma_side_is_spelled(s.skip(n + 2), true);
        let h = addr::side_groups(s.take(n), false)->0;
        let t = addr::side_groups(s.skip(n + 2), true)->0;
        assert(s =~= s.take(n) + seq![':', ':'] + s.skip(n + 2));
        assert(spells_run(head, h, false) && spells_run(tail, t, true));
    } else {
        let pieces = text::split_on(s, ':');
        text::law_split_text_joins_again(s, ':');
        lemma_groups_are_spelled(pieces, true);
    }
}

/// A text reads as an IPv6 address exactly where it writes that address.
pub proof fn law_ipv6_notation_is_exact(s: &str, r: Option<IpAddr>, n: u128)
    requires
        call_ensures(addr::parse_ip, (s,), r),
    ensures
        r == Some(IpAddr::V6(n)) <==> writes_ipv6(s@, n),
{
    if r == Some(IpAddr::V6(n)) {
        lemma_ipv6_is_written(s@);
    }
    if writes_ipv6(s@, n) {
        if exists|pieces: Seq<Seq<char>>, g: Seq<nat>| #[trigger]
            spells_run(pieces, g, true) && g.len() == 8 && s@ == text::joined(pieces, ':') && n
                == addr::groups_number(g) as u128 {
            let (pieces, g) = choose|pieces: Seq<Seq<char>>, g: Seq<nat>| #[trigger]
                spells_run(pieces, g, true) && g.len() == 8 && s@ == text::joined(pieces, ':') && n
                    == addr::groups_number(g) as u128;
            lemma_written_whole_reads(pieces, g);
        } else {
            let (head, h, tail, t) = choose|
                head: Seq<Seq<char>>,
                h: Seq<nat>,
                tail: Seq<Seq<char>>,
                t: Seq<nat>,
            | #[trigger]
                spells_run(head, h, false) && #[trigger] spells_run(tail, t, true) && h.len()
                    + t.len() <= 7 && s@ == text::joined(head, ':') + seq![':', ':']
                    + text::joined(tail, ':') && n == addr::groups_number(
                    h + Seq::new((8 - h.len() - t.len()) as nat, |i: int| 0nat) + t,
                ) as u128;
            lemma_written_gap_reads(head, h, tail, t);
        }
    }
}

} // verus!
