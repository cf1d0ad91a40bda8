//! IP addresses and their textual notation.

use vstd::prelude::*;

use crate::text;

verus! {

/// An IP address as the number that its bytes spell, most significant first.
#[derive(Clone, Copy, Debug, PartialEq, Eq, Structural)]
pub enum IpAddr {
    V4(u32),
    V6(u128),
}

/// One decimal part of a dotted IPv4 address: one to three digits, no leading
/// zero, at most 255.
pub open spec fn octet_value(s: Seq<char>) -> Option<nat> {
    if 1 <= s.len() <= 3 && text::all_digits(s, 10) && (s.len() > 1 ==> s[0] != '0') && text::digits_value(
        s,
        10,
    ) <= 255 {
        Some(text::digits_value(s, 10))
    } else {
        None
    }
}

/// The IPv4 address that `s` writes in dotted decimal.
pub open spec fn ipv4_value(s: Seq<char>) -> Option<nat> {
    let p = text::split_on(s, '.');
    if p.len() == 4 && octet_value(p[0]) is Some && octet_value(p[1]) is Some && octet_value(
        p[2],
    ) is Some && octet_value(p[3]) is Some {
        Some(
            octet_value(p[0])->0 * 0x100_0000 + octet_value(p[1])->0 * 0x1_0000 + octet_value(
                p[2],
            )->0 * 0x100 + octet_value(p[3])->0,
        )
    } else {
        None
    }
}

/// One group of an IPv6 address: one to four hexadecimal digits.
pub open spec fn group_value(s: Seq<char>) -> Option<nat> {
    if 1 <= s.len() <= 4 && text::all_digits(s, 16) {
        Some(text::digits_value(s, 16))
    } else {
        None
    }
}

pub open spec fn all_groups(pieces: Seq<Seq<char>>) -> bool {
    forall|i: int| 0 <= i < pieces.len() ==> group_value(#[trigger] pieces[i]) is Some
}

pub open spec fn group_values(pieces: Seq<Seq<char>>) -> Seq<nat> {
    Seq::new(pieces.len(), |i: int| group_value(pieces[i])->0)
}

/// The groups that a colon-separated run writes. The last piece may be a
/// dotted IPv4 address where `tail` says so; it stands for two groups.
pub open spec fn groups_of(pieces: Seq<Seq<char>>, tail: bool) -> Option<Seq<nat>> {
    if all_groups(pieces) {
        Some(group_values(pieces))
    } else if tail && all_groups(pieces.drop_last()) && ipv4_value(pieces.last()) is Some {
        let v4 = ipv4_value(pieces.last())->0;
        Some(group_values(pieces.drop_last()) + seq![v4 / 0x1_0000, v4 % 0x1_0000])
    } else {
        None
    }
}

/// The groups on one side of `::`, where there may be none.
pub open spec fn side_groups(s: Seq<char>, tail: bool) -> Option<Seq<nat>> {
    if s.len() == 0 {
        Some(Seq::empty())
    } else {
        groups_of(text::split_on(s, ':'), tail)
    }
}

/// The number of characters before the first `::`, or the whole length.
pub open spec fn find_gap(s: Seq<char>) -> nat
    decreases s.len(),
{
    if s.len() < 2 {
        s.len()
    } else if s[0] == ':' && s[1] == ':' {
        0
    } else {
        1 + find_gap(s.skip(1))
    }
}

/// The number that groups of sixteen bits spell, most significant first.
pub open spec fn groups_number(g: Seq<nat>) -> nat
    decreases g.len(),
{
    if g.len() == 0 {
        0
    } else {
        groups_number(g.drop_last()) * 0x1_0000 + g.last()
    }
}

/// The eight groups of the IPv6 address that `s` writes. A `::` stands for one
/// or more zero groups and occurs at most once.
pub open spec fn ipv6_groups(s: Seq<char>) -> Option<Seq<nat>> {
    let n = find_gap(s) as int;
    if n < s.len() {
        match (side_groups(s.take(n), false), side_groups(s.skip(n + 2), true)) {
            (Some(head), Some(tail)) => if head.len() + tail.len() <= 7 {
                Some(head + Seq::new((8 - head.len() - tail.len()) as nat, |i: int| 0nat) + tail)
            } else {
                None
            },
            _ => None,
        }
    } else {
        match groups_of(text::split_on(s, ':'), true) {
            Some(g) => if g.len() == 8 {
                Some(g)
            } else {
                None
            },
            None => None,
        }
    }
}

/// The IP address that `s` writes: dotted IPv4 or colon-separated IPv6.
pub open spec fn ip_value(s: Seq<char>) -> Option<IpAddr> {
    if ipv4_value(s) is Some {
        Some(IpAddr::V4(ipv4_value(s)->0 as u32))
    } else if ipv6_groups(s) is Some {
        Some(IpAddr::V6(groups_number(ipv6_groups(s)->0) as u128))
    } else {
        None
    }
}

/// A character that addresses are written with.
pub open spec fn is_address_character(c: char) -> bool {
    text::digit_value(c, 16) is Some || c == '.' || c == ':'
}

proof fn lemma_ipv4_characters(s: Seq<char>)
    requires
        ipv4_value(s) is Some,
    ensures
        forall|i: int| 0 <= i < s.len() ==> is_address_character(#[trigger] s[i]),
{
    let p = text::split_on(s, '.');
    assert forall|i: int| 0 <= i < s.len() implies is_address_character(#[trigger] s[i]) by {
        if s[i] != '.' {
            text::lemma_split_on_covers(s, '.', i);
            let k = choose|k: int| 0 <= k < p.len() && (#[trigger] p[k]).contains(s[i]);
            assert(octet_value(p[k]) is Some);
            let j = p[k].index_of(s[i]);
            assert(text::digit_value(p[k][j], 10) is Some);
        }
    }
}

proof fn lemma_run_characters(s: Seq<char>, tail: bool)
    requires
        groups_of(text::split_on(s, ':'), tail) is Some,
    ensures
        forall|i: int| 0 <= i < s.len() ==> is_address_character(#[trigger] s[i]),
{
    let p = text::split_on(s, ':');
    assert forall|i: int| 0 <= i < s.len() implies is_address_character(#[trigger] s[i]) by {
        if s[i] != ':' {
            text::lemma_split_on_covers(s, ':', i);
            let k = choose|k: int| 0 <= k < p.len() && (#[trigger] p[k]).contains(s[i]);
            let j = p[k].index_of(s[i]);
            if group_value(p[k]) is Some {
                assert(text::digit_value(p[k][j], 16) is Some);
            } else {
                if k < p.len() - 1 {
                    assert(p.drop_last()[k] == p[k]);
                }
                lemma_ipv4_characters(p[k]);
                assert(is_address_character(p[k][j]));
            }
        }
    }
}

/// `find_gap` stops at two colons or at the end.
pub proof fn lemma_find_gap(s: Seq<char>)
    ensures
        find_gap(s) <= s.len(),
        find_gap(s) < s.len() ==> find_gap(s) + 2 <= s.len() && s[find_gap(s) as int] == ':'
            && s[find_gap(s) as int + 1] == ':',
    decreases s.len(),
{
    if s.len() >= 2 && !(s[0] == ':' && s[1] == ':') {
        lemma_find_gap(s.skip(1));
    }
}

/// An address is written with hexadecimal digits, dots and colons alone.
pub proof fn lemma_address_characters(s: Seq<char>)
    requires
        ip_value(s) is Some,
    ensures
        forall|i: int| 0 <= i < s.len() ==> is_address_character(#[trigger] s[i]),
{
    if ipv4_value(s) is Some {
        lemma_ipv4_characters(s);
    } else {
        let n = find_gap(s) as int;
        lemma_find_gap(s);
        if n < s.len() {
            let before = s.take(n);
            let after = s.skip(n + 2);
            if before.len() > 0 {
                lemma_run_characters(before, false);
            }
            if after.len() > 0 {
                lemma_run_characters(after, true);
            }
            assert forall|i: int| 0 <= i < s.len() implies is_address_character(#[trigger] s[i]) by {
                if i < n {
                    assert(s[i] == before[i]);
                } else if i >= n + 2 {
                    assert(s[i] == after[i - n - 2]);
                }
            }
        } else {
            lemma_run_characters(s, true);
        }
    }
}

/// The empty text writes no address.
pub proof fn lemma_empty_is_no_address()
    ensures
        ip_value(Seq::<char>::empty()) is None,
{
    let s = Seq::<char>::empty();
    text::lemma_split_on_whole(s, '.');
    text::lemma_split_on_whole(s, ':');
    assert(group_value(text::split_on(s, ':')[0]) is None);
    assert(ipv4_value(s) is None);
}

fn parse_octet(s: &[char]) -> (r: Option<u32>)
    ensures
        r is Some <==> octet_value(s@) is Some,
        r is Some ==> r->0 == octet_value(s@)->0 && r->0 <= 255,
{
    if s.len() == 0 || s.len() > 3 || (s.len() > 1 && s[0] == '0') {
        return None;
    }
    let mut acc: u32 = 0;
    let mut i: usize = 0;
    assert(s@.take(0) =~= Seq::<char>::empty());
    while i < s.len()
        invariant
            i <= s@.len() <= 3,
            acc == text::digits_value(s@.take(i as int), 10),
            i == 0 ==> acc == 0,
            i == 1 ==> acc < 10,
            i == 2 ==> acc < 100,
            i == 3 ==> acc < 1000,
            forall|j: int| 0 <= j < i ==> text::digit_value(#[trigger] s@[j], 10) is Some,
        decreases s@.len() - i,
    {
        match text::digit(s[i], 10) {
            None => {
                assert(text::digit_value(s@[i as int], 10) is None);
                return None;
            },
            Some(v) => {
                assert(s@.take(i + 1).drop_last() =~= s@.take(i as int));
                acc = acc * 10 + v as u32;
            },
        }
        i = i + 1;
    }
    assert(s@.take(i as int) =~= s@);
    if acc <= 255 {
        Some(acc)
    } else {
        None
    }
}

fn parse_ipv4(s: &[char]) -> (r: Option<u32>)
    ensures
        r is Some <==> ipv4_value(s@) is Some,
        r is Some ==> r->0 == ipv4_value(s@)->0,
{
    let p: Vec<&[char]> = text::split_chars(s, '.');
    if p.len() != 4 {
        return None;
    }
    assert(p@[0]@ == text::split_on(s@, '.')[0]);
    assert(p@[1]@ == text::split_on(s@, '.')[1]);
    assert(p@[2]@ == text::split_on(s@, '.')[2]);
    assert(p@[3]@ == text::split_on(s@, '.')[3]);
    match (parse_octet(p[0]), parse_octet(p[1]), parse_octet(p[2]), parse_octet(p[3])) {
        (Some(a), Some(b), Some(c), Some(d)) => Some(
            a * 0x100_0000 + b * 0x1_0000 + c * 0x100 + d,
        ),
        _ => None,
    }
}

fn parse_group(s: &[char]) -> (r: Option<u16>)
    ensures
        r is Some <==> group_value(s@) is Some,
        r is Some ==> r->0 == group_value(s@)->0,
{
    if s.len() == 0 || s.len() > 4 {
        return None;
    }
    let mut acc: u32 = 0;
    let mut i: usize = 0;
    assert(s@.take(0) =~= Seq::<char>::empty());
    while i < s.len()
        invariant
            i <= s@.len() <= 4,
            acc == text::digits_value(s@.take(i as int), 16),
            i == 0 ==> acc == 0,
            i == 1 ==> acc < 0x10,
            i == 2 ==> acc < 0x100,
            i == 3 ==> acc < 0x1000,
            i == 4 ==> acc < 0x1_0000,
            forall|j: int| 0 <= j < i ==> text::digit_value(#[trigger] s@[j], 16) is Some,
        decreases s@.len() - i,
    {
        match text::digit(s[i], 16) {
            None => {
                assert(text::digit_value(s@[i as int], 16) is None);
                return None;
            },
            Some(v) => {
                assert(s@.take(i + 1).drop_last() =~= s@.take(i as int));
                acc = acc * 16 + v as u32;
            },
        }
        i = i + 1;
    }
    assert(s@.take(i as int) =~= s@);
    Some(acc as u16)
}

/// The groups as unbounded numbers.
spec fn widened(g: Seq<u16>) -> Seq<nat> {
    Seq::new(g.len(), |i: int| g[i] as nat)
}

fn parse_groups(s: &[char], tail: bool) -> (r: Option<Vec<u16>>)
    ensures
        r is Some <==> groups_of(text::split_on(s@, ':'), tail) is Some,
        r is Some ==> widened(r->0@) == groups_of(text::split_on(s@, ':'), tail)->0,
{
    let pieces: Vec<&[char]> = text::split_chars(s, ':');
    let ghost p = text::split_on(s@, ':');
    let mut groups: Vec<u16> = Vec::new();
    let mut i: usize = 0;
    while i < pieces.len()
        invariant
            i <= pieces@.len(),
            pieces@.len() == p.len(),
            p == text::split_on(s@, ':'),
            forall|j: int| 0 <= j < pieces@.len() ==> (#[trigger] pieces@[j])@ == p[j],
            groups@.len() == i,
            forall|j: int| 0 <= j < i ==> group_value(#[trigger] p[j]) is Some,
            forall|j: int| 0 <= j < i ==> groups@[j] == group_value(#[trigger] p[j])->0,
        decreases pieces@.len() - i,
    {
        assert(pieces@[i as int]@ == p[i as int]);
        match parse_group(pieces[i]) {
            Some(g) => {
                groups.push(g);
            },
            None => {
                assert(group_value(p[i as int]) is None);
                assert(!all_groups(p));
                if !tail || i + 1 != pieces.len() {
                    proof {
                        if i + 1 != p.len() {
                            assert(p.drop_last()[i as int] == p[i as int]);
                            assert(!all_groups(p.drop_last()));
                        }
                    }
                    return None;
                }
                assert(all_groups(p.drop_last())) by {
                    assert forall|j: int| 0 <= j < p.drop_last().len() implies group_value(
                        #[trigger] p.drop_last()[j],
                    ) is Some by {
                        assert(p.drop_last()[j] == p[j]);
                    }
                }
                match parse_ipv4(pieces[i]) {
                    None => {
                        return None;
                    },
                    Some(v4) => {
                        let ghost hexed = groups@;
                        groups.push((v4 / 0x1_0000) as u16);
                        groups.push((v4 % 0x1_0000) as u16);
                        assert(widened(groups@) =~= group_values(p.drop_last()) + seq![
                            (v4 as nat) / 0x1_0000,
                            (v4 as nat) % 0x1_0000,
                        ]) by {
                            assert forall|j: int| 0 <= j < i implies widened(groups@)[j]
                                == group_values(p.drop_last())[j] by {
                                assert(p.drop_last()[j] == p[j]);
                                assert(groups@[j] == hexed[j]);
                            }
                        }
                        return Some(groups);
                    },
                }
            },
        }
        i = i + 1;
    }
    assert(widened(groups@) =~= group_values(p));
    Some(groups)
}

fn parse_side(s: &[char], tail: bool) -> (r: Option<Vec<u16>>)
    ensures
        r is Some <==> side_groups(s@, tail) is Some,
        r is Some ==> widened(r->0@) == side_groups(s@, tail)->0,
{
    if s.len() == 0 {
        let none: Vec<u16> = Vec::new();
        assert(widened(none@) =~= Seq::<nat>::empty());
        Some(none)
    } else {
        parse_groups(s, tail)
    }
}

fn find_double_colon(s: &[char]) -> (n: usize)
    ensures
        n == find_gap(s@),
        n <= s@.len(),
        n < s@.len() ==> n + 2 <= s@.len(),
{
    let mut i: usize = 0;
    assert(s@.skip(0) =~= s@);
    while s.len() - i >= 2
        invariant
            i <= s@.len(),
            find_gap(s@) == i + find_gap(s@.skip(i as int)),
        decreases s@.len() - i,
    {
        assert(s@.skip(i as int)[0] == s@[i as int]);
        assert(s@.skip(i as int)[1] == s@[i + 1]);
        if s[i] == ':' && s[i + 1] == ':' {
            return i;
        }
        assert(s@.skip(i as int).skip(1) =~= s@.skip(i + 1));
        i = i + 1;
    }
    s.len()
}

fn groups_to_number(g: &Vec<u16>) -> (n: u128)
    requires
        g@.len() == 8,
    ensures
        n == groups_number(widened(g@)),
{
    let mut n: u128 = 0;
    let mut i: usize = 0;
    assert(widened(g@).take(0) =~= Seq::<nat>::empty());
    while i < 8
        invariant
            i <= 8,
            g@.len() == 8,
            n == groups_number(widened(g@).take(i as int)),
            i == 0 ==> n == 0,
            i == 1 ==> n < 0x1_0000,
            i == 2 ==> n < 0x1_0000_0000,
            i == 3 ==> n < 0x1_0000_0000_0000,
            i == 4 ==> n < 0x1_0000_0000_0000_0000,
            i == 5 ==> n < 0x1_0000_0000_0000_0000_0000,
            i == 6 ==> n < 0x1_0000_0000_0000_0000_0000_0000,
            i == 7 ==> n < 0x1_0000_0000_0000_0000_0000_0000_0000,
        decreases 8 - i,
    {
        assert(widened(g@).take(i + 1).drop_last() =~= widened(g@).take(i as int));
        n = n * 0x1_0000 + g[i] as u128;
        i = i + 1;
    }
    assert(widened(g@).take(8) =~= widened(g@));
    n
}

fn parse_ipv6(s: &[char]) -> (r: Option<u128>)
    ensures
        r is Some <==> ipv6_groups(s@) is Some,
        r is Some ==> r->0 == groups_number(ipv6_groups(s@)->0),
{
    let n: usize = find_double_colon(s);
    if n < s.len() {
        let before: &[char] = vstd::slice::slice_subrange(s, 0, n);
        let after: &[char] = vstd::slice::slice_subrange(s, n + 2, s.len());
        assert(before@ =~= s@.take(n as int));
        assert(after@ =~= s@.skip(n + 2));
        match (parse_side(before, false), parse_side(after, true)) {
            (Some(head), Some(tail)) => {
                if head.len() > 7 || tail.len() > 7 - head.len() {
                    return None;
                }
                let zeros: usize = 8 - head.len() - tail.len();
                let ghost h = widened(head@);
                let ghost t = widened(tail@);
                let mut all: Vec<u16> = head;
                assert(h + Seq::new(0, |k: int| 0nat) =~= h);
                let mut i: usize = 0;
                while i < zeros
                    invariant
                        i <= zeros,
                        widened(all@) == h + Seq::new(i as nat, |k: int| 0nat),
                    decreases zeros - i,
                {
                    let ghost prev = widened(all@);
                    all.push(0);
                    i = i + 1;
                    assert(widened(all@) =~= prev.push(0));
                    assert(widened(all@) =~= h + Seq::new(i as nat, |k: int| 0nat));
                }
                let ghost ht = widened(all@);
                let mut j: usize = 0;
                assert(t.take(0) =~= Seq::<nat>::empty());
                while j < tail.len()
                    invariant
                        j <= tail@.len(),
                        t == widened(tail@),
                        widened(all@) == ht + t.take(j as int),
                    decreases tail@.len() - j,
                {
                    let ghost prev = widened(all@);
                    all.push(tail[j]);
                    j = j + 1;
                    assert(widened(all@) =~= prev.push(t[j - 1]));
                    assert(widened(all@) =~= ht + t.take(j as int));
                }
                assert(t.take(j as int) =~= t);
                assert(widened(all@) =~= ipv6_groups(s@)->0);
                assert(all@.len() == widened(all@).len());
                Some(groups_to_number(&all))
            },
            _ => None,
        }
    } else {
        match parse_groups(s, true) {
            Some(g) => {
                assert(widened(g@).len() == g@.len());
                if g.len() == 8 {
                    Some(groups_to_number(&g))
                } else {
                    None
                }
            },
            None => None,
        }
    }
}

/// Parses an IP address.
pub fn parse_ip_chars(s: &[char]) -> (r: Option<IpAddr>)
    ensures
        r == ip_value(s@),
{
    match parse_ipv4(s) {
        Some(v) => Some(IpAddr::V4(v)),
        None => match parse_ipv6(s) {
            Some(v) => Some(IpAddr::V6(v)),
            None => None,
        },
    }
}

/// Parses an IP address.
pub fn parse_ip(s: &str) -> (r: Option<IpAddr>)
    ensures
        r == ip_value(s@),
{
    parse_ip_chars(text::chars_of(s).as_slice())
}

} // verus!
