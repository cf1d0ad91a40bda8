//! Character-sequence helpers shared by the parsers: searching, splitting,
//! trimming and unsigned numbers.

use vstd::prelude::*;
use vstd::string::StringExecFns;

verus! {

/// The number of characters before the first `c`, or the whole length when
/// `c` does not occur.
pub open spec fn find(s: Seq<char>, c: char) -> nat
    decreases s.len(),
{
    if s.len() == 0 {
        0
    } else if s[0] == c {
        0
    } else {
        1 + find(s.skip(1), c)
    }
}

/// `find` stops at the first occurrence and nowhere else.
pub proof fn lemma_find(s: Seq<char>, c: char)
    ensures
        find(s, c) <= s.len(),
        find(s, c) < s.len() ==> s[find(s, c) as int] == c,
        forall|i: int| 0 <= i < find(s, c) ==> s[i] != c,
    decreases s.len(),
{
    if s.len() > 0 && s[0] != c {
        lemma_find(s.skip(1), c);
        assert forall|i: int| 0 <= i < find(s, c) implies s[i] != c by {
            if i > 0 {
                assert(s[i] == s.skip(1)[i - 1]);
            }
        }
    }
}

/// An index that splits `s` into a part free of `c` and the first `c` (or the
/// end) is the one `find` gives.
pub proof fn lemma_find_unique(s: Seq<char>, c: char, n: int)
    requires
        0 <= n <= s.len(),
        n < s.len() ==> s[n] == c,
        forall|i: int| 0 <= i < n ==> s[i] != c,
    ensures
        find(s, c) == n,
{
    lemma_find(s, c);
    if find(s, c) < n {
        assert(s[find(s, c) as int] != c);
    }
}

/// Index of the first `c` in `s`, or `s.len()`.
pub fn find_char(s: &[char], c: char) -> (n: usize)
    ensures
        n == find(s@, c),
        n <= s@.len(),
{
    let mut i: usize = 0;
    while i < s.len()
        invariant
            i <= s@.len(),
            forall|j: int| 0 <= j < i ==> s@[j] != c,
        decreases s@.len() - i,
    {
        if s[i] == c {
            proof {
                lemma_find_unique(s@, c, i as int);
            }
            return i;
        }
        i = i + 1;
    }
    proof {
        lemma_find_unique(s@, c, i as int);
    }
    i
}

/// The pieces of `s` between occurrences of `sep`; there is always at least one.
pub open spec fn split_on(s: Seq<char>, sep: char) -> Seq<Seq<char>>
    decreases s.len(),
    via split_on_decreases
{
    let n = find(s, sep) as int;
    if n >= s.len() {
        seq![s]
    } else {
        seq![s.take(n)] + split_on(s.skip(n + 1), sep)
    }
}

#[via_fn]
proof fn split_on_decreases(s: Seq<char>, sep: char) {
    lemma_find(s, sep);
}

/// Joining two texts with the separator joins their pieces.
pub proof fn lemma_split_on_join(a: Seq<char>, b: Seq<char>, sep: char)
    ensures
        split_on(a + seq![sep] + b, sep) == split_on(a, sep) + split_on(b, sep),
    decreases a.len(),
{
    let s = a + seq![sep] + b;
    lemma_find(a, sep);
    let n = find(a, sep) as int;
    assert forall|i: int| 0 <= i < n implies s[i] != sep by {
        assert(s[i] == a[i]);
    }
    if n == a.len() {
        lemma_find_unique(s, sep, n);
        assert(s.take(n) =~= a);
        assert(s.skip(n + 1) =~= b);
    } else {
        assert(s[n] == a[n]);
        lemma_find_unique(s, sep, n);
        assert(s.take(n) =~= a.take(n));
        assert(s.skip(n + 1) =~= a.skip(n + 1) + seq![sep] + b);
        lemma_split_on_join(a.skip(n + 1), b, sep);
        assert(split_on(s, sep) =~= split_on(a, sep) + split_on(b, sep));
    }
}

/// The pieces with `sep` between them.
pub open spec fn joined(pieces: Seq<Seq<char>>, sep: char) -> Seq<char>
    decreases pieces.len(),
{
    if pieces.len() == 0 {
        Seq::empty()
    } else if pieces.len() == 1 {
        pieces[0]
    } else {
        joined(pieces.drop_last(), sep) + seq![sep] + pieces.last()
    }
}

/// A text is its pieces with the separator between them, and no piece holds it.
pub proof fn law_split_text_joins_again(s: Seq<char>, sep: char)
    ensures
        split_on(s, sep).len() > 0,
        joined(split_on(s, sep), sep) == s,
        forall|i: int|
            0 <= i < split_on(s, sep).len() ==> !(#[trigger] split_on(s, sep)[i]).contains(sep),
    decreases s.len(),
{
    lemma_find(s, sep);
    let n = find(s, sep) as int;
    let p = split_on(s, sep);
    if n >= s.len() {
        assert(p[0] == s);
        assert(!s.contains(sep));
    } else {
        let rest = s.skip(n + 1);
        let tail = split_on(rest, sep);
        law_split_text_joins_again(rest, sep);
        assert(!s.take(n).contains(sep)) by {
            if s.take(n).contains(sep) {
                let i = s.take(n).index_of(sep);
                assert(s[i] == sep);
            }
        }
        assert forall|i: int| 0 <= i < p.len() implies !(#[trigger] p[i]).contains(sep) by {
            if i > 0 {
                assert(p[i] == tail[i - 1]);
            }
        }
        lemma_joined_first(s.take(n), tail, sep);
        assert(s.take(n) + seq![sep] + rest =~= s);
    }
}

proof fn lemma_joined_first(first: Seq<char>, tail: Seq<Seq<char>>, sep: char)
    requires
        tail.len() > 0,
    ensures
        joined(seq![first] + tail, sep) == first + seq![sep] + joined(tail, sep),
    decreases tail.len(),
{
    let all = seq![first] + tail;
    assert(all.last() == tail.last());
    if tail.len() == 1 {
        assert(all.drop_last() =~= seq![first]);
        assert(joined(all.drop_last(), sep) == first);
        assert(tail.last() == tail[0]);
    } else {
        assert(all.drop_last() =~= seq![first] + tail.drop_last());
        lemma_joined_first(first, tail.drop_last(), sep);
        assert(joined(all, sep) =~= first + seq![sep] + joined(tail, sep));
    }
}

/// Pieces that were joined come apart again.
pub proof fn law_joined_pieces_come_apart(pieces: Seq<Seq<char>>, sep: char)
    requires
        pieces.len() > 0,
        forall|i: int| 0 <= i < pieces.len() ==> !(#[trigger] pieces[i]).contains(sep),
    ensures
        split_on(joined(pieces, sep), sep) == pieces,
    decreases pieces.len(),
{
    lemma_split_on_whole(pieces.last(), sep);
    if pieces.len() == 1 {
        assert(pieces =~= seq![pieces.last()]);
    } else {
        let before = pieces.drop_last();
        assert forall|i: int| 0 <= i < before.len() implies !(#[trigger] before[i]).contains(
            sep,
        ) by {
            assert(before[i] == pieces[i]);
        }
        law_joined_pieces_come_apart(before, sep);
        lemma_split_on_join(joined(before, sep), pieces.last(), sep);
        assert(before + seq![pieces.last()] =~= pieces);
    }
}

/// A text without the separator is one piece.
pub proof fn lemma_split_on_whole(s: Seq<char>, sep: char)
    requires
        !s.contains(sep),
    ensures
        split_on(s, sep) == seq![s],
{
    assert forall|i: int| 0 <= i < s.len() implies s[i] != sep by {
        assert(s.contains(s[i]));
    }
    lemma_find_unique(s, sep, s.len() as int);
}

/// Every character of a text is the separator or stands in one of its pieces.
pub proof fn lemma_split_on_covers(s: Seq<char>, sep: char, i: int)
    requires
        0 <= i < s.len(),
        s[i] != sep,
    ensures
        exists|k: int|
            0 <= k < split_on(s, sep).len() && (#[trigger] split_on(s, sep)[k]).contains(s[i]),
    decreases s.len(),
{
    lemma_find(s, sep);
    let n = find(s, sep) as int;
    if n >= s.len() {
        assert(split_on(s, sep)[0].contains(s[i]));
    } else if i < n {
        assert(s.take(n)[i] == s[i]);
        assert(split_on(s, sep)[0].contains(s[i]));
    } else {
        let rest = s.skip(n + 1);
        assert(rest[i - n - 1] == s[i]);
        lemma_split_on_covers(rest, sep, i - n - 1);
        let k = choose|k: int|
            0 <= k < split_on(rest, sep).len() && (#[trigger] split_on(rest, sep)[k]).contains(
                rest[i - n - 1],
            );
        assert(split_on(s, sep)[k + 1] == split_on(rest, sep)[k]);
    }
}

/// The pieces of `s` between occurrences of `sep`, in order.
pub fn split_chars(s: &[char], sep: char) -> (pieces: Vec<&[char]>)
    ensures
        pieces@.len() == split_on(s@, sep).len(),
        forall|i: int| 0 <= i < pieces@.len() ==> (#[trigger] pieces@[i])@ == split_on(s@, sep)[i],
{
    let mut pieces: Vec<&[char]> = Vec::new();
    let mut rest: &[char] = s;
    loop
        invariant
            pieces@.len() + split_on(rest@, sep).len() == split_on(s@, sep).len(),
            forall|i: int|
                0 <= i < pieces@.len() ==> (#[trigger] pieces@[i])@ == split_on(s@, sep)[i],
            forall|i: int|
                0 <= i < split_on(rest@, sep).len() ==> #[trigger] split_on(rest@, sep)[i]
                    == split_on(s@, sep)[pieces@.len() + i],
        decreases rest@.len(),
    {
        let n: usize = find_char(rest, sep);
        let ghost before = split_on(rest@, sep);
        let ghost done = pieces@.len();
        if n == rest.len() {
            pieces.push(rest);
            assert(before[0] == rest@);
            return pieces;
        }
        let piece: &[char] = vstd::slice::slice_subrange(rest, 0, n);
        let tail: &[char] = vstd::slice::slice_subrange(rest, n + 1, rest.len());
        assert(piece@ =~= rest@.take(n as int));
        assert(tail@ =~= rest@.skip(n + 1));
        assert(before[0] == piece@);
        pieces.push(piece);
        rest = tail;
        assert forall|i: int| 0 <= i < split_on(rest@, sep).len() implies #[trigger] split_on(
            rest@,
            sep,
        )[i] == split_on(s@, sep)[pieces@.len() + i] by {
            assert(before[i + 1] == split_on(rest@, sep)[i]);
        }
    }
}

/// Unicode `White_Space`.
pub open spec fn is_white_space(c: char) -> bool {
    ||| '\u{9}' <= c <= '\u{d}'
    ||| c == ' '
    ||| c == '\u{85}'
    ||| c == '\u{a0}'
    ||| c == '\u{1680}'
    ||| '\u{2000}' <= c <= '\u{200a}'
    ||| c == '\u{2028}'
    ||| c == '\u{2029}'
    ||| c == '\u{202f}'
    ||| c == '\u{205f}'
    ||| c == '\u{3000}'
}

fn white_space(c: char) -> (b: bool)
    ensures
        b == is_white_space(c),
{
    ('\u{9}' <= c && c <= '\u{d}') || c == ' ' || c == '\u{85}' || c == '\u{a0}'
        || c == '\u{1680}' || ('\u{2000}' <= c && c <= '\u{200a}') || c == '\u{2028}'
        || c == '\u{2029}' || c == '\u{202f}' || c == '\u{205f}' || c == '\u{3000}'
}

/// `s` without its leading white space.
pub open spec fn trim_start(s: Seq<char>) -> Seq<char>
    decreases s.len(),
{
    if s.len() > 0 && is_white_space(s[0]) {
        trim_start(s.skip(1))
    } else {
        s
    }
}

/// `s` without its trailing white space.
pub open spec fn trim_end(s: Seq<char>) -> Seq<char>
    decreases s.len(),
{
    if s.len() > 0 && is_white_space(s.last()) {
        trim_end(s.drop_last())
    } else {
        s
    }
}

/// `s` without white space at either end.
pub open spec fn trim(s: Seq<char>) -> Seq<char> {
    trim_end(trim_start(s))
}

/// The characters that count as white space, one by one.
pub proof fn law_white_space_characters(c: char)
    ensures
        is_white_space(c) <==> seq![
            '\u{9}',
            '\u{a}',
            '\u{b}',
            '\u{c}',
            '\u{d}',
            '\u{20}',
            '\u{85}',
            '\u{a0}',
            '\u{1680}',
            '\u{2000}',
            '\u{2001}',
            '\u{2002}',
            '\u{2003}',
            '\u{2004}',
            '\u{2005}',
            '\u{2006}',
            '\u{2007}',
            '\u{2008}',
            '\u{2009}',
            '\u{200a}',
            '\u{2028}',
            '\u{2029}',
            '\u{202f}',
            '\u{205f}',
            '\u{3000}',
        ].contains(c),
{
    let all = seq![
        '\u{9}',
        '\u{a}',
        '\u{b}',
        '\u{c}',
        '\u{d}',
        '\u{20}',
        '\u{85}',
        '\u{a0}',
        '\u{1680}',
        '\u{2000}',
        '\u{2001}',
        '\u{2002}',
        '\u{2003}',
        '\u{2004}',
        '\u{2005}',
        '\u{2006}',
        '\u{2007}',
        '\u{2008}',
        '\u{2009}',
        '\u{200a}',
        '\u{2028}',
        '\u{2029}',
        '\u{202f}',
        '\u{205f}',
        '\u{3000}',
    ];
    if is_white_space(c) {
        let n = c as int;
        let i = if n <= 0xd {
            n - 9
        } else if n == 0x20 {
            5
        } else if n == 0x85 {
            6
        } else if n == 0xa0 {
            7
        } else if n == 0x1680 {
            8
        } else if n <= 0x200a {
            n - 0x2000 + 9
        } else if n == 0x2028 {
            20
        } else if n == 0x2029 {
            21
        } else if n == 0x202f {
            22
        } else if n == 0x205f {
            23
        } else {
            24
        };
        assert(all[i] == c);
    }
}

/// All of `s` is white space.
pub open spec fn is_blank(s: Seq<char>) -> bool {
    forall|i: int| 0 <= i < s.len() ==> is_white_space(#[trigger] s[i])
}

/// White space on either side of a text, and nothing else, is trimmed away.
pub proof fn law_trim_takes_outer_white_space(before: Seq<char>, s: Seq<char>, after: Seq<char>)
    requires
        is_blank(before),
        is_blank(after),
        s.len() > 0 ==> !is_white_space(s[0]) && !is_white_space(s.last()),
    ensures
        trim(before + s + after) == s,
{
    lemma_trim_start_blank(before, s + after);
    assert(before + s + after =~= before + (s + after));
    if s.len() > 0 {
        assert((s + after)[0] == s[0]);
        lemma_trim_end_blank(s, after);
    } else {
        assert(s + after =~= after);
        lemma_trim_start_blank(after, Seq::empty());
        assert(after + Seq::<char>::empty() =~= after);
        assert(s =~= Seq::<char>::empty());
    }
}

proof fn lemma_trim_start_blank(before: Seq<char>, s: Seq<char>)
    requires
        is_blank(before),
    ensures
        trim_start(before + s) == trim_start(s),
    decreases before.len(),
{
    if before.len() == 0 {
        assert(before + s =~= s);
    } else {
        assert((before + s)[0] == before[0]);
        assert((before + s).skip(1) =~= before.skip(1) + s);
        lemma_trim_start_blank(before.skip(1), s);
    }
}

proof fn lemma_trim_end_blank(s: Seq<char>, after: Seq<char>)
    requires
        is_blank(after),
    ensures
        trim_end(s + after) == trim_end(s),
    decreases after.len(),
{
    if after.len() == 0 {
        assert(s + after =~= s);
    } else {
        assert((s + after).last() == after.last());
        assert((s + after).drop_last() =~= s + after.drop_last());
        lemma_trim_end_blank(s, after.drop_last());
    }
}

/// A text that neither begins nor ends with white space stays as it is.
pub proof fn lemma_trim_keeps(s: Seq<char>)
    requires
        s.len() > 0 ==> !is_white_space(s[0]) && !is_white_space(s.last()),
    ensures
        trim(s) == s,
{
}

/// The slice of `s` without white space at either end.
pub fn trim_chars(s: &[char]) -> (r: &[char])
    ensures
        r@ == trim(s@),
{
    let mut i: usize = 0;
    assert(s@.skip(0) =~= s@);
    while i < s.len() && white_space(s[i])
        invariant
            i <= s@.len(),
            trim_start(s@) == trim_start(s@.skip(i as int)),
        decreases s@.len() - i,
    {
        assert(s@.skip(i as int).skip(1) =~= s@.skip(i + 1));
        i = i + 1;
    }
    let mut j: usize = s.len();
    assert(s@.subrange(i as int, j as int) =~= s@.skip(i as int));
    while i < j && white_space(s[j - 1])
        invariant
            i <= j <= s@.len(),
            trim_end(s@.skip(i as int)) == trim_end(s@.subrange(i as int, j as int)),
        decreases j,
    {
        assert(s@.subrange(i as int, j as int).drop_last() =~= s@.subrange(i as int, j - 1));
        j = j - 1;
    }
    vstd::slice::slice_subrange(s, i, j)
}

/// The value of `c` as a digit in the given radix (at most sixteen).
pub open spec fn digit_value(c: char, radix: nat) -> Option<nat> {
    let v = if '0' <= c <= '9' {
        c as nat - '0' as nat
    } else if 'a' <= c <= 'f' {
        c as nat - 'a' as nat + 10
    } else if 'A' <= c <= 'F' {
        c as nat - 'A' as nat + 10
    } else {
        16
    };
    if v < radix && v < 16 {
        Some(v as nat)
    } else {
        None
    }
}

/// The value of `c` as a digit in the given radix.
pub fn digit(c: char, radix: u8) -> (d: Option<u8>)
    requires
        radix <= 16,
    ensures
        d is Some <==> digit_value(c, radix as nat) is Some,
        d is Some ==> d->0 == digit_value(c, radix as nat)->0,
{
    let n: u32 = c as u32;
    let v: u32 = if '0' <= c && c <= '9' {
        n - 0x30
    } else if 'a' <= c && c <= 'f' {
        n - 0x61 + 10
    } else if 'A' <= c && c <= 'F' {
        n - 0x41 + 10
    } else {
        16
    };
    if v < radix as u32 && v < 16 {
        Some(v as u8)
    } else {
        None
    }
}

/// Every character of `s` is a digit in the given radix.
pub open spec fn all_digits(s: Seq<char>, radix: nat) -> bool {
    forall|i: int| 0 <= i < s.len() ==> digit_value(#[trigger] s[i], radix) is Some
}

/// The number that the digits of `s` denote, most significant first.
pub open spec fn digits_value(s: Seq<char>, radix: nat) -> nat
    decreases s.len(),
{
    if s.len() == 0 {
        0
    } else {
        digits_value(s.drop_last(), radix) * radix + digit_value(s.last(), radix)->0
    }
}

/// A longer run of digits denotes no smaller number.
pub proof fn lemma_digits_value_grows(s: Seq<char>, radix: nat, n: int)
    requires
        0 <= n <= s.len(),
        radix >= 1,
    ensures
        digits_value(s.take(n), radix) <= digits_value(s, radix),
    decreases s.len() - n,
{
    if n == s.len() {
        assert(s.take(n) =~= s);
    } else {
        lemma_digits_value_grows(s, radix, n + 1);
        let longer = s.take(n + 1);
        assert(longer.drop_last() =~= s.take(n));
        let v = digits_value(s.take(n), radix);
        assert(v * radix >= v) by (nonlinear_arith)
            requires
                radix >= 1,
        ;
    }
}

/// The digits of `s` with an optional leading `+` taken away.
pub open spec fn without_plus(s: Seq<char>) -> Seq<char> {
    if s.len() > 0 && s[0] == '+' {
        s.skip(1)
    } else {
        s
    }
}

/// The unsigned decimal number that `s` spells: an optional `+` and then at
/// least one digit, nothing else, and no more than `max`.
pub open spec fn unsigned_value(s: Seq<char>, max: nat) -> Option<nat> {
    let d = without_plus(s);
    if d.len() > 0 && all_digits(d, 10) && digits_value(d, 10) <= max {
        Some(digits_value(d, 10))
    } else {
        None
    }
}

/// Parses an unsigned decimal number that is at most `max`.
pub fn parse_unsigned(s: &[char], max: u64) -> (r: Option<u64>)
    ensures
        r is Some <==> unsigned_value(s@, max as nat) is Some,
        r is Some ==> r->0 == unsigned_value(s@, max as nat)->0,
{
    let ghost d = without_plus(s@);
    let start: usize = if s.len() > 0 && s[0] == '+' {
        1
    } else {
        0
    };
    assert(d =~= s@.skip(start as int));
    if start == s.len() {
        return None;
    }
    let mut acc: u64 = 0;
    let mut i: usize = start;
    assert(d.take(0) =~= Seq::<char>::empty());
    while i < s.len()
        invariant
            start <= i <= s@.len(),
            start <= 1,
            start < s@.len(),
            d == without_plus(s@),
            d == s@.skip(start as int),
            acc <= max,
            acc == digits_value(d.take(i - start), 10),
            forall|j: int| 0 <= j < i - start ==> digit_value(#[trigger] d[j], 10) is Some,
        decreases s@.len() - i,
    {
        assert(d[i - start] == s@[i as int]);
        match digit(s[i], 10) {
            None => {
                assert(!all_digits(d, 10));
                return None;
            },
            Some(v) => {
                let wide: u128 = acc as u128 * 10 + v as u128;
                assert(d.take(i - start + 1).drop_last() =~= d.take(i - start));
                assert(wide == digits_value(d.take(i - start + 1), 10));
                if wide > max as u128 {
                    proof {
                        lemma_digits_value_grows(d, 10, i - start + 1);
                    }
                    return None;
                }
                acc = wide as u64;
            },
        }
        i = i + 1;
    }
    assert(d.take(i - start) =~= d);
    Some(acc)
}

/// The decimal notation of `n`, without leading zeros.
pub open spec fn decimal(n: nat) -> Seq<char>
    decreases n,
{
    if n < 10 {
        seq![('0' as nat + n) as char]
    } else {
        decimal(n / 10).push(('0' as nat + n % 10) as char)
    }
}

/// Decimal notation reads back as the number it was written from.
pub proof fn law_decimal_reads_back(n: nat, max: nat)
    requires
        n <= max,
    ensures
        unsigned_value(decimal(n), max) == Some(n),
{
    lemma_decimal(n);
    assert(without_plus(decimal(n)) == decimal(n)) by {
        assert(digit_value(decimal(n)[0], 10) is Some);
    }
}

/// Decimal notation consists of the digits of the number.
pub proof fn lemma_decimal(n: nat)
    ensures
        decimal(n).len() > 0,
        all_digits(decimal(n), 10),
        digits_value(decimal(n), 10) == n,
    decreases n,
{
    if n < 10 {
        let s = decimal(n);
        assert(s.drop_last() =~= Seq::<char>::empty());
        assert(digits_value(s.drop_last(), 10) == 0);
    } else {
        lemma_decimal(n / 10);
        let s = decimal(n);
        assert(s.drop_last() =~= decimal(n / 10));
        assert forall|i: int| 0 <= i < s.len() implies digit_value(#[trigger] s[i], 10) is Some by {
            if i < s.len() - 1 {
                assert(s[i] == decimal(n / 10)[i]);
            }
        }
    }
}

/// A number above the limit is none, and neither is a text with anything but
/// digits behind an optional plus sign.
pub proof fn law_unsigned_is_bounded_and_all_digits(n: nat, max: nat, s: Seq<char>, i: int)
    requires
        0 <= i < s.len(),
        !('0' <= s[i] <= '9'),
        i > 0 || s[i] != '+',
    ensures
        n > max ==> unsigned_value(decimal(n), max) is None,
        unsigned_value(s, max) is None,
        unsigned_value(Seq::empty(), max) is None,
        unsigned_value(seq!['+'], max) is None,
{
    lemma_decimal(n);
    assert(without_plus(decimal(n)) == decimal(n)) by {
        assert(digit_value(decimal(n)[0], 10) is Some);
    }
    let d = without_plus(s);
    if s[0] == '+' {
        assert(d[i - 1] == s[i]);
        assert(digit_value(d[i - 1], 10) is None);
    } else {
        assert(digit_value(d[i], 10) is None);
    }
    assert(seq!['+'].skip(1) =~= Seq::<char>::empty());
}

/// A plus sign before a number, and zeros before its digits, change nothing.
pub proof fn law_plus_and_leading_zeros_are_ignored(n: nat, max: nat, zeros: nat)
    requires
        n <= max,
    ensures
        unsigned_value(Seq::new(zeros, |i: int| '0') + decimal(n), max) == Some(n),
        unsigned_value(seq!['+'] + Seq::new(zeros, |i: int| '0') + decimal(n), max) == Some(n),
{
    let z = Seq::new(zeros, |i: int| '0');
    let s = z + decimal(n);
    lemma_decimal(n);
    lemma_leading_zeros(z, decimal(n), 10);
    assert forall|i: int| 0 <= i < s.len() implies digit_value(#[trigger] s[i], 10) is Some by {
        if i >= zeros {
            assert(s[i] == decimal(n)[i - zeros]);
        }
    }
    assert(without_plus(s) == s) by {
        assert(digit_value(s[0], 10) is Some);
    }
    let p = seq!['+'] + z + decimal(n);
    assert(without_plus(p) =~= s);
}

/// Zeros before digits denote nothing.
pub proof fn lemma_leading_zeros(zeros: Seq<char>, s: Seq<char>, radix: nat)
    requires
        forall|i: int| 0 <= i < zeros.len() ==> zeros[i] == '0',
        radix >= 1,
    ensures
        digits_value(zeros + s, radix) == digits_value(s, radix),
    decreases s.len() + zeros.len(),
{
    if s.len() > 0 {
        assert((zeros + s).drop_last() =~= zeros + s.drop_last());
        lemma_leading_zeros(zeros, s.drop_last(), radix);
    } else {
        assert(zeros + s =~= zeros);
        if zeros.len() > 0 {
            lemma_leading_zeros(zeros.drop_last(), s, radix);
            assert(zeros.drop_last() + s =~= zeros.drop_last());
            assert(digits_value(zeros.drop_last(), radix) == 0);
            assert(0 * radix == 0);
        }
    }
}

/// The digits and their values: ten decimal ones, and six letters in either case.
pub proof fn law_digits_and_their_values(n: nat)
    requires
        n < 16,
    ensures
        n < 10 ==> digit_value(('0' as nat + n) as char, 10) == Some(n) && digit_value(
            ('0' as nat + n) as char,
            16,
        ) == Some(n),
        n >= 10 ==> digit_value(('a' as nat + n - 10) as char, 16) == Some(n) && digit_value(
            ('A' as nat + n - 10) as char,
            16,
        ) == Some(n) && digit_value(('a' as nat + n - 10) as char, 10) is None,
{
}

fn digit_text(d: usize) -> (s: &'static str)
    requires
        d < 10,
    ensures
        s@ == seq![('0' as nat + d) as char],
{
    proof {
        reveal_strlit("0");
        reveal_strlit("1");
        reveal_strlit("2");
        reveal_strlit("3");
        reveal_strlit("4");
        reveal_strlit("5");
        reveal_strlit("6");
        reveal_strlit("7");
        reveal_strlit("8");
        reveal_strlit("9");
    }
    let s: &'static str = match d {
        0 => "0",
        1 => "1",
        2 => "2",
        3 => "3",
        4 => "4",
        5 => "5",
        6 => "6",
        7 => "7",
        8 => "8",
        _ => "9",
    };
    assert(s@ =~= seq![('0' as nat + d) as char]);
    s
}

/// Writes `n` in decimal.
pub fn decimal_text(n: usize) -> (s: String)
    ensures
        s@ == decimal(n as nat),
    decreases n,
{
    if n < 10 {
        digit_text(n).to_owned()
    } else {
        let s: String = decimal_text(n / 10).concat(digit_text(n % 10));
        assert(s@ =~= decimal(n as nat));
        s
    }
}

/// `c` in lower case where it is an ASCII letter.
pub open spec fn ascii_lower(c: char) -> char {
    if 'A' <= c <= 'Z' {
        (c as nat + 32) as char
    } else {
        c
    }
}

/// The two texts differ at most in the case of ASCII letters.
pub open spec fn same_ignoring_ascii_case(a: Seq<char>, b: Seq<char>) -> bool {
    a.len() == b.len() && forall|i: int|
        0 <= i < a.len() ==> ascii_lower(#[trigger] a[i]) == ascii_lower(b[i])
}

fn to_ascii_lower(c: char) -> (l: u32)
    ensures
        l == ascii_lower(c) as u32,
{
    if 'A' <= c && c <= 'Z' {
        c as u32 + 32
    } else {
        c as u32
    }
}

/// Whether two texts differ at most in the case of ASCII letters.
pub fn eq_ignoring_ascii_case(a: &[char], b: &[char]) -> (r: bool)
    ensures
        r == same_ignoring_ascii_case(a@, b@),
{
    if a.len() != b.len() {
        return false;
    }
    let mut i: usize = 0;
    while i < a.len()
        invariant
            i <= a@.len(),
            a@.len() == b@.len(),
            forall|j: int| 0 <= j < i ==> ascii_lower(#[trigger] a@[j]) == ascii_lower(b@[j]),
        decreases a@.len() - i,
    {
        if to_ascii_lower(a[i]) != to_ascii_lower(b[i]) {
            assert(ascii_lower(a@[i as int]) != ascii_lower(b@[i as int]));
            return false;
        }
        i = i + 1;
    }
    true
}

/// Whether two texts are the same.
pub fn same_chars(a: &[char], b: &[char]) -> (r: bool)
    ensures
        r == (a@ == b@),
{
    if a.len() != b.len() {
        return false;
    }
    let mut i: usize = 0;
    while i < a.len()
        invariant
            i <= a@.len(),
            a@.len() == b@.len(),
            forall|j: int| 0 <= j < i ==> a@[j] == b@[j],
        decreases a@.len() - i,
    {
        if a[i] != b[i] {
            return false;
        }
        i = i + 1;
    }
    assert(a@ =~= b@);
    true
}

/// The characters of `s`.
pub fn chars_of(s: &str) -> (v: Vec<char>)
    ensures
        v@ == s@,
{
    let mut v: Vec<char> = Vec::new();
    for c in it: s.chars()
        invariant
            it.seq() == s@,
            v@ == s@.take(it.index() as int),
    {
        v.push(c);
        assert(s@.take(it.index() + 1) =~= s@.take(it.index() as int).push(c));
    }
    assert(s@.take(s@.len() as int) =~= s@);
    v
}

} // verus!
