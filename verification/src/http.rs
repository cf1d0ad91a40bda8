//! The request line of a WebTunnel client and the decoy that a stranger gets.

use vstd::prelude::*;
use vstd::string::StringExecFns;
use vstd::utf8;

use crate::text;

verus! {

/// The number of bytes before the first carriage return or line feed, or the
/// whole length.
pub open spec fn line_length(buf: Seq<u8>) -> nat
    decreases buf.len(),
{
    if buf.len() == 0 || buf[0] == 13 || buf[0] == 10 {
        0
    } else {
        1 + line_length(buf.skip(1))
    }
}

/// The second word of a request line; words are set apart by single spaces.
pub open spec fn second_word(line: Seq<char>) -> Option<Seq<char>> {
    let n = text::find(line, ' ') as int;
    if n < line.len() {
        let rest = line.skip(n + 1);
        Some(rest.take(text::find(rest, ' ') as int))
    } else {
        None
    }
}

/// The path in the request line at the head of `buf`: there is one where the
/// line is complete, is UTF-8 and has a second word.
pub open spec fn http_path(buf: Seq<u8>) -> Option<Seq<char>> {
    let n = line_length(buf) as int;
    if n < buf.len() && utf8::valid_utf8(buf.take(n)) {
        second_word(utf8::decode_utf8(buf.take(n)))
    } else {
        None
    }
}

/// The request line at the head of `buf` has ended, so that `n` is its length.
proof fn lemma_line_length(buf: Seq<u8>, n: int)
    requires
        0 <= n <= buf.len(),
        n < buf.len() ==> buf[n] == 13 || buf[n] == 10,
        forall|i: int| 0 <= i < n ==> buf[i] != 13 && buf[i] != 10,
    ensures
        line_length(buf) == n,
    decreases n,
{
    if n > 0 {
        assert(buf[0] != 13 && buf[0] != 10);
        let rest = buf.skip(1);
        assert forall|i: int| 0 <= i < n - 1 implies rest[i] != 13 && rest[i] != 10 by {
            assert(rest[i] == buf[i + 1]);
        }
        lemma_line_length(rest, n - 1);
    }
}

/// `std::str::from_utf8` accepts exactly the bytes that are valid UTF-8, and
/// gives the text that they encode.
#[verifier::external_body]
fn utf8_text(bytes: &[u8]) -> (r: Result<&str, std::str::Utf8Error>)
    ensures
        r is Ok <==> utf8::valid_utf8(bytes@),
        r matches Ok(s) ==> s@ == utf8::decode_utf8(bytes@),
{
    std::str::from_utf8(bytes)
}

/// That some bytes are not UTF-8, carried through unread.
#[verifier::external_type_specification]
#[verifier::external_body]
pub struct ExUtf8Error(std::str::Utf8Error);

/// The path in the request line at the head of `buf`, such as `/path` in
/// `GET /path HTTP/1.1`.
pub fn extract_http_path(buf: &[u8]) -> (path: Option<&str>)
    ensures
        path is Some <==> http_path(buf@) is Some,
        path is Some ==> path->0@ == http_path(buf@)->0,
{
    let mut end: usize = 0;
    while end < buf.len() && buf[end] != 13 && buf[end] != 10
        invariant
            end <= buf@.len(),
            forall|i: int| 0 <= i < end ==> buf@[i] != 13 && buf@[i] != 10,
        decreases buf@.len() - end,
    {
        end = end + 1;
    }
    proof {
        lemma_line_length(buf@, end as int);
    }
    if end == buf.len() {
        return None;
    }
    let line_bytes: &[u8] = vstd::slice::slice_subrange(buf, 0, end);
    assert(line_bytes@ =~= buf@.take(end as int));
    let line: &str = match utf8_text(line_bytes) {
        Ok(s) => s,
        Err(_) => {
            return None;
        },
    };
    let chars: Vec<char> = text::chars_of(line);
    let n: usize = text::find_char(chars.as_slice(), ' ');
    if n == chars.len() {
        return None;
    }
    let rest: &[char] = vstd::slice::slice_subrange(chars.as_slice(), n + 1, chars.len());
    assert(rest@ =~= line@.skip(n + 1));
    let m: usize = text::find_char(rest, ' ');
    let path: &str = vstd::string::StrSliceExecFns::substring_char(line, n + 1, n + 1 + m);
    assert(path@ =~= rest@.take(m as int));
    Some(path)
}

/// The second word of a request line is its path, whatever follows the word and
/// the line: the line may end in a carriage return or a line feed, and need not
/// hold a third word.
pub proof fn law_second_word_is_the_path(
    method: Seq<char>,
    path: Seq<char>,
    more: Seq<char>,
    end: u8,
    rest: Seq<u8>,
    buf: &[u8],
    found: Option<&str>,
)
    requires
        is_one_line(method),
        is_one_line(path),
        is_one_line(more),
        !method.contains(' '),
        !path.contains(' '),
        more.len() > 0 ==> more[0] == ' ',
        end == 13 || end == 10,
        buf@ == utf8::encode_utf8(method + seq![' '] + path + more) + seq![end] + rest,
        call_ensures(extract_http_path, (buf,), found),
    ensures
        found is Some,
        found->0@ == path,
{
    let line = method + seq![' '] + path + more;
    let m = method.len() as int;
    let p = path.len() as int;
    assert forall|i: int| 0 <= i < line.len() implies #[trigger] line[i] != '\r' && line[i]
        != '\n' by {
        if i < m {
            assert(line[i] == method[i]);
        } else if m < i < m + 1 + p {
            assert(line[i] == path[i - m - 1]);
        } else if i > m {
            assert(line[i] == more[i - m - p - 1]);
        }
    }
    lemma_line_is_read(line, end, rest);
    assert forall|i: int| 0 <= i < m implies line[i] != ' ' by {
        assert(line[i] == method[i]);
        assert(method.contains(method[i]));
    }
    text::lemma_find_unique(line, ' ', m);
    let words = line.skip(m + 1);
    assert forall|i: int| 0 <= i < p implies words[i] != ' ' by {
        assert(words[i] == path[i]);
        assert(path.contains(path[i]));
    }
    if more.len() > 0 {
        assert(words[p] == more[0]);
    }
    text::lemma_find_unique(words, ' ', p);
    assert(words.take(p) =~= path);
}

/// A line that ends, of text on one line, is what the path is looked for in.
proof fn lemma_line_is_read(line: Seq<char>, end: u8, rest: Seq<u8>)
    requires
        is_one_line(line),
        end == 13 || end == 10,
    ensures
        http_path(utf8::encode_utf8(line) + seq![end] + rest) == second_word(line),
{
    let bytes = utf8::encode_utf8(line);
    let buf = bytes + seq![end] + rest;
    let n = bytes.len() as int;
    lemma_one_line_bytes(line);
    assert forall|i: int| 0 <= i < n implies buf[i] != 13 && buf[i] != 10 by {
        assert(buf[i] == bytes[i]);
    }
    lemma_line_length(buf, n);
    assert(buf.take(n) =~= bytes);
    utf8::encode_utf8_valid_utf8(line);
    utf8::encode_utf8_decode_utf8(line);
}

/// There is no path without a second word.
pub proof fn law_single_word_has_no_path(
    line: Seq<char>,
    end: u8,
    rest: Seq<u8>,
    buf: &[u8],
    found: Option<&str>,
)
    requires
        is_one_line(line),
        !line.contains(' '),
        end == 13 || end == 10,
        buf@ == utf8::encode_utf8(line) + seq![end] + rest,
        call_ensures(extract_http_path, (buf,), found),
    ensures
        found is None,
{
    lemma_line_is_read(line, end, rest);
    assert forall|i: int| 0 <= i < line.len() implies line[i] != ' ' by {
        assert(line.contains(line[i]));
    }
    text::lemma_find_unique(line, ' ', line.len() as int);
}

/// There is no path before the line has ended, nor in a line that is not UTF-8.
pub proof fn law_broken_line_has_no_path(
    line: Seq<u8>,
    end: u8,
    rest: Seq<u8>,
    buf: &[u8],
    found: Option<&str>,
)
    requires
        !line.contains(13),
        !line.contains(10),
        buf@ == line || (!utf8::valid_utf8(line) && (end == 13 || end == 10) && buf@ == line
            + seq![end] + rest),
        call_ensures(extract_http_path, (buf,), found),
    ensures
        found is None,
{
    let n = line.len() as int;
    assert forall|i: int| 0 <= i < n implies buf@[i] != 13 && buf@[i] != 10 by {
        assert(buf@[i] == line[i]);
        assert(line.contains(line[i]));
    }
    lemma_line_length(buf@, n);
    assert(buf@.take(n) =~= line);
}

/// Once the request line has ended, no byte that follows changes its path.
pub proof fn law_path_is_settled_by_line(buf: Seq<u8>, rest: Seq<u8>)
    requires
        buf.contains(13) || buf.contains(10),
    ensures
        http_path(buf + rest) == http_path(buf),
{
    let n = line_length(buf) as int;
    lemma_line_end(buf);
    if n == buf.len() {
        let i = if buf.contains(13) {
            buf.index_of(13)
        } else {
            buf.index_of(10)
        };
        assert(buf[i] != 13 && buf[i] != 10);
    }
    let longer = buf + rest;
    assert forall|i: int| 0 <= i < n implies longer[i] != 13 && longer[i] != 10 by {
        assert(longer[i] == buf[i]);
    }
    assert(longer[n] == buf[n]);
    lemma_line_length(longer, n);
    assert(longer.take(n) =~= buf.take(n));
}

/// The request line ends at the first carriage return or line feed.
proof fn lemma_line_end(buf: Seq<u8>)
    ensures
        line_length(buf) <= buf.len(),
        line_length(buf) < buf.len() ==> buf[line_length(buf) as int] == 13 || buf[line_length(
            buf,
        ) as int] == 10,
        forall|i: int| 0 <= i < line_length(buf) ==> buf[i] != 13 && buf[i] != 10,
    decreases buf.len(),
{
    if buf.len() > 0 && buf[0] != 13 && buf[0] != 10 {
        let rest = buf.skip(1);
        lemma_line_end(rest);
        assert forall|i: int| 0 <= i < line_length(buf) implies buf[i] != 13 && buf[i] != 10 by {
            if i > 0 {
                assert(buf[i] == rest[i - 1]);
            }
        }
    }
}

/// The page that the decoy response carries.
pub const DECOY_BODY: &'static str = "<html>\r\n<head><title>404 Not Found</title></head>\r\n<body>\r\n<center><h1>404 Not Found</h1></center>\r\n<hr><center>nginx</center>\r\n</body>\r\n</html>\r\n";

/// What stands before the length in the decoy's head.
pub const DECOY_HEAD_START: &'static str = "HTTP/1.1 404 Not Found\r\nServer: nginx\r\nContent-Type: text/html\r\nContent-Length: ";

/// What stands behind the length in the decoy's head.
pub const DECOY_HEAD_END: &'static str = "\r\nConnection: close\r\n\r\n";

/// The head of the decoy response, with the number of bytes in its body.
pub open spec fn decoy_head_text() -> Seq<char> {
    DECOY_HEAD_START@ + text::decimal(utf8::encode_utf8(DECOY_BODY@).len()) + DECOY_HEAD_END@
}

/// The head of the decoy response: a 404 as a plain web server gives it.
pub fn decoy_head() -> (head: String)
    ensures
        head@ == decoy_head_text(),
{
    let length: usize = DECOY_BODY.as_bytes().len();
    DECOY_HEAD_START.to_owned().concat(text::decimal_text(length).as_str()).concat(DECOY_HEAD_END)
}

/// The length that the decoy's head gives reads, up to any limit that it
/// keeps, as the number of bytes in the decoy's body.
pub proof fn law_decoy_length_is_body_length(max: nat)
    requires
        utf8::encode_utf8(DECOY_BODY@).len() <= max,
    ensures
        exists|length: Seq<char>|
            decoy_head_text() == #[trigger] (DECOY_HEAD_START@ + length) + DECOY_HEAD_END@
                && text::unsigned_value(length, max) == Some(
                utf8::encode_utf8(DECOY_BODY@).len(),
            ),
{
    let n = utf8::encode_utf8(DECOY_BODY@).len();
    text::law_decimal_reads_back(n, max);
    assert(decoy_head_text() == (DECOY_HEAD_START@ + text::decimal(n)) + DECOY_HEAD_END@);
}

/// No line ends within `s`.
pub open spec fn is_one_line(s: Seq<char>) -> bool {
    forall|i: int| 0 <= i < s.len() ==> #[trigger] s[i] != '\r' && s[i] != '\n'
}

proof fn lemma_scalar_bytes(c: u32)
    requires
        c != 13,
        c != 10,
        utf8::is_scalar(c),
    ensures
        forall|i: int|
            0 <= i < utf8::encode_scalar(c).len() ==> #[trigger] utf8::encode_scalar(c)[i] != 13
                && utf8::encode_scalar(c)[i] != 10,
{
    assert(c <= 0x7f && c != 13 && c != 10 ==> (c & 0x7f) as u8 != 13 && (c & 0x7f) as u8 != 10)
        by (bit_vector);
    assert(forall|x: u8| #[trigger] (0xc0u8 | x) >= 0x80) by (bit_vector);
    assert(forall|x: u8| #[trigger] (0xe0u8 | x) >= 0x80) by (bit_vector);
    assert(forall|x: u8| #[trigger] (0xf0u8 | x) >= 0x80) by (bit_vector);
    assert(forall|x: u8| #[trigger] (0x80u8 | x) >= 0x80) by (bit_vector);
}

/// The encoding of one line holds no byte that ends a line.
proof fn lemma_one_line_bytes(s: Seq<char>)
    requires
        is_one_line(s),
    ensures
        forall|i: int|
            0 <= i < utf8::encode_utf8(s).len() ==> #[trigger] utf8::encode_utf8(s)[i] != 13
                && utf8::encode_utf8(s)[i] != 10,
    decreases s.len(),
{
    if s.len() > 0 {
        let rest = s.drop_first();
        assert forall|i: int| 0 <= i < rest.len() implies #[trigger] rest[i] != '\r' && rest[i]
            != '\n' by {
            assert(rest[i] == s[i + 1]);
        }
        lemma_one_line_bytes(rest);
        let c = s[0];
        utf8::char_is_scalar(c);
        utf8::char_u32_cast(c, c as u32);
        assert(c as u32 != 13 && c as u32 != 10);
        lemma_scalar_bytes(c as u32);
        let head = utf8::encode_scalar(c as u32);
        assert forall|i: int| 0 <= i < utf8::encode_utf8(s).len() implies
            #[trigger] utf8::encode_utf8(s)[i] != 13 && utf8::encode_utf8(s)[i] != 10 by {
            if i < head.len() {
                assert(utf8::encode_utf8(s)[i] == head[i]);
            } else {
                assert(utf8::encode_utf8(s)[i] == utf8::encode_utf8(rest)[i - head.len()]);
            }
        }
    }
}

/// The path that a client asks for is the path that is read: whatever method,
/// path and version a request line is made of, as long as method and path are
/// single words on one line, and whatever follows the line.
pub proof fn law_request_path_is_read(
    method: Seq<char>,
    path: Seq<char>,
    version: Seq<char>,
    rest: Seq<u8>,
)
    requires
        is_one_line(method),
        is_one_line(path),
        is_one_line(version),
        !method.contains(' '),
        !path.contains(' '),
    ensures
        http_path(
            utf8::encode_utf8(method + seq![' '] + path + seq![' '] + version) + seq![13u8, 10u8]
                + rest,
        ) == Some(path),
{
    let line = method + seq![' '] + path + seq![' '] + version;
    let bytes = utf8::encode_utf8(line);
    let buf = bytes + seq![13u8, 10u8] + rest;
    let n = bytes.len() as int;
    assert(is_one_line(line)) by {
        assert forall|i: int| 0 <= i < line.len() implies #[trigger] line[i] != '\r' && line[i]
            != '\n' by {
            let m = method.len();
            let p = path.len();
            if i < m {
                assert(line[i] == method[i]);
            } else if m < i < m + 1 + p {
                assert(line[i] == path[i - m - 1]);
            } else if i > m + 1 + p {
                assert(line[i] == version[i - m - p - 2]);
            }
        }
    }
    lemma_one_line_bytes(line);
    assert forall|i: int| 0 <= i < n implies buf[i] != 13 && buf[i] != 10 by {
        assert(buf[i] == bytes[i]);
    }
    lemma_line_length(buf, n);
    assert(buf.take(n) =~= bytes);
    utf8::encode_utf8_valid_utf8(line);
    utf8::encode_utf8_decode_utf8(line);
    assert forall|i: int| 0 <= i < method.len() implies line[i] != ' ' by {
        assert(line[i] == method[i]);
        assert(method.contains(method[i]));
    }
    text::lemma_find_unique(line, ' ', method.len() as int);
    let words = line.skip(method.len() as int + 1);
    assert forall|i: int| 0 <= i < path.len() implies words[i] != ' ' by {
        assert(words[i] == path[i]);
        assert(path.contains(path[i]));
    }
    text::lemma_find_unique(words, ' ', path.len() as int);
    assert(words.take(path.len() as int) =~= path);
}

} // verus!
