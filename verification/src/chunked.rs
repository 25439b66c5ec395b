//! Reading the body out of an HTTP response whose body is sent in chunks.

use vstd::prelude::*;
use vstd::string::StringSliceAdditionalSpecFns;
use vstd::slice::slice_subrange;
use vstd::utf8::{
    decode_utf8, encode_utf8_decode_utf8, encode_utf8_valid_utf8, is_char_boundary,
    is_char_boundary_iff_not_is_continuation_byte, is_char_boundary_start_end_of_seq,
    length_of_first_scalar, pop_first_scalar, valid_utf8,
};
use crate::text::to_chars;

verus! {

/// `needle` stands in `hay` at position `i`.
pub open spec fn occurs_at(hay: Seq<u8>, needle: Seq<u8>, i: int) -> bool {
    &&& 0 <= i
    &&& i + needle.len() <= hay.len()
    &&& hay.subrange(i, i + needle.len()) == needle
}

/// The first position at or after `from` at which `needle` stands in `hay`.
pub open spec fn first_match(hay: Seq<u8>, needle: Seq<u8>, from: int) -> Option<nat>
    decreases hay.len() - from + 1,
{
    if from < 0 || from + needle.len() > hay.len() {
        None
    } else if occurs_at(hay, needle, from) {
        Some(from as nat)
    } else {
        first_match(hay, needle, from + 1)
    }
}

/// A carriage return and a line feed: the end of a line.
pub open spec fn line_end() -> Seq<u8> {
    seq![13u8, 10u8]
}

/// Two line ends in a row: the end of the headers.
pub open spec fn blank_line() -> Seq<u8> {
    seq![13u8, 10u8, 13u8, 10u8]
}

/// Tells whether `needle` stands in `hay` at position `i`.
pub fn stands_at(hay: &[u8], needle: &Vec<u8>, i: usize) -> (found: bool)
    requires
        i + needle@.len() <= hay@.len(),
    ensures
        found == occurs_at(hay@, needle@, i as int),
{
    let mut k: usize = 0;
    let n: usize = hay.len();
    while k < needle.len()
        invariant
            n == hay@.len(),
            i + needle@.len() <= hay@.len(),
            k <= needle@.len(),
            forall|t: int| 0 <= t < k ==> hay@[i + t] == needle@[t],
        decreases needle@.len() - k,
    {
        if hay[i + k] != needle[k] {
            assert(hay@.subrange(i as int, i + needle@.len())[k as int] == hay@[i + k]);
            return false;
        }
        k += 1;
    }
    assert(hay@.subrange(i as int, i + needle@.len()) =~= needle@);
    true
}

/// The first position at or after `from` at which `needle` stands in `hay`.
pub fn find(hay: &[u8], needle: &Vec<u8>, from: usize) -> (found: Option<usize>)
    ensures
        match found {
            Some(i) => first_match(hay@, needle@, from as int) == Some(i as nat),
            None => first_match(hay@, needle@, from as int) is None,
        },
{
    if needle.len() > hay.len() || from > hay.len() - needle.len() {
        return None;
    }
    let last: usize = hay.len() - needle.len();
    let mut i: usize = from;
    loop
        invariant
            last == hay@.len() - needle@.len(),
            from <= i <= last,
            first_match(hay@, needle@, from as int) == first_match(hay@, needle@, i as int),
        decreases last - i,
    {
        if stands_at(hay, needle, i) {
            return Some(i);
        }
        if i == last {
            return None;
        }
        i += 1;
    }
}

/// Where `needle` is found it stands, at or after the place the search
/// began.
pub proof fn lemma_first_match(hay: Seq<u8>, needle: Seq<u8>, from: int)
    ensures
        first_match(hay, needle, from) matches Some(i) ==> from <= i && occurs_at(
            hay,
            needle,
            i as int,
        ),
    decreases hay.len() - from + 1,
{
    if !(from < 0 || from + needle.len() > hay.len()) && !occurs_at(hay, needle, from) {
        lemma_first_match(hay, needle, from + 1);
    }
}

/// In UTF-8 a character starts at every byte below 128, and another one, or
/// nothing, right behind it.
pub proof fn lemma_boundary_after_ascii(bytes: Seq<u8>, i: int)
    requires
        valid_utf8(bytes),
        0 <= i < bytes.len(),
        bytes[i] < 128,
    ensures
        is_char_boundary(bytes, i),
        is_char_boundary(bytes, i + 1),
    decreases bytes.len(),
{
    is_char_boundary_iff_not_is_continuation_byte(bytes, i);
    reveal_with_fuel(is_char_boundary, 2);
    reveal_with_fuel(valid_utf8, 2);
    if i > 0 {
        let first = length_of_first_scalar(bytes);
        let rest = pop_first_scalar(bytes);
        assert(rest[i - first] == bytes[i]);
        lemma_boundary_after_ascii(rest, i - first);
    }
}

/// What follows the first blank line of `response`, up to the next blank
/// line or, where there is none, to the end. There is no body where there
/// is no blank line.
pub open spec fn body_bytes(response: Seq<u8>) -> Option<Seq<u8>> {
    match first_match(response, blank_line(), 0) {
        None => None,
        Some(p) => {
            let start = p as int + 4;
            match first_match(response, blank_line(), start) {
                None => Some(response.skip(start)),
                Some(q) => Some(response.subrange(start, q as int)),
            }
        },
    }
}

fn blank_line_bytes() -> (v: Vec<u8>)
    ensures
        v@ == blank_line(),
{
    let mut v: Vec<u8> = Vec::new();
    v.push(13);
    v.push(10);
    v.push(13);
    v.push(10);
    assert(v@ =~= blank_line());
    v
}

fn line_end_bytes() -> (v: Vec<u8>)
    ensures
        v@ == line_end(),
{
    let mut v: Vec<u8> = Vec::new();
    v.push(13);
    v.push(10);
    assert(v@ =~= line_end());
    v
}

/// The body of an HTTP response: what follows the first blank line, up to
/// the next one.
pub fn response_body(response: &str) -> (body: Option<&str>)
    ensures
        match body {
            Some(b) => body_bytes(response.spec_bytes()) == Some(b.spec_bytes()),
            None => body_bytes(response.spec_bytes()) is None,
        },
{
    let bytes = response.as_bytes();
    let len: usize = bytes.len();
    let blank = blank_line_bytes();
    let ghost all = response.spec_bytes();
    proof {
        encode_utf8_valid_utf8(response@);
        lemma_first_match(all, blank_line(), 0);
    }
    match find(bytes, &blank, 0) {
        None => None,
        Some(p) => {
            let start: usize = p + 4;
            proof {
                lemma_first_match(all, blank_line(), start as int);
            }
            let end: usize = match find(bytes, &blank, start) {
                None => len,
                Some(q) => q,
            };
            proof {
                assert(all.subrange(p as int, p + 4)[3] == blank_line()[3]);
                if end < all.len() {
                    assert(all.subrange(end as int, end + 4)[0] == blank_line()[0]);
                    lemma_boundary_after_ascii(all, end as int);
                } else {
                    is_char_boundary_start_end_of_seq(all);
                }
            }
            let (head, _) = response.split_at(end);
            proof {
                encode_utf8_valid_utf8(head@);
                assert(head.spec_bytes()[start - 1] == all[start - 1]);
                lemma_boundary_after_ascii(head.spec_bytes(), start - 1);
            }
            let (_, body) = head.split_at(start);
            assert(body.spec_bytes() =~= all.subrange(start as int, end as int));
            assert(all.skip(start as int) =~= all.subrange(start as int, all.len() as int));
            Some(body)
        },
    }
}

/// Whether `c` is white space, as `char::is_whitespace` tells it.
pub uninterp spec fn white_space(c: char) -> bool;

/// `char::is_whitespace` tells whether a character has the Unicode property
/// White_Space. Which characters have it is left to that function: the
/// contract only gives its answer a name.
pub assume_specification[ char::is_whitespace ](c: char) -> (b: bool)
    ensures
        b == white_space(c),
;

/// `s` without the white space it begins with.
pub open spec fn trimmed_start(s: Seq<char>) -> Seq<char>
    decreases s.len(),
{
    if s.len() > 0 && white_space(s[0]) {
        trimmed_start(s.drop_first())
    } else {
        s
    }
}

/// `s` without the white space it ends with.
pub open spec fn trimmed_end(s: Seq<char>) -> Seq<char>
    decreases s.len(),
{
    if s.len() > 0 && white_space(s.last()) {
        trimmed_end(s.drop_last())
    } else {
        s
    }
}

/// `s` without the white space at either end.
pub open spec fn trimmed(s: Seq<char>) -> Seq<char> {
    trimmed_end(trimmed_start(s))
}

/// The value of `c` as a hexadecimal digit, in either case.
pub open spec fn hex_digit(c: char) -> Option<nat> {
    if '0' <= c <= '9' {
        Some((c as int - '0' as int) as nat)
    } else if 'a' <= c <= 'f' {
        Some((c as int - 'a' as int + 10) as nat)
    } else if 'A' <= c <= 'F' {
        Some((c as int - 'A' as int + 10) as nat)
    } else {
        None
    }
}

/// The number that the hexadecimal digits `s` write. There is none where
/// `s` is empty or holds anything but such digits.
pub open spec fn hex_digits_value(s: Seq<char>) -> Option<nat>
    decreases s.len(),
{
    if s.len() == 0 {
        None
    } else if s.len() == 1 {
        hex_digit(s[0])
    } else {
        match (hex_digits_value(s.drop_last()), hex_digit(s.last())) {
            (Some(front), Some(last)) => Some(16 * front + last),
            _ => None,
        }
    }
}

/// The number that `s` writes in hexadecimal, with or without a plus sign
/// before its digits.
pub open spec fn hex_value(s: Seq<char>) -> Option<nat> {
    if s.len() > 0 && s[0] == '+' {
        hex_digits_value(s.drop_first())
    } else {
        hex_digits_value(s)
    }
}

/// The size that the line `line` announces for the chunk behind it: the
/// hexadecimal number it holds between white space, or 0 where it holds no
/// such number or one too large for a `usize`.
pub open spec fn chunk_size_of(line: Seq<char>) -> nat {
    match hex_value(trimmed(line)) {
        Some(v) => if v <= usize::MAX {
            v
        } else {
            0
        },
        None => 0,
    }
}

/// Digits that write a number begin with digits that write a number no
/// larger.
pub proof fn lemma_hex_prefix(s: Seq<char>, k: int)
    requires
        0 < k <= s.len(),
    ensures
        hex_digits_value(s) matches Some(v) ==> (hex_digits_value(s.take(k)) matches Some(p) && p
            <= v),
    decreases s.len(),
{
    if k == s.len() {
        assert(s.take(k) =~= s);
    } else {
        assert(s.drop_last().take(k) =~= s.take(k));
        lemma_hex_prefix(s.drop_last(), k);
    }
}

fn hex_digit_of(c: char) -> (d: Option<usize>)
    ensures
        match d {
            Some(v) => hex_digit(c) == Some(v as nat) && v < 16,
            None => hex_digit(c) is None,
        },
{
    if '0' <= c && c <= '9' {
        Some((c as u32 - '0' as u32) as usize)
    } else if 'a' <= c && c <= 'f' {
        Some((c as u32 - 'a' as u32 + 10) as usize)
    } else if 'A' <= c && c <= 'F' {
        Some((c as u32 - 'A' as u32 + 10) as usize)
    } else {
        None
    }
}

/// The size that `line` announces for the chunk behind it.
pub fn chunk_size(line: &str) -> (size: usize)
    ensures
        size == chunk_size_of(line@),
{
    let chars = to_chars(line);
    let n: usize = chars.len();
    let mut lo: usize = 0;
    assert(chars@.skip(0) =~= chars@);
    while lo < n && chars[lo].is_whitespace()
        invariant
            n == chars@.len(),
            lo <= n,
            trimmed_start(chars@) == trimmed_start(chars@.skip(lo as int)),
        decreases n - lo,
    {
        assert(chars@.skip(lo as int).drop_first() =~= chars@.skip(lo + 1));
        lo += 1;
    }
    let mut hi: usize = n;
    assert(chars@.skip(lo as int) =~= chars@.subrange(lo as int, n as int));
    while hi > lo && chars[hi - 1].is_whitespace()
        invariant
            n == chars@.len(),
            lo <= hi <= n,
            trimmed(chars@) == trimmed_end(chars@.subrange(lo as int, hi as int)),
        decreases hi - lo,
    {
        assert(chars@.subrange(lo as int, hi as int).drop_last() =~= chars@.subrange(
            lo as int,
            hi - 1,
        ));
        hi -= 1;
    }
    let ghost line_text = chars@.subrange(lo as int, hi as int);
    assert(trimmed(chars@) == line_text);
    let start: usize = if lo < hi && chars[lo] == '+' {
        lo + 1
    } else {
        lo
    };
    let ghost digits = chars@.subrange(start as int, hi as int);
    assert(hex_value(line_text) == hex_digits_value(digits)) by {
        if start > lo {
            assert(line_text.drop_first() =~= digits);
        } else {
            assert(line_text =~= digits);
        }
    }
    if start == hi {
        return 0;
    }
    let mut size: usize = 0;
    let mut k: usize = start;
    while k < hi
        invariant
            n == chars@.len(),
            start <= k <= hi <= n,
            start < hi,
            digits == chars@.subrange(start as int, hi as int),
            hex_value(trimmed(line@)) == hex_digits_value(digits),
            k == start ==> size == 0,
            k > start ==> hex_digits_value(digits.take(k - start)) == Some(size as nat),
        decreases hi - k,
    {
        let ghost upto = digits.take(k - start + 1);
        proof {
            lemma_hex_prefix(digits, k - start + 1);
            assert(upto.last() == chars@[k as int]);
            assert(upto.drop_last() =~= digits.take(k - start));
        }
        let d = match hex_digit_of(chars[k]) {
            None => {
                return 0;
            },
            Some(d) => d,
        };
        let shifted = match size.checked_mul(16) {
            None => {
                return 0;
            },
            Some(v) => v,
        };
        size = match shifted.checked_add(d) {
            None => {
                return 0;
            },
            Some(v) => v,
        };
        k += 1;
    }
    assert(digits.take(hi - start) =~= digits);
    size
}

/// The chunks of `rem`, one after the other. Each chunk follows a line that
/// holds its size in bytes, and a line end follows it, which is skipped
/// unread. The chunks end at a size of 0, at a line without a size, or
/// where no line end is left. There is no result where a chunk or the line
/// end behind it runs past the end of `rem`, or where either ends inside a
/// character.
pub open spec fn dechunked(rem: Seq<u8>) -> Option<Seq<u8>>
    decreases rem.len(),
{
    match first_match(rem, line_end(), 0) {
        None => Some(Seq::empty()),
        Some(index) => {
            let at = index as int;
            let rest = rem.skip(at);
            let size = chunk_size_of(decode_utf8(rem.take(at))) as int;
            if size == 0 {
                Some(Seq::empty())
            } else if rem.len() < at + size + 4 || !is_char_boundary(rest, size + 2)
                || !is_char_boundary(rest, size + 4) {
                None
            } else {
                match dechunked(rem.skip(at + size + 4)) {
                    None => None,
                    Some(tail) => Some(rem.subrange(at + 2, at + 2 + size) + tail),
                }
            }
        },
    }
}

/// Puts the chunks of `body` together.
pub fn decode_chunked(body: &str) -> (decoded: Option<Vec<u8>>)
    ensures
        match decoded {
            Some(bytes) => dechunked(body.spec_bytes()) == Some(bytes@),
            None => dechunked(body.spec_bytes()) is None,
        },
{
    let end_of_line = line_end_bytes();
    let mut remaining: &str = body;
    let mut out: Vec<u8> = Vec::new();
    assert(out@ + Seq::<u8>::empty() =~= out@);
    loop
        invariant
            end_of_line@ == line_end(),
            dechunked(body.spec_bytes()) == (match dechunked(remaining.spec_bytes()) {
                None => None::<Seq<u8>>,
                Some(tail) => Some(out@ + tail),
            }),
        decreases remaining.spec_bytes().len(),
    {
        let ghost rem = remaining.spec_bytes();
        let ghost before = out@;
        let bytes = remaining.as_bytes();
        let len: usize = bytes.len();
        proof {
            encode_utf8_valid_utf8(remaining@);
            lemma_first_match(rem, line_end(), 0);
            assert(before + Seq::<u8>::empty() =~= before);
        }
        let index: usize = match find(bytes, &end_of_line, 0) {
            None => {
                return Some(out);
            },
            Some(index) => index,
        };
        proof {
            assert(rem.subrange(index as int, index + 2)[0] == line_end()[0]);
            assert(rem.subrange(index as int, index + 2)[1] == line_end()[1]);
            lemma_boundary_after_ascii(rem, index as int);
        }
        let (size_line, rest) = remaining.split_at(index);
        proof {
            assert(size_line.spec_bytes() =~= rem.take(index as int));
            encode_utf8_decode_utf8(size_line@);
            assert(rest.spec_bytes() =~= rem.skip(index as int));
        }
        let size: usize = chunk_size(size_line);
        if size == 0 {
            return Some(out);
        }
        let rest_len: usize = len - index;
        if rest_len < 4 || size > rest_len - 4 {
            return None;
        }
        if !rest.is_char_boundary(size + 2) || !rest.is_char_boundary(size + 4) {
            return None;
        }
        let chunk = slice_subrange(rest.as_bytes(), 2, size + 2);
        let mut k: usize = 0;
        while k < chunk.len()
            invariant
                k <= chunk@.len(),
                out@ == before + chunk@.take(k as int),
            decreases chunk@.len() - k,
        {
            out.push(chunk[k]);
            k += 1;
            assert(out@ =~= before + chunk@.take(k as int));
        }
        let (_, next) = rest.split_at(size + 4);
        proof {
            assert(chunk@.take(chunk@.len() as int) =~= chunk@);
            assert(chunk@ =~= rem.subrange(index + 2, index + 2 + size));
            assert(next.spec_bytes() =~= rem.skip(index + size + 4));
            match dechunked(next.spec_bytes()) {
                None => {},
                Some(tail) => {
                    assert(before + (chunk@ + tail) =~= out@ + tail);
                },
            }
        }
        remaining = next;
    }
}

} // verus!
