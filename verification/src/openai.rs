//! The text of one chat-completion exchange over HTTP: the request that is
//! sent, and what is read out of the answer.

use vstd::prelude::*;
use vstd::string::StringExecFns;
use vstd::string::StringSliceAdditionalSpecFns;
use vstd::utf8::{encode_utf8, is_char_boundary};
use crate::text::{from_chars, to_chars};

verus! {

/// The service's host name.
pub fn host() -> (name: &'static str)
    ensures
        name@ == "api.openai.com"@,
{
    "api.openai.com"
}

/// The path that chat completions are asked for at.
pub fn path() -> (name: &'static str)
    ensures
        name@ == "/v1/chat/completions"@,
{
    "/v1/chat/completions"
}

/// The port the service listens on.
pub const PORT: u16 = 443;

/// How many bytes of the user's prompt are sent.
pub const USER_PROMPT_BYTES: usize = 8192;

/// The decimal digit for `d`.
pub open spec fn digit(d: nat) -> char {
    if d == 0 {
        '0'
    } else if d == 1 {
        '1'
    } else if d == 2 {
        '2'
    } else if d == 3 {
        '3'
    } else if d == 4 {
        '4'
    } else if d == 5 {
        '5'
    } else if d == 6 {
        '6'
    } else if d == 7 {
        '7'
    } else if d == 8 {
        '8'
    } else {
        '9'
    }
}

/// `n` in decimal, without leading zeros.
pub open spec fn decimal_text(n: nat) -> Seq<char>
    decreases n,
{
    if n < 10 {
        seq![digit(n)]
    } else {
        decimal_text(n / 10).push(digit(n % 10))
    }
}

fn digit_char(d: usize) -> (c: char)
    requires
        d < 10,
    ensures
        c == digit(d as nat),
{
    if d == 0 {
        '0'
    } else if d == 1 {
        '1'
    } else if d == 2 {
        '2'
    } else if d == 3 {
        '3'
    } else if d == 4 {
        '4'
    } else if d == 5 {
        '5'
    } else if d == 6 {
        '6'
    } else if d == 7 {
        '7'
    } else if d == 8 {
        '8'
    } else {
        '9'
    }
}

/// `n` in decimal, without leading zeros.
pub fn decimal(n: usize) -> (s: String)
    ensures
        s@ == decimal_text(n as nat),
    decreases n,
{
    if n < 10 {
        let mut s = String::new();
        s.push(digit_char(n));
        s
    } else {
        let mut s = decimal(n / 10);
        s.push(digit_char(n % 10));
        s
    }
}

/// The request that posts `body` as JSON to `path` on `host`, with `token`
/// as bearer token: the request line, five header lines, an empty line and
/// the body. The length given is that of the body in bytes.
pub open spec fn request_text(
    path: Seq<char>,
    host: Seq<char>,
    token: Seq<char>,
    body: Seq<char>,
) -> Seq<char> {
    "POST "@ + path + " HTTP/1.1\r\nHost: "@ + host
        + "\r\nContent-Type: application/json\r\nContent-Length: "@ + decimal_text(
        encode_utf8(body).len(),
    ) + "\r\nAuthorization: Bearer "@ + token + "\r\nConnection: close\r\n\r\n"@ + body
}

/// Writes the request that posts `body` as JSON to `path` on `host`.
pub fn request(path: &str, host: &str, token: &str, body: &str) -> (text: String)
    ensures
        text@ == request_text(path@, host@, token@, body@),
{
    let mut text = "POST ".to_owned();
    text.append(path);
    text.append(" HTTP/1.1\r\nHost: ");
    text.append(host);
    text.append("\r\nContent-Type: application/json\r\nContent-Length: ");
    text.append(decimal(body.as_bytes().len()).as_str());
    text.append("\r\nAuthorization: Bearer ");
    text.append(token);
    text.append("\r\nConnection: close\r\n\r\n");
    text.append(body);
    text
}

/// The part of the user's prompt that is sent: its first
/// `USER_PROMPT_BYTES` bytes. There is none where the prompt is shorter, or
/// where that many bytes end inside a character.
pub fn user_content(user_prompt: &str) -> (cut: Option<&str>)
    ensures
        cut is Some <==> USER_PROMPT_BYTES <= user_prompt.spec_bytes().len() && is_char_boundary(
            user_prompt.spec_bytes(),
            USER_PROMPT_BYTES as int,
        ),
        cut matches Some(kept) ==> kept.spec_bytes() == user_prompt.spec_bytes().subrange(
            0,
            USER_PROMPT_BYTES as int,
        ),
{
    if USER_PROMPT_BYTES <= user_prompt.as_bytes().len() && user_prompt.is_char_boundary(
        USER_PROMPT_BYTES,
    ) {
        let (kept, _) = user_prompt.split_at(USER_PROMPT_BYTES);
        Some(kept)
    } else {
        None
    }
}

/// `s` with every occurrence of `from` replaced by `to`, found from the left
/// and not overlapping.
pub open spec fn replaced(s: Seq<char>, from: Seq<char>, to: Seq<char>) -> Seq<char>
    decreases s.len(),
{
    if from.len() == 0 || s.len() < from.len() {
        s
    } else if s.subrange(0, from.len() as int) == from {
        to + replaced(s.skip(from.len() as int), from, to)
    } else {
        seq![s[0]] + replaced(s.drop_first(), from, to)
    }
}

/// A backslash and the character `code`.
pub open spec fn escape(code: char) -> Seq<char> {
    seq!['\\', code]
}

/// `s` with the escapes of a line feed, a double quote, a single quote and a
/// backslash undone, one kind after the other, in that order.
pub open spec fn unescaped(s: Seq<char>) -> Seq<char> {
    replaced(
        replaced(
            replaced(replaced(s, escape('n'), seq!['\n']), escape('"'), seq!['"']),
            escape('\''),
            seq!['\''],
        ),
        escape('\\'),
        seq!['\\'],
    )
}

/// Replaces every backslash that `code` follows, together with it, by
/// `with`.
pub fn replace_escape(s: &Vec<char>, code: char, with: char) -> (out: Vec<char>)
    ensures
        out@ == replaced(s@, escape(code), seq![with]),
{
    let mut out: Vec<char> = Vec::new();
    let mut i: usize = 0;
    let n: usize = s.len();
    assert(s@.skip(0) =~= s@);
    while i < n
        invariant
            n == s@.len(),
            i <= n,
            replaced(s@, escape(code), seq![with]) == out@ + replaced(
                s@.skip(i as int),
                escape(code),
                seq![with],
            ),
        decreases n - i,
    {
        let ghost rest = s@.skip(i as int);
        let ghost before = out@;
        if n - i >= 2 && s[i] == '\\' && s[i + 1] == code {
            assert(rest.subrange(0, 2) =~= escape(code));
            assert(rest.skip(2) =~= s@.skip(i + 2));
            out.push(with);
            i += 2;
            assert(before + (seq![with] + replaced(s@.skip(i as int), escape(code), seq![with]))
                =~= out@ + replaced(s@.skip(i as int), escape(code), seq![with]));
        } else {
            if n - i >= 2 {
                assert(rest.subrange(0, 2)[0] == s@[i as int]);
                assert(rest.subrange(0, 2)[1] == s@[i + 1]);
                assert(escape(code)[0] == '\\');
                assert(escape(code)[1] == code);
                assert(rest.drop_first() =~= s@.skip(i + 1));
                out.push(s[i]);
                i += 1;
                assert(before + (seq![rest[0]] + replaced(
                    s@.skip(i as int),
                    escape(code),
                    seq![with],
                )) =~= out@ + replaced(s@.skip(i as int), escape(code), seq![with]));
            } else {
                assert(rest.len() == 1);
                assert(s@.skip(i + 1) =~= Seq::<char>::empty());
                out.push(s[i]);
                i += 1;
                assert(before + rest =~= out@ + replaced(
                    s@.skip(i as int),
                    escape(code),
                    seq![with],
                ));
            }
        }
    }
    assert(s@.skip(n as int) =~= Seq::<char>::empty());
    assert(out@ + Seq::<char>::empty() =~= out@);
    out
}

/// Undoes the escapes of a line feed, a double quote, a single quote and a
/// backslash in `content`, one kind after the other, in that order.
pub fn unescape(content: &str) -> (text: String)
    ensures
        text@ == unescaped(content@),
{
    let chars = to_chars(content);
    let chars = replace_escape(&chars, 'n', '\n');
    let chars = replace_escape(&chars, '"', '"');
    let chars = replace_escape(&chars, '\'', '\'');
    let chars = replace_escape(&chars, '\\', '\\');
    from_chars(&chars)
}

} // verus!
