use chardiff::chunked::{chunk_size, decode_chunked, find, response_body, stands_at};
use chardiff::openai::{
    decimal, host, path, replace_escape, request, unescape, user_content, PORT, USER_PROMPT_BYTES,
};
use chardiff::text::from_chars;

fn by_std(content: &str) -> String {
    content.replace("\\n", "\n").replace("\\\"", "\"").replace("\\'", "'").replace("\\\\", "\\")
}

#[test]
fn from_chars_collects_the_characters() {
    assert_eq!(from_chars(&vec!['h', 'é', 'y']), "héy");
    assert_eq!(from_chars(&Vec::new()), "");
}

#[test]
fn service_address() {
    assert_eq!(host(), "api.openai.com");
    assert_eq!(path(), "/v1/chat/completions");
    assert_eq!(PORT, 443);
    assert_eq!(USER_PROMPT_BYTES, 8192);
}

#[test]
fn decimal_writes_without_leading_zeros() {
    assert_eq!(decimal(0), "0");
    assert_eq!(decimal(7), "7");
    assert_eq!(decimal(10), "10");
    assert_eq!(decimal(8192), "8192");
    assert_eq!(decimal(1234567890), "1234567890");
    assert_eq!(decimal(usize::MAX), usize::MAX.to_string());
}

#[test]
fn request_frames_the_body() {
    let text = request("/v1/chat/completions", "api.openai.com", "SECRET-REDACTED", "{\"a\":1}");
    assert_eq!(
        text,
        "POST /v1/chat/completions HTTP/1.1\r\n\
         Host: api.openai.com\r\n\
         Content-Type: application/json\r\n\
         Content-Length: 7\r\n\
         Authorization: Bearer SECRET-REDACTED\r\n\
         Connection: close\r\n\r\n\
         {\"a\":1}"
    );
}

#[test]
fn request_counts_the_body_in_bytes() {
    let text = request("/", "h", "t", "é€");
    assert!(text.contains("\r\nContent-Length: 5\r\n"));
    assert!(text.ends_with("\r\n\r\né€"));
    let text = request("/", "h", "t", "");
    assert!(text.contains("\r\nContent-Length: 0\r\n"));
    assert!(text.ends_with("Connection: close\r\n\r\n"));
}

#[test]
fn user_content_is_the_first_bytes() {
    let long = "a".repeat(USER_PROMPT_BYTES + 5);
    assert_eq!(user_content(&long), Some(&long[0..USER_PROMPT_BYTES]));
    let exact = "b".repeat(USER_PROMPT_BYTES);
    assert_eq!(user_content(&exact), Some(exact.as_str()));
}

#[test]
fn user_content_of_a_short_prompt_is_none() {
    assert_eq!(user_content(""), None);
    assert_eq!(user_content("short"), None);
    assert_eq!(user_content(&"c".repeat(USER_PROMPT_BYTES - 1)), None);
}

#[test]
fn user_content_cut_inside_a_character_is_none() {
    let mut text = "d".repeat(USER_PROMPT_BYTES - 1);
    text.push('é');
    text.push_str("tail");
    assert_eq!(user_content(&text), None);
    let mut text = "d".repeat(USER_PROMPT_BYTES - 2);
    text.push('é');
    text.push_str("tail");
    assert_eq!(user_content(&text), Some(&text[0..USER_PROMPT_BYTES]));
}

#[test]
fn replace_escape_replaces_every_pair() {
    let chars: Vec<char> = "a\\nb\\n\\n".chars().collect();
    assert_eq!(replace_escape(&chars, 'n', '\n'), vec!['a', '\n', 'b', '\n', '\n']);
    let chars: Vec<char> = "\\\\\\".chars().collect();
    assert_eq!(replace_escape(&chars, '\\', '\\'), vec!['\\', '\\']);
    let chars: Vec<char> = "\\".chars().collect();
    assert_eq!(replace_escape(&chars, 'n', '\n'), vec!['\\']);
    assert_eq!(replace_escape(&Vec::new(), 'n', '\n'), Vec::<char>::new());
}

#[test]
fn unescape_undoes_the_four_escapes() {
    assert_eq!(unescape("line one\\nline two"), "line one\nline two");
    assert_eq!(unescape("say \\\"hi\\\""), "say \"hi\"");
    assert_eq!(unescape("it\\'s"), "it's");
    assert_eq!(unescape("a\\\\b"), "a\\b");
    assert_eq!(unescape("plain"), "plain");
    assert_eq!(unescape(""), "");
}

#[test]
fn unescape_goes_one_kind_after_the_other() {
    // The line feed is looked for first, so it takes the second backslash.
    assert_eq!(unescape("\\\\n"), "\\\n");
    // What one pass leaves can make a pair for a later one.
    assert_eq!(unescape("\\\\\""), "\\\"");
    assert_eq!(unescape("\\\\\\"), "\\\\");
}

#[test]
fn unescape_agrees_with_str_replace() {
    let samples = [
        "",
        "\\",
        "\\\\",
        "\\\\\\\\",
        "\\n\\n",
        "\\\\n",
        "\\\\\\n",
        "a\\\"b\\'c\\\\d\\ne",
        "\"quoted\\ntext\"",
        "é\\né",
        "\\x\\y",
        "\\\\'\\\\\"",
    ];
    for s in samples {
        assert_eq!(unescape(s), by_std(s));
    }
}

#[test]
fn stands_at_compares_the_bytes() {
    let hay = b"abcabc";
    assert!(stands_at(hay, &b"bc".to_vec(), 1));
    assert!(stands_at(hay, &b"bc".to_vec(), 4));
    assert!(!stands_at(hay, &b"bc".to_vec(), 0));
    assert!(stands_at(hay, &Vec::new(), 6));
}

#[test]
fn find_gives_the_first_position() {
    let hay = b"abcabc";
    assert_eq!(find(hay, &b"bc".to_vec(), 0), Some(1));
    assert_eq!(find(hay, &b"bc".to_vec(), 1), Some(1));
    assert_eq!(find(hay, &b"bc".to_vec(), 2), Some(4));
    assert_eq!(find(hay, &b"bc".to_vec(), 5), None);
    assert_eq!(find(hay, &b"bc".to_vec(), 7), None);
    assert_eq!(find(hay, &b"abcabcd".to_vec(), 0), None);
    assert_eq!(find(hay, &b"x".to_vec(), 0), None);
    assert_eq!(find(b"", &b"x".to_vec(), 0), None);
}

#[test]
fn response_body_follows_the_first_blank_line() {
    let response = "HTTP/1.1 200 OK\r\nA: b\r\n\r\n5\r\nhello\r\n0\r\n\r\n";
    assert_eq!(response_body(response), Some("5\r\nhello\r\n0"));
    assert_eq!(response_body("head\r\n\r\nbody"), Some("body"));
    assert_eq!(response_body("head\r\n\r\n"), Some(""));
    assert_eq!(response_body("\r\n\r\n\r\n"), Some("\r\n"));
    assert_eq!(response_body("a\r\n\r\nb\r\n\r\nc\r\n\r\nd"), Some("b"));
    assert_eq!(response_body("é\r\n\r\né€\r\n\r\n"), Some("é€"));
}

#[test]
fn response_body_agrees_with_split() {
    let samples = [
        "h\r\n\r\n",
        "h\r\n\r\nb",
        "\r\n\r\n",
        "\r\n\r\n\r\n\r\n",
        "\r\n\r\n\r\n\r\n\r\n",
        "a\r\n\r\n\r\nb",
        "a\r\n\r\n\rb\r\n\r\n",
    ];
    for s in samples {
        assert_eq!(response_body(s), Some(s.split("\r\n\r\n").collect::<Vec<&str>>()[1]));
    }
}

#[test]
fn response_body_without_blank_line_is_none() {
    assert_eq!(response_body(""), None);
    assert_eq!(response_body("HTTP/1.1 200 OK\r\nA: b\r\n"), None);
    assert_eq!(response_body("\r\n\r"), None);
    assert_eq!(response_body("\n\r\n\r"), None);
}

#[test]
fn chunk_size_reads_hexadecimal() {
    assert_eq!(chunk_size("0"), 0);
    assert_eq!(chunk_size("5"), 5);
    assert_eq!(chunk_size("1a"), 26);
    assert_eq!(chunk_size("1A"), 26);
    assert_eq!(chunk_size("fF"), 255);
    assert_eq!(chunk_size("0010"), 16);
    assert_eq!(chunk_size("2000"), 8192);
}

#[test]
fn chunk_size_takes_a_plus_sign_and_white_space_around() {
    assert_eq!(chunk_size("+10"), 16);
    assert_eq!(chunk_size("  10\t"), 16);
    assert_eq!(chunk_size("\n+10 "), 16);
    assert_eq!(chunk_size("\u{a0}10\u{2003}"), 16);
}

#[test]
fn chunk_size_of_what_is_no_number_is_zero() {
    for line in ["", " ", "+", "-1", "++1", "+ 1", "1 0", "0x10", "g", "1g", "10;ext", "é", "1_0"] {
        assert_eq!(chunk_size(line), 0);
    }
}

#[test]
fn chunk_size_too_large_is_zero() {
    assert_eq!(chunk_size(&format!("{:x}", usize::MAX)), usize::MAX);
    assert_eq!(chunk_size(&format!("{:x}0", usize::MAX)), 0);
    assert_eq!(chunk_size(&format!("1{:x}", usize::MAX)), 0);
    assert_eq!(chunk_size("ffffffffffffffffffffffffffffffffffffffff"), 0);
}

#[test]
fn chunk_size_agrees_with_from_str_radix() {
    let samples = [
        "", "0", "7", "ff", "FF", "+ff", " ff ", "\tff\r", "f f", "-f", "+", "0x1", "١", "１",
        "fffffffffffffffff", "000000000000000000000001", "\u{85}a\u{3000}", "a\u{200b}",
    ];
    for line in samples {
        assert_eq!(chunk_size(line), usize::from_str_radix(line.trim(), 16).unwrap_or(0));
    }
}

#[test]
fn decode_chunked_joins_the_chunks() {
    assert_eq!(decode_chunked("5\r\nhello\r\n0"), Some(b"hello".to_vec()));
    assert_eq!(
        decode_chunked("5\r\nhello\r\n6\r\n world\r\n0\r\n\r\n"),
        Some(b"hello world".to_vec())
    );
    assert_eq!(decode_chunked("a\r\n0123456789\r\n0\r\n"), Some(b"0123456789".to_vec()));
    assert_eq!(decode_chunked("3\r\né€\r\n".get(0..0).unwrap()), Some(Vec::new()));
    assert_eq!(decode_chunked("5\r\né€\r\n0\r\n"), Some("é€".as_bytes().to_vec()));
}

#[test]
fn decode_chunked_ends_where_no_size_follows() {
    assert_eq!(decode_chunked(""), Some(Vec::new()));
    assert_eq!(decode_chunked("5"), Some(Vec::new()));
    assert_eq!(decode_chunked("0\r\n\r\n"), Some(Vec::new()));
    assert_eq!(decode_chunked("zz\r\nhello\r\n"), Some(Vec::new()));
    assert_eq!(decode_chunked("\r\nhello\r\n"), Some(Vec::new()));
    assert_eq!(decode_chunked("2\r\nhi\r\nleft over"), Some(b"hi".to_vec()));
    assert_eq!(decode_chunked("2\r\nhi\r\n0\r\n3\r\nabc\r\n"), Some(b"hi".to_vec()));
    assert_eq!(decode_chunked("2\r\nhi\r\nxx\r\n3\r\nabc\r\n"), Some(b"hi".to_vec()));
}

#[test]
fn decode_chunked_skips_two_bytes_behind_a_chunk_unread() {
    assert_eq!(decode_chunked("2\r\nhiXY3\r\nabc\r\n"), Some(b"hiabc".to_vec()));
    assert_eq!(decode_chunked("2\r\nhi\r\n"), Some(b"hi".to_vec()));
}

#[test]
fn decode_chunked_past_the_end_is_none() {
    assert_eq!(decode_chunked("5\r\nhi"), None);
    assert_eq!(decode_chunked("2\r\nhi"), None);
    assert_eq!(decode_chunked("2\r\nhi\r"), None);
    assert_eq!(decode_chunked("2\r\nhi\r\n9\r\nabc\r\n"), None);
    assert_eq!(decode_chunked(&format!("{:x}\r\nhi\r\n", usize::MAX)), None);
    assert_eq!(decode_chunked(&format!("{:x}\r\nhi\r\n", usize::MAX - 3)), None);
}

#[test]
fn decode_chunked_inside_a_character_is_none() {
    // one byte of the two that write 'é'
    assert_eq!(decode_chunked("1\r\né\r\n"), None);
    // the chunk ends well, the two bytes behind it end inside '€'
    assert_eq!(decode_chunked("2\r\nhi€€\r\n"), None);
    assert_eq!(decode_chunked("2\r\né\r\n0\r\n"), Some("é".as_bytes().to_vec()));
}

#[test]
fn response_is_decoded_in_two_steps() {
    let response = "HTTP/1.1 200 OK\r\nTransfer-Encoding: chunked\r\n\r\n\
                    b\r\n{\"a\":\"b\"}\r\n\r\n0\r\n\r\n";
    // The blank line behind the chunk ends the body, and with it goes the
    // line end that the announced size counts on.
    let body = response_body(response).unwrap();
    assert_eq!(body, "b\r\n{\"a\":\"b\"}");
    assert_eq!(body, response.split("\r\n\r\n").collect::<Vec<&str>>()[1]);
    assert_eq!(decode_chunked(body), None);
    let response = "HTTP/1.1 200 OK\r\n\r\n9\r\n{\"a\":\"b\"}\r\n0\r\n\r\n";
    let body = response_body(response).unwrap();
    assert_eq!(decode_chunked(body), Some(b"{\"a\":\"b\"}".to_vec()));
}
