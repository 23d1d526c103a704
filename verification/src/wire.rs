//! The messages that the proxy writes.

use vstd::prelude::*;
use vstd::string::*;
use vstd::utf8::*;

use crate::auth::AuthScheme;
use crate::config::Endpoint;
use crate::encoding::encode;
use crate::number::{push_decimal, NumberError};

verus! {

/// The lines of a CONNECT request, without their line breaks.
pub open spec fn request_lines(
    destination: Seq<char>,
    authorization: Option<Seq<char>>,
) -> Seq<Seq<char>> {
    let lines = seq![
        "CONNECT "@ + destination + " HTTP/1.1"@,
        "Host: "@ + destination,
        "Proxy-Connection: Keep-Alive"@,
        "Connection: Keep-Alive"@,
    ];
    match authorization {
        Some(value) => lines.push("Proxy-Authorization: "@ + value),
        None => lines,
    }
}

/// The text of a head: its lines, each with a line break, and an empty line.
pub open spec fn head_text(lines: Seq<Seq<char>>) -> Seq<char>
    decreases lines.len(),
{
    if lines.len() == 0 {
        "\r\n"@
    } else {
        lines[0] + "\r\n"@ + head_text(lines.drop_first())
    }
}

/// Writes a request to open a tunnel to `destination`.
pub fn connect_request(destination: &Endpoint, authorization: Option<&str>) -> (request: String)
    ensures
        request@ == head_text(
            request_lines(
                crate::config::endpoint_text(destination@),
                match authorization {
                    Some(value) => Some(value@),
                    None => None,
                },
            ),
        ),
{
    let target = destination.to_string();
    let mut request = String::new();
    request.append("CONNECT ");
    request.append(target.as_str());
    request.append(" HTTP/1.1");
    request.append("\r\n");
    request.append("Host: ");
    request.append(target.as_str());
    request.append("\r\n");
    request.append("Proxy-Connection: Keep-Alive");
    request.append("\r\n");
    request.append("Connection: Keep-Alive");
    request.append("\r\n");
    if let Some(value) = authorization {
        request.append("Proxy-Authorization: ");
        request.append(value);
        request.append("\r\n");
    }
    request.append("\r\n");
    proof {
        let lines = request_lines(
            target@,
            match authorization {
                Some(value) => Some(value@),
                None => None,
            },
        );
        reveal_with_fuel(head_text, 6);
        let l1 = lines.drop_first();
        let l2 = l1.drop_first();
        let l3 = l2.drop_first();
        let l4 = l3.drop_first();
        assert(l1[0] == lines[1] && l2[0] == lines[2] && l3[0] == lines[3]);
        if authorization is Some {
            assert(l4[0] == lines[4]);
            assert(l4.drop_first() == Seq::<Seq<char>>::empty());
        } else {
            assert(l4 == Seq::<Seq<char>>::empty());
        }
        assert(request@ == head_text(lines));
    }
    request
}

/// The value that hands a token to the upstream proxy.
pub open spec fn authorization_text(scheme: AuthScheme, token: Seq<u8>) -> Seq<char> {
    scheme.name_text() + " "@ + crate::encoding::base64(token)
}

/// Whether the base64 text of a token of this length fits into memory.
pub open spec fn token_fits(length: int) -> bool {
    (length + 2) / 3 * 4 <= isize::MAX
}

/// Tells whether the base64 text of a token of this length fits into memory.
pub fn fits(length: usize) -> (answer: bool)
    ensures
        answer == token_fits(length as int),
{
    length <= usize::MAX - 2 && (length + 2) / 3 <= (isize::MAX / 4) as usize
}

/// Writes the value that hands `token` to the upstream proxy.
pub fn authorization(scheme: AuthScheme, token: &[u8]) -> (value: String)
    requires
        token_fits(token@.len() as int),
    ensures
        value@ == authorization_text(scheme, token@),
{
    let mut value = scheme.header_name().to_owned();
    value.append(" ");
    value.append(encode(token).as_str());
    value
}

/// The name under which a security context knows the upstream proxy.
pub open spec fn target_name_text(host: Seq<char>) -> Seq<char> {
    "HTTP/"@ + host
}

/// Writes the name under which a security context knows the upstream proxy.
pub fn target_name(host: &str) -> (name: String)
    ensures
        name@ == target_name_text(host@),
{
    "HTTP/".to_owned().concat(host)
}

/// The body of an error response.
pub open spec fn error_body(status: u16, reason: Seq<char>) -> Seq<char> {
    crate::number::decimal(status as nat) + " "@ + reason + "\n"@
}

/// The lines of an error response, without their line breaks.
pub open spec fn error_lines(status: u16, reason: Seq<char>) -> Seq<Seq<char>> {
    seq![
        "HTTP/1.1 "@ + crate::number::decimal(status as nat) + " "@ + reason,
        "Connection: close"@,
        "Content-Type: text/plain; charset=utf-8"@,
        "Content-Length: "@ + crate::number::decimal(encode_utf8(error_body(status, reason)).len()),
    ]
}

/// The text of an error response.
pub open spec fn error_text(status: u16, reason: Seq<char>) -> Seq<char> {
    head_text(error_lines(status, reason)) + error_body(status, reason)
}

/// Writes an error response, with the length of its body in bytes.
pub fn error_response(status: u16, reason: &str) -> (response: String)
    ensures
        response@ == error_text(status, reason@),
{
    let mut body = String::new();
    push_decimal(&mut body, status as u64);
    body.append(" ");
    body.append(reason);
    body.append("\n");
    assert(body@ == error_body(status, reason@));
    let length: usize = body.as_str().as_bytes().len();
    let mut response = String::new();
    response.append("HTTP/1.1 ");
    push_decimal(&mut response, status as u64);
    response.append(" ");
    response.append(reason);
    response.append("\r\n");
    response.append("Connection: close");
    response.append("\r\n");
    response.append("Content-Type: text/plain; charset=utf-8");
    response.append("\r\n");
    response.append("Content-Length: ");
    push_decimal(&mut response, length as u64);
    response.append("\r\n");
    response.append("\r\n");
    response.append(body.as_str());
    proof {
        let lines = error_lines(status, reason@);
        reveal_with_fuel(head_text, 5);
        let l1 = lines.drop_first();
        let l2 = l1.drop_first();
        let l3 = l2.drop_first();
        assert(l1[0] == lines[1] && l2[0] == lines[2] && l3[0] == lines[3]);
        assert(l3.drop_first() == Seq::<Seq<char>>::empty());
        assert(response@ == error_text(status, reason@));
    }
    response
}

/// A line that holds something, and no character of a line break.
pub open spec fn clean_line(line: Seq<char>) -> bool {
    line.len() > 0 && no_breaks(line)
}

/// Text without the characters of a line break.
pub open spec fn no_breaks(text: Seq<char>) -> bool {
    forall|i: int| 0 <= i < text.len() ==> #[trigger] text[i] != '\r' && text[i] != '\n'
}

/// The UTF-8 bytes of two texts in a row are the bytes of the one and of the other.
pub proof fn lemma_encode_concat(a: Seq<char>, b: Seq<char>)
    ensures
        encode_utf8(a + b) == encode_utf8(a) + encode_utf8(b),
    decreases a.len(),
{
    if a.len() == 0 {
        assert(a + b == b);
        assert(encode_utf8(a) == Seq::<u8>::empty());
    } else {
        assert((a + b).drop_first() == a.drop_first() + b);
        lemma_encode_concat(a.drop_first(), b);
    }
}

/// The bytes of a character other than a line break are not those of one.
proof fn lemma_clean_char(c: char)
    requires
        c != '\r',
        c != '\n',
    ensures
        encode_scalar(c as u32).len() > 0,
        forall|i: int|
            0 <= i < encode_scalar(c as u32).len() ==> #[trigger] encode_scalar(c as u32)[i] != 13
                && encode_scalar(c as u32)[i] != 10,
{
    let v = c as u32;
    assert(v <= 0x7f ==> (v & 0x7f) as u8 == v) by (bit_vector);
    assert(forall|x: u8| #[trigger] (0x80u8 | x) >= 0x80) by (bit_vector);
    assert(forall|x: u8| #[trigger] (0xc0u8 | x) >= 0x80) by (bit_vector);
    assert(forall|x: u8| #[trigger] (0xe0u8 | x) >= 0x80) by (bit_vector);
    assert(forall|x: u8| #[trigger] (0xf0u8 | x) >= 0x80) by (bit_vector);
}

/// The bytes of a text without line breaks hold none of the bytes of one.
pub proof fn lemma_clean_bytes(text: Seq<char>)
    requires
        no_breaks(text),
    ensures
        text.len() > 0 ==> encode_utf8(text).len() > 0,
        forall|i: int|
            0 <= i < encode_utf8(text).len() ==> #[trigger] encode_utf8(text)[i] != 13
                && encode_utf8(text)[i] != 10,
    decreases text.len(),
{
    if text.len() > 0 {
        assert(text[0] != '\r' && text[0] != '\n');
        let rest = text.drop_first();
        assert forall|i: int| 0 <= i < rest.len() implies #[trigger] rest[i] != '\r' && rest[i]
            != '\n' by {
            assert(rest[i] == text[i + 1]);
        }
        lemma_clean_char(text[0]);
        lemma_clean_bytes(rest);
        let first = encode_scalar(text[0] as u32);
        assert forall|i: int| 0 <= i < encode_utf8(text).len() implies #[trigger] encode_utf8(
            text,
        )[i] != 13 && encode_utf8(text)[i] != 10 by {
            if i < first.len() {
                assert(encode_utf8(text)[i] == first[i]);
            } else {
                assert(encode_utf8(text)[i] == encode_utf8(rest)[i - first.len()]);
            }
        }
    }
}

/// The bytes of a line break.
proof fn lemma_break_bytes()
    ensures
        encode_utf8("\r\n"@) == crate::http1::line_break(),
{
    reveal_strlit("\r\n");
    reveal_with_fuel(encode_utf8, 3);
    assert((13u32 & 0x7f) as u8 == 13 && (10u32 & 0x7f) as u8 == 10) by (bit_vector);
    let text = "\r\n"@;
    assert(text.drop_first().drop_first() == Seq::<char>::empty());
    assert(encode_utf8(text) == crate::http1::line_break());
}

/// Text that is a head of clean lines ends, as a head, exactly where it ends as text: nothing in
/// its lines can end it earlier, and whatever follows it is not part of it.
pub proof fn law_head_ends_where_written(lines: Seq<Seq<char>>, rest: Seq<u8>)
    requires
        lines.len() > 0,
        forall|i: int| 0 <= i < lines.len() ==> clean_line(#[trigger] lines[i]),
    ensures
        crate::http1::head_end(encode_utf8(head_text(lines)) + rest) == Some(
            encode_utf8(head_text(lines)).len() as int,
        ),
    decreases lines.len(),
{
    let pattern = crate::http1::head_break();
    let line = encode_utf8(lines[0]);
    let tail = encode_utf8(head_text(lines.drop_first())) + rest;
    let all = encode_utf8(head_text(lines)) + rest;
    let k = line.len() as int;
    assert(clean_line(lines[0]));
    lemma_clean_bytes(lines[0]);
    lemma_break_bytes();
    lemma_encode_concat(lines[0] + "\r\n"@, head_text(lines.drop_first()));
    lemma_encode_concat(lines[0], "\r\n"@);
    assert(all == line + crate::http1::line_break() + tail);
    if lines.len() == 1 {
        assert(lines.drop_first() == Seq::<Seq<char>>::empty());
        assert(tail == crate::http1::line_break() + rest);
        assert(all.subrange(k, k + 4) == pattern);
        assert forall|i: int| 0 <= i < k implies !crate::http1::matches_at(all, pattern, i) by {
            lemma_no_head_break(all, i);
        }
        crate::http1::lemma_first_match_unique(all, pattern, k);
    } else {
        let next = lines.drop_first();
        assert forall|i: int| 0 <= i < next.len() implies clean_line(#[trigger] next[i]) by {
            assert(next[i] == lines[i + 1]);
        }
        law_head_ends_where_written(next, rest);
        let m = crate::http1::first_match(tail, pattern)->0;
        crate::http1::lemma_first_match(tail, pattern);
        lemma_clean_bytes(next[0]);
        lemma_encode_concat(next[0] + "\r\n"@, head_text(next.drop_first()));
        lemma_encode_concat(next[0], "\r\n"@);
        assert(tail[0] == encode_utf8(next[0])[0]);
        let n = k + 2 + m;
        assert(all.subrange(n, n + 4) == tail.subrange(m, m + 4));
        assert forall|i: int| 0 <= i < n implies !crate::http1::matches_at(all, pattern, i) by {
            if i < k + 2 {
                assert(all[i] != 13 || all[i + 2] != 13);
                lemma_no_head_break(all, i);
            } else if crate::http1::matches_at(all, pattern, i) {
                assert(tail.subrange(i - k - 2, i - k + 2) == all.subrange(i, i + 4));
                assert(crate::http1::matches_at(tail, pattern, i - k - 2));
            }
        }
        crate::http1::lemma_first_match_unique(all, pattern, n);
    }
}

/// No head ends at a byte that is no carriage return, nor where the second line break is missing.
proof fn lemma_no_head_break(bytes: Seq<u8>, i: int)
    requires
        0 <= i < bytes.len(),
        bytes[i] != 13 || (i + 2 < bytes.len() && bytes[i + 2] != 13),
    ensures
        !crate::http1::matches_at(bytes, crate::http1::head_break(), i),
{
    let pattern = crate::http1::head_break();
    if crate::http1::matches_at(bytes, pattern, i) {
        let window = bytes.subrange(i, i + 4);
        assert(window[0] == bytes[i] && window[2] == bytes[i + 2]);
        assert(pattern[0] == 13 && pattern[2] == 13);
    }
}

/// A token in base64 holds no line break.
proof fn lemma_base64_is_clean(token: Seq<u8>)
    ensures
        no_breaks(crate::encoding::base64(token)),
{
}

/// The value that hands credentials to the upstream proxy, if there are any.
pub open spec fn credentials_text(credentials: Option<(AuthScheme, Seq<u8>)>) -> Option<Seq<char>> {
    match credentials {
        Some((scheme, token)) => Some(authorization_text(scheme, token)),
        None => None,
    }
}

/// The lines of a request to a valid destination are clean, with or without a token: neither the
/// destination nor the token can add a line to the request.
pub proof fn law_request_lines_are_clean(
    destination: (Seq<char>, u16),
    credentials: Option<(AuthScheme, Seq<u8>)>,
)
    requires
        crate::config::valid_endpoint(destination),
    ensures
        ({
            let lines = request_lines(
                crate::config::endpoint_text(destination),
                credentials_text(credentials),
            );
            forall|i: int| 0 <= i < lines.len() ==> clean_line(#[trigger] lines[i])
        }),
{
    let target = crate::config::endpoint_text(destination);
    crate::number::lemma_decimal_digits(destination.1 as nat);
    reveal_strlit("[");
    reveal_strlit("]:");
    reveal_strlit(":");
    assert(no_breaks(target)) by {
        assert forall|i: int| 0 <= i < target.len() implies #[trigger] target[i] != '\r'
            && target[i] != '\n' by {
            let digits = crate::number::decimal(destination.1 as nat);
            let start = target.len() - digits.len();
            if i >= start {
                assert(target[i] == digits[i - start]);
            } else if crate::config::has_char(destination.0, ':') {
                if 1 <= i <= destination.0.len() {
                    assert(target[i] == destination.0[i - 1]);
                    assert(!crate::config::forbidden_in_host(destination.0[i - 1]));
                }
            } else if i < destination.0.len() {
                assert(target[i] == destination.0[i]);
                assert(!crate::config::forbidden_in_host(destination.0[i]));
            }
        }
    }
    reveal_strlit("CONNECT ");
    reveal_strlit(" HTTP/1.1");
    reveal_strlit("Host: ");
    reveal_strlit("Proxy-Connection: Keep-Alive");
    reveal_strlit("Connection: Keep-Alive");
    reveal_strlit("Proxy-Authorization: ");
    reveal_strlit("Negotiate");
    reveal_strlit("NTLM");
    reveal_strlit(" ");
    assert(clean_line("CONNECT "@ + target + " HTTP/1.1"@));
    assert(clean_line("Host: "@ + target));
    assert(clean_line("Proxy-Connection: Keep-Alive"@));
    assert(clean_line("Connection: Keep-Alive"@));
    if let Some((scheme, token)) = credentials {
        lemma_base64_is_clean(token);
        assert(no_breaks(authorization_text(scheme, token)));
        assert(clean_line("Proxy-Authorization: "@ + authorization_text(scheme, token)));
    }
}

/// A request to a valid destination is one head and nothing else, with or without a token: it
/// ends, as a head, exactly where it ends as text.
pub proof fn law_request_ends_where_written(
    destination: (Seq<char>, u16),
    credentials: Option<(AuthScheme, Seq<u8>)>,
    rest: Seq<u8>,
)
    requires
        crate::config::valid_endpoint(destination),
    ensures
        ({
            let request = encode_utf8(
                head_text(
                    request_lines(
                        crate::config::endpoint_text(destination),
                        credentials_text(credentials),
                    ),
                ),
            );
            crate::http1::head_end(request + rest) == Some(request.len() as int)
        }),
{
    law_request_lines_are_clean(destination, credentials);
    law_head_ends_where_written(
        request_lines(crate::config::endpoint_text(destination), credentials_text(credentials)),
        rest,
    );
}

/// An error response is a head and a body: the head ends where the body begins, and the length
/// that it announces is that of the body in bytes.
pub proof fn law_error_response_is_framed(status: u16, reason: Seq<char>)
    requires
        no_breaks(reason),
    ensures
        ({
            let response = encode_utf8(error_text(status, reason));
            let body = encode_utf8(error_body(status, reason));
            let announced = crate::number::decimal(body.len());
            &&& crate::http1::head_end(response) == Some(response.len() - body.len())
            &&& response.skip(response.len() - body.len()) == body
            &&& error_lines(status, reason)[3] == "Content-Length: "@ + announced
            &&& crate::number::parsed(announced, 10, body.len() as int) == Ok::<int, NumberError>(
                body.len() as int,
            )
        }),
{
    let lines = error_lines(status, reason);
    let body = encode_utf8(error_body(status, reason));
    let digits = crate::number::decimal(status as nat);
    crate::number::lemma_decimal_digits(status as nat);
    crate::number::lemma_decimal_digits(body.len());
    crate::number::law_decimal_round_trip(body.len(), body.len() as int);
    reveal_strlit("HTTP/1.1 ");
    reveal_strlit(" ");
    reveal_strlit("Connection: close");
    reveal_strlit("Content-Type: text/plain; charset=utf-8");
    reveal_strlit("Content-Length: ");
    assert(no_breaks(digits));
    assert(no_breaks(crate::number::decimal(body.len())));
    assert(clean_line("HTTP/1.1 "@ + digits + " "@ + reason));
    assert(clean_line("Connection: close"@));
    assert(clean_line("Content-Type: text/plain; charset=utf-8"@));
    assert(clean_line("Content-Length: "@ + crate::number::decimal(body.len())));
    law_head_ends_where_written(lines, body);
    lemma_encode_concat(head_text(lines), error_body(status, reason));
}

/// The names of the schemes in header fields.
pub proof fn law_scheme_names(scheme: AuthScheme, name: &'static str)
    requires
        call_ensures(AuthScheme::header_name, (scheme,), name),
    ensures
        name@ == scheme.name_text(),
        scheme == AuthScheme::Negotiate ==> name@ == "Negotiate"@,
        scheme == AuthScheme::Ntlm ==> name@ == "NTLM"@,
{
}

/// A request names the destination twice, asks for the connection to be kept, and hands over the
/// credentials if there are any, in just these characters.
pub proof fn law_request_is_written(destination: &Endpoint, value: Option<&str>, request: String)
    requires
        call_ensures(connect_request, (destination, value), request),
    ensures
        ({
            let target = crate::config::endpoint_text(destination@);
            let front = "CONNECT "@ + target + " HTTP/1.1\r\nHost: "@ + target
                + "\r\nProxy-Connection: Keep-Alive\r\nConnection: Keep-Alive\r\n"@;
            match value {
                Some(v) => request@ == front + "Proxy-Authorization: "@ + v@ + "\r\n\r\n"@,
                None => request@ == front + "\r\n"@,
            }
        }),
{
    let target = crate::config::endpoint_text(destination@);
    let given = match value {
        Some(v) => Some(v@),
        None => None,
    };
    law_request_text(target, given);
}

/// The text of a request to a target, with these credentials or without.
pub proof fn law_request_text(target: Seq<char>, value: Option<Seq<char>>)
    ensures
        ({
            let front = "CONNECT "@ + target + " HTTP/1.1\r\nHost: "@ + target
                + "\r\nProxy-Connection: Keep-Alive\r\nConnection: Keep-Alive\r\n"@;
            match value {
                Some(v) => head_text(request_lines(target, value)) == front
                    + "Proxy-Authorization: "@ + v + "\r\n\r\n"@,
                None => head_text(request_lines(target, value)) == front + "\r\n"@,
            }
        }),
{
    let lines = request_lines(target, value);
    reveal_with_fuel(head_text, 6);
    let l1 = lines.drop_first();
    let l2 = l1.drop_first();
    let l3 = l2.drop_first();
    let l4 = l3.drop_first();
    assert(l1[0] == lines[1] && l2[0] == lines[2] && l3[0] == lines[3]);
    if value is Some {
        assert(l4[0] == lines[4]);
        assert(l4.drop_first() == Seq::<Seq<char>>::empty());
    } else {
        assert(l4 == Seq::<Seq<char>>::empty());
    }
    reveal_strlit("CONNECT ");
    reveal_strlit(" HTTP/1.1");
    reveal_strlit("Host: ");
    reveal_strlit(" HTTP/1.1\r\nHost: ");
    reveal_strlit("Proxy-Connection: Keep-Alive");
    reveal_strlit("Connection: Keep-Alive");
    reveal_strlit("\r\nProxy-Connection: Keep-Alive\r\nConnection: Keep-Alive\r\n");
    reveal_strlit("Proxy-Authorization: ");
    reveal_strlit("\r\n");
    reveal_strlit("\r\n\r\n");
    assert(" HTTP/1.1\r\nHost: "@ == " HTTP/1.1"@ + "\r\n"@ + "Host: "@);
    assert("\r\nProxy-Connection: Keep-Alive\r\nConnection: Keep-Alive\r\n"@ == "\r\n"@
        + "Proxy-Connection: Keep-Alive"@ + "\r\n"@ + "Connection: Keep-Alive"@ + "\r\n"@);
    assert("\r\n\r\n"@ == "\r\n"@ + "\r\n"@);
    let front = "CONNECT "@ + target + " HTTP/1.1\r\nHost: "@ + target
        + "\r\nProxy-Connection: Keep-Alive\r\nConnection: Keep-Alive\r\n"@;
    match value {
        Some(v) => {
            assert(head_text(lines) == front + "Proxy-Authorization: "@ + v + "\r\n\r\n"@);
        },
        None => {
            assert(head_text(lines) == front + "\r\n"@);
        },
    }
}

/// Credentials are the name of the scheme, a space and the token in base64. A token is taken if
/// that text fits into memory.
pub proof fn law_credentials_are_written(
    scheme: AuthScheme,
    token: &[u8],
    value: String,
    length: usize,
    answer: bool,
)
    requires
        token_fits(token@.len() as int),
        call_ensures(authorization, (scheme, token), value),
        call_ensures(fits, (length,), answer),
    ensures
        value@ == match scheme {
            AuthScheme::Negotiate => "Negotiate "@ + crate::encoding::base64(token@),
            AuthScheme::Ntlm => "NTLM "@ + crate::encoding::base64(token@),
        },
        answer <==> crate::encoding::base64(Seq::new(length as nat, |i: int| 0u8)).len()
            <= isize::MAX,
{
    reveal_strlit("Negotiate");
    reveal_strlit("NTLM");
    reveal_strlit("Negotiate ");
    reveal_strlit("NTLM ");
    reveal_strlit(" ");
    assert("Negotiate "@ == "Negotiate"@ + " "@);
    assert("NTLM "@ == "NTLM"@ + " "@);
}

/// The name of the upstream proxy is its host behind `HTTP/`.
pub proof fn law_target_name(host: &str, name: String)
    requires
        call_ensures(target_name, (host,), name),
    ensures
        name@ == target_name_text(host@),
        name@ == "HTTP/"@ + host@,
{
}

/// An error response, in just these characters; its length counts the bytes of the last line.
pub open spec fn refusal(status: u16, reason: Seq<char>) -> Seq<char> {
    let digits = crate::number::decimal(status as nat);
    let body = digits + " "@ + reason + "\n"@;
    "HTTP/1.1 "@ + digits + " "@ + reason
        + "\r\nConnection: close\r\nContent-Type: text/plain; charset=utf-8\r\nContent-Length: "@
        + crate::number::decimal(encode_utf8(body).len()) + "\r\n\r\n"@ + body
}

/// An error response names the status and the reason, closes the connection, and says the same in
/// its body, the length of which it announces.
pub proof fn law_error_response_is_written(status: u16, reason: &str, response: String)
    requires
        call_ensures(error_response, (status, reason), response),
    ensures
        response@ == refusal(status, reason@),
{
    law_error_text(status, reason@);
}

/// The text of an error response.
pub proof fn law_error_text(status: u16, reason: Seq<char>)
    ensures
        error_text(status, reason) == refusal(status, reason),
{
    let lines = error_lines(status, reason);
    reveal_with_fuel(head_text, 5);
    let l1 = lines.drop_first();
    let l2 = l1.drop_first();
    let l3 = l2.drop_first();
    assert(l1[0] == lines[1] && l2[0] == lines[2] && l3[0] == lines[3]);
    assert(l3.drop_first() == Seq::<Seq<char>>::empty());
    reveal_strlit("\r\n");
    reveal_strlit("\r\n\r\n");
    reveal_strlit("Connection: close");
    reveal_strlit("Content-Type: text/plain; charset=utf-8");
    reveal_strlit("Content-Length: ");
    reveal_strlit(
        "\r\nConnection: close\r\nContent-Type: text/plain; charset=utf-8\r\nContent-Length: ",
    );
    assert("\r\n\r\n"@ == "\r\n"@ + "\r\n"@);
    assert("\r\nConnection: close\r\nContent-Type: text/plain; charset=utf-8\r\nContent-Length: "@
        == "\r\n"@ + "Connection: close"@ + "\r\n"@ + "Content-Type: text/plain; charset=utf-8"@
        + "\r\n"@ + "Content-Length: "@);
    assert(error_text(status, reason) == refusal(status, reason));
}

} // verus!
