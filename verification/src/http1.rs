//! HTTP/1 message heads and body framing over a buffer of received bytes.

use vstd::prelude::*;
use vstd::string::*;
use vstd::utf8::*;

use httparse::{Error, Request, Response, EMPTY_HEADER};

use crate::number::parse_number;
use crate::text::{characters, equal_ignoring_case, list_contains, trimmed, utf8_text};

verus! {

/// The largest number of header fields that a head may hold.
pub const MAX_HEADERS: usize = 64;

/// The largest number of bytes that are read at once for a head or a body of known length.
pub const READ_SIZE: usize = 8192;

/// One header field.
#[derive(Clone, Debug)]
pub struct Header {
    pub name: String,
    pub value: Vec<u8>,
}

/// A header field is its name and its value.
impl View for Header {
    type V = (Seq<char>, Seq<u8>);

    open spec fn view(&self) -> (Seq<char>, Seq<u8>) {
        (self.name@, self.value@)
    }
}

/// The request line of a request, without its version.
#[derive(Debug)]
pub struct RequestHead {
    pub method: String,
    pub target: String,
}

/// A request head is its method and its target.
impl View for RequestHead {
    type V = (Seq<char>, Seq<char>);

    open spec fn view(&self) -> (Seq<char>, Seq<char>) {
        (self.method@, self.target@)
    }
}

/// The status line and the header fields of a response.
#[derive(Debug)]
pub struct ResponseHead {
    pub version: u8,
    pub status: u16,
    pub headers: Vec<Header>,
}

/// The header fields that a vector holds.
pub open spec fn fields(headers: Seq<Header>) -> Seq<(Seq<char>, Seq<u8>)> {
    headers.map_values(|header: Header| header@)
}

/// The contents of a response head.
#[verifier::ext_equal]
pub struct ResponseHeadView {
    pub version: u8,
    pub status: u16,
    pub headers: Seq<(Seq<char>, Seq<u8>)>,
}

impl View for ResponseHead {
    type V = ResponseHeadView;

    open spec fn view(&self) -> ResponseHeadView {
        ResponseHeadView {
            version: self.version,
            status: self.status,
            headers: fields(self.headers@),
        }
    }
}

/// What makes a head malformed.
#[derive(Clone, Copy, Debug, PartialEq, Eq, Structural)]
pub enum MalformedHead {
    HeaderName,
    HeaderValue,
    NewLine,
    Status,
    Token,
    TooManyHeaders,
    Version,
}

/// Why a message could not be read.
#[derive(Debug)]
pub enum HttpError {
    /// The connection failed; the text says how.
    Io(String),
    UnexpectedEof,
    HeaderTooLarge,
    Parse(MalformedHead),
    MissingRequestFields,
    InvalidHeaderText,
    InvalidContentLength,
    ConflictingContentLength,
    InvalidChunkedBody,
}

impl MalformedHead {
    /// Describes the error.
    pub fn to_string(&self) -> (text: String)
        ensures
            text@ == self.message_text(),
    {
        match self {
            MalformedHead::HeaderName => {
                "invalid header name".to_owned()
            },
            MalformedHead::HeaderValue => {
                "invalid header value".to_owned()
            },
            MalformedHead::NewLine => {
                "invalid new line".to_owned()
            },
            MalformedHead::Status => {
                "invalid response status".to_owned()
            },
            MalformedHead::Token => {
                "invalid token".to_owned()
            },
            MalformedHead::TooManyHeaders => {
                "too many headers".to_owned()
            },
            MalformedHead::Version => {
                "invalid HTTP version".to_owned()
            },
        }
    }

    /// The text that describes the error.
    pub open spec fn message_text(&self) -> Seq<char> {
        match self {
            MalformedHead::HeaderName => "invalid header name"@,
            MalformedHead::HeaderValue => "invalid header value"@,
            MalformedHead::NewLine => "invalid new line"@,
            MalformedHead::Status => "invalid response status"@,
            MalformedHead::Token => "invalid token"@,
            MalformedHead::TooManyHeaders => "too many headers"@,
            MalformedHead::Version => "invalid HTTP version"@,
        }
    }
}

impl HttpError {
    /// Describes the error.
    pub fn to_string(&self) -> (text: String)
        ensures
            text@ == self.message_text(),
    {
        match self {
            HttpError::Io(text) => "I/O error: ".to_owned().concat(text.as_str()),
            HttpError::UnexpectedEof => {
                "connection closed before the HTTP headers were complete".to_owned()
            },
            HttpError::HeaderTooLarge => {
                "HTTP headers exceed the configured limit".to_owned()
            },
            HttpError::Parse(error) => "malformed HTTP message: ".to_owned().concat(
                error.to_string().as_str(),
            ),
            HttpError::MissingRequestFields => {
                "HTTP message is missing required request fields".to_owned()
            },
            HttpError::InvalidHeaderText => {
                "HTTP header contains invalid UTF-8".to_owned()
            },
            HttpError::InvalidContentLength => {
                "invalid Content-Length header".to_owned()
            },
            HttpError::ConflictingContentLength => {
                "response contains conflicting Content-Length headers".to_owned()
            },
            HttpError::InvalidChunkedBody => {
                "malformed chunked response body".to_owned()
            },
        }
    }

    /// The text that describes the error.
    pub open spec fn message_text(&self) -> Seq<char> {
        match self {
            HttpError::Io(text) => "I/O error: "@ + text@,
            HttpError::UnexpectedEof => "connection closed before the HTTP headers were complete"@,
            HttpError::HeaderTooLarge => "HTTP headers exceed the configured limit"@,
            HttpError::Parse(error) => "malformed HTTP message: "@ + error.message_text(),
            HttpError::MissingRequestFields => "HTTP message is missing required request fields"@,
            HttpError::InvalidHeaderText => "HTTP header contains invalid UTF-8"@,
            HttpError::InvalidContentLength => "invalid Content-Length header"@,
            HttpError::ConflictingContentLength => "response contains conflicting Content-Length headers"@,
            HttpError::InvalidChunkedBody => "malformed chunked response body"@,
        }
    }
}

/// The values of the header fields called `name`, in order.
pub open spec fn values_named(headers: Seq<(Seq<char>, Seq<u8>)>, name: Seq<char>) -> Seq<Seq<u8>> {
    headers.filter(
        |field: (Seq<char>, Seq<u8>)| crate::text::same_ignoring_case(field.0, name),
    ).map_values(|field: (Seq<char>, Seq<u8>)| field.1)
}

/// The contents of byte slices.
pub open spec fn slice_views(slices: Seq<&[u8]>) -> Seq<Seq<u8>> {
    slices.map_values(|slice: &[u8]| slice@)
}

/// Whether one of the values is a text whose comma-separated parts hold `token`.
pub open spec fn any_lists(values: Seq<Seq<u8>>, token: Seq<char>) -> bool {
    exists|i: int|
        0 <= i < values.len() && valid_utf8(#[trigger] values[i]) && crate::text::lists(
            decode_utf8(values[i]),
            token,
        )
}

/// The length that one `Content-Length` value gives.
pub open spec fn length_of(value: Seq<u8>) -> Option<int> {
    if valid_utf8(value) {
        match crate::number::parsed(
            crate::text::trim(decode_utf8(value)),
            10,
            usize::MAX as int,
        ) {
            Ok(length) => Some(length),
            Err(_) => None,
        }
    } else {
        None
    }
}

/// What the `Content-Length` values come to, read in order: the length on which they agree, if
/// there is any, or what is wrong with the first of them that is no length or another one.
pub open spec fn agreed_length(values: Seq<Seq<u8>>) -> Result<Option<int>, HttpError>
    decreases values.len(),
{
    if values.len() == 0 {
        Ok(None)
    } else {
        match agreed_length(values.drop_last()) {
            Err(error) => Err(error),
            Ok(previous) => match length_of(values.last()) {
                None => Err(HttpError::InvalidContentLength),
                Some(length) => if previous is Some && previous != Some(length) {
                    Err(HttpError::ConflictingContentLength)
                } else {
                    Ok(Some(length))
                },
            },
        }
    }
}

impl ResponseHeadView {
    /// Whether a header field called `name` lists `token`.
    pub open spec fn lists(self, name: Seq<char>, token: Seq<char>) -> bool {
        any_lists(values_named(self.headers, name), token)
    }

    /// Whether the connection ends with this response: it says so, or it is of HTTP/1.0 and does
    /// not say otherwise.
    pub open spec fn closes(self) -> bool {
        self.lists("connection"@, "close"@) || (self.version == 0 && !self.lists(
            "connection"@,
            "keep-alive"@,
        ))
    }

    /// Whether the body is chunked.
    pub open spec fn chunked(self) -> bool {
        self.lists("transfer-encoding"@, "chunked"@)
    }

    /// The announced length of the body.
    pub open spec fn announced_length(self) -> Result<Option<int>, HttpError> {
        agreed_length(values_named(self.headers, "content-length"@))
    }
}

/// Looks for `token` in the lists that the values hold.
fn values_list(values: &Vec<&[u8]>, token: &str) -> (answer: bool)
    ensures
        answer == any_lists(slice_views(values@), token@),
{
    for i in 0..values.len()
        invariant
            forall|j: int|
                0 <= j < i ==> !(valid_utf8(#[trigger] slice_views(values@)[j])
                    && crate::text::lists(decode_utf8(slice_views(values@)[j]), token@)),
    {
        assert(slice_views(values@)[i as int] == values@[i as int]@);
        if let Some(text) = utf8_text(values[i]) {
            if list_contains(text, token) {
                return true;
            }
        }
    }
    false
}

impl ResponseHead {
    /// The values of the header fields called `name`, in order.
    pub fn header_values<'a>(&'a self, name: &str) -> (values: Vec<&'a [u8]>)
        ensures
            slice_views(values@) == values_named(self@.headers, name@),
    {
        let wanted = characters(name);
        let ghost pick = |field: (Seq<char>, Seq<u8>)|
            crate::text::same_ignoring_case(field.0, name@);
        let ghost all = self@.headers;
        let mut values: Vec<&'a [u8]> = Vec::new();
        assert(all.take(0) == Seq::<(Seq<char>, Seq<u8>)>::empty());
        proof {
            reveal(Seq::filter);
        }
        assert(slice_views(values@) == values_named(all.take(0), name@));
        for i in 0..self.headers.len()
            invariant
                all == self@.headers,
                all.len() == self.headers@.len(),
                wanted@ == name@,
                slice_views(values@) == values_named(all.take(i as int), name@),
        {
            let header = &self.headers[i];
            let ghost before = values@;
            proof {
                reveal(Seq::filter);
                assert(all.take(i + 1).drop_last() == all.take(i as int));
                assert(all.take(i + 1).last() == header@);
            }
            if equal_ignoring_case(characters(header.name.as_str()).as_slice(), wanted.as_slice()) {
                values.push(header.value.as_slice());
                assert(slice_views(values@) == slice_views(before).push(header.value@));
            }
            assert(slice_views(values@) == values_named(all.take(i + 1), name@));
        }
        assert(all.take(all.len() as int) == all);
        values
    }

    /// Tells whether the connection ends with this response.
    pub fn connection_close(&self) -> (answer: bool)
        ensures
            answer == self@.closes(),
    {
        let values = self.header_values("connection");
        values_list(&values, "close") || (self.version == 0 && !values_list(&values, "keep-alive"))
    }

    /// Reads the announced length of the body.
    pub fn content_length(&self) -> (length: Result<Option<usize>, HttpError>)
        ensures
            match length {
                Ok(None) => self@.announced_length() == Ok::<Option<int>, HttpError>(None),
                Ok(Some(n)) => self@.announced_length() == Ok::<Option<int>, HttpError>(
                    Some(n as int),
                ),
                Err(e) => self@.announced_length() == Err::<Option<int>, HttpError>(e),
            },
    {
        let values = self.header_values("content-length");
        let ghost all = slice_views(values@);
        let mut parsed: Option<usize> = None;
        assert(all.take(0) == Seq::<Seq<u8>>::empty());
        for i in 0..values.len()
            invariant
                all == slice_views(values@),
                all == values_named(self@.headers, "content-length"@),
                agreed_length(all.take(i as int)) == Ok::<Option<int>, HttpError>(
                    match parsed {
                        Some(n) => Some(n as int),
                        None => None,
                    },
                ),
        {
            assert(all[i as int] == values@[i as int]@);
            assert(all.take(i + 1).drop_last() == all.take(i as int));
            let length = match utf8_text(values[i]) {
                None => None,
                Some(text) => {
                    let chars = characters(text);
                    match parse_number(trimmed(chars.as_slice()), 10, usize::MAX) {
                        Ok(n) => Some(n),
                        Err(_) => None,
                    }
                },
            };
            let error = match length {
                None => Some(HttpError::InvalidContentLength),
                Some(n) => match parsed {
                    Some(previous) => if previous != n {
                        Some(HttpError::ConflictingContentLength)
                    } else {
                        None
                    },
                    None => None,
                },
            };
            if let Some(error) = error {
                proof {
                    lemma_first_fault(all, i + 1);
                }
                return Err(error);
            }
            parsed = length;
        }
        assert(all.take(all.len() as int) == all);
        Ok(parsed)
    }

    /// Tells whether the body is chunked.
    pub fn is_chunked(&self) -> (answer: bool)
        ensures
            answer == self@.chunked(),
    {
        values_list(&self.header_values("transfer-encoding"), "chunked")
    }
}

/// The first fault among the lengths decides.
proof fn lemma_first_fault(values: Seq<Seq<u8>>, n: int)
    requires
        0 <= n <= values.len(),
        agreed_length(values.take(n)) is Err,
    ensures
        agreed_length(values) == agreed_length(values.take(n)),
    decreases values.len(),
{
    if n < values.len() {
        assert(values.drop_last().take(n) == values.take(n));
        lemma_first_fault(values.drop_last(), n);
    } else {
        assert(values.take(n) == values);
    }
}

/// The bytes of a line break.
pub open spec fn line_break() -> Seq<u8> {
    seq![13u8, 10u8]
}

/// The bytes that end a head: the line break of the last line, and an empty line.
pub open spec fn head_break() -> Seq<u8> {
    seq![13u8, 10u8, 13u8, 10u8]
}

/// Where `pattern` first occurs in `bytes`.
pub open spec fn first_match(bytes: Seq<u8>, pattern: Seq<u8>) -> Option<int>
    decreases bytes.len(),
{
    if bytes.len() < pattern.len() || bytes.len() == 0 {
        None
    } else if bytes.take(pattern.len() as int) == pattern {
        Some(0)
    } else {
        match first_match(bytes.drop_first(), pattern) {
            Some(i) => Some(i + 1),
            None => None,
        }
    }
}

/// Whether `pattern` stands in `bytes` at `i`.
pub open spec fn matches_at(bytes: Seq<u8>, pattern: Seq<u8>, i: int) -> bool {
    0 <= i && i + pattern.len() <= bytes.len() && bytes.subrange(i, i + pattern.len() as int)
        == pattern
}

/// `first_match` finds the pattern, and nothing in front of it.
pub proof fn lemma_first_match(bytes: Seq<u8>, pattern: Seq<u8>)
    requires
        pattern.len() > 0,
    ensures
        match first_match(bytes, pattern) {
            Some(n) => matches_at(bytes, pattern, n) && forall|i: int|
                0 <= i < n ==> !matches_at(bytes, pattern, i),
            None => forall|i: int| !matches_at(bytes, pattern, i),
        },
    decreases bytes.len(),
{
    if bytes.len() >= pattern.len() {
        let rest = bytes.drop_first();
        assert(bytes.subrange(0, pattern.len() as int) == bytes.take(pattern.len() as int));
        if bytes.take(pattern.len() as int) != pattern {
            lemma_first_match(rest, pattern);
            assert forall|i: int| 0 < i implies matches_at(bytes, pattern, i) == matches_at(
                rest,
                pattern,
                i - 1,
            ) by {
                if i + pattern.len() <= bytes.len() {
                    assert(bytes.subrange(i, i + pattern.len() as int) == rest.subrange(
                        i - 1,
                        i - 1 + pattern.len() as int,
                    ));
                }
            }
        }
    }
}

/// The one place with the properties of `lemma_first_match` is `first_match`.
pub proof fn lemma_first_match_unique(bytes: Seq<u8>, pattern: Seq<u8>, n: int)
    requires
        pattern.len() > 0,
        matches_at(bytes, pattern, n),
        forall|i: int| 0 <= i < n ==> !matches_at(bytes, pattern, i),
    ensures
        first_match(bytes, pattern) == Some(n),
{
    lemma_first_match(bytes, pattern);
}

/// A pattern that has been found stays where it is when more bytes arrive.
pub proof fn law_match_is_final(bytes: Seq<u8>, more: Seq<u8>, pattern: Seq<u8>)
    requires
        pattern.len() > 0,
        first_match(bytes, pattern) is Some,
    ensures
        first_match(bytes + more, pattern) == first_match(bytes, pattern),
{
    let all = bytes + more;
    lemma_first_match(bytes, pattern);
    lemma_first_match(all, pattern);
    let n = first_match(bytes, pattern)->0;
    assert forall|i: int| 0 <= i <= n implies matches_at(all, pattern, i) == matches_at(
        bytes,
        pattern,
        i,
    ) by {
        assert(all.subrange(i, i + pattern.len() as int) == bytes.subrange(
            i,
            i + pattern.len() as int,
        ));
    }
}

/// Where the head at the front of `bytes` ends, if all of it is there.
pub open spec fn head_end(bytes: Seq<u8>) -> Option<int> {
    match first_match(bytes, head_break()) {
        Some(n) => Some(n + 4),
        None => None,
    }
}

/// Finds the end of the head at the front of `bytes`.
pub fn find_header_end(bytes: &[u8]) -> (end: Option<usize>)
    ensures
        match end {
            Some(n) => head_end(bytes@) == Some(n as int) && n <= bytes@.len(),
            None => head_end(bytes@) is None,
        },
{
    let mut i: usize = 0;
    proof {
        lemma_first_match(bytes@, head_break());
    }
    while bytes.len() - i >= 4
        invariant
            i <= bytes@.len(),
            forall|j: int| 0 <= j < i ==> !matches_at(bytes@, head_break(), j),
            match first_match(bytes@, head_break()) {
                Some(n) => matches_at(bytes@, head_break(), n) && forall|j: int|
                    0 <= j < n ==> !matches_at(bytes@, head_break(), j),
                None => forall|j: int| !matches_at(bytes@, head_break(), j),
            },
        decreases bytes@.len() - i,
    {
        let ghost window = bytes@.subrange(i as int, i + 4);
        assert(window[0] == bytes@[i as int] && window[1] == bytes@[i + 1] && window[2] == bytes@[i
            + 2] && window[3] == bytes@[i + 3]);
        if bytes[i] == 13 && bytes[i + 1] == 10 && bytes[i + 2] == 13 && bytes[i + 3] == 10 {
            assert(window == head_break());
            assert(matches_at(bytes@, head_break(), i as int));
            return Some(i + 4);
        }
        assert(head_break()[0] == 13 && head_break()[1] == 10 && head_break()[2] == 13
            && head_break()[3] == 10);
        i += 1;
    }
    None
}

/// Finds the first line break in `bytes`.
pub(crate) fn find_line_end(bytes: &[u8]) -> (end: Option<usize>)
    ensures
        match end {
            Some(n) => first_match(bytes@, line_break()) == Some(n as int) && n + 2 <= bytes@.len(),
            None => first_match(bytes@, line_break()) is None,
        },
{
    let mut i: usize = 0;
    proof {
        lemma_first_match(bytes@, line_break());
    }
    while bytes.len() - i >= 2
        invariant
            i <= bytes@.len(),
            forall|j: int| 0 <= j < i ==> !matches_at(bytes@, line_break(), j),
            match first_match(bytes@, line_break()) {
                Some(n) => matches_at(bytes@, line_break(), n) && forall|j: int|
                    0 <= j < n ==> !matches_at(bytes@, line_break(), j),
                None => forall|j: int| !matches_at(bytes@, line_break(), j),
            },
        decreases bytes@.len() - i,
    {
        let ghost window = bytes@.subrange(i as int, i + 2);
        assert(window[0] == bytes@[i as int] && window[1] == bytes@[i + 1]);
        if bytes[i] == 13 && bytes[i + 1] == 10 {
            assert(window == line_break());
            assert(matches_at(bytes@, line_break(), i as int));
            return Some(i);
        }
        assert(line_break()[0] == 13 && line_break()[1] == 10);
        i += 1;
    }
    None
}

/// What a parser made of a request head, as far as it got.
#[derive(Debug)]
pub struct ParsedRequest {
    pub method: Option<String>,
    pub target: Option<String>,
}

/// The text of an optional string.
pub open spec fn optional_text(text: Option<String>) -> Option<Seq<char>> {
    match text {
        Some(t) => Some(t@),
        None => None,
    }
}

impl View for ParsedRequest {
    type V = (Option<Seq<char>>, Option<Seq<char>>);

    open spec fn view(&self) -> (Option<Seq<char>>, Option<Seq<char>>) {
        (optional_text(self.method), optional_text(self.target))
    }
}

/// What a parser made of a response head, as far as it got.
#[derive(Debug)]
pub struct ParsedResponse {
    pub version: Option<u8>,
    pub status: Option<u16>,
    pub headers: Vec<Header>,
}

impl View for ParsedResponse {
    type V = (Option<u8>, Option<u16>, Seq<(Seq<char>, Seq<u8>)>);

    open spec fn view(&self) -> (Option<u8>, Option<u16>, Seq<(Seq<char>, Seq<u8>)>) {
        (self.version, self.status, fields(self.headers@))
    }
}

/// What `httparse::Request::parse` makes of the bytes of a request head, with room for a number
/// of header fields: the method and the path, each if it got so far, or its error.
pub uninterp spec fn httparse_request(bytes: Seq<u8>, max_headers: int) -> Result<
    (Option<Seq<char>>, Option<Seq<char>>),
    MalformedHead,
>;

/// What `httparse::Response::parse` makes of the bytes of a response head, with room for a number
/// of header fields: the minor version and the status code, each if it got so far, and the header
/// fields in the order in which it leaves them, or its error.
pub uninterp spec fn httparse_response(bytes: Seq<u8>, max_headers: int) -> Result<
    (Option<u8>, Option<u16>, Seq<(Seq<char>, Seq<u8>)>),
    MalformedHead,
>;

/// Calls `httparse::Request::parse` on `bytes`. What comes back depends on the bytes and on the
/// room for header fields alone, and is called `httparse_request`. Whether the parser saw the end
/// of the head is left out.
#[verifier::external_body]
fn parse_request(bytes: &[u8], max_headers: usize) -> (parsed: Result<ParsedRequest, MalformedHead>)
    requires
        max_headers <= 1024,
    ensures
        match parsed {
            Ok(p) => httparse_request(bytes@, max_headers as int) == Ok::<
                (Option<Seq<char>>, Option<Seq<char>>),
                MalformedHead,
            >(p@),
            Err(e) => httparse_request(bytes@, max_headers as int) == Err::<
                (Option<Seq<char>>, Option<Seq<char>>),
                MalformedHead,
            >(e),
        },
{
    let mut headers = vec![EMPTY_HEADER; max_headers];
    let mut parser = Request::new(&mut headers);
    if let Err(error) = parser.parse(bytes) {
        return Err(match error {
            Error::HeaderName => MalformedHead::HeaderName,
            Error::HeaderValue => MalformedHead::HeaderValue,
            Error::NewLine => MalformedHead::NewLine,
            Error::Status => MalformedHead::Status,
            Error::Token => MalformedHead::Token,
            Error::TooManyHeaders => MalformedHead::TooManyHeaders,
            Error::Version => MalformedHead::Version,
        });
    }
    Ok(ParsedRequest { method: parser.method.map(str::to_owned), target: parser.path.map(str::to_owned) })
}

/// Calls `httparse::Response::parse` on `bytes`. What comes back depends on the bytes and on the
/// room for header fields alone, and is called `httparse_response`. The reason phrase, and whether
/// the parser saw the end of the head, are left out.
#[verifier::external_body]
fn parse_response(bytes: &[u8], max_headers: usize) -> (parsed: Result<ParsedResponse, MalformedHead>)
    requires
        max_headers <= 1024,
    ensures
        match parsed {
            Ok(p) => httparse_response(bytes@, max_headers as int) == Ok::<
                (Option<u8>, Option<u16>, Seq<(Seq<char>, Seq<u8>)>),
                MalformedHead,
            >(p@),
            Err(e) => httparse_response(bytes@, max_headers as int) == Err::<
                (Option<u8>, Option<u16>, Seq<(Seq<char>, Seq<u8>)>),
                MalformedHead,
            >(e),
        },
{
    let mut headers = vec![EMPTY_HEADER; max_headers];
    let mut parser = Response::new(&mut headers);
    if let Err(error) = parser.parse(bytes) {
        return Err(match error {
            Error::HeaderName => MalformedHead::HeaderName,
            Error::HeaderValue => MalformedHead::HeaderValue,
            Error::NewLine => MalformedHead::NewLine,
            Error::Status => MalformedHead::Status,
            Error::Token => MalformedHead::Token,
            Error::TooManyHeaders => MalformedHead::TooManyHeaders,
            Error::Version => MalformedHead::Version,
        });
    }
    let fields = parser.headers.iter().map(|h| Header { name: h.name.to_owned(), value: h.value.to_vec() });
    Ok(ParsedResponse { version: parser.version, status: parser.code, headers: fields.collect() })
}

/// The request head that a parsed one comes to: both fields are needed.
pub open spec fn complete_request(
    parsed: Result<(Option<Seq<char>>, Option<Seq<char>>), MalformedHead>,
) -> Result<(Seq<char>, Seq<char>), HttpError> {
    match parsed {
        Ok((Some(method), Some(target))) => Ok((method, target)),
        Ok(_) => Err(HttpError::MissingRequestFields),
        Err(error) => Err(HttpError::Parse(error)),
    }
}

/// The response head that a parsed one comes to: version and status are needed.
pub open spec fn complete_response(
    parsed: Result<(Option<u8>, Option<u16>, Seq<(Seq<char>, Seq<u8>)>), MalformedHead>,
) -> Result<ResponseHeadView, HttpError> {
    match parsed {
        Ok((Some(version), Some(status), headers)) => Ok(
            ResponseHeadView { version, status, headers },
        ),
        Ok(_) => Err(HttpError::MissingRequestFields),
        Err(error) => Err(HttpError::Parse(error)),
    }
}

/// The contents of what a parser of requests returned.
pub open spec fn parsed_request_view(parsed: Result<ParsedRequest, MalformedHead>) -> Result<
    (Option<Seq<char>>, Option<Seq<char>>),
    MalformedHead,
> {
    match parsed {
        Ok(p) => Ok(p@),
        Err(e) => Err(e),
    }
}

/// The contents of what a parser of responses returned.
pub open spec fn parsed_response_view(parsed: Result<ParsedResponse, MalformedHead>) -> Result<
    (Option<u8>, Option<u16>, Seq<(Seq<char>, Seq<u8>)>),
    MalformedHead,
> {
    match parsed {
        Ok(p) => Ok(p@),
        Err(e) => Err(e),
    }
}

/// Completes a parsed request head.
pub fn request_head(parsed: Result<ParsedRequest, MalformedHead>) -> (head: Result<
    RequestHead,
    HttpError,
>)
    ensures
        match head {
            Ok(h) => complete_request(parsed_request_view(parsed)) == Ok::<
                (Seq<char>, Seq<char>),
                HttpError,
            >(h@),
            Err(e) => complete_request(parsed_request_view(parsed)) == Err::<
                (Seq<char>, Seq<char>),
                HttpError,
            >(e),
        },
{
    match parsed {
        Err(error) => Err(HttpError::Parse(error)),
        Ok(request) => match (request.method, request.target) {
            (Some(method), Some(target)) => Ok(RequestHead { method, target }),
            _ => Err(HttpError::MissingRequestFields),
        },
    }
}

/// Completes a parsed response head.
pub fn response_head(parsed: Result<ParsedResponse, MalformedHead>) -> (head: Result<
    ResponseHead,
    HttpError,
>)
    ensures
        match head {
            Ok(h) => complete_response(parsed_response_view(parsed)) == Ok::<
                ResponseHeadView,
                HttpError,
            >(h@),
            Err(e) => complete_response(parsed_response_view(parsed)) == Err::<
                ResponseHeadView,
                HttpError,
            >(e),
        },
{
    match parsed {
        Err(error) => Err(HttpError::Parse(error)),
        Ok(response) => match (response.version, response.status) {
            (Some(version), Some(status)) => Ok(
                ResponseHead { version, status, headers: response.headers },
            ),
            _ => Err(HttpError::MissingRequestFields),
        },
    }
}

/// Reads the bytes of a response head.
pub fn parse_response_head(bytes: &[u8]) -> (head: Result<ResponseHead, HttpError>)
    ensures
        match head {
            Ok(h) => complete_response(httparse_response(bytes@, MAX_HEADERS as int)) == Ok::<
                ResponseHeadView,
                HttpError,
            >(h@),
            Err(e) => complete_response(httparse_response(bytes@, MAX_HEADERS as int)) == Err::<
                ResponseHeadView,
                HttpError,
            >(e),
        },
{
    response_head(parse_response(bytes, MAX_HEADERS))
}

/// What the bytes at hand tell of the head at their front.
pub enum HeadReach {
    /// It ends here.
    Ends(int),
    /// It has not ended; at most so many bytes are to be read next.
    Continues(int),
    /// It does not end within the limit.
    Exceeds,
}

/// What `bytes` tell of the head at their front, under a limit on its length. The empty line that
/// ends it counts.
pub open spec fn head_reach(bytes: Seq<u8>, max_header_bytes: int) -> HeadReach {
    match head_end(bytes) {
        Some(end) => if end > max_header_bytes {
            HeadReach::Exceeds
        } else {
            HeadReach::Ends(end)
        },
        None => if bytes.len() >= max_header_bytes {
            HeadReach::Exceeds
        } else if max_header_bytes - bytes.len() < READ_SIZE {
            HeadReach::Continues(max_header_bytes - bytes.len())
        } else {
            HeadReach::Continues(READ_SIZE as int)
        },
    }
}

/// A head that is accepted ends within the limit. One that has not ended asks for at least one
/// byte, and with what then arrives there are no more bytes than the limit.
pub proof fn law_head_stays_bounded(bytes: Seq<u8>, max_header_bytes: int, arrived: Seq<u8>)
    ensures
        match head_reach(bytes, max_header_bytes) {
            HeadReach::Ends(end) => end <= max_header_bytes && head_end(bytes) == Some(end),
            HeadReach::Continues(wanted) => {
                &&& 1 <= wanted <= READ_SIZE
                &&& arrived.len() <= wanted ==> (bytes + arrived).len() <= max_header_bytes
            },
            HeadReach::Exceeds => true,
        },
{
}

/// However the bytes arrive, a head comes to the same: where it ends, or that it exceeds the limit,
/// stays so when more bytes arrive.
pub proof fn law_head_verdict_is_final(bytes: Seq<u8>, more: Seq<u8>, max_header_bytes: int)
    requires
        !(head_reach(bytes, max_header_bytes) is Continues),
    ensures
        head_reach(bytes + more, max_header_bytes) == head_reach(bytes, max_header_bytes),
{
    let all = bytes + more;
    if head_end(bytes) is Some {
        law_match_is_final(bytes, more, head_break());
    } else if head_end(all) is Some {
        lemma_first_match(bytes, head_break());
        lemma_first_match(all, head_break());
        let n = first_match(all, head_break())->0;
        if n + 4 <= bytes.len() {
            assert(all.subrange(n, n + 4) == bytes.subrange(n, n + 4));
            assert(matches_at(bytes, head_break(), n));
        }
    }
}

/// What was found out about a head.
enum HeadStatus {
    Ends(usize),
    Continues(usize),
    Exceeds,
}

/// Finds out about the head at the front of `bytes`.
fn inspect_head(bytes: &[u8], max_header_bytes: usize) -> (status: HeadStatus)
    ensures
        match status {
            HeadStatus::Ends(end) => head_reach(bytes@, max_header_bytes as int)
                == HeadReach::Ends(end as int) && end <= bytes@.len(),
            HeadStatus::Continues(n) => head_reach(bytes@, max_header_bytes as int)
                == HeadReach::Continues(n as int),
            HeadStatus::Exceeds => head_reach(bytes@, max_header_bytes as int) is Exceeds,
        },
{
    match find_header_end(bytes) {
        Some(end) => if end > max_header_bytes {
            HeadStatus::Exceeds
        } else {
            HeadStatus::Ends(end)
        },
        None => {
            if bytes.len() >= max_header_bytes {
                return HeadStatus::Exceeds;
            }
            let remaining: usize = max_header_bytes - bytes.len();
            if remaining < READ_SIZE {
                HeadStatus::Continues(remaining)
            } else {
                HeadStatus::Continues(READ_SIZE)
            }
        },
    }
}

/// How far reading a request head has come.
#[derive(Debug)]
pub enum RequestProgress {
    /// The head is complete; the bytes behind it belong to the tunnel.
    Complete(RequestHead, Vec<u8>),
    /// At most this many bytes are to be read next.
    Read(usize),
}

/// How far reading a response head has come.
#[derive(Debug)]
pub enum ResponseProgress {
    /// The head is complete.
    Complete(ResponseHead),
    /// At most this many bytes are to be read next.
    Read(usize),
}

/// Whether reading a request head from these bytes comes so far. If the stream has `ended`, no more
/// of them can arrive.
pub open spec fn request_progress(
    bytes: Seq<u8>,
    ended: bool,
    max_header_bytes: int,
    progress: Result<RequestProgress, HttpError>,
) -> bool {
    match head_reach(bytes, max_header_bytes) {
        HeadReach::Continues(wanted) => if ended {
            progress == Err::<RequestProgress, HttpError>(HttpError::UnexpectedEof)
        } else {
            progress matches Ok(RequestProgress::Read(n)) && n == wanted
        },
        HeadReach::Exceeds => progress == Err::<RequestProgress, HttpError>(
            HttpError::HeaderTooLarge,
        ),
        HeadReach::Ends(end) => {
            let expected = complete_request(
                httparse_request(bytes.take(end), MAX_HEADERS as int),
            );
            match progress {
                Ok(RequestProgress::Complete(head, rest)) => expected == Ok::<
                    (Seq<char>, Seq<char>),
                    HttpError,
                >(head@) && rest@ == bytes.skip(end),
                Ok(RequestProgress::Read(_)) => false,
                Err(e) => expected == Err::<(Seq<char>, Seq<char>), HttpError>(e),
            }
        },
    }
}

/// Reads a request head from the bytes that have arrived so far.
///
/// # Errors
///
/// Returns [`HttpError::HeaderTooLarge`] if the head does not end within the limit, and another
/// error if it is no request head.
pub fn read_request_head(bytes: &[u8], max_header_bytes: usize) -> (progress: Result<
    RequestProgress,
    HttpError,
>)
    ensures
        request_progress(bytes@, false, max_header_bytes as int, progress),
{
    let end = match inspect_head(bytes, max_header_bytes) {
        HeadStatus::Continues(wanted) => return Ok(RequestProgress::Read(wanted)),
        HeadStatus::Exceeds => return Err(HttpError::HeaderTooLarge),
        HeadStatus::Ends(end) => end,
    };
    let head = vstd::slice::slice_subrange(bytes, 0, end);
    assert(head@ == bytes@.take(end as int));
    match request_head(parse_request(head, MAX_HEADERS)) {
        Err(error) => Err(error),
        Ok(head) => {
            let rest = vstd::slice::slice_subrange(bytes, end, bytes.len());
            assert(rest@ == bytes@.skip(end as int));
            Ok(RequestProgress::Complete(head, vstd::slice::slice_to_vec(rest)))
        },
    }
}

/// Takes in bytes of a request that have just been read, and reads its head from all that have
/// arrived; no bytes at all mean that the stream has ended.
///
/// # Errors
///
/// Returns [`HttpError::UnexpectedEof`] if the stream ends before the head does, and the errors of
/// [`read_request_head`].
pub fn receive_request_head(
    received: &mut Vec<u8>,
    chunk: &[u8],
    max_header_bytes: usize,
) -> (progress: Result<RequestProgress, HttpError>)
    ensures
        final(received)@ == old(received)@ + chunk@,
        request_progress(
            old(received)@ + chunk@,
            chunk@.len() == 0,
            max_header_bytes as int,
            progress,
        ),
{
    received.extend_from_slice(chunk);
    assert(received@ == old(received)@ + chunk@);
    match read_request_head(received.as_slice(), max_header_bytes) {
        Ok(RequestProgress::Read(_)) if chunk.len() == 0 => Err(HttpError::UnexpectedEof),
        progress => progress,
    }
}

/// What a finished stream holds at its front under a limit: a head that ends there, or none.
pub open spec fn head_of_stream(stream: Seq<u8>, max_header_bytes: int) -> Result<int, HttpError> {
    match head_reach(stream, max_header_bytes) {
        HeadReach::Ends(end) => Ok(end),
        HeadReach::Continues(_) => Err(HttpError::UnexpectedEof),
        HeadReach::Exceeds => Err(HttpError::HeaderTooLarge),
    }
}

/// However the bytes of a request arrive, its stream alone decides what reading its head comes to.
/// As soon as the bytes at hand decide it, they decide it as the whole stream does, and at the end
/// of the stream it is decided in any case. The head is too large exactly if it does not end within
/// the limit although as many bytes arrive, and the stream ends too early exactly if fewer arrive
/// and the head is not over. A head that ends right at the limit is accepted.
pub proof fn law_stream_decides_request(
    stream: Seq<u8>,
    taken: int,
    ended: bool,
    max_header_bytes: int,
    progress: Result<RequestProgress, HttpError>,
)
    requires
        0 <= taken <= stream.len(),
        ended ==> taken == stream.len(),
        max_header_bytes >= 0,
        request_progress(stream.take(taken), ended, max_header_bytes, progress),
    ensures
        ended ==> !(progress matches Ok(RequestProgress::Read(_))),
        !(progress matches Ok(RequestProgress::Read(_))) ==> match head_of_stream(
            stream,
            max_header_bytes,
        ) {
            Err(error) => progress == Err::<RequestProgress, HttpError>(error),
            Ok(end) => end <= taken && match complete_request(
                httparse_request(stream.take(end), MAX_HEADERS as int),
            ) {
                Ok(head) => progress matches Ok(RequestProgress::Complete(h, rest)) && h@ == head
                    && rest@ == stream.take(taken).skip(end),
                Err(error) => progress == Err::<RequestProgress, HttpError>(error),
            },
        },
        head_of_stream(stream, max_header_bytes) == Err::<int, HttpError>(HttpError::HeaderTooLarge)
            <==> stream.len() >= max_header_bytes && head_end(stream.take(max_header_bytes)) is None,
        head_of_stream(stream, max_header_bytes) == Err::<int, HttpError>(HttpError::UnexpectedEof)
            <==> stream.len() < max_header_bytes && head_end(stream) is None,
        head_end(stream) == Some(max_header_bytes) ==> head_of_stream(stream, max_header_bytes)
            == Ok::<int, HttpError>(max_header_bytes),
{
    let bytes = stream.take(taken);
    assert(bytes + stream.skip(taken) == stream);
    if !(head_reach(bytes, max_header_bytes) is Continues) {
        law_head_verdict_is_final(bytes, stream.skip(taken), max_header_bytes);
        if let HeadReach::Ends(end) = head_reach(bytes, max_header_bytes) {
            lemma_first_match(bytes, head_break());
            assert(bytes.take(end) == stream.take(end));
        }
    } else if ended {
        assert(bytes == stream);
    }
    lemma_first_match(stream, head_break());
    if stream.len() >= max_header_bytes {
        let within = stream.take(max_header_bytes);
        assert(within + stream.skip(max_header_bytes) == stream);
        lemma_first_match(within, head_break());
        law_head_verdict_is_final(within, stream.skip(max_header_bytes), max_header_bytes);
    }
}

/// The bytes that have arrived on a connection and have not been read yet.
pub struct BufferedStream {
    buffer: Vec<u8>,
}

impl View for BufferedStream {
    type V = Seq<u8>;

    closed spec fn view(&self) -> Seq<u8> {
        self.buffer@
    }
}

impl BufferedStream {
    /// A connection on which nothing has arrived.
    pub fn new() -> (stream: Self)
        ensures
            stream@ == Seq::<u8>::empty(),
    {
        Self { buffer: Vec::new() }
    }

    /// Takes in bytes that have arrived; none at all mean that the connection has ended.
    pub fn receive(&mut self, chunk: &[u8]) -> (outcome: Result<(), HttpError>)
        ensures
            final(self)@ == old(self)@ + chunk@,
            outcome == if chunk@.len() == 0 {
                Err::<(), HttpError>(HttpError::UnexpectedEof)
            } else {
                Ok::<(), HttpError>(())
            },
    {
        self.buffer.extend_from_slice(chunk);
        assert(self.buffer@ == old(self)@ + chunk@);
        if chunk.len() == 0 {
            Err(HttpError::UnexpectedEof)
        } else {
            Ok(())
        }
    }

    /// The bytes that have arrived and have not been read.
    pub(crate) fn bytes(&self) -> (bytes: &[u8])
        ensures
            bytes@ == self@,
    {
        self.buffer.as_slice()
    }

    /// Removes the first `count` bytes and returns them.
    pub(crate) fn remove_front(&mut self, count: usize) -> (front: Vec<u8>)
        requires
            count <= old(self)@.len(),
        ensures
            front@ == old(self)@.take(count as int),
            final(self)@ == old(self)@.skip(count as int),
    {
        let mut rest = self.buffer.split_off(count);
        core::mem::swap(&mut self.buffer, &mut rest);
        rest
    }

    /// Reads a response head from the bytes that have arrived so far, and removes it from them.
    ///
    /// # Errors
    ///
    /// Returns [`HttpError::HeaderTooLarge`] if the head does not end within the limit, and another
    /// error if it is no response head.
    pub fn read_response_head(&mut self, max_header_bytes: usize) -> (progress: Result<
        ResponseProgress,
        HttpError,
    >)
        ensures
            match head_reach(old(self)@, max_header_bytes as int) {
                HeadReach::Continues(wanted) => {
                    &&& final(self)@ == old(self)@
                    &&& progress == Ok::<ResponseProgress, HttpError>(
                        ResponseProgress::Read(wanted as usize),
                    )
                    &&& wanted <= usize::MAX
                },
                HeadReach::Exceeds => {
                    &&& final(self)@ == old(self)@
                    &&& progress == Err::<ResponseProgress, HttpError>(HttpError::HeaderTooLarge)
                },
                HeadReach::Ends(end) => {
                    let expected = complete_response(
                        httparse_response(old(self)@.take(end), MAX_HEADERS as int),
                    );
                    &&& final(self)@ == old(self)@.skip(end)
                    &&& match progress {
                        Ok(ResponseProgress::Complete(head)) => expected == Ok::<
                            ResponseHeadView,
                            HttpError,
                        >(head@),
                        Ok(ResponseProgress::Read(_)) => false,
                        Err(e) => expected == Err::<ResponseHeadView, HttpError>(e),
                    }
                },
            },
    {
        match inspect_head(self.buffer.as_slice(), max_header_bytes) {
            HeadStatus::Continues(wanted) => Ok(ResponseProgress::Read(wanted)),
            HeadStatus::Exceeds => Err(HttpError::HeaderTooLarge),
            HeadStatus::Ends(end) => {
                let head = self.remove_front(end);
                match parse_response_head(head.as_slice()) {
                    Ok(head) => Ok(ResponseProgress::Complete(head)),
                    Err(error) => Err(error),
                }
            },
        }
    }

    /// The bytes that have arrived and have not been read.
    pub fn into_parts(self) -> (unread: Vec<u8>)
        ensures
            unread@ == self@,
    {
        self.buffer
    }
}

/// A head ends behind the first carriage return, line feed, carriage return and line feed in a row.
pub proof fn law_head_ends_at_the_empty_line(bytes: &[u8], end: Option<usize>)
    requires
        call_ensures(find_header_end, (bytes,), end),
    ensures
        ({
            let ends_at = |n: int|
                {
                    &&& 4 <= n <= bytes@.len()
                    &&& bytes@[n - 4] == 13
                    &&& bytes@[n - 3] == 10
                    &&& bytes@[n - 2] == 13
                    &&& bytes@[n - 1] == 10
                };
            match end {
                Some(n) => ends_at(n as int) && head_end(bytes@) == Some(n as int) && forall|k: int|
                    k < n ==> !#[trigger] ends_at(k),
                None => head_end(bytes@) is None && forall|k: int| !#[trigger] ends_at(k),
            }
        }),
{
    lemma_first_match(bytes@, head_break());
    let ends_at = |n: int|
        {
            &&& 4 <= n <= bytes@.len()
            &&& bytes@[n - 4] == 13
            &&& bytes@[n - 3] == 10
            &&& bytes@[n - 2] == 13
            &&& bytes@[n - 1] == 10
        };
    assert forall|k: int| #[trigger] ends_at(k) == matches_at(bytes@, head_break(), k - 4) by {
        if 4 <= k <= bytes@.len() {
            let window = bytes@.subrange(k - 4, k);
            assert(window[0] == bytes@[k - 4] && window[1] == bytes@[k - 3] && window[2]
                == bytes@[k - 2] && window[3] == bytes@[k - 1]);
            if ends_at(k) {
                assert(window == head_break());
            }
            if matches_at(bytes@, head_break(), k - 4) {
                assert(head_break()[0] == 13 && head_break()[1] == 10 && head_break()[2] == 13
                    && head_break()[3] == 10);
            }
        }
    }
    if let Some(n) = end {
        assert(matches_at(bytes@, head_break(), n - 4));
        assert(ends_at(n as int));
    }
}

/// What reading a request head from all the bytes at hand has to come to, once it has ended or more
/// bytes than the limit have arrived.
pub open spec fn read_request(bytes: Seq<u8>, max_header_bytes: int) -> Option<
    Result<((Seq<char>, Seq<char>), Seq<u8>), HttpError>,
> {
    match head_end(bytes) {
        Some(end) => if end <= max_header_bytes {
            match httparse_request(bytes.take(end), 64) {
                Ok((Some(method), Some(target))) => Some(Ok(((method, target), bytes.skip(end)))),
                Ok(_) => Some(Err(HttpError::MissingRequestFields)),
                Err(fault) => Some(Err(HttpError::Parse(fault))),
            }
        } else {
            Some(Err(HttpError::HeaderTooLarge))
        },
        None => if bytes.len() < max_header_bytes {
            None
        } else {
            Some(Err(HttpError::HeaderTooLarge))
        },
    }
}

/// Whether this is how far reading a request head has come: what it has to come to, or else that at
/// most 8192 bytes are asked for, and no more than the limit still allows.
pub open spec fn reads_request(
    bytes: Seq<u8>,
    max_header_bytes: int,
    progress: Result<RequestProgress, HttpError>,
) -> bool {
    match (read_request(bytes, max_header_bytes), progress) {
        (None, Ok(RequestProgress::Read(wanted))) => {
            &&& wanted <= 8192
            &&& bytes.len() + wanted <= max_header_bytes
            &&& wanted == 8192 || bytes.len() + wanted == max_header_bytes
        },
        (Some(Ok((head, rest))), Ok(RequestProgress::Complete(h, r))) => h@ == head && r@ == rest,
        (Some(Err(error)), Err(e)) => e == error,
        _ => false,
    }
}

/// A request head is read as soon as its empty line has arrived, if that is within the limit: the
/// parser gets the head with room for 64 fields, and the bytes behind it are left. A longer head is
/// refused, and a shorter one waited for. A chunk that arrives is one with what there was, and an
/// empty one ends the waiting.
pub proof fn law_request_is_read(
    bytes: &[u8],
    max_header_bytes: usize,
    progress: Result<RequestProgress, HttpError>,
    received: &mut Vec<u8>,
    chunk: &[u8],
    later: Result<RequestProgress, HttpError>,
)
    requires
        call_ensures(read_request_head, (bytes, max_header_bytes), progress),
        call_ensures(receive_request_head, (received, chunk, max_header_bytes), later),
    ensures
        reads_request(bytes@, max_header_bytes as int, progress),
        final(received)@ == old(received)@ + chunk@,
        if chunk@.len() == 0 && read_request(old(received)@, max_header_bytes as int) is None {
            later == Err::<RequestProgress, HttpError>(HttpError::UnexpectedEof)
        } else {
            reads_request(old(received)@ + chunk@, max_header_bytes as int, later)
        },
{
    if chunk@.len() == 0 {
        assert(old(received)@ + chunk@ == old(received)@);
    }
}

/// What a parsed response head has to come to.
pub open spec fn read_response(bytes: Seq<u8>) -> Result<ResponseHeadView, HttpError> {
    match httparse_response(bytes, 64) {
        Ok((Some(version), Some(status), headers)) => Ok(
            ResponseHeadView { version, status, headers },
        ),
        Ok(_) => Err(HttpError::MissingRequestFields),
        Err(fault) => Err(HttpError::Parse(fault)),
    }
}

/// A response head is read and taken off the front of what has arrived as soon as its empty line is
/// there, if that is within the limit: the parser gets the head with room for 64 fields. A longer
/// head is refused and a shorter one waited for, and then nothing is taken off.
pub proof fn law_response_is_read(
    stream: &mut BufferedStream,
    max_header_bytes: usize,
    progress: Result<ResponseProgress, HttpError>,
)
    requires
        call_ensures(BufferedStream::read_response_head, (stream, max_header_bytes), progress),
    ensures
        match head_end(old(stream)@) {
            Some(end) => if end <= max_header_bytes {
                &&& final(stream)@ == old(stream)@.skip(end)
                &&& match read_response(old(stream)@.take(end)) {
                    Ok(head) => progress matches Ok(ResponseProgress::Complete(h)) && h@ == head,
                    Err(error) => progress == Err::<ResponseProgress, HttpError>(error),
                }
            } else {
                &&& final(stream)@ == old(stream)@
                &&& progress == Err::<ResponseProgress, HttpError>(HttpError::HeaderTooLarge)
            },
            None => {
                &&& final(stream)@ == old(stream)@
                &&& if old(stream)@.len() < max_header_bytes {
                    progress matches Ok(ResponseProgress::Read(wanted)) && {
                        &&& wanted <= 8192
                        &&& old(stream)@.len() + wanted <= max_header_bytes
                        &&& wanted == 8192 || old(stream)@.len() + wanted == max_header_bytes
                    }
                } else {
                    progress == Err::<ResponseProgress, HttpError>(HttpError::HeaderTooLarge)
                }
            },
        },
{
}

/// What arrives is kept behind what there was, nothing else is there, and what is left can be taken
/// out. An empty read is the end of the connection.
pub proof fn law_bytes_arrive_in_order(
    fresh: BufferedStream,
    stream: &mut BufferedStream,
    chunk: &[u8],
    outcome: Result<(), HttpError>,
    held: BufferedStream,
    left: Vec<u8>,
)
    requires
        call_ensures(BufferedStream::new, (), fresh),
        call_ensures(BufferedStream::receive, (stream, chunk), outcome),
        call_ensures(BufferedStream::into_parts, (held,), left),
    ensures
        fresh@ == Seq::<u8>::empty(),
        final(stream)@ == old(stream)@ + chunk@,
        chunk@.len() > 0 ==> outcome is Ok,
        chunk@.len() == 0 ==> outcome == Err::<(), HttpError>(HttpError::UnexpectedEof),
        left@ == held@,
{
}

/// The values of the fields with a name are those of the fields in front, and that of the last one
/// exactly if it has the name, in whatever case.
pub proof fn law_values_of_named_fields(
    headers: Seq<(Seq<char>, Seq<u8>)>,
    field: (Seq<char>, Seq<u8>),
    name: Seq<char>,
)
    ensures
        values_named(Seq::empty(), name) == Seq::<Seq<u8>>::empty(),
        values_named(headers.push(field), name) == if crate::text::same_ignoring_case(
            field.0,
            name,
        ) {
            values_named(headers, name).push(field.1)
        } else {
            values_named(headers, name)
        },
{
    reveal(Seq::filter);
    assert(headers.push(field).drop_last() == headers);
    assert(values_named(headers.push(field), name) == if crate::text::same_ignoring_case(
        field.0,
        name,
    ) {
        values_named(headers, name).push(field.1)
    } else {
        values_named(headers, name)
    });
}

/// Whether one of the fields with a name is a text that lists a token.
pub open spec fn field_lists(
    headers: Seq<(Seq<char>, Seq<u8>)>,
    name: Seq<char>,
    token: Seq<char>,
) -> bool {
    exists|i: int|
        0 <= i < headers.len() && field_is(#[trigger] headers[i], name, token)
}

/// Whether a field has a name and is a text that lists a token.
pub open spec fn field_is(
    field: (Seq<char>, Seq<u8>),
    name: Seq<char>,
    token: Seq<char>,
) -> bool {
    crate::text::same_ignoring_case(field.0, name) && valid_utf8(field.1) && crate::text::lists(
        decode_utf8(field.1),
        token,
    )
}

/// Some value of the named fields lists a token exactly if some field does.
proof fn lemma_field_lists(
    headers: Seq<(Seq<char>, Seq<u8>)>,
    name: Seq<char>,
    token: Seq<char>,
)
    ensures
        any_lists(values_named(headers, name), token) == field_lists(headers, name, token),
    decreases headers.len(),
{
    if headers.len() == 0 {
        reveal(Seq::filter);
        assert(headers == Seq::<(Seq<char>, Seq<u8>)>::empty());
        assert(values_named(headers, name) == Seq::<Seq<u8>>::empty());
    } else {
        let front = headers.drop_last();
        let last = headers.last();
        assert(front.push(last) == headers);
        law_values_of_named_fields(front, last, name);
        lemma_field_lists(front, name, token);
        let before = values_named(front, name);
        let after = values_named(headers, name);
        if field_lists(front, name, token) {
            let i = choose|i: int|
                0 <= i < front.len() && field_is(#[trigger] front[i], name, token);
            assert(field_is(headers[i], name, token));
            let j = choose|j: int|
                0 <= j < before.len() && valid_utf8(#[trigger] before[j]) && crate::text::lists(
                    decode_utf8(before[j]),
                    token,
                );
            assert(after[j] == before[j]);
        }
        if field_lists(headers, name, token) {
            let i = choose|i: int|
                0 <= i < headers.len() && field_is(#[trigger] headers[i], name, token);
            if i < front.len() {
                assert(field_is(front[i], name, token));
            } else {
                assert(after[after.len() - 1] == last.1);
            }
        }
        if any_lists(after, token) {
            let j = choose|j: int|
                0 <= j < after.len() && valid_utf8(#[trigger] after[j]) && crate::text::lists(
                    decode_utf8(after[j]),
                    token,
                );
            if j < before.len() {
                assert(before[j] == after[j]);
            } else {
                assert(field_is(headers[headers.len() - 1], name, token));
            }
        }
    }
}

/// The connection ends with a response exactly if some `Connection` field lists `close`, or the
/// response is of HTTP/1.0 and none lists `keep-alive`. A body is chunked exactly if some
/// `Transfer-Encoding` field lists `chunked`. Names and tokens count in whatever case.
pub proof fn law_fields_decide(response: &ResponseHead, closes: bool, chunked: bool)
    requires
        call_ensures(ResponseHead::connection_close, (response,), closes),
        call_ensures(ResponseHead::is_chunked, (response,), chunked),
    ensures
        closes == response@.closes(),
        chunked == response@.chunked(),
        closes <==> {
            ||| field_lists(response@.headers, "connection"@, "close"@)
            ||| response.version == 0 && !field_lists(
                response@.headers,
                "connection"@,
                "keep-alive"@,
            )
        },
        chunked <==> field_lists(response@.headers, "transfer-encoding"@, "chunked"@),
{
    law_closing_and_chunked(response@);
}

/// When the connection ends with a response, and when its body is chunked, by its fields.
pub proof fn law_closing_and_chunked(response: ResponseHeadView)
    ensures
        response.closes() <==> {
            ||| field_lists(response.headers, "connection"@, "close"@)
            ||| response.version == 0 && !field_lists(
                response.headers,
                "connection"@,
                "keep-alive"@,
            )
        },
        response.chunked() <==> field_lists(response.headers, "transfer-encoding"@, "chunked"@),
{
    lemma_field_lists(response.headers, "connection"@, "close"@);
    lemma_field_lists(response.headers, "connection"@, "keep-alive"@);
    lemma_field_lists(response.headers, "transfer-encoding"@, "chunked"@);
}

/// A length is a decimal number that the machine can hold, with nothing but white space around it,
/// and every such text is one.
pub proof fn law_lengths_are_numbers(
    front: Seq<char>,
    digits: Seq<char>,
    back: Seq<char>,
    n: int,
)
    requires
        crate::text::blank(front),
        crate::text::blank(back),
        crate::text::bare(digits),
    ensures
        length_of(encode_utf8(front + digits + back)) == match crate::number::parsed(
            digits,
            10,
            usize::MAX as int,
        ) {
            Ok(length) => Some(length),
            Err(_) => None,
        },
        0 <= n <= usize::MAX ==> length_of(encode_utf8(crate::number::decimal(n as nat))) == Some(n),
{
    let text = front + digits + back;
    encode_utf8_valid_utf8(text);
    encode_utf8_decode_utf8(text);
    crate::text::law_trim_cuts_white_space(front, digits, back);
    if 0 <= n <= usize::MAX {
        let written = crate::number::decimal(n as nat);
        crate::number::lemma_decimal_digits(n as nat);
        crate::number::law_decimal_round_trip(n as nat, usize::MAX as int);
        encode_utf8_valid_utf8(written);
        encode_utf8_decode_utf8(written);
        assert('0' <= written[0] <= '9');
        assert('0' <= written[written.len() - 1] <= '9');
        assert(Seq::<char>::empty() + written + Seq::<char>::empty() == written);
        crate::text::law_trim_cuts_white_space(Seq::empty(), written, Seq::empty());
    }
}

/// What is wrong with value `i` of the lengths, given that nothing is wrong with those before it:
/// it is no length, or another than the first.
pub open spec fn length_fault(values: Seq<Seq<u8>>, i: int) -> Option<HttpError> {
    if length_of(values[i]) is None {
        Some(HttpError::InvalidContentLength)
    } else if length_of(values[i]) != length_of(values[0]) {
        Some(HttpError::ConflictingContentLength)
    } else {
        None
    }
}

/// Without a `Content-Length` there is no length. If all that there are give the same length, it is
/// that one. Else it is the first that is no length, or another than the first, that counts.
pub proof fn law_lengths_have_to_agree(values: Seq<Seq<u8>>, i: int)
    ensures
        agreed_length(Seq::empty()) == Ok::<Option<int>, HttpError>(None),
        values.len() > 0 && (forall|j: int|
            0 <= j < values.len() ==> #[trigger] length_fault(values, j) is None) ==> agreed_length(
            values,
        ) == Ok::<Option<int>, HttpError>(length_of(values[0])),
        0 <= i < values.len() && length_fault(values, i) is Some && (forall|j: int|
            0 <= j < i ==> #[trigger] length_fault(values, j) is None) ==> agreed_length(values)
            == Err::<Option<int>, HttpError>(length_fault(values, i)->0),
    decreases values.len(),
{
    if values.len() > 0 {
        let front = values.drop_last();
        assert forall|j: int| 0 <= j < front.len() implies #[trigger] length_fault(values, j)
            == length_fault(front, j) by {
            assert(front[j] == values[j]);
        }
        law_lengths_have_to_agree(front, i);
        let n = values.len() - 1;
        if forall|j: int| 0 <= j < n ==> #[trigger] length_fault(values, j) is None {
            assert forall|j: int| 0 <= j < front.len() implies #[trigger] length_fault(
                front,
                j,
            ) is None by {
                assert(length_fault(values, j) is None);
            }
            if n == 0 {
                assert(front == Seq::<Seq<u8>>::empty());
            }
            assert(length_fault(values, n) is None || length_fault(values, n) is Some);
        }
        if 0 <= i < n && length_fault(values, i) is Some && (forall|j: int|
            0 <= j < i ==> #[trigger] length_fault(values, j) is None) {
            assert forall|j: int| 0 <= j < i implies #[trigger] length_fault(front, j) is None by {
                assert(length_fault(values, j) is None);
            }
            assert(length_fault(front, i) == length_fault(values, i));
        }
    }
}

/// The announced length of a body is that on which its `Content-Length` fields agree.
pub proof fn law_announced_length(response: &ResponseHead, length: Result<Option<usize>, HttpError>)
    requires
        call_ensures(ResponseHead::content_length, (response,), length),
    ensures
        ({
            let agreed = agreed_length(values_named(response@.headers, "content-length"@));
            &&& response@.announced_length() == agreed
            &&& match length {
                Ok(None) => agreed == Ok::<Option<int>, HttpError>(None),
                Ok(Some(n)) => agreed == Ok::<Option<int>, HttpError>(Some(n as int)),
                Err(error) => agreed == Err::<Option<int>, HttpError>(error),
            }
        }),
{
}

/// A request needs a method and a target, and a response a version and a status; with these they are
/// complete, and what the parser refused stays refused.
pub proof fn law_heads_are_completed(
    request: Result<ParsedRequest, MalformedHead>,
    head: Result<RequestHead, HttpError>,
    response: Result<ParsedResponse, MalformedHead>,
    other: Result<ResponseHead, HttpError>,
    bytes: &[u8],
    read: Result<ResponseHead, HttpError>,
)
    requires
        call_ensures(request_head, (request,), head),
        call_ensures(response_head, (response,), other),
        call_ensures(parse_response_head, (bytes,), read),
    ensures
        match request {
            Ok(ParsedRequest { method: Some(method), target: Some(target) }) => head matches Ok(h)
                && h.method@ == method@ && h.target@ == target@,
            Ok(_) => head == Err::<RequestHead, HttpError>(HttpError::MissingRequestFields),
            Err(fault) => head == Err::<RequestHead, HttpError>(HttpError::Parse(fault)),
        },
        match response {
            Ok(ParsedResponse { version: Some(version), status: Some(status), headers }) =>
                other matches Ok(h) && h.version == version && h.status == status && fields(
                h.headers@,
            ) == fields(headers@),
            Ok(_) => other == Err::<ResponseHead, HttpError>(HttpError::MissingRequestFields),
            Err(fault) => other == Err::<ResponseHead, HttpError>(HttpError::Parse(fault)),
        },
        match read_response(bytes@) {
            Ok(head) => read matches Ok(h) && h@ == head,
            Err(error) => read == Err::<ResponseHead, HttpError>(error),
        },
{
}

/// Each fault of a head is described in its own words.
pub proof fn law_malformed_heads_are_described(error: &MalformedHead, text: String)
    requires
        call_ensures(MalformedHead::to_string, (error,), text),
    ensures
        text@ == match error {
            MalformedHead::HeaderName => "invalid header name"@,
            MalformedHead::HeaderValue => "invalid header value"@,
            MalformedHead::NewLine => "invalid new line"@,
            MalformedHead::Status => "invalid response status"@,
            MalformedHead::Token => "invalid token"@,
            MalformedHead::TooManyHeaders => "too many headers"@,
            MalformedHead::Version => "invalid HTTP version"@,
        },
{
}

/// Each fault of a message is described in its own words, with what came with it.
pub proof fn law_http_errors_are_described(error: &HttpError, text: String)
    requires
        call_ensures(HttpError::to_string, (error,), text),
    ensures
        text@ == match error {
            HttpError::Io(text) => "I/O error: "@ + text@,
            HttpError::UnexpectedEof => "connection closed before the HTTP headers were complete"@,
            HttpError::HeaderTooLarge => "HTTP headers exceed the configured limit"@,
            HttpError::Parse(error) => "malformed HTTP message: "@ + error.message_text(),
            HttpError::MissingRequestFields => "HTTP message is missing required request fields"@,
            HttpError::InvalidHeaderText => "HTTP header contains invalid UTF-8"@,
            HttpError::InvalidContentLength => "invalid Content-Length header"@,
            HttpError::ConflictingContentLength => "response contains conflicting Content-Length headers"@,
            HttpError::InvalidChunkedBody => "malformed chunked response body"@,
        },
{
}

/// The values that a response has under a name are those of its fields with that name.
pub proof fn law_header_values<'a>(response: &'a ResponseHead, name: &str, values: Vec<&'a [u8]>)
    requires
        call_ensures(ResponseHead::header_values, (response, name), values),
    ensures
        values@.len() == values_named(response@.headers, name@).len(),
        forall|i: int|
            0 <= i < values@.len() ==> (#[trigger] values@[i])@ == values_named(
                response@.headers,
                name@,
            )[i],
{
    assert(slice_views(values@).len() == values@.len());
    assert forall|i: int| 0 <= i < values@.len() implies (#[trigger] values@[i])@ == values_named(
        response@.headers,
        name@,
    )[i] by {
        assert(slice_views(values@)[i] == values@[i]@);
    }
}

} // verus!
