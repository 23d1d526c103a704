//! What a proxy is told at start: endpoints, authentication and limits.

use core::str::FromStr;
use vstd::prelude::*;
use vstd::string::*;

use crate::address::IpAddress;
use crate::number::{parse_number, push_decimal, NumberError};
use crate::text::{characters, find};

verus! {

/// Upstream authentication behavior.
#[derive(Clone, Copy, Debug, PartialEq, Eq, Structural)]
pub enum AuthMode {
    /// Prefer Negotiate and fall back to NTLM based on the proxy challenge.
    Auto,
    /// Require the Negotiate authentication scheme.
    Negotiate,
    /// Require the NTLM authentication scheme.
    Ntlm,
    /// Forward CONNECT without upstream authentication.
    Disabled,
}

impl Default for AuthMode {
    fn default() -> (mode: Self)
        ensures
            mode == AuthMode::Auto,
    {
        AuthMode::Auto
    }
}

/// A `host:port` endpoint.
#[derive(Debug, Eq, Hash, PartialEq)]
pub struct Endpoint {
    host: String,
    port: u16,
}

/// An endpoint is its host and its port.
impl View for Endpoint {
    type V = (Seq<char>, u16);

    closed spec fn view(&self) -> (Seq<char>, u16) {
        (self.host@, self.port)
    }
}

impl Clone for Endpoint {
    fn clone(&self) -> (copy: Self)
        ensures
            copy == *self,
    {
        Self { host: self.host.clone(), port: self.port }
    }
}

/// Why a text is not an endpoint.
#[derive(Clone, Copy, Debug, PartialEq, Eq, Structural)]
pub enum EndpointParseError {
    Empty,
    EmptyHost,
    InvalidHost,
    MissingPort,
    UnbracketedIpv6,
    InvalidIpv6,
    ZeroPort,
    InvalidPort(NumberError),
}

/// The characters that no host may hold: ASCII white space, `/` and `@`.
pub open spec fn forbidden_in_host(c: char) -> bool {
    c == ' ' || c == '\t' || c == '\n' || c as u32 == 0xc || c == '\r' || c == '/' || c == '@'
}

/// Whether `s` holds the character `c`.
pub open spec fn has_char(s: Seq<char>, c: char) -> bool {
    crate::text::first_index(s, c) < s.len()
}

/// Where an endpoint divides into host and port: behind the brackets if it begins with one, else
/// at its only colon.
pub open spec fn divided_endpoint(s: Seq<char>) -> Result<
    (Seq<char>, Seq<char>),
    EndpointParseError,
> {
    if s.len() > 0 && s[0] == '[' {
        let inner = s.drop_first();
        let closing = crate::text::first_index(inner, ']');
        let suffix = inner.skip(closing + 1);
        if closing == inner.len() {
            Err(EndpointParseError::InvalidIpv6)
        } else if suffix.len() > 0 && suffix[0] == ':' {
            Ok((inner.take(closing), suffix.drop_first()))
        } else {
            Err(EndpointParseError::MissingPort)
        }
    } else {
        let colon = crate::text::first_index(s, ':');
        let port = s.skip(colon + 1);
        if colon == s.len() {
            Err(EndpointParseError::MissingPort)
        } else if has_char(port, ':') {
            Err(EndpointParseError::UnbracketedIpv6)
        } else {
            Ok((s.take(colon), port))
        }
    }
}

/// What a host and the text of a port come to.
pub open spec fn checked_endpoint(host: Seq<char>, port: Seq<char>) -> Result<
    (Seq<char>, u16),
    EndpointParseError,
> {
    if host.len() == 0 {
        Err(EndpointParseError::EmptyHost)
    } else if exists|i: int| 0 <= i < host.len() && forbidden_in_host(#[trigger] host[i]) {
        Err(EndpointParseError::InvalidHost)
    } else {
        match crate::number::parsed(port, 10, 0xffff) {
            Err(error) => Err(EndpointParseError::InvalidPort(error)),
            Ok(number) => if number == 0 {
                Err(EndpointParseError::ZeroPort)
            } else {
                Ok((host, number as u16))
            },
        }
    }
}

/// What reading `s` as an endpoint comes to.
pub open spec fn parsed_endpoint(s: Seq<char>) -> Result<(Seq<char>, u16), EndpointParseError> {
    if s.len() == 0 {
        Err(EndpointParseError::Empty)
    } else {
        match divided_endpoint(s) {
            Err(error) => Err(error),
            Ok((host, port)) => checked_endpoint(host, port),
        }
    }
}

/// The text of an endpoint, with brackets around a host that holds a colon.
pub open spec fn endpoint_text(endpoint: (Seq<char>, u16)) -> Seq<char> {
    let (host, port) = endpoint;
    if has_char(host, ':') {
        "["@ + host + "]:"@ + crate::number::decimal(port as nat)
    } else {
        host + ":"@ + crate::number::decimal(port as nat)
    }
}

/// Looks for a character that no host may hold.
fn holds_forbidden(host: &[char]) -> (answer: bool)
    ensures
        answer == exists|i: int| 0 <= i < host@.len() && forbidden_in_host(#[trigger] host@[i]),
{
    for i in 0..host.len()
        invariant
            forall|j: int| 0 <= j < i ==> !forbidden_in_host(#[trigger] host@[j]),
    {
        let c = host[i];
        if c == ' ' || c == '\t' || c == '\n' || c as u32 == 0xc || c == '\r' || c == '/' || c
            == '@' {
            assert(forbidden_in_host(host@[i as int]));
            return true;
        }
    }
    false
}

impl Endpoint {
    /// An endpoint with the given host and port, neither of which is checked.
    #[must_use]
    pub fn new(host: String, port: u16) -> (endpoint: Self)
        ensures
            endpoint@ == (host@, port),
    {
        Self { host, port }
    }

    /// The host.
    #[must_use]
    pub fn host(&self) -> (host: &str)
        ensures
            host@ == self@.0,
    {
        self.host.as_str()
    }

    /// The port.
    #[must_use]
    pub fn port(&self) -> (port: u16)
        ensures
            port == self@.1,
    {
        self.port
    }

    /// Writes the endpoint as text.
    pub fn to_string(&self) -> (text: String)
        ensures
            text@ == endpoint_text(self@),
    {
        let host = characters(self.host.as_str());
        let mut text = String::new();
        if find(host.as_slice(), ':') < host.len() {
            text.append("[");
            text.append(self.host.as_str());
            text.append("]:");
        } else {
            text.append(self.host.as_str());
            text.append(":");
        }
        push_decimal(&mut text, self.port as u64);
        assert(text@ == endpoint_text(self@));
        text
    }
}

impl FromStr for Endpoint {
    type Err = EndpointParseError;

    /// Reads an endpoint.
    fn from_str(input: &str) -> (endpoint: Result<Self, EndpointParseError>)
        ensures
            match endpoint {
                Ok(e) => parsed_endpoint(input@) == Ok::<(Seq<char>, u16), EndpointParseError>(e@),
                Err(e) => parsed_endpoint(input@) == Err::<(Seq<char>, u16), EndpointParseError>(e),
            },
    {
        let chars = characters(input);
        if chars.len() == 0 {
            return Err(EndpointParseError::Empty);
        }
        let length: usize = chars.len();
        let host_start: usize;
        let host_end: usize;
        let port_start: usize;
        if chars[0] == '[' {
            let inner = vstd::slice::slice_subrange(chars.as_slice(), 1, length);
            assert(inner@ == input@.drop_first());
            let closing = find(inner, ']');
            if closing == inner.len() {
                return Err(EndpointParseError::InvalidIpv6);
            }
            assert(input@.drop_first().skip(closing + 1) == input@.skip(closing + 2));
            if closing + 2 == length || chars[closing + 2] != ':' {
                return Err(EndpointParseError::MissingPort);
            }
            host_start = 1;
            host_end = closing + 1;
            port_start = closing + 3;
            assert(input@.subrange(1, closing + 1) == inner@.take(closing as int));
            assert(input@.skip(closing + 3) == input@.skip(closing + 2).drop_first());
        } else {
            let colon = find(chars.as_slice(), ':');
            if colon == length {
                return Err(EndpointParseError::MissingPort);
            }
            let port = vstd::slice::slice_subrange(chars.as_slice(), colon + 1, length);
            assert(port@ == input@.skip(colon + 1));
            if find(port, ':') < port.len() {
                return Err(EndpointParseError::UnbracketedIpv6);
            }
            host_start = 0;
            host_end = colon;
            port_start = colon + 1;
            assert(input@.subrange(0, colon as int) == input@.take(colon as int));
        }
        let host = vstd::slice::slice_subrange(chars.as_slice(), host_start, host_end);
        let port = vstd::slice::slice_subrange(chars.as_slice(), port_start, length);
        assert(port@ == input@.skip(port_start as int));
        assert(divided_endpoint(input@) == Ok::<(Seq<char>, Seq<char>), EndpointParseError>(
            (host@, port@),
        ));
        if host.len() == 0 {
            return Err(EndpointParseError::EmptyHost);
        }
        if holds_forbidden(host) {
            return Err(EndpointParseError::InvalidHost);
        }
        match parse_number(port, 10, 0xffff) {
            Err(error) => Err(EndpointParseError::InvalidPort(error)),
            Ok(number) => {
                if number == 0 {
                    return Err(EndpointParseError::ZeroPort);
                }
                Ok(Endpoint::new(input.substring_char(host_start, host_end).to_owned(), number as u16))
            },
        }
    }
}

impl EndpointParseError {
    /// Describes the error.
    pub fn to_string(&self) -> (text: String)
        ensures
            text@ == self.message_text(),
    {
        match self {
            EndpointParseError::Empty => "endpoint is empty".to_owned(),
            EndpointParseError::EmptyHost => "endpoint host is empty".to_owned(),
            EndpointParseError::InvalidHost => {
                "endpoint host contains invalid characters".to_owned()
            },
            EndpointParseError::MissingPort => "endpoint is missing a port".to_owned(),
            EndpointParseError::UnbracketedIpv6 => {
                "IPv6 addresses must be enclosed in brackets".to_owned()
            },
            EndpointParseError::InvalidIpv6 => "invalid bracketed IPv6 endpoint".to_owned(),
            EndpointParseError::ZeroPort => "port must not be zero".to_owned(),
            EndpointParseError::InvalidPort(error) => {
                "invalid port: ".to_owned().concat(error.message())
            },
        }
    }

    /// The text that describes the error.
    pub open spec fn message_text(&self) -> Seq<char> {
        match self {
            EndpointParseError::Empty => "endpoint is empty"@,
            EndpointParseError::EmptyHost => "endpoint host is empty"@,
            EndpointParseError::InvalidHost => "endpoint host contains invalid characters"@,
            EndpointParseError::MissingPort => "endpoint is missing a port"@,
            EndpointParseError::UnbracketedIpv6 => "IPv6 addresses must be enclosed in brackets"@,
            EndpointParseError::InvalidIpv6 => "invalid bracketed IPv6 endpoint"@,
            EndpointParseError::ZeroPort => "port must not be zero"@,
            EndpointParseError::InvalidPort(error) => "invalid port: "@ + error.message_text(),
        }
    }
}

/// A host and a port that stand for a destination: a host that is not empty and holds none of the
/// forbidden characters, and a port other than zero.
pub open spec fn valid_endpoint(endpoint: (Seq<char>, u16)) -> bool {
    &&& endpoint.0.len() > 0
    &&& forall|i: int| 0 <= i < endpoint.0.len() ==> !forbidden_in_host(#[trigger] endpoint.0[i])
    &&& endpoint.1 != 0
}

/// A host whose written form reads back: one with a colon holds no closing bracket, and one
/// without does not begin with an opening bracket.
pub open spec fn writable_host(host: Seq<char>) -> bool {
    if has_char(host, ':') {
        !has_char(host, ']')
    } else {
        host.len() > 0 ==> host[0] != '['
    }
}

/// `has_char` is membership.
pub proof fn lemma_has_char(s: Seq<char>, c: char)
    ensures
        has_char(s, c) <==> exists|i: int| 0 <= i < s.len() && #[trigger] s[i] == c,
{
    crate::text::lemma_first_index(s, c);
}

/// Every endpoint that is read is valid. Its host, if it holds a colon, holds no closing bracket.
pub proof fn law_parsed_endpoint_is_valid(s: Seq<char>)
    requires
        parsed_endpoint(s) is Ok,
    ensures
        valid_endpoint(parsed_endpoint(s)->Ok_0),
        has_char(parsed_endpoint(s)->Ok_0.0, ':') ==> !has_char(parsed_endpoint(s)->Ok_0.0, ']'),
{
    let host = parsed_endpoint(s)->Ok_0.0;
    if s[0] == '[' {
        let inner = s.drop_first();
        crate::text::lemma_first_index(inner, ']');
        lemma_has_char(host, ']');
    } else {
        crate::text::lemma_first_index(s, ':');
        lemma_has_char(host, ':');
    }
    let port = divided_endpoint(s)->Ok_0.1;
    assert(crate::number::parsed(port, 10, 0xffff) is Ok);
    crate::number::lemma_parsed_range(port, 10, 0xffff);
}

/// Reading a written endpoint gives the endpoint back.
pub proof fn law_endpoint_round_trip(endpoint: (Seq<char>, u16))
    requires
        valid_endpoint(endpoint),
        writable_host(endpoint.0),
    ensures
        parsed_endpoint(endpoint_text(endpoint)) == Ok::<(Seq<char>, u16), EndpointParseError>(
            endpoint,
        ),
{
    let (host, port) = endpoint;
    let digits = crate::number::decimal(port as nat);
    let s = endpoint_text(endpoint);
    crate::number::law_decimal_round_trip(port as nat, 0xffff);
    crate::number::lemma_decimal_digits(port as nat);
    lemma_has_char(host, ':');
    lemma_has_char(digits, ':');
    if has_char(host, ':') {
        reveal_strlit("[");
        reveal_strlit("]:");
        lemma_has_char(host, ']');
        let inner = s.drop_first();
        assert(s[0] == '[');
        assert forall|i: int| 0 <= i < host.len() implies inner[i] == host[i] by {}
        crate::text::lemma_first_index_unique(inner, ']', host.len() as int);
        assert(inner.take(host.len() as int) == host);
        assert(inner.skip(host.len() as int + 1)[0] == ':');
        assert(inner.skip(host.len() as int + 1).drop_first() == digits);
    } else {
        reveal_strlit(":");
        assert forall|i: int| 0 <= i < host.len() implies s[i] == host[i] by {}
        crate::text::lemma_first_index_unique(s, ':', host.len() as int);
        assert(s.take(host.len() as int) == host);
        assert(s.skip(host.len() as int + 1) == digits);
    }
}

/// Whether a host holds one of the characters that it must not: space, tab, line feed, form feed,
/// carriage return, slash and at sign.
pub open spec fn spoiled(host: Seq<char>) -> bool {
    exists|i: int|
        0 <= i < host.len() && seq![' ', '\t', '\n', '\u{c}', '\r', '/', '@'].contains(
            #[trigger] host[i],
        )
}

/// What a host and the text of a port have to come to.
pub open spec fn host_and_port(host: Seq<char>, port: Seq<char>) -> Result<
    (Seq<char>, u16),
    EndpointParseError,
> {
    let number = crate::number::parsed(port, 10, 65535);
    if host.len() == 0 {
        Err(EndpointParseError::EmptyHost)
    } else if spoiled(host) {
        Err(EndpointParseError::InvalidHost)
    } else if number is Err {
        Err(EndpointParseError::InvalidPort(number->Err_0))
    } else if number->Ok_0 == 0 {
        Err(EndpointParseError::ZeroPort)
    } else {
        Ok((host, number->Ok_0 as u16))
    }
}

/// A host is refused for the characters of the list and for no others.
proof fn lemma_spoiled(host: Seq<char>)
    ensures
        spoiled(host) <==> exists|i: int|
            0 <= i < host.len() && forbidden_in_host(#[trigger] host[i]),
{
    let list = seq![' ', '\t', '\n', '\u{c}', '\r', '/', '@'];
    assert forall|c: char| #[trigger] list.contains(c) == forbidden_in_host(c) by {
        assert(list[0] == ' ' && list[1] == '\t' && list[2] == '\n' && list[3] == '\u{c}' && list[4]
            == '\r' && list[5] == '/' && list[6] == '@');
        if forbidden_in_host(c) && c != ' ' && c != '\t' && c != '\n' && c != '\r' && c != '/' && c
            != '@' {
            vstd::utf8::char_u32_cast(c, 0xc);
            assert(c == '\u{c}');
        }
    }
    if spoiled(host) {
        let i = choose|i: int| 0 <= i < host.len() && list.contains(#[trigger] host[i]);
        assert(forbidden_in_host(host[i]));
    }
    if exists|i: int| 0 <= i < host.len() && forbidden_in_host(#[trigger] host[i]) {
        let i = choose|i: int| 0 <= i < host.len() && forbidden_in_host(#[trigger] host[i]);
        assert(list.contains(host[i]));
    }
}

/// A host without a colon, a colon and a port without one are an endpoint: any host that is not
/// empty and holds none of seven characters, and any port from 1 to 65535. What is wrong with
/// others is told apart.
pub proof fn law_plain_endpoint(host: Seq<char>, port: Seq<char>)
    requires
        crate::text::lacks(host, ':'),
        crate::text::lacks(port, ':'),
        host.len() > 0 ==> host[0] != '[',
    ensures
        parsed_endpoint(host + seq![':'] + port) == host_and_port(host, port),
{
    let s = host + seq![':'] + port;
    let n = host.len() as int;
    assert forall|i: int| 0 <= i < n implies s[i] != ':' by {
        assert(s[i] == host[i]);
    }
    assert(s[n] == ':');
    crate::text::lemma_first_index_unique(s, ':', n);
    assert(s.take(n) == host);
    assert(s.skip(n + 1) == port);
    lemma_has_char(port, ':');
    lemma_spoiled(host);
    assert(s[0] != '[');
    if crate::number::parsed(port, 10, 65535) is Ok {
        crate::number::lemma_parsed_range(port, 10, 65535);
    }
}

/// The same holds of a host in brackets, which may hold colons.
pub proof fn law_bracketed_endpoint(host: Seq<char>, port: Seq<char>)
    requires
        crate::text::lacks(host, ']'),
    ensures
        parsed_endpoint(seq!['['] + host + seq![']', ':'] + port) == host_and_port(host, port),
{
    let s = seq!['['] + host + seq![']', ':'] + port;
    let n = host.len() as int;
    let inner = s.drop_first();
    assert forall|i: int| 0 <= i < n implies inner[i] != ']' by {
        assert(inner[i] == host[i]);
    }
    assert(inner[n] == ']');
    crate::text::lemma_first_index_unique(inner, ']', n);
    assert(inner.take(n) == host);
    assert(inner.skip(n + 1)[0] == ':');
    assert(inner.skip(n + 1).drop_first() == port);
    lemma_spoiled(host);
    if crate::number::parsed(port, 10, 65535) is Ok {
        crate::number::lemma_parsed_range(port, 10, 65535);
    }
}

/// Texts of any other form are no endpoints: the empty text, a text without a colon, one with
/// several and no brackets, an opening bracket without a closing one, and brackets without a colon
/// behind them.
pub proof fn law_other_texts_are_no_endpoints(s: Seq<char>, host: Seq<char>, rest: Seq<char>)
    ensures
        parsed_endpoint(Seq::empty()) == Err::<(Seq<char>, u16), EndpointParseError>(
            EndpointParseError::Empty,
        ),
        s.len() > 0 && s[0] != '[' && crate::text::lacks(s, ':') ==> parsed_endpoint(s) == Err::<
            (Seq<char>, u16),
            EndpointParseError,
        >(EndpointParseError::MissingPort),
        s.len() > 0 && s[0] != '[' && (exists|i: int, j: int|
            0 <= i < j < s.len() && #[trigger] s[i] == ':' && #[trigger] s[j] == ':')
            ==> parsed_endpoint(s) == Err::<(Seq<char>, u16), EndpointParseError>(
            EndpointParseError::UnbracketedIpv6,
        ),
        crate::text::lacks(s, ']') ==> parsed_endpoint(seq!['['] + s) == Err::<
            (Seq<char>, u16),
            EndpointParseError,
        >(EndpointParseError::InvalidIpv6),
        crate::text::lacks(host, ']') && (rest.len() > 0 ==> rest[0] != ':') ==> parsed_endpoint(
            seq!['['] + host + seq![']'] + rest,
        ) == Err::<(Seq<char>, u16), EndpointParseError>(EndpointParseError::MissingPort),
{
    crate::text::lemma_first_index(s, ':');
    if s.len() > 0 && s[0] != '[' && (exists|i: int, j: int|
        0 <= i < j < s.len() && #[trigger] s[i] == ':' && #[trigger] s[j] == ':') {
        let (i, j) = choose|i: int, j: int|
            0 <= i < j < s.len() && #[trigger] s[i] == ':' && #[trigger] s[j] == ':';
        let colon = crate::text::first_index(s, ':');
        let port = s.skip(colon + 1);
        assert(colon <= i);
        assert(port[j - colon - 1] == ':');
        lemma_has_char(port, ':');
    }
    assert((seq!['['] + s).drop_first() == s);
    crate::text::lemma_first_index(s, ']');
    if crate::text::lacks(host, ']') && (rest.len() > 0 ==> rest[0] != ':') {
        let text = seq!['['] + host + seq![']'] + rest;
        let inner = text.drop_first();
        let n = host.len() as int;
        assert forall|i: int| 0 <= i < n implies inner[i] != ']' by {
            assert(inner[i] == host[i]);
        }
        assert(inner[n] == ']');
        crate::text::lemma_first_index_unique(inner, ']', n);
        assert(inner.skip(n + 1) == rest);
    }
}

/// Any host of ordinary characters with any port from 1 to 65535 behind a colon is read as just
/// that host and that port.
pub proof fn law_ordinary_hosts_are_read(host: Seq<char>, port: u16)
    requires
        host.len() > 0,
        forall|i: int|
            0 <= i < host.len() ==> ![
                ':',
                '[',
                ']',
                ' ',
                '\t',
                '\n',
                '\u{c}',
                '\r',
                '/',
                '@',
            ]@.contains(#[trigger] host[i]),
        1 <= port <= 65535,
    ensures
        parsed_endpoint(host + seq![':'] + crate::number::decimal(port as nat)) == Ok::<
            (Seq<char>, u16),
            EndpointParseError,
        >((host, port)),
{
    let digits = crate::number::decimal(port as nat);
    crate::number::law_decimal_round_trip(port as nat, 65535);
    crate::number::lemma_decimal_digits(port as nat);
    let list = [':', '[', ']', ' ', '\t', '\n', '\u{c}', '\r', '/', '@']@;
    assert(list[0] == ':' && list[1] == '[' && list[3] == ' ' && list[4] == '\t' && list[5] == '\n'
        && list[6] == '\u{c}' && list[7] == '\r' && list[8] == '/' && list[9] == '@');
    assert forall|i: int| 0 <= i < host.len() implies #[trigger] host[i] != ':' && host[i] != '['
        && !forbidden_in_host(host[i]) by {
        assert(!list.contains(host[i]));
        if forbidden_in_host(host[i]) {
            vstd::utf8::char_u32_cast(host[i], 0xc);
            assert(host[i] as u32 == 0xc ==> host[i] == '\u{c}');
        }
    }
    lemma_spoiled(host);
    law_plain_endpoint(host, digits);
}

/// An endpoint is written as its host, a colon and its port in decimal digits, with brackets around
/// the host exactly if that holds a colon.
pub proof fn law_endpoint_is_written(endpoint: &Endpoint, text: String)
    requires
        call_ensures(Endpoint::to_string, (endpoint,), text),
    ensures
        text@ == endpoint_text(endpoint@),
        ({
            let (host, port) = endpoint@;
            let digits = crate::number::decimal(port as nat);
            text@ == if crate::text::lacks(host, ':') {
                host + seq![':'] + digits
            } else {
                seq!['['] + host + seq![']', ':'] + digits
            }
        }),
{
    let (host, port) = endpoint@;
    let digits = crate::number::decimal(port as nat);
    lemma_has_char(host, ':');
    reveal_strlit("[");
    reveal_strlit("]:");
    reveal_strlit(":");
    assert(":"@ == seq![':']);
    assert("["@ == seq!['[']);
    assert("]:"@ == seq![']', ':']);
}

/// Endpoints hold what they are made of.
pub proof fn law_endpoint_holds_its_parts(
    host: String,
    port: u16,
    endpoint: Endpoint,
    given_host: &str,
    given_port: u16,
)
    requires
        call_ensures(Endpoint::new, (host, port), endpoint),
        call_ensures(Endpoint::host, (&endpoint,), given_host),
        call_ensures(Endpoint::port, (&endpoint,), given_port),
    ensures
        given_host@ == host@,
        given_port == port,
        endpoint@ == (host@, port),
{
}

/// An address and a port on which to listen. An IPv6 address has flow information and the number
/// of its scope besides.
#[derive(Clone, Copy, Debug, PartialEq, Eq, Structural)]
pub enum SocketAddress {
    V4 { ipv4: u32, port: u16 },
    V6 { ipv6: u128, port: u16, flow_info: u32, scope_id: u32 },
}

impl SocketAddress {
    /// The address.
    pub fn ip(&self) -> (address: IpAddress)
        ensures
            address == match *self {
                SocketAddress::V4 { ipv4, .. } => IpAddress::V4(ipv4),
                SocketAddress::V6 { ipv6, .. } => IpAddress::V6(ipv6),
            },
    {
        match *self {
            SocketAddress::V4 { ipv4, .. } => IpAddress::V4(ipv4),
            SocketAddress::V6 { ipv6, .. } => IpAddress::V6(ipv6),
        }
    }
}

/// Runtime settings for a proxy instance. Times are in nanoseconds.
#[derive(Debug)]
pub struct ProxyConfig {
    pub listen: SocketAddress,
    pub upstream: Endpoint,
    pub auth: AuthMode,
    pub connect_timeout: u128,
    pub idle_timeout: Option<u128>,
    pub max_header_bytes: usize,
    pub max_connections: usize,
}

impl Clone for ProxyConfig {
    fn clone(&self) -> (copy: Self)
        ensures
            copy == *self,
    {
        Self {
            listen: self.listen,
            upstream: self.upstream.clone(),
            auth: self.auth,
            connect_timeout: self.connect_timeout,
            idle_timeout: self.idle_timeout,
            max_header_bytes: self.max_header_bytes,
            max_connections: self.max_connections,
        }
    }
}

/// The settings as they are given on the command line.
#[derive(Debug)]
pub struct Settings {
    pub listen: SocketAddress,
    pub upstream: Endpoint,
    pub auth: AuthMode,
    pub connect_timeout_seconds: u64,
    pub idle_timeout_seconds: u64,
    pub max_header_bytes: usize,
    pub max_connections: usize,
}

/// Why settings are refused.
#[derive(Clone, Copy, Debug, PartialEq, Eq, Structural)]
pub enum SettingsError {
    HeaderLimitTooSmall,
    NoConnections,
    NoNativeCredentials,
}

impl SettingsError {
    /// Describes the error.
    pub fn message(&self) -> (text: &'static str)
        ensures
            text@ == self.message_text(),
    {
        match self {
            SettingsError::HeaderLimitTooSmall => "--max-header-bytes must be at least 1024",
            SettingsError::NoConnections => "--max-connections must be greater than zero",
            SettingsError::NoNativeCredentials => {
                "native SSPI requires Windows; use --auth none on this platform"
            },
        }
    }

    /// The text that describes the error.
    pub open spec fn message_text(&self) -> Seq<char> {
        match self {
            SettingsError::HeaderLimitTooSmall => "--max-header-bytes must be at least 1024"@,
            SettingsError::NoConnections => "--max-connections must be greater than zero"@,
            SettingsError::NoNativeCredentials => {
                "native SSPI requires Windows; use --auth none on this platform"@
            },
        }
    }
}

impl Settings {
    /// What is wrong with the settings, on a machine with native credentials or without.
    pub open spec fn fault(&self, native_credentials: bool) -> Option<SettingsError> {
        if self.max_header_bytes < 1024 {
            Some(SettingsError::HeaderLimitTooSmall)
        } else if self.max_connections == 0 {
            Some(SettingsError::NoConnections)
        } else if !native_credentials && self.auth != AuthMode::Disabled {
            Some(SettingsError::NoNativeCredentials)
        } else {
            None
        }
    }

    /// Checks the settings and makes a configuration of them. An idle timeout of zero seconds
    /// stands for none.
    ///
    /// # Errors
    ///
    /// Returns [`SettingsError`] if a limit is too small, or if native credentials are asked for
    /// and there are none.
    pub fn check(self, native_credentials: bool) -> (config: Result<ProxyConfig, SettingsError>)
        ensures
            match config {
                Err(error) => self.fault(native_credentials) == Some(error),
                Ok(c) => {
                    &&& self.fault(native_credentials) is None
                    &&& c.listen == self.listen
                    &&& c.upstream@ == self.upstream@
                    &&& c.auth == self.auth
                    &&& c.connect_timeout == self.connect_timeout_seconds * 1_000_000_000
                    &&& match c.idle_timeout {
                        Some(timeout) => timeout > 0 && timeout == self.idle_timeout_seconds
                            * 1_000_000_000,
                        None => self.idle_timeout_seconds == 0,
                    }
                    &&& c.max_header_bytes == self.max_header_bytes
                    &&& c.max_connections == self.max_connections
                },
            },
    {
        if self.max_header_bytes < 1024 {
            return Err(SettingsError::HeaderLimitTooSmall);
        }
        if self.max_connections == 0 {
            return Err(SettingsError::NoConnections);
        }
        if !native_credentials && self.auth != AuthMode::Disabled {
            return Err(SettingsError::NoNativeCredentials);
        }
        Ok(
            ProxyConfig {
                listen: self.listen,
                upstream: self.upstream,
                auth: self.auth,
                connect_timeout: self.connect_timeout_seconds as u128 * 1_000_000_000,
                idle_timeout: if self.idle_timeout_seconds == 0 {
                    None
                } else {
                    Some(self.idle_timeout_seconds as u128 * 1_000_000_000)
                },
                max_header_bytes: self.max_header_bytes,
                max_connections: self.max_connections,
            },
        )
    }
}

/// Settings are accepted exactly if heads may have 1024 bytes, a client can be served, and native
/// credentials are there or not asked for. They are then kept as they are, with times in seconds
/// taken as such, and no idle timeout if that is zero.
pub proof fn law_settings_are_kept(
    settings: Settings,
    native_credentials: bool,
    config: Result<ProxyConfig, SettingsError>,
)
    requires
        call_ensures(Settings::check, (settings, native_credentials), config),
    ensures
        ({
            let second = 1_000_000_000int;
            match config {
                Ok(c) => {
                    &&& settings.max_header_bytes >= 1024
                    &&& settings.max_connections >= 1
                    &&& native_credentials || settings.auth == AuthMode::Disabled
                    &&& c.listen == settings.listen
                    &&& c.upstream@ == settings.upstream@
                    &&& c.auth == settings.auth
                    &&& c.connect_timeout == settings.connect_timeout_seconds * second
                    &&& c.idle_timeout is None <==> settings.idle_timeout_seconds == 0
                    &&& c.idle_timeout matches Some(t) ==> t == settings.idle_timeout_seconds
                        * second
                    &&& c.max_header_bytes == settings.max_header_bytes
                    &&& c.max_connections == settings.max_connections
                },
                Err(SettingsError::HeaderLimitTooSmall) => settings.max_header_bytes < 1024,
                Err(SettingsError::NoConnections) => settings.max_header_bytes >= 1024
                    && settings.max_connections == 0,
                Err(SettingsError::NoNativeCredentials) => {
                    &&& settings.max_header_bytes >= 1024
                    &&& settings.max_connections >= 1
                    &&& !native_credentials
                    &&& settings.auth != AuthMode::Disabled
                },
            }
        }),
{
}

/// The address of a listener is that of its kind, and authentication is automatic by default.
pub proof fn law_listener_has_its_address(listen: &SocketAddress, address: IpAddress, mode: AuthMode)
    requires
        call_ensures(SocketAddress::ip, (listen,), address),
        call_ensures(<AuthMode as Default>::default, (), mode),
    ensures
        match *listen {
            SocketAddress::V4 { ipv4, .. } => address == IpAddress::V4(ipv4),
            SocketAddress::V6 { ipv6, .. } => address == IpAddress::V6(ipv6),
        },
        mode == AuthMode::Auto,
{
}

/// Each fault of an endpoint is described in its own words.
pub proof fn law_endpoint_errors_are_described(error: &EndpointParseError, text: String)
    requires
        call_ensures(EndpointParseError::to_string, (error,), text),
    ensures
        text@ == match error {
            EndpointParseError::Empty => "endpoint is empty"@,
            EndpointParseError::EmptyHost => "endpoint host is empty"@,
            EndpointParseError::InvalidHost => "endpoint host contains invalid characters"@,
            EndpointParseError::MissingPort => "endpoint is missing a port"@,
            EndpointParseError::UnbracketedIpv6 => "IPv6 addresses must be enclosed in brackets"@,
            EndpointParseError::InvalidIpv6 => "invalid bracketed IPv6 endpoint"@,
            EndpointParseError::ZeroPort => "port must not be zero"@,
            EndpointParseError::InvalidPort(error) => "invalid port: "@ + error.message_text(),
        },
{
}

/// Each fault of settings is described in its own words.
pub proof fn law_settings_errors_are_described(error: &SettingsError, text: &'static str)
    requires
        call_ensures(SettingsError::message, (error,), text),
    ensures
        text@ == match error {
            SettingsError::HeaderLimitTooSmall => "--max-header-bytes must be at least 1024"@,
            SettingsError::NoConnections => "--max-connections must be greater than zero"@,
            SettingsError::NoNativeCredentials => {
                "native SSPI requires Windows; use --auth none on this platform"@
            },
        },
{
}

} // verus!
