//! The parts of the loopback benchmark that compute: a mock upstream proxy and percentiles.

use vstd::prelude::*;
use vstd::string::*;
use vstd::utf8::*;

use crate::auth::{AuthContext, AuthError, AuthFactory, AuthScheme};
use crate::config::{AuthMode, Endpoint, ProxyConfig, SocketAddress};
use crate::http1::find_header_end;

verus! {

/// The largest head that the benchmark reads.
pub const HEAD_LIMIT: usize = 32768;

/// The number of bytes that the benchmark reads at once.
pub const HEAD_READ_SIZE: usize = 1024;

/// How far the benchmark has come with reading a head.
#[derive(Debug)]
pub enum HeadProgress {
    /// The head is complete, and these bytes are behind it.
    Complete(Vec<u8>),
    /// At most this many bytes are to be read next.
    Read(usize),
    /// The head exceeds the limit.
    TooLarge,
}

/// Why a benchmark fails.
#[derive(Clone, Copy, Debug, PartialEq, Eq, Structural)]
pub enum BenchError {
    NothingToDo,
    CountTooLarge,
    HeadTooLarge,
    UnexpectedEof,
    UnexpectedBytes,
    EchoMismatch,
}

impl BenchError {
    /// Describes the error.
    pub fn message(&self) -> (text: &'static str)
        ensures
            text@ == self.message_text(),
    {
        match self {
            BenchError::NothingToDo => "connections and concurrency must be greater than zero",
            BenchError::CountTooLarge => "connection count is too large to report",
            BenchError::HeadTooLarge => "HTTP head exceeds benchmark limit",
            BenchError::UnexpectedEof => "connection closed before HTTP head completed",
            BenchError::UnexpectedBytes => "unexpected bytes after CONNECT response",
            BenchError::EchoMismatch => "tunnel echo mismatch",
        }
    }

    /// The text that describes the error.
    pub open spec fn message_text(&self) -> Seq<char> {
        match self {
            BenchError::NothingToDo => "connections and concurrency must be greater than zero"@,
            BenchError::CountTooLarge => "connection count is too large to report"@,
            BenchError::HeadTooLarge => "HTTP head exceeds benchmark limit"@,
            BenchError::UnexpectedEof => "connection closed before HTTP head completed"@,
            BenchError::UnexpectedBytes => "unexpected bytes after CONNECT response"@,
            BenchError::EchoMismatch => "tunnel echo mismatch"@,
        }
    }
}

/// What a benchmark is told at start.
#[derive(Clone, Copy, Debug, PartialEq, Eq, Structural)]
pub struct BenchSettings {
    /// How many tunnels are opened in all.
    pub connections: usize,
    /// How many clients run at once.
    pub concurrency: usize,
    /// How many bytes go through each tunnel and back.
    pub payload_bytes: usize,
    /// Whether a handshake of two tokens comes before each tunnel.
    pub mock_ntlm: bool,
}

/// The byte of which a payload consists.
pub const PAYLOAD_BYTE: u8 = 0x5a;

/// Five seconds, in nanoseconds.
pub const BENCH_TIMEOUT: u128 = 5_000_000_000;

impl BenchSettings {
    /// Checks that there is something to do.
    ///
    /// # Errors
    ///
    /// Returns [`BenchError::NothingToDo`] if there are no tunnels to open or no clients.
    pub fn check(&self) -> (outcome: Result<(), BenchError>)
        ensures
            outcome == if self.connections == 0 || self.concurrency == 0 {
                Err::<(), BenchError>(BenchError::NothingToDo)
            } else {
                Ok::<(), BenchError>(())
            },
    {
        if self.connections == 0 || self.concurrency == 0 {
            Err(BenchError::NothingToDo)
        } else {
            Ok(())
        }
    }

    /// The configuration of the proxy under test: twice as many connections as there are clients,
    /// and NTLM exactly if there is a handshake.
    pub fn proxy_config(&self, listen: SocketAddress, upstream: Endpoint) -> (config: ProxyConfig)
        requires
            self.concurrency * 2 <= usize::MAX,
        ensures
            config == (ProxyConfig {
                listen,
                upstream,
                auth: if self.mock_ntlm {
                    AuthMode::Ntlm
                } else {
                    AuthMode::Disabled
                },
                connect_timeout: BENCH_TIMEOUT,
                idle_timeout: Some(BENCH_TIMEOUT),
                max_header_bytes: HEAD_LIMIT,
                max_connections: (self.concurrency * 2) as usize,
            }),
    {
        ProxyConfig {
            listen,
            upstream,
            auth: if self.mock_ntlm {
                AuthMode::Ntlm
            } else {
                AuthMode::Disabled
            },
            connect_timeout: BENCH_TIMEOUT,
            idle_timeout: Some(BENCH_TIMEOUT),
            max_header_bytes: HEAD_LIMIT,
            max_connections: self.concurrency * 2,
        }
    }

    /// What each client sends through its tunnel.
    pub fn payload(&self) -> (bytes: Vec<u8>)
        ensures
            bytes@ == Seq::new(self.payload_bytes as nat, |i: int| PAYLOAD_BYTE),
    {
        let mut bytes: Vec<u8> = Vec::new();
        for i in 0..self.payload_bytes
            invariant
                bytes@ == Seq::new(i as nat, |j: int| PAYLOAD_BYTE),
        {
            bytes.push(PAYLOAD_BYTE);
            assert(bytes@ == Seq::new((i + 1) as nat, |j: int| PAYLOAD_BYTE));
        }
        bytes
    }

    /// The number of tunnels, for the report.
    ///
    /// # Errors
    ///
    /// Returns [`BenchError::CountTooLarge`] if it needs more than 32 bits.
    pub fn reported_count(&self) -> (count: Result<u32, BenchError>)
        ensures
            count == if self.connections > u32::MAX {
                Err::<u32, BenchError>(BenchError::CountTooLarge)
            } else {
                Ok::<u32, BenchError>(self.connections as u32)
            },
    {
        if self.connections > u32::MAX as usize {
            Err(BenchError::CountTooLarge)
        } else {
            Ok(self.connections as u32)
        }
    }
}

/// The request of each client.
pub open spec fn client_request_text() -> Seq<char> {
    "CONNECT benchmark.test:443 HTTP/1.1\r\nHost: benchmark.test:443\r\n\r\n"@
}

/// The request of each client.
pub fn client_request() -> (request: &'static str)
    ensures
        request@ == client_request_text(),
{
    "CONNECT benchmark.test:443 HTTP/1.1\r\nHost: benchmark.test:443\r\n\r\n"
}

/// Checks that nothing came behind the response to a client.
///
/// # Errors
///
/// Returns [`BenchError::UnexpectedBytes`] if something did.
pub fn check_response(rest: &[u8]) -> (outcome: Result<(), BenchError>)
    ensures
        outcome == if rest@.len() == 0 {
            Ok::<(), BenchError>(())
        } else {
            Err::<(), BenchError>(BenchError::UnexpectedBytes)
        },
{
    if rest.len() == 0 {
        Ok(())
    } else {
        Err(BenchError::UnexpectedBytes)
    }
}

/// Checks that a client got back what it had sent.
///
/// # Errors
///
/// Returns [`BenchError::EchoMismatch`] if it did not.
pub fn check_echo(echoed: &[u8], payload: &[u8]) -> (outcome: Result<(), BenchError>)
    ensures
        outcome == if echoed@ == payload@ {
            Ok::<(), BenchError>(())
        } else {
            Err::<(), BenchError>(BenchError::EchoMismatch)
        },
{
    if echoed.len() != payload.len() {
        return Err(BenchError::EchoMismatch);
    }
    for i in 0..echoed.len()
        invariant
            echoed@.len() == payload@.len(),
            echoed@.take(i as int) == payload@.take(i as int),
    {
        if echoed[i] != payload[i] {
            return Err(BenchError::EchoMismatch);
        }
        assert(echoed@.take(i + 1) == echoed@.take(i as int).push(echoed@[i as int]));
        assert(payload@.take(i + 1) == payload@.take(i as int).push(payload@[i as int]));
    }
    assert(echoed@ == echoed@.take(echoed@.len() as int));
    assert(payload@ == payload@.take(payload@.len() as int));
    Ok(())
}

/// Looks for the end of a head in the bytes that have arrived so far.
pub fn read_head(bytes: &[u8]) -> (progress: HeadProgress)
    ensures
        match crate::http1::head_end(bytes@) {
            Some(end) => progress matches HeadProgress::Complete(rest) && rest@ == bytes@.skip(end),
            None => progress == if bytes@.len() >= HEAD_LIMIT {
                HeadProgress::TooLarge
            } else {
                HeadProgress::Read(HEAD_READ_SIZE)
            },
        },
{
    match find_header_end(bytes) {
        Some(end) => {
            let rest = vstd::slice::slice_subrange(bytes, end, bytes.len());
            assert(rest@ == bytes@.skip(end as int));
            HeadProgress::Complete(vstd::slice::slice_to_vec(rest))
        },
        None => if bytes.len() >= HEAD_LIMIT {
            HeadProgress::TooLarge
        } else {
            HeadProgress::Read(HEAD_READ_SIZE)
        },
    }
}

/// The answers of the mock upstream proxy, one to each request.
pub open spec fn reply_texts(mock_ntlm: bool) -> Seq<Seq<char>> {
    let established = "HTTP/1.1 200 Connection Established\r\n\r\n"@;
    if mock_ntlm {
        seq![
            "HTTP/1.1 407 Proxy Authentication Required\r\nProxy-Authenticate: NTLM\r\nContent-Length: 0\r\n\r\n"@,
            "HTTP/1.1 407 Proxy Authentication Required\r\nProxy-Authenticate: NTLM dHlwZTI=\r\nContent-Length: 0\r\n\r\n"@,
            established,
        ]
    } else {
        seq![established]
    }
}

/// The answers of the mock upstream proxy, one to each request: with a simulated NTLM handshake,
/// a challenge without a token and one with a token come first.
pub fn mock_replies(mock_ntlm: bool) -> (replies: Vec<&'static str>)
    ensures
        replies@.map_values(|reply: &str| reply@) == reply_texts(mock_ntlm),
{
    let mut replies: Vec<&'static str> = Vec::new();
    if mock_ntlm {
        replies.push(
            "HTTP/1.1 407 Proxy Authentication Required\r\nProxy-Authenticate: NTLM\r\nContent-Length: 0\r\n\r\n",
        );
        replies.push(
            "HTTP/1.1 407 Proxy Authentication Required\r\nProxy-Authenticate: NTLM dHlwZTI=\r\nContent-Length: 0\r\n\r\n",
        );
    }
    replies.push("HTTP/1.1 200 Connection Established\r\n\r\n");
    assert(replies@.map_values(|reply: &str| reply@) == reply_texts(mock_ntlm));
    replies
}

/// A provider of tokens without credentials.
#[derive(Debug)]
pub struct MockFactory;

/// A security context without credentials.
pub struct MockContext {
    started: bool,
}

impl MockContext {
    /// Whether a token has been made.
    pub closed spec fn has_started(&self) -> bool {
        self.started
    }

    /// The context that has made no token.
    pub closed spec fn fresh() -> MockContext {
        MockContext { started: false }
    }

    /// A context that has made no token.
    pub fn new() -> (context: Self)
        ensures
            context == MockContext::fresh(),
            !context.has_started(),
    {
        MockContext { started: false }
    }
}

impl AuthContext for MockContext {
    fn step(&mut self, _challenge: Option<&[u8]>) -> (token: Result<Vec<u8>, AuthError>)
        ensures
            final(self).has_started(),
            token matches Ok(t) && t@ == encode_utf8(
                if old(self).has_started() {
                    "type3"@
                } else {
                    "type1"@
                },
            ),
    {
        let text = if self.started {
            "type3"
        } else {
            "type1"
        };
        self.started = true;
        Ok(vstd::slice::slice_to_vec(text.as_bytes()))
    }
}

impl AuthFactory for MockFactory {
    fn create(&self, _scheme: AuthScheme, _target_name: &str) -> (context: Result<
        Box<dyn AuthContext>,
        AuthError,
    >)
        ensures
            ({
                let made: Box<dyn AuthContext> = Box::new(MockContext::fresh());
                &&& context == Ok::<Box<dyn AuthContext>, AuthError>(made)
                &&& !MockContext::fresh().has_started()
            }),
    {
        let made: Box<dyn AuthContext> = Box::new(MockContext::new());
        Ok(made)
    }
}

/// Where a percentile stands among `count` sorted values.
pub open spec fn percentile_index(count: int, rank: int) -> int {
    (count - 1) * rank / 100
}

/// The value at the given percentile of sorted values.
pub fn percentile(values: &[u128], rank: usize) -> (value: u128)
    requires
        values@.len() > 0,
        (values@.len() - 1) * rank <= usize::MAX,
        percentile_index(values@.len() as int, rank as int) < values@.len(),
    ensures
        value == values@[percentile_index(values@.len() as int, rank as int)],
{
    let index: usize = (values.len() - 1) * rank / 100;
    values[index]
}

/// A higher percentile of sorted values is no smaller.
pub proof fn law_percentiles_grow(values: Seq<u128>, lower: int, higher: int)
    requires
        values.len() > 0,
        forall|i: int, j: int| 0 <= i <= j < values.len() ==> values[i] <= values[j],
        0 <= lower <= higher <= 100,
    ensures
        0 <= percentile_index(values.len() as int, lower) <= percentile_index(
            values.len() as int,
            higher,
        ) < values.len(),
        values[percentile_index(values.len() as int, lower)]
            <= values[percentile_index(values.len() as int, higher)],
{
    let top = values.len() - 1;
    assert(0 <= top * lower <= top * higher <= top * 100) by (nonlinear_arith)
        requires
            0 <= top,
            0 <= lower <= higher <= 100,
    ;
}

/// A percentile is the last of the sorted values that has no more than that share of the others
/// below it.
pub proof fn law_percentile_is_of_its_rank(values: &[u128], rank: usize, value: u128)
    requires
        values@.len() > 0,
        (values@.len() - 1) * rank <= usize::MAX,
        rank <= 100,
        percentile_index(values@.len() as int, rank as int) < values@.len(),
        call_ensures(percentile, (values, rank), value),
    ensures
        exists|i: int|
            {
                &&& 0 <= i < values@.len()
                &&& #[trigger] values@[i] == value
                &&& 100 * i <= (values@.len() - 1) * rank < 100 * (i + 1)
            },
{
    let top = values@.len() - 1;
    let i = percentile_index(values@.len() as int, rank as int);
    assert(0 <= top * rank) by (nonlinear_arith)
        requires
            0 <= top,
            0 <= rank,
    ;
    assert(values@[i] == value);
}

/// A head that the benchmark reads is complete with its empty line, and what is behind it is left.
/// Without one, 1024 bytes are read at a time until there are 32768.
pub proof fn law_benchmark_reads_heads(bytes: &[u8], progress: HeadProgress)
    requires
        call_ensures(read_head, (bytes,), progress),
    ensures
        match crate::http1::head_end(bytes@) {
            Some(end) => progress matches HeadProgress::Complete(rest) && bytes@.take(end) + rest@
                == bytes@,
            None => if bytes@.len() < 32768 {
                progress == HeadProgress::Read(1024)
            } else {
                progress == HeadProgress::TooLarge
            },
        },
{
    crate::http1::lemma_first_match(bytes@, crate::http1::head_break());
    if let Some(end) = crate::http1::head_end(bytes@) {
        assert(bytes@.take(end) + bytes@.skip(end) == bytes@);
    }
}

/// The benchmark needs tunnels and clients, sends as many bytes as it is told, all of them 0x5a,
/// and reports a number of tunnels that 32 bits can hold.
pub proof fn law_benchmark_does_as_told(
    settings: &BenchSettings,
    checked: Result<(), BenchError>,
    bytes: Vec<u8>,
    count: Result<u32, BenchError>,
    listen: SocketAddress,
    upstream: Endpoint,
    config: ProxyConfig,
)
    requires
        settings.concurrency * 2 <= usize::MAX,
        call_ensures(BenchSettings::check, (settings,), checked),
        call_ensures(BenchSettings::payload, (settings,), bytes),
        call_ensures(BenchSettings::reported_count, (settings,), count),
        call_ensures(BenchSettings::proxy_config, (settings, listen, upstream), config),
    ensures
        checked is Ok <==> settings.connections > 0 && settings.concurrency > 0,
        checked matches Err(error) ==> error == BenchError::NothingToDo,
        bytes@.len() == settings.payload_bytes,
        forall|i: int| 0 <= i < bytes@.len() ==> #[trigger] bytes@[i] == 0x5a,
        settings.connections <= 0xffff_ffff ==> (count matches Ok(n) && n == settings.connections),
        settings.connections > 0xffff_ffff ==> count == Err::<u32, BenchError>(
            BenchError::CountTooLarge,
        ),
        config.listen == listen,
        config.upstream == upstream,
        config.auth == if settings.mock_ntlm {
            AuthMode::Ntlm
        } else {
            AuthMode::Disabled
        },
        config.connect_timeout == 5_000_000_000,
        config.idle_timeout == Some(5_000_000_000u128),
        config.max_header_bytes == 32768,
        config.max_connections == settings.concurrency * 2,
{
}

/// A client is content if nothing came behind the response and the same bytes came back.
pub proof fn law_benchmark_checks_the_echo(
    rest: &[u8],
    clean: Result<(), BenchError>,
    echoed: &[u8],
    payload: &[u8],
    same: Result<(), BenchError>,
)
    requires
        call_ensures(check_response, (rest,), clean),
        call_ensures(check_echo, (echoed, payload), same),
    ensures
        clean is Ok <==> rest@.len() == 0,
        clean matches Err(error) ==> error == BenchError::UnexpectedBytes,
        same is Ok <==> echoed@ == payload@,
        same matches Err(error) ==> error == BenchError::EchoMismatch,
{
}

/// Each fault of a benchmark is described in its own words.
pub proof fn law_benchmark_errors_are_described(error: &BenchError, text: &'static str)
    requires
        call_ensures(BenchError::message, (error,), text),
    ensures
        text@ == match error {
            BenchError::NothingToDo => "connections and concurrency must be greater than zero"@,
            BenchError::CountTooLarge => "connection count is too large to report"@,
            BenchError::HeadTooLarge => "HTTP head exceeds benchmark limit"@,
            BenchError::UnexpectedEof => "connection closed before HTTP head completed"@,
            BenchError::UnexpectedBytes => "unexpected bytes after CONNECT response"@,
            BenchError::EchoMismatch => "tunnel echo mismatch"@,
        },
{
}

/// The mock proxy answers at once that the tunnel stands, or first asks for NTLM twice, without a
/// token and then with one. Its clients ask for one destination.
pub proof fn law_mock_answers(mock_ntlm: bool, replies: Vec<&'static str>, request: &'static str)
    requires
        call_ensures(mock_replies, (mock_ntlm,), replies),
        call_ensures(client_request, (), request),
    ensures
        replies@.len() == if mock_ntlm {
            3int
        } else {
            1
        },
        replies@.last()@ == "HTTP/1.1 200 Connection Established\r\n\r\n"@,
        mock_ntlm ==> replies@[0]@
            == "HTTP/1.1 407 Proxy Authentication Required\r\nProxy-Authenticate: NTLM\r\nContent-Length: 0\r\n\r\n"@,
        mock_ntlm ==> replies@[1]@
            == "HTTP/1.1 407 Proxy Authentication Required\r\nProxy-Authenticate: NTLM dHlwZTI=\r\nContent-Length: 0\r\n\r\n"@,
        request@
            == "CONNECT benchmark.test:443 HTTP/1.1\r\nHost: benchmark.test:443\r\n\r\n"@,
{
    let texts = replies@.map_values(|reply: &str| reply@);
    assert(texts.len() == replies@.len());
    assert(texts.last() == replies@.last()@);
    if mock_ntlm {
        assert(texts[0] == replies@[0]@ && texts[1] == replies@[1]@);
    }
}

/// A mock context makes one token first and another from then on, whatever the challenge.
pub proof fn law_mock_context_makes_two_tokens(
    fresh: MockContext,
    context: &mut MockContext,
    challenge: Option<&[u8]>,
    token: Result<Vec<u8>, AuthError>,
)
    requires
        call_ensures(MockContext::new, (), fresh),
        call_ensures(<MockContext as AuthContext>::step, (context, challenge), token),
    ensures
        !fresh.has_started(),
        final(context).has_started(),
        !old(context).has_started() ==> (token matches Ok(t) && t@ == encode_utf8("type1"@)),
        old(context).has_started() ==> (token matches Ok(t) && t@ == encode_utf8("type3"@)),
{
}

} // verus!
