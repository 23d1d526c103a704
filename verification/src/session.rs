//! Serving clients: what a request leads to, and how a tunnel begins.

use core::str::FromStr;
use std::sync::Arc;
use vstd::prelude::*;
use vstd::string::*;
use vstd::utf8::*;

use crate::address::IpAddress;
use crate::auth::{AuthContext, AuthFactory, NativeAuthFactory};
use crate::config::{Endpoint, ProxyConfig};
use crate::handshake::{Handshake, HandshakeAction, HandshakeEvent};
use crate::http1::{
    read_request_head, receive_request_head, HeadReach, HttpError, RequestHead, RequestProgress,
    MAX_HEADERS,
};
use crate::routing::{choose_route, IpCidr, Route, RoutingMode};
use crate::server::ProxyError;
use crate::text::{characters, equal_ignoring_case};
use crate::tunnel::{PhaseView, TunnelView};
use crate::wire::error_response;

verus! {

/// A proxy: its settings, the destinations that it reaches directly, and its provider of tokens.
pub struct Proxy<F: AuthFactory + ?Sized> {
    config: ProxyConfig,
    routing: RoutingMode,
    networks: Vec<IpCidr>,
    auth_factory: Arc<F>,
}

impl Proxy<NativeAuthFactory> {
    /// A proxy that reaches internal destinations directly. Its [`NativeAuthFactory`] never has
    /// credentials, so that it gets through an upstream proxy only if that asks for none.
    #[must_use]
    pub fn new(config: ProxyConfig) -> (proxy: Self)
        ensures
            proxy.settings() == config,
            proxy.routing_mode() == RoutingMode::Auto,
            proxy.direct_networks() == Seq::<IpCidr>::empty(),
    {
        Self::with_auth_factory(config, Arc::new(NativeAuthFactory))
    }
}

impl<F: AuthFactory + ?Sized> Proxy<F> {
    /// The settings of the proxy.
    pub closed spec fn settings(&self) -> ProxyConfig {
        self.config
    }

    /// Which destinations the proxy may reach directly.
    pub closed spec fn routing_mode(&self) -> RoutingMode {
        self.routing
    }

    /// The networks that the proxy reaches directly besides those that are internal everywhere.
    pub closed spec fn direct_networks(&self) -> Seq<IpCidr> {
        self.networks@
    }

    /// The provider of tokens.
    pub closed spec fn factory(&self) -> &F {
        &self.auth_factory
    }

    /// A proxy with a provider of tokens that reaches internal destinations directly.
    #[must_use]
    pub fn with_auth_factory(config: ProxyConfig, auth_factory: Arc<F>) -> (proxy: Self)
        ensures
            proxy.settings() == config,
            proxy.factory() == &*auth_factory,
            proxy.routing_mode() == RoutingMode::Auto,
            proxy.direct_networks() == Seq::<IpCidr>::empty(),
    {
        Self { config, routing: RoutingMode::Auto, networks: Vec::new(), auth_factory }
    }

    /// The same proxy with another choice of the destinations that it reaches directly.
    #[must_use]
    pub fn with_routing(self, routing: RoutingMode, networks: Vec<IpCidr>) -> (proxy: Self)
        ensures
            proxy.settings() == self.settings(),
            proxy.factory() == self.factory(),
            proxy.routing_mode() == routing,
            proxy.direct_networks() == networks@,
    {
        Self { config: self.config, routing, networks, auth_factory: self.auth_factory }
    }
}

impl<F: AuthFactory + ?Sized> Clone for Proxy<F> {
    /// The same proxy once more, with the same provider of tokens.
    fn clone(&self) -> (proxy: Self)
        ensures
            proxy.settings() == self.settings(),
            proxy.factory() == self.factory(),
            proxy.routing_mode() == self.routing_mode(),
            proxy.direct_networks() == self.direct_networks(),
    {
        let mut networks: Vec<IpCidr> = Vec::new();
        for i in 0..self.networks.len()
            invariant
                networks@ == self.networks@.take(i as int),
        {
            networks.push(self.networks[i]);
        }
        assert(networks@ == self.networks@);
        Self {
            config: self.config.clone(),
            routing: self.routing,
            networks,
            auth_factory: self.auth_factory.clone(),
        }
    }
}

/// What a client gets.
#[derive(Debug)]
pub enum ClientStep {
    /// At most this many bytes are to be read from the client next.
    Read(usize),
    /// This response is to be sent, and then the client has been served, well or badly.
    Reject(String, Result<(), ProxyError>),
    /// A tunnel to this destination is to be opened; these bytes came behind the request.
    Open(Endpoint, Vec<u8>),
}

/// Whether a request that was read, or could not be read, leads to a step.
pub open spec fn leads_to(
    request: Result<((Seq<char>, Seq<char>), Seq<u8>), HttpError>,
    step: ClientStep,
) -> bool {
    match request {
        Err(error) => step matches ClientStep::Reject(response, outcome) && outcome == Err::<
            (),
            ProxyError,
        >(ProxyError::Http(error)) && response@ == crate::wire::error_text(400, "Bad Request"@),
        Ok(((method, target), early)) => if !crate::text::same_ignoring_case(method, "CONNECT"@) {
            step matches ClientStep::Reject(response, outcome) && outcome is Ok && response@
                == crate::wire::error_text(405, "CONNECT Required"@)
        } else {
            match crate::config::parsed_endpoint(target) {
                Err(error) => step matches ClientStep::Reject(
                    response,
                    Err(ProxyError::InvalidDestination(text)),
                ) && text@ == error.message_text() && response@ == crate::wire::error_text(
                    400,
                    "Invalid CONNECT Target"@,
                ),
                Ok(endpoint) => step matches ClientStep::Open(destination, behind) && destination@
                    == endpoint && behind@ == early,
            }
        },
    }
}

/// The contents of a request that was read, or could not be read.
pub open spec fn request_contents(request: Result<(RequestHead, Vec<u8>), HttpError>) -> Result<
    ((Seq<char>, Seq<char>), Seq<u8>),
    HttpError,
> {
    match request {
        Ok((head, early)) => Ok((head@, early@)),
        Err(error) => Err(error),
    }
}

/// The request at the front of what a client has sent, and the bytes behind it, once its head has
/// ended at `end`.
pub open spec fn request_in(received: Seq<u8>, end: int) -> Result<
    ((Seq<char>, Seq<char>), Seq<u8>),
    HttpError,
> {
    match crate::http1::complete_request(
        crate::http1::httparse_request(received.take(end), MAX_HEADERS as int),
    ) {
        Ok(head) => Ok((head, received.skip(end))),
        Err(error) => Err(error),
    }
}

/// Decides what a request leads to: a tunnel for a CONNECT request with a destination, and an
/// error response for any other, or for one that could not be read.
pub fn answer_request(request: Result<(RequestHead, Vec<u8>), HttpError>) -> (step: ClientStep)
    ensures
        leads_to(request_contents(request), step),
{
    let (head, early) = match request {
        Err(error) => {
            return ClientStep::Reject(
                error_response(400, "Bad Request"),
                Err(ProxyError::Http(error)),
            );
        },
        Ok(request) => request,
    };
    let method = characters(head.method.as_str());
    let wanted = characters("CONNECT");
    if !equal_ignoring_case(method.as_slice(), wanted.as_slice()) {
        return ClientStep::Reject(error_response(405, "CONNECT Required"), Ok(()));
    }
    match Endpoint::from_str(head.target.as_str()) {
        Err(error) => ClientStep::Reject(
            error_response(400, "Invalid CONNECT Target"),
            Err(ProxyError::InvalidDestination(error.to_string())),
        ),
        Ok(destination) => ClientStep::Open(destination, early),
    }
}

/// Whether what a client has sent so far leads to a step. If the client has `ended`, it sends no
/// more.
pub open spec fn client_step(
    received: Seq<u8>,
    ended: bool,
    max_header_bytes: int,
    step: ClientStep,
) -> bool {
    match crate::http1::head_reach(received, max_header_bytes) {
        HeadReach::Ends(end) => leads_to(request_in(received, end), step),
        HeadReach::Continues(wanted) => if ended {
            leads_to(Err(HttpError::UnexpectedEof), step)
        } else {
            step matches ClientStep::Read(n) && n == wanted
        },
        HeadReach::Exceeds => leads_to(Err(HttpError::HeaderTooLarge), step),
    }
}

/// Decides how to go on with a client, by how far reading its request has come.
fn answer_progress(progress: Result<RequestProgress, HttpError>) -> (step: ClientStep)
    ensures
        match progress {
            Ok(RequestProgress::Read(wanted)) => step == ClientStep::Read(wanted),
            Ok(RequestProgress::Complete(head, early)) => leads_to(Ok((head@, early@)), step),
            Err(error) => leads_to(Err(error), step),
        },
{
    match progress {
        Ok(RequestProgress::Read(wanted)) => ClientStep::Read(wanted),
        Ok(RequestProgress::Complete(head, early)) => answer_request(Ok((head, early))),
        Err(error) => answer_request(Err(error)),
    }
}

impl<F: AuthFactory + ?Sized> Proxy<F> {
    /// Decides how to go on with a client from which these bytes have arrived.
    pub fn handle_client(&self, received: &[u8]) -> (step: ClientStep)
        ensures
            client_step(received@, false, self.settings().max_header_bytes as int, step),
    {
        answer_progress(read_request_head(received, self.config.max_header_bytes))
    }

    /// Takes in bytes that have just been read from a client, and decides how to go on with it; no
    /// bytes at all mean that the client sends no more.
    pub fn receive_from_client(&self, received: &mut Vec<u8>, chunk: &[u8]) -> (step: ClientStep)
        ensures
            final(received)@ == old(received)@ + chunk@,
            client_step(
                old(received)@ + chunk@,
                chunk@.len() == 0,
                self.settings().max_header_bytes as int,
                step,
            ),
    {
        answer_progress(receive_request_head(received, chunk, self.config.max_header_bytes))
    }

    /// Tells whether destinations are to be resolved before a route is chosen.
    pub fn resolves_destinations(&self) -> (answer: bool)
        ensures
            answer == (self.routing_mode() == RoutingMode::Auto),
    {
        self.routing == RoutingMode::Auto
    }

    /// Chooses the way to a destination with these addresses.
    pub fn route(&self, candidates: &[IpAddress]) -> (route: Route)
        ensures
            route == crate::routing::route_of(
                self.routing_mode(),
                candidates@,
                self.direct_networks(),
            ),
    {
        choose_route(self.routing, candidates, self.networks.as_slice())
    }

    /// Begins to open a tunnel through the upstream proxy. The first thing to be done is to
    /// connect to it.
    pub fn establish_tunnel(&self, destination: Endpoint) -> (handshake: Handshake<
        dyn AuthContext,
    >)
        ensures
            handshake@ == (TunnelView {
                upstream_host: self.settings().upstream@.0,
                auth: self.settings().auth,
                destination: destination@,
                phase: PhaseView::Connecting,
            }),
            handshake.context() is None,
    {
        Handshake::new(&self.config.upstream, self.config.auth, destination)
    }

    /// Goes on with opening a tunnel after `event`.
    pub fn continue_tunnel(
        &self,
        handshake: Handshake<dyn AuthContext>,
        event: HandshakeEvent,
    ) -> (step: (Handshake<dyn AuthContext>, HandshakeAction))
        requires
            handshake@.accepts(event@),
        ensures
            crate::handshake::went_on::<F, dyn AuthContext>(
                self.factory(),
                handshake,
                event@,
                step.0,
                step.1@,
            ),
    {
        handshake.next(&*self.auth_factory, event)
    }

    /// How many clients may be served at once.
    pub fn permits(&self) -> (count: usize)
        ensures
            count == self.settings().max_connections,
    {
        self.config.max_connections
    }

    /// The settings of the proxy.
    pub fn config(&self) -> (config: &ProxyConfig)
        ensures
            *config == self.settings(),
    {
        &self.config
    }
}

/// An end of a tunnel.
#[derive(Clone, Copy, Debug, PartialEq, Eq, Structural)]
pub enum Side {
    Client,
    Upstream,
}

/// Bytes for one end of a tunnel.
#[derive(Debug)]
pub struct Delivery {
    pub to: Side,
    pub bytes: Vec<u8>,
}

impl View for Delivery {
    type V = (Side, Seq<u8>);

    open spec fn view(&self) -> (Side, Seq<u8>) {
        (self.to, self.bytes@)
    }
}

/// What follows the attempt to open a tunnel.
#[derive(Debug)]
pub enum TunnelStart {
    /// These bytes are to be written in this order, and then all others relayed.
    Relay(Vec<Delivery>),
    /// This response is to be sent, and then the client has been served badly.
    Reject(String, ProxyError),
}

/// The response that tells a client that its tunnel stands.
pub open spec fn established_text() -> Seq<char> {
    "HTTP/1.1 200 Connection Established\r\n\r\n"@
}

/// What is written when a tunnel stands: the response to the client, the bytes that the client
/// sent early, and those that the other end did.
pub open spec fn first_deliveries(early: Seq<u8>, prefetched: Seq<u8>) -> Seq<(Side, Seq<u8>)> {
    let greeting = seq![(Side::Client, encode_utf8(established_text()))];
    let upward = if early.len() > 0 {
        greeting.push((Side::Upstream, early))
    } else {
        greeting
    };
    if prefetched.len() > 0 {
        upward.push((Side::Client, prefetched))
    } else {
        upward
    }
}

/// The contents of deliveries.
pub open spec fn deliveries(parcels: Seq<Delivery>) -> Seq<(Side, Seq<u8>)> {
    parcels.map_values(|parcel: Delivery| parcel@)
}

/// Decides how a tunnel begins, or what the client is told when there is none. `tunnel` holds the
/// bytes that have already arrived through it.
pub fn begin_relay(tunnel: Result<Vec<u8>, ProxyError>, early: Vec<u8>) -> (start: TunnelStart)
    ensures
        match tunnel {
            Ok(prefetched) => start matches TunnelStart::Relay(parcels) && deliveries(parcels@)
                == first_deliveries(early@, prefetched@),
            Err(error) => start matches TunnelStart::Reject(response, reason) && reason == error
                && response@ == crate::wire::error_text(502, "Bad Gateway"@),
        },
{
    let prefetched = match tunnel {
        Err(error) => return TunnelStart::Reject(error_response(502, "Bad Gateway"), error),
        Ok(prefetched) => prefetched,
    };
    let greeting = "HTTP/1.1 200 Connection Established\r\n\r\n";
    let mut parcels: Vec<Delivery> = Vec::new();
    parcels.push(
        Delivery { to: Side::Client, bytes: vstd::slice::slice_to_vec(greeting.as_bytes()) },
    );
    if early.len() > 0 {
        parcels.push(Delivery { to: Side::Upstream, bytes: early });
    }
    if prefetched.len() > 0 {
        parcels.push(Delivery { to: Side::Client, bytes: prefetched });
    }
    assert(deliveries(parcels@) == first_deliveries(early@, prefetched@));
    TunnelStart::Relay(parcels)
}

/// All that is written to one side.
pub open spec fn written_to(parcels: Seq<(Side, Seq<u8>)>, side: Side) -> Seq<u8>
    decreases parcels.len(),
{
    if parcels.len() == 0 {
        Seq::empty()
    } else {
        let before = written_to(parcels.drop_last(), side);
        if parcels.last().0 == side {
            before + parcels.last().1
        } else {
            before
        }
    }
}

/// No byte that came before the tunnel stood is lost or changed: the upstream side gets exactly
/// what the client sent early, and the client gets exactly the response and then what the upstream
/// side sent early.
pub proof fn law_early_bytes_are_kept(early: Seq<u8>, prefetched: Seq<u8>)
    ensures
        written_to(first_deliveries(early, prefetched), Side::Upstream) == early,
        written_to(first_deliveries(early, prefetched), Side::Client) == encode_utf8(
            established_text(),
        ) + prefetched,
{
    let greeting = seq![(Side::Client, encode_utf8(established_text()))];
    let upward = if early.len() > 0 {
        greeting.push((Side::Upstream, early))
    } else {
        greeting
    };
    let all = first_deliveries(early, prefetched);
    reveal_with_fuel(written_to, 4);
    assert(greeting.drop_last() == Seq::<(Side, Seq<u8>)>::empty());
    if early.len() > 0 {
        assert(upward.drop_last() == greeting);
    }
    if prefetched.len() > 0 {
        assert(all.drop_last() == upward);
    }
    assert(written_to(all, Side::Upstream) == early);
    assert(written_to(all, Side::Client) == encode_utf8(established_text()) + prefetched);
}

/// What a client sends is its request and what it sends early, all of it and nothing else: the
/// bytes behind the head are those that the upstream side gets.
pub proof fn law_request_and_early_bytes(received: Seq<u8>, end: int)
    requires
        crate::http1::head_end(received) == Some(end),
        request_in(received, end) is Ok,
    ensures
        received.take(end) + request_in(received, end)->Ok_0.1 == received,
{
    crate::http1::lemma_first_match(received, crate::http1::head_break());
}

/// What the acceptance of clients waits for.
#[derive(Clone, Copy, Debug, PartialEq, Eq, Structural)]
pub enum AcceptPhase {
    /// For a permit to serve one more client.
    Permit,
    /// For a client, with a permit at hand.
    Client,
    /// For nothing: no more clients are accepted.
    Stopped,
}

/// What has happened while clients are accepted.
#[derive(Clone, Copy, Debug, PartialEq, Eq, Structural)]
pub enum AcceptEvent {
    ShutdownRequested,
    PermitGranted,
    PermitsClosed,
    ClientAccepted,
    AcceptFailed,
}

/// What is to be done next to accept clients.
#[derive(Clone, Copy, Debug, PartialEq, Eq, Structural)]
pub enum AcceptAction {
    /// Wait for a client.
    Accept,
    /// Serve the client, with the permit, and wait for another permit.
    Serve,
    /// Stop.
    Stop,
    /// Stop, with the error of the attempt to accept.
    Fail,
}

/// Whether an event can happen in a phase.
pub open spec fn accept_possible(phase: AcceptPhase, event: AcceptEvent) -> bool {
    match event {
        AcceptEvent::ShutdownRequested => phase != AcceptPhase::Stopped,
        AcceptEvent::PermitGranted => phase == AcceptPhase::Permit,
        AcceptEvent::PermitsClosed => phase == AcceptPhase::Permit,
        AcceptEvent::ClientAccepted => phase == AcceptPhase::Client,
        AcceptEvent::AcceptFailed => phase == AcceptPhase::Client,
    }
}

/// What an event leads to.
pub open spec fn accept_step(event: AcceptEvent) -> (AcceptPhase, AcceptAction) {
    match event {
        AcceptEvent::ShutdownRequested => (AcceptPhase::Stopped, AcceptAction::Stop),
        AcceptEvent::PermitGranted => (AcceptPhase::Client, AcceptAction::Accept),
        AcceptEvent::PermitsClosed => (AcceptPhase::Stopped, AcceptAction::Stop),
        AcceptEvent::ClientAccepted => (AcceptPhase::Permit, AcceptAction::Serve),
        AcceptEvent::AcceptFailed => (AcceptPhase::Stopped, AcceptAction::Fail),
    }
}

impl<F: AuthFactory + ?Sized> Proxy<F> {
    /// Goes on with accepting clients after `event`. At first a permit is waited for, and in every
    /// phase for the shutdown as well, which comes before anything that has happened with it.
    pub fn serve_until(&self, phase: &mut AcceptPhase, event: AcceptEvent) -> (action: AcceptAction)
        requires
            accept_possible(*old(phase), event),
        ensures
            (*final(phase), action) == accept_step(event),
    {
        match event {
            AcceptEvent::ShutdownRequested => {
                *phase = AcceptPhase::Stopped;
                AcceptAction::Stop
            },
            AcceptEvent::PermitGranted => {
                *phase = AcceptPhase::Client;
                AcceptAction::Accept
            },
            AcceptEvent::PermitsClosed => {
                *phase = AcceptPhase::Stopped;
                AcceptAction::Stop
            },
            AcceptEvent::ClientAccepted => {
                *phase = AcceptPhase::Permit;
                AcceptAction::Serve
            },
            AcceptEvent::AcceptFailed => {
                *phase = AcceptPhase::Stopped;
                AcceptAction::Fail
            },
        }
    }
}

/// A shutdown can be asked for as long as clients are accepted, and ends that: nothing can follow
/// it.
pub proof fn law_shutdown_is_final(phase: AcceptPhase, later: AcceptEvent)
    requires
        phase != AcceptPhase::Stopped,
    ensures
        accept_possible(phase, AcceptEvent::ShutdownRequested),
        accept_step(AcceptEvent::ShutdownRequested).1 == AcceptAction::Stop,
        !accept_possible(accept_step(AcceptEvent::ShutdownRequested).0, later),
{
}

/// A moment in the life of a proxy: what each of the loops that accept clients for it waits for,
/// and how many clients are being served. All the loops draw on the same permits.
pub struct Load {
    pub loops: Seq<AcceptPhase>,
    pub clients: int,
}

/// What happens in the life of a proxy.
pub enum Change {
    /// One more loop begins to accept clients.
    LoopStarted,
    /// Something happens to one of the loops.
    Accepting(int, AcceptEvent),
    /// A client has been served, well or badly.
    ClientEnded(Result<(), ProxyError>),
}

/// How many loops hold a permit: each that waits for a client.
pub open spec fn holders(loops: Seq<AcceptPhase>) -> int
    decreases loops.len(),
{
    if loops.len() == 0 {
        0
    } else {
        holders(loops.drop_last()) + if loops.last() == AcceptPhase::Client {
            1int
        } else {
            0
        }
    }
}

impl Load {
    /// How many permits are held: one by each client, and one by each loop that waits for a client.
    pub open spec fn permits_held(self) -> int {
        self.clients + holders(self.loops)
    }

    /// Whether a change can happen when there are `permits` in all.
    pub open spec fn possible(self, change: Change, permits: int) -> bool {
        match change {
            Change::LoopStarted => true,
            Change::Accepting(n, event) => 0 <= n < self.loops.len() && accept_possible(
                self.loops[n],
                event,
            ) && (event == AcceptEvent::PermitGranted ==> self.permits_held() < permits),
            Change::ClientEnded(_) => self.clients > 0,
        }
    }

    /// The next moment.
    pub open spec fn after(self, change: Change) -> Load {
        match change {
            Change::LoopStarted => Load { loops: self.loops.push(AcceptPhase::Permit), ..self },
            Change::Accepting(n, event) => {
                let (phase, action) = accept_step(event);
                Load {
                    loops: self.loops.update(n, phase),
                    clients: self.clients + if action == AcceptAction::Serve {
                        1int
                    } else {
                        0
                    },
                }
            },
            Change::ClientEnded(_) => Load { clients: self.clients - 1, ..self },
        }
    }
}

/// The moment that a number of changes leads to, from a proxy for which no clients are accepted
/// yet.
pub open spec fn load_after(changes: Seq<Change>) -> Load
    decreases changes.len(),
{
    if changes.len() == 0 {
        Load { loops: Seq::empty(), clients: 0 }
    } else {
        load_after(changes.drop_last()).after(changes.last())
    }
}

/// Whether the changes can happen one after the other when there are `permits` in all.
pub open spec fn life_possible(changes: Seq<Change>, permits: int) -> bool
    decreases changes.len(),
{
    changes.len() > 0 ==> life_possible(changes.drop_last(), permits) && load_after(
        changes.drop_last(),
    ).possible(changes.last(), permits)
}

/// A loop counts by itself among those that hold a permit.
proof fn lemma_holders(loops: Seq<AcceptPhase>, n: int, phase: AcceptPhase)
    requires
        0 <= n < loops.len(),
    ensures
        holders(loops) >= if loops[n] == AcceptPhase::Client {
            1int
        } else {
            0
        },
        holders(loops.update(n, phase)) == holders(loops) + if phase == AcceptPhase::Client {
            1int
        } else {
            0
        } - if loops[n] == AcceptPhase::Client {
            1int
        } else {
            0
        },
    decreases loops.len(),
{
    let updated = loops.update(n, phase);
    lemma_holders_positive(loops.drop_last());
    if n == loops.len() - 1 {
        assert(updated.drop_last() == loops.drop_last());
    } else {
        lemma_holders(loops.drop_last(), n, phase);
        assert(updated.drop_last() == loops.drop_last().update(n, phase));
    }
}

/// The number of loops that hold a permit is not negative.
proof fn lemma_holders_positive(loops: Seq<AcceptPhase>)
    ensures
        holders(loops) >= 0,
    decreases loops.len(),
{
    if loops.len() > 0 {
        lemma_holders_positive(loops.drop_last());
    }
}

/// However many loops accept clients for a proxy, there are never more clients than permits, nor
/// more permits held: whoever is served holds a permit of their own.
pub proof fn law_clients_are_bounded(changes: Seq<Change>, permits: int)
    requires
        permits >= 0,
        life_possible(changes, permits),
    ensures
        0 <= load_after(changes).clients <= load_after(changes).permits_held() <= permits,
    decreases changes.len(),
{
    if changes.len() > 0 {
        let before = load_after(changes.drop_last());
        law_clients_are_bounded(changes.drop_last(), permits);
        match changes.last() {
            Change::LoopStarted => {
                assert(before.loops.push(AcceptPhase::Permit).drop_last() == before.loops);
            },
            Change::Accepting(n, event) => {
                lemma_holders(before.loops, n, accept_step(event).0);
            },
            Change::ClientEnded(_) => {},
        }
        lemma_holders_positive(load_after(changes).loops);
    }
}

/// While as many clients are served as there are permits, no loop accepts another. A client that
/// has been served, well or badly, leaves its permit, and a loop that waits for one can then have
/// it.
pub proof fn law_permits_return(
    changes: Seq<Change>,
    permits: int,
    n: int,
    outcome: Result<(), ProxyError>,
)
    requires
        permits >= 0,
        life_possible(changes, permits),
    ensures
        load_after(changes).clients == permits ==> !load_after(changes).possible(
            Change::Accepting(n, AcceptEvent::ClientAccepted),
            permits,
        ) && !load_after(changes).possible(
            Change::Accepting(n, AcceptEvent::PermitGranted),
            permits,
        ),
        load_after(changes).clients > 0 ==> {
            let later = load_after(changes.push(Change::ClientEnded(outcome)));
            &&& life_possible(changes.push(Change::ClientEnded(outcome)), permits)
            &&& later.permits_held() == load_after(changes).permits_held() - 1
            &&& 0 <= n < later.loops.len() && later.loops[n] == AcceptPhase::Permit
                ==> later.possible(Change::Accepting(n, AcceptEvent::PermitGranted), permits)
        },
{
    let here = load_after(changes);
    law_clients_are_bounded(changes, permits);
    if 0 <= n < here.loops.len() {
        lemma_holders(here.loops, n, AcceptPhase::Permit);
    }
    assert(changes.push(Change::ClientEnded(outcome)).drop_last() == changes);
}

/// Whether `method` is CONNECT, each letter in one of its two forms.
pub open spec fn is_connect(method: Seq<char>) -> bool {
    &&& method.len() == 7
    &&& method[0] == 'C' || method[0] == 'c'
    &&& method[1] == 'O' || method[1] == 'o'
    &&& method[2] == 'N' || method[2] == 'n'
    &&& method[3] == 'N' || method[3] == 'n'
    &&& method[4] == 'E' || method[4] == 'e'
    &&& method[5] == 'C' || method[5] == 'c'
    &&& method[6] == 'T' || method[6] == 't'
}

/// Only the forms of CONNECT are the same but for case.
proof fn lemma_is_connect(method: Seq<char>)
    ensures
        is_connect(method) <==> crate::text::same_ignoring_case(method, "CONNECT"@),
{
    reveal_strlit("CONNECT");
    let wanted = "CONNECT"@;
    assert(wanted.len() == 7);
    if crate::text::same_ignoring_case(method, wanted) {
        assert forall|i: int| 0 <= i < 7 implies crate::text::ascii_lower(#[trigger] method[i])
            == crate::text::ascii_lower(wanted[i]) by {}
        assert(method[0] == 'C' || method[0] == 'c');
        assert(method[1] == 'O' || method[1] == 'o');
        assert(method[2] == 'N' || method[2] == 'n');
        assert(method[3] == 'N' || method[3] == 'n');
        assert(method[4] == 'E' || method[4] == 'e');
        assert(method[5] == 'C' || method[5] == 'c');
        assert(method[6] == 'T' || method[6] == 't');
    }
}

/// Whether a client is refused with this status and reason, and has been served with this error, or
/// well.
pub open spec fn refuses(
    step: ClientStep,
    status: u16,
    reason: Seq<char>,
    fault: Option<ProxyError>,
) -> bool {
    step matches ClientStep::Reject(response, outcome) && response@ == crate::wire::refusal(
        status,
        reason,
    ) && match fault {
        Some(error) => outcome == Err::<(), ProxyError>(error),
        None => outcome is Ok,
    }
}

/// Whether a request, or what was wrong with it, is answered so: by a tunnel exactly if it is a
/// CONNECT request for an endpoint, and then to that endpoint and with the bytes that came behind.
pub open spec fn right_reply(
    request: Result<((Seq<char>, Seq<char>), Seq<u8>), HttpError>,
    step: ClientStep,
) -> bool {
    match request {
        Err(error) => refuses(step, 400, "Bad Request"@, Some(ProxyError::Http(error))),
        Ok(((method, target), early)) => if !is_connect(method) {
            refuses(step, 405, "CONNECT Required"@, None)
        } else {
            match crate::config::parsed_endpoint(target) {
                Err(fault) => step matches ClientStep::Reject(
                    response,
                    Err(ProxyError::InvalidDestination(text)),
                ) && text@ == fault.message_text() && response@ == crate::wire::refusal(
                    400,
                    "Invalid CONNECT Target"@,
                ),
                Ok(endpoint) => step matches ClientStep::Open(destination, behind) && destination@
                    == endpoint && behind@ == early,
            }
        },
    }
}

/// What a request leads to is the right reply to it.
proof fn lemma_right_reply(
    request: Result<((Seq<char>, Seq<char>), Seq<u8>), HttpError>,
    step: ClientStep,
)
    requires
        leads_to(request, step),
    ensures
        right_reply(request, step),
{
    crate::wire::law_error_text(400, "Bad Request"@);
    crate::wire::law_error_text(405, "CONNECT Required"@);
    crate::wire::law_error_text(400, "Invalid CONNECT Target"@);
    if let Ok(((method, _), _)) = request {
        lemma_is_connect(method);
    }
}

/// A request is refused with 405 only for its method, and with 400 only if it cannot be read or its
/// target is no endpoint. Any other opens a tunnel to its target.
pub proof fn law_requests_are_answered(
    request: Result<(RequestHead, Vec<u8>), HttpError>,
    step: ClientStep,
)
    requires
        call_ensures(answer_request, (request,), step),
    ensures
        right_reply(
            match request {
                Ok((head, early)) => Ok((head@, early@)),
                Err(error) => Err(error),
            },
            step,
        ),
{
    lemma_right_reply(request_contents(request), step);
}

/// Every CONNECT request, in whatever case, whose target is a host, a colon and a port opens a
/// tunnel to just that host and that port, whichever these are, and the bytes behind the head go
/// into it. The same holds of a host in brackets, which may hold colons.
pub proof fn law_connect_opens_a_tunnel(
    head: RequestHead,
    early: Vec<u8>,
    host: Seq<char>,
    port: u16,
    step: ClientStep,
)
    requires
        call_ensures(
            answer_request,
            (Ok::<(RequestHead, Vec<u8>), HttpError>((head, early)),),
            step,
        ),
        is_connect(head.method@),
        1 <= port <= 65535,
        host.len() > 0,
        !crate::config::spoiled(host),
        ({
            let digits = crate::number::decimal(port as nat);
            ||| {
                &&& crate::text::lacks(host, ':')
                &&& host[0] != '['
                &&& head.target@ == host + seq![':'] + digits
            }
            ||| {
                &&& crate::text::lacks(host, ']')
                &&& head.target@ == seq!['['] + host + seq![']', ':'] + digits
            }
        }),
    ensures
        step matches ClientStep::Open(destination, behind) && destination@ == (host, port)
            && behind@ == early@,
{
    let digits = crate::number::decimal(port as nat);
    crate::number::law_decimal_round_trip(port as nat, 65535);
    crate::number::lemma_decimal_digits(port as nat);
    assert(crate::text::lacks(digits, ':'));
    if crate::text::lacks(host, ':') && host[0] != '[' && head.target@ == host + seq![':']
        + digits {
        crate::config::law_plain_endpoint(host, digits);
    } else {
        crate::config::law_bracketed_endpoint(host, digits);
    }
    law_requests_are_answered(Ok((head, early)), step);
}

/// Whether the bytes that a client has sent are answered so.
pub open spec fn right_client_step(
    received: Seq<u8>,
    ended: bool,
    max_header_bytes: int,
    step: ClientStep,
) -> bool {
    match crate::http1::read_request(received, max_header_bytes) {
        Some(request) => right_reply(request, step),
        None => if ended {
            right_reply(Err(HttpError::UnexpectedEof), step)
        } else {
            step matches ClientStep::Read(wanted) && {
                &&& 1 <= wanted <= 8192
                &&& received.len() + wanted <= max_header_bytes
                &&& wanted == 8192 || received.len() + wanted == max_header_bytes
            }
        },
    }
}

/// A client is answered as soon as the head of its request is there or has grown too long, by what
/// the head asks for. Until then more is read from it, and if no more comes, it is refused.
pub proof fn law_clients_are_answered<F: AuthFactory + ?Sized>(
    proxy: &Proxy<F>,
    bytes: &[u8],
    step: ClientStep,
    received: &mut Vec<u8>,
    chunk: &[u8],
    later: ClientStep,
)
    requires
        call_ensures(Proxy::<F>::handle_client, (proxy, bytes), step),
        call_ensures(Proxy::<F>::receive_from_client, (proxy, received, chunk), later),
    ensures
        right_client_step(bytes@, false, proxy.settings().max_header_bytes as int, step),
        final(received)@ == old(received)@ + chunk@,
        right_client_step(
            old(received)@ + chunk@,
            chunk@.len() == 0,
            proxy.settings().max_header_bytes as int,
            later,
        ),
{
    let max = proxy.settings().max_header_bytes as int;
    lemma_right_client_step(bytes@, false, max, step);
    lemma_right_client_step(old(received)@ + chunk@, chunk@.len() == 0, max, later);
}

/// What the bytes of a client lead to is the right answer to them.
proof fn lemma_right_client_step(
    received: Seq<u8>,
    ended: bool,
    max_header_bytes: int,
    step: ClientStep,
)
    requires
        client_step(received, ended, max_header_bytes, step),
    ensures
        right_client_step(received, ended, max_header_bytes, step),
{
    match crate::http1::head_reach(received, max_header_bytes) {
        HeadReach::Ends(end) => {
            lemma_right_reply(request_in(received, end), step);
        },
        HeadReach::Continues(_) => {
            if ended {
                lemma_right_reply(Err(HttpError::UnexpectedEof), step);
            }
        },
        HeadReach::Exceeds => {
            lemma_right_reply(Err(HttpError::HeaderTooLarge), step);
        },
    }
}

/// When a tunnel stands, the client first gets to know it, in just these characters. What it sent
/// early goes up and what came early goes down, each whole and once. Without a tunnel it gets to
/// know that.
pub proof fn law_tunnels_begin(
    tunnel: Result<Vec<u8>, ProxyError>,
    early: Vec<u8>,
    start: TunnelStart,
)
    requires
        call_ensures(begin_relay, (tunnel, early), start),
    ensures
        match tunnel {
            Ok(prefetched) => start matches TunnelStart::Relay(parcels) && {
                let greeting = encode_utf8("HTTP/1.1 200 Connection Established\r\n\r\n"@);
                &&& parcels@.len() > 0 && parcels@[0]@ == (Side::Client, greeting)
                &&& written_to(deliveries(parcels@), Side::Upstream) == early@
                &&& written_to(deliveries(parcels@), Side::Client) == greeting + prefetched@
            },
            Err(error) => start matches TunnelStart::Reject(response, reason) && reason == error
                && response@ == crate::wire::refusal(502, "Bad Gateway"@),
        },
{
    crate::wire::law_error_text(502, "Bad Gateway"@);
    if let Ok(prefetched) = tunnel {
        law_early_bytes_are_kept(early@, prefetched@);
        if let TunnelStart::Relay(parcels) = start {
            assert(deliveries(parcels@).len() == parcels@.len());
            assert(deliveries(parcels@)[0] == parcels@[0]@);
        }
    }
}

/// A shutdown stops the acceptance of clients at any time, and so does the end of the permits. With
/// a permit a client is waited for, and each client that comes is served and another permit waited
/// for. A failure to accept ends it with an error.
pub proof fn law_acceptance_goes_on<F: AuthFactory + ?Sized>(
    proxy: &Proxy<F>,
    phase: &mut AcceptPhase,
    event: AcceptEvent,
    action: AcceptAction,
)
    requires
        accept_possible(*old(phase), event),
        call_ensures(Proxy::<F>::serve_until, (proxy, phase, event), action),
    ensures
        match event {
            AcceptEvent::ShutdownRequested | AcceptEvent::PermitsClosed => action
                == AcceptAction::Stop && *final(phase) == AcceptPhase::Stopped,
            AcceptEvent::PermitGranted => action == AcceptAction::Accept && *final(phase)
                == AcceptPhase::Client,
            AcceptEvent::ClientAccepted => action == AcceptAction::Serve && *final(phase)
                == AcceptPhase::Permit,
            AcceptEvent::AcceptFailed => action == AcceptAction::Fail && *final(phase)
                == AcceptPhase::Stopped,
        },
{
}

/// Whatever is waited for can happen: a permit or the end of them, a client or the failure to
/// accept one, and a shutdown with either.
pub proof fn law_awaited_events_are_possible()
    ensures
        accept_possible(AcceptPhase::Permit, AcceptEvent::PermitGranted),
        accept_possible(AcceptPhase::Permit, AcceptEvent::PermitsClosed),
        accept_possible(AcceptPhase::Permit, AcceptEvent::ShutdownRequested),
        accept_possible(AcceptPhase::Client, AcceptEvent::ClientAccepted),
        accept_possible(AcceptPhase::Client, AcceptEvent::AcceptFailed),
        accept_possible(AcceptPhase::Client, AcceptEvent::ShutdownRequested),
{
}

/// A proxy keeps the settings and the provider with which it was made, also under another routing
/// and in its clones. It reaches internal destinations directly unless it is told otherwise.
pub proof fn law_proxy_keeps_its_settings<F: AuthFactory + ?Sized>(
    config: ProxyConfig,
    factory: Arc<F>,
    made: Proxy<F>,
    routing: RoutingMode,
    networks: Vec<IpCidr>,
    routed: Proxy<F>,
    kept: &ProxyConfig,
    permits: usize,
    resolves: bool,
)
    requires
        call_ensures(Proxy::<F>::with_auth_factory, (config, factory), made),
        call_ensures(Proxy::<F>::with_routing, (made, routing, networks), routed),
        call_ensures(Proxy::<F>::config, (&routed,), kept),
        call_ensures(Proxy::<F>::permits, (&routed,), permits),
        call_ensures(Proxy::<F>::resolves_destinations, (&routed,), resolves),
    ensures
        *kept == config,
        permits == config.max_connections,
        resolves == (routing == RoutingMode::Auto),
        made.routing_mode() == RoutingMode::Auto,
        made.direct_networks() == Seq::<IpCidr>::empty(),
        made.settings() == config,
        made.factory() == &*factory,
        routed.settings() == config,
        routed.factory() == &*factory,
        routed.routing_mode() == routing,
        routed.direct_networks() == networks@,
{
}

/// A tunnel is opened to the destination that was asked for, through the upstream proxy and in the
/// mode of the settings.
pub proof fn law_tunnels_are_opened_as_configured<F: AuthFactory + ?Sized>(
    proxy: &Proxy<F>,
    destination: Endpoint,
    handshake: Handshake<dyn AuthContext>,
)
    requires
        call_ensures(Proxy::<F>::establish_tunnel, (proxy, destination), handshake),
    ensures
        handshake@.upstream_host == proxy.settings().upstream@.0,
        handshake@.auth == proxy.settings().auth,
        handshake@.destination == destination@,
        handshake@.phase is Connecting,
        handshake.context() is None,
{
}

/// A proxy chooses routes by its own mode and its own networks: at the first address that is reached
/// directly, if the mode allows it.
pub proof fn law_proxy_routes_as_configured<F: AuthFactory + ?Sized>(
    proxy: &Proxy<F>,
    candidates: &[IpAddress],
    route: Route,
    n: int,
)
    requires
        call_ensures(Proxy::<F>::route, (proxy, candidates), route),
    ensures
        ({
            let direct = |i: int| crate::routing::direct(candidates@[i], proxy.direct_networks());
            &&& proxy.routing_mode() == RoutingMode::ProxyOnly ==> route == Route::Upstream
            &&& (forall|i: int| 0 <= i < candidates@.len() ==> !#[trigger] direct(i)) ==> route
                == Route::Upstream
            &&& proxy.routing_mode() == RoutingMode::Auto && 0 <= n < candidates@.len() && direct(n)
                && (forall|i: int| 0 <= i < n ==> !#[trigger] direct(i)) ==> route
                == Route::Direct(candidates@[n])
        }),
{
    let direct = |i: int| crate::routing::direct(candidates@[i], proxy.direct_networks());
    crate::routing::lemma_first_direct(candidates@, proxy.direct_networks());
    let first = crate::routing::first_direct(candidates@, proxy.direct_networks());
    assert(first < candidates@.len() ==> direct(first));
    assert forall|i: int| 0 <= i < first implies !#[trigger] direct(i) by {
        assert(!crate::routing::direct(candidates@[i], proxy.direct_networks()));
    }
}

/// A tunnel is opened with the security contexts of the provider of the proxy.
pub proof fn law_tunnels_use_the_provider<F: AuthFactory + ?Sized>(
    proxy: &Proxy<F>,
    handshake: Handshake<dyn AuthContext>,
    event: HandshakeEvent,
    step: (Handshake<dyn AuthContext>, HandshakeAction),
)
    requires
        handshake@.accepts(event@),
        call_ensures(Proxy::<F>::continue_tunnel, (proxy, handshake, event), step),
    ensures
        crate::handshake::right_course::<F, dyn AuthContext>(
            proxy.factory(),
            handshake,
            event@,
            step.0,
            step.1@,
        ),
{
    crate::handshake::law_right_course::<F, dyn AuthContext>(
        proxy.factory(),
        handshake,
        event@,
        step.0,
        step.1@,
    );
}

/// A proxy with the native provider keeps its settings, too.
pub proof fn law_native_proxy_keeps_its_settings(
    config: ProxyConfig,
    proxy: Proxy<NativeAuthFactory>,
)
    requires
        call_ensures(Proxy::<NativeAuthFactory>::new, (config,), proxy),
    ensures
        proxy.settings() == config,
        proxy.routing_mode() == RoutingMode::Auto,
        proxy.direct_networks() == Seq::<IpCidr>::empty(),
{
}

/// A clone of a proxy is the same proxy.
pub proof fn law_clones_are_the_same<F: AuthFactory + ?Sized>(
    proxy: &Proxy<F>,
    copy: Proxy<F>,
    config: &ProxyConfig,
    same: ProxyConfig,
)
    requires
        call_ensures(<Proxy<F> as Clone>::clone, (proxy,), copy),
        call_ensures(<ProxyConfig as Clone>::clone, (config,), same),
    ensures
        copy.settings() == proxy.settings(),
        copy.factory() == proxy.factory(),
        copy.routing_mode() == proxy.routing_mode(),
        copy.direct_networks() == proxy.direct_networks(),
        same == *config,
{
}

} // verus!
