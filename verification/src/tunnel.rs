//! Opening a tunnel through the upstream proxy: what to do next, and what each answer leads to.

use vstd::prelude::*;
use vstd::string::*;
use vstd::utf8::*;

use crate::auth::AuthScheme;
use crate::body::BodyDrain;
use crate::config::{AuthMode, Endpoint};
use crate::http1::{ResponseHead, ResponseHeadView};
use crate::server::{
    choose_scheme, decode_challenge, find_challenge, is_connect_success, Challenge, ProxyError,
};
use crate::wire::{authorization, connect_request, fits, target_name};

verus! {

/// How many tokens are sent to the upstream proxy at most.
pub const MAX_AUTH_ROUNDS: usize = 4;

/// What has happened.
#[derive(Debug)]
pub enum TunnelEvent {
    /// A new connection to the upstream proxy stands.
    Connected,
    /// The upstream proxy has answered the last request.
    Response(ResponseHead),
    /// The security context has been created.
    ContextReady,
    /// The body of the last response has been skipped.
    Drained,
    /// The security context has produced a token.
    Token(Vec<u8>),
    /// What was to be done has failed.
    Failed(ProxyError),
}

/// What is to be done next.
#[derive(Debug)]
pub enum TunnelAction {
    /// Connect to the upstream proxy, in place of the connection there may have been.
    Connect,
    /// Send this request on the connection and read the head of the response.
    Exchange(String),
    /// Create a security context for this scheme and this target name.
    CreateContext(AuthScheme, String),
    /// Skip the body of the last response.
    Drain(BodyDrain),
    /// Hand this challenge to the security context and take its next token.
    Step(Option<Vec<u8>>),
    /// Nothing: the connection is the tunnel.
    Established,
    /// Nothing: there is no tunnel.
    Fail(ProxyError),
}

/// The contents of a `TunnelEvent`.
pub enum EventView {
    Connected,
    Response(ResponseHeadView),
    ContextReady,
    Drained,
    Token(Seq<u8>),
    Failed(ProxyError),
}

impl View for TunnelEvent {
    type V = EventView;

    open spec fn view(&self) -> EventView {
        match *self {
            TunnelEvent::Connected => EventView::Connected,
            TunnelEvent::Response(response) => EventView::Response(response@),
            TunnelEvent::ContextReady => EventView::ContextReady,
            TunnelEvent::Drained => EventView::Drained,
            TunnelEvent::Token(token) => EventView::Token(token@),
            TunnelEvent::Failed(error) => EventView::Failed(error),
        }
    }
}

/// The contents of a `TunnelAction`.
pub enum ActionView {
    Connect,
    Exchange(Seq<char>),
    CreateContext(AuthScheme, Seq<char>),
    Drain(BodyDrain),
    Step(Option<Seq<u8>>),
    Established,
    Fail(ProxyError),
}

impl View for TunnelAction {
    type V = ActionView;

    open spec fn view(&self) -> ActionView {
        match *self {
            TunnelAction::Connect => ActionView::Connect,
            TunnelAction::Exchange(request) => ActionView::Exchange(request@),
            TunnelAction::CreateContext(scheme, name) => ActionView::CreateContext(scheme, name@),
            TunnelAction::Drain(drain) => ActionView::Drain(drain),
            TunnelAction::Step(challenge) => ActionView::Step(
                crate::server::optional_bytes(challenge),
            ),
            TunnelAction::Established => ActionView::Established,
            TunnelAction::Fail(error) => ActionView::Fail(error),
        }
    }
}

/// How far opening the tunnel has come.
#[derive(Debug)]
enum Phase {
    /// The first connection is being made.
    Connecting,
    /// The request without a token has been sent.
    Probing,
    /// The security context is being created, after this response with this challenge.
    Creating(AuthScheme, Option<String>, ResponseHead),
    /// The first connection has been closed, and the second is being made.
    Reconnecting(AuthScheme),
    /// The body behind this challenge is being skipped, before round `round`.
    Draining(AuthScheme, Option<Vec<u8>>, usize),
    /// The token of round `round` is being made.
    Stepping(AuthScheme, usize),
    /// The token of round `round` has been sent.
    Authorizing(AuthScheme, usize),
    /// The tunnel stands, or there will be none.
    Finished,
}

/// The contents of a `Phase`.
pub enum PhaseView {
    Connecting,
    Probing,
    Creating(AuthScheme, Option<Seq<char>>, ResponseHeadView),
    Reconnecting(AuthScheme),
    Draining(AuthScheme, Option<Seq<u8>>, int),
    Stepping(AuthScheme, int),
    Authorizing(AuthScheme, int),
    Finished,
}

impl Phase {
    spec fn contents(self) -> PhaseView {
        match self {
            Phase::Connecting => PhaseView::Connecting,
            Phase::Probing => PhaseView::Probing,
            Phase::Creating(scheme, challenge, response) => PhaseView::Creating(
                scheme,
                crate::http1::optional_text(challenge),
                response@,
            ),
            Phase::Reconnecting(scheme) => PhaseView::Reconnecting(scheme),
            Phase::Draining(scheme, challenge, round) => PhaseView::Draining(
                scheme,
                crate::server::optional_bytes(challenge),
                round as int,
            ),
            Phase::Stepping(scheme, round) => PhaseView::Stepping(scheme, round as int),
            Phase::Authorizing(scheme, round) => PhaseView::Authorizing(scheme, round as int),
            Phase::Finished => PhaseView::Finished,
        }
    }
}

/// A tunnel that is being opened: to which destination, through which proxy, and how.
pub struct Tunnel {
    upstream_host: String,
    auth: AuthMode,
    destination: Endpoint,
    phase: Phase,
}

/// The contents of a `Tunnel`.
pub struct TunnelView {
    pub upstream_host: Seq<char>,
    pub auth: AuthMode,
    pub destination: (Seq<char>, u16),
    pub phase: PhaseView,
}

impl View for Tunnel {
    type V = TunnelView;

    closed spec fn view(&self) -> TunnelView {
        TunnelView {
            upstream_host: self.upstream_host@,
            auth: self.auth,
            destination: self.destination@,
            phase: self.phase.contents(),
        }
    }
}

/// Ends with an error.
pub open spec fn failed(error: ProxyError) -> (PhaseView, ActionView) {
    (PhaseView::Finished, ActionView::Fail(error))
}

/// Begins a round on the connection on which its challenge came: the body of the response is to be
/// skipped, and there is no such round on a connection that ends with the response.
pub open spec fn round_begun(
    scheme: AuthScheme,
    challenge: Option<Seq<u8>>,
    round: int,
    response: ResponseHeadView,
) -> (PhaseView, ActionView) {
    if response.closes() {
        failed(ProxyError::ConnectionClosedDuringAuth)
    } else {
        match crate::body::framing(response) {
            Err(error) => failed(ProxyError::Http(error)),
            Ok(drain) => (
                PhaseView::Draining(scheme, challenge, round),
                ActionView::Drain(drain),
            ),
        }
    }
}

/// What the answer to the request without a token leads to.
pub open spec fn after_probe(
    upstream_host: Seq<char>,
    auth: AuthMode,
    response: ResponseHeadView,
) -> (PhaseView, ActionView) {
    if crate::server::success(response.status) {
        (PhaseView::Finished, ActionView::Established)
    } else if response.status != 407 {
        failed(ProxyError::UpstreamStatus(response.status))
    } else {
        match crate::server::chosen_scheme(response, auth) {
            Err(error) => failed(error),
            Ok((scheme, challenge)) => (
                PhaseView::Creating(scheme, challenge, response),
                ActionView::CreateContext(
                    scheme,
                    crate::wire::target_name_text(upstream_host),
                ),
            ),
        }
    }
}

/// What follows when the security context has been created. A challenge without a token is not
/// bound to its connection, so that a connection which ends with it is replaced by a new one.
pub open spec fn after_context(
    scheme: AuthScheme,
    challenge: Option<Seq<char>>,
    response: ResponseHeadView,
) -> (PhaseView, ActionView) {
    match crate::server::challenge_bytes(challenge) {
        Err(error) => failed(error),
        Ok(bytes) => if response.closes() && bytes is None {
            (PhaseView::Reconnecting(scheme), ActionView::Connect)
        } else {
            round_begun(scheme, bytes, 0, response)
        },
    }
}

/// What the answer to the token of round `round` leads to.
pub open spec fn after_round(
    scheme: AuthScheme,
    round: int,
    response: ResponseHeadView,
) -> (PhaseView, ActionView) {
    if crate::server::success(response.status) {
        (PhaseView::Finished, ActionView::Established)
    } else if response.status != 407 {
        failed(ProxyError::UpstreamStatus(response.status))
    } else {
        match crate::server::challenge_of(response, scheme) {
            None => failed(ProxyError::AuthenticationSchemeMissing),
            Some(challenge) => match crate::server::challenge_bytes(challenge) {
                Err(error) => failed(error),
                Ok(bytes) => if round + 1 >= MAX_AUTH_ROUNDS {
                    failed(ProxyError::TooManyAuthenticationRounds)
                } else {
                    round_begun(scheme, bytes, round + 1, response)
                },
            },
        }
    }
}

impl TunnelView {
    /// Whether an event can happen in this phase.
    pub open spec fn accepts(self, event: EventView) -> bool {
        match event {
            EventView::Connected => self.phase is Connecting || self.phase is Reconnecting,
            EventView::Response(_) => self.phase is Probing || self.phase is Authorizing,
            EventView::ContextReady => self.phase is Creating,
            EventView::Drained => self.phase is Draining,
            EventView::Token(token) => self.phase is Stepping && crate::wire::token_fits(
                token.len() as int,
            ),
            EventView::Failed(_) => !(self.phase is Finished),
        }
    }

    /// The request to the upstream proxy.
    pub open spec fn request(self, authorization: Option<Seq<char>>) -> Seq<char> {
        crate::wire::head_text(
            crate::wire::request_lines(
                crate::config::endpoint_text(self.destination),
                authorization,
            ),
        )
    }

    /// What an event leads to: the next phase, and what is to be done.
    pub open spec fn next(self, event: EventView) -> (PhaseView, ActionView) {
        match (self.phase, event) {
            (_, EventView::Failed(error)) => failed(error),
            (PhaseView::Connecting, EventView::Connected) => (
                PhaseView::Probing,
                ActionView::Exchange(self.request(None)),
            ),
            (PhaseView::Probing, EventView::Response(response)) => after_probe(
                self.upstream_host,
                self.auth,
                response,
            ),
            (
                PhaseView::Creating(scheme, challenge, response),
                EventView::ContextReady,
            ) => after_context(scheme, challenge, response),
            (PhaseView::Reconnecting(scheme), EventView::Connected) => (
                PhaseView::Stepping(scheme, 0),
                ActionView::Step(None),
            ),
            (PhaseView::Draining(scheme, challenge, round), EventView::Drained) => (
                PhaseView::Stepping(scheme, round),
                ActionView::Step(challenge),
            ),
            (PhaseView::Stepping(scheme, round), EventView::Token(token)) => (
                PhaseView::Authorizing(scheme, round),
                ActionView::Exchange(
                    self.request(Some(crate::wire::authorization_text(scheme, token))),
                ),
            ),
            (PhaseView::Authorizing(scheme, round), EventView::Response(response)) => after_round(
                scheme,
                round,
                response,
            ),
            _ => (self.phase, ActionView::Connect),
        }
    }
}

/// Begins a round.
fn begin_round(
    scheme: AuthScheme,
    challenge: Option<Vec<u8>>,
    round: usize,
    response: &ResponseHead,
) -> (step: (Phase, TunnelAction))
    ensures
        (step.0.contents(), step.1@) == round_begun(
            scheme,
            crate::server::optional_bytes(challenge),
            round as int,
            response@,
        ),
{
    if response.connection_close() {
        return (Phase::Finished, TunnelAction::Fail(ProxyError::ConnectionClosedDuringAuth));
    }
    match BodyDrain::new(response) {
        Err(error) => (Phase::Finished, TunnelAction::Fail(ProxyError::Http(error))),
        Ok(drain) => (Phase::Draining(scheme, challenge, round), TunnelAction::Drain(drain)),
    }
}

/// Goes on after the answer to the token of round `round`.
fn finish_round(scheme: AuthScheme, round: usize, response: &ResponseHead) -> (step: (
    Phase,
    TunnelAction,
))
    ensures
        (step.0.contents(), step.1@) == after_round(scheme, round as int, response@),
{
    if is_connect_success(response) {
        return (Phase::Finished, TunnelAction::Established);
    }
    if response.status != 407 {
        return (Phase::Finished, TunnelAction::Fail(ProxyError::UpstreamStatus(response.status)));
    }
    match find_challenge(response, scheme) {
        None => (Phase::Finished, TunnelAction::Fail(ProxyError::AuthenticationSchemeMissing)),
        Some(challenge) => match decode_challenge(challenge) {
            Err(error) => (Phase::Finished, TunnelAction::Fail(error)),
            Ok(bytes) => {
                if round >= MAX_AUTH_ROUNDS - 1 {
                    return (
                        Phase::Finished,
                        TunnelAction::Fail(ProxyError::TooManyAuthenticationRounds),
                    );
                }
                begin_round(scheme, bytes, round + 1, response)
            },
        },
    }
}

impl Tunnel {
    /// A tunnel to `destination`. The first thing to be done is to connect to the upstream proxy.
    pub fn new(upstream: &Endpoint, auth: AuthMode, destination: Endpoint) -> (tunnel: Self)
        ensures
            tunnel@ == (TunnelView {
                upstream_host: upstream@.0,
                auth,
                destination: destination@,
                phase: PhaseView::Connecting,
            }),
    {
        Self {
            upstream_host: upstream.host().to_owned(),
            auth,
            destination,
            phase: Phase::Connecting,
        }
    }

    /// Goes on after the answer to the request without a token.
    fn finish_probe(&self, response: ResponseHead) -> (step: (Phase, TunnelAction))
        ensures
            (step.0.contents(), step.1@) == after_probe(
                self@.upstream_host,
                self@.auth,
                response@,
            ),
    {
        if is_connect_success(&response) {
            return (Phase::Finished, TunnelAction::Established);
        }
        if response.status != 407 {
            return (
                Phase::Finished,
                TunnelAction::Fail(ProxyError::UpstreamStatus(response.status)),
            );
        }
        let (scheme, token) = match choose_scheme(&response, self.auth) {
            Err(error) => return (Phase::Finished, TunnelAction::Fail(error)),
            Ok((scheme, challenge)) => (
                scheme,
                match challenge.token {
                    Some(token) => Some(token.to_owned()),
                    None => None,
                },
            ),
        };
        let name = target_name(self.upstream_host.as_str());
        (
            Phase::Creating(scheme, token, response),
            TunnelAction::CreateContext(scheme, name),
        )
    }

    /// Goes on when the security context has been created.
    fn begin_handshake(scheme: AuthScheme, token: Option<String>, response: ResponseHead) -> (step:
        (Phase, TunnelAction))
        ensures
            (step.0.contents(), step.1@) == after_context(
                scheme,
                crate::http1::optional_text(token),
                response@,
            ),
    {
        let challenge = Challenge {
            token: match &token {
                Some(token) => Some(token.as_str()),
                None => None,
            },
        };
        match decode_challenge(challenge) {
            Err(error) => (Phase::Finished, TunnelAction::Fail(error)),
            Ok(bytes) => {
                if response.connection_close() && bytes.is_none() {
                    return (Phase::Reconnecting(scheme), TunnelAction::Connect);
                }
                begin_round(scheme, bytes, 0, &response)
            },
        }
    }

    /// Tells whether an event can happen in this phase.
    pub fn accepts(&self, event: &TunnelEvent) -> (answer: bool)
        ensures
            answer == self@.accepts(event@),
    {
        match event {
            TunnelEvent::Connected => match self.phase {
                Phase::Connecting => true,
                Phase::Reconnecting(_) => true,
                _ => false,
            },
            TunnelEvent::Response(_) => self.awaits_response(),
            TunnelEvent::ContextReady => match self.phase {
                Phase::Creating(_, _, _) => true,
                _ => false,
            },
            TunnelEvent::Drained => match self.phase {
                Phase::Draining(_, _, _) => true,
                _ => false,
            },
            TunnelEvent::Token(token) => match self.phase {
                Phase::Stepping(_, _) => fits(token.len()),
                _ => false,
            },
            TunnelEvent::Failed(_) => !self.is_over(),
        }
    }

    /// Tells whether a request has been sent and not been answered.
    pub fn awaits_response(&self) -> (answer: bool)
        ensures
            answer == (self@.phase is Probing || self@.phase is Authorizing),
    {
        match self.phase {
            Phase::Probing => true,
            Phase::Authorizing(_, _) => true,
            _ => false,
        }
    }

    /// Tells whether the tunnel stands or has failed.
    pub fn is_over(&self) -> (answer: bool)
        ensures
            answer == (self@.phase is Finished),
    {
        match self.phase {
            Phase::Finished => true,
            _ => false,
        }
    }

    /// Takes in what has happened, and tells what is to be done next.
    pub fn next(&mut self, event: TunnelEvent) -> (action: TunnelAction)
        requires
            old(self)@.accepts(event@),
        ensures
            (final(self)@.phase, action@) == old(self)@.next(event@),
            final(self)@ == (TunnelView { phase: final(self)@.phase, ..old(self)@ }),
    {
        let mut phase = Phase::Finished;
        core::mem::swap(&mut phase, &mut self.phase);
        let (phase, action) = match event {
            TunnelEvent::Failed(error) => (Phase::Finished, TunnelAction::Fail(error)),
            TunnelEvent::Connected => match phase {
                Phase::Reconnecting(scheme) => (
                    Phase::Stepping(scheme, 0),
                    TunnelAction::Step(None),
                ),
                _ => (
                    Phase::Probing,
                    TunnelAction::Exchange(connect_request(&self.destination, None)),
                ),
            },
            TunnelEvent::Response(response) => match phase {
                Phase::Authorizing(scheme, round) => finish_round(scheme, round, &response),
                _ => self.finish_probe(response),
            },
            TunnelEvent::ContextReady => match phase {
                Phase::Creating(scheme, token, response) => Self::begin_handshake(
                    scheme,
                    token,
                    response,
                ),
                other => (other, TunnelAction::Connect),
            },
            TunnelEvent::Drained => match phase {
                Phase::Draining(scheme, challenge, round) => (
                    Phase::Stepping(scheme, round),
                    TunnelAction::Step(challenge),
                ),
                other => (other, TunnelAction::Connect),
            },
            TunnelEvent::Token(token) => match phase {
                Phase::Stepping(scheme, round) => {
                    let value = authorization(scheme, token.as_slice());
                    (
                        Phase::Authorizing(scheme, round),
                        TunnelAction::Exchange(
                            connect_request(&self.destination, Some(value.as_str())),
                        ),
                    )
                },
                other => (other, TunnelAction::Connect),
            },
        };
        self.phase = phase;
        action
    }
}

impl TunnelView {
    /// The same tunnel in another phase.
    pub open spec fn at(self, phase: PhaseView) -> TunnelView {
        TunnelView { phase, ..self }
    }

    /// What a number of events leads to, one after the other: the phase, and what was to be done,
    /// the first connection included.
    pub open spec fn run(self, events: Seq<EventView>) -> (PhaseView, Seq<ActionView>)
        decreases events.len(),
    {
        if events.len() == 0 {
            (self.phase, seq![ActionView::Connect])
        } else {
            let (phase, actions) = self.run(events.drop_last());
            let (next_phase, action) = self.at(phase).next(events.last());
            (next_phase, actions.push(action))
        }
    }

    /// Whether the events can happen one after the other.
    pub open spec fn possible(self, events: Seq<EventView>) -> bool
        decreases events.len(),
    {
        events.len() > 0 ==> self.possible(events.drop_last()) && self.at(
            self.run(events.drop_last()).0,
        ).accepts(events.last())
    }
}

/// The phases in which a security context is at work.
pub open spec fn authenticating(phase: PhaseView) -> bool {
    phase is Draining || phase is Stepping || phase is Authorizing
}

/// How many events lead to a phase.
pub open spec fn distance(phase: PhaseView) -> int {
    match phase {
        PhaseView::Connecting => 0,
        PhaseView::Probing => 1,
        PhaseView::Creating(_, _, _) => 2,
        PhaseView::Reconnecting(_) => 3,
        PhaseView::Draining(_, _, round) => 3 + 3 * round,
        PhaseView::Stepping(_, round) => 4 + 3 * round,
        PhaseView::Authorizing(_, round) => 5 + 3 * round,
        PhaseView::Finished => 3 + 3 * MAX_AUTH_ROUNDS,
    }
}

/// How many tokens have been asked for in a phase.
pub open spec fn tokens_asked(phase: PhaseView) -> int {
    match phase {
        PhaseView::Draining(_, _, round) => round,
        PhaseView::Stepping(_, round) => round + 1,
        PhaseView::Authorizing(_, round) => round + 1,
        _ => 0,
    }
}

/// The round of a phase.
pub open spec fn round_of(phase: PhaseView) -> int {
    match phase {
        PhaseView::Draining(_, _, round) => round,
        PhaseView::Stepping(_, round) => round,
        PhaseView::Authorizing(_, round) => round,
        _ => 0,
    }
}

/// The scheme of a phase, once it has been chosen.
pub open spec fn scheme_of(phase: PhaseView) -> Option<AuthScheme> {
    match phase {
        PhaseView::Creating(scheme, _, _) => Some(scheme),
        PhaseView::Reconnecting(scheme) => Some(scheme),
        PhaseView::Draining(scheme, _, _) => Some(scheme),
        PhaseView::Stepping(scheme, _) => Some(scheme),
        PhaseView::Authorizing(scheme, _) => Some(scheme),
        _ => None,
    }
}

/// The tokens that were asked for among what was to be done.
pub open spec fn steps(actions: Seq<ActionView>) -> Seq<ActionView> {
    actions.filter(|action: ActionView| action is Step)
}

/// The connections that were asked for among what was to be done.
pub open spec fn connects(actions: Seq<ActionView>) -> Seq<ActionView> {
    actions.filter(|action: ActionView| action is Connect)
}

/// The security contexts that were asked for among what was to be done.
pub open spec fn contexts(actions: Seq<ActionView>) -> Seq<ActionView> {
    actions.filter(|action: ActionView| action is CreateContext)
}

/// Counts one more.
proof fn lemma_push(actions: Seq<ActionView>, action: ActionView)
    ensures
        steps(actions.push(action)).len() == steps(actions).len() + if action is Step {
            1int
        } else {
            0
        },
        connects(actions.push(action)).len() == connects(actions).len() + if action is Connect {
            1int
        } else {
            0
        },
        contexts(actions.push(action)).len() == contexts(actions).len() + if action is CreateContext {
            1int
        } else {
            0
        },
{
    reveal(Seq::filter);
    assert(actions.push(action).drop_last() == actions);
}

/// What holds after any events: the phase tells how many of them there were, how many tokens,
/// connections and contexts were asked for, and which scheme was chosen.
proof fn lemma_run(tunnel: TunnelView, events: Seq<EventView>)
    requires
        tunnel.phase is Connecting,
        tunnel.possible(events),
    ensures
        ({
            let (phase, actions) = tunnel.run(events);
            &&& actions.len() == events.len() + 1
            &&& if phase is Finished {
                events.len() <= distance(phase)
            } else {
                events.len() == distance(phase)
            }
            &&& 0 <= round_of(phase) < MAX_AUTH_ROUNDS
            &&& if phase is Finished {
                &&& steps(actions).len() <= MAX_AUTH_ROUNDS
                &&& contexts(actions).len() <= 1
                &&& connects(actions).len() <= 2
            } else {
                &&& steps(actions).len() == tokens_asked(phase)
                &&& contexts(actions).len() == if scheme_of(phase) is Some {
                    1int
                } else {
                    0
                }
                &&& connects(actions).len() <= if phase is Reconnecting || authenticating(phase) {
                    2int
                } else {
                    1
                }
            }
            &&& scheme_of(phase) matches Some(scheme) ==> actions.contains(
                ActionView::CreateContext(
                    scheme,
                    crate::wire::target_name_text(tunnel.upstream_host),
                ),
            )
            &&& tunnel.auth == AuthMode::Disabled ==> scheme_of(phase) is None
        }),
    decreases events.len(),
{
    let (phase, actions) = tunnel.run(events);
    if events.len() == 0 {
        reveal(Seq::filter);
        assert(actions == Seq::<ActionView>::empty().push(ActionView::Connect));
        lemma_push(Seq::empty(), ActionView::Connect);
    } else {
        let (last_phase, last_actions) = tunnel.run(events.drop_last());
        let action = actions.last();
        lemma_run(tunnel, events.drop_last());
        lemma_push(last_actions, action);
        assert(actions == last_actions.push(action));
        if let Some(scheme) = scheme_of(phase) {
            let created = ActionView::CreateContext(
                scheme,
                crate::wire::target_name_text(tunnel.upstream_host),
            );
            if scheme_of(last_phase) == Some(scheme) {
                let i = choose|i: int| 0 <= i < last_actions.len() && last_actions[i] == created;
                assert(actions[i] == created);
            } else {
                assert(actions[actions.len() - 1] == created);
            }
        }
    }
}

/// At most four tokens are asked for, at most one security context, and at most two connections,
/// and it all ends after at most fifteen events.
pub proof fn law_handshake_is_bounded(tunnel: TunnelView, events: Seq<EventView>)
    requires
        tunnel.phase is Connecting,
        tunnel.possible(events),
    ensures
        steps(tunnel.run(events).1).len() <= MAX_AUTH_ROUNDS,
        contexts(tunnel.run(events).1).len() <= 1,
        connects(tunnel.run(events).1).len() <= 2,
        events.len() <= 3 + 3 * MAX_AUTH_ROUNDS,
        MAX_AUTH_ROUNDS == 4,
{
    lemma_run(tunnel, events);
}

/// What was to be done stays what it was when more happens.
proof fn lemma_actions_stay(tunnel: TunnelView, events: Seq<EventView>, i: int)
    requires
        tunnel.phase is Connecting,
        tunnel.possible(events),
        0 <= i <= events.len(),
    ensures
        tunnel.possible(events.take(i)),
        tunnel.run(events).1.len() == events.len() + 1,
        tunnel.run(events).1[i] == tunnel.run(events.take(i)).1.last(),
        i < events.len() ==> tunnel.at(tunnel.run(events.take(i)).0).accepts(events[i]),
        i < events.len() ==> tunnel.run(events.take(i + 1)).0 == tunnel.at(
            tunnel.run(events.take(i)).0,
        ).next(events[i]).0,
        i < events.len() ==> tunnel.run(events.take(i + 1)).1.last() == tunnel.at(
            tunnel.run(events.take(i)).0,
        ).next(events[i]).1,
    decreases events.len(),
{
    lemma_run(tunnel, events);
    if i == events.len() {
        assert(events.take(i) == events);
    } else {
        let before = events.drop_last();
        lemma_actions_stay(tunnel, before, i);
        assert(before.take(i) == events.take(i));
        if i == before.len() {
            assert(events.take(i + 1) == events);
            assert(before.take(i) == before);
        } else {
            assert(before.take(i + 1) == events.take(i + 1));
        }
    }
}

/// After a token has been asked for, the handshake is under way or over.
proof fn lemma_after_step(tunnel: TunnelView, events: Seq<EventView>, i: int)
    requires
        tunnel.phase is Connecting,
        tunnel.possible(events),
        0 <= i <= events.len(),
        tunnel.run(events).1[i] is Step,
    ensures
        authenticating(tunnel.run(events).0) || tunnel.run(events).0 is Finished,
    decreases events.len(),
{
    if events.len() > 0 {
        lemma_run(tunnel, events);
        lemma_run(tunnel, events.drop_last());
        if i < events.len() {
            lemma_after_step(tunnel, events.drop_last(), i);
        }
    }
}

/// Once a token has been asked for, there is no other connection: every later round takes place
/// on the connection on which the first token was sent.
pub proof fn law_tokens_keep_their_connection(
    tunnel: TunnelView,
    events: Seq<EventView>,
    i: int,
    j: int,
)
    requires
        tunnel.phase is Connecting,
        tunnel.possible(events),
        0 <= i < j <= events.len(),
        tunnel.run(events).1[i] is Step,
    ensures
        !(tunnel.run(events).1[j] is Connect),
{
    lemma_actions_stay(tunnel, events, i);
    lemma_actions_stay(tunnel, events, j);
    lemma_actions_stay(tunnel, events, j - 1);
    let before = events.take(j - 1);
    lemma_actions_stay(tunnel, before, i);
    assert(before.take(i) == events.take(i));
    lemma_after_step(tunnel, before, i);
}

/// A second connection is made only in place of one that ended with a challenge without a token.
pub proof fn law_reconnects_only_without_token(tunnel: TunnelView, event: EventView)
    requires
        tunnel.accepts(event),
        tunnel.next(event).1 is Connect,
    ensures
        tunnel.phase matches PhaseView::Creating(_, challenge, response) && challenge is None
            && response.closes(),
{
}

/// With authentication disabled, no security context is created and no token is asked for, and
/// the only request that is ever sent is the one without a token.
pub proof fn law_disabled_sends_no_token(tunnel: TunnelView, events: Seq<EventView>, i: int)
    requires
        tunnel.phase is Connecting,
        tunnel.auth == AuthMode::Disabled,
        tunnel.possible(events),
        0 <= i <= events.len(),
    ensures
        !(tunnel.run(events).1[i] is CreateContext),
        !(tunnel.run(events).1[i] is Step),
        tunnel.run(events).1[i] matches ActionView::Exchange(request) ==> request == tunnel.request(
            None,
        ),
{
    lemma_actions_stay(tunnel, events, i);
    if i > 0 {
        lemma_actions_stay(tunnel, events, i - 1);
        lemma_run(tunnel, events.take(i - 1));
    }
}

/// A token is sent as it came, under the scheme for which the one security context was created.
pub proof fn law_tokens_are_sent_unchanged(tunnel: TunnelView, events: Seq<EventView>, i: int)
    requires
        tunnel.phase is Connecting,
        tunnel.possible(events),
        0 <= i < events.len(),
        events[i] is Token,
    ensures
        exists|scheme: AuthScheme|
            tunnel.run(events).1[i + 1] == ActionView::Exchange(
                tunnel.request(
                    Some(#[trigger] crate::wire::authorization_text(scheme, events[i]->Token_0)),
                ),
            ) && tunnel.run(events).1.contains(
                ActionView::CreateContext(
                    scheme,
                    crate::wire::target_name_text(tunnel.upstream_host),
                ),
            ),
{
    lemma_actions_stay(tunnel, events, i);
    lemma_actions_stay(tunnel, events, i + 1);
    let before = events.take(i);
    lemma_run(tunnel, before);
    let scheme = scheme_of(tunnel.run(before).0)->0;
    let created = ActionView::CreateContext(
        scheme,
        crate::wire::target_name_text(tunnel.upstream_host),
    );
    let actions = tunnel.run(before).1;
    let k = choose|k: int| 0 <= k < actions.len() && actions[k] == created;
    lemma_actions_stay(tunnel, events, k);
    lemma_actions_stay(tunnel, before, k);
    assert(before.take(k) == events.take(k));
    assert(tunnel.run(events).1[k] == created);
}

/// Every request to the upstream proxy is one head and nothing else, for any destination that can
/// be read and any token: it ends, as a head, exactly where it ends as text.
pub proof fn law_requests_end_where_written(
    tunnel: TunnelView,
    events: Seq<EventView>,
    i: int,
    rest: Seq<u8>,
)
    requires
        tunnel.phase is Connecting,
        tunnel.possible(events),
        crate::config::valid_endpoint(tunnel.destination),
        0 <= i <= events.len(),
        tunnel.run(events).1[i] is Exchange,
    ensures
        ({
            let request = encode_utf8(tunnel.run(events).1[i]->Exchange_0);
            crate::http1::head_end(request + rest) == Some(request.len() as int)
        }),
{
    lemma_actions_stay(tunnel, events, i);
    lemma_actions_stay(tunnel, events, i - 1);
    let phase = tunnel.run(events.take(i - 1)).0;
    let credentials = match (phase, events[i - 1]) {
        (PhaseView::Stepping(scheme, _), EventView::Token(token)) => Some((scheme, token)),
        _ => None,
    };
    assert(tunnel.run(events).1[i]->Exchange_0 == tunnel.request(
        crate::wire::credentials_text(credentials),
    ));
    crate::wire::law_request_ends_where_written(tunnel.destination, credentials, rest);
}

/// A tunnel stands only after a response that says so.
pub proof fn law_established_after_success(tunnel: TunnelView, event: EventView)
    requires
        tunnel.accepts(event),
        tunnel.next(event).1 is Established,
    ensures
        event matches EventView::Response(response) && crate::server::success(response.status),
{
}

/// It is over exactly when the tunnel stands or has failed, and then nothing more can happen.
pub proof fn law_end_is_final(tunnel: TunnelView, event: EventView, later: EventView)
    requires
        tunnel.accepts(event),
    ensures
        tunnel.next(event).0 is Finished <==> (tunnel.next(event).1 is Established || tunnel.next(
            event,
        ).1 is Fail),
        tunnel.next(event).0 is Finished ==> !tunnel.at(tunnel.next(event).0).accepts(later),
{
}

/// A tunnel that awaits a response stands exactly if that has a status of 200 to 299, in every mode
/// and in every round. Any status but these and 407 is the reason why there is none.
pub proof fn law_every_success_establishes(tunnel: TunnelView, response: ResponseHeadView)
    requires
        tunnel.phase is Probing || tunnel.phase is Authorizing,
    ensures
        tunnel.next(EventView::Response(response)).1 is Established <==> 200 <= response.status
            <= 299,
        !(200 <= response.status <= 299) && response.status != 407 ==> tunnel.next(
            EventView::Response(response),
        ) == (PhaseView::Finished, ActionView::Fail(ProxyError::UpstreamStatus(response.status))),
{
}

/// Whether a request goes to the destination, with these credentials or without.
pub open spec fn asks_for(
    request: Seq<char>,
    destination: (Seq<char>, u16),
    credentials: Option<Seq<char>>,
) -> bool {
    let target = crate::config::endpoint_text(destination);
    let front = "CONNECT "@ + target + " HTTP/1.1\r\nHost: "@ + target
        + "\r\nProxy-Connection: Keep-Alive\r\nConnection: Keep-Alive\r\n"@;
    match credentials {
        Some(value) => request == front + "Proxy-Authorization: "@ + value + "\r\n\r\n"@,
        None => request == front + "\r\n"@,
    }
}

/// Whether a round begins so, on the connection on which its challenge came.
pub open spec fn begins_round(
    scheme: AuthScheme,
    challenge: Option<Seq<u8>>,
    round: int,
    response: ResponseHeadView,
    phase: PhaseView,
    action: ActionView,
) -> bool {
    let framing = crate::body::framing(response);
    if response.closes() {
        action == ActionView::Fail(ProxyError::ConnectionClosedDuringAuth)
    } else if framing is Err {
        action == ActionView::Fail(ProxyError::Http(framing->Err_0))
    } else {
        action == ActionView::Drain(framing->Ok_0) && phase == PhaseView::Draining(
            scheme,
            challenge,
            round,
        )
    }
}

/// Whether an answer of the proxy leads there.
pub open spec fn right_answer(
    tunnel: TunnelView,
    response: ResponseHeadView,
    phase: PhaseView,
    action: ActionView,
) -> bool {
    if 200 <= response.status <= 299 {
        action is Established
    } else if response.status != 407 {
        action == ActionView::Fail(ProxyError::UpstreamStatus(response.status))
    } else {
        match tunnel.phase {
            PhaseView::Authorizing(scheme, round) => match crate::server::challenge_of(
                response,
                scheme,
            ) {
                None => action == ActionView::Fail(ProxyError::AuthenticationSchemeMissing),
                Some(challenge) => match crate::server::challenge_bytes(challenge) {
                    Err(error) => action == ActionView::Fail(error),
                    Ok(bytes) => if round < 3 {
                        begins_round(scheme, bytes, round + 1, response, phase, action)
                    } else {
                        action == ActionView::Fail(ProxyError::TooManyAuthenticationRounds)
                    },
                },
            },
            _ => forall|chosen: Result<(AuthScheme, Option<Seq<char>>), ProxyError>|
                #[trigger] crate::server::right_choice(response, tunnel.auth, chosen)
                    ==> match chosen {
                    Err(error) => action == ActionView::Fail(error),
                    Ok((scheme, challenge)) => {
                        &&& action == ActionView::CreateContext(
                            scheme,
                            "HTTP/"@ + tunnel.upstream_host,
                        )
                        &&& phase == PhaseView::Creating(scheme, challenge, response)
                    },
                },
        }
    }
}

/// Whether what has happened leads there: to this phase, and to what is then to be done.
pub open spec fn right_step(
    tunnel: TunnelView,
    event: EventView,
    phase: PhaseView,
    action: ActionView,
) -> bool {
    match event {
        EventView::Failed(error) => action == ActionView::Fail(error),
        EventView::Connected => match tunnel.phase {
            PhaseView::Reconnecting(scheme) => {
                &&& action == ActionView::Step(None)
                &&& phase == PhaseView::Stepping(scheme, 0)
            },
            _ => {
                &&& action matches ActionView::Exchange(request) && asks_for(
                    request,
                    tunnel.destination,
                    None,
                )
                &&& phase is Probing
            },
        },
        EventView::Response(response) => right_answer(tunnel, response, phase, action),
        EventView::ContextReady => tunnel.phase matches PhaseView::Creating(
            scheme,
            challenge,
            response,
        ) && match crate::server::challenge_bytes(challenge) {
            Err(error) => action == ActionView::Fail(error),
            Ok(bytes) => if bytes is None && response.closes() {
                action is Connect && phase == PhaseView::Reconnecting(scheme)
            } else {
                begins_round(scheme, bytes, 0, response, phase, action)
            },
        },
        EventView::Drained => tunnel.phase matches PhaseView::Draining(scheme, challenge, round)
            && action == ActionView::Step(challenge) && phase == PhaseView::Stepping(scheme, round),
        EventView::Token(token) => tunnel.phase matches PhaseView::Stepping(scheme, round) && (
        action matches ActionView::Exchange(request) && asks_for(
            request,
            tunnel.destination,
            Some(
                match scheme {
                    AuthScheme::Negotiate => "Negotiate "@,
                    AuthScheme::Ntlm => "NTLM "@,
                } + crate::encoding::base64(token),
            ),
        )) && phase == PhaseView::Authorizing(scheme, round),
    }
}

/// What each event leads to, in every phase. The first request has no credentials. An answer of 2xx
/// ends it well, and any but 407 badly. A 407 has the context created for the scheme that the mode
/// chooses, with the name of the upstream proxy. Its challenge goes to the context once the rest of
/// the response is skipped, or on a new connection if it has no token and the old one ends. The
/// token that comes of it is sent under that scheme. Three more rounds may follow, each with the
/// challenge of the last answer.
pub proof fn law_tunnel_goes_on(tunnel: TunnelView, event: EventView)
    requires
        tunnel.accepts(event),
    ensures
        right_step(tunnel, event, tunnel.next(event).0, tunnel.next(event).1),
{
    crate::wire::law_request_text(crate::config::endpoint_text(tunnel.destination), None);
    if let (PhaseView::Stepping(scheme, _), EventView::Token(token)) = (tunnel.phase, event) {
        let value = crate::wire::authorization_text(scheme, token);
        crate::wire::law_request_text(
            crate::config::endpoint_text(tunnel.destination),
            Some(value),
        );
        reveal_strlit("Negotiate");
        reveal_strlit("NTLM");
        reveal_strlit("Negotiate ");
        reveal_strlit("NTLM ");
        reveal_strlit(" ");
        assert("Negotiate "@ == "Negotiate"@ + " "@);
        assert("NTLM "@ == "NTLM"@ + " "@);
    }
    if let EventView::Response(response) = event {
        if tunnel.phase is Probing && response.status == 407 {
            assert forall|chosen: Result<(AuthScheme, Option<Seq<char>>), ProxyError>|
                #[trigger] crate::server::right_choice(
                    response,
                    tunnel.auth,
                    chosen,
                ) implies chosen == crate::server::chosen_scheme(response, tunnel.auth) by {}
        }
    }
}

/// The same of the tunnel itself, which is to the destination, through the proxy and in the mode
/// with which it was made, from beginning to end.
pub proof fn law_tunnels_go_on(
    upstream: &Endpoint,
    auth: AuthMode,
    destination: Endpoint,
    fresh: Tunnel,
    tunnel: &mut Tunnel,
    event: TunnelEvent,
    action: TunnelAction,
)
    requires
        call_ensures(Tunnel::new, (upstream, auth, destination), fresh),
        old(tunnel)@.accepts(event@),
        call_ensures(Tunnel::next, (tunnel, event), action),
    ensures
        fresh@.upstream_host == upstream@.0,
        fresh@.auth == auth,
        fresh@.destination == destination@,
        fresh@.phase is Connecting,
        final(tunnel)@.upstream_host == old(tunnel)@.upstream_host,
        final(tunnel)@.auth == old(tunnel)@.auth,
        final(tunnel)@.destination == old(tunnel)@.destination,
        right_step(old(tunnel)@, event@, final(tunnel)@.phase, action@),
{
    law_tunnel_goes_on(old(tunnel)@, event@);
}

/// Whatever is to be done can be reported: the event that answers to it is accepted, and so is that
/// it has failed, until it is over.
pub proof fn law_answers_are_accepted(
    tunnel: TunnelView,
    event: EventView,
    response: ResponseHeadView,
    token: Seq<u8>,
    error: ProxyError,
)
    requires
        tunnel.accepts(event),
    ensures
        ({
            let (phase, action) = tunnel.next(event);
            let then = tunnel.at(phase);
            &&& match action {
                ActionView::Connect => then.accepts(EventView::Connected),
                ActionView::Exchange(_) => then.accepts(EventView::Response(response)),
                ActionView::CreateContext(_, _) => then.accepts(EventView::ContextReady),
                ActionView::Drain(_) => then.accepts(EventView::Drained),
                ActionView::Step(_) => crate::encoding::base64(token).len() <= isize::MAX
                    ==> then.accepts(EventView::Token(token)),
                ActionView::Established | ActionView::Fail(_) => phase is Finished,
            }
            &&& !(phase is Finished) ==> then.accepts(EventView::Failed(error))
        }),
        tunnel.at(PhaseView::Connecting).accepts(EventView::Connected),
        tunnel.at(PhaseView::Connecting).accepts(EventView::Failed(error)),
{
}

/// Which events can happen is known of a tunnel: a connection, an answer, a context, the end of a
/// body and a token only where they were asked for, and a failure until it is over.
pub proof fn law_tunnel_tells_what_it_accepts(
    tunnel: &Tunnel,
    event: &TunnelEvent,
    answer: bool,
    awaits: bool,
    over: bool,
)
    requires
        call_ensures(Tunnel::accepts, (tunnel, event), answer),
        call_ensures(Tunnel::awaits_response, (tunnel,), awaits),
        call_ensures(Tunnel::is_over, (tunnel,), over),
    ensures
        answer <==> match *event {
            TunnelEvent::Connected => tunnel@.phase is Connecting || tunnel@.phase is Reconnecting,
            TunnelEvent::Response(_) => tunnel@.phase is Probing || tunnel@.phase is Authorizing,
            TunnelEvent::ContextReady => tunnel@.phase is Creating,
            TunnelEvent::Drained => tunnel@.phase is Draining,
            TunnelEvent::Token(token) => tunnel@.phase is Stepping && crate::encoding::base64(
                token@,
            ).len() <= isize::MAX,
            TunnelEvent::Failed(_) => !(tunnel@.phase is Finished),
        },
        awaits == (tunnel@.phase is Probing || tunnel@.phase is Authorizing),
        over == (tunnel@.phase is Finished),
{
}

} // verus!
