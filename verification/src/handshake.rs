//! Opening a tunnel with a security context at hand.

use vstd::prelude::*;
use vstd::string::*;

use crate::auth::{AuthContext, AuthError, AuthFactory, AuthScheme, NativeAuthFactory};
use crate::body::BodyDrain;
use crate::config::{AuthMode, Endpoint};
use crate::http1::{ResponseHead, ResponseHeadView};
use crate::server::ProxyError;
use crate::tunnel::{ActionView, EventView, PhaseView, Tunnel, TunnelAction, TunnelEvent, TunnelView};
use crate::wire::fits;

verus! {

/// What has happened on the way to the upstream proxy.
#[derive(Debug)]
pub enum HandshakeEvent {
    /// A new connection to the upstream proxy stands.
    Connected,
    /// The upstream proxy has answered the last request.
    Response(ResponseHead),
    /// The body of the last response has been skipped.
    Drained,
    /// What was to be done has failed.
    Failed(ProxyError),
}

impl View for HandshakeEvent {
    type V = EventView;

    open spec fn view(&self) -> EventView {
        match *self {
            HandshakeEvent::Connected => EventView::Connected,
            HandshakeEvent::Response(response) => EventView::Response(response@),
            HandshakeEvent::Drained => EventView::Drained,
            HandshakeEvent::Failed(error) => EventView::Failed(error),
        }
    }
}

/// What is to be done next on the way to the upstream proxy.
#[derive(Debug)]
pub enum HandshakeAction {
    /// Connect to the upstream proxy, in place of the connection there may have been.
    Connect,
    /// Send this request on the connection and read the head of the response.
    Exchange(String),
    /// Skip the body of the last response.
    Drain(BodyDrain),
    /// Nothing: the connection is the tunnel.
    Established,
    /// Nothing: there is no tunnel.
    Fail(ProxyError),
}

impl View for HandshakeAction {
    type V = ActionView;

    open spec fn view(&self) -> ActionView {
        match *self {
            HandshakeAction::Connect => ActionView::Connect,
            HandshakeAction::Exchange(request) => ActionView::Exchange(request@),
            HandshakeAction::Drain(drain) => ActionView::Drain(drain),
            HandshakeAction::Established => ActionView::Established,
            HandshakeAction::Fail(error) => ActionView::Fail(error),
        }
    }
}

/// The contents of an optional slice.
pub open spec fn slice_contents(slice: Option<&[u8]>) -> Option<Seq<u8>> {
    match slice {
        Some(s) => Some(s@),
        None => None,
    }
}

/// What creates security contexts of a type.
pub trait ContextSource<C: AuthContext + ?Sized> {
    /// Creates a security context for a scheme and a target name.
    fn create_context(&self, scheme: AuthScheme, target_name: &str) -> Result<Box<C>, AuthError>;
}

impl<F: AuthFactory + ?Sized> ContextSource<dyn AuthContext> for F {
    /// Calls `AuthFactory::create`.
    fn create_context(&self, scheme: AuthScheme, target_name: &str) -> (returned: Result<
        Box<dyn AuthContext>,
        AuthError,
    >)
        ensures
            call_ensures(F::create, (self, scheme, target_name), returned),
    {
        self.create(scheme, target_name)
    }
}

/// Whether `ContextSource::create_context` for this scheme and this target name may return this.
pub open spec fn may_create<S: ContextSource<C> + ?Sized, C: AuthContext + ?Sized>(
    source: &S,
    scheme: AuthScheme,
    name: Seq<char>,
    returned: Result<Box<C>, AuthError>,
) -> bool {
    exists|given: &str| given@ == name && #[trigger] call_ensures(
        <S as ContextSource<C>>::create_context,
        (source, scheme, given),
        returned,
    )
}

/// What a step replaces.
pub trait Advance: Sized {
    /// Takes a step with a challenge, and returns what is there after it, with what came of it.
    fn advance(self, challenge: Option<&[u8]>) -> (Self, Result<Vec<u8>, AuthError>);
}

/// Steps a security context.
fn step_context<C: AuthContext + ?Sized>(context: &mut C, challenge: Option<&[u8]>) -> (returned:
    Result<Vec<u8>, AuthError>)
    ensures
        exists|receiver: &mut C|
            #![trigger call_ensures(C::step, (receiver, challenge), returned)]
            &*receiver == &*old(context) && &*final(receiver) == &*final(context) && call_ensures(
                C::step,
                (receiver, challenge),
                returned,
            ),
{
    context.step(challenge)
}

impl<C: AuthContext + ?Sized> Advance for Box<C> {
    /// Calls `AuthContext::step` on the security context in the box.
    fn advance(self, challenge: Option<&[u8]>) -> (stepped: (Self, Result<Vec<u8>, AuthError>))
        ensures
            exists|receiver: &mut C|
                #![trigger call_ensures(C::step, (receiver, challenge), stepped.1)]
                &*receiver == &*self && &*final(receiver) == &*stepped.0 && call_ensures(
                    C::step,
                    (receiver, challenge),
                    stepped.1,
                ),
    {
        let mut context = self;
        let returned = step_context(&mut *context, challenge);
        let stepped = (context, returned);
        assert(stepped.1 == returned && stepped.0 == context);
        stepped
    }
}

/// Whether `Advance::advance` with this argument may turn `before` into `after` and return this.
pub open spec fn advanced<H: Advance>(
    before: H,
    given: Option<&[u8]>,
    after: H,
    returned: Result<Vec<u8>, AuthError>,
) -> bool {
    call_ensures(H::advance, (before, given), (after, returned))
}

/// Whether `Advance::advance` with this challenge may turn `before` into `after` and return this.
pub open spec fn stepped<H: Advance>(
    before: H,
    challenge: Option<Seq<u8>>,
    after: H,
    returned: Result<Vec<u8>, AuthError>,
) -> bool {
    exists|given: Option<&[u8]>|
        slice_contents(given) == challenge && #[trigger] advanced(before, given, after, returned)
}

/// Whether a call of `AuthContext::step` with this challenge, on the security context that there is
/// before it, may return this and leave the context as the one that there is after it.
pub open spec fn may_step<C: AuthContext + ?Sized>(
    before: Option<Box<C>>,
    challenge: Option<Seq<u8>>,
    after: Option<Box<C>>,
    returned: Result<Vec<u8>, AuthError>,
) -> bool {
    match (before, after) {
        (Some(b), Some(a)) => stepped(b, challenge, a, returned),
        _ => false,
    }
}

/// Takes a step.
fn take_step<H: Advance>(held: H, challenge: Option<&[u8]>) -> (stepped: (
    H,
    Result<Vec<u8>, AuthError>,
))
    ensures
        advanced(held, challenge, stepped.0, stepped.1),
{
    let stepped = held.advance(challenge);
    assert(stepped == (stepped.0, stepped.1));
    stepped
}

/// Whether this is the security context that there is after a creation.
pub open spec fn is_created<C: AuthContext + ?Sized>(
    context: Option<Box<C>>,
    returned: Result<Box<C>, AuthError>,
) -> bool {
    match returned {
        Ok(created) => context == Some(created),
        Err(_) => context is None,
    }
}

/// What the creation of a security context means to the tunnel.
pub open spec fn creation_event<C: AuthContext + ?Sized>(
    returned: Result<Box<C>, AuthError>,
) -> EventView {
    match returned {
        Ok(_) => EventView::ContextReady,
        Err(error) => EventView::Failed(ProxyError::Authentication(error)),
    }
}

/// What the next token means to the tunnel. One whose text does not fit into memory is too large.
pub open spec fn token_event(returned: Result<Vec<u8>, AuthError>) -> EventView {
    match returned {
        Ok(token) => if crate::wire::token_fits(token@.len() as int) {
            EventView::Token(token@)
        } else {
            EventView::Failed(ProxyError::Authentication(AuthError::TokenTooLarge))
        },
        Err(error) => EventView::Failed(ProxyError::Authentication(error)),
    }
}

/// Tells the tunnel what has come of the next token.
fn token_answer(returned: Result<Vec<u8>, AuthError>) -> (event: TunnelEvent)
    ensures
        event@ == token_event(returned),
{
    match returned {
        Ok(token) => if fits(token.len()) {
            TunnelEvent::Token(token)
        } else {
            TunnelEvent::Failed(ProxyError::Authentication(AuthError::TokenTooLarge))
        },
        Err(error) => TunnelEvent::Failed(ProxyError::Authentication(error)),
    }
}

/// Whether a creation for this scheme and this name may leave this security context, and lead to
/// this phase and to this action as the tunnel says of what the creation returned.
pub open spec fn context_taken<S: ContextSource<C> + ?Sized, C: AuthContext + ?Sized>(
    source: &S,
    tunnel: TunnelView,
    scheme: AuthScheme,
    name: Seq<char>,
    kept: Option<Box<C>>,
    phase: PhaseView,
    action: ActionView,
) -> bool {
    exists|returned: Result<Box<C>, AuthError>| #[trigger]
        may_create(source, scheme, name, returned) && is_created(kept, returned) && tunnel.next(
            creation_event(returned),
        ) == (phase, action)
}

/// Whether a step of the security context `held` with this challenge may leave the context `kept`,
/// and lead to this phase and to this action as the tunnel says of what the step returned.
pub open spec fn token_taken<C: AuthContext + ?Sized>(
    tunnel: TunnelView,
    held: Option<Box<C>>,
    challenge: Option<Seq<u8>>,
    kept: Option<Box<C>>,
    phase: PhaseView,
    action: ActionView,
) -> bool {
    exists|returned: Result<Vec<u8>, AuthError>| #[trigger]
        may_step(held, challenge, kept, returned) && tunnel.next(token_event(returned)) == (
            phase,
            action,
        )
}

/// The phases that come after a security context has been created.
pub open spec fn has_context(phase: PhaseView) -> bool {
    phase is Reconnecting || crate::tunnel::authenticating(phase)
}

/// A tunnel that is being opened, and the security context of its connection, once there is one.
pub struct Handshake<C: AuthContext + ?Sized> {
    tunnel: Tunnel,
    context: Option<Box<C>>,
}

impl<C: AuthContext + ?Sized> View for Handshake<C> {
    type V = TunnelView;

    closed spec fn view(&self) -> TunnelView {
        self.tunnel@
    }
}

impl<C: AuthContext + ?Sized> Handshake<C> {
    #[verifier::type_invariant]
    spec fn well_formed(self) -> bool {
        has_context(self.tunnel@.phase) ==> self.context is Some
    }

    /// The security context, once there is one.
    pub closed spec fn context(&self) -> Option<Box<C>> {
        self.context
    }

    /// A tunnel to `destination`. The first thing to be done is to connect to the upstream proxy.
    pub fn new(upstream: &Endpoint, auth: AuthMode, destination: Endpoint) -> (handshake: Self)
        ensures
            handshake@ == (TunnelView {
                upstream_host: upstream@.0,
                auth,
                destination: destination@,
                phase: PhaseView::Connecting,
            }),
            handshake.context() is None,
    {
        Self { tunnel: Tunnel::new(upstream, auth, destination), context: None }
    }

    /// Takes in what has happened.
    fn take_in(self, event: HandshakeEvent) -> (step: (Self, TunnelAction))
        requires
            self@.accepts(event@),
        ensures
            step.0@ == self@.at(step.0@.phase),
            step.0.context() == self.context(),
            (step.0@.phase, step.1@) == self@.next(event@),
    {
        proof {
            use_type_invariant(&self);
        }
        let Handshake { mut tunnel, context } = self;
        let event = match event {
            HandshakeEvent::Connected => TunnelEvent::Connected,
            HandshakeEvent::Response(response) => TunnelEvent::Response(response),
            HandshakeEvent::Drained => TunnelEvent::Drained,
            HandshakeEvent::Failed(error) => TunnelEvent::Failed(error),
        };
        let action = tunnel.next(event);
        (Handshake { tunnel, context }, action)
    }

    /// Creates a security context, and goes on.
    fn take_context<S: ContextSource<C> + ?Sized>(
        self,
        source: &S,
        scheme: AuthScheme,
        name: &str,
    ) -> (step: (Self, TunnelAction))
        requires
            self@.phase is Creating,
        ensures
            step.0@ == self@.at(step.0@.phase),
            context_taken(
                source,
                self@,
                scheme,
                name@,
                step.0.context(),
                step.0@.phase,
                step.1@,
            ),
    {
        let Handshake { mut tunnel, .. } = self;
        let returned = source.create_context(scheme, name);
        assert(may_create(source, scheme, name@, returned));
        match returned {
            Ok(created) => {
                let action = tunnel.next(TunnelEvent::ContextReady);
                (Handshake { tunnel, context: Some(created) }, action)
            },
            Err(error) => {
                let action = tunnel.next(TunnelEvent::Failed(ProxyError::Authentication(error)));
                (Handshake { tunnel, context: None }, action)
            },
        }
    }

    /// Takes the next token of the security context, and goes on.
    fn take_token(self, challenge: &Option<Vec<u8>>) -> (step: (Self, TunnelAction))
        requires
            self@.phase is Stepping,
        ensures
            step.0@ == self@.at(step.0@.phase),
            token_taken(
                self@,
                self.context(),
                crate::server::optional_bytes(*challenge),
                step.0.context(),
                step.0@.phase,
                step.1@,
            ),
    {
        proof {
            use_type_invariant(&self);
        }
        let Handshake { mut tunnel, context } = self;
        let before = match context {
            Some(context) => context,
            None => return (Handshake { tunnel, context: None }, TunnelAction::Connect),
        };
        let given = match challenge {
            Some(bytes) => Some(bytes.as_slice()),
            None => None,
        };
        let (after, returned) = take_step(before, given);
        assert(slice_contents(given) == crate::server::optional_bytes(*challenge));
        assert(advanced(before, given, after, returned));
        assert(stepped(before, crate::server::optional_bytes(*challenge), after, returned));
        assert(may_step(
            self.context(),
            crate::server::optional_bytes(*challenge),
            Some(after),
            returned,
        ));
        let action = tunnel.next(token_answer(returned));
        (Handshake { tunnel, context: Some(after) }, action)
    }

    /// Tells whether an event can happen in this phase.
    pub fn accepts(&self, event: &HandshakeEvent) -> (answer: bool)
        ensures
            answer == self@.accepts(event@),
    {
        match event {
            HandshakeEvent::Connected => self.tunnel.accepts(&TunnelEvent::Connected),
            HandshakeEvent::Response(_) => self.tunnel.awaits_response(),
            HandshakeEvent::Drained => self.tunnel.accepts(&TunnelEvent::Drained),
            HandshakeEvent::Failed(_) => !self.tunnel.is_over(),
        }
    }

    /// Takes in what has happened, asks the security context where it is needed, and tells what is
    /// to be done next.
    pub fn next<S: ContextSource<C> + ?Sized>(self, source: &S, event: HandshakeEvent) -> (step: (
        Self,
        HandshakeAction,
    ))
        requires
            self@.accepts(event@),
        ensures
            went_on(source, self, event@, step.0, step.1@),
    {
        let (asking, asked) = self.take_in(event);
        let (handshake, action) = match asked {
            TunnelAction::CreateContext(scheme, name) => asking.take_context(
                source,
                scheme,
                name.as_str(),
            ),
            TunnelAction::Step(challenge) => asking.take_token(&challenge),
            other => (asking, other),
        };
        let action = match action {
            TunnelAction::Connect => HandshakeAction::Connect,
            TunnelAction::Exchange(request) => HandshakeAction::Exchange(request),
            TunnelAction::Drain(drain) => HandshakeAction::Drain(drain),
            TunnelAction::Established => HandshakeAction::Established,
            TunnelAction::Fail(error) => HandshakeAction::Fail(error),
            _ => HandshakeAction::Connect,
        };
        (handshake, action)
    }
}

/// Whether an event may lead from one handshake to another, and to what is to be done then: as the
/// tunnel says, and where that asks for a security context or for a token, as the tunnel says of
/// what the call for it returned. A context is created for the scheme and the name that were asked
/// for. A token is taken from the context that there is, with the challenge that was asked for.
/// Else the context stays as it is.
pub open spec fn went_on<S: ContextSource<C> + ?Sized, C: AuthContext + ?Sized>(
    source: &S,
    before: Handshake<C>,
    event: EventView,
    after: Handshake<C>,
    action: ActionView,
) -> bool {
    let (asked_in, asked) = before@.next(event);
    let asking = before@.at(asked_in);
    &&& after@ == before@.at(after@.phase)
    &&& match asked {
        ActionView::CreateContext(scheme, name) => context_taken(
            source,
            asking,
            scheme,
            name,
            after.context(),
            after@.phase,
            action,
        ),
        ActionView::Step(challenge) => token_taken(
            asking,
            before.context(),
            challenge,
            after.context(),
            after@.phase,
            action,
        ),
        _ => after.context() == before.context() && after@.phase == asked_in && action == asked,
    }
}

/// A security context that is created for a handshake is one that `AuthFactory::create` returned,
/// for that scheme and that target name.
pub proof fn law_context_is_of_the_factory<F: AuthFactory + ?Sized>(
    factory: &F,
    scheme: AuthScheme,
    name: Seq<char>,
    returned: Result<Box<dyn AuthContext>, AuthError>,
)
    requires
        may_create::<F, dyn AuthContext>(factory, scheme, name, returned),
    ensures
        exists|given: &str| given@ == name && #[trigger] call_ensures(
            F::create,
            (factory, scheme, given),
            returned,
        ),
{
}

/// A step is one of the security context that there is before it: some call of `AuthContext::step`
/// had that context as its receiver, got the challenge, returned what the step returned, and left
/// the context that there is after it.
pub proof fn law_step_is_of_the_held_context<C: AuthContext + ?Sized>(
    before: Box<C>,
    challenge: Option<Seq<u8>>,
    after: Box<C>,
    returned: Result<Vec<u8>, AuthError>,
)
    requires
        may_step(Some(before), challenge, Some(after), returned),
    ensures
        exists|receiver: &mut C, given: Option<&[u8]>|
            #![trigger call_ensures(C::step, (receiver, given), returned)]
            slice_contents(given) == challenge && &*receiver == &*before && &*final(receiver)
                == &*after && call_ensures(C::step, (receiver, given), returned),
{
    let given = choose|given: Option<&[u8]>|
        slice_contents(given) == challenge && #[trigger] advanced(before, given, after, returned);
    let stepped = (after, returned);
    assert(call_ensures(<Box<C> as Advance>::advance, (before, given), stepped));
    assert(stepped.1 == returned);
}

/// What holds of the tunnel holds with a security context at hand: wherever an event leads, it is
/// where the tunnel comes to by that event and the answer that it may have asked for.
pub proof fn law_handshake_follows_the_tunnel<
    S: ContextSource<C> + ?Sized,
    C: AuthContext + ?Sized,
>(
    source: &S,
    tunnel: TunnelView,
    events: Seq<EventView>,
    before: Handshake<C>,
    event: EventView,
    after: Handshake<C>,
    action: ActionView,
)
    requires
        tunnel.phase is Connecting,
        tunnel.possible(events),
        before@ == tunnel.at(tunnel.run(events).0),
        before@.accepts(event),
        went_on(source, before, event, after, action),
    ensures
        exists|later: Seq<EventView>| #[trigger]
            tunnel.possible(later) && events.push(event).is_prefix_of(later) && later.len()
                <= events.len() + 2 && tunnel.run(later).0 == after@.phase && tunnel.run(
                later,
            ).1.last() == action,
{
    let (asked_in, asked) = before@.next(event);
    let first = events.push(event);
    assert(first.drop_last() == events);
    assert(tunnel.possible(first));
    match asked {
        ActionView::CreateContext(scheme, name) => {
            let returned = choose|returned: Result<Box<C>, AuthError>| #[trigger]
                may_create(source, scheme, name, returned) && is_created(after.context(), returned)
                    && before@.at(asked_in).next(creation_event(returned)) == (
                    after@.phase,
                    action,
                );
            let second = first.push(creation_event(returned));
            assert(second.drop_last() == first);
            assert(tunnel.possible(second));
        },
        ActionView::Step(challenge) => {
            let returned = choose|returned: Result<Vec<u8>, AuthError>| #[trigger]
                may_step(before.context(), challenge, after.context(), returned) && before@.at(
                    asked_in,
                ).next(token_event(returned)) == (after@.phase, action);
            let second = first.push(token_event(returned));
            assert(second.drop_last() == first);
            assert(tunnel.possible(second));
        },
        _ => {},
    }
}

/// One step of a handshake: what happened, what it led to, and what was to be done then.
pub struct HandshakeStep<C: AuthContext + ?Sized> {
    pub event: EventView,
    pub after: Handshake<C>,
    pub action: ActionView,
}

/// The handshake before step `n` of a number of steps.
pub open spec fn state_before<C: AuthContext + ?Sized>(
    start: Handshake<C>,
    steps: Seq<HandshakeStep<C>>,
    n: int,
) -> Handshake<C> {
    if n == 0 {
        start
    } else {
        steps[n - 1].after
    }
}

/// What the tunnel asks for in step `n`, before any call is made for it.
pub open spec fn asked_at<C: AuthContext + ?Sized>(
    start: Handshake<C>,
    steps: Seq<HandshakeStep<C>>,
    n: int,
) -> ActionView {
    state_before(start, steps, n)@.next(steps[n].event).1
}

/// Whether step `n` may follow those before it.
pub open spec fn step_possible<S: ContextSource<C> + ?Sized, C: AuthContext + ?Sized>(
    source: &S,
    start: Handshake<C>,
    steps: Seq<HandshakeStep<C>>,
    n: int,
) -> bool {
    &&& state_before(start, steps, n)@.accepts(steps[n].event)
    &&& went_on(
        source,
        state_before(start, steps, n),
        steps[n].event,
        steps[n].after,
        steps[n].action,
    )
}

/// Whether the steps are those of a handshake from its start.
pub open spec fn is_run<S: ContextSource<C> + ?Sized, C: AuthContext + ?Sized>(
    source: &S,
    start: Handshake<C>,
    steps: Seq<HandshakeStep<C>>,
) -> bool {
    &&& start@.phase is Connecting
    &&& start.context() is None
    &&& forall|n: int| 0 <= n < steps.len() ==> #[trigger] step_possible(source, start, steps, n)
}

/// How many tokens were asked for before step `n`.
pub open spec fn tokens_before<C: AuthContext + ?Sized>(
    start: Handshake<C>,
    steps: Seq<HandshakeStep<C>>,
    n: int,
) -> nat
    decreases n,
{
    if n <= 0 {
        0
    } else if asked_at(start, steps, n - 1) is Step {
        tokens_before(start, steps, n - 1) + 1
    } else {
        tokens_before(start, steps, n - 1)
    }
}

/// The last response before step `n`.
pub open spec fn response_before<C: AuthContext + ?Sized>(
    steps: Seq<HandshakeStep<C>>,
    n: int,
) -> Option<ResponseHeadView>
    decreases n,
{
    if n <= 0 {
        None
    } else {
        match steps[n - 1].event {
            EventView::Response(response) => Some(response),
            _ => response_before(steps, n - 1),
        }
    }
}

/// Whether a security context came of another by so many steps of it.
pub open spec fn descends<C: AuthContext + ?Sized>(
    origin: Option<Box<C>>,
    context: Option<Box<C>>,
    count: nat,
) -> bool
    decreases count,
{
    if count == 0 {
        context == origin
    } else {
        exists|
            before: Option<Box<C>>,
            challenge: Option<Seq<u8>>,
            returned: Result<Vec<u8>, AuthError>,
        | #[trigger]
            may_step(before, challenge, context, returned) && descends(
                origin,
                before,
                (count - 1) as nat,
            )
    }
}

/// Whether the challenge of a response under `scheme` has these bytes.
pub open spec fn challenges_with(
    response: Option<ResponseHeadView>,
    scheme: AuthScheme,
    bytes: Option<Seq<u8>>,
) -> bool {
    response matches Some(r) && r.status == 407 && (crate::server::challenge_of(
        r,
        scheme,
    ) matches Some(challenge) && crate::server::challenge_bytes(challenge) == Ok::<
        Option<Seq<u8>>,
        ProxyError,
    >(bytes))
}

/// Whether step `c` created the security context that there is before step `n`, as it was before
/// any tokens were taken from it: for this scheme and the name of the upstream proxy, and no other
/// step before step `n` created one.
pub open spec fn is_origin<C: AuthContext + ?Sized>(
    start: Handshake<C>,
    steps: Seq<HandshakeStep<C>>,
    n: int,
    c: int,
    scheme: AuthScheme,
) -> bool {
    &&& 0 <= c < n
    &&& asked_at(start, steps, c) == ActionView::CreateContext(
        scheme,
        crate::wire::target_name_text(start@.upstream_host),
    )
    &&& forall|k: int|
        0 <= k < n && k != c ==> !(#[trigger] asked_at(start, steps, k) is CreateContext)
    &&& steps[c].after.context() is Some
    &&& descends(
        steps[c].after.context(),
        state_before(start, steps, n).context(),
        tokens_before(start, steps, n),
    )
}

/// What holds before step `n` of a handshake.
spec fn run_so_far<C: AuthContext + ?Sized>(
    start: Handshake<C>,
    steps: Seq<HandshakeStep<C>>,
    n: int,
) -> bool {
    let here = state_before(start, steps, n);
    let phase = here@.phase;
    &&& here@ == start@.at(phase)
    &&& !(phase is Creating) && !(phase is Stepping)
    &&& phase is Connecting || phase is Probing ==> {
        &&& tokens_before(start, steps, n) == 0
        &&& forall|k: int| 0 <= k < n ==> !(#[trigger] asked_at(start, steps, k) is CreateContext)
    }
    &&& phase is Reconnecting ==> tokens_before(start, steps, n) == 0
    &&& has_context(phase) ==> exists|c: int| #[trigger]
        is_origin(start, steps, n, c, crate::tunnel::scheme_of(phase)->0)
    &&& phase matches PhaseView::Reconnecting(scheme) ==> challenges_with(
        response_before(steps, n),
        scheme,
        None,
    )
    &&& phase matches PhaseView::Draining(scheme, challenge, _) ==> challenges_with(
        response_before(steps, n),
        scheme,
        challenge,
    )
}

/// What holds is kept by a step that creates a security context.
proof fn lemma_creation_kept<S: ContextSource<C> + ?Sized, C: AuthContext + ?Sized>(
    source: &S,
    start: Handshake<C>,
    steps: Seq<HandshakeStep<C>>,
    n: int,
)
    requires
        0 <= n < steps.len(),
        step_possible(source, start, steps, n),
        run_so_far(start, steps, n),
        asked_at(start, steps, n) is CreateContext,
    ensures
        run_so_far(start, steps, n + 1),
{
    let after = state_before(start, steps, n + 1);
    if has_context(after@.phase) {
        let scheme = crate::tunnel::scheme_of(after@.phase)->0;
        assert(is_origin(start, steps, n + 1, n, scheme));
    }
}

/// What holds is kept by a step that takes a token.
proof fn lemma_token_kept<S: ContextSource<C> + ?Sized, C: AuthContext + ?Sized>(
    source: &S,
    start: Handshake<C>,
    steps: Seq<HandshakeStep<C>>,
    n: int,
)
    requires
        0 <= n < steps.len(),
        step_possible(source, start, steps, n),
        run_so_far(start, steps, n),
        asked_at(start, steps, n) is Step,
    ensures
        run_so_far(start, steps, n + 1),
{
    let before = state_before(start, steps, n);
    let after = state_before(start, steps, n + 1);
    if has_context(after@.phase) {
        let scheme = crate::tunnel::scheme_of(before@.phase)->0;
        let c = choose|c: int| #[trigger] is_origin(start, steps, n, c, scheme);
        assert(is_origin(start, steps, n + 1, c, scheme));
    }
}

/// What holds is kept by a step that takes in a response and makes no call.
proof fn lemma_response_kept<S: ContextSource<C> + ?Sized, C: AuthContext + ?Sized>(
    source: &S,
    start: Handshake<C>,
    steps: Seq<HandshakeStep<C>>,
    n: int,
)
    requires
        0 <= n < steps.len(),
        step_possible(source, start, steps, n),
        run_so_far(start, steps, n),
        steps[n].event is Response,
        !(asked_at(start, steps, n) is CreateContext),
    ensures
        run_so_far(start, steps, n + 1),
{
    let before = state_before(start, steps, n);
    let after = state_before(start, steps, n + 1);
    if has_context(after@.phase) {
        let scheme = crate::tunnel::scheme_of(before@.phase)->0;
        let c = choose|c: int| #[trigger] is_origin(start, steps, n, c, scheme);
        assert(is_origin(start, steps, n + 1, c, scheme));
    }
}

/// What holds is kept by a step that takes in anything else and makes no call.
proof fn lemma_other_kept<S: ContextSource<C> + ?Sized, C: AuthContext + ?Sized>(
    source: &S,
    start: Handshake<C>,
    steps: Seq<HandshakeStep<C>>,
    n: int,
)
    requires
        0 <= n < steps.len(),
        step_possible(source, start, steps, n),
        run_so_far(start, steps, n),
        !(steps[n].event is Response),
        !(asked_at(start, steps, n) is Step),
    ensures
        run_so_far(start, steps, n + 1),
{
    let before = state_before(start, steps, n);
    let after = state_before(start, steps, n + 1);
    if has_context(after@.phase) {
        let scheme = crate::tunnel::scheme_of(before@.phase)->0;
        let c = choose|c: int| #[trigger] is_origin(start, steps, n, c, scheme);
        assert(is_origin(start, steps, n + 1, c, scheme));
    }
}

/// What holds before any step of a handshake.
proof fn lemma_run<S: ContextSource<C> + ?Sized, C: AuthContext + ?Sized>(
    source: &S,
    start: Handshake<C>,
    steps: Seq<HandshakeStep<C>>,
    n: int,
)
    requires
        is_run(source, start, steps),
        0 <= n <= steps.len(),
    ensures
        run_so_far(start, steps, n),
    decreases n,
{
    if n > 0 {
        lemma_run(source, start, steps, n - 1);
        assert(step_possible(source, start, steps, n - 1));
        if asked_at(start, steps, n - 1) is CreateContext {
            lemma_creation_kept(source, start, steps, n - 1);
        } else if asked_at(start, steps, n - 1) is Step {
            lemma_token_kept(source, start, steps, n - 1);
        } else if steps[n - 1].event is Response {
            lemma_response_kept(source, start, steps, n - 1);
        } else {
            lemma_other_kept(source, start, steps, n - 1);
        }
    }
}

/// A connection is asked for in a step only if a security context is created in it.
proof fn lemma_connects_with_creation<S: ContextSource<C> + ?Sized, C: AuthContext + ?Sized>(
    source: &S,
    start: Handshake<C>,
    steps: Seq<HandshakeStep<C>>,
    n: int,
)
    requires
        is_run(source, start, steps),
        0 <= n < steps.len(),
    ensures
        steps[n].action is Connect ==> asked_at(start, steps, n) is CreateContext,
        !(steps[n].action is CreateContext) && !(steps[n].action is Step),
{
    lemma_run(source, start, steps, n);
    assert(step_possible(source, start, steps, n));
}

/// In any run of a handshake, every token is taken from one security context. It was created in an
/// earlier step, for the scheme and the name of the upstream proxy, and no other step creates one.
/// The context from which the token is taken is that one, as the steps for the earlier tokens have
/// left it. The challenge is that of the last response under the same scheme. The token is sent as
/// it came, under that scheme, and no connection is made from then on.
pub proof fn law_one_context_makes_every_token<
    S: ContextSource<C> + ?Sized,
    C: AuthContext + ?Sized,
>(source: &S, start: Handshake<C>, steps: Seq<HandshakeStep<C>>, i: int)
    requires
        is_run(source, start, steps),
        0 <= i < steps.len(),
        asked_at(start, steps, i) is Step,
    ensures
        exists|c: int, scheme: AuthScheme|
            {
                &&& #[trigger] is_origin(start, steps, i, c, scheme)
                &&& forall|k: int|
                    0 <= k < steps.len() && k != c ==> !(#[trigger] asked_at(
                        start,
                        steps,
                        k,
                    ) is CreateContext)
                &&& challenges_with(
                    response_before(steps, i),
                    scheme,
                    asked_at(start, steps, i)->Step_0,
                )
                &&& exists|returned: Result<Vec<u8>, AuthError>|
                    {
                        &&& #[trigger] may_step(
                            state_before(start, steps, i).context(),
                            asked_at(start, steps, i)->Step_0,
                            steps[i].after.context(),
                            returned,
                        )
                        &&& returned matches Ok(token) ==> (crate::wire::token_fits(
                            token@.len() as int,
                        ) ==> steps[i].action == ActionView::Exchange(
                            start@.request(
                                Some(crate::wire::authorization_text(scheme, token@)),
                            ),
                        ))
                        &&& returned is Err ==> steps[i].action is Fail
                    }
            },
        forall|k: int| i <= k < steps.len() ==> !((#[trigger] steps[k]).action is Connect),
{
    let before = state_before(start, steps, i);
    lemma_run(source, start, steps, i);
    assert(step_possible(source, start, steps, i));
    let scheme = crate::tunnel::scheme_of(before@.phase)->0;
    let c = choose|c: int| #[trigger] is_origin(start, steps, i, c, scheme);
    assert forall|k: int| 0 <= k < steps.len() && k != c implies !(#[trigger] asked_at(
        start,
        steps,
        k,
    ) is CreateContext) by {
        lemma_created_once(source, start, steps, c, k);
    }
    assert forall|k: int| i <= k < steps.len() implies !((#[trigger] steps[k]).action is Connect) by {
        lemma_connects_with_creation(source, start, steps, k);
        if k == i {
            assert(asked_at(start, steps, i) is Step);
        } else {
            assert(!(asked_at(start, steps, k) is CreateContext));
        }
    }
}

/// No two steps create a security context.
proof fn lemma_created_once<S: ContextSource<C> + ?Sized, C: AuthContext + ?Sized>(
    source: &S,
    start: Handshake<C>,
    steps: Seq<HandshakeStep<C>>,
    j: int,
    k: int,
)
    requires
        is_run(source, start, steps),
        0 <= j < steps.len(),
        0 <= k < steps.len(),
        j != k,
        asked_at(start, steps, j) is CreateContext,
    ensures
        !(asked_at(start, steps, k) is CreateContext),
{
    lemma_run(source, start, steps, j);
    lemma_run(source, start, steps, k);
    assert(step_possible(source, start, steps, j));
    assert(step_possible(source, start, steps, k));
}

/// Without native credentials, a tunnel through a proxy that asks for them fails and says why, and
/// no token is ever sent.
pub proof fn law_native_factory_has_no_credentials(
    factory: &NativeAuthFactory,
    before: Handshake<dyn AuthContext>,
    event: EventView,
    after: Handshake<dyn AuthContext>,
    action: ActionView,
)
    requires
        before@.next(event).1 is CreateContext,
        went_on::<NativeAuthFactory, dyn AuthContext>(factory, before, event, after, action),
    ensures
        (after@.phase, action) == crate::tunnel::failed(
            ProxyError::Authentication(AuthError::UnsupportedPlatform),
        ),
{
}

/// Whether the creation of a security context that returned this leads there.
pub open spec fn creation_leads_to<C: AuthContext + ?Sized>(
    asking: TunnelView,
    returned: Result<Box<C>, AuthError>,
    after: Handshake<C>,
    action: ActionView,
) -> bool {
    match returned {
        Ok(created) => after.context() == Some(created) && crate::tunnel::right_step(
            asking,
            EventView::ContextReady,
            after@.phase,
            action,
        ),
        Err(error) => after.context() is None && action == ActionView::Fail(
            ProxyError::Authentication(error),
        ),
    }
}

/// Whether a step of the security context that returned this leads there.
pub open spec fn step_leads_to(
    asking: TunnelView,
    returned: Result<Vec<u8>, AuthError>,
    phase: PhaseView,
    action: ActionView,
) -> bool {
    match returned {
        Ok(token) => if crate::encoding::base64(token@).len() <= isize::MAX {
            crate::tunnel::right_step(asking, EventView::Token(token@), phase, action)
        } else {
            action == ActionView::Fail(ProxyError::Authentication(AuthError::TokenTooLarge))
        },
        Err(error) => action == ActionView::Fail(ProxyError::Authentication(error)),
    }
}

/// Whether an event leads from one handshake to another, and to what is then to be done: to where it
/// leads the tunnel, with the security context that was created or the token that was made where
/// the tunnel needs one.
pub open spec fn right_course<S: ContextSource<C> + ?Sized, C: AuthContext + ?Sized>(
    source: &S,
    before: Handshake<C>,
    event: EventView,
    after: Handshake<C>,
    action: ActionView,
) -> bool {
    let (asked_in, asked) = before@.next(event);
    let asking = before@.at(asked_in);
    &&& after@ == before@.at(after@.phase)
    &&& crate::tunnel::right_step(before@, event, asked_in, asked)
    &&& match asked {
        ActionView::CreateContext(scheme, name) => exists|returned: Result<Box<C>, AuthError>|
            #[trigger] may_create(source, scheme, name, returned) && creation_leads_to(
                asking,
                returned,
                after,
                action,
            ),
        ActionView::Step(challenge) => exists|returned: Result<Vec<u8>, AuthError>| #[trigger]
            may_step(before.context(), challenge, after.context(), returned) && step_leads_to(
                asking,
                returned,
                after@.phase,
                action,
            ),
        _ => after.context() == before.context() && crate::tunnel::right_step(
            before@,
            event,
            after@.phase,
            action,
        ),
    }
}

/// What happens to a handshake is what happens to its tunnel. Where that needs a security context,
/// it goes on with the one that was created, or fails with the error of the creation. Where it needs
/// a token, it goes on with the one that the context made, or fails with the error of the step.
pub proof fn law_right_course<S: ContextSource<C> + ?Sized, C: AuthContext + ?Sized>(
    source: &S,
    before: Handshake<C>,
    event: EventView,
    after: Handshake<C>,
    action: ActionView,
)
    requires
        before@.accepts(event),
        went_on(source, before, event, after, action),
    ensures
        right_course(source, before, event, after, action),
{
    let (asked_in, asked) = before@.next(event);
    let asking = before@.at(asked_in);
    crate::tunnel::law_tunnel_goes_on(before@, event);
    match asked {
        ActionView::CreateContext(scheme, name) => {
            let returned = choose|returned: Result<Box<C>, AuthError>| #[trigger]
                may_create(source, scheme, name, returned) && is_created(after.context(), returned)
                    && asking.next(creation_event(returned)) == (after@.phase, action);
            crate::tunnel::law_tunnel_goes_on(asking, creation_event(returned));
            assert(creation_leads_to(asking, returned, after, action));
        },
        ActionView::Step(challenge) => {
            let returned = choose|returned: Result<Vec<u8>, AuthError>| #[trigger]
                may_step(before.context(), challenge, after.context(), returned) && asking.next(
                    token_event(returned),
                ) == (after@.phase, action);
            crate::tunnel::law_tunnel_goes_on(asking, token_event(returned));
            assert(step_leads_to(asking, returned, after@.phase, action));
        },
        _ => {},
    }
}

/// Handshakes take that course.
pub proof fn law_handshake_goes_on<S: ContextSource<C> + ?Sized, C: AuthContext + ?Sized>(
    before: Handshake<C>,
    source: &S,
    event: HandshakeEvent,
    step: (Handshake<C>, HandshakeAction),
)
    requires
        before@.accepts(event@),
        call_ensures(Handshake::<C>::next::<S>, (before, source, event), step),
    ensures
        right_course(source, before, event@, step.0, step.1@),
{
    law_right_course(source, before, event@, step.0, step.1@);
}

/// A handshake begins as its tunnel does, without a security context, and accepts what that does.
pub proof fn law_handshake_begins<C: AuthContext + ?Sized>(
    upstream: &Endpoint,
    auth: AuthMode,
    destination: Endpoint,
    fresh: Handshake<C>,
    held: &Handshake<C>,
    event: &HandshakeEvent,
    answer: bool,
)
    requires
        call_ensures(Handshake::<C>::new, (upstream, auth, destination), fresh),
        call_ensures(Handshake::<C>::accepts, (held, event), answer),
    ensures
        fresh@.upstream_host == upstream@.0,
        fresh@.auth == auth,
        fresh@.destination == destination@,
        fresh@.phase is Connecting,
        fresh.context() is None,
        answer <==> match *event {
            HandshakeEvent::Connected => held@.phase is Connecting || held@.phase is Reconnecting,
            HandshakeEvent::Response(_) => held@.phase is Probing || held@.phase is Authorizing,
            HandshakeEvent::Drained => held@.phase is Draining,
            HandshakeEvent::Failed(_) => !(held@.phase is Finished),
        },
{
}

} // verus!
