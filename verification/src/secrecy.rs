//! Tokens are shown to nobody but the upstream proxy: what else there is to see of a tunnel does
//! not depend on them.

use vstd::prelude::*;
use vstd::utf8::*;

use crate::auth::AuthScheme;
use crate::http1::ResponseHeadView;
use crate::tunnel::{ActionView, EventView, PhaseView, TunnelView};

verus! {

/// Words that are the same, or tokens of the same length.
pub open spec fn words_alike(a: Seq<char>, b: Seq<char>) -> bool {
    a == b || (crate::encoding::base64_decoded(a) matches Some(x)
        && crate::encoding::base64_decoded(b) matches Some(y) && x.len() == y.len())
}

/// Items of a list of challenges with the same first word and, behind it, words that are alike.
pub open spec fn items_alike(a: Seq<char>, b: Seq<char>) -> bool {
    let (v, w) = (crate::text::words(a), crate::text::words(b));
    &&& v.len() == w.len()
    &&& v.len() > 0 ==> v[0] == w[0]
    &&& forall|i: int| 0 < i < v.len() ==> words_alike(#[trigger] v[i], w[i])
}

/// Lists of challenges that are alike item by item.
pub open spec fn lists_alike(a: Seq<Seq<char>>, b: Seq<Seq<char>>) -> bool {
    a.len() == b.len() && forall|i: int| 0 <= i < a.len() ==> items_alike(#[trigger] a[i], b[i])
}

/// Values of `Proxy-Authenticate` that differ at most in tokens of the same length.
pub open spec fn values_alike(a: Seq<u8>, b: Seq<u8>) -> bool {
    valid_utf8(a) == valid_utf8(b) && (valid_utf8(a) ==> lists_alike(
        crate::text::split(decode_utf8(a), ','),
        crate::text::split(decode_utf8(b), ','),
    ))
}

/// Header fields that are the same, but for tokens of the same length in challenges.
pub open spec fn fields_alike(a: (Seq<char>, Seq<u8>), b: (Seq<char>, Seq<u8>)) -> bool {
    a.0 == b.0 && if crate::text::same_ignoring_case(a.0, "proxy-authenticate"@) {
        values_alike(a.1, b.1)
    } else {
        a.1 == b.1
    }
}

/// Responses that are the same, but for tokens of the same length in challenges.
pub open spec fn responses_alike(a: ResponseHeadView, b: ResponseHeadView) -> bool {
    &&& a.version == b.version
    &&& a.status == b.status
    &&& a.headers.len() == b.headers.len()
    &&& forall|i: int|
        0 <= i < a.headers.len() ==> fields_alike(#[trigger] a.headers[i], b.headers[i])
}

/// Events that are the same, but for tokens of the same length.
pub open spec fn events_alike(a: EventView, b: EventView) -> bool {
    match (a, b) {
        (EventView::Response(r), EventView::Response(s)) => responses_alike(r, s),
        (EventView::Token(t), EventView::Token(u)) => t.len() == u.len(),
        _ => a == b,
    }
}

/// Events in a row that are the same, but for tokens of the same length.
pub open spec fn runs_alike(a: Seq<EventView>, b: Seq<EventView>) -> bool {
    a.len() == b.len() && forall|i: int| 0 <= i < a.len() ==> events_alike(#[trigger] a[i], b[i])
}

/// Challenges that are both there or both not, each with a token or without.
pub open spec fn challenges_alike(a: Option<Seq<char>>, b: Option<Seq<char>>) -> bool {
    match (a, b) {
        (Some(v), Some(w)) => words_alike(v, w),
        _ => a is None && b is None,
    }
}

/// Bytes of the same length, or none.
pub open spec fn bytes_alike(a: Option<Seq<u8>>, b: Option<Seq<u8>>) -> bool {
    match (a, b) {
        (Some(v), Some(w)) => v.len() == w.len(),
        _ => a is None && b is None,
    }
}

/// Phases that are the same, but for tokens of the same length.
pub open spec fn phases_alike(a: PhaseView, b: PhaseView) -> bool {
    match (a, b) {
        (PhaseView::Creating(s, c, r), PhaseView::Creating(t, d, q)) => s == t && challenges_alike(
            c,
            d,
        ) && responses_alike(r, q),
        (PhaseView::Draining(s, c, n), PhaseView::Draining(t, d, m)) => s == t && bytes_alike(c, d)
            && n == m,
        _ => a == b,
    }
}

/// Actions that are the same, but for tokens of the same length in what the upstream proxy and the
/// security context get.
pub open spec fn actions_alike(a: ActionView, b: ActionView) -> bool {
    match (a, b) {
        (ActionView::Exchange(_), ActionView::Exchange(_)) => true,
        (ActionView::Step(c), ActionView::Step(d)) => bytes_alike(c, d),
        _ => a == b,
    }
}

/// A first challenge among alike items is alike.
proof fn lemma_among(a: Seq<Seq<char>>, b: Seq<Seq<char>>, scheme: AuthScheme)
    requires
        lists_alike(a, b),
    ensures
        match (
            crate::server::challenge_among(a, scheme),
            crate::server::challenge_among(b, scheme),
        ) {
            (Some(c), Some(d)) => challenges_alike(c, d),
            (None, None) => true,
            _ => false,
        },
    decreases a.len(),
{
    if a.len() > 0 {
        assert(items_alike(a[0], b[0]));
        assert forall|i: int| 0 <= i < a.len() - 1 implies items_alike(
            #[trigger] a.drop_first()[i],
            b.drop_first()[i],
        ) by {
            assert(items_alike(a[i + 1], b[i + 1]));
        }
        lemma_among(a.drop_first(), b.drop_first(), scheme);
    }
}

/// A first challenge in alike values is alike.
proof fn lemma_in(a: Seq<Seq<u8>>, b: Seq<Seq<u8>>, scheme: AuthScheme)
    requires
        a.len() == b.len(),
        forall|i: int| 0 <= i < a.len() ==> values_alike(#[trigger] a[i], b[i]),
    ensures
        match (crate::server::challenge_in(a, scheme), crate::server::challenge_in(b, scheme)) {
            (Some(c), Some(d)) => challenges_alike(c, d),
            (None, None) => true,
            _ => false,
        },
    decreases a.len(),
{
    if a.len() > 0 {
        assert(values_alike(a[0], b[0]));
        if valid_utf8(a[0]) {
            lemma_among(
                crate::text::split(decode_utf8(a[0]), ','),
                crate::text::split(decode_utf8(b[0]), ','),
                scheme,
            );
        }
        assert forall|i: int| 0 <= i < a.len() - 1 implies values_alike(
            #[trigger] a.drop_first()[i],
            b.drop_first()[i],
        ) by {
            assert(values_alike(a[i + 1], b[i + 1]));
        }
        lemma_in(a.drop_first(), b.drop_first(), scheme);
    }
}

/// The values of a name in alike header fields are the same, or alike if they are challenges.
proof fn lemma_values(
    a: Seq<(Seq<char>, Seq<u8>)>,
    b: Seq<(Seq<char>, Seq<u8>)>,
    name: Seq<char>,
)
    requires
        a.len() == b.len(),
        forall|i: int| 0 <= i < a.len() ==> fields_alike(#[trigger] a[i], b[i]),
    ensures
        ({
            let (v, w) = (
                crate::http1::values_named(a, name),
                crate::http1::values_named(b, name),
            );
            &&& v.len() == w.len()
            &&& name.len() != "proxy-authenticate"@.len() ==> v == w
            &&& name == "proxy-authenticate"@ ==> forall|i: int|
                0 <= i < v.len() ==> values_alike(#[trigger] v[i], w[i])
        }),
    decreases a.len(),
{
    reveal(Seq::filter);
    let (v, w) = (crate::http1::values_named(a, name), crate::http1::values_named(b, name));
    if a.len() > 0 {
        let (x, y) = (a.drop_last(), b.drop_last());
        assert(fields_alike(a.last(), b.last())) by {
            assert(fields_alike(a[a.len() - 1], b[b.len() - 1]));
        }
        assert forall|i: int| 0 <= i < x.len() implies fields_alike(#[trigger] x[i], y[i]) by {
            assert(fields_alike(a[i], b[i]));
        }
        lemma_values(x, y, name);
        let (vx, wy) = (crate::http1::values_named(x, name), crate::http1::values_named(y, name));
        if crate::text::same_ignoring_case(a.last().0, name) {
            assert(v == vx.push(a.last().1));
            assert(w == wy.push(b.last().1));
        } else {
            assert(v == vx);
            assert(w == wy);
        }
    } else {
        assert(v == Seq::<Seq<u8>>::empty());
        assert(w == Seq::<Seq<u8>>::empty());
    }
}

/// What the proxy reads of alike responses is the same, but for tokens of the same length.
proof fn lemma_responses(a: ResponseHeadView, b: ResponseHeadView)
    requires
        responses_alike(a, b),
    ensures
        a.closes() == b.closes(),
        crate::body::framing(a) == crate::body::framing(b),
        forall|scheme: AuthScheme|
            match (
                #[trigger] crate::server::challenge_of(a, scheme),
                crate::server::challenge_of(b, scheme),
            ) {
                (Some(c), Some(d)) => challenges_alike(c, d),
                (None, None) => true,
                _ => false,
            },
{
    reveal_strlit("proxy-authenticate");
    reveal_strlit("connection");
    reveal_strlit("transfer-encoding");
    reveal_strlit("content-length");
    lemma_values(a.headers, b.headers, "connection"@);
    lemma_values(a.headers, b.headers, "transfer-encoding"@);
    lemma_values(a.headers, b.headers, "content-length"@);
    lemma_values(a.headers, b.headers, "proxy-authenticate"@);
    assert forall|scheme: AuthScheme|
        match (
            #[trigger] crate::server::challenge_of(a, scheme),
            crate::server::challenge_of(b, scheme),
        ) {
            (Some(c), Some(d)) => challenges_alike(c, d),
            (None, None) => true,
            _ => false,
        } by {
        lemma_in(
            crate::http1::values_named(a.headers, "proxy-authenticate"@),
            crate::http1::values_named(b.headers, "proxy-authenticate"@),
            scheme,
        );
    }
}

/// The bytes of alike challenges are alike, or there are none for the same reason.
proof fn lemma_bytes(a: Option<Seq<char>>, b: Option<Seq<char>>)
    requires
        challenges_alike(a, b),
    ensures
        match (crate::server::challenge_bytes(a), crate::server::challenge_bytes(b)) {
            (Ok(v), Ok(w)) => bytes_alike(v, w),
            (Err(e), Err(f)) => e == f,
            _ => false,
        },
{
}

/// Alike events lead from alike phases to alike phases and actions.
proof fn lemma_next(tunnel: TunnelView, p: PhaseView, q: PhaseView, e: EventView, f: EventView)
    requires
        phases_alike(p, q),
        events_alike(e, f),
        tunnel.at(p).accepts(e),
    ensures
        tunnel.at(q).accepts(f),
        phases_alike(tunnel.at(p).next(e).0, tunnel.at(q).next(f).0),
        actions_alike(tunnel.at(p).next(e).1, tunnel.at(q).next(f).1),
{
    if let (EventView::Response(r), EventView::Response(s)) = (e, f) {
        lemma_responses(r, s);
        if let PhaseView::Authorizing(scheme, _) = p {
            match (
                crate::server::challenge_of(r, scheme),
                crate::server::challenge_of(s, scheme),
            ) {
                (Some(c), Some(d)) => {
                    lemma_bytes(c, d);
                },
                _ => {},
            }
        }
    }
    if let (PhaseView::Creating(_, c, r), PhaseView::Creating(_, d, s)) = (p, q) {
        lemma_responses(r, s);
        lemma_bytes(c, d);
    }
}

/// Runs that are the same, but for the bytes of tokens, of security contexts and in challenges, of
/// the same length, are the same for all but the upstream proxy and the security context: the same
/// can happen in both, in both the same is to be done at every point, and they fail at the same
/// point with the same error.
pub proof fn law_tokens_decide_nothing(
    tunnel: TunnelView,
    a: Seq<EventView>,
    b: Seq<EventView>,
)
    requires
        runs_alike(a, b),
        tunnel.possible(a),
    ensures
        tunnel.possible(b),
        phases_alike(tunnel.run(a).0, tunnel.run(b).0),
        tunnel.run(a).1.len() == tunnel.run(b).1.len(),
        forall|i: int|
            0 <= i < tunnel.run(a).1.len() ==> actions_alike(
                #[trigger] tunnel.run(a).1[i],
                tunnel.run(b).1[i],
            ),
    decreases a.len(),
{
    if a.len() > 0 {
        let (x, y) = (a.drop_last(), b.drop_last());
        assert forall|i: int| 0 <= i < x.len() implies events_alike(#[trigger] x[i], y[i]) by {
            assert(events_alike(a[i], b[i]));
        }
        assert(events_alike(a[a.len() - 1], b[b.len() - 1]));
        law_tokens_decide_nothing(tunnel, x, y);
        lemma_next(tunnel, tunnel.run(x).0, tunnel.run(y).0, a.last(), b.last());
        assert forall|i: int| 0 <= i < tunnel.run(a).1.len() implies actions_alike(
            #[trigger] tunnel.run(a).1[i],
            tunnel.run(b).1[i],
        ) by {
            if i < tunnel.run(x).1.len() {
                assert(tunnel.run(a).1[i] == tunnel.run(x).1[i]);
                assert(tunnel.run(b).1[i] == tunnel.run(y).1[i]);
            }
        }
    }
}

/// What the client is sent when a tunnel stands or has failed, besides what is relayed later.
pub open spec fn told_to_client(end: ActionView, early: Seq<u8>, prefetched: Seq<u8>) -> Seq<u8> {
    if end is Established {
        crate::session::written_to(
            crate::session::first_deliveries(early, prefetched),
            crate::session::Side::Client,
        )
    } else {
        encode_utf8(crate::wire::error_text(502, "Bad Gateway"@))
    }
}

/// The text of the error with which a tunnel has failed, if it has.
pub open spec fn error_shown(end: ActionView) -> Option<Seq<char>> {
    match end {
        ActionView::Fail(error) => Some(error.message_text()),
        _ => None,
    }
}

/// Tokens are not shown: runs that are the same, but for the bytes of tokens of the same length,
/// end with the same text of the same error or both with a tunnel, and send the same bytes to the
/// client.
pub proof fn law_tokens_are_not_shown(
    tunnel: TunnelView,
    a: Seq<EventView>,
    b: Seq<EventView>,
    early: Seq<u8>,
    prefetched: Seq<u8>,
)
    requires
        runs_alike(a, b),
        tunnel.possible(a),
    ensures
        ({
            let (x, y) = (tunnel.run(a).1.last(), tunnel.run(b).1.last());
            &&& (tunnel.run(a).0 is Finished) == (tunnel.run(b).0 is Finished)
            &&& error_shown(x) == error_shown(y)
            &&& x is Fail ==> x == y
            &&& told_to_client(x, early, prefetched) == told_to_client(y, early, prefetched)
        }),
{
    law_tokens_decide_nothing(tunnel, a, b);
    lemma_length(tunnel, a);
    let n = tunnel.run(a).1.len() - 1;
    assert(actions_alike(tunnel.run(a).1[n], tunnel.run(b).1[n]));
}

/// There is always something that was to be done last.
proof fn lemma_length(tunnel: TunnelView, events: Seq<EventView>)
    ensures
        tunnel.run(events).1.len() == events.len() + 1,
    decreases events.len(),
{
    if events.len() > 0 {
        lemma_length(tunnel, events.drop_last());
    }
}

} // verus!
