//! Which authentication scheme the proxy chooses, and what can go wrong.

use vstd::prelude::*;
use vstd::string::*;
use vstd::utf8::*;

use crate::auth::{AuthError, AuthScheme};
use crate::config::AuthMode;
use crate::encoding::decode_token;
use crate::http1::{HttpError, ResponseHead};
use crate::number::push_decimal;
use crate::text::{characters, equal_ignoring_case, find, first_two_words, utf8_text};

verus! {

/// Why a client was not served.
#[derive(Debug)]
pub enum ProxyError {
    /// The connection failed; the text says how.
    Io(String),
    Http(HttpError),
    Authentication(AuthError),
    ConnectTimeout,
    InvalidDestination(String),
    UpstreamStatus(u16),
    AuthenticationRequired,
    AuthenticationSchemeMissing,
    InvalidAuthenticationToken,
    ConnectionClosedDuringAuth,
    TooManyAuthenticationRounds,
}

impl ProxyError {
    /// Describes the error.
    pub fn to_string(&self) -> (text: String)
        ensures
            text@ == self.message_text(),
    {
        match self {
            ProxyError::Io(text) => "I/O error: ".to_owned().concat(text.as_str()),
            ProxyError::Http(error) => "HTTP protocol error: ".to_owned().concat(
                error.to_string().as_str(),
            ),
            ProxyError::Authentication(error) => "authentication error: ".to_owned().concat(
                error.to_string().as_str(),
            ),
            ProxyError::ConnectTimeout => {
                "upstream connection timed out".to_owned()
            },
            ProxyError::InvalidDestination(text) => "invalid CONNECT destination: ".to_owned().concat(text.as_str()),
            ProxyError::UpstreamStatus(status) => {
                let mut text = "upstream proxy returned HTTP ".to_owned();
                push_decimal(&mut text, *status as u64);
                text
            },
            ProxyError::AuthenticationRequired => {
                "upstream proxy requires authentication but auth is disabled".to_owned()
            },
            ProxyError::AuthenticationSchemeMissing => {
                "upstream proxy did not offer the configured authentication scheme".to_owned()
            },
            ProxyError::InvalidAuthenticationToken => {
                "upstream proxy supplied an invalid base64 authentication token".to_owned()
            },
            ProxyError::ConnectionClosedDuringAuth => {
                "upstream proxy closed the connection during authentication".to_owned()
            },
            ProxyError::TooManyAuthenticationRounds => {
                "upstream proxy exceeded the authentication round limit".to_owned()
            },
        }
    }

    /// The text that describes the error.
    pub open spec fn message_text(&self) -> Seq<char> {
        match self {
            ProxyError::Io(text) => "I/O error: "@ + text@,
            ProxyError::Http(error) => "HTTP protocol error: "@ + error.message_text(),
            ProxyError::Authentication(error) => "authentication error: "@ + error.message_text(),
            ProxyError::ConnectTimeout => "upstream connection timed out"@,
            ProxyError::InvalidDestination(text) => "invalid CONNECT destination: "@ + text@,
            ProxyError::UpstreamStatus(status) => "upstream proxy returned HTTP "@ + crate::number::decimal(*status as nat),
            ProxyError::AuthenticationRequired => "upstream proxy requires authentication but auth is disabled"@,
            ProxyError::AuthenticationSchemeMissing => "upstream proxy did not offer the configured authentication scheme"@,
            ProxyError::InvalidAuthenticationToken => "upstream proxy supplied an invalid base64 authentication token"@,
            ProxyError::ConnectionClosedDuringAuth => "upstream proxy closed the connection during authentication"@,
            ProxyError::TooManyAuthenticationRounds => "upstream proxy exceeded the authentication round limit"@,
        }
    }
}

/// What the upstream proxy asks for under one scheme.
#[derive(Clone, Copy, Debug)]
pub struct Challenge<'a> {
    pub token: Option<&'a str>,
}

/// A challenge is its token, if it has one.
impl<'a> View for Challenge<'a> {
    type V = Option<Seq<char>>;

    open spec fn view(&self) -> Option<Seq<char>> {
        match self.token {
            Some(token) => Some(token@),
            None => None,
        }
    }
}

/// The challenge under `scheme` in the first of `items` that begins with its name, and the token
/// behind the name.
pub open spec fn challenge_among(items: Seq<Seq<char>>, scheme: AuthScheme) -> Option<
    Option<Seq<char>>,
>
    decreases items.len(),
{
    if items.len() == 0 {
        None
    } else {
        let fields = crate::text::words(items[0]);
        if fields.len() > 0 && crate::text::same_ignoring_case(fields[0], scheme.name_text()) {
            if fields.len() > 1 {
                Some(Some(fields[1]))
            } else {
                Some(None)
            }
        } else {
            challenge_among(items.drop_first(), scheme)
        }
    }
}

/// The first challenge under `scheme` in the comma-separated items of the values that are text.
pub open spec fn challenge_in(values: Seq<Seq<u8>>, scheme: AuthScheme) -> Option<
    Option<Seq<char>>,
>
    decreases values.len(),
{
    if values.len() == 0 {
        None
    } else {
        let here = if valid_utf8(values[0]) {
            challenge_among(crate::text::split(decode_utf8(values[0]), ','), scheme)
        } else {
            None
        };
        if here is Some {
            here
        } else {
            challenge_in(values.drop_first(), scheme)
        }
    }
}

/// The challenge of a response under `scheme`.
pub open spec fn challenge_of(
    response: crate::http1::ResponseHeadView,
    scheme: AuthScheme,
) -> Option<Option<Seq<char>>> {
    challenge_in(
        crate::http1::values_named(response.headers, "proxy-authenticate"@),
        scheme,
    )
}

/// The scheme that a mode chooses for a response, with its challenge.
pub open spec fn chosen_scheme(
    response: crate::http1::ResponseHeadView,
    mode: AuthMode,
) -> Result<(AuthScheme, Option<Seq<char>>), ProxyError> {
    let negotiate = challenge_of(response, AuthScheme::Negotiate);
    let ntlm = challenge_of(response, AuthScheme::Ntlm);
    if mode == AuthMode::Disabled {
        Err(ProxyError::AuthenticationRequired)
    } else if mode != AuthMode::Ntlm && negotiate is Some {
        Ok((AuthScheme::Negotiate, negotiate->0))
    } else if mode != AuthMode::Negotiate && ntlm is Some {
        Ok((AuthScheme::Ntlm, ntlm->0))
    } else {
        Err(ProxyError::AuthenticationSchemeMissing)
    }
}

/// Looks for a challenge under `scheme` in the comma-separated items of a text.
fn challenge_in_text<'a>(text: &'a str, scheme: AuthScheme) -> (challenge: Option<Challenge<'a>>)
    ensures
        match challenge {
            Some(c) => challenge_among(crate::text::split(text@, ','), scheme) == Some(c@),
            None => challenge_among(crate::text::split(text@, ','), scheme) is None,
        },
{
    let chars = characters(text);
    let wanted = characters(scheme.header_name());
    let mut from: usize = 0;
    assert(chars@.skip(0) == chars@);
    loop
        invariant
            chars@ == text@,
            wanted@ == scheme.name_text(),
            from <= chars@.len(),
            challenge_among(crate::text::split(text@, ','), scheme) == challenge_among(
                crate::text::split(chars@.skip(from as int), ','),
                scheme,
            ),
        decreases chars@.len() - from,
    {
        let rest = vstd::slice::slice_subrange(chars.as_slice(), from, chars.len());
        let end = find(rest, ',');
        let item = vstd::slice::slice_subrange(rest, 0, end);
        let ghost items = crate::text::split(rest@, ',');
        assert(rest@ == chars@.skip(from as int));
        assert(rest@.subrange(0, end as int) == rest@.take(end as int));
        assert(items[0] == item@) by {
            if end == rest@.len() {
                assert(rest@.take(end as int) == rest@);
            }
        }
        match first_two_words(item) {
            (Some((start, stop)), second) => {
                let name = vstd::slice::slice_subrange(item, start, stop);
                if equal_ignoring_case(name, wanted.as_slice()) {
                    let token = match second {
                        Some((a, b)) => {
                            assert(text@.subrange(from + a, from + b) == item@.subrange(
                                a as int,
                                b as int,
                            ));
                            Some(text.substring_char(from + a, from + b))
                        },
                        None => None,
                    };
                    return Some(Challenge { token });
                }
            },
            (None, _) => {},
        }
        if end == rest.len() {
            assert(items.drop_first() == Seq::<Seq<char>>::empty());
            assert(challenge_among(items.drop_first(), scheme) is None);
            return None;
        }
        assert(items.drop_first() == crate::text::split(rest@.skip(end + 1), ','));
        assert(rest@.skip(end + 1) == chars@.skip(from + end + 1));
        from = from + end + 1;
    }
}

/// Looks for a challenge under `scheme`.
pub fn find_challenge<'a>(response: &'a ResponseHead, scheme: AuthScheme) -> (challenge: Option<
    Challenge<'a>,
>)
    ensures
        match challenge {
            Some(c) => challenge_of(response@, scheme) == Some(c@),
            None => challenge_of(response@, scheme) is None,
        },
{
    let values = response.header_values("proxy-authenticate");
    let ghost all = crate::http1::slice_views(values@);
    assert(all.skip(0) == all);
    for i in 0..values.len()
        invariant
            all == crate::http1::slice_views(values@),
            all == crate::http1::values_named(response@.headers, "proxy-authenticate"@),
            challenge_in(all, scheme) == challenge_in(all.skip(i as int), scheme),
    {
        let value: &'a [u8] = values[i];
        assert(all.skip(i as int)[0] == value@);
        assert(all.skip(i as int).drop_first() == all.skip(i + 1));
        if let Some(text) = utf8_text(value) {
            let challenge = challenge_in_text(text, scheme);
            if challenge.is_some() {
                return challenge;
            }
        }
    }
    assert(all.skip(all.len() as int) == Seq::<Seq<u8>>::empty());
    None
}

/// Chooses a scheme that the upstream proxy offers and the mode allows.
///
/// # Errors
///
/// Returns [`ProxyError::AuthenticationRequired`] if the mode allows none, and
/// [`ProxyError::AuthenticationSchemeMissing`] if the proxy offers none that it allows.
pub fn choose_scheme<'a>(response: &'a ResponseHead, mode: AuthMode) -> (chosen: Result<
    (AuthScheme, Challenge<'a>),
    ProxyError,
>)
    ensures
        match chosen {
            Ok((scheme, challenge)) => chosen_scheme(response@, mode) == Ok::<
                (AuthScheme, Option<Seq<char>>),
                ProxyError,
            >((scheme, challenge@)),
            Err(e) => chosen_scheme(response@, mode) == Err::<
                (AuthScheme, Option<Seq<char>>),
                ProxyError,
            >(e),
        },
{
    if mode == AuthMode::Disabled {
        return Err(ProxyError::AuthenticationRequired);
    }
    if mode != AuthMode::Ntlm {
        if let Some(challenge) = find_challenge(response, AuthScheme::Negotiate) {
            return Ok((AuthScheme::Negotiate, challenge));
        }
    }
    if mode != AuthMode::Negotiate {
        if let Some(challenge) = find_challenge(response, AuthScheme::Ntlm) {
            return Ok((AuthScheme::Ntlm, challenge));
        }
    }
    Err(ProxyError::AuthenticationSchemeMissing)
}

/// The bytes of the token in a challenge, if it has one.
pub open spec fn challenge_bytes(challenge: Option<Seq<char>>) -> Result<
    Option<Seq<u8>>,
    ProxyError,
> {
    match challenge {
        None => Ok(None),
        Some(token) => match crate::encoding::base64_decoded(token) {
            Some(bytes) => Ok(Some(bytes)),
            None => Err(ProxyError::InvalidAuthenticationToken),
        },
    }
}

/// The contents of optional bytes.
pub open spec fn optional_bytes(bytes: Option<Vec<u8>>) -> Option<Seq<u8>> {
    match bytes {
        Some(b) => Some(b@),
        None => None,
    }
}

/// Decodes the token of a challenge.
///
/// # Errors
///
/// Returns [`ProxyError::InvalidAuthenticationToken`] if the token is not base64.
pub fn decode_challenge(challenge: Challenge<'_>) -> (bytes: Result<Option<Vec<u8>>, ProxyError>)
    ensures
        match bytes {
            Ok(b) => challenge_bytes(challenge@) == Ok::<Option<Seq<u8>>, ProxyError>(
                optional_bytes(b),
            ),
            Err(e) => challenge_bytes(challenge@) == Err::<Option<Seq<u8>>, ProxyError>(e),
        },
{
    match challenge.token {
        None => Ok(None),
        Some(token) => match decode_token(token) {
            Some(bytes) => Ok(Some(bytes)),
            None => Err(ProxyError::InvalidAuthenticationToken),
        },
    }
}

/// Whether a status means that the tunnel stands.
pub open spec fn success(status: u16) -> bool {
    200 <= status < 300
}

/// Tells whether a response means that the tunnel stands.
pub fn is_connect_success(response: &ResponseHead) -> (answer: bool)
    ensures
        answer == success(response.status),
{
    200 <= response.status && response.status < 300
}

/// In automatic mode an offer of Negotiate is taken, and one of NTLM only without it. A mode that
/// names a scheme takes that scheme or none. A disabled mode takes none.
pub proof fn law_mode_decides(response: crate::http1::ResponseHeadView, mode: AuthMode)
    ensures
        ({
            let chosen = chosen_scheme(response, mode);
            let negotiate = challenge_of(response, AuthScheme::Negotiate) is Some;
            let ntlm = challenge_of(response, AuthScheme::Ntlm) is Some;
            &&& mode == AuthMode::Auto && negotiate ==> (chosen matches Ok((s, _)) && s
                == AuthScheme::Negotiate)
            &&& mode == AuthMode::Auto && !negotiate && ntlm ==> (chosen matches Ok((s, _)) && s
                == AuthScheme::Ntlm)
            &&& mode == AuthMode::Negotiate ==> (chosen is Ok <==> negotiate)
            &&& mode == AuthMode::Ntlm ==> (chosen is Ok <==> ntlm)
            &&& chosen matches Ok((s, _)) ==> {
                &&& mode == AuthMode::Negotiate ==> s == AuthScheme::Negotiate
                &&& mode == AuthMode::Ntlm ==> s == AuthScheme::Ntlm
                &&& mode != AuthMode::Disabled
            }
        }),
{
}

/// A response means that the tunnel stands exactly if its status is one of 200 to 299.
pub proof fn law_success_is_2xx(response: &ResponseHead, answer: bool)
    requires
        call_ensures(is_connect_success, (response,), answer),
    ensures
        answer == success(response.status),
        answer <==> 200 <= response.status <= 299,
{
}

/// Whether an item begins with the name of a scheme, in whatever case.
pub open spec fn names(item: Seq<char>, scheme: AuthScheme) -> bool {
    crate::text::words(item).len() > 0 && crate::text::same_ignoring_case(
        crate::text::words(item)[0],
        match scheme {
            AuthScheme::Negotiate => "Negotiate"@,
            AuthScheme::Ntlm => "NTLM"@,
        },
    )
}

/// The second word of an item, if it has one.
pub open spec fn second_word(item: Seq<char>) -> Option<Seq<char>> {
    if crate::text::words(item).len() > 1 {
        Some(crate::text::words(item)[1])
    } else {
        None
    }
}

/// Among items, the first that names the scheme is the challenge, and its token is the second word.
proof fn lemma_challenge_among(items: Seq<Seq<char>>, scheme: AuthScheme, j: int)
    ensures
        0 <= j < items.len() && names(items[j], scheme) && (forall|i: int|
            0 <= i < j ==> !names(#[trigger] items[i], scheme)) ==> challenge_among(items, scheme)
            == Some(second_word(items[j])),
        (forall|i: int| 0 <= i < items.len() ==> !names(#[trigger] items[i], scheme))
            ==> challenge_among(items, scheme) is None,
    decreases items.len(),
{
    if items.len() > 0 {
        let rest = items.drop_first();
        lemma_challenge_among(rest, scheme, j - 1);
        assert forall|i: int| 0 <= i < rest.len() implies #[trigger] rest[i] == items[i + 1] by {}
        if j == 0 {
        } else if 0 < j < items.len() && (forall|i: int|
            0 <= i < j ==> !names(#[trigger] items[i], scheme)) {
            assert(!names(items[0], scheme));
            assert forall|i: int| 0 <= i < j - 1 implies !names(#[trigger] rest[i], scheme) by {
                assert(!names(items[i + 1], scheme));
            }
        }
        if forall|i: int| 0 <= i < items.len() ==> !names(#[trigger] items[i], scheme) {
            assert(!names(items[0], scheme));
            assert forall|i: int| 0 <= i < rest.len() implies !names(#[trigger] rest[i], scheme) by {
                assert(!names(items[i + 1], scheme));
            }
        }
    }
}

/// Whether a field value is a text of comma-separated items of which none names the scheme, or no
/// text at all.
pub open spec fn unnamed(value: Seq<u8>, scheme: AuthScheme) -> bool {
    valid_utf8(value) ==> forall|i: int|
        0 <= i < crate::text::split(decode_utf8(value), ',').len() ==> !names(
            #[trigger] crate::text::split(decode_utf8(value), ',')[i],
            scheme,
        )
}

/// The challenge under a scheme is the first of the comma-separated items, over all the values in
/// order, that begins with the name of the scheme, wherever it stands: its token is the second word
/// of that item. Without such an item there is no challenge.
pub proof fn law_first_challenge_counts(
    values: Seq<Seq<u8>>,
    scheme: AuthScheme,
    v: int,
    items: Seq<Seq<char>>,
    j: int,
)
    ensures
        (forall|i: int| 0 <= i < values.len() ==> unnamed(#[trigger] values[i], scheme))
            ==> challenge_in(values, scheme) is None,
        ({
            &&& 0 <= v < values.len()
            &&& forall|i: int| 0 <= i < v ==> unnamed(#[trigger] values[i], scheme)
            &&& items.len() > 0
            &&& forall|i: int| 0 <= i < items.len() ==> crate::text::lacks(#[trigger] items[i], ',')
            &&& values[v] == encode_utf8(crate::text::joined(items, ','))
            &&& 0 <= j < items.len()
            &&& names(items[j], scheme)
            &&& forall|i: int| 0 <= i < j ==> !names(#[trigger] items[i], scheme)
        }) ==> challenge_in(values, scheme) == Some(second_word(items[j])),
    decreases values.len(),
{
    if values.len() > 0 {
        let rest = values.drop_first();
        let here = crate::text::split(decode_utf8(values[0]), ',');
        assert forall|i: int| 0 <= i < rest.len() implies #[trigger] rest[i] == values[i + 1] by {}
        law_first_challenge_counts(rest, scheme, v - 1, items, j);
        if unnamed(values[0], scheme) && valid_utf8(values[0]) {
            lemma_challenge_among(here, scheme, 0);
        }
        if forall|i: int| 0 <= i < values.len() ==> unnamed(#[trigger] values[i], scheme) {
            assert(unnamed(values[0], scheme));
            assert forall|i: int| 0 <= i < rest.len() implies unnamed(#[trigger] rest[i], scheme) by {
                assert(unnamed(values[i + 1], scheme));
            }
        }
        if ({
            &&& 0 <= v < values.len()
            &&& forall|i: int| 0 <= i < v ==> unnamed(#[trigger] values[i], scheme)
            &&& items.len() > 0
            &&& forall|i: int| 0 <= i < items.len() ==> crate::text::lacks(#[trigger] items[i], ',')
            &&& values[v] == encode_utf8(crate::text::joined(items, ','))
            &&& 0 <= j < items.len()
            &&& names(items[j], scheme)
            &&& forall|i: int| 0 <= i < j ==> !names(#[trigger] items[i], scheme)
        }) {
            if v == 0 {
                let text = crate::text::joined(items, ',');
                encode_utf8_valid_utf8(text);
                encode_utf8_decode_utf8(text);
                crate::text::law_parts_are_split(items, ',');
                lemma_challenge_among(items, scheme, j);
            } else {
                assert(unnamed(values[0], scheme));
                assert(rest[v - 1] == values[v]);
                assert forall|i: int| 0 <= i < v - 1 implies unnamed(#[trigger] rest[i], scheme) by {
                    assert(unnamed(values[i + 1], scheme));
                }
            }
        }
    }
}

/// A challenge is looked for in the `Proxy-Authenticate` fields.
pub proof fn law_challenges_are_proxy_challenges<'a>(
    response: &'a ResponseHead,
    scheme: AuthScheme,
    challenge: Option<Challenge<'a>>,
)
    requires
        call_ensures(find_challenge, (response, scheme), challenge),
    ensures
        ({
            let found = challenge_in(
                crate::http1::values_named(response@.headers, "proxy-authenticate"@),
                scheme,
            );
            &&& found == challenge_of(response@, scheme)
            &&& match challenge {
                Some(c) => found == Some(c@),
                None => found is None,
            }
        }),
{
}

/// The mode decides between the challenges: Negotiate before NTLM if both are allowed, the one that
/// is required, or none. The challenge that is taken is the one under the chosen scheme, as it
/// came.
pub proof fn law_mode_chooses<'a>(
    response: &'a ResponseHead,
    mode: AuthMode,
    chosen: Result<(AuthScheme, Challenge<'a>), ProxyError>,
)
    requires
        call_ensures(choose_scheme, (response, mode), chosen),
    ensures
        right_choice(response@, mode, match chosen {
            Ok((scheme, challenge)) => Ok((scheme, challenge@)),
            Err(error) => Err(error),
        }),
{
}

/// Whether a mode chooses so for a response.
pub open spec fn right_choice(
    response: crate::http1::ResponseHeadView,
    mode: AuthMode,
    chosen: Result<(AuthScheme, Option<Seq<char>>), ProxyError>,
) -> bool {
    let negotiate = challenge_of(response, AuthScheme::Negotiate);
    let ntlm = challenge_of(response, AuthScheme::Ntlm);
    match mode {
        AuthMode::Disabled => chosen == Err::<(AuthScheme, Option<Seq<char>>), ProxyError>(
            ProxyError::AuthenticationRequired,
        ),
        AuthMode::Negotiate => match negotiate {
            Some(token) => chosen == Ok::<(AuthScheme, Option<Seq<char>>), ProxyError>(
                (AuthScheme::Negotiate, token),
            ),
            None => chosen == Err::<(AuthScheme, Option<Seq<char>>), ProxyError>(
                ProxyError::AuthenticationSchemeMissing,
            ),
        },
        AuthMode::Ntlm => match ntlm {
            Some(token) => chosen == Ok::<(AuthScheme, Option<Seq<char>>), ProxyError>(
                (AuthScheme::Ntlm, token),
            ),
            None => chosen == Err::<(AuthScheme, Option<Seq<char>>), ProxyError>(
                ProxyError::AuthenticationSchemeMissing,
            ),
        },
        AuthMode::Auto => match (negotiate, ntlm) {
            (Some(token), _) => chosen == Ok::<(AuthScheme, Option<Seq<char>>), ProxyError>(
                (AuthScheme::Negotiate, token),
            ),
            (None, Some(token)) => chosen == Ok::<(AuthScheme, Option<Seq<char>>), ProxyError>(
                (AuthScheme::Ntlm, token),
            ),
            (None, None) => chosen == Err::<(AuthScheme, Option<Seq<char>>), ProxyError>(
                ProxyError::AuthenticationSchemeMissing,
            ),
        },
    }
}

/// A challenge without a token has no bytes. One whose token is the base64 text of some bytes has
/// these, and any other is refused.
pub proof fn law_challenges_are_decoded(
    challenge: Challenge<'_>,
    decoded: Result<Option<Vec<u8>>, ProxyError>,
    bytes: Seq<u8>,
)
    requires
        call_ensures(decode_challenge, (challenge,), decoded),
    ensures
        challenge@ is None ==> decoded == Ok::<Option<Vec<u8>>, ProxyError>(None),
        challenge@ == Some(crate::encoding::base64(bytes)) ==> (decoded matches Ok(Some(d)) && d@
            == bytes),
        challenge@ is Some && (forall|b: Seq<u8>| #[trigger] crate::encoding::base64(b)
            != challenge@->0) ==> decoded == Err::<Option<Vec<u8>>, ProxyError>(
            ProxyError::InvalidAuthenticationToken,
        ),
{
    law_challenge_bytes(challenge@, bytes);
}

/// The bytes of a challenge.
pub proof fn law_challenge_bytes(challenge: Option<Seq<char>>, bytes: Seq<u8>)
    ensures
        challenge is None ==> challenge_bytes(challenge) == Ok::<Option<Seq<u8>>, ProxyError>(None),
        challenge == Some(crate::encoding::base64(bytes)) ==> challenge_bytes(challenge) == Ok::<
            Option<Seq<u8>>,
            ProxyError,
        >(Some(bytes)),
        challenge is Some && (forall|b: Seq<u8>| #[trigger] crate::encoding::base64(b)
            != challenge->0) ==> challenge_bytes(challenge) == Err::<Option<Seq<u8>>, ProxyError>(
            ProxyError::InvalidAuthenticationToken,
        ),
{
    crate::encoding::law_base64_round_trip(bytes);
}

/// Each reason why a client was not served is described in its own words, with what came with it.
pub proof fn law_proxy_errors_are_described(error: &ProxyError, text: String)
    requires
        call_ensures(ProxyError::to_string, (error,), text),
    ensures
        text@ == match error {
            ProxyError::Io(text) => "I/O error: "@ + text@,
            ProxyError::Http(error) => "HTTP protocol error: "@ + error.message_text(),
            ProxyError::Authentication(error) => "authentication error: "@ + error.message_text(),
            ProxyError::ConnectTimeout => "upstream connection timed out"@,
            ProxyError::InvalidDestination(text) => "invalid CONNECT destination: "@ + text@,
            ProxyError::UpstreamStatus(status) => "upstream proxy returned HTTP "@ + crate::number::decimal(*status as nat),
            ProxyError::AuthenticationRequired => "upstream proxy requires authentication but auth is disabled"@,
            ProxyError::AuthenticationSchemeMissing => "upstream proxy did not offer the configured authentication scheme"@,
            ProxyError::InvalidAuthenticationToken => "upstream proxy supplied an invalid base64 authentication token"@,
            ProxyError::ConnectionClosedDuringAuth => "upstream proxy closed the connection during authentication"@,
            ProxyError::TooManyAuthenticationRounds => "upstream proxy exceeded the authentication round limit"@,
        },
{
}

} // verus!
