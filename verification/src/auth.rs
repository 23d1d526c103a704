//! Authentication schemes, and the providers of their tokens.

use vstd::prelude::*;
use vstd::string::*;

verus! {

/// An authentication scheme supported by Windows SSPI and HTTP proxies.
#[derive(Clone, Copy, Debug, Eq, PartialEq, Structural)]
pub enum AuthScheme {
    Negotiate,
    Ntlm,
}

impl AuthScheme {
    /// The name of the scheme in header fields.
    #[must_use]
    pub fn header_name(self) -> (name: &'static str)
        ensures
            name@ == self.name_text(),
    {
        match self {
            AuthScheme::Negotiate => "Negotiate",
            AuthScheme::Ntlm => "NTLM",
        }
    }

    /// The text of `header_name`.
    pub open spec fn name_text(self) -> Seq<char> {
        match self {
            AuthScheme::Negotiate => "Negotiate"@,
            AuthScheme::Ntlm => "NTLM"@,
        }
    }
}

/// Why a provider has no token.
#[derive(Debug)]
pub enum AuthError {
    UnsupportedPlatform,
    Native(String),
    ContextComplete,
    TokenTooLarge,
}

impl AuthError {
    /// Describes the error.
    pub fn to_string(&self) -> (text: String)
        ensures
            text@ == self.message_text(),
    {
        match self {
            AuthError::UnsupportedPlatform => {
                "native SSPI authentication is only available on Windows".to_owned()
            },
            AuthError::Native(text) => "SSPI authentication failed: ".to_owned().concat(text.as_str()),
            AuthError::ContextComplete => {
                "the SSPI context is already complete".to_owned()
            },
            AuthError::TokenTooLarge => {
                "the authentication token is too large".to_owned()
            },
        }
    }

    /// The text that describes the error.
    pub open spec fn message_text(&self) -> Seq<char> {
        match self {
            AuthError::UnsupportedPlatform => "native SSPI authentication is only available on Windows"@,
            AuthError::Native(text) => "SSPI authentication failed: "@ + text@,
            AuthError::ContextComplete => "the SSPI context is already complete"@,
            AuthError::TokenTooLarge => "the authentication token is too large"@,
        }
    }
}

/// A per-upstream-connection security context.
pub trait AuthContext: Send {
    /// Consume an optional proxy challenge and produce the next opaque token.
    ///
    /// # Errors
    ///
    /// Returns [`AuthError`] when the native authentication provider rejects
    /// the challenge or cannot create the next token.
    fn step(&mut self, challenge: Option<&[u8]>) -> Result<Vec<u8>, AuthError>;
}

/// Creates a fresh security context for each upstream TCP connection.
pub trait AuthFactory: Send + Sync {
    /// Create a security context for `target_name`.
    ///
    /// # Errors
    ///
    /// Returns [`AuthError`] if the selected scheme is unavailable or native
    /// credentials cannot be acquired.
    fn create(&self, scheme: AuthScheme, target_name: &str) -> Result<
        Box<dyn AuthContext>,
        AuthError,
    >;
}

/// The native authentication provider of a platform without SSPI: it has no credentials to offer.
#[derive(Debug, Default)]
pub struct NativeAuthFactory;

impl AuthFactory for NativeAuthFactory {
    fn create(&self, _scheme: AuthScheme, _target_name: &str) -> (context: Result<
        Box<dyn AuthContext>,
        AuthError,
    >)
        ensures
            context matches Err(AuthError::UnsupportedPlatform),
    {
        Err(AuthError::UnsupportedPlatform)
    }
}

/// Each fault of a provider is described in its own words, with what came with it.
pub proof fn law_provider_errors_are_described(error: &AuthError, text: String)
    requires
        call_ensures(AuthError::to_string, (error,), text),
    ensures
        text@ == match error {
            AuthError::UnsupportedPlatform => "native SSPI authentication is only available on Windows"@,
            AuthError::Native(text) => "SSPI authentication failed: "@ + text@,
            AuthError::ContextComplete => "the SSPI context is already complete"@,
            AuthError::TokenTooLarge => "the authentication token is too large"@,
        },
{
}

} // verus!
