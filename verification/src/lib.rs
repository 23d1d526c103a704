//! Core library of the `fastpx` authenticated CONNECT proxy.

pub mod address;
pub mod auth;
pub mod bench;
pub mod body;
pub mod config;
pub mod encoding;
pub mod handshake;
pub mod http1;
pub mod number;
pub mod relay;
pub mod routing;
pub mod secrecy;
pub mod server;
pub mod session;
pub mod sspi;
pub mod text;
pub mod tunnel;
pub mod wire;

pub use auth::{AuthContext, AuthError, AuthFactory, AuthScheme, NativeAuthFactory};
pub use config::{AuthMode, Endpoint, ProxyConfig};
pub use routing::{IpCidr, RoutingMode};
pub use session::Proxy;
