//! Transport and message-dispatch core for a Debug Adapter Protocol endpoint:
//! length-prefixed framing over a byte stream, a typed message model with a
//! verified wire codec, correlation of requests with their responses, and
//! dispatch of decoded messages.

pub mod correlator;
pub mod dispatch;
pub mod session;
pub mod frame;
pub mod json;
pub mod schema;
pub mod message;
pub mod text;
