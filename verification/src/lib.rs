//! SIP URI (RFC 3261 §19.1), SIP Address (§25.1) and SIP message framing.
use vstd::prelude::*;

pub mod address;
pub mod error;
pub mod message;
pub mod roundtrip;
pub mod scan;
pub mod text;
pub mod uri;
pub mod window;

pub use address::{Address, ADDRESS_PARAMS};
pub use error::ParseError;
pub use message::{Message, StartLine};
pub use uri::Uri;

verus! {

} // verus!
