use vstd::prelude::*;

pub mod codec;
pub mod ident;
pub mod message;
pub mod node;
pub mod rng;
pub mod text;

pub use codec::{decode, encode, DecodeError};
pub use ident::EntityId;
pub use ident::ParseError;
pub use message::{MsgBody, MsgEnvelope, MsgPayload};
pub use node::{FatalError, NodeState};

verus! {

} // verus!
