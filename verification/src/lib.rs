//! A script-call bridge library: a structured value model, a self-describing
//! binary codec and a canonical JSON document codec for it, and the decision
//! logic of a capability-call bridge that routes values between an embedded
//! script interpreter and an external capability dispatcher.

pub mod bridge;
pub mod entropy;
pub mod eval;
pub mod json;
pub mod msgpack;
pub mod value;

pub use value::{MockType, Value};
