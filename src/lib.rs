//! A typed command bus with validation, execution records and an audit log
//! that can be persisted and replayed.
use vstd::prelude::*;

pub mod bus;
pub mod clock;
pub mod codec;
pub mod commands;
pub mod content;
pub mod decimal;
pub mod events;
pub mod log;
pub mod validate;

verus! {

} // verus!
