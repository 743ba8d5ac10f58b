use vstd::prelude::*;

pub mod coerce;
pub mod commander;
pub mod laws;
pub mod registry;
pub mod store;
pub mod text;

pub use commander::{CoercionError, Commander};
pub use store::{CmdArgument, CmdArgumentValue};

verus! {

/// The kind of value an option expects after its flag.
#[derive(Debug, Clone, Copy, PartialEq, Eq, Structural)]
pub enum CmdOptionValueType {
    String,
    Number,
    Float,
    NoValue,
}

} // verus!
