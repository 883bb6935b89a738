use vstd::prelude::*;

pub mod container;
pub mod machine;

verus! {

/// A symbol written in one tape cell.
pub type Token = char;

/// A label naming one control state of a machine.
pub type State = char;

} // verus!
