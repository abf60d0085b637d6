use vstd::prelude::*;

verus! {

/// What the current trick allows: anything while it is open, no runs once a
/// set was played, no sets once a run was played.
#[derive(Debug, Copy, Clone, PartialEq, Eq, Structural)]
pub enum TrickType {
    Open,
    Group,
    Run,
}

} // verus!
