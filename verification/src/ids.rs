//! Keys of what the store holds.

use vstd::prelude::*;

verus! {

/// The key of a workspace.
#[derive(Clone, Copy, Debug, PartialEq, Eq, Structural, Hash)]
pub struct WorkspaceId {
    pub key: u128,
}

/// The key of a project.
#[derive(Clone, Copy, Debug, PartialEq, Eq, Structural, Hash)]
pub struct ProjectId {
    pub key: u128,
}

/// The key of a session.
#[derive(Clone, Copy, Debug, PartialEq, Eq, Structural, Hash)]
pub struct SessionId {
    pub key: u128,
}

/// The key of a page.
#[derive(Clone, Copy, Debug, PartialEq, Eq, Structural, Hash)]
pub struct PageId {
    pub key: u128,
}

} // verus!
