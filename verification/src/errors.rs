use vstd::prelude::*;

verus! {

/// Errors raised by operations inside one workspace.
#[derive(Clone, Copy, PartialEq, Eq, Structural, Debug)]
pub enum WorkspaceError {
    /// A stack index exceeds the workspace's fixed capacity.
    IndexOutOfCoreSize,
    /// An id-name lookup failed; reserved, never produced by this crate.
    NoSuchIdName,
    /// A stack index lies within capacity but its slot is empty.
    StackNotFound,
}

/// Every error a client of the server can see.
#[derive(Clone, Copy, PartialEq, Eq, Structural, Debug)]
pub enum LMEAPIErrors {
    /// Workspace creation targeted an already-used name.
    WorkspaceNameConfilict,
    /// An operation addressed a workspace name absent from the registry.
    WorkspaceNotFound,
    /// An error from inside the addressed workspace.
    Workspace(WorkspaceError),
}

/// The HTTP status category of an error: conflict for a name clash, bad
/// request for a capacity violation, not found for everything else.
pub open spec fn spec_status_code(e: LMEAPIErrors) -> u16 {
    match e {
        LMEAPIErrors::WorkspaceNameConfilict => 409u16,
        LMEAPIErrors::WorkspaceNotFound => 404u16,
        LMEAPIErrors::Workspace(w) => match w {
            WorkspaceError::IndexOutOfCoreSize => 400u16,
            WorkspaceError::NoSuchIdName => 404u16,
            WorkspaceError::StackNotFound => 404u16,
        },
    }
}

/// Maps each error to the HTTP status code the boundary responds with.
pub fn status_code(e: &LMEAPIErrors) -> (r: u16)
    ensures
        r == spec_status_code(*e),
{
    match e {
        LMEAPIErrors::WorkspaceNameConfilict => 409,
        LMEAPIErrors::WorkspaceNotFound => 404,
        LMEAPIErrors::Workspace(w) => match w {
            WorkspaceError::IndexOutOfCoreSize => 400,
            WorkspaceError::NoSuchIdName => 404,
            WorkspaceError::StackNotFound => 404,
        },
    }
}

} // verus!
