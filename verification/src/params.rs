use vstd::prelude::*;
use crate::geom::Transform;
use crate::molecule::{Layer, Molecule};

verus! {

/// The path parameter naming the workspace a request addresses.
pub struct WorkspaceNameParam {
    pub ws: String,
}

/// The query parameter of workspace creation: the fixed stack capacity.
pub struct WorkspaceCreateParam {
    pub core_size: usize,
}

/// The path parameter addressing one stack of a workspace.
pub struct StackIndexParam {
    pub stack_idx: usize,
}

/// The payload of a batched patch write: target stacks and the patch.
pub struct WriteToStacks {
    pub stack_idxs: Vec<usize>,
    pub patch: Molecule,
}

/// The payload of a batched overlay write: target stacks and the layer.
pub struct OverlayToStacks {
    pub stack_idxs: Vec<usize>,
    pub layer: Layer,
}

/// The path parameters binding an id-name to an atom index.
pub struct IdxNameParam {
    pub atom_idx: usize,
    pub id_name: String,
}

/// The path parameter unbinding the id-names of an atom index.
pub struct RemoveNameParam {
    pub atom_idx: usize,
}

/// The payload tagging atoms with class names across a batch of stacks.
pub struct StackClassNamePatch {
    pub stack_idxs: Vec<usize>,
    pub class_names: Vec<(String, usize)>,
}

/// The payload of a transform-group request: target stacks, the class whose
/// atoms move, the transform, and whether the write-back overlays.
pub struct TransformGroup {
    pub stack_idxs: Vec<usize>,
    pub class_name: String,
    pub transform: Transform,
    pub overlay: bool,
}

} // verus!
