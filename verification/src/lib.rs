//! A session server core for editable scene data: named workspaces, each a
//! fixed-capacity array of stacks, each stack holding one scene value built
//! from addressable atoms and named classes. The registry, the per-workspace
//! stack operations, the patch and overlay contracts, and the class-driven
//! transform pipeline are specified and verified here; a serving layer adds
//! locking, transport, and the floating-point transform math, working on the
//! plain values these modules define.

pub mod errors;
pub mod geom;
pub mod molecule;
pub mod params;
pub mod registry;
pub mod workspace;
