use vstd::prelude::*;

verus! {

/// Coordinates of one atom. Each coordinate is carried as the IEEE-754 bit
/// pattern of the underlying number, so that the registry and pipeline logic
/// stay independent of floating-point arithmetic; the geometric math itself
/// runs outside the library, on values converted from these patterns.
#[derive(Clone, Copy, PartialEq, Eq, Structural, Debug)]
pub struct Pos {
    pub x: u64,
    pub y: u64,
    pub z: u64,
}

/// A 3-D projective transform: the 16 entries of its homogeneous matrix in
/// row-major order, each carried as an IEEE-754 bit pattern. The library
/// moves transforms around opaquely; applying one to a position is the
/// caller's floating-point work.
#[derive(Clone, Copy, PartialEq, Eq, Debug)]
pub struct Transform {
    pub entries: [u64; 16],
}

} // verus!
