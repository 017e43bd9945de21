use vstd::prelude::*;

verus! {

/// One of the three axes of the grid.
#[derive(Clone, Copy, Debug, PartialEq, Eq, Structural)]
pub enum Dir {
    X,
    Y,
    Z,
}

/// Interpolation scheme: cubic along all three axes, or cubic along x and y
/// and linear along z.
#[derive(Clone, Copy, Debug, PartialEq, Eq, Structural)]
pub enum Type {
    BicubicUnilinear,
    Tricubic,
}

/// Why a grid could not be built.
#[derive(Clone, Copy, Debug, PartialEq, Eq, Structural)]
pub enum ConfigError {
    /// The axis asks for fewer than two interior nodes.
    TooFewNodes(Dir),
    /// The dense field would hold more entries than memory can address.
    TooLarge,
}

} // verus!
