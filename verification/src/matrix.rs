//! The resolved value of a transform: a 4x4 matrix of single-precision cells.

use vstd::prelude::*;

verus! {

/// Bit pattern of the single-precision number one.
pub const ONE: u32 = 0x3F80_0000;

/// One column of a [`Matrix`]: four cells, each the IEEE 754 bit pattern of a
/// single-precision number.
#[derive(Clone, Copy, Debug, PartialEq, Eq, Structural)]
pub struct Column {
    pub x: u32,
    pub y: u32,
    pub z: u32,
    pub w: u32,
}

/// A 4x4 matrix stored column by column.
///
/// The subsystem stores, copies and hands out matrices but never looks into
/// them; the cells are bit patterns so that a matrix is a plain value that
/// compares exactly.
#[derive(Clone, Copy, Debug, PartialEq, Eq, Structural)]
pub struct Matrix {
    pub x: Column,
    pub y: Column,
    pub z: Column,
    pub w: Column,
}

impl Matrix {
    /// The identity matrix: one on the diagonal, zero elsewhere.
    pub open spec fn spec_identity() -> Matrix {
        Matrix {
            x: Column { x: ONE, y: 0, z: 0, w: 0 },
            y: Column { x: 0, y: ONE, z: 0, w: 0 },
            z: Column { x: 0, y: 0, z: ONE, w: 0 },
            w: Column { x: 0, y: 0, z: 0, w: ONE },
        }
    }

    /// Returns the identity matrix.
    #[verifier::when_used_as_spec(spec_identity)]
    pub fn identity() -> (m: Matrix)
        ensures
            m == Matrix::spec_identity(),
    {
        Matrix {
            x: Column { x: ONE, y: 0, z: 0, w: 0 },
            y: Column { x: 0, y: ONE, z: 0, w: 0 },
            z: Column { x: 0, y: 0, z: ONE, w: 0 },
            w: Column { x: 0, y: 0, z: 0, w: ONE },
        }
    }
}

} // verus!
