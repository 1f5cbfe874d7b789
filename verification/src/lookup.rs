//! Index logic of the two-dimensional Sommerfeld lookup table: a row-major
//! grid of `rho_pts` rows (radial distance) by `z_pts` columns (height).
use vstd::prelude::*;
use crate::matrix::{flat, lemma_flat_in_rect};

verus! {

/// The grid cell that a bilinear interpolation reads: its lower corner
/// `(r0, z0)` and the flat indices of its four corners.
#[derive(Clone, Copy, Debug, PartialEq, Eq, Structural)]
pub struct CellCorners {
    pub r0: usize,
    pub z0: usize,
    pub v00: usize,
    pub v10: usize,
    pub v01: usize,
    pub v11: usize,
}

/// The lower corner index along an axis of `pts` grid points: the floored
/// fractional index, held at most at `pts - 2` so that the upper corner is
/// still on the grid.
pub open spec fn lower_corner(floor: usize, pts: usize) -> usize {
    if floor < pts - 2 {
        floor
    } else {
        (pts - 2) as usize
    }
}

/// The cell to interpolate in, from the floored fractional grid indices.
/// All four corners are inside the grid, whatever the floors.
pub fn interpolation_cell(r_floor: usize, z_floor: usize, rho_pts: usize, z_pts: usize) -> (c:
    CellCorners)
    requires
        rho_pts >= 2,
        z_pts >= 2,
        rho_pts * z_pts <= usize::MAX,
    ensures
        c.r0 == lower_corner(r_floor, rho_pts),
        c.z0 == lower_corner(z_floor, z_pts),
        r_floor <= rho_pts - 2 ==> c.r0 == r_floor,
        r_floor > rho_pts - 2 ==> c.r0 == rho_pts - 2,
        z_floor <= z_pts - 2 ==> c.z0 == z_floor,
        z_floor > z_pts - 2 ==> c.z0 == z_pts - 2,
        c.v00 == flat(z_pts as int, c.r0 as int, c.z0 as int),
        c.v10 == flat(z_pts as int, c.r0 + 1, c.z0 as int),
        c.v01 == flat(z_pts as int, c.r0 as int, c.z0 + 1),
        c.v11 == flat(z_pts as int, c.r0 + 1, c.z0 + 1),
        c.v00 < rho_pts * z_pts,
        c.v10 < rho_pts * z_pts,
        c.v01 < rho_pts * z_pts,
        c.v11 < rho_pts * z_pts,
{
    let r0 = if r_floor < rho_pts - 2 {
        r_floor
    } else {
        rho_pts - 2
    };
    let z0 = if z_floor < z_pts - 2 {
        z_floor
    } else {
        z_pts - 2
    };
    let r1 = r0 + 1;
    let z1 = z0 + 1;
    proof {
        lemma_flat_in_rect(rho_pts as int, z_pts as int, r0 as int, z0 as int);
        lemma_flat_in_rect(rho_pts as int, z_pts as int, r1 as int, z0 as int);
        lemma_flat_in_rect(rho_pts as int, z_pts as int, r0 as int, z1 as int);
        lemma_flat_in_rect(rho_pts as int, z_pts as int, r1 as int, z1 as int);
    }
    CellCorners {
        r0,
        z0,
        v00: r0 * z_pts + z0,
        v10: r1 * z_pts + z0,
        v01: r0 * z_pts + z1,
        v11: r1 * z_pts + z1,
    }
}

/// The lower corner is the floored index itself whenever the cell above it is
/// on the grid (`floor + 1 < pts`), and otherwise the last cell `pts - 2`: it
/// never exceeds the floor and always leaves room for the upper corner.
pub proof fn lemma_lower_corner(floor: usize, pts: usize)
    requires
        pts >= 2,
    ensures
        floor + 1 < pts ==> lower_corner(floor, pts) == floor,
        floor + 1 >= pts ==> lower_corner(floor, pts) == pts - 2,
        lower_corner(floor, pts) <= floor,
        lower_corner(floor, pts) + 1 < pts,
{
}

} // verus!
