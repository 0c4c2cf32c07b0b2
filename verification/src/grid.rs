//! Row-major addressing of a dense `sx * sy * sz` volume:
//! cell `(x, y, z)` lives at `x + sx * (y + sy * z)`.

use vstd::prelude::*;
use vstd::arithmetic::div_mod::{lemma_fundamental_div_mod_converse, lemma_fundamental_div_mod};

verus! {

pub open spec fn in_volume(sx: int, sy: int, sz: int, x: int, y: int, z: int) -> bool {
    0 <= x < sx && 0 <= y < sy && 0 <= z < sz
}

pub open spec fn cell_index(sx: int, sy: int, x: int, y: int, z: int) -> int {
    x + sx * (y + sy * z)
}

pub open spec fn cell_x(sx: int, sy: int, i: int) -> int {
    i % sx
}

pub open spec fn cell_y(sx: int, sy: int, i: int) -> int {
    (i / sx) % sy
}

pub open spec fn cell_z(sx: int, sy: int, i: int) -> int {
    (i / sx) / sy
}

pub open spec fn volume(sx: int, sy: int, sz: int) -> int {
    sx * (sy * sz)
}

/// A cell inside the volume has an index inside the data, and the index
/// decodes back to the cell.
pub proof fn lemma_index_decodes(sx: int, sy: int, sz: int, x: int, y: int, z: int)
    requires
        sx > 0,
        sy > 0,
        in_volume(sx, sy, sz, x, y, z),
    ensures
        0 <= cell_index(sx, sy, x, y, z) < volume(sx, sy, sz),
        cell_x(sx, sy, cell_index(sx, sy, x, y, z)) == x,
        cell_y(sx, sy, cell_index(sx, sy, x, y, z)) == y,
        cell_z(sx, sy, cell_index(sx, sy, x, y, z)) == z,
{
    let i = cell_index(sx, sy, x, y, z);
    let q = y + sy * z;
    assert(0 <= q < sy * sz) by (nonlinear_arith)
        requires
            0 <= y < sy,
            0 <= z < sz,
            q == y + sy * z,
    ;
    assert(0 <= i < sx * (sy * sz)) by (nonlinear_arith)
        requires
            0 <= x < sx,
            0 <= q < sy * sz,
            i == x + sx * q,
    ;
    assert(i == q * sx + x) by (nonlinear_arith)
        requires
            i == x + sx * q,
    ;
    lemma_fundamental_div_mod_converse(i, sx, q, x);
    assert(q == z * sy + y) by (nonlinear_arith)
        requires
            q == y + sy * z,
    ;
    lemma_fundamental_div_mod_converse(q, sy, z, y);
}

/// Every index of the data decodes to a cell inside the volume, whose index it is.
pub proof fn lemma_decode_index(sx: int, sy: int, sz: int, i: int)
    requires
        sx > 0,
        sy > 0,
        sz > 0,
        0 <= i < volume(sx, sy, sz),
    ensures
        in_volume(sx, sy, sz, cell_x(sx, sy, i), cell_y(sx, sy, i), cell_z(sx, sy, i)),
        cell_index(sx, sy, cell_x(sx, sy, i), cell_y(sx, sy, i), cell_z(sx, sy, i)) == i,
{
    let q = i / sx;
    let x = i % sx;
    lemma_fundamental_div_mod(i, sx);
    let y = q % sy;
    let z = q / sy;
    lemma_fundamental_div_mod(q, sy);
    assert(0 <= x < sx);
    assert(0 <= q < sy * sz) by (nonlinear_arith)
        requires
            i == sx * q + x,
            0 <= x < sx,
            0 <= i < sx * (sy * sz),
            sx > 0,
    ;
    assert(0 <= y < sy);
    assert(0 <= z < sz) by (nonlinear_arith)
        requires
            q == sy * z + y,
            0 <= y < sy,
            0 <= q < sy * sz,
            sy > 0,
    ;
}

/// Distinct cells of the volume have distinct indices.
pub proof fn lemma_index_injective(
    sx: int,
    sy: int,
    sz: int,
    x: int,
    y: int,
    z: int,
    a: int,
    b: int,
    c: int,
)
    requires
        sx > 0,
        sy > 0,
        in_volume(sx, sy, sz, x, y, z),
        in_volume(sx, sy, sz, a, b, c),
        cell_index(sx, sy, x, y, z) == cell_index(sx, sy, a, b, c),
    ensures
        x == a && y == b && z == c,
{
    lemma_index_decodes(sx, sy, sz, x, y, z);
    lemma_index_decodes(sx, sy, sz, a, b, c);
}

/// Stepping a cursor through the volume in index order (x fastest, then y, then z).
pub proof fn lemma_index_step(sx: int, sy: int, x: int, y: int, z: int)
    requires
        sx > 0,
        sy > 0,
        0 <= x < sx,
        0 <= y < sy,
    ensures
        x + 1 < sx ==> cell_index(sx, sy, x + 1, y, z) == cell_index(sx, sy, x, y, z) + 1,
        x + 1 == sx && y + 1 < sy ==> cell_index(sx, sy, 0, y + 1, z) == cell_index(
            sx,
            sy,
            x,
            y,
            z,
        ) + 1,
        x + 1 == sx && y + 1 == sy ==> cell_index(sx, sy, 0, 0, z + 1) == cell_index(
            sx,
            sy,
            x,
            y,
            z,
        ) + 1,
{
    assert(sx * (y + 1 + sy * z) == sx * (y + sy * z) + sx) by (nonlinear_arith);
    assert(sx * (0 + sy * (z + 1)) == sx * (sy - 1 + sy * z) + sx) by (nonlinear_arith);
}

pub proof fn lemma_index_origin(sx: int, sy: int)
    ensures
        cell_index(sx, sy, 0, 0, 0) == 0,
{
    assert(sx * (0 + sy * 0) == 0) by (nonlinear_arith);
}

pub proof fn lemma_volume_bound(sx: int, sy: int, sz: int)
    requires
        1 <= sx <= 256,
        1 <= sy <= 256,
        1 <= sz <= 256,
    ensures
        1 <= volume(sx, sy, sz) <= 16777216,
        1 <= sx * sy <= 65536,
        1 <= sy * sz <= 65536,
{
    assert(1 <= sy * sz <= 65536) by (nonlinear_arith)
        requires
            1 <= sy <= 256,
            1 <= sz <= 256,
    ;
    assert(1 <= sx * (sy * sz) <= 16777216) by (nonlinear_arith)
        requires
            1 <= sx <= 256,
            1 <= sy * sz <= 65536,
    ;
    assert(1 <= sx * sy <= 65536) by (nonlinear_arith)
        requires
            1 <= sx <= 256,
            1 <= sy <= 256,
    ;
}

} // verus!
