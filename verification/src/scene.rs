//! MagicaVoxel-style scene graph (world editor).
//! Nodes: Transform (`nTRN`) -> Group (`nGRP`) | Shape (`nSHP`).
//!
//! World coordinates are `i32` and wrap on overflow, as the editor's release
//! builds do.

use vstd::prelude::*;
use std::collections::HashMap;
use crate::{CoreError, IVec3, VoxelModel};
use crate::layer::{LayerTable, LayerView, layer_views, same_layers};
use crate::writer::{sorted_node_ids, ascending_keys};
use crate::material::MaterialTable;
use crate::model::Grid;
use crate::text::{decimal, decimal_string, chars_of, string_of};
use crate::reader::refers;

verus! {

broadcast use vstd::std_specs::hash::group_hash_axioms;

pub type NodeId = i32;

pub type ModelId = usize;

/// MagicaVoxel packed rotation (single byte). Bits 0-1: the non-zero column
/// of row 0; bits 2-3: that of row 1; row 2 takes the remaining column; bits
/// 4, 5, 6: the signs of rows 0, 1, 2.
#[derive(Debug, Clone, Copy, PartialEq, Eq, Structural)]
pub struct MvRotation(pub u8);

/// The non-zero column of row `row` of the matrix that byte `r` packs.
pub open spec fn rot_col(r: u8, row: int) -> int {
    let a = (r % 4) as int;
    let b = ((r / 4) % 4) as int;
    let c0 = if a > 2 { 2 } else { a };
    let c1 = if b == a { (a + 1) % 3 } else if b > 2 { 2 } else { b };
    if row == 0 {
        c0
    } else if row == 1 {
        c1
    } else if c0 != 0 && c1 != 0 {
        0
    } else if c0 != 1 && c1 != 1 {
        1
    } else {
        2
    }
}

/// Whether row `row` of the matrix that byte `r` packs is negative.
pub open spec fn rot_neg(r: u8, row: int) -> bool {
    if row == 0 {
        (r / 16) % 2 == 1
    } else if row == 1 {
        (r / 32) % 2 == 1
    } else {
        (r / 64) % 2 == 1
    }
}

/// Entry `(row, col)` of the matrix that byte `r` packs.
pub open spec fn rot_entry(r: u8, row: int, col: int) -> int {
    if col == rot_col(r, row) {
        if rot_neg(r, row) {
            -1
        } else {
            1
        }
    } else {
        0
    }
}

/// The matrix that byte `r` packs, as integers.
pub open spec fn rot_matrix(r: u8) -> Seq<Seq<int>> {
    Seq::new(3, |i: int| Seq::new(3, |j: int| rot_entry(r, i, j)))
}

/// A `3 x 3` array as integers.
pub open spec fn mat_view(m: [[i32; 3]; 3]) -> Seq<Seq<int>> {
    Seq::new(3, |i: int| Seq::new(3, |j: int| m@[i]@[j] as int))
}

/// Rotation bytes whose matrix is a signed permutation (rows 0 and 1 use
/// different columns).
pub open spec fn rot_is_permutation(r: u8) -> bool {
    rot_col(r, 0) != rot_col(r, 1)
}

/// First non-zero entry of a row: its column and whether it is negative;
/// `(0, false)` for a zero row.
pub open spec fn first_nonzero(row: Seq<int>) -> (int, bool) {
    if row[0] != 0 {
        (0, row[0] < 0)
    } else if row[1] != 0 {
        (1, row[1] < 0)
    } else if row[2] != 0 {
        (2, row[2] < 0)
    } else {
        (0, false)
    }
}

/// The byte that packs a matrix: columns of the first non-zero entries of
/// rows 0 and 1, and the signs of the three rows.
pub open spec fn matrix_byte(m: Seq<Seq<int>>) -> u8 {
    let (c0, n0) = first_nonzero(m[0]);
    let (c1, n1) = first_nonzero(m[1]);
    let (_c2, n2) = first_nonzero(m[2]);
    (c0 + 4 * c1 + (if n0 { 16int } else { 0 }) + (if n1 { 32int } else { 0 }) + (if n2 {
        64int
    } else {
        0
    })) as u8
}

/// The product of two `3 x 3` matrices.
pub open spec fn mat_mul(a: Seq<Seq<int>>, b: Seq<Seq<int>>) -> Seq<Seq<int>> {
    Seq::new(
        3,
        |i: int| Seq::new(3, |j: int| a[i][0] * b[0][j] + a[i][1] * b[1][j] + a[i][2] * b[2][j]),
    )
}

/// The rotation applying `b` first and then `a`.
pub open spec fn compose_rot(a: u8, b: u8) -> u8 {
    matrix_byte(mat_mul(rot_matrix(a), rot_matrix(b)))
}

/// Negation that wraps `i32::MIN` onto itself.
pub open spec fn wneg(c: i32) -> i32 {
    if c == i32::MIN {
        c
    } else {
        (-c) as i32
    }
}

/// Component `i` (0, 1, 2 = x, y, z) of a vector.
pub open spec fn comp(v: IVec3, i: int) -> i32 {
    if i == 0 {
        v.x
    } else if i == 1 {
        v.y
    } else {
        v.z
    }
}

/// `c` with the sign of row `row` of the matrix that byte `r` packs.
pub open spec fn signed(r: u8, row: int, c: i32) -> i32 {
    if rot_neg(r, row) {
        wneg(c)
    } else {
        c
    }
}

/// Row `row` of the rotation applied to `v`.
pub open spec fn rot_axis(r: u8, row: int, v: IVec3) -> i32 {
    signed(r, row, comp(v, rot_col(r, row)))
}

/// A vector rotated by the matrix that byte `r` packs.
pub open spec fn rotated(r: u8, v: IVec3) -> IVec3 {
    IVec3 { x: rot_axis(r, 0, v), y: rot_axis(r, 1, v), z: rot_axis(r, 2, v) }
}

/// Component `k` of the transposed rotation applied to `p`: the wrapping
/// sum of the signed rows whose column is `k`.
pub open spec fn inv_axis(r: u8, k: int, p: IVec3) -> i32 {
    let t0 = if rot_col(r, 0) == k { signed(r, 0, p.x) } else { 0i32 };
    let t1 = if rot_col(r, 1) == k { signed(r, 1, p.y) } else { 0i32 };
    let t2 = if rot_col(r, 2) == k { signed(r, 2, p.z) } else { 0i32 };
    t0.wrapping_add(t1).wrapping_add(t2)
}

/// A vector rotated by the transpose of the matrix that byte `r` packs.
pub open spec fn inv_rotated(r: u8, p: IVec3) -> IVec3 {
    IVec3 { x: inv_axis(r, 0, p), y: inv_axis(r, 1, p), z: inv_axis(r, 2, p) }
}

pub open spec fn vadd(a: IVec3, b: IVec3) -> IVec3 {
    IVec3 { x: a.x.wrapping_add(b.x), y: a.y.wrapping_add(b.y), z: a.z.wrapping_add(b.z) }
}

pub open spec fn vsub(a: IVec3, b: IVec3) -> IVec3 {
    IVec3 { x: a.x.wrapping_sub(b.x), y: a.y.wrapping_sub(b.y), z: a.z.wrapping_sub(b.z) }
}

/// A row with a single non-zero entry `s` at column `col`.
fn unit_row(col: u8, s: i32) -> (row: [i32; 3])
    requires
        col <= 2,
    ensures
        forall|j: int| 0 <= j < 3 ==> #[trigger] row@[j] == (if j == col { s as int } else { 0 }),
{
    if col == 0 {
        [s, 0, 0]
    } else if col == 1 {
        [0, s, 0]
    } else {
        [0, 0, s]
    }
}

fn row_sign(neg: bool) -> (s: i32)
    ensures
        s == (if neg { -1int } else { 1 }),
{
    if neg {
        -1
    } else {
        1
    }
}

fn first_nonzero_exec(row: [i32; 3]) -> (r: (u8, bool))
    ensures
        r.0 as int == first_nonzero(Seq::new(3, |j: int| row@[j] as int)).0,
        r.1 == first_nonzero(Seq::new(3, |j: int| row@[j] as int)).1,
        r.0 <= 2,
{
    if row[0] != 0 {
        (0, row[0] < 0)
    } else if row[1] != 0 {
        (1, row[1] < 0)
    } else if row[2] != 0 {
        (2, row[2] < 0)
    } else {
        (0, false)
    }
}

fn neg_wrap(c: i32) -> (r: i32)
    ensures
        r == wneg(c),
{
    if c == i32::MIN {
        c
    } else {
        -c
    }
}

fn pick(v: IVec3, i: u8) -> (c: i32)
    ensures
        c == comp(v, i as int),
{
    if i == 0 {
        v.x
    } else if i == 1 {
        v.y
    } else {
        v.z
    }
}

impl MvRotation {
    /// The identity rotation (byte 0).
    pub fn identity() -> (r: Self)
        ensures
            r == MvRotation(0),
    {
        MvRotation(0)
    }

    /// The columns of rows 0, 1, 2 and the signs.
    fn layout(self) -> (r: (u8, u8, u8))
        ensures
            r.0 as int == rot_col(self.0, 0),
            r.1 as int == rot_col(self.0, 1),
            r.2 as int == rot_col(self.0, 2),
            r.0 <= 2,
            r.1 <= 2,
            r.2 <= 2,
    {
        let r = self.0;
        let a = r % 4;
        let b = (r / 4) % 4;
        let i1 = if a > 2 {
            2
        } else {
            a
        };
        let i2 = if b == a {
            (a + 1) % 3
        } else if b > 2 {
            2
        } else {
            b
        };
        let i3 = if i1 != 0 && i2 != 0 {
            0
        } else if i1 != 1 && i2 != 1 {
            1
        } else {
            2
        };
        (i1, i2, i3)
    }

    /// Decode to a row-major 3x3 matrix with entries in {-1, 0, 1}; each
    /// row has exactly one non-zero entry.
    pub fn to_matrix(self) -> (m: [[i32; 3]; 3])
        ensures
            mat_view(m) == rot_matrix(self.0),
            forall|i: int, j: int|
                0 <= i < 3 && 0 <= j < 3 ==> #[trigger] m@[i]@[j] as int == rot_entry(self.0, i, j),
    {
        let r = self.0;
        let (i1, i2, i3) = self.layout();
        let s0 = row_sign((r / 16) % 2 == 1);
        let s1 = row_sign((r / 32) % 2 == 1);
        let s2 = row_sign((r / 64) % 2 == 1);
        let m = [unit_row(i1, s0), unit_row(i2, s1), unit_row(i3, s2)];
        assert(mat_view(m) =~~= rot_matrix(self.0));
        m
    }

    /// Encode a matrix: the columns of the first non-zero entries of rows 0
    /// and 1, and the signs of the first non-zero entries of the three rows.
    pub fn from_matrix(m: [[i32; 3]; 3]) -> (r: Self)
        ensures
            r.0 == matrix_byte(mat_view(m)),
    {
        let (c0, n0) = first_nonzero_exec(m[0]);
        let (c1, n1) = first_nonzero_exec(m[1]);
        let (_c2, n2) = first_nonzero_exec(m[2]);
        proof {
            assert(mat_view(m)[0] =~= Seq::new(3, |j: int| m@[0]@[j] as int));
            assert(mat_view(m)[1] =~= Seq::new(3, |j: int| m@[1]@[j] as int));
            assert(mat_view(m)[2] =~= Seq::new(3, |j: int| m@[2]@[j] as int));
        }
        let mut r: u8 = c0 + 4 * c1;
        if n0 {
            r = r + 16;
        }
        if n1 {
            r = r + 32;
        }
        if n2 {
            r = r + 64;
        }
        MvRotation(r)
    }

    /// The vector rotated by this rotation (entries wrap like `i32` arithmetic
    /// in release builds: only `-i32::MIN` is affected).
    pub fn rotate_vec(self, v: IVec3) -> (w: IVec3)
        ensures
            w == rotated(self.0, v),
    {
        let r = self.0;
        let (i1, i2, i3) = self.layout();
        let c0 = pick(v, i1);
        let c1 = pick(v, i2);
        let c2 = pick(v, i3);
        let x = if (r / 16) % 2 == 1 {
            neg_wrap(c0)
        } else {
            c0
        };
        let y = if (r / 32) % 2 == 1 {
            neg_wrap(c1)
        } else {
            c1
        };
        let z = if (r / 64) % 2 == 1 {
            neg_wrap(c2)
        } else {
            c2
        };
        IVec3 { x, y, z }
    }
}

impl Default for MvRotation {
    fn default() -> (r: Self)
        ensures
            r == MvRotation(0),
    {
        MvRotation(0)
    }
}

fn mul_unit(a: i32, b: i32) -> (r: i32)
    requires
        -1 <= a <= 1,
        -1 <= b <= 1,
    ensures
        r == a * b,
        -1 <= r <= 1,
{
    assert(a * b == (if a == 0 || b == 0 { 0 } else if a == b { 1 } else { -1 })) by (nonlinear_arith)
        requires
            -1 <= a <= 1,
            -1 <= b <= 1,
    ;
    if a == 0 || b == 0 {
        0
    } else if a == b {
        1
    } else {
        -1
    }
}

/// Entry `(i, j)` of the product of two matrices with entries in {-1, 0, 1}.
fn product_entry(ma: &[[i32; 3]; 3], mb: &[[i32; 3]; 3], i: usize, j: usize) -> (e: i32)
    requires
        i < 3,
        j < 3,
        forall|p: int, q: int| 0 <= p < 3 && 0 <= q < 3 ==> -1 <= #[trigger] ma@[p]@[q] <= 1,
        forall|p: int, q: int| 0 <= p < 3 && 0 <= q < 3 ==> -1 <= #[trigger] mb@[p]@[q] <= 1,
    ensures
        e as int == mat_mul(mat_view(*ma), mat_view(*mb))[i as int][j as int],
{
    let a = mul_unit(ma[i][0], mb[0][j]);
    let b = mul_unit(ma[i][1], mb[1][j]);
    let c = mul_unit(ma[i][2], mb[2][j]);
    a + b + c
}

/// The rotation applying `b` first and then `a`.
fn compose_rotation(a: MvRotation, b: MvRotation) -> (r: MvRotation)
    ensures
        r.0 == compose_rot(a.0, b.0),
{
    let ma = a.to_matrix();
    let mb = b.to_matrix();
    let rows = [
        [
            product_entry(&ma, &mb, 0, 0),
            product_entry(&ma, &mb, 0, 1),
            product_entry(&ma, &mb, 0, 2),
        ],
        [
            product_entry(&ma, &mb, 1, 0),
            product_entry(&ma, &mb, 1, 1),
            product_entry(&ma, &mb, 1, 2),
        ],
        [
            product_entry(&ma, &mb, 2, 0),
            product_entry(&ma, &mb, 2, 1),
            product_entry(&ma, &mb, 2, 2),
        ],
    ];
    proof {
        assert(mat_view(rows) =~~= mat_mul(mat_view(ma), mat_view(mb)));
    }
    MvRotation::from_matrix(rows)
}

/// Transform local voxel coordinates to world coordinates: rotate, then translate.
pub fn local_to_world(local: IVec3, translation: IVec3, rotation: MvRotation) -> (w: IVec3)
    ensures
        w == vadd(rotated(rotation.0, local), translation),
{
    let r = rotation.rotate_vec(local);
    IVec3 {
        x: r.x.wrapping_add(translation.x),
        y: r.y.wrapping_add(translation.y),
        z: r.z.wrapping_add(translation.z),
    }
}

/// Inverse of [`local_to_world`] for signed permutation rotations: untranslate,
/// then apply the transposed matrix.
pub fn world_to_local(world: IVec3, translation: IVec3, rotation: MvRotation) -> (l: IVec3)
    ensures
        l == inv_rotated(rotation.0, vsub(world, translation)),
{
    let p = IVec3 {
        x: world.x.wrapping_sub(translation.x),
        y: world.y.wrapping_sub(translation.y),
        z: world.z.wrapping_sub(translation.z),
    };
    let r = rotation.0;
    let (i1, i2, i3) = rotation.layout();
    let t0 = if (r / 16) % 2 == 1 {
        neg_wrap(p.x)
    } else {
        p.x
    };
    let t1 = if (r / 32) % 2 == 1 {
        neg_wrap(p.y)
    } else {
        p.y
    };
    let t2 = if (r / 64) % 2 == 1 {
        neg_wrap(p.z)
    } else {
        p.z
    };
    let x = (if i1 == 0 { t0 } else { 0 }).wrapping_add(if i2 == 0 { t1 } else { 0 }).wrapping_add(
        if i3 == 0 { t2 } else { 0 },
    );
    let y = (if i1 == 1 { t0 } else { 0 }).wrapping_add(if i2 == 1 { t1 } else { 0 }).wrapping_add(
        if i3 == 1 { t2 } else { 0 },
    );
    let z = (if i1 == 2 { t0 } else { 0 }).wrapping_add(if i2 == 2 { t1 } else { 0 }).wrapping_add(
        if i3 == 2 { t2 } else { 0 },
    );
    IVec3 { x, y, z }
}

/// Decoding and re-encoding a matrix gives the byte back, for every byte
/// below 128 whose two column fields are valid (at most 2) and differ.
pub proof fn lemma_matrix_roundtrip(r: u8)
    requires
        r < 128,
        r % 4 <= 2,
        (r / 4) % 4 <= 2,
        r % 4 != (r / 4) % 4,
    ensures
        matrix_byte(rot_matrix(r)) == r,
{
    let m = rot_matrix(r);
    assert(m[0] =~= Seq::new(3, |j: int| rot_entry(r, 0, j)));
    assert(m[1] =~= Seq::new(3, |j: int| rot_entry(r, 1, j)));
    assert(m[2] =~= Seq::new(3, |j: int| rot_entry(r, 2, j)));
}

/// How many of three integers are non-zero.
pub open spec fn nonzero_count(a: int, b: int, c: int) -> int {
    (if a != 0 { 1int } else { 0 }) + (if b != 0 { 1int } else { 0 }) + (if c != 0 { 1int } else { 0 })
}

/// A `3 x 3` matrix with entries in `{-1, 0, 1}` and exactly one non-zero
/// entry in each row and in each column.
pub open spec fn is_signed_permutation(m: Seq<Seq<int>>) -> bool {
    &&& m.len() == 3
    &&& forall|i: int| 0 <= i < 3 ==> (#[trigger] m[i]).len() == 3
    &&& forall|i: int, j: int| 0 <= i < 3 && 0 <= j < 3 ==> -1 <= #[trigger] m[i][j] <= 1
    &&& forall|i: int| 0 <= i < 3 ==> nonzero_count(m[i][0], m[i][1], #[trigger] m[i][2]) == 1
    &&& forall|j: int| 0 <= j < 3 ==> nonzero_count(m[0][j], m[1][j], #[trigger] m[2][j]) == 1
}

proof fn lemma_first_nonzero_unit(row: Seq<int>)
    requires
        row.len() == 3,
        forall|j: int| 0 <= j < 3 ==> -1 <= #[trigger] row[j] <= 1,
        nonzero_count(row[0], row[1], row[2]) == 1,
    ensures
        0 <= first_nonzero(row).0 < 3,
        forall|j: int|
            0 <= j < 3 ==> #[trigger] row[j] == (if j == first_nonzero(row).0 {
                if first_nonzero(row).1 { -1int } else { 1int }
            } else {
                0int
            }),
{
    assert(-1 <= row[0] <= 1 && -1 <= row[1] <= 1 && -1 <= row[2] <= 1);
}

/// Packing a signed permutation matrix into a rotation byte and unpacking it
/// again gives the same matrix.
pub proof fn lemma_signed_permutation_roundtrip(m: Seq<Seq<int>>)
    requires
        is_signed_permutation(m),
    ensures
        rot_matrix(matrix_byte(m)) == m,
{
    lemma_first_nonzero_unit(m[0]);
    lemma_first_nonzero_unit(m[1]);
    lemma_first_nonzero_unit(m[2]);
    let (c0, n0) = first_nonzero(m[0]);
    let (c1, n1) = first_nonzero(m[1]);
    let (c2, n2) = first_nonzero(m[2]);
    assert(nonzero_count(m[0][c0], m[1][c0], m[2][c0]) == 1);
    assert(nonzero_count(m[0][c1], m[1][c1], m[2][c1]) == 1);
    assert(c0 != c1 && c1 != c2 && c0 != c2);
    let v: int = c0 + 4 * c1 + (if n0 { 16int } else { 0 }) + (if n1 { 32int } else { 0 }) + (if n2 {
        64int
    } else {
        0
    });
    let b = matrix_byte(m);
    assert(0 <= v < 128);
    assert(b as int == v);
    assert(b % 4 == c0);
    assert((b / 4) % 4 == c1);
    assert(rot_col(b, 0) == c0);
    assert(rot_col(b, 1) == c1);
    assert(rot_col(b, 2) == c2);
    assert(rot_neg(b, 0) == n0);
    assert(rot_neg(b, 1) == n1);
    assert(rot_neg(b, 2) == n2);
    let r = rot_matrix(b);
    assert forall|i: int| 0 <= i < 3 implies #[trigger] r[i] =~= m[i] by {
        assert forall|j: int| 0 <= j < 3 implies r[i][j] == m[i][j] by {
            assert(r[i][j] == rot_entry(b, i, j));
        }
    }
    assert(r =~= m);
}

/// The sign that bit `b` of a rotation byte gives its row: `-1` when set.
pub open spec fn bit_sign(r: u8, b: int) -> int {
    if (r as int / b) % 2 == 1 {
        -1
    } else {
        1
    }
}

/// How MagicaVoxel packs a rotation into a byte: bit 4 is the sign of row 0,
/// bit 5 that of row 1 and bit 6 that of row 2; for a byte whose column
/// fields are valid and differ, bits 0-1 give the column of row 0's non-zero
/// entry, bits 2-3 that of row 1, row 2 takes the remaining column, and
/// every other entry is zero.
pub proof fn lemma_rotation_bits(r: u8)
    ensures
        rot_matrix(r).len() == 3,
        forall|i: int| 0 <= i < 3 ==> (#[trigger] rot_matrix(r)[i]).len() == 3,
        rot_matrix(r)[0][rot_col(r, 0)] == bit_sign(r, 16),
        rot_matrix(r)[1][rot_col(r, 1)] == bit_sign(r, 32),
        rot_matrix(r)[2][rot_col(r, 2)] == bit_sign(r, 64),
        r % 4 <= 2 && (r / 4) % 4 <= 2 && r % 4 != (r / 4) % 4 ==> {
            let c0 = (r % 4) as int;
            let c1 = ((r / 4) % 4) as int;
            let c2 = 3 - c0 - c1;
            &&& rot_matrix(r)[0][c0] == bit_sign(r, 16)
            &&& rot_matrix(r)[1][c1] == bit_sign(r, 32)
            &&& rot_matrix(r)[2][c2] == bit_sign(r, 64)
            &&& forall|j: int| 0 <= j < 3 && j != c0 ==> rot_matrix(r)[0][j] == 0
            &&& forall|j: int| 0 <= j < 3 && j != c1 ==> rot_matrix(r)[1][j] == 0
            &&& forall|j: int| 0 <= j < 3 && j != c2 ==> rot_matrix(r)[2][j] == 0
        },
{
    assert(0 <= rot_col(r, 0) < 3 && 0 <= rot_col(r, 1) < 3 && 0 <= rot_col(r, 2) < 3);
    assert(rot_matrix(r)[0][rot_col(r, 0)] == rot_entry(r, 0, rot_col(r, 0)));
    assert(rot_matrix(r)[1][rot_col(r, 1)] == rot_entry(r, 1, rot_col(r, 1)));
    assert(rot_matrix(r)[2][rot_col(r, 2)] == rot_entry(r, 2, rot_col(r, 2)));
    if r % 4 <= 2 && (r / 4) % 4 <= 2 && r % 4 != (r / 4) % 4 {
        assert(rot_col(r, 0) == r % 4);
        assert(rot_col(r, 1) == (r / 4) % 4);
        assert(rot_col(r, 2) == 3 - r % 4 - (r / 4) % 4);
        assert forall|i: int, j: int| 0 <= i < 3 && 0 <= j < 3 implies rot_matrix(r)[i][j] == rot_entry(
            r,
            i,
            j,
        ) by {}
    }
}

/// Rotating a vector multiplies it by the rotation's matrix (for components
/// other than `i32::MIN`, whose negation wraps).
pub proof fn lemma_rotated_is_product(r: u8, v: IVec3)
    requires
        v.x != i32::MIN,
        v.y != i32::MIN,
        v.z != i32::MIN,
    ensures
        forall|i: int|
            0 <= i < 3 ==> #[trigger] comp(rotated(r, v), i) as int == rot_matrix(r)[i][0] * v.x
                + rot_matrix(r)[i][1] * v.y + rot_matrix(r)[i][2] * v.z,
{
    let m = rot_matrix(r);
    assert forall|i: int| 0 <= i < 3 implies #[trigger] comp(rotated(r, v), i) as int == m[i][0] * v.x
        + m[i][1] * v.y + m[i][2] * v.z by {
        assert(m[i][0] == rot_entry(r, i, 0));
        assert(m[i][1] == rot_entry(r, i, 1));
        assert(m[i][2] == rot_entry(r, i, 2));
        assert(comp(rotated(r, v), i) == rot_axis(r, i, v));
        let c = rot_col(r, i);
        assert(0 <= c < 3);
        let a = comp(v, c);
        assert(a != i32::MIN);
        assert(a as int == if c == 0 { v.x as int } else if c == 1 { v.y as int } else { v.z as int });
        if rot_neg(r, i) {
            assert(wneg(a) as int == -(a as int));
            assert(rot_axis(r, i, v) as int == -(a as int));
        } else {
            assert(rot_axis(r, i, v) == a);
        }
        if c == 0 {
            assert(m[i][1] == 0 && m[i][2] == 0);
        } else if c == 1 {
            assert(m[i][0] == 0 && m[i][2] == 0);
        } else {
            assert(m[i][0] == 0 && m[i][1] == 0);
        }
    }
}

/// For signed permutation rotations, `world_to_local` undoes `local_to_world`.
pub proof fn lemma_world_local_inverse(p: IVec3, t: IVec3, r: MvRotation)
    requires
        rot_is_permutation(r.0),
    ensures
        inv_rotated(r.0, vsub(vadd(rotated(r.0, p), t), t)) == p,
{
    let q = vadd(rotated(r.0, p), t);
    assert(vsub(q, t) == rotated(r.0, p));
}

/// For signed permutation rotations, `local_to_world` undoes `world_to_local`.
pub proof fn lemma_local_world_inverse(w: IVec3, t: IVec3, r: MvRotation)
    requires
        rot_is_permutation(r.0),
    ensures
        vadd(rotated(r.0, inv_rotated(r.0, vsub(w, t))), t) == w,
{
    let q = vsub(w, t);
    assert(rotated(r.0, inv_rotated(r.0, q)) == q);
}

/// A transform: places its child in the world (`nTRN`).
#[derive(Debug, Clone)]
pub struct TransformNode {
    pub id: NodeId,
    pub name: String,
    pub hidden: bool,
    pub child: NodeId,
    pub translation: IVec3,
    pub rotation: MvRotation,
    pub layer_id: i32,
}

/// A group of child nodes (`nGRP`).
#[derive(Debug, Clone)]
pub struct GroupNode {
    pub id: NodeId,
    pub name: String,
    pub children: Vec<NodeId>,
}

/// A shape: references models by index (`nSHP`).
#[derive(Debug, Clone)]
pub struct ShapeNode {
    pub id: NodeId,
    pub model_ids: Vec<ModelId>,
}

#[derive(Debug, Clone)]
pub enum SceneNode {
    Transform(TransformNode),
    Group(GroupNode),
    Shape(ShapeNode),
}

/// A scene node as plain values.
pub enum NodeView {
    Transform {
        id: i32,
        name: Seq<char>,
        hidden: bool,
        child: i32,
        translation: IVec3,
        rotation: u8,
        layer_id: i32,
    },
    Group { id: i32, name: Seq<char>, children: Seq<i32> },
    Shape { id: i32, model_ids: Seq<usize> },
}

impl View for SceneNode {
    type V = NodeView;

    open spec fn view(&self) -> NodeView {
        match self {
            SceneNode::Transform(t) => NodeView::Transform {
                id: t.id,
                name: t.name@,
                hidden: t.hidden,
                child: t.child,
                translation: t.translation,
                rotation: t.rotation.0,
                layer_id: t.layer_id,
            },
            SceneNode::Group(g) => NodeView::Group { id: g.id, name: g.name@, children: g.children@ },
            SceneNode::Shape(s) => NodeView::Shape { id: s.id, model_ids: s.model_ids@ },
        }
    }
}

pub open spec fn node_id_of(n: NodeView) -> i32 {
    match n {
        NodeView::Transform { id, .. } => id,
        NodeView::Group { id, .. } => id,
        NodeView::Shape { id, .. } => id,
    }
}

pub open spec fn node_name_of(n: NodeView) -> Seq<char> {
    match n {
        NodeView::Transform { name, .. } => name,
        NodeView::Group { name, .. } => name,
        NodeView::Shape { .. } => Seq::empty(),
    }
}

fn copy_ids(v: &Vec<i32>) -> (r: Vec<i32>)
    ensures
        r@ == v@,
{
    let mut out: Vec<i32> = Vec::new();
    let mut i: usize = 0;
    while i < v.len()
        invariant
            i <= v.len(),
            out@ == v@.subrange(0, i as int),
        decreases v.len() - i,
    {
        out.push(v[i]);
        i = i + 1;
    }
    assert(v@.subrange(0, v.len() as int) == v@);
    out
}

fn copy_model_ids(v: &Vec<usize>) -> (r: Vec<usize>)
    ensures
        r@ == v@,
{
    let mut out: Vec<usize> = Vec::new();
    let mut i: usize = 0;
    while i < v.len()
        invariant
            i <= v.len(),
            out@ == v@.subrange(0, i as int),
        decreases v.len() - i,
    {
        out.push(v[i]);
        i = i + 1;
    }
    assert(v@.subrange(0, v.len() as int) == v@);
    out
}

fn same_ids(a: &Vec<NodeId>, b: &Vec<NodeId>) -> (r: bool)
    ensures
        r == (a@ == b@),
{
    if a.len() != b.len() {
        return false;
    }
    let mut i: usize = 0;
    while i < a.len()
        invariant
            i <= a.len(),
            a.len() == b.len(),
            forall|k: int| 0 <= k < i ==> a@[k] == b@[k],
        decreases a.len() - i,
    {
        if a[i] != b[i] {
            return false;
        }
        i = i + 1;
    }
    assert(a@ =~= b@);
    true
}

fn same_model_ids(a: &Vec<ModelId>, b: &Vec<ModelId>) -> (r: bool)
    ensures
        r == (a@ == b@),
{
    if a.len() != b.len() {
        return false;
    }
    let mut i: usize = 0;
    while i < a.len()
        invariant
            i <= a.len(),
            a.len() == b.len(),
            forall|k: int| 0 <= k < i ==> a@[k] == b@[k],
        decreases a.len() - i,
    {
        if a[i] != b[i] {
            return false;
        }
        i = i + 1;
    }
    assert(a@ =~= b@);
    true
}

impl SceneNode {
    pub fn id(&self) -> (id: NodeId)
        ensures
            id == node_id_of(self@),
    {
        match self {
            SceneNode::Transform(n) => n.id,
            SceneNode::Group(n) => n.id,
            SceneNode::Shape(n) => n.id,
        }
    }

    /// The node's name; shapes have none.
    pub fn name(&self) -> (s: &str)
        ensures
            s@ == node_name_of(self@),
    {
        match self {
            SceneNode::Transform(n) => n.name.as_str(),
            SceneNode::Group(n) => n.name.as_str(),
            SceneNode::Shape(_) => {
                proof {
                    reveal_strlit("");
                }
                ""
            },
        }
    }

    /// Whether two nodes are equal field by field.
    pub fn same(&self, other: &SceneNode) -> (b: bool)
        ensures
            b == (self@ == other@),
    {
        match (self, other) {
            (SceneNode::Transform(a), SceneNode::Transform(t)) => a.id == t.id && a.name == t.name
                && a.hidden == t.hidden && a.child == t.child && a.translation == t.translation
                && a.rotation.0 == t.rotation.0 && a.layer_id == t.layer_id,
            (SceneNode::Group(a), SceneNode::Group(g)) => a.id == g.id && a.name == g.name
                && same_ids(&a.children, &g.children),
            (SceneNode::Shape(a), SceneNode::Shape(h)) => a.id == h.id && same_model_ids(
                &a.model_ids,
                &h.model_ids,
            ),
            _ => false,
        }
    }

    /// A copy with the same fields.
    pub fn copy(&self) -> (n: SceneNode)
        ensures
            n@ == self@,
    {
        match self {
            SceneNode::Transform(t) => SceneNode::Transform(
                TransformNode {
                    id: t.id,
                    name: t.name.clone(),
                    hidden: t.hidden,
                    child: t.child,
                    translation: t.translation,
                    rotation: t.rotation,
                    layer_id: t.layer_id,
                },
            ),
            SceneNode::Group(g) => SceneNode::Group(
                GroupNode { id: g.id, name: g.name.clone(), children: copy_ids(&g.children) },
            ),
            SceneNode::Shape(s) => SceneNode::Shape(
                ShapeNode { id: s.id, model_ids: copy_model_ids(&s.model_ids) },
            ),
        }
    }
}

/// A flattened drawable instance in world space.
#[derive(Debug, Clone)]
pub struct WorldInstance {
    pub transform_id: NodeId,
    pub model_id: ModelId,
    pub name: String,
    pub translation: IVec3,
    pub rotation: MvRotation,
    pub hidden: bool,
}

/// A world instance as plain values.
pub struct InstanceView {
    pub transform_id: i32,
    pub model_id: usize,
    pub name: Seq<char>,
    pub translation: IVec3,
    pub rotation: u8,
    pub hidden: bool,
}

impl View for WorldInstance {
    type V = InstanceView;

    open spec fn view(&self) -> InstanceView {
        InstanceView {
            transform_id: self.transform_id,
            model_id: self.model_id,
            name: self.name@,
            translation: self.translation,
            rotation: self.rotation.0,
            hidden: self.hidden,
        }
    }
}

pub open spec fn instance_views(v: Seq<WorldInstance>) -> Seq<InstanceView> {
    v.map_values(|w: WorldInstance| w@)
}

/// The node graph of a scene as plain values.
pub struct SceneGraph {
    pub nodes: Map<i32, NodeView>,
    pub root: i32,
    pub next_id: i32,
}

pub open spec fn is_transform(nodes: Map<i32, NodeView>, id: i32) -> bool {
    nodes.contains_key(id) && nodes[id] is Transform
}

pub open spec fn is_group(nodes: Map<i32, NodeView>, id: i32) -> bool {
    nodes.contains_key(id) && nodes[id] is Group
}

/// The child of a transform node.
pub open spec fn child_of(n: NodeView) -> i32 {
    match n {
        NodeView::Transform { child, .. } => child,
        _ => 0,
    }
}

/// The graph made ready for several objects: a root transform that is not
/// over a group is put under a new group `root` below a new root transform.
pub open spec fn with_world_root(g: SceneGraph) -> SceneGraph {
    if !is_transform(g.nodes, g.root) || is_group(g.nodes, child_of(g.nodes[g.root])) {
        g
    } else {
        let gid = g.next_id;
        let nr = (g.next_id + 1) as i32;
        SceneGraph {
            nodes: g.nodes.insert(
                gid,
                NodeView::Group { id: gid, name: seq!['r', 'o', 'o', 't'], children: seq![g.root] },
            ).insert(
                nr,
                NodeView::Transform {
                    id: nr,
                    name: Seq::empty(),
                    hidden: false,
                    child: gid,
                    translation: IVec3 { x: 0, y: 0, z: 0 },
                    rotation: 0,
                    layer_id: -1i32,
                },
            ),
            root: nr,
            next_id: (g.next_id + 2) as i32,
        }
    }
}

/// The graph after adding an object: a shape over `model_id` under a new
/// transform named `name` at `t` (layer 0), attached to the root group.
pub open spec fn graph_add_object(g: SceneGraph, name: Seq<char>, model_id: usize, t: IVec3) -> SceneGraph {
    let g1 = with_world_root(g);
    let sid = g1.next_id;
    let tid = (g1.next_id + 1) as i32;
    let n2 = g1.nodes.insert(sid, NodeView::Shape { id: sid, model_ids: seq![model_id] }).insert(
        tid,
        NodeView::Transform {
            id: tid,
            name,
            hidden: false,
            child: sid,
            translation: t,
            rotation: 0,
            layer_id: 0,
        },
    );
    let n3 = if is_transform(n2, g1.root) && is_group(n2, child_of(n2[g1.root])) {
        let c = child_of(n2[g1.root]);
        match n2[c] {
            NodeView::Group { id, name, children } => n2.insert(
                c,
                NodeView::Group { id, name, children: children.push(tid) },
            ),
            _ => n2,
        }
    } else {
        n2
    };
    SceneGraph { nodes: n3, root: g1.root, next_id: (g1.next_id + 2) as i32 }
}

/// A transform moved to translation `t`.
pub open spec fn moved_to(t: IVec3) -> spec_fn(NodeView) -> NodeView {
    |n: NodeView|
        match n {
            NodeView::Transform { id, name, hidden, child, rotation, layer_id, .. } => NodeView::Transform {
                id,
                name,
                hidden,
                child,
                translation: t,
                rotation,
                layer_id,
            },
            _ => n,
        }
}

/// A transform hidden (or shown) as `v` says.
pub open spec fn hidden_as(v: bool) -> spec_fn(NodeView) -> NodeView {
    |n: NodeView|
        match n {
            NodeView::Transform { id, name, child, translation, rotation, layer_id, .. } => NodeView::Transform {
                id,
                name,
                hidden: v,
                child,
                translation,
                rotation,
                layer_id,
            },
            _ => n,
        }
}

/// A transform renamed to `v`.
pub open spec fn renamed_to(v: Seq<char>) -> spec_fn(NodeView) -> NodeView {
    |n: NodeView|
        match n {
            NodeView::Transform { id, hidden, child, translation, rotation, layer_id, .. } => NodeView::Transform {
                id,
                name: v,
                hidden,
                child,
                translation,
                rotation,
                layer_id,
            },
            _ => n,
        }
}

/// A transform put on layer `v`.
pub open spec fn on_layer(v: i32) -> spec_fn(NodeView) -> NodeView {
    |n: NodeView|
        match n {
            NodeView::Transform { id, name, hidden, child, translation, rotation, .. } => NodeView::Transform {
                id,
                name,
                hidden,
                child,
                translation,
                rotation,
                layer_id: v,
            },
            _ => n,
        }
}

/// The first model below transform `trn_id`, depth first; `None` unless it is
/// a transform with a model below it.
pub open spec fn model_of_transform(g: SceneGraph, trn_id: i32) -> Option<usize> {
    if is_transform(g.nodes, trn_id) {
        find_model(g.nodes, child_of(g.nodes[trn_id]), g.nodes.len())
    } else {
        None
    }
}

/// The node map with transform `id` changed by `f`; unchanged unless `id` is a transform.
pub open spec fn update_transform(
    nodes: Map<i32, NodeView>,
    id: i32,
    f: spec_fn(NodeView) -> NodeView,
) -> Map<i32, NodeView> {
    if is_transform(nodes, id) {
        nodes.insert(id, f(nodes[id]))
    } else {
        nodes
    }
}

/// A scene: models, the node graph, world layers and materials.
#[derive(Debug)]
pub struct Scene {
    pub models: Vec<VoxelModel>,
    pub nodes: HashMap<NodeId, SceneNode>,
    pub root: NodeId,
    pub next_id: NodeId,
    pub layers: LayerTable,
    pub materials: MaterialTable,
}

impl Scene {
    pub open spec fn graph(&self) -> SceneGraph {
        SceneGraph {
            nodes: self.nodes@.map_values(|n: SceneNode| n@),
            root: self.root,
            next_id: self.next_id,
        }
    }

    /// The models as grids.
    pub open spec fn grids(&self) -> Seq<Grid> {
        self.models@.map_values(|m: VoxelModel| m.grid())
    }

    pub open spec fn wf(&self) -> bool {
        &&& forall|i: int| 0 <= i < self.models@.len() ==> (#[trigger] self.models@[i]).wf()
        &&& self.materials.wf()
    }

    /// A single model at the origin: root transform `object` (id 0) over a
    /// shape (id 1) holding model 0.
    pub fn from_single_model(model: VoxelModel) -> (s: Self)
        requires
            model.wf(),
        ensures
            s.wf(),
            s.models@ == seq![model],
            s.grids() == seq![model.grid()],
            s.graph() == single_model_graph(),
            crate::layer::is_standard_eight(s.layers.layers@),
            s.materials.slots() == crate::material::default_slots(),
            s.materials.legacy().len() == 0,
    {
        let mut nodes: HashMap<NodeId, SceneNode> = HashMap::new();
        let mut model_ids: Vec<ModelId> = Vec::new();
        model_ids.push(0);
        nodes.insert(1, SceneNode::Shape(ShapeNode { id: 1, model_ids }));
        let name = string_of(&['o', 'b', 'j', 'e', 'c', 't']);
        nodes.insert(
            0,
            SceneNode::Transform(
                TransformNode {
                    id: 0,
                    name,
                    hidden: false,
                    child: 1,
                    translation: IVec3::new(0, 0, 0),
                    rotation: MvRotation::identity(),
                    layer_id: -1i32,
                },
            ),
        );
        let mut models: Vec<VoxelModel> = Vec::new();
        models.push(model);
        let s = Scene {
            models,
            nodes,
            root: 0,
            next_id: 2,
            layers: LayerTable::standard_eight(),
            materials: MaterialTable::new(),
        };
        assert(s.models@ =~= seq![model]);
        assert(s.grids() =~= seq![model.grid()]);
        assert(s.graph().nodes =~= single_model_graph().nodes);
        s
    }

    /// A world holding one empty cubic model of edge `default_size` (1..=256).
    pub fn new_empty_world(default_size: u32) -> (r: Result<Self, CoreError>)
        ensures
            r is Ok <==> 1 <= default_size <= 256,
            r is Err ==> r == Err::<Scene, CoreError>(
                CoreError::InvalidSize(default_size, default_size, default_size),
            ),
            r matches Ok(s) ==> {
                &&& s.wf()
                &&& s.graph() == single_model_graph()
                &&& s.models@.len() == 1
                &&& s.models@[0].sx() == default_size
                &&& s.models@[0].sy() == default_size
                &&& s.models@[0].sz() == default_size
                &&& forall|x: int, y: int, z: int| #[trigger] s.models@[0].voxel(x, y, z) == 0
                &&& crate::layer::is_standard_eight(s.layers.layers@)
                &&& s.materials.slots() == crate::material::default_slots()
                &&& s.materials.legacy().len() == 0
            },
    {
        let model = VoxelModel::new(default_size, default_size, default_size)?;
        let s = Self::from_single_model(model);
        Ok(s)
    }

    /// Take the next node id.
    pub fn alloc_id(&mut self) -> (id: NodeId)
        requires
            old(self).next_id < i32::MAX,
        ensures
            id == old(self).next_id,
            final(self).next_id == old(self).next_id + 1,
            final(self).models == old(self).models,
            final(self).nodes == old(self).nodes,
            final(self).root == old(self).root,
            final(self).layers == old(self).layers,
            final(self).materials == old(self).materials,
    {
        let id = self.next_id;
        self.next_id = self.next_id + 1;
        id
    }

    /// Model `id`, if there is one.
    pub fn model(&self, id: ModelId) -> (m: Option<&VoxelModel>)
        ensures
            id < self.models@.len() ==> m == Some(&self.models@[id as int]),
            id >= self.models@.len() ==> m is None,
    {
        if id < self.models.len() {
            Some(&self.models[id])
        } else {
            None
        }
    }

    /// Model `id` for editing, if there is one.
    pub fn model_mut(&mut self, id: ModelId) -> (m: Option<&mut VoxelModel>)
        ensures
            id < old(self).models@.len() <==> m is Some,
            m is None ==> *final(self) == *old(self),
            m matches Some(mr) ==> *mr == old(self).models@[id as int] && final(self).models@
                == old(self).models@.update(id as int, *final(mr)) && final(self).nodes
                == old(self).nodes && final(self).root == old(self).root && final(self).next_id
                == old(self).next_id && final(self).layers == old(self).layers
                && final(self).materials == old(self).materials,
    {
        if id < self.models.len() {
            Some(&mut self.models[id])
        } else {
            None
        }
    }

    /// Set a transform's translation; false (and nothing changes) unless `trn_id` is a transform.
    pub fn set_translation(&mut self, trn_id: NodeId, t: IVec3) -> (ok: bool)
        ensures
            ok == is_transform(old(self).graph().nodes, trn_id),
            final(self).graph().nodes == update_transform(
                old(self).graph().nodes,
                trn_id,
                moved_to(t),
            ),
            final(self).root == old(self).root,
            final(self).next_id == old(self).next_id,
            final(self).models == old(self).models,
            final(self).layers == old(self).layers,
            final(self).materials == old(self).materials,
    {
        match self.nodes.remove(&trn_id) {
            Some(SceneNode::Transform(mut trn)) => {
                trn.translation = t;
                self.nodes.insert(trn_id, SceneNode::Transform(trn));
                assert(self.graph().nodes =~= update_transform(
                    old(self).graph().nodes,
                    trn_id,
                    moved_to(t),
                ));
                true
            },
            Some(other) => {
                self.nodes.insert(trn_id, other);
                assert(self.graph().nodes =~= old(self).graph().nodes);
                false
            },
            None => {
                assert(self.graph().nodes =~= old(self).graph().nodes);
                false
            },
        }
    }
}

impl Scene {
    /// Hide or show a transform; false (and nothing changes) unless `trn_id` is a transform.
    pub fn set_hidden(&mut self, trn_id: NodeId, v: bool) -> (ok: bool)
        ensures
            ok == is_transform(old(self).graph().nodes, trn_id),
            final(self).graph().nodes == update_transform(
                old(self).graph().nodes,
                trn_id,
                hidden_as(v),
            ),
            final(self).root == old(self).root,
            final(self).next_id == old(self).next_id,
            final(self).models == old(self).models,
            final(self).layers == old(self).layers,
            final(self).materials == old(self).materials,
    {
        match self.nodes.remove(&trn_id) {
            Some(SceneNode::Transform(mut trn)) => {
                trn.hidden = v;
                self.nodes.insert(trn_id, SceneNode::Transform(trn));
                assert(self.graph().nodes =~= update_transform(
                    old(self).graph().nodes,
                    trn_id,
                    hidden_as(v),
                ));
                true
            },
            Some(other) => {
                self.nodes.insert(trn_id, other);
                assert(self.graph().nodes =~= old(self).graph().nodes);
                false
            },
            None => {
                assert(self.graph().nodes =~= old(self).graph().nodes);
                false
            },
        }
    }

    /// Rename a transform; false (and nothing changes) unless `trn_id` is a transform.
    pub fn rename(&mut self, trn_id: NodeId, v: String) -> (ok: bool)
        ensures
            ok == is_transform(old(self).graph().nodes, trn_id),
            final(self).graph().nodes == update_transform(
                old(self).graph().nodes,
                trn_id,
                renamed_to(v@),
            ),
            final(self).root == old(self).root,
            final(self).next_id == old(self).next_id,
            final(self).models == old(self).models,
            final(self).layers == old(self).layers,
            final(self).materials == old(self).materials,
    {
        match self.nodes.remove(&trn_id) {
            Some(SceneNode::Transform(mut trn)) => {
                trn.name = v;
                self.nodes.insert(trn_id, SceneNode::Transform(trn));
                assert(self.graph().nodes =~= update_transform(
                    old(self).graph().nodes,
                    trn_id,
                    renamed_to(v@),
                ));
                true
            },
            Some(other) => {
                self.nodes.insert(trn_id, other);
                assert(self.graph().nodes =~= old(self).graph().nodes);
                false
            },
            None => {
                assert(self.graph().nodes =~= old(self).graph().nodes);
                false
            },
        }
    }

    /// Move a transform to another layer; false (and nothing changes) unless `trn_id` is a transform.
    pub fn set_object_layer(&mut self, trn_id: NodeId, v: i32) -> (ok: bool)
        ensures
            ok == is_transform(old(self).graph().nodes, trn_id),
            final(self).graph().nodes == update_transform(
                old(self).graph().nodes,
                trn_id,
                on_layer(v),
            ),
            final(self).root == old(self).root,
            final(self).next_id == old(self).next_id,
            final(self).models == old(self).models,
            final(self).layers == old(self).layers,
            final(self).materials == old(self).materials,
    {
        match self.nodes.remove(&trn_id) {
            Some(SceneNode::Transform(mut trn)) => {
                trn.layer_id = v;
                self.nodes.insert(trn_id, SceneNode::Transform(trn));
                assert(self.graph().nodes =~= update_transform(
                    old(self).graph().nodes,
                    trn_id,
                    on_layer(v),
                ));
                true
            },
            Some(other) => {
                self.nodes.insert(trn_id, other);
                assert(self.graph().nodes =~= old(self).graph().nodes);
                false
            },
            None => {
                assert(self.graph().nodes =~= old(self).graph().nodes);
                false
            },
        }
    }
}

/// The graph of a single-model scene.
pub open spec fn single_model_graph() -> SceneGraph {
    SceneGraph {
        nodes: Map::empty().insert(1, NodeView::Shape { id: 1, model_ids: seq![0usize] }).insert(
            0,
            NodeView::Transform {
                id: 0,
                name: seq!['o', 'b', 'j', 'e', 'c', 't'],
                hidden: false,
                child: 1,
                translation: IVec3 { x: 0, y: 0, z: 0 },
                rotation: 0,
                layer_id: -1i32,
            },
        ),
        root: 0,
        next_id: 2,
    }
}

/// The translation of a child placed at `t` under a parent at `pt` rotated by `pr`.
pub open spec fn compose_t(pt: IVec3, pr: u8, t: IVec3) -> IVec3 {
    vadd(pt, rotated(pr, t))
}

/// The drawable instances below node `id`, depth first, given the placement
/// inherited from above; at most `fuel` nodes deep (a graph without cycles
/// is never deeper than it has nodes).
pub open spec fn walk(
    nodes: Map<i32, NodeView>,
    id: i32,
    t: IVec3,
    r: u8,
    hidden: bool,
    owner: i32,
    owner_name: Seq<char>,
    fuel: nat,
) -> Seq<InstanceView>
    decreases fuel, 0nat,
{
    if fuel == 0 || !nodes.contains_key(id) {
        Seq::empty()
    } else {
        match nodes[id] {
            NodeView::Transform { id: tid, name, hidden: h, child, translation, rotation, .. } => walk(
                nodes,
                child,
                compose_t(t, r, translation),
                compose_rot(r, rotation),
                hidden || h,
                tid,
                name,
                (fuel - 1) as nat,
            ),
            NodeView::Group { children, .. } => walk_list(
                nodes,
                children,
                t,
                r,
                hidden,
                owner,
                owner_name,
                (fuel - 1) as nat,
            ),
            NodeView::Shape { model_ids, .. } => Seq::new(
                model_ids.len(),
                |k: int|
                    InstanceView {
                        transform_id: owner,
                        model_id: model_ids[k],
                        name: owner_name,
                        translation: t,
                        rotation: r,
                        hidden,
                    },
            ),
        }
    }
}

/// The instances below each of `children`, in order.
pub open spec fn walk_list(
    nodes: Map<i32, NodeView>,
    children: Seq<i32>,
    t: IVec3,
    r: u8,
    hidden: bool,
    owner: i32,
    owner_name: Seq<char>,
    fuel: nat,
) -> Seq<InstanceView>
    decreases fuel, children.len() + 1,
{
    if children.len() == 0 {
        Seq::empty()
    } else {
        walk_list(nodes, children.drop_last(), t, r, hidden, owner, owner_name, fuel) + walk(
            nodes,
            children.last(),
            t,
            r,
            hidden,
            owner,
            owner_name,
            fuel,
        )
    }
}

/// All drawable instances of a scene graph, from its root.
pub open spec fn graph_instances(g: SceneGraph) -> Seq<InstanceView> {
    walk(g.nodes, g.root, IVec3 { x: 0, y: 0, z: 0 }, 0, false, 0, Seq::empty(), g.nodes.len())
}

/// `n2` holds every node of `n1` unchanged, and no node of `n1` refers to a
/// node that only `n2` holds.
pub open spec fn extends_unreached(n1: Map<i32, NodeView>, n2: Map<i32, NodeView>) -> bool {
    &&& forall|k: i32| #[trigger] n1.contains_key(k) ==> n2.contains_key(k) && n2[k] == n1[k]
    &&& forall|k: i32, x: i32|
        n1.contains_key(k) && #[trigger] refers(n1[k], x) ==> n1.contains_key(x) || !n2.contains_key(x)
}

proof fn lemma_walk_extend(
    n1: Map<i32, NodeView>,
    n2: Map<i32, NodeView>,
    id: i32,
    t: IVec3,
    r: u8,
    hidden: bool,
    owner: i32,
    owner_name: Seq<char>,
    fuel: nat,
)
    requires
        extends_unreached(n1, n2),
        n1.contains_key(id) || !n2.contains_key(id),
    ensures
        walk(n2, id, t, r, hidden, owner, owner_name, fuel) == walk(n1, id, t, r, hidden, owner, owner_name, fuel),
    decreases fuel, 0nat,
{
    if fuel > 0 && n1.contains_key(id) {
        match n1[id] {
            NodeView::Transform { id: tid, name, hidden: h, child, translation, rotation, .. } => {
                assert(refers(n1[id], child));
                lemma_walk_extend(
                    n1,
                    n2,
                    child,
                    compose_t(t, r, translation),
                    compose_rot(r, rotation),
                    hidden || h,
                    tid,
                    name,
                    (fuel - 1) as nat,
                );
            },
            NodeView::Group { children, .. } => {
                assert forall|i: int| 0 <= i < children.len() implies n1.contains_key(children[i])
                    || !n2.contains_key(children[i]) by {
                    assert(refers(n1[id], children[i]));
                }
                lemma_walk_list_extend(n1, n2, children, t, r, hidden, owner, owner_name, (fuel - 1) as nat);
            },
            NodeView::Shape { .. } => {},
        }
    }
}

proof fn lemma_walk_list_extend(
    n1: Map<i32, NodeView>,
    n2: Map<i32, NodeView>,
    children: Seq<i32>,
    t: IVec3,
    r: u8,
    hidden: bool,
    owner: i32,
    owner_name: Seq<char>,
    fuel: nat,
)
    requires
        extends_unreached(n1, n2),
        forall|i: int| 0 <= i < children.len() ==> n1.contains_key(#[trigger] children[i]) || !n2.contains_key(children[i]),
    ensures
        walk_list(n2, children, t, r, hidden, owner, owner_name, fuel) == walk_list(n1, children, t, r, hidden, owner, owner_name, fuel),
    decreases fuel, children.len() + 1,
{
    if children.len() > 0 {
        let p = children.drop_last();
        assert forall|i: int| 0 <= i < p.len() implies n1.contains_key(#[trigger] p[i]) || !n2.contains_key(p[i]) by {
            assert(p[i] == children[i]);
        }
        lemma_walk_list_extend(n1, n2, p, t, r, hidden, owner, owner_name, fuel);
        assert(children.last() == children[children.len() - 1]);
        lemma_walk_extend(n1, n2, children.last(), t, r, hidden, owner, owner_name, fuel);
    }
}

/// Byte 4 packs the same identity matrix as byte 0, and composing the
/// identity with itself gives byte 4.
proof fn lemma_identity_bytes()
    ensures
        compose_rot(0, 0) == 4,
        forall|v: IVec3| #[trigger] rotated(4, v) == rotated(0, v),
        forall|b: u8| #[trigger] compose_rot(4, b) == compose_rot(0, b),
{
    assert(rot_col(0, 0) == 0 && rot_col(0, 1) == 1 && rot_col(0, 2) == 2);
    assert(rot_col(4, 0) == 0 && rot_col(4, 1) == 1 && rot_col(4, 2) == 2);
    assert(!rot_neg(0, 0) && !rot_neg(0, 1) && !rot_neg(0, 2));
    assert(!rot_neg(4, 0) && !rot_neg(4, 1) && !rot_neg(4, 2));
    let i = rot_matrix(0);
    assert forall|a: int| 0 <= a < 3 implies #[trigger] rot_matrix(4)[a] =~= i[a] by {
        assert forall|b: int| 0 <= b < 3 implies rot_matrix(4)[a][b] == i[a][b] by {
            assert(rot_entry(4, a, b) == rot_entry(0, a, b));
        }
    }
    assert(rot_matrix(4) =~= i);
    let ii = mat_mul(i, i);
    assert forall|a: int| 0 <= a < 3 implies #[trigger] ii[a] =~= i[a] by {
        assert(i[a][0] == rot_entry(0, a, 0));
        assert(i[a][1] == rot_entry(0, a, 1));
        assert(i[a][2] == rot_entry(0, a, 2));
        assert(i[0][0] == 1 && i[0][1] == 0 && i[0][2] == 0);
        assert(i[1][0] == 0 && i[1][1] == 1 && i[1][2] == 0);
        assert(i[2][0] == 0 && i[2][1] == 0 && i[2][2] == 1);
    }
    assert(ii =~= i);
    assert(i[0] =~= seq![1int, 0, 0]);
    assert(i[1] =~= seq![0int, 1, 0]);
    assert(i[2] =~= seq![0int, 0, 1]);
    assert(first_nonzero(i[0]) == (0int, false));
    assert(first_nonzero(i[1]) == (1int, false));
    assert(first_nonzero(i[2]) == (2int, false));
    assert(matrix_byte(i) == 4);
    assert forall|v: IVec3| #[trigger] rotated(4, v) == rotated(0, v) by {
        assert(rot_axis(4, 0, v) == rot_axis(0, 0, v));
        assert(rot_axis(4, 1, v) == rot_axis(0, 1, v));
        assert(rot_axis(4, 2, v) == rot_axis(0, 2, v));
    }
}

/// Putting the root under a world group a second time changes nothing.
pub proof fn lemma_world_root_idempotent(g: SceneGraph)
    ensures
        with_world_root(with_world_root(g)) == with_world_root(g),
{
    let g1 = with_world_root(g);
    if g1 != g {
        let gid = g.next_id;
        let nr = (g.next_id + 1) as i32;
        assert(((gid + 1) as i32) != gid) by (bit_vector);
        assert(g1.nodes[nr] is Transform);
        assert(child_of(g1.nodes[nr]) == gid);
        assert(g1.nodes.contains_key(gid) && g1.nodes[gid] is Group);
    }
}

/// Putting the root under a world group keeps every drawable instance, when
/// the two ids it takes are new and no node refers to them.
pub proof fn lemma_world_root_keeps_instances(g: SceneGraph)
    requires
        g.nodes.dom().finite(),
        !g.nodes.contains_key(g.next_id),
        !g.nodes.contains_key((g.next_id + 1) as i32),
        forall|k: i32|
            #[trigger] g.nodes.contains_key(k) ==> !refers(g.nodes[k], g.next_id) && !refers(
                g.nodes[k],
                (g.next_id + 1) as i32,
            ),
    ensures
        graph_instances(with_world_root(g)) == graph_instances(g),
{
    let g1 = with_world_root(g);
    if g1 != g {
        let n1 = g.nodes;
        let n2 = g1.nodes;
        let gid = g.next_id;
        let nr = (g.next_id + 1) as i32;
        let root = g.root;
        let l = n1.len();
        assert(((gid + 1) as i32) != gid) by (bit_vector);
        assert(n1.insert(gid, n2[gid]).len() == l + 1);
        assert(n2.dom() =~= n1.insert(gid, n2[gid]).dom().insert(nr));
        assert(n2.len() == l + 2);
        assert(n1.dom().contains(root));
        assert(l >= 1) by {
            vstd::set_lib::lemma_set_empty_equivalency_len(n1.dom());
        }
        assert(extends_unreached(n1, n2)) by {
            assert forall|k: i32, x: i32|
                n1.contains_key(k) && #[trigger] refers(n1[k], x) implies n1.contains_key(x)
                    || !n2.contains_key(x) by {
                if n2.contains_key(x) && !n1.contains_key(x) {
                    assert(x == gid || x == nr);
                }
            }
        }
        lemma_identity_bytes();
        let z = IVec3 { x: 0, y: 0, z: 0 };
        assert(compose_t(z, 0, z) == z);
        match n1[root] {
            NodeView::Transform { id: tid, name, hidden: h, child, translation, rotation, .. } => {
                assert(refers(n1[root], child));
                assert(n1.contains_key(child) || !n2.contains_key(child));
                assert(compose_t(z, 4, translation) == compose_t(z, 0, translation));
                lemma_walk_extend(
                    n1,
                    n2,
                    child,
                    compose_t(z, 0, translation),
                    compose_rot(0, rotation),
                    false || h,
                    tid,
                    name,
                    (l - 1) as nat,
                );
                let ws = walk_list(n2, seq![root], z, 4, false, nr, Seq::empty(), l);
                let w = walk(n2, root, z, 4, false, nr, Seq::empty(), l);
                assert(seq![root].drop_last() =~= Seq::<i32>::empty());
                assert(seq![root].last() == root);
                assert(walk_list(n2, Seq::<i32>::empty(), z, 4, false, nr, Seq::empty(), l) == Seq::<InstanceView>::empty());
                assert(Seq::<InstanceView>::empty() + w =~= w);
                assert(ws == w);
                assert(n2[root] == n1[root]);
                assert(compose_rot(4, rotation) == compose_rot(0, rotation));
                assert(w == walk(
                    n2,
                    child,
                    compose_t(z, 4, translation),
                    compose_rot(4, rotation),
                    false || h,
                    tid,
                    name,
                    (l - 1) as nat,
                ));
                assert(graph_instances(g) == walk(
                    n1,
                    child,
                    compose_t(z, 0, translation),
                    compose_rot(0, rotation),
                    false || h,
                    tid,
                    name,
                    (l - 1) as nat,
                ));
                assert(n2[gid] == NodeView::Group { id: gid, name: seq!['r', 'o', 'o', 't'], children: seq![root] });
                assert(walk(n2, gid, z, 4, false, nr, Seq::empty(), (l + 1) as nat) == ws);
                assert(graph_instances(g1) == walk(n2, nr, z, 0, false, 0, Seq::empty(), (l + 2) as nat));
                assert(walk(n2, nr, z, 0, false, 0, Seq::empty(), (l + 2) as nat) == walk(
                    n2,
                    gid,
                    compose_t(z, 0, z),
                    compose_rot(0, 0),
                    false || false,
                    nr,
                    Seq::<char>::empty(),
                    (l + 1) as nat,
                ));
            },
            _ => {},
        }
    }
}

/// A transform node whose own hidden flag is set.
pub open spec fn hidden_transform(n: NodeView) -> bool {
    match n {
        NodeView::Transform { hidden, .. } => hidden,
        _ => false,
    }
}

/// Everything below a hidden placement is hidden: when the walk starts below
/// a hidden transform, or starts at a transform that is itself hidden, every
/// instance it yields is hidden.
pub proof fn lemma_walk_hidden(
    nodes: Map<i32, NodeView>,
    id: i32,
    t: IVec3,
    r: u8,
    hidden: bool,
    owner: i32,
    owner_name: Seq<char>,
    fuel: nat,
)
    requires
        hidden || (nodes.contains_key(id) && hidden_transform(nodes[id])),
    ensures
        forall|k: int|
            0 <= k < walk(nodes, id, t, r, hidden, owner, owner_name, fuel).len() ==> (#[trigger] walk(
                nodes,
                id,
                t,
                r,
                hidden,
                owner,
                owner_name,
                fuel,
            )[k]).hidden,
    decreases fuel, 0nat,
{
    if fuel > 0 && nodes.contains_key(id) {
        match nodes[id] {
            NodeView::Transform { id: tid, name, hidden: h, child, translation, rotation, .. } => {
                assert(hidden || h);
                assert((hidden || h) == true);
                lemma_walk_hidden(
                    nodes,
                    child,
                    compose_t(t, r, translation),
                    compose_rot(r, rotation),
                    true,
                    tid,
                    name,
                    (fuel - 1) as nat,
                );
                assert(walk(nodes, id, t, r, hidden, owner, owner_name, fuel) == walk(
                    nodes,
                    child,
                    compose_t(t, r, translation),
                    compose_rot(r, rotation),
                    true,
                    tid,
                    name,
                    (fuel - 1) as nat,
                ));
            },
            NodeView::Group { children, .. } => {
                assert(hidden);
                lemma_walk_list_hidden(nodes, children, t, r, owner, owner_name, (fuel - 1) as nat);
                assert(walk(nodes, id, t, r, hidden, owner, owner_name, fuel) == walk_list(
                    nodes,
                    children,
                    t,
                    r,
                    true,
                    owner,
                    owner_name,
                    (fuel - 1) as nat,
                ));
            },
            NodeView::Shape { .. } => {
                assert(hidden);
            },
        }
    }
}

proof fn lemma_walk_list_hidden(
    nodes: Map<i32, NodeView>,
    children: Seq<i32>,
    t: IVec3,
    r: u8,
    owner: i32,
    owner_name: Seq<char>,
    fuel: nat,
)
    ensures
        forall|k: int|
            0 <= k < walk_list(nodes, children, t, r, true, owner, owner_name, fuel).len()
                ==> (#[trigger] walk_list(nodes, children, t, r, true, owner, owner_name, fuel)[k]).hidden,
    decreases fuel, children.len() + 1,
{
    if children.len() > 0 {
        lemma_walk_list_hidden(nodes, children.drop_last(), t, r, owner, owner_name, fuel);
        lemma_walk_hidden(nodes, children.last(), t, r, true, owner, owner_name, fuel);
        let a = walk_list(nodes, children.drop_last(), t, r, true, owner, owner_name, fuel);
        let b = walk(nodes, children.last(), t, r, true, owner, owner_name, fuel);
        assert forall|k: int| 0 <= k < (a + b).len() implies (#[trigger] (a + b)[k]).hidden by {
            if k < a.len() {
                assert((a + b)[k] == a[k]);
            } else {
                assert((a + b)[k] == b[k - a.len()]);
            }
        }
    }
}

/// With nothing hidden above and no transform of the graph hidden, no
/// instance is hidden.
pub proof fn lemma_walk_shown(
    nodes: Map<i32, NodeView>,
    id: i32,
    t: IVec3,
    r: u8,
    owner: i32,
    owner_name: Seq<char>,
    fuel: nat,
)
    requires
        forall|k: i32| #[trigger] nodes.contains_key(k) ==> !hidden_transform(nodes[k]),
    ensures
        forall|k: int|
            0 <= k < walk(nodes, id, t, r, false, owner, owner_name, fuel).len() ==> !(#[trigger] walk(
                nodes,
                id,
                t,
                r,
                false,
                owner,
                owner_name,
                fuel,
            )[k]).hidden,
    decreases fuel, 0nat,
{
    if fuel > 0 && nodes.contains_key(id) {
        match nodes[id] {
            NodeView::Transform { id: tid, name, hidden: h, child, translation, rotation, .. } => {
                assert(!hidden_transform(nodes[id]));
                assert((false || h) == false);
                lemma_walk_shown(
                    nodes,
                    child,
                    compose_t(t, r, translation),
                    compose_rot(r, rotation),
                    tid,
                    name,
                    (fuel - 1) as nat,
                );
                assert(walk(nodes, id, t, r, false, owner, owner_name, fuel) == walk(
                    nodes,
                    child,
                    compose_t(t, r, translation),
                    compose_rot(r, rotation),
                    false,
                    tid,
                    name,
                    (fuel - 1) as nat,
                ));
            },
            NodeView::Group { children, .. } => {
                lemma_walk_list_shown(nodes, children, t, r, owner, owner_name, (fuel - 1) as nat);
                assert(walk(nodes, id, t, r, false, owner, owner_name, fuel) == walk_list(
                    nodes,
                    children,
                    t,
                    r,
                    false,
                    owner,
                    owner_name,
                    (fuel - 1) as nat,
                ));
            },
            NodeView::Shape { .. } => {},
        }
    }
}

proof fn lemma_walk_list_shown(
    nodes: Map<i32, NodeView>,
    children: Seq<i32>,
    t: IVec3,
    r: u8,
    owner: i32,
    owner_name: Seq<char>,
    fuel: nat,
)
    requires
        forall|k: i32| #[trigger] nodes.contains_key(k) ==> !hidden_transform(nodes[k]),
    ensures
        forall|k: int|
            0 <= k < walk_list(nodes, children, t, r, false, owner, owner_name, fuel).len()
                ==> !(#[trigger] walk_list(nodes, children, t, r, false, owner, owner_name, fuel)[k]).hidden,
    decreases fuel, children.len() + 1,
{
    if children.len() > 0 {
        lemma_walk_list_shown(nodes, children.drop_last(), t, r, owner, owner_name, fuel);
        lemma_walk_shown(nodes, children.last(), t, r, owner, owner_name, fuel);
        let a = walk_list(nodes, children.drop_last(), t, r, false, owner, owner_name, fuel);
        let b = walk(nodes, children.last(), t, r, false, owner, owner_name, fuel);
        assert forall|k: int| 0 <= k < (a + b).len() implies !(#[trigger] (a + b)[k]).hidden by {
            if k < a.len() {
                assert((a + b)[k] == a[k]);
            } else {
                assert((a + b)[k] == b[k - a.len()]);
            }
        }
    }
}

/// A scene whose root transform is hidden draws nothing shown: every
/// instance is hidden. A scene with no hidden transform has no hidden
/// instance.
pub proof fn lemma_graph_hidden(g: SceneGraph)
    ensures
        g.nodes.contains_key(g.root) && hidden_transform(g.nodes[g.root]) ==> forall|k: int|
            0 <= k < graph_instances(g).len() ==> (#[trigger] graph_instances(g)[k]).hidden,
        (forall|k: i32| #[trigger] g.nodes.contains_key(k) ==> !hidden_transform(g.nodes[k])) ==> forall|
            k: int,
        | 0 <= k < graph_instances(g).len() ==> !(#[trigger] graph_instances(g)[k]).hidden,
{
    let z = IVec3 { x: 0, y: 0, z: 0 };
    if g.nodes.contains_key(g.root) && hidden_transform(g.nodes[g.root]) {
        lemma_walk_hidden(g.nodes, g.root, z, 0, false, 0, Seq::empty(), g.nodes.len());
    }
    if forall|k: i32| #[trigger] g.nodes.contains_key(k) ==> !hidden_transform(g.nodes[k]) {
        lemma_walk_shown(g.nodes, g.root, z, 0, 0, Seq::empty(), g.nodes.len());
    }
}

/// Each listed object is an instance that is not hidden, and lists it as
/// shown.
pub proof fn lemma_visible_objects_shown(s: Seq<InstanceView>)
    ensures
        forall|k: int|
            0 <= k < visible_objects(s).len() ==> {
                let o = #[trigger] visible_objects(s)[k];
                &&& !o.3
                &&& exists|j: int|
                    0 <= j < s.len() && !s[j].hidden && #[trigger] s[j].transform_id == o.0
                        && s[j].model_id == o.4 && s[j].translation == o.2
            },
    decreases s.len(),
{
    if s.len() > 0 {
        let p = s.drop_last();
        lemma_visible_objects_shown(p);
        let a = visible_objects(p);
        let v = visible_objects(s);
        assert forall|k: int| 0 <= k < v.len() implies {
            let o = #[trigger] v[k];
            &&& !o.3
            &&& exists|j: int|
                0 <= j < s.len() && !s[j].hidden && #[trigger] s[j].transform_id == o.0
                    && s[j].model_id == o.4 && s[j].translation == o.2
        } by {
            if k < a.len() {
                assert(v[k] == a[k]);
                let o = a[k];
                let j = choose|j: int|
                    0 <= j < p.len() && !p[j].hidden && #[trigger] p[j].transform_id == o.0
                        && p[j].model_id == o.4 && p[j].translation == o.2;
                assert(s[j] == p[j]);
            } else {
                assert(s[s.len() - 1] == s.last());
            }
        }
    }
}

/// Every instance that is not hidden is listed.
pub proof fn lemma_visible_objects_all(s: Seq<InstanceView>)
    ensures
        forall|j: int|
            0 <= j < s.len() && !s[j].hidden ==> visible_objects(s).contains(
                (s[j].transform_id, object_name(s[j]), s[j].translation, false, s[j].model_id),
            ),
    decreases s.len(),
{
    if s.len() > 0 {
        let p = s.drop_last();
        lemma_visible_objects_all(p);
        let a = visible_objects(p);
        let v = visible_objects(s);
        assert forall|j: int| 0 <= j < s.len() && !s[j].hidden implies v.contains(
            (s[j].transform_id, object_name(s[j]), s[j].translation, false, s[j].model_id),
        ) by {
            let x = (s[j].transform_id, object_name(s[j]), s[j].translation, false, s[j].model_id);
            if j < p.len() {
                assert(s[j] == p[j]);
                let k = choose|k: int| 0 <= k < a.len() && a[k] == x;
                assert(v[k] == a[k]);
            } else {
                assert(s[j] == s.last());
                assert(v[a.len() as int] == x);
            }
        }
    }
}

/// When every instance is hidden, nothing is listed.
pub proof fn lemma_visible_objects_none(s: Seq<InstanceView>)
    requires
        forall|j: int| 0 <= j < s.len() ==> #[trigger] s[j].hidden,
    ensures
        visible_objects(s).len() == 0,
    decreases s.len(),
{
    if s.len() > 0 {
        let p = s.drop_last();
        assert forall|j: int| 0 <= j < p.len() implies #[trigger] p[j].hidden by {
            assert(p[j] == s[j]);
        }
        lemma_visible_objects_none(p);
        assert(s[s.len() - 1].hidden);
    }
}

/// The name listed for an instance: its transform's, or `object_<id>` when empty.
pub open spec fn object_name(i: InstanceView) -> Seq<char> {
    if i.name.len() == 0 {
        seq!['o', 'b', 'j', 'e', 'c', 't', '_'] + decimal(i.transform_id as int)
    } else {
        i.name
    }
}

/// The visible instances as `(transform id, name, translation, hidden, model id)`.
pub open spec fn visible_objects(s: Seq<InstanceView>) -> Seq<(i32, Seq<char>, IVec3, bool, usize)>
    decreases s.len(),
{
    if s.len() == 0 {
        Seq::empty()
    } else {
        let i = s.last();
        visible_objects(s.drop_last()) + if !i.hidden {
            seq![(i.transform_id, object_name(i), i.translation, i.hidden, i.model_id)]
        } else {
            Seq::empty()
        }
    }
}

/// The first model that a depth-first search below node `id` reaches.
pub open spec fn find_model(nodes: Map<i32, NodeView>, id: i32, fuel: nat) -> Option<usize>
    decreases fuel, 0nat,
{
    if fuel == 0 || !nodes.contains_key(id) {
        None
    } else {
        match nodes[id] {
            NodeView::Shape { model_ids, .. } => if model_ids.len() > 0 {
                Some(model_ids[0])
            } else {
                None
            },
            NodeView::Group { children, .. } => find_in(nodes, children, (fuel - 1) as nat),
            NodeView::Transform { child, .. } => find_model(nodes, child, (fuel - 1) as nat),
        }
    }
}

/// The first model found below the first of `children` that has one.
pub open spec fn find_in(nodes: Map<i32, NodeView>, children: Seq<i32>, fuel: nat) -> Option<usize>
    decreases fuel, children.len() + 1,
{
    if children.len() == 0 {
        None
    } else {
        match find_model(nodes, children[0], fuel) {
            Some(m) => Some(m),
            None => find_in(nodes, children.drop_first(), fuel),
        }
    }
}

/// The ids other than `id`.
pub open spec fn other_than(id: i32) -> spec_fn(i32) -> bool {
    |x: i32| x != id
}

/// The graph after detaching transform `id`: the node is removed, and so is
/// every mention of it among the children of the root group.
pub open spec fn graph_remove_object(g: SceneGraph, id: i32) -> SceneGraph {
    let n1 = g.nodes.remove(id);
    let n2 = if is_transform(n1, g.root) && is_group(n1, child_of(n1[g.root])) {
        let c = child_of(n1[g.root]);
        match n1[c] {
            NodeView::Group { id: gid, name, children } => n1.insert(
                c,
                NodeView::Group { id: gid, name, children: children.filter(other_than(id)) },
            ),
            _ => n1,
        }
    } else {
        n1
    };
    SceneGraph { nodes: n2, root: g.root, next_id: g.next_id }
}

pub fn object_label(id: i32) -> (s: String)
    ensures
        s@ == seq!['o', 'b', 'j', 'e', 'c', 't', '_'] + decimal(id as int),
{
    let mut cs: Vec<char> = Vec::new();
    cs.push('o');
    cs.push('b');
    cs.push('j');
    cs.push('e');
    cs.push('c');
    cs.push('t');
    cs.push('_');
    let digits = decimal_string(id as i64);
    let ds = chars_of(digits.as_str());
    let mut i: usize = 0;
    while i < ds.len()
        invariant
            i <= ds.len(),
            ds@ == decimal(id as int),
            cs@ == seq!['o', 'b', 'j', 'e', 'c', 't', '_'] + ds@.subrange(0, i as int),
        decreases ds.len() - i,
    {
        cs.push(ds[i]);
        assert(ds@.subrange(0, i + 1) == ds@.subrange(0, i as int).push(ds@[i as int]));
        i = i + 1;
    }
    assert(ds@.subrange(0, ds.len() as int) == ds@);
    string_of(cs.as_slice())
}

impl Scene {
    /// Make sure the root is a transform over a group, so objects can be added:
    /// a root transform over anything else is moved under a new group `root`,
    /// below a new root transform.
    pub fn ensure_world_root(&mut self)
        requires
            is_transform(old(self).graph().nodes, old(self).root) && !is_group(
                old(self).graph().nodes,
                child_of(old(self).graph().nodes[old(self).root]),
            ) ==> old(self).next_id < i32::MAX - 1,
        ensures
            final(self).graph() == with_world_root(old(self).graph()),
            final(self).models == old(self).models,
            final(self).layers == old(self).layers,
            final(self).materials == old(self).materials,
    {
        let ghost g = self.graph();
        let child = match self.nodes.get(&self.root) {
            Some(SceneNode::Transform(t)) => t.child,
            _ => {
                return ;
            },
        };
        match self.nodes.get(&child) {
            Some(SceneNode::Group(_)) => {
                return ;
            },
            _ => {},
        }
        let group_id = self.alloc_id();
        let old_root = self.root;
        let new_root = self.alloc_id();
        let mut children: Vec<NodeId> = Vec::new();
        children.push(old_root);
        let name = string_of(&['r', 'o', 'o', 't']);
        self.nodes.insert(
            group_id,
            SceneNode::Group(GroupNode { id: group_id, name, children }),
        );
        self.nodes.insert(
            new_root,
            SceneNode::Transform(
                TransformNode {
                    id: new_root,
                    name: String::new(),
                    hidden: false,
                    child: group_id,
                    translation: IVec3::new(0, 0, 0),
                    rotation: MvRotation::identity(),
                    layer_id: -1,
                },
            ),
        );
        self.root = new_root;
        assert(self.graph().nodes =~= with_world_root(g).nodes);
    }

    /// Add an object: `model` as a new model, under a new shape and a new
    /// transform named `name` at `translation` (layer 0), attached to the
    /// root group. Returns the transform's id.
    pub fn add_object(&mut self, name: &str, model: VoxelModel, translation: IVec3) -> (id: NodeId)
        requires
            old(self).next_id < i32::MAX - 3,
            old(self).wf(),
            model.wf(),
        ensures
            final(self).wf(),
            final(self).graph() == graph_add_object(
                old(self).graph(),
                name@,
                old(self).models@.len() as usize,
                translation,
            ),
            id == graph_add_object(
                old(self).graph(),
                name@,
                old(self).models@.len() as usize,
                translation,
            ).next_id - 1,
            final(self).models@ == old(self).models@.push(model),
            final(self).layers == old(self).layers,
            final(self).materials == old(self).materials,
    {
        let ghost g0 = self.graph();
        self.ensure_world_root();
        let ghost g1 = self.graph();
        let model_id = self.models.len();
        self.models.push(model);
        let shape_id = self.alloc_id();
        let trn_id = self.alloc_id();
        let mut model_ids: Vec<ModelId> = Vec::new();
        model_ids.push(model_id);
        self.nodes.insert(shape_id, SceneNode::Shape(ShapeNode { id: shape_id, model_ids }));
        let label = string_of(chars_of(name).as_slice());
        self.nodes.insert(
            trn_id,
            SceneNode::Transform(
                TransformNode {
                    id: trn_id,
                    name: label,
                    hidden: false,
                    child: shape_id,
                    translation,
                    rotation: MvRotation::identity(),
                    layer_id: 0,
                },
            ),
        );
        let ghost n2 = self.graph().nodes;
        assert(n2 =~= g1.nodes.insert(
            shape_id,
            NodeView::Shape { id: shape_id, model_ids: seq![model_id] },
        ).insert(
            trn_id,
            NodeView::Transform {
                id: trn_id,
                name: name@,
                hidden: false,
                child: shape_id,
                translation,
                rotation: 0,
                layer_id: 0,
            },
        ));
        let child_opt: Option<NodeId> = match self.nodes.get(&self.root) {
            Some(SceneNode::Transform(t)) => Some(t.child),
            _ => None,
        };
        if let Some(c) = child_opt {
            match self.nodes.remove(&c) {
                Some(SceneNode::Group(mut grp)) => {
                    grp.children.push(trn_id);
                    self.nodes.insert(c, SceneNode::Group(grp));
                    assert(self.graph().nodes =~= graph_add_object(
                        g0,
                        name@,
                        model_id,
                        translation,
                    ).nodes);
                },
                Some(other) => {
                    self.nodes.insert(c, other);
                    assert(self.graph().nodes =~= n2);
                },
                None => {
                    assert(self.graph().nodes =~= n2);
                },
            }
        }
        proof {
            assert forall|i: int| 0 <= i < self.models@.len() implies (
            #[trigger] self.models@[i]).wf() by {
                if i < old(self).models@.len() {
                    assert(self.models@[i] == old(self).models@[i]);
                }
            }
        }
        trn_id
    }

    fn walk_named(
        &self,
        node_id: NodeId,
        parent_t: IVec3,
        parent_r: MvRotation,
        parent_hidden: bool,
        owner_trn: NodeId,
        owner_name: &String,
        fuel: usize,
        out: &mut Vec<WorldInstance>,
    )
        ensures
            instance_views(final(out)@) == instance_views(old(out)@) + walk(
                self.graph().nodes,
                node_id,
                parent_t,
                parent_r.0,
                parent_hidden,
                owner_trn,
                owner_name@,
                fuel as nat,
            ),
        decreases fuel,
    {
        let ghost nodes = self.graph().nodes;
        let ghost start = instance_views(out@);
        if fuel == 0 {
            assert(instance_views(out@) =~= start + Seq::<InstanceView>::empty());
            return ;
        }
        match self.nodes.get(&node_id) {
            None => {
                assert(instance_views(out@) =~= start + Seq::<InstanceView>::empty());
            },
            Some(node) => {
                match node {
                    SceneNode::Transform(trn) => {
                        let hidden = parent_hidden || trn.hidden;
                        let lt = parent_r.rotate_vec(trn.translation);
                        let t = IVec3 {
                            x: parent_t.x.wrapping_add(lt.x),
                            y: parent_t.y.wrapping_add(lt.y),
                            z: parent_t.z.wrapping_add(lt.z),
                        };
                        let r = compose_rotation(parent_r, trn.rotation);
                        self.walk_named(trn.child, t, r, hidden, trn.id, &trn.name, fuel - 1, out);
                    },
                    SceneNode::Group(grp) => {
                        let mut i: usize = 0;
                        assert(grp.children@.take(0) =~= Seq::<i32>::empty());
                        assert(instance_views(out@) =~= start + Seq::<InstanceView>::empty());
                        while i < grp.children.len()
                            invariant
                                0 < fuel,
                                nodes == self.graph().nodes,
                                i <= grp.children.len(),
                                instance_views(out@) == start + walk_list(
                                    nodes,
                                    grp.children@.take(i as int),
                                    parent_t,
                                    parent_r.0,
                                    parent_hidden,
                                    owner_trn,
                                    owner_name@,
                                    (fuel - 1) as nat,
                                ),
                            decreases grp.children.len() - i,
                        {
                            let ghost before = instance_views(out@);
                            self.walk_named(
                                grp.children[i],
                                parent_t,
                                parent_r,
                                parent_hidden,
                                owner_trn,
                                owner_name,
                                fuel - 1,
                                out,
                            );
                            assert(grp.children@.take(i + 1).drop_last() =~= grp.children@.take(
                                i as int,
                            ));
                            assert(grp.children@.take(i + 1).last() == grp.children@[i as int]);
                            i = i + 1;
                        }
                        assert(grp.children@.take(i as int) =~= grp.children@);
                    },
                    SceneNode::Shape(shp) => {
                        let ghost shape_seq = Seq::new(
                            shp.model_ids@.len(),
                            |k: int|
                                InstanceView {
                                    transform_id: owner_trn,
                                    model_id: shp.model_ids@[k],
                                    name: owner_name@,
                                    translation: parent_t,
                                    rotation: parent_r.0,
                                    hidden: parent_hidden,
                                },
                        );
                        let mut k: usize = 0;
                        assert(instance_views(out@) =~= start + shape_seq.take(0));
                        while k < shp.model_ids.len()
                            invariant
                                k <= shp.model_ids.len(),
                                shape_seq.len() == shp.model_ids@.len(),
                                shape_seq == Seq::new(
                                    shp.model_ids@.len(),
                                    |j: int|
                                        InstanceView {
                                            transform_id: owner_trn,
                                            model_id: shp.model_ids@[j],
                                            name: owner_name@,
                                            translation: parent_t,
                                            rotation: parent_r.0,
                                            hidden: parent_hidden,
                                        },
                                ),
                                instance_views(out@) == start + shape_seq.take(k as int),
                            decreases shp.model_ids.len() - k,
                        {
                            let w = WorldInstance {
                                transform_id: owner_trn,
                                model_id: shp.model_ids[k],
                                name: owner_name.clone(),
                                translation: parent_t,
                                rotation: parent_r,
                                hidden: parent_hidden,
                            };
                            let ghost before = out@;
                            out.push(w);
                            assert(instance_views(out@) =~= instance_views(before).push(w@));
                            assert(shape_seq.take(k + 1) =~= shape_seq.take(k as int).push(shape_seq[k as int]));
                            assert(instance_views(out@) =~= start + shape_seq.take(k + 1));
                            k = k + 1;
                        }
                        assert(shape_seq.take(k as int) =~= shape_seq);
                    },
                }
            },
        }
    }

    /// Flatten the scene into drawable instances, depth first from the root.
    pub fn collect_instances(&self) -> (v: Vec<WorldInstance>)
        ensures
            instance_views(v@) == graph_instances(self.graph()),
    {
        let mut out: Vec<WorldInstance> = Vec::new();
        let name = String::new();
        let fuel = self.nodes.len();
        proof {
            assert(self.graph().nodes.dom() =~= self.nodes@.dom());
            assert(instance_views(out@) =~= Seq::<InstanceView>::empty());
        }
        self.walk_named(
            self.root,
            IVec3::new(0, 0, 0),
            MvRotation::identity(),
            false,
            0,
            &name,
            fuel,
            &mut out,
        );
        assert(instance_views(out@) =~= graph_instances(self.graph()));
        out
    }

    /// The visible instances as `(transform id, name, translation, hidden,
    /// model id)`; an empty name is listed as `object_<id>`.
    pub fn list_objects(&self) -> (v: Vec<(NodeId, String, IVec3, bool, ModelId)>)
        ensures
            v@.map_values(
                |o: (NodeId, String, IVec3, bool, ModelId)| (o.0, o.1@, o.2, o.3, o.4),
            ) == visible_objects(graph_instances(self.graph())),
    {
        let inst = self.collect_instances();
        let ghost views = instance_views(inst@);
        let mut out: Vec<(NodeId, String, IVec3, bool, ModelId)> = Vec::new();
        let mut i: usize = 0;
        while i < inst.len()
            invariant
                i <= inst.len(),
                views == instance_views(inst@),
                out@.map_values(
                    |o: (NodeId, String, IVec3, bool, ModelId)| (o.0, o.1@, o.2, o.3, o.4),
                ) == visible_objects(views.take(i as int)),
            decreases inst.len() - i,
        {
            let w = &inst[i];
            assert(views.take(i + 1).drop_last() =~= views.take(i as int));
            assert(views.take(i + 1).last() == w@);
            if !w.hidden {
                let name = if w.name.as_str().is_empty() {
                    object_label(w.transform_id)
                } else {
                    w.name.clone()
                };
                out.push((w.transform_id, name, w.translation, w.hidden, w.model_id));
            }
            assert(out@.map_values(
                |o: (NodeId, String, IVec3, bool, ModelId)| (o.0, o.1@, o.2, o.3, o.4),
            ) =~= visible_objects(views.take(i + 1)));
            i = i + 1;
        }
        assert(views.take(i as int) =~= views);
        out
    }

    fn find_shape_model(&self, node_id: NodeId, fuel: usize) -> (r: Option<ModelId>)
        ensures
            r == find_model(self.graph().nodes, node_id, fuel as nat),
        decreases fuel,
    {
        if fuel == 0 {
            return None;
        }
        match self.nodes.get(&node_id) {
            None => None,
            Some(SceneNode::Shape(s)) => {
                if s.model_ids.len() > 0 {
                    Some(s.model_ids[0])
                } else {
                    None
                }
            },
            Some(SceneNode::Transform(t)) => self.find_shape_model(t.child, fuel - 1),
            Some(SceneNode::Group(g)) => {
                let ghost nodes = self.graph().nodes;
                let ghost ch = g.children@;
                let mut i: usize = 0;
                assert(ch.subrange(0, ch.len() as int) =~= ch);
                assert(find_model(nodes, node_id, fuel as nat) == find_in(nodes, ch, (fuel - 1) as nat));
                while i < g.children.len()
                    invariant
                        0 < fuel,
                        find_model(nodes, node_id, fuel as nat) == find_in(nodes, ch, (fuel - 1) as nat),
                        nodes == self.graph().nodes,
                        ch == g.children@,
                        i <= ch.len(),
                        find_in(nodes, ch, (fuel - 1) as nat) == find_in(
                            nodes,
                            ch.subrange(i as int, ch.len() as int),
                            (fuel - 1) as nat,
                        ),
                    decreases ch.len() - i,
                {
                    let found = self.find_shape_model(g.children[i], fuel - 1);
                    let ghost rest = ch.subrange(i as int, ch.len() as int);
                    assert(rest[0] == ch[i as int]);
                    assert(rest.drop_first() =~= ch.subrange(i + 1, ch.len() as int));
                    if found.is_some() {
                        return found;
                    }
                    i = i + 1;
                }
                assert(ch.subrange(i as int, ch.len() as int) =~= Seq::<i32>::empty());
                None
            },
        }
    }

    /// The first model below a transform, depth first; `None` unless
    /// `trn_id` is a transform with a model below it.
    pub fn model_id_for_transform(&self, trn_id: NodeId) -> (r: Option<ModelId>)
        ensures
            r == model_of_transform(self.graph(), trn_id),
    {
        proof {
            assert(self.graph().nodes.dom() =~= self.nodes@.dom());
        }
        match self.nodes.get(&trn_id) {
            Some(SceneNode::Transform(t)) => self.find_shape_model(t.child, self.nodes.len()),
            _ => None,
        }
    }

    /// Detach a transform (not the root): it leaves the node map and the
    /// children of the root group. False, with nothing changed, otherwise.
    pub fn remove_object(&mut self, node_id: NodeId) -> (ok: bool)
        ensures
            ok == (node_id != old(self).root && is_transform(old(self).graph().nodes, node_id)),
            ok ==> final(self).graph() == graph_remove_object(old(self).graph(), node_id),
            !ok ==> final(self).graph() == old(self).graph(),
            final(self).models == old(self).models,
            final(self).layers == old(self).layers,
            final(self).materials == old(self).materials,
    {
        let ghost g = self.graph();
        if node_id == self.root {
            return false;
        }
        let is_trn = match self.nodes.get(&node_id) {
            Some(SceneNode::Transform(_)) => true,
            _ => false,
        };
        if !is_trn {
            return false;
        }
        let _removed = self.nodes.remove(&node_id);
        let ghost n1 = self.graph().nodes;
        assert(n1 =~= g.nodes.remove(node_id));
        let child_opt: Option<NodeId> = match self.nodes.get(&self.root) {
            Some(SceneNode::Transform(t)) => Some(t.child),
            _ => None,
        };
        if let Some(c) = child_opt {
            match self.nodes.remove(&c) {
                Some(SceneNode::Group(grp)) => {
                    let mut kept: Vec<NodeId> = Vec::new();
                    let mut i: usize = 0;
                    while i < grp.children.len()
                        invariant
                            i <= grp.children.len(),
                            kept@ == grp.children@.take(i as int).filter(other_than(node_id)),
                        decreases grp.children.len() - i,
                    {
                        proof {
                            assert(grp.children@.take(i + 1) =~= grp.children@.take(i as int).push(
                                grp.children@[i as int],
                            ));
                            grp.children@.take(i as int).lemma_filter_push(
                                grp.children@[i as int],
                                other_than(node_id),
                            );
                        }
                        if grp.children[i] != node_id {
                            kept.push(grp.children[i]);
                        }
                        i = i + 1;
                    }
                    assert(grp.children@.take(i as int) =~= grp.children@);
                    let gid = grp.id;
                    let gname = grp.name;
                    self.nodes.insert(
                        c,
                        SceneNode::Group(GroupNode { id: gid, name: gname, children: kept }),
                    );
                    assert(self.graph().nodes =~= graph_remove_object(g, node_id).nodes);
                },
                Some(other) => {
                    self.nodes.insert(c, other);
                    assert(self.graph().nodes =~= n1);
                },
                None => {
                    assert(self.graph().nodes =~= n1);
                },
            }
        }
        true
    }

    /// A copy with the same models, node graph, layers and materials.
    pub fn copy(&self) -> (s: Scene)
        requires
            self.wf(),
        ensures
            s.wf(),
            s.grids() == self.grids(),
            s.graph() == self.graph(),
            s.layers.layers@ == self.layers.layers@,
            s.materials.slots() == self.materials.slots(),
            s.materials.legacy() == self.materials.legacy(),
    {
        let mut models: Vec<VoxelModel> = Vec::new();
        let mut i: usize = 0;
        while i < self.models.len()
            invariant
                i <= self.models.len(),
                self.wf(),
                models@.len() == i,
                forall|k: int| 0 <= k < i ==> (#[trigger] models@[k]).same_as(&self.models@[k]),
                forall|k: int| 0 <= k < i ==> (#[trigger] models@[k]).wf(),
            decreases self.models.len() - i,
        {
            let m = self.models[i].copy();
            models.push(m);
            i = i + 1;
        }
        let s = Scene {
            models,
            nodes: self.nodes.clone(),
            root: self.root,
            next_id: self.next_id,
            layers: self.layers.copy(),
            materials: self.materials.copy(),
        };
        assert(s.grids() =~= self.grids());
        s
    }
}


/// A scene as plain values.
pub struct SceneView {
    pub grids: Seq<Grid>,
    pub graph: SceneGraph,
    pub layers: Seq<LayerView>,
    pub slots: Seq<Seq<(Seq<char>, Seq<char>)>>,
    pub legacy: Seq<(u8, Seq<u8>)>,
}

/// Whether two node maps hold the same nodes under the same ids.
fn same_node_maps(a: &HashMap<NodeId, SceneNode>, b: &HashMap<NodeId, SceneNode>) -> (r: bool)
    ensures
        r == (a@.map_values(|n: SceneNode| n@) == b@.map_values(|n: SceneNode| n@)),
{
    let ghost va = a@.map_values(|n: SceneNode| n@);
    let ghost vb = b@.map_values(|n: SceneNode| n@);
    proof {
        assert(va.dom() =~= a@.dom());
        assert(vb.dom() =~= b@.dom());
    }
    if a.len() != b.len() {
        proof {
            assert(va.dom().len() != vb.dom().len());
        }
        return false;
    }
    let ks = sorted_node_ids(a);
    let mut i: usize = 0;
    while i < ks.len()
        invariant
            i <= ks@.len(),
            ascending_keys(ks@, a@.dom()),
            va == a@.map_values(|n: SceneNode| n@),
            vb == b@.map_values(|n: SceneNode| n@),
            forall|j: int| 0 <= j < i ==> #[trigger] b@.contains_key(ks@[j]) && vb[ks@[j]] == va[ks@[j]],
        decreases ks@.len() - i,
    {
        let k = ks[i];
        proof {
            assert(ks@.contains(k));
        }
        let na = a.get(&k).unwrap();
        match b.get(&k) {
            None => {
                proof {
                    assert(!vb.dom().contains(k));
                    assert(va.dom().contains(k));
                }
                return false;
            },
            Some(nb) => {
                if !na.same(nb) {
                    proof {
                        assert(va[k] != vb[k]);
                    }
                    return false;
                }
            },
        }
        i = i + 1;
    }
    proof {
        assert(a@.dom().subset_of(b@.dom())) by {
            assert forall|k: i32| a@.dom().contains(k) implies b@.dom().contains(k) by {
                assert(ks@.contains(k));
                let j = choose|j: int| 0 <= j < ks@.len() && ks@[j] == k;
                assert(b@.contains_key(ks@[j]));
            }
        }
        vstd::set_lib::lemma_subset_equality(a@.dom(), b@.dom());
        assert forall|k: i32| va.dom().contains(k) implies va[k] == vb[k] by {
            assert(ks@.contains(k));
            let j = choose|j: int| 0 <= j < ks@.len() && ks@[j] == k;
            assert(b@.contains_key(ks@[j]));
        }
        assert(va =~= vb);
    }
    true
}

impl Scene {
    /// The scene as plain values.
    pub open spec fn state(&self) -> SceneView {
        SceneView {
            grids: self.grids(),
            graph: self.graph(),
            layers: layer_views(self.layers.layers@),
            slots: self.materials.slots(),
            legacy: self.materials.legacy(),
        }
    }

    /// Whether two scenes hold the same models, nodes, layers and materials.
    pub fn same(&self, other: &Scene) -> (b: bool)
        ensures
            b == (self.state() == other.state()),
    {
        if self.models.len() != other.models.len() {
            proof {
                assert(self.grids().len() != other.grids().len());
            }
            return false;
        }
        let mut i: usize = 0;
        while i < self.models.len()
            invariant
                i <= self.models.len(),
                self.models.len() == other.models.len(),
                forall|k: int| 0 <= k < i ==> #[trigger] self.grids()[k] == other.grids()[k],
            decreases self.models.len() - i,
        {
            if !self.models[i].same_content(&other.models[i]) {
                proof {
                    assert(self.grids()[i as int] != other.grids()[i as int]);
                }
                return false;
            }
            i = i + 1;
        }
        proof {
            assert(self.grids() =~= other.grids());
        }
        let nodes_same = same_node_maps(&self.nodes, &other.nodes);
        let layers_same = same_layers(&self.layers.layers, &other.layers.layers);
        let materials_same = self.materials.same(&other.materials);
        proof {
            if !nodes_same {
                assert(self.graph().nodes != other.graph().nodes);
            }
        }
        nodes_same && self.root == other.root && self.next_id == other.next_id && layers_same
            && materials_same
    }
}

} // verus!
