//! Dense voxel volume. Value 0 = empty; 1..=255 = palette index.

use vstd::prelude::*;
use crate::grid::{
    in_volume, cell_index, cell_x, cell_y, cell_z, volume, lemma_index_decodes, lemma_decode_index,
    lemma_index_injective, lemma_volume_bound, lemma_index_step, lemma_index_origin,
};
use crate::{ColorIndex, CoreError};

verus! {

/// Integer coordinates (MagicaVoxel axes: X right, Y depth, Z up).
#[derive(Debug, Clone, Copy, PartialEq, Eq, Hash, Structural)]
pub struct IVec3 {
    pub x: i32,
    pub y: i32,
    pub z: i32,
}

impl IVec3 {
    pub fn new(x: i32, y: i32, z: i32) -> (v: Self)
        ensures
            v == (IVec3 { x, y, z }),
    {
        IVec3 { x, y, z }
    }
}

/// Number of positions at which two equally long sequences differ.
pub open spec fn diff_count(a: Seq<u8>, b: Seq<u8>) -> nat
    decreases a.len(),
{
    if a.len() == 0 {
        0
    } else {
        diff_count(a.drop_last(), b.subrange(0, a.len() - 1)) + if a.last() != b[a.len() - 1] {
            1nat
        } else {
            0nat
        }
    }
}

/// Number of non-zero entries.
pub open spec fn nonzero_count(a: Seq<u8>) -> nat
    decreases a.len(),
{
    if a.len() == 0 {
        0
    } else {
        nonzero_count(a.drop_last()) + if a.last() != 0 {
            1nat
        } else {
            0nat
        }
    }
}

pub proof fn lemma_diff_count_self(a: Seq<u8>)
    ensures
        diff_count(a, a) == 0,
    decreases a.len(),
{
    if a.len() > 0 {
        assert(a.subrange(0, a.len() - 1) == a.drop_last());
        lemma_diff_count_self(a.drop_last());
    }
}

/// Changing one position that agreed with `a` to a value that does not
/// raises the count by one; rewriting a position with its own value keeps it.
pub proof fn lemma_diff_count_update(a: Seq<u8>, b: Seq<u8>, i: int, v: u8)
    requires
        a.len() == b.len(),
        0 <= i < a.len(),
    ensures
        diff_count(a, b.update(i, v)) == diff_count(a, b) - (if a[i] != b[i] {
            1int
        } else {
            0int
        }) + (if a[i] != v {
            1int
        } else {
            0int
        }),
    decreases a.len(),
{
    let n = a.len();
    let b2 = b.update(i, v);
    if i == n - 1 {
        assert(b2.subrange(0, n - 1) == b.subrange(0, n - 1));
    } else {
        assert(b2.subrange(0, n - 1) == b.subrange(0, n - 1).update(i, v));
        lemma_diff_count_update(a.drop_last(), b.subrange(0, n - 1), i, v);
    }
}

/// The occupied cells among the first `n` cells of a row-major volume, in
/// index order, as `(x, y, z, color)`.
pub open spec fn occupied_upto(sx: int, sy: int, cells: Seq<u8>, n: int) -> Seq<(u8, u8, u8, u8)>
    decreases n,
{
    if n <= 0 {
        Seq::empty()
    } else {
        let i = n - 1;
        occupied_upto(sx, sy, cells, i) + if cells[i] != 0 {
            seq![(cell_x(sx, sy, i) as u8, cell_y(sx, sy, i) as u8, cell_z(sx, sy, i) as u8, cells[i])]
        } else {
            Seq::empty()
        }
    }
}

/// The first listed non-empty voxel that lies outside an `sx * sy * sz` volume.
pub open spec fn sparse_error(sx: int, sy: int, sz: int, v: Seq<(u8, u8, u8, u8)>) -> Option<
    (u8, u8, u8),
>
    decreases v.len(),
{
    if v.len() == 0 {
        None
    } else {
        match sparse_error(sx, sy, sz, v.drop_last()) {
            Some(e) => Some(e),
            None => {
                let (x, y, z, c) = v.last();
                if c != 0 && !in_volume(sx, sy, sz, x as int, y as int, z as int) {
                    Some((x, y, z))
                } else {
                    None
                }
            },
        }
    }
}

/// The color that the last non-empty listed voxel at a position gives it (0 if none).
pub open spec fn sparse_value(v: Seq<(u8, u8, u8, u8)>, x: int, y: int, z: int) -> u8
    decreases v.len(),
{
    if v.len() == 0 {
        0
    } else {
        let (a, b, d, c) = v.last();
        if c != 0 && a == x && b == y && d == z {
            c
        } else {
            sparse_value(v.drop_last(), x, y, z)
        }
    }
}

/// A volume as plain values: sizes `(sx, sy, sz)` and the row-major cells.
pub type Grid = (int, int, int, Seq<u8>);

pub open spec fn grid_contains(g: Grid, x: int, y: int, z: int) -> bool {
    in_volume(g.0, g.1, g.2, x, y, z)
}

/// The palette index at a position of a grid; 0 outside the volume.
pub open spec fn grid_voxel(g: Grid, x: int, y: int, z: int) -> u8 {
    if grid_contains(g, x, y, z) {
        g.3[cell_index(g.0, g.1, x, y, z)]
    } else {
        0
    }
}

/// Moves a cursor one cell forward in row-major order.
fn advance(x: u32, y: u32, z: u32, sx: u32, sy: u32) -> (r: (u32, u32, u32))
    requires
        1 <= sx <= 256,
        1 <= sy <= 256,
        x < sx,
        y < sy,
        z < 256,
    ensures
        r.0 < sx,
        r.1 < sy,
        r.2 <= z + 1,
        r.2 >= z,
        cell_index(sx as int, sy as int, r.0 as int, r.1 as int, r.2 as int) == cell_index(
            sx as int,
            sy as int,
            x as int,
            y as int,
            z as int,
        ) + 1,
        r.2 == z + 1 ==> r.0 == 0 && r.1 == 0,
{
    proof {
        lemma_index_step(sx as int, sy as int, x as int, y as int, z as int);
    }
    if x + 1 < sx {
        (x + 1, y, z)
    } else if y + 1 < sy {
        (0, y + 1, z)
    } else {
        (0, 0, z + 1)
    }
}

/// An error found in a prefix is the error of the whole list.
pub proof fn lemma_sparse_error_prefix(sx: int, sy: int, sz: int, v: Seq<(u8, u8, u8, u8)>, n: int)
    requires
        0 <= n <= v.len(),
        sparse_error(sx, sy, sz, v.subrange(0, n)) is Some,
    ensures
        sparse_error(sx, sy, sz, v) == sparse_error(sx, sy, sz, v.subrange(0, n)),
    decreases v.len() - n,
{
    if n < v.len() {
        assert(v.subrange(0, n + 1).drop_last() == v.subrange(0, n));
        lemma_sparse_error_prefix(sx, sy, sz, v, n + 1);
    } else {
        assert(v.subrange(0, n) == v);
    }
}

/// A dense `sx * sy * sz` volume of palette indices (0 = empty).
#[derive(Debug)]
pub struct VoxelModel {
    size_x: u32,
    size_y: u32,
    size_z: u32,
    /// Row-major: index = x + y * sx + z * sx * sy
    data: Vec<ColorIndex>,
}

impl VoxelModel {
    pub closed spec fn sx(&self) -> u32 {
        self.size_x
    }

    pub closed spec fn sy(&self) -> u32 {
        self.size_y
    }

    pub closed spec fn sz(&self) -> u32 {
        self.size_z
    }

    /// The cells in row-major order.
    pub closed spec fn cells(&self) -> Seq<u8> {
        self.data@
    }

    /// Sizes and cells as plain values.
    pub open spec fn grid(&self) -> Grid {
        (self.sx() as int, self.sy() as int, self.sz() as int, self.cells())
    }

    /// Each axis is 1..=256 long and there is one cell per position.
    pub open spec fn wf(&self) -> bool {
        &&& 1 <= self.sx() <= 256
        &&& 1 <= self.sy() <= 256
        &&& 1 <= self.sz() <= 256
        &&& self.cells().len() == volume(self.sx() as int, self.sy() as int, self.sz() as int)
    }

    pub open spec fn contains(&self, x: int, y: int, z: int) -> bool {
        in_volume(self.sx() as int, self.sy() as int, self.sz() as int, x, y, z)
    }

    pub open spec fn index_of(&self, x: int, y: int, z: int) -> int {
        cell_index(self.sx() as int, self.sy() as int, x, y, z)
    }

    /// The palette index at a position; 0 outside the volume.
    pub open spec fn voxel(&self, x: int, y: int, z: int) -> u8 {
        if self.contains(x, y, z) {
            self.cells()[self.index_of(x, y, z)]
        } else {
            0
        }
    }

    /// The sizes and the cells agree.
    pub open spec fn same_as(&self, other: &VoxelModel) -> bool {
        &&& self.sx() == other.sx()
        &&& self.sy() == other.sy()
        &&& self.sz() == other.sz()
        &&& self.cells() == other.cells()
    }

    pub open spec fn out_of_bounds(&self, x: i32, y: i32, z: i32) -> CoreError {
        CoreError::OutOfBounds { x, y, z, sx: self.sx(), sy: self.sy(), sz: self.sz() }
    }

    /// In a well-formed model, the value at every position is determined by the cells.
    pub proof fn lemma_voxel_cells(&self, x: int, y: int, z: int)
        requires
            self.wf(),
            self.contains(x, y, z),
        ensures
            0 <= self.index_of(x, y, z) < self.cells().len(),
            self.voxel(x, y, z) == self.cells()[self.index_of(x, y, z)],
    {
        lemma_index_decodes(self.sx() as int, self.sy() as int, self.sz() as int, x, y, z);
    }

    /// Writing one cell of the data changes the value at exactly that position.
    pub proof fn lemma_voxel_after_write(
        &self,
        new: &VoxelModel,
        x: int,
        y: int,
        z: int,
        c: u8,
    )
        requires
            self.wf(),
            self.contains(x, y, z),
            new.sx() == self.sx(),
            new.sy() == self.sy(),
            new.sz() == self.sz(),
            new.cells() == self.cells().update(self.index_of(x, y, z), c),
        ensures
            new.wf(),
            forall|a: int, b: int, d: int|
                #[trigger] new.voxel(a, b, d) == if a == x && b == y && d == z {
                    c
                } else {
                    self.voxel(a, b, d)
                },
    {
        let sx = self.sx() as int;
        let sy = self.sy() as int;
        let sz = self.sz() as int;
        lemma_index_decodes(sx, sy, sz, x, y, z);
        assert forall|a: int, b: int, d: int|
            #[trigger] new.voxel(a, b, d) == if a == x && b == y && d == z {
                c
            } else {
                self.voxel(a, b, d)
            } by {
            if self.contains(a, b, d) && !(a == x && b == y && d == z) {
                lemma_index_decodes(sx, sy, sz, a, b, d);
                if cell_index(sx, sy, a, b, d) == cell_index(sx, sy, x, y, z) {
                    lemma_index_injective(sx, sy, sz, a, b, d, x, y, z);
                }
            }
        }
    }

    /// Two well-formed models of one size with the same value at every position
    /// have the same cells.
    pub proof fn lemma_cells_from_voxels(&self, other: &VoxelModel)
        requires
            self.wf(),
            other.wf(),
            self.sx() == other.sx(),
            self.sy() == other.sy(),
            self.sz() == other.sz(),
            forall|x: int, y: int, z: int| #[trigger]
                self.voxel(x, y, z) == other.voxel(x, y, z),
        ensures
            self.cells() == other.cells(),
    {
        let sx = self.sx() as int;
        let sy = self.sy() as int;
        let sz = self.sz() as int;
        assert forall|i: int| 0 <= i < self.cells().len() implies self.cells()[i]
            == other.cells()[i] by {
            lemma_decode_index(sx, sy, sz, i);
            let x = cell_x(sx, sy, i);
            let y = cell_y(sx, sy, i);
            let z = cell_z(sx, sy, i);
            assert(self.voxel(x, y, z) == other.voxel(x, y, z));
        }
        assert(self.cells() =~= other.cells());
    }

    fn validate_size(sx: u32, sy: u32, sz: u32) -> (r: Result<(), CoreError>)
        ensures
            r is Ok <==> (1 <= sx <= 256 && 1 <= sy <= 256 && 1 <= sz <= 256),
            r is Err ==> r == Err::<(), CoreError>(CoreError::InvalidSize(sx, sy, sz)),
    {
        if sx == 0 || sy == 0 || sz == 0 || sx > 256 || sy > 256 || sz > 256 {
            return Err(CoreError::InvalidSize(sx, sy, sz));
        }
        Ok(())
    }

    /// An empty model of the given size; each axis must be 1..=256.
    pub fn new(size_x: u32, size_y: u32, size_z: u32) -> (r: Result<Self, CoreError>)
        ensures
            r is Ok <==> (1 <= size_x <= 256 && 1 <= size_y <= 256 && 1 <= size_z <= 256),
            r is Err ==> r == Err::<VoxelModel, CoreError>(
                CoreError::InvalidSize(size_x, size_y, size_z),
            ),
            r matches Ok(m) ==> {
                &&& m.wf()
                &&& m.sx() == size_x
                &&& m.sy() == size_y
                &&& m.sz() == size_z
                &&& forall|x: int, y: int, z: int| #[trigger] m.voxel(x, y, z) == 0
                &&& forall|i: int| 0 <= i < m.cells().len() ==> m.cells()[i] == 0
            },
    {
        Self::validate_size(size_x, size_y, size_z)?;
        proof {
            lemma_volume_bound(size_x as int, size_y as int, size_z as int);
        }
        let syz: usize = size_y as usize * size_z as usize;
        let len: usize = size_x as usize * syz;
        let mut data: Vec<ColorIndex> = Vec::new();
        while data.len() < len
            invariant
                data.len() <= len,
                forall|i: int| 0 <= i < data.len() ==> data@[i] == 0,
            decreases len - data.len(),
        {
            data.push(0);
        }
        let m = VoxelModel { size_x, size_y, size_z, data };
        proof {
            assert forall|x: int, y: int, z: int| #[trigger] m.voxel(x, y, z) == 0 by {
                if m.contains(x, y, z) {
                    m.lemma_voxel_cells(x, y, z);
                }
            }
        }
        Ok(m)
    }

    pub fn size(&self) -> (s: (u32, u32, u32))
        ensures
            s == (self.sx(), self.sy(), self.sz()),
    {
        (self.size_x, self.size_y, self.size_z)
    }

    pub fn size_x(&self) -> (s: u32)
        ensures
            s == self.sx(),
    {
        self.size_x
    }

    pub fn size_y(&self) -> (s: u32)
        ensures
            s == self.sy(),
    {
        self.size_y
    }

    pub fn size_z(&self) -> (s: u32)
        ensures
            s == self.sz(),
    {
        self.size_z
    }

    fn index(&self, x: i32, y: i32, z: i32) -> (r: Result<usize, CoreError>)
        requires
            self.wf(),
        ensures
            r is Ok <==> self.contains(x as int, y as int, z as int),
            r matches Ok(i) ==> i == self.index_of(x as int, y as int, z as int) && i
                < self.cells().len(),
            r is Err ==> r == Err::<usize, CoreError>(self.out_of_bounds(x, y, z)),
    {
        if x < 0 || y < 0 || z < 0 || x as u32 >= self.size_x || y as u32 >= self.size_y || z as u32
            >= self.size_z {
            return Err(
                CoreError::OutOfBounds {
                    x,
                    y,
                    z,
                    sx: self.size_x,
                    sy: self.size_y,
                    sz: self.size_z,
                },
            );
        }
        proof {
            self.lemma_voxel_cells(x as int, y as int, z as int);
            lemma_volume_bound(self.sx() as int, self.sy() as int, self.sz() as int);
        }
        let sx = self.size_x as usize;
        let sy = self.size_y as usize;
        assert(sy * z + y < 65536 && sy * z <= 65280) by (nonlinear_arith)
            requires
                0 <= y < sy,
                0 <= z < 256,
                sy <= 256,
        ;
        let yz: usize = y as usize + sy * z as usize;
        assert(sx * yz <= 16776960 && x + sx * yz < 16777216) by (nonlinear_arith)
            requires
                0 <= x < sx,
                sx <= 256,
                yz < 65536,
        ;
        let i: usize = x as usize + sx * yz;
        Ok(i)
    }

    pub fn in_bounds(&self, x: i32, y: i32, z: i32) -> (b: bool)
        requires
            self.wf(),
        ensures
            b == self.contains(x as int, y as int, z as int),
    {
        self.index(x, y, z).is_ok()
    }

    pub fn get(&self, x: i32, y: i32, z: i32) -> (r: Result<ColorIndex, CoreError>)
        requires
            self.wf(),
        ensures
            r is Ok <==> self.contains(x as int, y as int, z as int),
            r matches Ok(c) ==> c == self.voxel(x as int, y as int, z as int),
            r is Err ==> r == Err::<ColorIndex, CoreError>(self.out_of_bounds(x, y, z)),
    {
        let i = self.index(x, y, z)?;
        Ok(self.data[i])
    }

    pub fn get_or_empty(&self, x: i32, y: i32, z: i32) -> (c: ColorIndex)
        requires
            self.wf(),
        ensures
            c == self.voxel(x as int, y as int, z as int),
    {
        match self.get(x, y, z) {
            Ok(c) => c,
            Err(_) => 0,
        }
    }

    pub fn set(&mut self, x: i32, y: i32, z: i32, color: ColorIndex) -> (r: Result<(), CoreError>)
        requires
            old(self).wf(),
        ensures
            final(self).wf(),
            final(self).sx() == old(self).sx(),
            final(self).sy() == old(self).sy(),
            final(self).sz() == old(self).sz(),
            r is Ok <==> old(self).contains(x as int, y as int, z as int),
            r is Err ==> r == Err::<(), CoreError>(old(self).out_of_bounds(x, y, z))
                && final(self).cells() == old(self).cells(),
            r is Ok ==> final(self).cells() == old(self).cells().update(
                old(self).index_of(x as int, y as int, z as int),
                color,
            ),
            forall|a: int, b: int, d: int|
                #[trigger] final(self).voxel(a, b, d) == if r is Ok && a == x && b == y && d == z {
                    color
                } else {
                    old(self).voxel(a, b, d)
                },
    {
        let i = self.index(x, y, z)?;
        proof {
            let ghost snap = *self;
            assert(snap.wf());
        }
        let ghost before = *self;
        self.data.set(i, color);
        proof {
            before.lemma_voxel_after_write(self, x as int, y as int, z as int, color);
        }
        Ok(())
    }

    pub open spec fn occupied(&self) -> Seq<(u8, u8, u8, u8)> {
        occupied_upto(self.sx() as int, self.sy() as int, self.cells(), self.cells().len() as int)
    }

    /// Change the size; the overlap with the old volume keeps its voxels, the
    /// rest is empty. Each axis must be 1..=256.
    pub fn resize(&mut self, size_x: u32, size_y: u32, size_z: u32) -> (r: Result<(), CoreError>)
        requires
            old(self).wf(),
        ensures
            final(self).wf(),
            r is Ok <==> (1 <= size_x <= 256 && 1 <= size_y <= 256 && 1 <= size_z <= 256),
            r is Err ==> r == Err::<(), CoreError>(CoreError::InvalidSize(size_x, size_y, size_z))
                && final(self).same_as(old(self)),
            r is Ok ==> {
                &&& final(self).sx() == size_x
                &&& final(self).sy() == size_y
                &&& final(self).sz() == size_z
                &&& forall|x: int, y: int, z: int| #[trigger]
                    final(self).voxel(x, y, z) == if final(self).contains(x, y, z) {
                        old(self).voxel(x, y, z)
                    } else {
                        0
                    }
            },
    {
        Self::validate_size(size_x, size_y, size_z)?;
        proof {
            lemma_volume_bound(size_x as int, size_y as int, size_z as int);
        }
        let ghost sxi = size_x as int;
        let ghost syi = size_y as int;
        let ghost szi = size_z as int;
        let mut data: Vec<ColorIndex> = Vec::new();
        proof {
            lemma_index_origin(sxi, syi);
        }
        let mut x: u32 = 0;
        let mut y: u32 = 0;
        let mut z: u32 = 0;
        while z < size_z
            invariant
                1 <= size_x <= 256,
                1 <= size_y <= 256,
                1 <= size_z <= 256,
                sxi == size_x as int,
                syi == size_y as int,
                szi == size_z as int,
                self.wf(),
                x < size_x,
                y < size_y,
                z <= size_z,
                z == size_z ==> x == 0 && y == 0,
                data.len() == cell_index(sxi, syi, x as int, y as int, z as int),
                forall|i: int|
                    0 <= i < data.len() ==> data@[i] == self.voxel(
                        cell_x(sxi, syi, i),
                        cell_y(sxi, syi, i),
                        cell_z(sxi, syi, i),
                    ),
            decreases volume(sxi, syi, szi) - data.len(),
        {
            let c = self.get_or_empty(x as i32, y as i32, z as i32);
            proof {
                lemma_index_decodes(sxi, syi, szi, x as int, y as int, z as int);
            }
            data.push(c);
            let (nx, ny, nz) = advance(x, y, z, size_x, size_y);
            x = nx;
            y = ny;
            z = nz;
            proof {
                if z < size_z {
                    lemma_index_decodes(sxi, syi, szi, x as int, y as int, z as int);
                }
            }
        }
        let ghost before = *self;
        *self = VoxelModel { size_x, size_y, size_z, data };
        proof {
            assert(self.cells().len() == volume(sxi, syi, szi));
            assert forall|x: int, y: int, z: int| #[trigger]
                self.voxel(x, y, z) == if self.contains(x, y, z) {
                    before.voxel(x, y, z)
                } else {
                    0
                } by {
                if self.contains(x, y, z) {
                    lemma_index_decodes(sxi, syi, szi, x, y, z);
                }
            }
        }
        Ok(())
    }

    /// Number of non-empty cells.
    pub fn voxel_count(&self) -> (n: usize)
        requires
            self.wf(),
        ensures
            n == nonzero_count(self.cells()),
    {
        let mut n: usize = 0;
        let mut i: usize = 0;
        while i < self.data.len()
            invariant
                i <= self.data.len(),
                n <= i,
                n == nonzero_count(self.data@.subrange(0, i as int)),
            decreases self.data.len() - i,
        {
            assert(self.data@.subrange(0, i + 1).drop_last() == self.data@.subrange(0, i as int));
            if self.data[i] != 0 {
                n = n + 1;
            }
            i = i + 1;
        }
        assert(self.data@.subrange(0, self.data.len() as int) == self.data@);
        n
    }

    /// The occupied voxels as `(x, y, z, color)`, in row-major order.
    pub fn iter_occupied(&self) -> (v: Vec<(u8, u8, u8, ColorIndex)>)
        requires
            self.wf(),
        ensures
            v@ == self.occupied(),
    {
        let sx = self.size_x;
        let sy = self.size_y;
        let sz = self.size_z;
        let ghost sxi = sx as int;
        let ghost syi = sy as int;
        let ghost szi = sz as int;
        proof {
            lemma_volume_bound(sxi, syi, szi);
        }
        let mut out: Vec<(u8, u8, u8, ColorIndex)> = Vec::new();
        proof {
            lemma_index_origin(sxi, syi);
        }
        let mut i: usize = 0;
        let mut x: u32 = 0;
        let mut y: u32 = 0;
        let mut z: u32 = 0;
        while z < sz
            invariant
                self.wf(),
                sx == self.sx(),
                sy == self.sy(),
                sz == self.sz(),
                sxi == sx as int,
                syi == sy as int,
                szi == sz as int,
                volume(sxi, syi, szi) <= 16777216,
                1 <= sx <= 256,
                1 <= sy <= 256,
                1 <= sz <= 256,
                x < sx,
                y < sy,
                z <= sz,
                z == sz ==> x == 0 && y == 0,
                i == cell_index(sxi, syi, x as int, y as int, z as int),
                out@ == occupied_upto(sxi, syi, self.cells(), i as int),
            decreases volume(sxi, syi, szi) - i,
        {
            proof {
                lemma_index_decodes(sxi, syi, szi, x as int, y as int, z as int);
            }
            let c = self.data[i];
            if c != 0 {
                out.push((x as u8, y as u8, z as u8, c));
            }
            let (nx, ny, nz) = advance(x, y, z, sx, sy);
            x = nx;
            y = ny;
            z = nz;
            i = i + 1;
        }
        out
    }

    /// A model of the given size holding the listed non-empty voxels; a later
    /// entry at the same position wins and entries with color 0 are skipped.
    pub fn from_sparse(
        size_x: u32,
        size_y: u32,
        size_z: u32,
        voxels: &[(u8, u8, u8, ColorIndex)],
    ) -> (r: Result<Self, CoreError>)
        ensures
            !(1 <= size_x <= 256 && 1 <= size_y <= 256 && 1 <= size_z <= 256) ==> r == Err::<
                VoxelModel,
                CoreError,
            >(CoreError::InvalidSize(size_x, size_y, size_z)),
            (1 <= size_x <= 256 && 1 <= size_y <= 256 && 1 <= size_z <= 256) ==> match sparse_error(
                size_x as int,
                size_y as int,
                size_z as int,
                voxels@,
            ) {
                Some((x, y, z)) => r == Err::<VoxelModel, CoreError>(
                    CoreError::OutOfBounds {
                        x: x as i32,
                        y: y as i32,
                        z: z as i32,
                        sx: size_x,
                        sy: size_y,
                        sz: size_z,
                    },
                ),
                None => r is Ok,
            },
            r matches Ok(m) ==> {
                &&& m.wf()
                &&& m.sx() == size_x
                &&& m.sy() == size_y
                &&& m.sz() == size_z
                &&& forall|x: int, y: int, z: int| #[trigger]
                    m.voxel(x, y, z) == if m.contains(x, y, z) {
                        sparse_value(voxels@, x, y, z)
                    } else {
                        0
                    }
            },
    {
        let mut model = Self::new(size_x, size_y, size_z)?;
        let mut i: usize = 0;
        while i < voxels.len()
            invariant
                i <= voxels.len(),
                model.wf(),
                model.sx() == size_x,
                model.sy() == size_y,
                model.sz() == size_z,
                sparse_error(size_x as int, size_y as int, size_z as int, voxels@.subrange(0, i as int))
                    is None,
                forall|x: int, y: int, z: int| #[trigger]
                    model.voxel(x, y, z) == if model.contains(x, y, z) {
                        sparse_value(voxels@.subrange(0, i as int), x, y, z)
                    } else {
                        0
                    },
            decreases voxels.len() - i,
        {
            let (x, y, z, c) = voxels[i];
            let ghost pre = voxels@.subrange(0, i as int);
            assert(voxels@.subrange(0, i + 1).drop_last() == pre);
            if c != 0 {
                match model.set(x as i32, y as i32, z as i32, c) {
                    Ok(()) => {},
                    Err(e) => {
                        proof {
                            lemma_sparse_error_prefix(
                                size_x as int,
                                size_y as int,
                                size_z as int,
                                voxels@,
                                i + 1,
                            );
                        }
                        return Err(e);
                    },
                }
            }
            i = i + 1;
        }
        assert(voxels@.subrange(0, voxels.len() as int) == voxels@);
        Ok(model)
    }

    /// The model reflected through the middle of the volume along axis 0 (x),
    /// 1 (y) or 2 (z).
    pub fn mirrored(&self, axis: u8) -> (m: VoxelModel)
        requires
            self.wf(),
            axis < 3,
        ensures
            m.wf(),
            m.sx() == self.sx(),
            m.sy() == self.sy(),
            m.sz() == self.sz(),
            forall|x: int, y: int, z: int| #[trigger]
                m.voxel(x, y, z) == self.voxel(
                    if axis == 0 {
                        self.sx() - 1 - x
                    } else {
                        x
                    },
                    if axis == 1 {
                        self.sy() - 1 - y
                    } else {
                        y
                    },
                    if axis == 2 {
                        self.sz() - 1 - z
                    } else {
                        z
                    },
                ),
    {
        let sx = self.size_x;
        let sy = self.size_y;
        let sz = self.size_z;
        let ghost sxi = sx as int;
        let ghost syi = sy as int;
        let ghost szi = sz as int;
        proof {
            lemma_volume_bound(sxi, syi, szi);
            lemma_index_origin(sxi, syi);
        }
        let mut data: Vec<ColorIndex> = Vec::new();
        let mut x: u32 = 0;
        let mut y: u32 = 0;
        let mut z: u32 = 0;
        while z < sz
            invariant
                self.wf(),
                axis < 3,
                sx == self.sx(),
                sy == self.sy(),
                sz == self.sz(),
                sxi == sx as int,
                syi == sy as int,
                szi == sz as int,
                x < sx,
                y < sy,
                z <= sz,
                z == sz ==> x == 0 && y == 0,
                data.len() == cell_index(sxi, syi, x as int, y as int, z as int),
                forall|i: int|
                    0 <= i < data.len() ==> data@[i] == self.voxel(
                        if axis == 0 {
                            sxi - 1 - cell_x(sxi, syi, i)
                        } else {
                            cell_x(sxi, syi, i)
                        },
                        if axis == 1 {
                            syi - 1 - cell_y(sxi, syi, i)
                        } else {
                            cell_y(sxi, syi, i)
                        },
                        if axis == 2 {
                            szi - 1 - cell_z(sxi, syi, i)
                        } else {
                            cell_z(sxi, syi, i)
                        },
                    ),
            decreases volume(sxi, syi, szi) - data.len(),
        {
            let rx = if axis == 0 {
                sx - 1 - x
            } else {
                x
            };
            let ry = if axis == 1 {
                sy - 1 - y
            } else {
                y
            };
            let rz = if axis == 2 {
                sz - 1 - z
            } else {
                z
            };
            let c = self.get_or_empty(rx as i32, ry as i32, rz as i32);
            proof {
                lemma_index_decodes(sxi, syi, szi, x as int, y as int, z as int);
            }
            data.push(c);
            let (nx, ny, nz) = advance(x, y, z, sx, sy);
            x = nx;
            y = ny;
            z = nz;
        }
        let m = VoxelModel { size_x: sx, size_y: sy, size_z: sz, data };
        proof {
            assert forall|x: int, y: int, z: int| #[trigger]
                m.voxel(x, y, z) == self.voxel(
                    if axis == 0 {
                        sxi - 1 - x
                    } else {
                        x
                    },
                    if axis == 1 {
                        syi - 1 - y
                    } else {
                        y
                    },
                    if axis == 2 {
                        szi - 1 - z
                    } else {
                        z
                    },
                ) by {
                if m.contains(x, y, z) {
                    lemma_index_decodes(sxi, syi, szi, x, y, z);
                }
            }
        }
        m
    }

    /// A copy with the same size and cells.
    pub fn copy(&self) -> (m: VoxelModel)
        ensures
            m.same_as(self),
    {
        let mut data: Vec<ColorIndex> = Vec::new();
        let mut i: usize = 0;
        while i < self.data.len()
            invariant
                i <= self.data.len(),
                data@ == self.data@.subrange(0, i as int),
            decreases self.data.len() - i,
        {
            data.push(self.data[i]);
            i = i + 1;
        }
        assert(self.data@.subrange(0, self.data.len() as int) == self.data@);
        VoxelModel { size_x: self.size_x, size_y: self.size_y, size_z: self.size_z, data }
    }

    /// Same size and same cells.
    pub fn same_content(&self, other: &VoxelModel) -> (b: bool)
        ensures
            b == self.same_as(other),
    {
        if self.size_x != other.size_x || self.size_y != other.size_y || self.size_z != other.size_z
            || self.data.len() != other.data.len() {
            return false;
        }
        let mut i: usize = 0;
        while i < self.data.len()
            invariant
                i <= self.data.len(),
                self.data.len() == other.data.len(),
                self.data@.subrange(0, i as int) == other.data@.subrange(0, i as int),
            decreases self.data.len() - i,
        {
            if self.data[i] != other.data[i] {
                assert(self.data@[i as int] != other.data@[i as int]);
                return false;
            }
            assert(self.data@.subrange(0, i + 1) == self.data@.subrange(0, i as int).push(self.data@[i as int]));
            assert(other.data@.subrange(0, i + 1) == other.data@.subrange(0, i as int).push(other.data@[i as int]));
            i = i + 1;
        }
        assert(self.data@.subrange(0, i as int) == self.data@);
        assert(other.data@.subrange(0, i as int) == other.data@);
        true
    }

    /// Empty every cell.
    pub fn clear(&mut self)
        requires
            old(self).wf(),
        ensures
            final(self).wf(),
            final(self).sx() == old(self).sx(),
            final(self).sy() == old(self).sy(),
            final(self).sz() == old(self).sz(),
            forall|x: int, y: int, z: int| #[trigger] final(self).voxel(x, y, z) == 0,
    {
        let len = self.data.len();
        let mut i: usize = 0;
        while i < len
            invariant
                self.data.len() == len,
                i <= len,
                self.size_x == old(self).size_x,
                self.size_y == old(self).size_y,
                self.size_z == old(self).size_z,
                old(self).wf(),
                len == old(self).data.len(),
                forall|j: int| 0 <= j < i ==> self.data@[j] == 0,
            decreases len - i,
        {
            self.data.set(i, 0);
            i = i + 1;
        }
        proof {
            assert forall|x: int, y: int, z: int| #[trigger] self.voxel(x, y, z) == 0 by {
                if self.contains(x, y, z) {
                    self.lemma_voxel_cells(x, y, z);
                }
            }
        }
    }
}

/// Every well-formed model is 1..=256 voxels long on each axis and holds
/// exactly one cell per position.
pub proof fn lemma_model_size(m: &VoxelModel)
    requires
        m.wf(),
    ensures
        1 <= m.sx() <= 256,
        1 <= m.sy() <= 256,
        1 <= m.sz() <= 256,
        m.cells().len() == m.sx() * m.sy() * m.sz(),
        m.cells().len() <= 256 * 256 * 256,
{
    let (x, y, z) = (m.sx() as int, m.sy() as int, m.sz() as int);
    assert(x * (y * z) == x * y * z && x * y * z <= 256 * 256 * 256) by (nonlinear_arith)
        requires
            1 <= x <= 256,
            1 <= y <= 256,
            1 <= z <= 256,
    ;
}

proof fn lemma_occupied_upto(sx: int, sy: int, sz: int, cells: Seq<u8>, n: int)
    requires
        1 <= sx <= 256,
        1 <= sy <= 256,
        1 <= sz <= 256,
        cells.len() == volume(sx, sy, sz),
        0 <= n <= cells.len(),
    ensures
        forall|k: int|
            0 <= k < occupied_upto(sx, sy, cells, n).len() ==> {
                let e = #[trigger] occupied_upto(sx, sy, cells, n)[k];
                &&& in_volume(sx, sy, sz, e.0 as int, e.1 as int, e.2 as int)
                &&& cell_index(sx, sy, e.0 as int, e.1 as int, e.2 as int) < n
                &&& e.3 != 0
                &&& cells[cell_index(sx, sy, e.0 as int, e.1 as int, e.2 as int)] == e.3
            },
        forall|x: int, y: int, z: int|
            in_volume(sx, sy, sz, x, y, z) && cell_index(sx, sy, x, y, z) < n && cells[cell_index(
                sx,
                sy,
                x,
                y,
                z,
            )] != 0 ==> #[trigger] occupied_upto(sx, sy, cells, n).contains(
                (x as u8, y as u8, z as u8, cells[cell_index(sx, sy, x, y, z)]),
            ),
    decreases n,
{
    if n > 0 {
        let i = n - 1;
        lemma_occupied_upto(sx, sy, sz, cells, i);
        let prev = occupied_upto(sx, sy, cells, i);
        let cur = occupied_upto(sx, sy, cells, n);
        lemma_decode_index(sx, sy, sz, i);
        let cx = cell_x(sx, sy, i);
        let cy = cell_y(sx, sy, i);
        let cz = cell_z(sx, sy, i);
        assert(cx as u8 == cx && cy as u8 == cy && cz as u8 == cz);
        let tail: Seq<(u8, u8, u8, u8)> = if cells[i] != 0 {
            seq![(cx as u8, cy as u8, cz as u8, cells[i])]
        } else {
            Seq::empty()
        };
        assert(cur == prev + tail);
        assert forall|k: int| 0 <= k < cur.len() implies {
            let e = #[trigger] cur[k];
            &&& in_volume(sx, sy, sz, e.0 as int, e.1 as int, e.2 as int)
            &&& cell_index(sx, sy, e.0 as int, e.1 as int, e.2 as int) < n
            &&& e.3 != 0
            &&& cells[cell_index(sx, sy, e.0 as int, e.1 as int, e.2 as int)] == e.3
        } by {
            if k < prev.len() {
                assert(cur[k] == prev[k]);
            } else {
                assert(cur[k] == tail[k - prev.len()]);
            }
        }
        assert forall|x: int, y: int, z: int|
            in_volume(sx, sy, sz, x, y, z) && cell_index(sx, sy, x, y, z) < n && cells[cell_index(
                sx,
                sy,
                x,
                y,
                z,
            )] != 0 implies #[trigger] cur.contains(
            (x as u8, y as u8, z as u8, cells[cell_index(sx, sy, x, y, z)]),
        ) by {
            let e = (x as u8, y as u8, z as u8, cells[cell_index(sx, sy, x, y, z)]);
            lemma_index_decodes(sx, sy, sz, x, y, z);
            if cell_index(sx, sy, x, y, z) < i {
                assert(prev.contains(e));
                let k = choose|k: int| 0 <= k < prev.len() && prev[k] == e;
                assert(cur[k] == prev[k]);
            } else {
                assert(cell_index(sx, sy, x, y, z) == i);
                assert(x == cx && y == cy && z == cz);
                assert(cur[prev.len() as int] == e);
            }
        }
    }
}

/// The occupied voxels of a model are exactly its non-empty voxels, each
/// with its color.
pub proof fn lemma_occupied_exact(m: &VoxelModel)
    requires
        m.wf(),
    ensures
        forall|k: int|
            0 <= k < m.occupied().len() ==> {
                let e = #[trigger] m.occupied()[k];
                &&& e.3 != 0
                &&& m.voxel(e.0 as int, e.1 as int, e.2 as int) == e.3
            },
        forall|x: int, y: int, z: int|
            #[trigger] m.voxel(x, y, z) != 0 ==> m.occupied().contains(
                (x as u8, y as u8, z as u8, m.voxel(x, y, z)),
            ),
{
    let (sx, sy, sz) = (m.sx() as int, m.sy() as int, m.sz() as int);
    lemma_occupied_upto(sx, sy, sz, m.cells(), m.cells().len() as int);
    assert forall|x: int, y: int, z: int| #[trigger] m.voxel(x, y, z) != 0 implies m.occupied().contains(
        (x as u8, y as u8, z as u8, m.voxel(x, y, z)),
    ) by {
        lemma_index_decodes(sx, sy, sz, x, y, z);
    }
}

} // verus!
