//! Which voxel faces a mesh of a model shows: a face of an occupied voxel is
//! drawn when the neighbour across it is empty (or outside the volume).

use vstd::prelude::*;
use crate::model::{VoxelModel, lemma_occupied_exact};

verus! {

/// The neighbour offset across face `f`: +x, -x, +y, -y, +z, -z.
pub open spec fn face_dir(f: int) -> (int, int, int) {
    if f == 0 {
        (1, 0, 0)
    } else if f == 1 {
        (-1, 0, 0)
    } else if f == 2 {
        (0, 1, 0)
    } else if f == 3 {
        (0, -1, 0)
    } else if f == 4 {
        (0, 0, 1)
    } else {
        (0, 0, -1)
    }
}

/// Face `f` of voxel `v = (x, y, z, color)` as `(x, y, z, f, color)`, when it shows.
pub open spec fn face_if(m: VoxelModel, v: (u8, u8, u8, u8), f: int) -> Seq<(u8, u8, u8, u8, u8)> {
    let d = face_dir(f);
    if m.voxel(v.0 + d.0, v.1 + d.1, v.2 + d.2) == 0 {
        seq![(v.0, v.1, v.2, f as u8, v.3)]
    } else {
        Seq::empty()
    }
}

/// The faces of voxel `v` that show, among faces `0..n`.
pub open spec fn voxel_faces_upto(m: VoxelModel, v: (u8, u8, u8, u8), n: int) -> Seq<(u8, u8, u8, u8, u8)>
    decreases n,
{
    if n <= 0 {
        Seq::empty()
    } else {
        voxel_faces_upto(m, v, n - 1) + face_if(m, v, n - 1)
    }
}

/// The faces that show of the voxels `occ`, voxel by voxel.
pub open spec fn faces_of(m: VoxelModel, occ: Seq<(u8, u8, u8, u8)>) -> Seq<(u8, u8, u8, u8, u8)>
    decreases occ.len(),
{
    if occ.len() == 0 {
        Seq::empty()
    } else {
        faces_of(m, occ.drop_last()) + voxel_faces_upto(m, occ.last(), 6)
    }
}

fn face_offset(f: u8) -> (d: (i32, i32, i32))
    requires
        f < 6,
    ensures
        (d.0 as int, d.1 as int, d.2 as int) == face_dir(f as int),
{
    if f == 0 {
        (1, 0, 0)
    } else if f == 1 {
        (-1, 0, 0)
    } else if f == 2 {
        (0, 1, 0)
    } else if f == 3 {
        (0, -1, 0)
    } else if f == 4 {
        (0, 0, 1)
    } else {
        (0, 0, -1)
    }
}

/// The faces of the model that show, as `(x, y, z, face, color)` in the order
/// of the occupied voxels (`z`, then `y`, then `x`) and faces `+x, -x, +y, -y, +z, -z`.
pub fn visible_faces(model: &VoxelModel) -> (v: Vec<(u8, u8, u8, u8, u8)>)
    requires
        model.wf(),
    ensures
        v@ == faces_of(*model, model.occupied()),
{
    let occ = model.iter_occupied();
    let mut out: Vec<(u8, u8, u8, u8, u8)> = Vec::new();
    let mut i: usize = 0;
    while i < occ.len()
        invariant
            i <= occ.len(),
            model.wf(),
            occ@ == model.occupied(),
            out@ == faces_of(*model, occ@.take(i as int)),
        decreases occ.len() - i,
    {
        let (x, y, z, c) = occ[i];
        let ghost before = out@;
        let mut f: u8 = 0;
        while f < 6
            invariant
                f <= 6,
                model.wf(),
                out@ == before + voxel_faces_upto(*model, (x, y, z, c), f as int),
            decreases 6 - f,
        {
            let (dx, dy, dz) = face_offset(f);
            if model.get_or_empty(x as i32 + dx, y as i32 + dy, z as i32 + dz) == 0 {
                out.push((x, y, z, f, c));
            }
            f = f + 1;
        }
        assert(occ@.take(i + 1).drop_last() =~= occ@.take(i as int));
        assert(occ@.take(i + 1).last() == (x, y, z, c));
        i = i + 1;
    }
    assert(occ@.take(i as int) =~= occ@);
    out
}

/// The voxel across face `f` (`+x, -x, +y, -y, +z, -z`) of position
/// `(x, y, z)` is empty (or outside the volume).
pub open spec fn across_is_empty(m: VoxelModel, x: int, y: int, z: int, f: int) -> bool {
    ||| f == 0 && m.voxel(x + 1, y, z) == 0
    ||| f == 1 && m.voxel(x - 1, y, z) == 0
    ||| f == 2 && m.voxel(x, y + 1, z) == 0
    ||| f == 3 && m.voxel(x, y - 1, z) == 0
    ||| f == 4 && m.voxel(x, y, z + 1) == 0
    ||| f == 5 && m.voxel(x, y, z - 1) == 0
}

proof fn lemma_voxel_faces(m: VoxelModel, v: (u8, u8, u8, u8), n: int)
    requires
        0 <= n <= 6,
    ensures
        forall|k: int|
            0 <= k < voxel_faces_upto(m, v, n).len() ==> {
                let e = #[trigger] voxel_faces_upto(m, v, n)[k];
                &&& e.0 == v.0 && e.1 == v.1 && e.2 == v.2 && e.4 == v.3
                &&& e.3 < n
                &&& across_is_empty(m, v.0 as int, v.1 as int, v.2 as int, e.3 as int)
            },
        forall|f: int|
            0 <= f < n && across_is_empty(m, v.0 as int, v.1 as int, v.2 as int, f) ==> voxel_faces_upto(
                m,
                v,
                n,
            ).contains((v.0, v.1, v.2, f as u8, v.3)),
    decreases n,
{
    if n > 0 {
        lemma_voxel_faces(m, v, n - 1);
        let a = voxel_faces_upto(m, v, n - 1);
        let b = face_if(m, v, n - 1);
        let s = a + b;
        assert forall|k: int| 0 <= k < s.len() implies {
            let e = #[trigger] s[k];
            &&& e.0 == v.0 && e.1 == v.1 && e.2 == v.2 && e.4 == v.3
            &&& e.3 < n
            &&& across_is_empty(m, v.0 as int, v.1 as int, v.2 as int, e.3 as int)
        } by {
            if k >= a.len() {
                assert(s[k] == b[k - a.len()]);
            } else {
                assert(s[k] == a[k]);
            }
        }
        assert forall|f: int|
            0 <= f < n && across_is_empty(m, v.0 as int, v.1 as int, v.2 as int, f) implies s.contains(
            (v.0, v.1, v.2, f as u8, v.3),
        ) by {
            if f < n - 1 {
                let k = choose|k: int| 0 <= k < a.len() && a[k] == (v.0, v.1, v.2, f as u8, v.3);
                assert(s[k] == a[k]);
            } else {
                assert(b.len() == 1);
                assert(s[a.len() as int] == b[0]);
            }
        }
    }
}

/// The faces of voxels `occ` that a mesh shows are exactly these: face `f`
/// of a listed voxel, with its color, when the voxel one step along that
/// face's outward normal is empty. So a face shared by two occupied voxels is
/// never listed, and every face towards an empty neighbour is.
pub proof fn lemma_faces_exact(m: VoxelModel, occ: Seq<(u8, u8, u8, u8)>)
    ensures
        forall|k: int|
            0 <= k < faces_of(m, occ).len() ==> {
                let e = #[trigger] faces_of(m, occ)[k];
                &&& e.3 < 6
                &&& across_is_empty(m, e.0 as int, e.1 as int, e.2 as int, e.3 as int)
                &&& exists|j: int|
                    0 <= j < occ.len() && occ[j].0 == e.0 && occ[j].1 == e.1 && occ[j].2 == e.2
                        && #[trigger] occ[j].3 == e.4
            },
        forall|j: int, f: int|
            0 <= j < occ.len() && 0 <= f < 6 && across_is_empty(
                m,
                occ[j].0 as int,
                occ[j].1 as int,
                occ[j].2 as int,
                f,
            ) ==> #[trigger] faces_of(m, occ).contains((occ[j].0, occ[j].1, occ[j].2, f as u8, occ[j].3)),
    decreases occ.len(),
{
    if occ.len() > 0 {
        let p = occ.drop_last();
        lemma_faces_exact(m, p);
        let v = occ.last();
        lemma_voxel_faces(m, v, 6);
        let a = faces_of(m, p);
        let b = voxel_faces_upto(m, v, 6);
        let s = a + b;
        assert(faces_of(m, occ) == s);
        assert forall|k: int| 0 <= k < s.len() implies {
            let e = #[trigger] s[k];
            &&& e.3 < 6
            &&& across_is_empty(m, e.0 as int, e.1 as int, e.2 as int, e.3 as int)
            &&& exists|j: int|
                0 <= j < occ.len() && occ[j].0 == e.0 && occ[j].1 == e.1 && occ[j].2 == e.2
                    && #[trigger] occ[j].3 == e.4
        } by {
            if k >= a.len() {
                assert(s[k] == b[k - a.len()]);
                assert(occ[occ.len() - 1] == v);
            } else {
                assert(s[k] == a[k]);
                let e = a[k];
                let j = choose|j: int|
                    0 <= j < p.len() && p[j].0 == e.0 && p[j].1 == e.1 && p[j].2 == e.2
                        && #[trigger] p[j].3 == e.4;
                assert(occ[j] == p[j]);
            }
        }
        assert forall|j: int, f: int|
            0 <= j < occ.len() && 0 <= f < 6 && across_is_empty(
                m,
                occ[j].0 as int,
                occ[j].1 as int,
                occ[j].2 as int,
                f,
            ) implies #[trigger] s.contains((occ[j].0, occ[j].1, occ[j].2, f as u8, occ[j].3)) by {
            let x = (occ[j].0, occ[j].1, occ[j].2, f as u8, occ[j].3);
            if j < p.len() {
                assert(occ[j] == p[j]);
                assert(a.contains(x));
                let k = choose|k: int| 0 <= k < a.len() && a[k] == x;
                assert(s[k] == a[k]);
            } else {
                assert(occ[j] == v);
                assert(b.contains(x));
                let k = choose|k: int| 0 <= k < b.len() && b[k] == x;
                assert(s[a.len() + k] == b[k]);
            }
        }
    }
}

/// The faces `visible_faces` lists for a model are exactly the faces of its
/// non-empty voxels, with their colors, whose neighbour one step along the
/// face's outward normal is empty or outside the volume.
pub proof fn lemma_visible_faces_exact(m: VoxelModel)
    requires
        m.wf(),
    ensures
        forall|k: int|
            0 <= k < faces_of(m, m.occupied()).len() ==> {
                let e = #[trigger] faces_of(m, m.occupied())[k];
                &&& e.3 < 6
                &&& e.4 != 0
                &&& m.voxel(e.0 as int, e.1 as int, e.2 as int) == e.4
                &&& across_is_empty(m, e.0 as int, e.1 as int, e.2 as int, e.3 as int)
            },
        forall|x: int, y: int, z: int, f: int|
            #![trigger m.voxel(x, y, z), across_is_empty(m, x, y, z, f)]
            m.voxel(x, y, z) != 0 && 0 <= f < 6 && across_is_empty(m, x, y, z, f) ==> faces_of(
                m,
                m.occupied(),
            ).contains((x as u8, y as u8, z as u8, f as u8, m.voxel(x, y, z))),
{
    let occ = m.occupied();
    lemma_occupied_exact(&m);
    lemma_faces_exact(m, occ);
    let fs = faces_of(m, occ);
    assert forall|k: int| 0 <= k < fs.len() implies {
        let e = #[trigger] fs[k];
        &&& e.3 < 6
        &&& e.4 != 0
        &&& m.voxel(e.0 as int, e.1 as int, e.2 as int) == e.4
        &&& across_is_empty(m, e.0 as int, e.1 as int, e.2 as int, e.3 as int)
    } by {
        let e = fs[k];
        let j = choose|j: int|
            0 <= j < occ.len() && occ[j].0 == e.0 && occ[j].1 == e.1 && occ[j].2 == e.2
                && #[trigger] occ[j].3 == e.4;
        assert(occ[j].3 != 0 && m.voxel(occ[j].0 as int, occ[j].1 as int, occ[j].2 as int) == occ[j].3);
    }
    assert forall|x: int, y: int, z: int, f: int|
        #![trigger m.voxel(x, y, z), across_is_empty(m, x, y, z, f)]
        m.voxel(x, y, z) != 0 && 0 <= f < 6 && across_is_empty(m, x, y, z, f) implies fs.contains(
        (x as u8, y as u8, z as u8, f as u8, m.voxel(x, y, z)),
    ) by {
        let c = m.voxel(x, y, z);
        assert(occ.contains((x as u8, y as u8, z as u8, c)));
        let j = choose|j: int| 0 <= j < occ.len() && occ[j] == (x as u8, y as u8, z as u8, c);
        assert(m.contains(x, y, z));
        assert(x as u8 as int == x && y as u8 as int == y && z as u8 as int == z);
        assert(across_is_empty(m, occ[j].0 as int, occ[j].1 as int, occ[j].2 as int, f));
        assert(fs.contains((occ[j].0, occ[j].1, occ[j].2, f as u8, occ[j].3)));
    }
}

} // verus!
