//! The words the editing tools take: axis names, brush kinds, material types
//! and edit modes, and the messages for words they do not know.

use vstd::prelude::*;
use crate::brush::BrushKind;
use crate::material::{
    MaterialKind, ascii_lower, trim_start_ws, trim_end_ws, type_word, lower_chars, trim_chars,
    type_word_of, same_chars,
};
use crate::project::EditMode;
use crate::text::{chars_of, push_char};

verus! {

/// `s` in ASCII lower case.
pub open spec fn lower(s: Seq<char>) -> Seq<char> {
    s.map_values(|c: char| ascii_lower(c))
}

/// `s` without surrounding whitespace, in ASCII lower case.
pub open spec fn trim_lower(s: Seq<char>) -> Seq<char> {
    lower(trim_start_ws(trim_end_ws(s)))
}

/// The text `prefix`, `w`, `suffix`.
pub fn message(prefix: &str, w: &Vec<char>, suffix: &str) -> (m: String)
    ensures
        m@ == prefix@ + w@ + suffix@,
{
    let mut m = String::new();
    let p = chars_of(prefix);
    let q = chars_of(suffix);
    let mut i: usize = 0;
    while i < p.len()
        invariant
            i <= p.len(),
            m@ == p@.subrange(0, i as int),
        decreases p.len() - i,
    {
        push_char(&mut m, p[i]);
        i = i + 1;
    }
    let mut j: usize = 0;
    while j < w.len()
        invariant
            j <= w.len(),
            m@ == p@ + w@.subrange(0, j as int),
        decreases w.len() - j,
    {
        push_char(&mut m, w[j]);
        j = j + 1;
    }
    let mut k: usize = 0;
    while k < q.len()
        invariant
            k <= q.len(),
            m@ == p@ + w@ + q@.subrange(0, k as int),
        decreases q.len() - k,
    {
        push_char(&mut m, q[k]);
        k = k + 1;
    }
    assert(p@.subrange(0, p@.len() as int) == p@);
    assert(w@.subrange(0, w@.len() as int) == w@);
    assert(q@.subrange(0, q@.len() as int) == q@);
    m
}

/// The edge of a new object's model: 32 when none (0) is asked for.
pub fn object_size(size: u32) -> (r: u32)
    ensures
        r == if size == 0 {
            32
        } else {
            size
        },
{
    if size == 0 {
        32
    } else {
        size
    }
}

/// The axis a plane-normal word names.
pub open spec fn axis_of_word(w: Seq<char>) -> Option<char> {
    if w == seq!['x'] {
        Some('x')
    } else if w == seq!['y'] {
        Some('y')
    } else if w == seq!['z'] {
        Some('z')
    } else {
        None
    }
}

/// Parse `x|y|z` (surrounding whitespace and case ignored).
pub fn parse_axis(s: &str) -> (r: Result<char, String>)
    ensures
        match axis_of_word(trim_lower(s@)) {
            Some(a) => r == Ok::<char, String>(a),
            None => r matches Err(m) && m@ == "unknown axis '"@ + trim_lower(s@) + "' (expected x|y|z)"@,
        },
{
    let t = trim_chars(s);
    let w = lower_chars(t.as_slice());
    assert(w@ == trim_lower(s@));
    proof {
        assert(['x']@ =~= seq!['x']);
        assert(['y']@ =~= seq!['y']);
        assert(['z']@ =~= seq!['z']);
    }
    if same_chars(&w, &['x']) {
        Ok('x')
    } else if same_chars(&w, &['y']) {
        Ok('y')
    } else if same_chars(&w, &['z']) {
        Ok('z')
    } else {
        Err(message("unknown axis '", &w, "' (expected x|y|z)"))
    }
}

/// The brush kind a word names.
pub open spec fn brush_kind_of_word(w: Seq<char>) -> Option<BrushKind> {
    if w == seq!['v', 'o', 'x', 'e', 'l'] || w == seq!['v'] {
        Some(BrushKind::Voxel)
    } else if w == seq!['b', 'o', 'x'] || w == seq!['b'] || w == seq!['c', 'u', 'b', 'e'] {
        Some(BrushKind::Box)
    } else if w == seq!['s', 'p', 'h', 'e', 'r', 'e'] || w == seq!['s'] {
        Some(BrushKind::Sphere)
    } else if w == seq!['e', 'r', 'a', 's', 'e'] || w == seq!['e'] {
        Some(BrushKind::Erase)
    } else if w == seq!['f', 'l', 'o', 'o', 'd', '_', 'f', 'i', 'l', 'l'] || w == seq![
        'f',
        'l',
        'o',
        'o',
        'd',
    ] || w == seq!['f'] {
        Some(BrushKind::FloodFill)
    } else if w == seq!['l', 'i', 'n', 'e'] || w == seq!['l'] {
        Some(BrushKind::Line)
    } else if w == seq!['p', 'l', 'a', 'n', 'e'] || w == seq!['p'] {
        Some(BrushKind::Plane)
    } else if w == seq!['c', 'i', 'r', 'c', 'l', 'e'] || w == seq!['c'] {
        Some(BrushKind::Circle)
    } else {
        None
    }
}

/// Parse a brush kind (case ignored).
pub fn parse_brush_kind(s: &str) -> (r: Result<BrushKind, String>)
    ensures
        match brush_kind_of_word(lower(s@)) {
            Some(k) => r == Ok::<BrushKind, String>(k),
            None => r matches Err(m) && m@ == "unknown brush kind '"@ + lower(s@) + "'"@,
        },
{
    let cs = chars_of(s);
    let w = lower_chars(cs.as_slice());
    proof {
        assert(['b']@ =~= seq!['b']);
        assert(['b', 'o', 'x']@ =~= seq!['b', 'o', 'x']);
        assert(['c']@ =~= seq!['c']);
        assert(['c', 'i', 'r', 'c', 'l', 'e']@ =~= seq!['c', 'i', 'r', 'c', 'l', 'e']);
        assert(['c', 'u', 'b', 'e']@ =~= seq!['c', 'u', 'b', 'e']);
        assert(['e']@ =~= seq!['e']);
        assert(['e', 'r', 'a', 's', 'e']@ =~= seq!['e', 'r', 'a', 's', 'e']);
        assert(['f']@ =~= seq!['f']);
        assert(['f', 'l', 'o', 'o', 'd']@ =~= seq!['f', 'l', 'o', 'o', 'd']);
        assert(['f', 'l', 'o', 'o', 'd', '_', 'f', 'i', 'l', 'l']@ =~= seq!['f', 'l', 'o', 'o', 'd', '_', 'f', 'i', 'l', 'l']);
        assert(['l']@ =~= seq!['l']);
        assert(['l', 'i', 'n', 'e']@ =~= seq!['l', 'i', 'n', 'e']);
        assert(['p']@ =~= seq!['p']);
        assert(['p', 'l', 'a', 'n', 'e']@ =~= seq!['p', 'l', 'a', 'n', 'e']);
        assert(['s']@ =~= seq!['s']);
        assert(['s', 'p', 'h', 'e', 'r', 'e']@ =~= seq!['s', 'p', 'h', 'e', 'r', 'e']);
        assert(['v']@ =~= seq!['v']);
        assert(['v', 'o', 'x', 'e', 'l']@ =~= seq!['v', 'o', 'x', 'e', 'l']);
    }
    if same_chars(&w, &['v', 'o', 'x', 'e', 'l']) || same_chars(&w, &['v']) {
        Ok(BrushKind::Voxel)
    } else if same_chars(&w, &['b', 'o', 'x']) || same_chars(&w, &['b']) || same_chars(
        &w,
        &['c', 'u', 'b', 'e'],
    ) {
        Ok(BrushKind::Box)
    } else if same_chars(&w, &['s', 'p', 'h', 'e', 'r', 'e']) || same_chars(&w, &['s']) {
        Ok(BrushKind::Sphere)
    } else if same_chars(&w, &['e', 'r', 'a', 's', 'e']) || same_chars(&w, &['e']) {
        Ok(BrushKind::Erase)
    } else if same_chars(&w, &['f', 'l', 'o', 'o', 'd', '_', 'f', 'i', 'l', 'l']) || same_chars(
        &w,
        &['f', 'l', 'o', 'o', 'd'],
    ) || same_chars(&w, &['f']) {
        Ok(BrushKind::FloodFill)
    } else if same_chars(&w, &['l', 'i', 'n', 'e']) || same_chars(&w, &['l']) {
        Ok(BrushKind::Line)
    } else if same_chars(&w, &['p', 'l', 'a', 'n', 'e']) || same_chars(&w, &['p']) {
        Ok(BrushKind::Plane)
    } else if same_chars(&w, &['c', 'i', 'r', 'c', 'l', 'e']) || same_chars(&w, &['c']) {
        Ok(BrushKind::Circle)
    } else {
        Err(message("unknown brush kind '", &w, "'"))
    }
}

/// The material type a word names (the tool's own names; unknown words are refused).
pub open spec fn material_kind_of_word(w: Seq<char>) -> Option<MaterialKind> {
    if w == seq!['d', 'i', 'f', 'f', 'u', 's', 'e'] || w == seq!['d'] {
        Some(MaterialKind::Diffuse)
    } else if w == seq!['m', 'e', 't', 'a', 'l'] || w == seq!['m'] {
        Some(MaterialKind::Metal)
    } else if w == seq!['g', 'l', 'a', 's', 's'] || w == seq!['g'] {
        Some(MaterialKind::Glass)
    } else if w == seq!['e', 'm', 'i', 't'] || w == seq!['e', 'm', 'i', 's', 's', 'i', 'v', 'e'] || w
        == seq!['e'] {
        Some(MaterialKind::Emit)
    } else if w == seq!['b', 'l', 'e', 'n', 'd'] {
        Some(MaterialKind::Blend)
    } else if w == seq!['m', 'e', 'd', 'i', 'a'] {
        Some(MaterialKind::Media)
    } else {
        None
    }
}

/// Parse a material type (surrounding whitespace, leading `_` and case ignored).
pub fn parse_material_kind(s: &str) -> (r: Result<MaterialKind, String>)
    ensures
        match material_kind_of_word(type_word(s@)) {
            Some(k) => r == Ok::<MaterialKind, String>(k),
            None => r matches Err(m) && m@ == "unknown material type '"@ + type_word(s@) + "'"@,
        },
{
    let w = type_word_of(s);
    proof {
        assert(['b', 'l', 'e', 'n', 'd']@ =~= seq!['b', 'l', 'e', 'n', 'd']);
        assert(['d']@ =~= seq!['d']);
        assert(['d', 'i', 'f', 'f', 'u', 's', 'e']@ =~= seq!['d', 'i', 'f', 'f', 'u', 's', 'e']);
        assert(['e']@ =~= seq!['e']);
        assert(['e', 'm', 'i', 's', 's', 'i', 'v', 'e']@ =~= seq!['e', 'm', 'i', 's', 's', 'i', 'v', 'e']);
        assert(['e', 'm', 'i', 't']@ =~= seq!['e', 'm', 'i', 't']);
        assert(['g']@ =~= seq!['g']);
        assert(['g', 'l', 'a', 's', 's']@ =~= seq!['g', 'l', 'a', 's', 's']);
        assert(['m']@ =~= seq!['m']);
        assert(['m', 'e', 'd', 'i', 'a']@ =~= seq!['m', 'e', 'd', 'i', 'a']);
        assert(['m', 'e', 't', 'a', 'l']@ =~= seq!['m', 'e', 't', 'a', 'l']);
    }
    if same_chars(&w, &['d', 'i', 'f', 'f', 'u', 's', 'e']) || same_chars(&w, &['d']) {
        Ok(MaterialKind::Diffuse)
    } else if same_chars(&w, &['m', 'e', 't', 'a', 'l']) || same_chars(&w, &['m']) {
        Ok(MaterialKind::Metal)
    } else if same_chars(&w, &['g', 'l', 'a', 's', 's']) || same_chars(&w, &['g']) {
        Ok(MaterialKind::Glass)
    } else if same_chars(&w, &['e', 'm', 'i', 't']) || same_chars(
        &w,
        &['e', 'm', 'i', 's', 's', 'i', 'v', 'e'],
    ) || same_chars(&w, &['e']) {
        Ok(MaterialKind::Emit)
    } else if same_chars(&w, &['b', 'l', 'e', 'n', 'd']) {
        Ok(MaterialKind::Blend)
    } else if same_chars(&w, &['m', 'e', 'd', 'i', 'a']) {
        Ok(MaterialKind::Media)
    } else {
        Err(message("unknown material type '", &w, "'"))
    }
}

/// The edit mode a word names.
pub open spec fn edit_mode_of_word(w: Seq<char>) -> Option<EditMode> {
    if w == seq!['m', 'o', 'd', 'e', 'l'] || w == seq!['m'] {
        Some(EditMode::Model)
    } else if w == seq!['w', 'o', 'r', 'l', 'd'] || w == seq!['w'] {
        Some(EditMode::World)
    } else {
        None
    }
}

/// Parse `model|world` (case ignored).
pub fn parse_edit_mode(s: &str) -> (r: Result<EditMode, String>)
    ensures
        match edit_mode_of_word(lower(s@)) {
            Some(k) => r == Ok::<EditMode, String>(k),
            None => r matches Err(m) && m@ == "unknown mode '"@ + lower(s@) + "'"@,
        },
{
    let cs = chars_of(s);
    let w = lower_chars(cs.as_slice());
    proof {
        assert(['m']@ =~= seq!['m']);
        assert(['m', 'o', 'd', 'e', 'l']@ =~= seq!['m', 'o', 'd', 'e', 'l']);
        assert(['w']@ =~= seq!['w']);
        assert(['w', 'o', 'r', 'l', 'd']@ =~= seq!['w', 'o', 'r', 'l', 'd']);
    }
    if same_chars(&w, &['m', 'o', 'd', 'e', 'l']) || same_chars(&w, &['m']) {
        Ok(EditMode::Model)
    } else if same_chars(&w, &['w', 'o', 'r', 'l', 'd']) || same_chars(&w, &['w']) {
        Ok(EditMode::World)
    } else {
        Err(message("unknown mode '", &w, "'"))
    }
}

} // verus!
