//! MagicaVoxel `MATL` materials: one property dictionary per palette index
//! (1..=255), and the material type names of the format.

use vstd::prelude::*;
use crate::text::{chars_of, is_whitespace, is_ws};
use crate::CoreError;

verus! {

/// MagicaVoxel 0.99 material types (`_type` in `MATL`).
#[derive(Debug, Clone, Copy, PartialEq, Eq, Structural, Hash)]
pub enum MaterialKind {
    Diffuse,
    Metal,
    Glass,
    Emit,
    Blend,
    Media,
}

/// The characters left after dropping leading whitespace.
pub open spec fn trim_start_ws(s: Seq<char>) -> Seq<char>
    decreases s.len(),
{
    if s.len() > 0 && is_ws(s[0]) {
        trim_start_ws(s.drop_first())
    } else {
        s
    }
}

/// The characters left after dropping trailing whitespace.
pub open spec fn trim_end_ws(s: Seq<char>) -> Seq<char>
    decreases s.len(),
{
    if s.len() > 0 && is_ws(s.last()) {
        trim_end_ws(s.drop_last())
    } else {
        s
    }
}

/// The characters left after dropping every leading `_`.
pub open spec fn trim_underscores(s: Seq<char>) -> Seq<char>
    decreases s.len(),
{
    if s.len() > 0 && s[0] == '_' {
        trim_underscores(s.drop_first())
    } else {
        s
    }
}

/// `char::to_ascii_lowercase`.
pub open spec fn ascii_lower(c: char) -> char {
    if 'A' <= c <= 'Z' {
        ((c as u32) + 32) as char
    } else {
        c
    }
}

/// The word a `_type` value names: trimmed, without leading `_`, in lower case.
pub open spec fn type_word(s: Seq<char>) -> Seq<char> {
    trim_underscores(trim_start_ws(trim_end_ws(s))).map_values(|c: char| ascii_lower(c))
}

/// The material type a `_type` value selects; unknown names are diffuse.
pub open spec fn kind_of_word(w: Seq<char>) -> MaterialKind {
    if w == seq!['m', 'e', 't', 'a', 'l'] {
        MaterialKind::Metal
    } else if w == seq!['g', 'l', 'a', 's', 's'] {
        MaterialKind::Glass
    } else if w == seq!['e', 'm', 'i', 't'] || w == seq!['e', 'm', 'i', 's', 's', 'i', 'v', 'e'] {
        MaterialKind::Emit
    } else if w == seq!['b', 'l', 'e', 'n', 'd'] {
        MaterialKind::Blend
    } else if w == seq!['m', 'e', 'd', 'i', 'a'] {
        MaterialKind::Media
    } else {
        MaterialKind::Diffuse
    }
}

/// The `_type` value written for a material type.
pub open spec fn vox_name(k: MaterialKind) -> Seq<char> {
    match k {
        MaterialKind::Diffuse => seq!['_', 'd', 'i', 'f', 'f', 'u', 's', 'e'],
        MaterialKind::Metal => seq!['_', 'm', 'e', 't', 'a', 'l'],
        MaterialKind::Glass => seq!['_', 'g', 'l', 'a', 's', 's'],
        MaterialKind::Emit => seq!['_', 'e', 'm', 'i', 't'],
        MaterialKind::Blend => seq!['_', 'b', 'l', 'e', 'n', 'd'],
        MaterialKind::Media => seq!['_', 'm', 'e', 'd', 'i', 'a'],
    }
}

/// The display name of a material type.
pub open spec fn label_name(k: MaterialKind) -> Seq<char> {
    match k {
        MaterialKind::Diffuse => seq!['D', 'i', 'f', 'f', 'u', 's', 'e'],
        MaterialKind::Metal => seq!['M', 'e', 't', 'a', 'l'],
        MaterialKind::Glass => seq!['G', 'l', 'a', 's', 's'],
        MaterialKind::Emit => seq!['E', 'm', 'i', 't'],
        MaterialKind::Blend => seq!['B', 'l', 'e', 'n', 'd'],
        MaterialKind::Media => seq!['M', 'e', 'd', 'i', 'a'],
    }
}

proof fn lemma_type_word_plain(s: Seq<char>)
    requires
        s.len() > 0,
        !is_ws(s[0]),
        !is_ws(s.last()),
        s[0] != '_',
    ensures
        type_word(s) == s.map_values(|c: char| ascii_lower(c)),
{
    assert(trim_end_ws(s) == s);
    assert(trim_start_ws(s) == s);
    assert(trim_underscores(s) == s);
}

proof fn lemma_type_word_underscore(s: Seq<char>)
    requires
        s.len() > 1,
        s[0] == '_',
        s[1] != '_',
        !is_ws(s.last()),
    ensures
        type_word(s) == s.drop_first().map_values(|c: char| ascii_lower(c)),
{
    assert(trim_end_ws(s) == s);
    assert(trim_start_ws(s) == s);
    assert(s.drop_first()[0] == s[1]);
    assert(trim_underscores(s.drop_first()) == s.drop_first());
    assert(trim_underscores(s) == s.drop_first());
}

/// Reading back the `_type` value or the display name of a material type
/// gives that type again.
pub proof fn lemma_kind_names(k: MaterialKind)
    ensures
        kind_of_word(type_word(vox_name(k))) == k,
        kind_of_word(type_word(label_name(k))) == k,
{
    lemma_type_word_underscore(vox_name(k));
    lemma_type_word_plain(label_name(k));
    match k {
        MaterialKind::Diffuse => {
            assert(vox_name(k).drop_first().map_values(|c: char| ascii_lower(c)) =~= seq!['d', 'i', 'f', 'f', 'u', 's', 'e']);
            assert(label_name(k).map_values(|c: char| ascii_lower(c)) =~= seq!['d', 'i', 'f', 'f', 'u', 's', 'e']);
        },
        MaterialKind::Metal => {
            assert(vox_name(k).drop_first().map_values(|c: char| ascii_lower(c)) =~= seq!['m', 'e', 't', 'a', 'l']);
            assert(label_name(k).map_values(|c: char| ascii_lower(c)) =~= seq!['m', 'e', 't', 'a', 'l']);
        },
        MaterialKind::Glass => {
            assert(vox_name(k).drop_first().map_values(|c: char| ascii_lower(c)) =~= seq!['g', 'l', 'a', 's', 's']);
            assert(label_name(k).map_values(|c: char| ascii_lower(c)) =~= seq!['g', 'l', 'a', 's', 's']);
        },
        MaterialKind::Emit => {
            assert(vox_name(k).drop_first().map_values(|c: char| ascii_lower(c)) =~= seq!['e', 'm', 'i', 't']);
            assert(label_name(k).map_values(|c: char| ascii_lower(c)) =~= seq!['e', 'm', 'i', 't']);
        },
        MaterialKind::Blend => {
            assert(vox_name(k).drop_first().map_values(|c: char| ascii_lower(c)) =~= seq!['b', 'l', 'e', 'n', 'd']);
            assert(label_name(k).map_values(|c: char| ascii_lower(c)) =~= seq!['b', 'l', 'e', 'n', 'd']);
        },
        MaterialKind::Media => {
            assert(vox_name(k).drop_first().map_values(|c: char| ascii_lower(c)) =~= seq!['m', 'e', 'd', 'i', 'a']);
            assert(label_name(k).map_values(|c: char| ascii_lower(c)) =~= seq!['m', 'e', 'd', 'i', 'a']);
        },
    }
}

/// First index at or after `i` that is not whitespace (or `end`).
fn skip_ws_forward(cs: &Vec<char>, i: usize, end: usize) -> (r: usize)
    requires
        i <= end <= cs.len(),
    ensures
        i <= r <= end,
        r < end ==> !is_ws(cs@[r as int]),
        forall|k: int| i <= k < r ==> is_ws(#[trigger] cs@[k]),
{
    let mut j = i;
    while j < end && is_whitespace(cs[j])
        invariant
            i <= j <= end,
            end <= cs.len(),
            forall|k: int| i <= k < j ==> is_ws(#[trigger] cs@[k]),
        decreases end - j,
    {
        j = j + 1;
    }
    j
}

proof fn lemma_trim_start(s: Seq<char>, k: int)
    requires
        0 <= k <= s.len(),
        forall|j: int| 0 <= j < k ==> is_ws(#[trigger] s[j]),
        k < s.len() ==> !is_ws(s[k]),
    ensures
        trim_start_ws(s) == s.subrange(k, s.len() as int),
    decreases k,
{
    if k > 0 {
        assert forall|j: int| 0 <= j < k - 1 implies is_ws(#[trigger] s.drop_first()[j]) by {
            assert(is_ws(s[j + 1]));
        }
        lemma_trim_start(s.drop_first(), k - 1);
        assert(s.drop_first().subrange(k - 1, s.len() - 1) == s.subrange(k, s.len() as int));
    } else {
        assert(s.subrange(0, s.len() as int) == s);
    }
}

proof fn lemma_trim_end(s: Seq<char>, e: int)
    requires
        0 <= e <= s.len(),
        forall|j: int| e <= j < s.len() ==> is_ws(#[trigger] s[j]),
        e > 0 ==> !is_ws(s[e - 1]),
    ensures
        trim_end_ws(s) == s.subrange(0, e),
    decreases s.len() - e,
{
    if e < s.len() {
        assert forall|j: int| e <= j < s.len() - 1 implies is_ws(#[trigger] s.drop_last()[j]) by {
            assert(is_ws(s[j]));
        }
        lemma_trim_end(s.drop_last(), e);
        assert(s.drop_last().subrange(0, e) == s.subrange(0, e));
    } else {
        assert(s.subrange(0, s.len() as int) == s);
    }
}

proof fn lemma_trim_underscores(s: Seq<char>, k: int)
    requires
        0 <= k <= s.len(),
        forall|j: int| 0 <= j < k ==> #[trigger] s[j] == '_',
        k < s.len() ==> s[k] != '_',
    ensures
        trim_underscores(s) == s.subrange(k, s.len() as int),
    decreases k,
{
    if k > 0 {
        assert forall|j: int| 0 <= j < k - 1 implies #[trigger] s.drop_first()[j] == '_' by {
            assert(s[j + 1] == '_');
        }
        lemma_trim_underscores(s.drop_first(), k - 1);
        assert(s.drop_first().subrange(k - 1, s.len() - 1) == s.subrange(k, s.len() as int));
    } else {
        assert(s.subrange(0, s.len() as int) == s);
    }
}

fn lower_char(c: char) -> (r: char)
    ensures
        r == ascii_lower(c),
{
    if 'A' <= c && c <= 'Z' {
        let u = (c as u32) + 32;
        proof {
            assert('a' <= ((c as u32) + 32) as char <= 'z');
        }
        if u == 97 { 'a' } else if u == 98 { 'b' } else if u == 99 { 'c' } else if u == 100 { 'd' }
        else if u == 101 { 'e' } else if u == 102 { 'f' } else if u == 103 { 'g' } else if u == 104 { 'h' }
        else if u == 105 { 'i' } else if u == 106 { 'j' } else if u == 107 { 'k' } else if u == 108 { 'l' }
        else if u == 109 { 'm' } else if u == 110 { 'n' } else if u == 111 { 'o' } else if u == 112 { 'p' }
        else if u == 113 { 'q' } else if u == 114 { 'r' } else if u == 115 { 's' } else if u == 116 { 't' }
        else if u == 117 { 'u' } else if u == 118 { 'v' } else if u == 119 { 'w' } else if u == 120 { 'x' }
        else if u == 121 { 'y' } else { 'z' }
    } else {
        c
    }
}

/// The characters of `cs` from index `i` on.
fn slice_from(cs: &Vec<char>, i: usize) -> (r: Vec<char>)
    requires
        i <= cs.len(),
    ensures
        r@ == cs@.subrange(i as int, cs@.len() as int),
{
    let mut r: Vec<char> = Vec::new();
    let mut k = i;
    while k < cs.len()
        invariant
            i <= k <= cs.len(),
            r@ == cs@.subrange(i as int, k as int),
        decreases cs.len() - k,
    {
        r.push(cs[k]);
        k = k + 1;
    }
    r
}

/// `cs` in ASCII lower case (`str::to_ascii_lowercase`).
pub fn lower_chars(cs: &[char]) -> (w: Vec<char>)
    ensures
        w@ == cs@.map_values(|c: char| ascii_lower(c)),
{
    let mut w: Vec<char> = Vec::new();
    let mut i: usize = 0;
    while i < cs.len()
        invariant
            i <= cs.len(),
            w@ == cs@.subrange(0, i as int).map_values(|c: char| ascii_lower(c)),
        decreases cs.len() - i,
    {
        let c = lower_char(cs[i]);
        w.push(c);
        assert(cs@.subrange(0, i + 1).map_values(|c: char| ascii_lower(c)) == cs@.subrange(
            0,
            i as int,
        ).map_values(|c: char| ascii_lower(c)).push(ascii_lower(cs@[i as int])));
        i = i + 1;
    }
    assert(cs@.subrange(0, cs@.len() as int) == cs@);
    w
}

/// The characters of `s` without surrounding whitespace (`str::trim`).
pub fn trim_chars(s: &str) -> (w: Vec<char>)
    ensures
        w@ == trim_start_ws(trim_end_ws(s@)),
{
    let cs = chars_of(s);
    let n = cs.len();
    let mut e = n;
    while e > 0 && is_whitespace(cs[e - 1])
        invariant
            e <= n,
            n == cs.len(),
            forall|j: int| e <= j < n ==> is_ws(#[trigger] cs@[j]),
        decreases e,
    {
        e = e - 1;
    }
    proof {
        lemma_trim_end(cs@, e as int);
    }
    let b = skip_ws_forward(&cs, 0, e);
    proof {
        let t = cs@.subrange(0, e as int);
        assert forall|j: int| 0 <= j < b implies is_ws(#[trigger] t[j]) by {
            assert(is_ws(cs@[j]));
        }
        lemma_trim_start(t, b as int);
        assert(t.subrange(b as int, e as int) == cs@.subrange(b as int, e as int));
    }
    let mut w: Vec<char> = Vec::new();
    let mut i = b;
    while i < e
        invariant
            b <= i <= e,
            e <= cs.len(),
            w@ == cs@.subrange(b as int, i as int),
        decreases e - i,
    {
        w.push(cs[i]);
        i = i + 1;
    }
    w
}

/// The word a `_type` value names (see `type_word`).
pub fn type_word_of(s: &str) -> (w: Vec<char>)
    ensures
        w@ == type_word(s@),
{
        let t = trim_chars(s);
        let mut u: usize = 0;
        while u < t.len() && t[u] == '_'
            invariant
                u <= t.len(),
                forall|j: int| 0 <= j < u ==> #[trigger] t@[j] == '_',
            decreases t.len() - u,
        {
            u = u + 1;
        }
        proof {
            lemma_trim_underscores(t@, u as int);
        }
        let w = lower_chars(slice_from(&t, u).as_slice());
        w
}

/// Whether the characters are those of `b`.
pub fn same_chars(a: &Vec<char>, b: &[char]) -> (r: bool)
    ensures
        r == (a@ == b@),
{
    if a.len() != b.len() {
        return false;
    }
    let mut i: usize = 0;
    while i < a.len()
        invariant
            i <= a.len(),
            a.len() == b.len(),
            forall|k: int| 0 <= k < i ==> a@[k] == b@[k],
        decreases a.len() - i,
    {
        if a[i] != b[i] {
            return false;
        }
        i = i + 1;
    }
    assert(a@ == b@);
    true
}

impl MaterialKind {
    /// The type named by a `_type` value: surrounding whitespace and leading
    /// underscores are ignored, case does not matter; unknown names are diffuse.
    pub fn from_vox(s: &str) -> (k: Self)
        ensures
            k == kind_of_word(type_word(s@)),
    {
        let w = type_word_of(s);
        if same_chars(&w, &['m', 'e', 't', 'a', 'l']) {
            MaterialKind::Metal
        } else if same_chars(&w, &['g', 'l', 'a', 's', 's']) {
            MaterialKind::Glass
        } else if same_chars(&w, &['e', 'm', 'i', 't']) || same_chars(
            &w,
            &['e', 'm', 'i', 's', 's', 'i', 'v', 'e'],
        ) {
            MaterialKind::Emit
        } else if same_chars(&w, &['b', 'l', 'e', 'n', 'd']) {
            MaterialKind::Blend
        } else if same_chars(&w, &['m', 'e', 'd', 'i', 'a']) {
            MaterialKind::Media
        } else {
            MaterialKind::Diffuse
        }
    }

    /// The `_type` value written for this type.
    pub fn to_vox(self) -> (s: &'static str)
        ensures
            s@ == vox_name(self),
    {
        match self {
            MaterialKind::Diffuse => {
                proof {
                    reveal_strlit("_diffuse");
                    assert("_diffuse"@ =~= vox_name(self));
                }
                "_diffuse"
            },
            MaterialKind::Metal => {
                proof {
                    reveal_strlit("_metal");
                    assert("_metal"@ =~= vox_name(self));
                }
                "_metal"
            },
            MaterialKind::Glass => {
                proof {
                    reveal_strlit("_glass");
                    assert("_glass"@ =~= vox_name(self));
                }
                "_glass"
            },
            MaterialKind::Emit => {
                proof {
                    reveal_strlit("_emit");
                    assert("_emit"@ =~= vox_name(self));
                }
                "_emit"
            },
            MaterialKind::Blend => {
                proof {
                    reveal_strlit("_blend");
                    assert("_blend"@ =~= vox_name(self));
                }
                "_blend"
            },
            MaterialKind::Media => {
                proof {
                    reveal_strlit("_media");
                    assert("_media"@ =~= vox_name(self));
                }
                "_media"
            },
        }
    }

    /// The display name of this type.
    pub fn label(self) -> (s: &'static str)
        ensures
            s@ == label_name(self),
    {
        match self {
            MaterialKind::Diffuse => {
                proof {
                    reveal_strlit("Diffuse");
                    assert("Diffuse"@ =~= label_name(self));
                }
                "Diffuse"
            },
            MaterialKind::Metal => {
                proof {
                    reveal_strlit("Metal");
                    assert("Metal"@ =~= label_name(self));
                }
                "Metal"
            },
            MaterialKind::Glass => {
                proof {
                    reveal_strlit("Glass");
                    assert("Glass"@ =~= label_name(self));
                }
                "Glass"
            },
            MaterialKind::Emit => {
                proof {
                    reveal_strlit("Emit");
                    assert("Emit"@ =~= label_name(self));
                }
                "Emit"
            },
            MaterialKind::Blend => {
                proof {
                    reveal_strlit("Blend");
                    assert("Blend"@ =~= label_name(self));
                }
                "Blend"
            },
            MaterialKind::Media => {
                proof {
                    reveal_strlit("Media");
                    assert("Media"@ =~= label_name(self));
                }
                "Media"
            },
        }
    }

    /// Glass and media are drawn after opaque voxels, blended.
    pub fn is_transparent(self) -> (b: bool)
        ensures
            b == (self == MaterialKind::Glass || self == MaterialKind::Media),
    {
        match self {
            MaterialKind::Glass | MaterialKind::Media => true,
            _ => false,
        }
    }
}

impl Default for MaterialKind {
    fn default() -> (k: Self)
        ensures
            k == MaterialKind::Diffuse,
    {
        MaterialKind::Diffuse
    }
}

/// A `MATL` property dictionary as plain text pairs, in file order.
pub type MaterialProps = Vec<(String, String)>;

/// The text of a property dictionary.
pub open spec fn props_view(p: Seq<(String, String)>) -> Seq<(Seq<char>, Seq<char>)> {
    p.map_values(|kv: (String, String)| (kv.0@, kv.1@))
}

/// A copy of a property dictionary.
pub fn copy_props(p: &Vec<(String, String)>) -> (r: Vec<(String, String)>)
    ensures
        props_view(r@) == props_view(p@),
{
    let mut out: Vec<(String, String)> = Vec::new();
    let mut i: usize = 0;
    while i < p.len()
        invariant
            i <= p.len(),
            props_view(out@) == props_view(p@.subrange(0, i as int)),
        decreases p.len() - i,
    {
        let (k, v) = &p[i];
        out.push((k.clone(), v.clone()));
        assert(props_view(p@.subrange(0, i + 1)) == props_view(p@.subrange(0, i as int)).push(
            (p@[i as int].0@, p@[i as int].1@),
        ));
        i = i + 1;
    }
    assert(p@.subrange(0, p.len() as int) == p@);
    out
}

/// Whether two property dictionaries hold the same text.
pub fn same_props(a: &Vec<(String, String)>, b: &Vec<(String, String)>) -> (r: bool)
    ensures
        r == (props_view(a@) == props_view(b@)),
{
    if a.len() != b.len() {
        proof {
            assert(props_view(a@).len() != props_view(b@).len());
        }
        return false;
    }
    let mut i: usize = 0;
    while i < a.len()
        invariant
            i <= a.len(),
            a.len() == b.len(),
            forall|k: int| 0 <= k < i ==> #[trigger] props_view(a@)[k] == props_view(b@)[k],
        decreases a.len() - i,
    {
        if a[i].0 != b[i].0 || a[i].1 != b[i].1 {
            proof {
                assert(props_view(a@)[i as int] != props_view(b@)[i as int]);
            }
            return false;
        }
        i = i + 1;
    }
    assert(props_view(a@) =~= props_view(b@));
    true
}

fn same_bytes(a: &Vec<u8>, b: &Vec<u8>) -> (r: bool)
    ensures
        r == (a@ == b@),
{
    if a.len() != b.len() {
        return false;
    }
    let mut i: usize = 0;
    while i < a.len()
        invariant
            i <= a.len(),
            a.len() == b.len(),
            forall|k: int| 0 <= k < i ==> a@[k] == b@[k],
        decreases a.len() - i,
    {
        if a[i] != b[i] {
            return false;
        }
        i = i + 1;
    }
    assert(a@ =~= b@);
    true
}

/// Every slot holding the default material.
pub open spec fn default_slots() -> Seq<Seq<(Seq<char>, Seq<char>)>> {
    Seq::new(256, |i: int| Seq::<(Seq<char>, Seq<char>)>::empty())
}

/// The indices `1..n` (ascending) whose slot holds a non-default material.
pub open spec fn non_default_upto(slots: Seq<Seq<(Seq<char>, Seq<char>)>>, n: int) -> Seq<u8>
    decreases n,
{
    if n <= 1 {
        Seq::empty()
    } else {
        non_default_upto(slots, n - 1) + if slots[n - 1].len() > 0 {
            seq![(n - 1) as u8]
        } else {
            Seq::empty()
        }
    }
}

/// 256 material slots, one per palette index; index 0 is unused. An empty
/// dictionary is the default material. Legacy `MATT` chunks, whose numbers
/// are floating point, are kept as raw chunk contents for the application
/// to decode into the slots that are still default.
#[derive(Debug)]
pub struct MaterialTable {
    slots: Vec<Vec<(String, String)>>,
    legacy: Vec<(u8, Vec<u8>)>,
}

impl MaterialTable {
    /// The dictionaries of the 256 slots.
    pub closed spec fn slots(&self) -> Seq<Seq<(Seq<char>, Seq<char>)>> {
        self.slots@.map_values(|p: Vec<(String, String)>| props_view(p@))
    }

    /// The pending legacy `MATT` chunks: palette index and raw content.
    pub closed spec fn legacy(&self) -> Seq<(u8, Seq<u8>)> {
        self.legacy@.map_values(|e: (u8, Vec<u8>)| (e.0, e.1@))
    }

    pub open spec fn wf(&self) -> bool {
        self.slots().len() == 256
    }

    /// Record a legacy `MATT` chunk for index `id`.
    pub fn add_legacy(&mut self, id: u8, content: Vec<u8>)
        ensures
            final(self).slots() == old(self).slots(),
            final(self).legacy() == old(self).legacy().push((id, content@)),
    {
        self.legacy.push((id, content));
        proof {
            assert(self.legacy() =~= old(self).legacy().push((id, content@)));
        }
    }

    /// The pending legacy `MATT` chunks.
    pub fn legacy_chunks(&self) -> (v: &Vec<(u8, Vec<u8>)>)
        ensures
            v@.map_values(|e: (u8, Vec<u8>)| (e.0, e.1@)) == self.legacy(),
    {
        &self.legacy
    }

    /// Drop the pending legacy `MATT` chunks.
    pub fn clear_legacy(&mut self)
        ensures
            final(self).slots() == old(self).slots(),
            final(self).legacy().len() == 0,
    {
        self.legacy = Vec::new();
        proof {
            assert(self.legacy() =~= Seq::<(u8, Seq<u8>)>::empty());
        }
    }

    /// A table where every slot holds the default material.
    pub fn new() -> (t: Self)
        ensures
            t.wf(),
            t.slots() == default_slots(),
            forall|i: int| 0 <= i < 256 ==> #[trigger] t.slots()[i].len() == 0,
            t.legacy().len() == 0,
    {
        let mut slots: Vec<Vec<(String, String)>> = Vec::new();
        let mut i: usize = 0;
        while i < 256
            invariant
                i <= 256,
                slots@.len() == i,
                forall|k: int| 0 <= k < i ==> (#[trigger] slots@[k])@.len() == 0,
            decreases 256 - i,
        {
            slots.push(Vec::new());
            i = i + 1;
        }
        let t = MaterialTable { slots, legacy: Vec::new() };
        proof {
            assert forall|k: int| 0 <= k < 256 implies #[trigger] t.slots()[k] =~= default_slots()[k] by {
                assert(t.slots()[k].len() == 0);
            }
            assert(t.slots() =~= default_slots());
        }
        t
    }

    /// The dictionary of a slot.
    pub fn get(&self, index: u8) -> (p: &Vec<(String, String)>)
        requires
            self.wf(),
        ensures
            props_view(p@) == self.slots()[index as int],
    {
        &self.slots[index as usize]
    }

    /// Set the material of index 1..=255; index 0 is refused.
    /// The property dictionary of palette index `index`, for editing.
    pub fn get_mut(&mut self, index: u8) -> (p: &mut Vec<(String, String)>)
        requires
            old(self).wf(),
        ensures
            props_view(p@) == old(self).slots()[index as int],
            final(self).slots() == old(self).slots().update(index as int, props_view(final(p)@)),
            final(self).legacy() == old(self).legacy(),
    {
        &mut self.slots[index as usize]
    }

    pub fn set(&mut self, index: u8, props: Vec<(String, String)>) -> (r: Result<(), CoreError>)
        requires
            old(self).wf(),
        ensures
            final(self).wf(),
            final(self).legacy() == old(self).legacy(),
            index == 0 ==> r == Err::<(), CoreError>(CoreError::InvalidColor(0)) && final(self).slots()
                == old(self).slots(),
            index != 0 ==> r is Ok && final(self).slots() == old(self).slots().update(
                index as int,
                props_view(props@),
            ),
    {
        if index == 0 {
            return Err(CoreError::InvalidColor(0));
        }
        self.slots.set(index as usize, props);
        proof {
            assert(self.slots() =~= old(self).slots().update(index as int, props_view(props@)));
        }
        Ok(())
    }

    /// Set the material of a `MATL`/`MATT` id; ids outside 1..=255 are ignored.
    pub fn insert_id(&mut self, id: i32, props: Vec<(String, String)>)
        requires
            old(self).wf(),
        ensures
            final(self).wf(),
            final(self).legacy() == old(self).legacy(),
            1 <= id <= 255 ==> final(self).slots() == old(self).slots().update(
                id as int,
                props_view(props@),
            ),
            !(1 <= id <= 255) ==> final(self).slots() == old(self).slots(),
    {
        if 1 <= id && id <= 255 {
            self.slots.set(id as usize, props);
            proof {
                assert(self.slots() =~= old(self).slots().update(id as int, props_view(props@)));
            }
        }
    }

    /// The indices 1..=255 whose material is not the default, ascending.
    pub fn iter_non_default(&self) -> (v: Vec<u8>)
        requires
            self.wf(),
        ensures
            v@ == non_default_upto(self.slots(), 256),
    {
        let mut out: Vec<u8> = Vec::new();
        let mut i: usize = 1;
        while i <= 255
            invariant
                1 <= i <= 256,
                self.wf(),
                out@ == non_default_upto(self.slots(), i as int),
            decreases 256 - i,
        {
            if self.slots[i].len() > 0 {
                out.push(i as u8);
            }
            i = i + 1;
        }
        out
    }

    /// Whether two tables hold the same slots and legacy chunks.
    pub fn same(&self, other: &MaterialTable) -> (b: bool)
        ensures
            b == (self.slots() == other.slots() && self.legacy() == other.legacy()),
    {
        if self.slots.len() != other.slots.len() {
            proof {
                assert(self.slots().len() != other.slots().len());
            }
            return false;
        }
        let mut i: usize = 0;
        while i < self.slots.len()
            invariant
                i <= self.slots.len(),
                self.slots.len() == other.slots.len(),
                forall|k: int| 0 <= k < i ==> #[trigger] self.slots()[k] == other.slots()[k],
            decreases self.slots.len() - i,
        {
            if !same_props(&self.slots[i], &other.slots[i]) {
                proof {
                    assert(self.slots()[i as int] != other.slots()[i as int]);
                }
                return false;
            }
            i = i + 1;
        }
        assert(self.slots() =~= other.slots());
        if self.legacy.len() != other.legacy.len() {
            proof {
                assert(self.legacy().len() != other.legacy().len());
            }
            return false;
        }
        let mut j: usize = 0;
        while j < self.legacy.len()
            invariant
                j <= self.legacy.len(),
                self.legacy.len() == other.legacy.len(),
                forall|k: int| 0 <= k < j ==> #[trigger] self.legacy()[k] == other.legacy()[k],
            decreases self.legacy.len() - j,
        {
            if self.legacy[j].0 != other.legacy[j].0 || !same_bytes(&self.legacy[j].1, &other.legacy[j].1) {
                proof {
                    assert(self.legacy()[j as int] != other.legacy()[j as int]);
                }
                return false;
            }
            j = j + 1;
        }
        assert(self.legacy() =~= other.legacy());
        true
    }

    /// A copy with the same slots.
    pub fn copy(&self) -> (t: Self)
        ensures
            t.slots() == self.slots(),
            t.legacy() == self.legacy(),
    {
        let mut slots: Vec<Vec<(String, String)>> = Vec::new();
        let mut i: usize = 0;
        while i < self.slots.len()
            invariant
                i <= self.slots.len(),
                slots@.len() == i,
                forall|k: int| 0 <= k < i ==> props_view((#[trigger] slots@[k])@) == props_view(
                    self.slots@[k]@,
                ),
            decreases self.slots.len() - i,
        {
            slots.push(copy_props(&self.slots[i]));
            i = i + 1;
        }
        let mut legacy: Vec<(u8, Vec<u8>)> = Vec::new();
        let mut j: usize = 0;
        while j < self.legacy.len()
            invariant
                j <= self.legacy.len(),
                legacy@.len() == j,
                forall|k: int| 0 <= k < j ==> (#[trigger] legacy@[k]).0 == self.legacy@[k].0
                    && legacy@[k].1@ == self.legacy@[k].1@,
            decreases self.legacy.len() - j,
        {
            let (id, bytes) = &self.legacy[j];
            let mut b: Vec<u8> = Vec::new();
            let mut k: usize = 0;
            while k < bytes.len()
                invariant
                    k <= bytes.len(),
                    b@ == bytes@.subrange(0, k as int),
                decreases bytes.len() - k,
            {
                b.push(bytes[k]);
                k = k + 1;
            }
            assert(bytes@.subrange(0, bytes.len() as int) == bytes@);
            legacy.push((*id, b));
            j = j + 1;
        }
        let t = MaterialTable { slots, legacy };
        assert(t.slots() =~= self.slots());
        assert(t.legacy() =~= self.legacy());
        t
    }
}

impl Default for MaterialTable {
    fn default() -> (t: Self)
        ensures
            t.wf(),
            forall|i: int| 0 <= i < 256 ==> #[trigger] t.slots()[i].len() == 0,
            t.legacy().len() == 0,
    {
        MaterialTable::new()
    }
}

} // verus!
