//! MagicaVoxel `LAYR` world-editor layers.

use vstd::prelude::*;
use crate::text::{decimal, decimal_string, push_char};

verus! {

/// MagicaVoxel ships 8 layers (ids 0..=7).
pub const DEFAULT_LAYER_COUNT: i32 = 8;

/// Display swatch of a new layer: one of eight defaults for ids 0..=7, gray otherwise.
pub open spec fn default_layer_color(id: int) -> [u8; 3] {
    if id == 0 {
        [220, 224, 230]
    } else if id == 1 {
        [220, 90, 90]
    } else if id == 2 {
        [90, 200, 110]
    } else if id == 3 {
        [80, 140, 230]
    } else if id == 4 {
        [230, 200, 70]
    } else if id == 5 {
        [80, 200, 210]
    } else if id == 6 {
        [200, 110, 210]
    } else if id == 7 {
        [160, 160, 170]
    } else {
        [180, 180, 180]
    }
}

pub fn layer_color(id: i32) -> (c: [u8; 3])
    ensures
        c == default_layer_color(id as int),
{
    if id == 0 {
        [220, 224, 230]
    } else if id == 1 {
        [220, 90, 90]
    } else if id == 2 {
        [90, 200, 110]
    } else if id == 3 {
        [80, 140, 230]
    } else if id == 4 {
        [230, 200, 70]
    } else if id == 5 {
        [80, 200, 210]
    } else if id == 6 {
        [200, 110, 210]
    } else if id == 7 {
        [160, 160, 170]
    } else {
        [180, 180, 180]
    }
}

#[derive(Debug)]
pub struct Layer {
    pub id: i32,
    pub name: String,
    pub hidden: bool,
    /// Display swatch (`_color` as `r g b`).
    pub color: [u8; 3],
}

/// The name shown for a layer: its own, or `Layer <id>` when it has none.
pub open spec fn layer_display_name(l: Layer) -> Seq<char> {
    if l.name@.len() == 0 {
        seq!['L', 'a', 'y', 'e', 'r', ' '] + decimal(l.id as int)
    } else {
        l.name@
    }
}

impl Layer {
    /// A visible layer named after its id, with the default swatch.
    pub fn new(id: i32) -> (l: Self)
        ensures
            l.id == id,
            l.name@ == decimal(id as int),
            !l.hidden,
            l.color == default_layer_color(id as int),
    {
        Layer { id, name: decimal_string(id as i64), hidden: false, color: layer_color(id) }
    }

    pub fn display_name(&self) -> (s: String)
        ensures
            s@ == layer_display_name(*self),
    {
        if self.name.as_str().is_empty() {
            let mut s = String::new();
            push_char(&mut s, 'L');
            push_char(&mut s, 'a');
            push_char(&mut s, 'y');
            push_char(&mut s, 'e');
            push_char(&mut s, 'r');
            push_char(&mut s, ' ');
            let digits = decimal_string(self.id as i64);
            let mut i: usize = 0;
            let cs = crate::text::chars_of(digits.as_str());
            while i < cs.len()
                invariant
                    i <= cs.len(),
                    cs@ == decimal(self.id as int),
                    s@ == seq!['L', 'a', 'y', 'e', 'r', ' '] + cs@.subrange(0, i as int),
                decreases cs.len() - i,
            {
                push_char(&mut s, cs[i]);
                assert(cs@.subrange(0, i + 1) == cs@.subrange(0, i as int).push(cs@[i as int]));
                i = i + 1;
            }
            assert(cs@.subrange(0, cs.len() as int) == cs@);
            s
        } else {
            self.name.clone()
        }
    }

    /// A copy with equal fields.
    pub fn copy(&self) -> (l: Self)
        ensures
            l == *self,
    {
        Layer { id: self.id, name: self.name.clone(), hidden: self.hidden, color: self.color }
    }
}

/// A layer as plain values.
pub struct LayerView {
    pub id: i32,
    pub name: Seq<char>,
    pub hidden: bool,
    pub color: [u8; 3],
}

pub open spec fn layer_view(l: Layer) -> LayerView {
    LayerView { id: l.id, name: l.name@, hidden: l.hidden, color: l.color }
}

pub open spec fn layer_views(s: Seq<Layer>) -> Seq<LayerView> {
    s.map_values(|l: Layer| layer_view(l))
}

/// Whether two layer lists hold the same layers.
pub fn same_layers(a: &Vec<Layer>, b: &Vec<Layer>) -> (r: bool)
    ensures
        r == (layer_views(a@) == layer_views(b@)),
{
    if a.len() != b.len() {
        proof {
            assert(layer_views(a@).len() != layer_views(b@).len());
        }
        return false;
    }
    let mut i: usize = 0;
    while i < a.len()
        invariant
            i <= a.len(),
            a.len() == b.len(),
            forall|k: int| 0 <= k < i ==> #[trigger] layer_views(a@)[k] == layer_views(b@)[k],
        decreases a.len() - i,
    {
        let x = &a[i];
        let y = &b[i];
        if x.id != y.id || x.name != y.name || x.hidden != y.hidden || x.color[0] != y.color[0]
            || x.color[1] != y.color[1] || x.color[2] != y.color[2] {
            proof {
                assert(layer_views(a@)[i as int] != layer_views(b@)[i as int]) by {
                    if x.color[0] != y.color[0] || x.color[1] != y.color[1] || x.color[2] != y.color[2] {
                        assert(x.color@ != y.color@);
                    }
                }
            }
            return false;
        }
        proof {
            assert(x.color =~= y.color);
        }
        i = i + 1;
    }
    assert(layer_views(a@) =~= layer_views(b@));
    true
}

/// A layer with the name and hidden flag given (where given).
pub open spec fn updated_layer(l: Layer, name: Option<String>, hidden: Option<bool>) -> Layer {
    Layer {
        name: match name {
            Some(n) => n,
            None => l.name,
        },
        hidden: match hidden {
            Some(h) => h,
            None => l.hidden,
        },
        ..l
    }
}

/// The layers with id `v`, in order.
pub open spec fn with_id(s: Seq<Layer>, v: i32) -> Seq<Layer>
    decreases s.len(),
{
    if s.len() == 0 {
        Seq::empty()
    } else {
        with_id(s.drop_last(), v) + if s.last().id == v {
            seq![s.last()]
        } else {
            Seq::empty()
        }
    }
}

pub proof fn lemma_with_id_concat(a: Seq<Layer>, b: Seq<Layer>, v: i32)
    ensures
        with_id(a + b, v) == with_id(a, v) + with_id(b, v),
    decreases b.len(),
{
    if b.len() == 0 {
        assert(a + b == a);
        assert(with_id(a, v) + Seq::<Layer>::empty() == with_id(a, v));
    } else {
        lemma_with_id_concat(a, b.drop_last(), v);
        assert((a + b).drop_last() == a + b.drop_last());
        assert((a + b).last() == b.last());
    }
}

proof fn lemma_with_id_single(x: Layer, v: i32)
    ensures
        with_id(seq![x], v) == if x.id == v {
            seq![x]
        } else {
            Seq::<Layer>::empty()
        },
{
    assert(seq![x].drop_last() == Seq::<Layer>::empty());
    assert(with_id(Seq::<Layer>::empty(), v) == Seq::<Layer>::empty());
    assert(Seq::<Layer>::empty() + seq![x] == seq![x]);
    assert(Seq::<Layer>::empty() + Seq::<Layer>::empty() == Seq::<Layer>::empty());
}

/// Ordered by id, ties kept in the order given: per id, the same
/// layers in the same order, and ids never decrease.
pub open spec fn stable_sorted_by_id(result: Seq<Layer>, input: Seq<Layer>) -> bool {
    &&& forall|i: int, j: int| 0 <= i < j < result.len() ==> #[trigger] result[i].id <= #[trigger] result[j].id
    &&& forall|v: i32| #[trigger] with_id(result, v) == with_id(input, v)
}

/// Index of the first layer with id `v`.
pub open spec fn first_with_id(s: Seq<Layer>, v: i32) -> Option<int> {
    if exists|k: int| 0 <= k < s.len() && s[k].id == v {
        Some(choose|k: int| 0 <= k < s.len() && s[k].id == v && forall|j: int| 0 <= j < k ==> s[j].id != v)
    } else {
        None
    }
}

/// Layers 0..=7, each visible, named after its id, with its default swatch.
pub open spec fn is_standard_eight(s: Seq<Layer>) -> bool {
    &&& s.len() == 8
    &&& forall|i: int|
        0 <= i < 8 ==> #[trigger] s[i].id == i && s[i].name@ == decimal(i) && !s[i].hidden
            && s[i].color == default_layer_color(i)
}

#[derive(Debug)]
pub struct LayerTable {
    pub layers: Vec<Layer>,
}

impl LayerTable {
    /// Layers 0..=7 with default names and swatches.
    pub fn standard_eight() -> (t: Self)
        ensures
            is_standard_eight(t.layers@),
    {
        let mut layers: Vec<Layer> = Vec::new();
        let mut id: i32 = 0;
        while id < DEFAULT_LAYER_COUNT
            invariant
                0 <= id <= 8,
                layers@.len() == id,
                forall|i: int|
                    0 <= i < id ==> #[trigger] layers@[i].id == i && layers@[i].name@ == decimal(i)
                        && !layers@[i].hidden && layers@[i].color == default_layer_color(i),
            decreases 8 - id,
        {
            layers.push(Layer::new(id));
            id = id + 1;
        }
        LayerTable { layers }
    }

    /// The given layers ordered by id (stable); the standard eight when none are given.
    pub fn from_layers(layers: Vec<Layer>) -> (t: Self)
        ensures
            layers@.len() == 0 ==> is_standard_eight(t.layers@),
            layers@.len() > 0 ==> stable_sorted_by_id(t.layers@, layers@),
    {
        if layers.len() == 0 {
            return Self::standard_eight();
        }
        let ghost input = layers@;
        let mut rest = layers;
        let mut sorted: Vec<Layer> = Vec::new();
        let mut taken: usize = 0;
        let total = rest.len();
        // take layers from the back of `rest` in reverse, inserting each
        // before every later-taken equal id: take from the front instead
        // by reversing first.
        let mut rev: Vec<Layer> = Vec::new();
        while rest.len() > 0
            invariant
                rev@.len() + rest@.len() == total,
                total == input.len(),
                forall|k: int| 0 <= k < rev@.len() ==> #[trigger] rev@[k] == input[total - 1 - k],
                rest@ == input.subrange(0, rest@.len() as int),
            decreases rest.len(),
        {
            let l = rest.pop().unwrap();
            rev.push(l);
        }
        while rev.len() > 0
            invariant
                taken + rev@.len() == total,
                total == input.len(),
                forall|k: int| 0 <= k < rev@.len() ==> #[trigger] rev@[k] == input[total - 1 - k],
                stable_sorted_by_id(sorted@, input.subrange(0, taken as int)),
                sorted@.len() == taken,
            decreases rev.len(),
        {
            let x = rev.pop().unwrap();
            assert(x == input[taken as int]);
            let mut p: usize = 0;
            while p < sorted.len() && sorted[p].id <= x.id
                invariant
                    p <= sorted.len(),
                    forall|j: int| 0 <= j < p ==> #[trigger] sorted@[j].id <= x.id,
                decreases sorted.len() - p,
            {
                p = p + 1;
            }
            let ghost old_sorted = sorted@;
            proof {
                // everything from p on has a larger id
                assert forall|j: int| p <= j < old_sorted.len() implies #[trigger] old_sorted[j].id > x.id by {
                    assert(old_sorted[p as int].id > x.id);
                    if j > p {
                        assert(old_sorted[p as int].id <= old_sorted[j].id);
                    }
                }
            }
            sorted.insert(p, x);
            proof {
                let a = old_sorted.subrange(0, p as int);
                let b = old_sorted.subrange(p as int, old_sorted.len() as int);
                assert(sorted@ == a + seq![x] + b);
                assert(old_sorted == a + b);
                assert(input.subrange(0, taken + 1) == input.subrange(0, taken as int) + seq![x]);
                assert forall|v: i32| #[trigger] with_id(sorted@, v) == with_id(input.subrange(0, taken + 1), v) by {
                    lemma_with_id_concat(a + seq![x], b, v);
                    lemma_with_id_concat(a, seq![x], v);
                    lemma_with_id_concat(a, b, v);
                    lemma_with_id_concat(input.subrange(0, taken as int), seq![x], v);
                    lemma_with_id_single(x, v);
                    if x.id == v {
                        lemma_with_id_none(b, v);
                    }
                }
            }
            taken = taken + 1;
        }
        assert(input.subrange(0, taken as int) == input);
        LayerTable { layers: sorted }
    }

    pub fn get(&self, id: i32) -> (r: Option<&Layer>)
        ensures
            match first_with_id(self.layers@, id) {
                Some(k) => r == Some(&self.layers@[k]),
                None => r is None,
            },
    {
        match self.position(id) {
            Some(k) => Some(&self.layers[k]),
            None => None,
        }
    }

    /// The first layer with this id, for editing.
    pub fn get_mut(&mut self, id: i32) -> (r: Option<&mut Layer>)
        ensures
            match first_with_id(old(self).layers@, id) {
                Some(k) => r matches Some(l) && *l == old(self).layers@[k] && final(self).layers@
                    == old(self).layers@.update(k, *final(l)),
                None => r is None && final(self).layers@ == old(self).layers@,
            },
    {
        match self.position(id) {
            Some(k) => Some(&mut self.layers[k]),
            None => None,
        }
    }

    fn position(&self, id: i32) -> (r: Option<usize>)
        ensures
            first_with_id(self.layers@, id) == match r {
                Some(k) => Some(k as int),
                None => None::<int>,
            },
            r matches Some(k) ==> k < self.layers@.len() && self.layers@[k as int].id == id,
    {
        let mut i: usize = 0;
        while i < self.layers.len()
            invariant
                i <= self.layers.len(),
                forall|j: int| 0 <= j < i ==> #[trigger] self.layers@[j].id != id,
            decreases self.layers.len() - i,
        {
            if self.layers[i].id == id {
                proof {
                    let s = self.layers@;
                    assert(s[i as int].id == id);
                    let k = choose|k: int| 0 <= k < s.len() && s[k].id == id && forall|j: int| 0 <= j < k ==> s[j].id != id;
                    assert(k == i) by {
                        if k < i {
                            assert(s[k].id != id);
                        } else if k > i {
                            assert(s[i as int].id != id);
                        }
                    }
                }
                return Some(i);
            }
            i = i + 1;
        }
        None
    }

    /// Root transforms use `layer_id == -1` (not hidden by a layer).
    pub fn is_hidden(&self, id: i32) -> (b: bool)
        ensures
            b == (id >= 0 && match first_with_id(self.layers@, id) {
                Some(k) => self.layers@[k].hidden,
                None => false,
            }),
    {
        if id < 0 {
            return false;
        }
        match self.get(id) {
            Some(l) => l.hidden,
            None => false,
        }
    }

    /// Hide or show the first layer with this id; false when there is none.
    pub fn set_hidden(&mut self, id: i32, hidden: bool) -> (ok: bool)
        ensures
            ok == first_with_id(old(self).layers@, id) is Some,
            match first_with_id(old(self).layers@, id) {
                Some(k) => final(self).layers@ == old(self).layers@.update(
                    k,
                    Layer { hidden, ..old(self).layers@[k] },
                ),
                None => final(self).layers@ == old(self).layers@,
            },
    {
        match self.position(id) {
            Some(k) => {
                let l = &self.layers[k];
                let nl = Layer { id: l.id, name: l.name.clone(), hidden, color: l.color };
                self.layers.set(k, nl);
                true
            },
            None => false,
        }
    }

    /// Rename the first layer with this id; false when there is none.
    pub fn rename(&mut self, id: i32, name: String) -> (ok: bool)
        ensures
            ok == first_with_id(old(self).layers@, id) is Some,
            match first_with_id(old(self).layers@, id) {
                Some(k) => final(self).layers@ == old(self).layers@.update(
                    k,
                    Layer { name, ..old(self).layers@[k] },
                ),
                None => final(self).layers@ == old(self).layers@,
            },
    {
        match self.position(id) {
            Some(k) => {
                let l = &self.layers[k];
                let nl = Layer { id: l.id, name, hidden: l.hidden, color: l.color };
                self.layers.set(k, nl);
                true
            },
            None => false,
        }
    }

    /// Rename and/or hide the first layer with this id, as given; false when
    /// there is none.
    pub fn update(&mut self, id: i32, name: Option<String>, hidden: Option<bool>) -> (ok: bool)
        ensures
            ok == first_with_id(old(self).layers@, id) is Some,
            match first_with_id(old(self).layers@, id) {
                Some(k) => final(self).layers@ == old(self).layers@.update(
                    k,
                    updated_layer(old(self).layers@[k], name, hidden),
                ),
                None => final(self).layers@ == old(self).layers@,
            },
    {
        match self.position(id) {
            Some(k) => {
                let l = &self.layers[k];
                let new_name = match name {
                    Some(n) => n,
                    None => l.name.clone(),
                };
                let new_hidden = match hidden {
                    Some(h) => h,
                    None => l.hidden,
                };
                let nl = Layer { id: l.id, name: new_name, hidden: new_hidden, color: l.color };
                self.layers.set(k, nl);
                true
            },
            None => false,
        }
    }

    /// A copy with equal layers.
    pub fn copy(&self) -> (t: Self)
        ensures
            t.layers@ == self.layers@,
    {
        let mut layers: Vec<Layer> = Vec::new();
        let mut i: usize = 0;
        while i < self.layers.len()
            invariant
                i <= self.layers.len(),
                layers@ == self.layers@.subrange(0, i as int),
            decreases self.layers.len() - i,
        {
            layers.push(self.layers[i].copy());
            i = i + 1;
        }
        assert(self.layers@.subrange(0, i as int) == self.layers@);
        LayerTable { layers }
    }
}

proof fn lemma_with_id_none(b: Seq<Layer>, v: i32)
    requires
        forall|j: int| 0 <= j < b.len() ==> #[trigger] b[j].id > v,
    ensures
        with_id(b, v) == Seq::<Layer>::empty(),
    decreases b.len(),
{
    if b.len() > 0 {
        lemma_with_id_none(b.drop_last(), v);
    }
}

impl Default for LayerTable {
    fn default() -> (t: Self)
        ensures
            is_standard_eight(t.layers@),
    {
        Self::standard_eight()
    }
}

} // verus!
