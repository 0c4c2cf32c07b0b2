//! 256-entry RGBA palette; entry 0 belongs to the empty voxel.

use vstd::prelude::*;
use crate::CoreError;

verus! {

#[derive(Debug, Clone, Copy, PartialEq, Eq, Structural)]
pub struct ColorRgba {
    pub r: u8,
    pub g: u8,
    pub b: u8,
    pub a: u8,
}

impl ColorRgba {
    pub fn new(r: u8, g: u8, b: u8, a: u8) -> (c: Self)
        ensures
            c == (ColorRgba { r, g, b, a }),
    {
        ColorRgba { r, g, b, a }
    }

    /// An opaque color.
    pub fn rgb(r: u8, g: u8, b: u8) -> (c: Self)
        ensures
            c == (ColorRgba { r, g, b, a: 255 }),
    {
        ColorRgba { r, g, b, a: 255 }
    }
}

/// Channel value of level `l` (0..=5) of the 6-step color cube: 0xff, 0xcc, ..., 0x00.
pub open spec fn cube_level(l: int) -> u8 {
    (255 - 51 * l) as u8
}

/// Channel value of step `j` (0..=9) of the ramps: 0xee, 0xdd, 0xbb, 0xaa, ..., 0x11.
pub open spec fn ramp_level(j: int) -> u8 {
    (255 - 17 * (j + j / 2 + 1)) as u8
}

/// The MagicaVoxel default palette: entry 0 is transparent black; entries
/// 1..=215 walk the 6x6x6 color cube (red slowest, blue fastest, white first,
/// black left out); then ten-step ramps of red, green, blue and gray.
pub open spec fn default_color(i: int) -> ColorRgba {
    if i <= 0 {
        ColorRgba { r: 0, g: 0, b: 0, a: 0 }
    } else if i <= 215 {
        let k = i - 1;
        ColorRgba {
            r: cube_level(k / 36),
            g: cube_level((k / 6) % 6),
            b: cube_level(k % 6),
            a: 255,
        }
    } else if i <= 225 {
        ColorRgba { r: ramp_level(i - 216), g: 0, b: 0, a: 255 }
    } else if i <= 235 {
        ColorRgba { r: 0, g: ramp_level(i - 226), b: 0, a: 255 }
    } else if i <= 245 {
        ColorRgba { r: 0, g: 0, b: ramp_level(i - 236), a: 255 }
    } else {
        let v = ramp_level(i - 246);
        ColorRgba { r: v, g: v, b: v, a: 255 }
    }
}

/// The colors of the 256 palette indices.
#[derive(Debug)]
pub struct Palette {
    colors: Vec<ColorRgba>,
}

impl Palette {
    pub closed spec fn colors(&self) -> Seq<ColorRgba> {
        self.colors@
    }

    pub open spec fn wf(&self) -> bool {
        self.colors().len() == 256
    }

    /// The color of a palette index.
    pub open spec fn color(&self, i: int) -> ColorRgba {
        self.colors()[i]
    }

    /// The MagicaVoxel default palette.
    pub fn magicavoxel_default() -> (p: Self)
        ensures
            p.wf(),
            forall|i: int| 0 <= i < 256 ==> #[trigger] p.color(i) == default_color(i),
    {
        let mut colors: Vec<ColorRgba> = Vec::new();
        colors.push(ColorRgba { r: 0, g: 0, b: 0, a: 0 });
        let mut i: u32 = 1;
        while i < 256
            invariant
                1 <= i <= 256,
                colors.len() == i,
                forall|j: int| 0 <= j < i ==> #[trigger] colors@[j] == default_color(j),
            decreases 256 - i,
        {
            let c = if i <= 215 {
                let k = i - 1;
                let r = (255 - 51 * (k / 36)) as u8;
                let g = (255 - 51 * ((k / 6) % 6)) as u8;
                let b = (255 - 51 * (k % 6)) as u8;
                ColorRgba { r, g, b, a: 255 }
            } else {
                let (base, which) = if i <= 225 {
                    (216, 0u8)
                } else if i <= 235 {
                    (226, 1u8)
                } else if i <= 245 {
                    (236, 2u8)
                } else {
                    (246, 3u8)
                };
                let j = i - base;
                let v = (255 - 17 * (j + j / 2 + 1)) as u8;
                if which == 0 {
                    ColorRgba { r: v, g: 0, b: 0, a: 255 }
                } else if which == 1 {
                    ColorRgba { r: 0, g: v, b: 0, a: 255 }
                } else if which == 2 {
                    ColorRgba { r: 0, g: 0, b: v, a: 255 }
                } else {
                    ColorRgba { r: v, g: v, b: v, a: 255 }
                }
            };
            colors.push(c);
            i = i + 1;
        }
        Palette { colors }
    }

    pub fn get(&self, index: u8) -> (c: ColorRgba)
        requires
            self.wf(),
        ensures
            c == self.color(index as int),
    {
        self.colors[index as usize]
    }

    /// Set the color of index 1..=255; index 0 (the empty voxel) is refused.
    pub fn set(&mut self, index: u8, color: ColorRgba) -> (r: Result<(), CoreError>)
        requires
            old(self).wf(),
        ensures
            final(self).wf(),
            r is Ok <==> index != 0,
            r is Err ==> r == Err::<(), CoreError>(CoreError::InvalidColor(0))
                && final(self).colors() == old(self).colors(),
            r is Ok ==> final(self).colors() == old(self).colors().update(index as int, color),
    {
        if index == 0 {
            return Err(CoreError::InvalidColor(0));
        }
        self.colors.set(index as usize, color);
        Ok(())
    }

    /// A copy with the same colors.
    pub fn copy(&self) -> (p: Self)
        ensures
            p.colors() == self.colors(),
    {
        let mut colors: Vec<ColorRgba> = Vec::new();
        let mut i: usize = 0;
        while i < self.colors.len()
            invariant
                i <= self.colors.len(),
                colors@ == self.colors@.subrange(0, i as int),
            decreases self.colors.len() - i,
        {
            colors.push(self.colors[i]);
            i = i + 1;
        }
        assert(self.colors@.subrange(0, self.colors.len() as int) == self.colors@);
        Palette { colors }
    }

    /// Same colors at every index.
    pub fn same_colors(&self, other: &Palette) -> (b: bool)
        ensures
            b == (self.colors() == other.colors()),
    {
        if self.colors.len() != other.colors.len() {
            return false;
        }
        let mut i: usize = 0;
        while i < self.colors.len()
            invariant
                i <= self.colors.len(),
                self.colors.len() == other.colors.len(),
                self.colors@.subrange(0, i as int) == other.colors@.subrange(0, i as int),
            decreases self.colors.len() - i,
        {
            if self.colors[i] != other.colors[i] {
                assert(self.colors@[i as int] != other.colors@[i as int]);
                return false;
            }
            assert(self.colors@.subrange(0, i + 1) == self.colors@.subrange(0, i as int).push(
                self.colors@[i as int],
            ));
            assert(other.colors@.subrange(0, i + 1) == other.colors@.subrange(0, i as int).push(
                other.colors@[i as int],
            ));
            i = i + 1;
        }
        assert(self.colors@.subrange(0, i as int) == self.colors@);
        assert(other.colors@.subrange(0, i as int) == other.colors@);
        true
    }
}

impl Default for Palette {
    fn default() -> (p: Self)
        ensures
            p.wf(),
            forall|i: int| 0 <= i < 256 ==> #[trigger] p.color(i) == default_color(i),
    {
        Palette::magicavoxel_default()
    }
}

} // verus!
