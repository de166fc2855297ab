//! Lookup of sprites laid out on a regular grid in a sheet.
use vstd::prelude::*;

verus! {

/// A sprite's rectangle in the sheet, in pixels.
#[derive(Clone, Copy, Debug, PartialEq, Eq, Structural)]
pub struct SpriteRect {
    pub x: u32,
    pub y: u32,
    pub w: u16,
    pub h: u16,
}

proof fn lemma_u16_product(a: u16, b: u16)
    ensures
        (a as int) * (b as int) <= u32::MAX,
{
    assert((a as int) * (b as int) <= 65535 * 65535) by (nonlinear_arith)
        requires
            a <= 65535,
            b <= 65535,
    ;
}

/// Finds sprites of one size on a sheet.
#[derive(Clone, Copy, Debug)]
pub struct SpriteFinder {
    sheet_w: u16,
    sheet_h: u16,
    sprite_w: u16,
    sprite_h: u16,
    max_x: u16,
    max_y: u16,
}

impl SpriteFinder {
    pub closed spec fn sheet(&self) -> (u16, u16) {
        (self.sheet_w, self.sheet_h)
    }

    pub closed spec fn sprite(&self) -> (u16, u16) {
        (self.sprite_w, self.sprite_h)
    }

    /// The greatest sprite coordinate on each axis that is accepted.
    pub closed spec fn max_ids(&self) -> (u16, u16) {
        (self.max_x, self.max_y)
    }

    /// A finder for sprites of `sprite_dims` pixels on a sheet of
    /// `sheet_size` pixels.
    pub fn new(sheet_size: [u16; 2], sprite_dims: [u16; 2]) -> (r: Self)
        requires
            sprite_dims[0] > 0,
            sprite_dims[1] > 0,
        ensures
            r.sheet() == (sheet_size[0], sheet_size[1]),
            r.sprite() == (sprite_dims[0], sprite_dims[1]),
            r.max_ids() == ((sheet_size[0] / sprite_dims[0]) as u16, (sheet_size[1] / sprite_dims[1]) as u16),
    {
        SpriteFinder {
            sheet_w: sheet_size[0],
            sheet_h: sheet_size[1],
            sprite_w: sprite_dims[0],
            sprite_h: sprite_dims[1],
            max_x: sheet_size[0] / sprite_dims[0],
            max_y: sheet_size[1] / sprite_dims[1],
        }
    }

    /// Sheet width and height in pixels.
    pub fn sheet_size(&self) -> (r: [u16; 2])
        ensures
            r[0] == self.sheet().0,
            r[1] == self.sheet().1,
    {
        [self.sheet_w, self.sheet_h]
    }

    /// The rectangle of the sprite at grid coordinate `sprite_coord`; an
    /// error where a coordinate is above the greatest accepted.
    pub fn find(&self, sprite_coord: [u16; 2]) -> (r: Result<SpriteRect, ()>)
        ensures
            r is Ok <==> sprite_coord[0] <= self.max_ids().0 && sprite_coord[1] <= self.max_ids().1,
            r matches Ok(rect) ==> {
                &&& rect.x == sprite_coord[0] * self.sprite().0
                &&& rect.y == sprite_coord[1] * self.sprite().1
                &&& rect.w == self.sprite().0
                &&& rect.h == self.sprite().1
            },
    {
        if sprite_coord[0] <= self.max_x && sprite_coord[1] <= self.max_y {
            proof {
                lemma_u16_product(sprite_coord[0], self.sprite_w);
                lemma_u16_product(sprite_coord[1], self.sprite_h);
            }
            let x = sprite_coord[0] as u32 * self.sprite_w as u32;
            let y = sprite_coord[1] as u32 * self.sprite_h as u32;
            Ok(SpriteRect { x, y, w: self.sprite_w, h: self.sprite_h })
        } else {
            Err(())
        }
    }
}

} // verus!
