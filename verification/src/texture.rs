//! Bitmap textures: a decoded RGB image and nearest-neighbour texel lookup.

use vstd::prelude::*;

verus! {

/// Number of bytes that one RGB pixel occupies.
pub const CHANNELS: usize = 3;

/// A pixel coordinate clamped to the last valid index of an axis of the given extent.
pub open spec fn clamp_coord(c: int, extent: int) -> int {
    if c >= extent {
        extent - 1
    } else {
        c
    }
}

/// Offset of the first byte of the texel addressed by `(i, j)` in a row-major
/// RGB image of the given size, after clamping both coordinates to the image.
pub open spec fn texel_offset(width: int, height: int, i: int, j: int) -> int {
    clamp_coord(j, height) * (3 * width) + clamp_coord(i, width) * 3
}

/// Different pixels occupy different bytes: the texels of two pixels of
/// the image lie at least three bytes apart.
pub proof fn lemma_texels_apart(width: int, height: int, i: int, j: int, k: int, m: int)
    requires
        0 <= i < width,
        0 <= k < width,
        0 <= j < height,
        0 <= m < height,
        i != k || j != m,
    ensures
        texel_offset(width, height, i, j) + 3 <= texel_offset(width, height, k, m) || texel_offset(
            width,
            height,
            k,
            m,
        ) + 3 <= texel_offset(width, height, i, j),
{
    if j < m {
        assert(j * (3 * width) + 3 * width <= m * (3 * width)) by (nonlinear_arith)
            requires
                j < m,
                0 < width,
        ;
    } else if m < j {
        assert(m * (3 * width) + 3 * width <= j * (3 * width)) by (nonlinear_arith)
            requires
                m < j,
                0 < width,
        ;
    }
}

/// A decoded bitmap: tightly packed 8-bit RGB rows, top row first.
pub struct ImageTexture {
    data: Vec<u8>,
    width: u32,
    height: u32,
    bytes_per_scanline: u32,
}

impl ImageTexture {
    /// The raw bytes of the bitmap.
    pub closed spec fn view(&self) -> Seq<u8> {
        self.data@
    }

    /// Width of the bitmap in pixels.
    pub closed spec fn spec_width(&self) -> int {
        self.width as int
    }

    /// Height of the bitmap in pixels.
    pub closed spec fn spec_height(&self) -> int {
        self.height as int
    }

    /// The bitmap holds exactly `width * height` RGB pixels.
    pub closed spec fn wf(&self) -> bool {
        &&& self.bytes_per_scanline as int == 3 * (self.width as int)
        &&& self.data@.len() == 3 * (self.width as int) * (self.height as int)
    }

    /// The three channel bytes that a lookup at `(i, j)` yields on a non-empty bitmap.
    pub open spec fn spec_texel(&self, i: int, j: int) -> (u8, u8, u8) {
        let at = texel_offset(self.spec_width(), self.spec_height(), i, j);
        (self@[at], self@[at + 1], self@[at + 2])
    }

    /// An empty texture: no pixels, zero extent.
    pub fn new() -> (tex: Self)
        ensures
            tex.wf(),
            tex@ == Seq::<u8>::empty(),
            tex.spec_width() == 0,
            tex.spec_height() == 0,
    {
        ImageTexture { data: Vec::new(), width: 0, height: 0, bytes_per_scanline: 0 }
    }

    /// Wraps decoded RGB bytes. Succeeds exactly when `data` holds
    /// `width * height` pixels of three bytes and a scanline's byte count
    /// fits the 32-bit stride.
    pub fn from_raw(data: Vec<u8>, width: u32, height: u32) -> (tex: Option<Self>)
        ensures
            tex.is_some() <==> (data@.len() == 3 * (width as int) * (height as int) && 3 * (width
                as int) <= u32::MAX as int),
            tex matches Some(t) ==> t.wf() && t@ == data@ && t.spec_width() == width as int
                && t.spec_height() == height as int,
    {
        if width > u32::MAX / 3 {
            return None;
        }
        let bytes_per_scanline: u32 = width * 3;
        assert(0 <= (bytes_per_scanline as int) * (height as int) <= 0xffff_ffff * 0xffff_ffff)
            by (nonlinear_arith)
            requires
                0 <= bytes_per_scanline as int <= 0xffff_ffff,
                0 <= height as int <= 0xffff_ffff,
        ;
        let expected: u128 = (bytes_per_scanline as u128) * (height as u128);
        assert(expected as int == 3 * (width as int) * (height as int)) by (nonlinear_arith)
            requires
                expected as int == (bytes_per_scanline as int) * (height as int),
                bytes_per_scanline as int == 3 * (width as int),
        ;
        if data.len() as u128 != expected {
            return None;
        }
        Some(ImageTexture { data, width, height, bytes_per_scanline })
    }

    /// Whether the texture holds no pixel data.
    pub fn is_empty(&self) -> (empty: bool)
        ensures
            empty == (self@.len() == 0),
    {
        self.data.len() == 0
    }

    /// Width in pixels.
    pub fn width(&self) -> (w: u32)
        ensures
            w as int == self.spec_width(),
    {
        self.width
    }

    /// Height in pixels.
    pub fn height(&self) -> (h: u32)
        ensures
            h as int == self.spec_height(),
    {
        self.height
    }

    /// A non-empty bitmap has at least one pixel along each axis.
    pub proof fn lemma_nonempty_extent(&self)
        requires
            self.wf(),
            self@.len() > 0,
        ensures
            self.spec_width() > 0,
            self.spec_height() > 0,
    {
        assert(self.width as int > 0 && self.height as int > 0) by (nonlinear_arith)
            requires
                3 * (self.width as int) * (self.height as int) > 0,
                self.width as int >= 0,
                self.height as int >= 0,
        ;
    }

    /// Every clamped texel lies wholly inside the bitmap.
    pub proof fn lemma_texel_in_bounds(&self, i: int, j: int)
        requires
            self.wf(),
            self@.len() > 0,
            0 <= i,
            0 <= j,
        ensures
            self.spec_width() > 0,
            self.spec_height() > 0,
            0 <= texel_offset(self.spec_width(), self.spec_height(), i, j),
            texel_offset(self.spec_width(), self.spec_height(), i, j) + 2 < self@.len(),
    {
        self.lemma_nonempty_extent();
        let w = self.width as int;
        let h = self.height as int;
        let ci = clamp_coord(i, w);
        let cj = clamp_coord(j, h);
        assert(0 <= cj * (3 * w) && cj * (3 * w) + 3 * w <= 3 * w * h) by (nonlinear_arith)
            requires
                0 <= cj <= h - 1,
                w > 0,
        ;
    }

    /// Byte offset of the texel nearest to `(i, j)`: both coordinates are
    /// clamped to the bitmap, rows are `3 * width` bytes apart. An empty
    /// texture has no texel.
    pub fn texel_index(&self, i: u32, j: u32) -> (index: Option<usize>)
        requires
            self.wf(),
        ensures
            index.is_some() <==> self@.len() > 0,
            index matches Some(at) ==> at as int == texel_offset(
                self.spec_width(),
                self.spec_height(),
                i as int,
                j as int,
            ) && at + 2 < self@.len(),
    {
        let len = self.data.len();
        if len == 0 {
            return None;
        }
        proof {
            self.lemma_texel_in_bounds(i as int, j as int);
        }
        let ci: u32 = if i >= self.width {
            self.width - 1
        } else {
            i
        };
        let cj: u32 = if j >= self.height {
            self.height - 1
        } else {
            j
        };
        let ghost stride = 3 * (self.width as int);
        assert((cj as int) * (self.bytes_per_scanline as int) == (cj as int) * stride
            && 0 <= (cj as int) * stride) by (nonlinear_arith)
            requires
                self.bytes_per_scanline as int == stride,
                0 <= cj as int,
                0 <= stride,
        ;
        Some(cj as usize * self.bytes_per_scanline as usize + ci as usize * 3)
    }

    /// Nearest-neighbour lookup. An empty texture has no texel; otherwise the
    /// result is the red, green and blue byte of the pixel at the clamped
    /// coordinates.
    pub fn texel(&self, i: u32, j: u32) -> (rgb: Option<(u8, u8, u8)>)
        requires
            self.wf(),
        ensures
            self@.len() == 0 ==> rgb.is_none(),
            self@.len() > 0 ==> rgb == Some(self.spec_texel(i as int, j as int)),
    {
        let len = self.data.len();
        match self.texel_index(i, j) {
            Some(at) => {
                assert(at + 2 < len);
                Some((self.data[at], self.data[at + 1], self.data[at + 2]))
            },
            None => None,
        }
    }
}

} // verus!
