//! A CPU-side RGBA8 texture and `#rrggbb` colours.

use vstd::prelude::*;

verus! {

/// A CPU-side RGBA8 texture, row-major, top row first (canvas order).
#[derive(Debug, Clone, PartialEq, Eq)]
pub struct RgbaImage {
    /// Width in texels.
    pub width: u32,
    /// Height in texels.
    pub height: u32,
    /// `width * height * 4` bytes.
    pub data: Vec<u8>,
}

/// Byte offset of texel `(x, y)` in an image `width` texels wide.
pub open spec fn texel_offset(width: int, x: int, y: int) -> int {
    (y * width + x) * 4
}

/// The four bytes of texel `(x, y)` in the buffer `data` of an image `width` texels wide.
pub open spec fn texel_at(data: Seq<u8>, width: int, x: int, y: int) -> Seq<u8> {
    data.subrange(texel_offset(width, x, y), texel_offset(width, x, y) + 4)
}

/// The buffer `data` with texel `(x, y)` set to the four bytes `rgba`.
pub open spec fn put_texel(data: Seq<u8>, width: int, x: int, y: int, rgba: Seq<u8>) -> Seq<u8> {
    let o = texel_offset(width, x, y);
    data.update(o, rgba[0]).update(o + 1, rgba[1]).update(o + 2, rgba[2]).update(o + 3, rgba[3])
}

/// Reading a texel gives back what was last written there, and writing one texel leaves every
/// other texel as it was.
pub proof fn lemma_put_get(data: Seq<u8>, width: int, height: int, x: int, y: int, rgba: Seq<u8>, x2: int, y2: int)
    requires
        data.len() == width * height * 4,
        rgba.len() == 4,
        0 <= x < width,
        0 <= y < height,
        0 <= x2 < width,
        0 <= y2 < height,
    ensures
        texel_at(put_texel(data, width, x, y, rgba), width, x, y) == rgba,
        x2 != x || y2 != y ==> texel_at(put_texel(data, width, x, y, rgba), width, x2, y2) == texel_at(
            data,
            width,
            x2,
            y2,
        ),
{
    lemma_texel_in_bounds(width, height, x, y);
    lemma_texel_in_bounds(width, height, x2, y2);
    let o = texel_offset(width, x, y);
    let o2 = texel_offset(width, x2, y2);
    let after = put_texel(data, width, x, y, rgba);
    assert(texel_at(after, width, x, y) =~= rgba);
    if x2 != x || y2 != y {
        assert(y * width + x != y2 * width + x2) by (nonlinear_arith)
            requires
                0 <= x < width,
                0 <= x2 < width,
                0 <= y,
                0 <= y2,
                x2 != x || y2 != y,
        {
            if y < y2 {
                assert(y * width + width <= y2 * width);
            } else if y2 < y {
                assert(y2 * width + width <= y * width);
            }
        }
        assert(o2 + 4 <= o || o + 4 <= o2);
        assert(texel_at(after, width, x2, y2) =~= texel_at(data, width, x2, y2));
    }
}

/// Every texel lies inside a buffer of four bytes per texel.
proof fn lemma_texel_in_bounds(width: int, height: int, x: int, y: int)
    requires
        0 <= x < width,
        0 <= y < height,
    ensures
        0 <= texel_offset(width, x, y),
        texel_offset(width, x, y) + 4 <= width * height * 4,
{
    assert(0 <= (y * width + x) * 4 && (y * width + x) * 4 + 4 <= width * height * 4) by (nonlinear_arith)
        requires
            0 <= x < width,
            0 <= y < height,
    ;
}

impl RgbaImage {
    /// The buffer holds exactly four bytes per texel.
    pub open spec fn wf(&self) -> bool {
        self.data@.len() == self.width * self.height * 4
    }

    /// The four bytes of texel `(x, y)`.
    pub open spec fn texel(&self, x: int, y: int) -> Seq<u8> {
        texel_at(self.data@, self.width as int, x, y)
    }

    /// Transparent black image.
    pub fn new(width: u32, height: u32) -> (img: RgbaImage)
        requires
            width * height * 4 <= usize::MAX,
        ensures
            img.width == width,
            img.height == height,
            img.wf(),
            forall|i: int| 0 <= i < img.data@.len() ==> img.data@[i] == 0,
    {
        let n = (width as usize) * (height as usize) * 4;
        let mut data: Vec<u8> = Vec::new();
        let mut i: usize = 0;
        while i < n
            invariant
                i <= n,
                data@.len() == i,
                forall|k: int| 0 <= k < i ==> data@[k] == 0,
            decreases n - i,
        {
            data.push(0);
            i += 1;
        }
        RgbaImage { width, height, data }
    }

    fn offset(&self, x: u32, y: u32) -> (o: usize)
        requires
            self.wf(),
            x < self.width,
            y < self.height,
        ensures
            o == texel_offset(self.width as int, x as int, y as int),
            o + 4 <= self.data@.len(),
    {
        let len = self.data.len();
        proof {
            assert((y * self.width + x) * 4 + 4 <= self.width * self.height * 4) by (nonlinear_arith)
                requires
                    x < self.width,
                    y < self.height,
            ;
            let w = self.width as int;
            let yy = y as int;
            assert(yy * w >= 0) by (nonlinear_arith)
                requires
                    yy >= 0,
                    w >= 0,
            ;
            assert(self.data@.len() == len);
            assert((yy * w + x) * 4 + 4 <= usize::MAX);
        }
        let row = (y as usize) * (self.width as usize);
        let idx = row + (x as usize);
        idx * 4
    }

    /// Write one texel.
    pub fn put(&mut self, x: u32, y: u32, rgba: [u8; 4])
        requires
            old(self).wf(),
            x < old(self).width,
            y < old(self).height,
        ensures
            final(self).wf(),
            final(self).width == old(self).width,
            final(self).height == old(self).height,
            final(self).data@ == put_texel(old(self).data@, old(self).width as int, x as int, y as int, rgba@),
    {
        let o = self.offset(x, y);
        self.data.set(o, rgba[0]);
        self.data.set(o + 1, rgba[1]);
        self.data.set(o + 2, rgba[2]);
        self.data.set(o + 3, rgba[3]);
    }

    /// Read one texel.
    pub fn get(&self, x: u32, y: u32) -> (rgba: [u8; 4])
        requires
            self.wf(),
            x < self.width,
            y < self.height,
        ensures
            rgba@ == self.texel(x as int, y as int),
    {
        let o = self.offset(x, y);
        let r = [self.data[o], self.data[o + 1], self.data[o + 2], self.data[o + 3]];
        assert(r@ =~= self.texel(x as int, y as int));
        r
    }
}

/// `true` for `0-9`, `a-f`, `A-F`.
pub open spec fn is_hex_digit(c: char) -> bool {
    ('0' <= c && c <= '9') || ('a' <= c && c <= 'f') || ('A' <= c && c <= 'F')
}

/// Value of a hexadecimal digit.
pub open spec fn hex_value(c: char) -> nat {
    if '0' <= c && c <= '9' {
        (c as nat - '0' as nat) as nat
    } else if 'a' <= c && c <= 'f' {
        (c as nat - 'a' as nat + 10) as nat
    } else {
        (c as nat - 'A' as nat + 10) as nat
    }
}

/// Two hexadecimal digits.
pub open spec fn hex_pair_ok(a: char, b: char) -> bool {
    is_hex_digit(a) && is_hex_digit(b)
}

/// The byte two hexadecimal digits read as, high digit first.
pub open spec fn hex_pair_value(a: char, b: char) -> nat {
    hex_value(a) * 16 + hex_value(b)
}

/// The strings `hex_rgb` accepts: `#` and six hexadecimal digits.
pub open spec fn hex_rgb_ok(s: Seq<char>) -> bool {
    &&& s.len() == 7
    &&& s[0] == '#'
    &&& hex_pair_ok(s[1], s[2])
    &&& hex_pair_ok(s[3], s[4])
    &&& hex_pair_ok(s[5], s[6])
}

fn hex_digit(c: char) -> (v: u8)
    requires
        is_hex_digit(c),
    ensures
        v == hex_value(c),
        v < 16,
{
    if '0' <= c && c <= '9' {
        (c as u32 - '0' as u32) as u8
    } else if 'a' <= c && c <= 'f' {
        (c as u32 - 'a' as u32 + 10) as u8
    } else {
        (c as u32 - 'A' as u32 + 10) as u8
    }
}

fn hex_pair(a: char, b: char) -> (v: u8)
    requires
        hex_pair_ok(a, b),
    ensures
        v == hex_pair_value(a, b),
{
    hex_digit(a) * 16 + hex_digit(b)
}

/// `#rrggbb` to bytes. The input must be seven characters: `#` followed by six hexadecimal
/// digits.
pub fn hex_rgb(hex: &str) -> (rgb: [u8; 3])
    requires
        hex_rgb_ok(hex@),
    ensures
        rgb@ == seq![
            hex_pair_value(hex@[1], hex@[2]) as u8,
            hex_pair_value(hex@[3], hex@[4]) as u8,
            hex_pair_value(hex@[5], hex@[6]) as u8,
        ],
{
    let r = hex_pair(hex.get_char(1), hex.get_char(2));
    let g = hex_pair(hex.get_char(3), hex.get_char(4));
    let b = hex_pair(hex.get_char(5), hex.get_char(6));
    let out = [r, g, b];
    assert(out@ =~= seq![r, g, b]);
    out
}

} // verus!
