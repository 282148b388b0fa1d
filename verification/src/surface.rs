//! The pixel buffer the codec works on: interleaved channel values for a
//! `width` x `height` image with 3 (RGB) or 4 (RGBA) colour planes, and the
//! view of that buffer as a linear bitstream.

use vstd::prelude::*;
use crate::bits::{bit_of, msb_bit, byte_from_bits, lemma_byte_from_bits, lemma_byte_from_bits_bits};
use crate::cursor::{Cursor, lemma_pos_decompose};
use crate::StegError;

verus! {

/// A raster image reduced to what the codec reads and writes: its
/// dimensions, its channel count, and one byte per channel per pixel,
/// pixel-major (all channels of pixel (0,0), then (1,0), and so on row by
/// row).
#[derive(Debug)]
pub struct ImageSurface {
    pub width: u32,
    pub height: u32,
    pub channels: u8,
    pub data: Vec<u8>,
}

impl ImageSurface {
    /// Number of pixels.
    pub open spec fn area(self) -> int {
        self.width * self.height
    }

    /// Number of bit positions in one bit-plane: one per channel per pixel.
    pub open spec fn plane_bits(self) -> int {
        self.channels * self.area()
    }

    /// Number of bit positions in the whole stream: 8 bit-planes.
    pub open spec fn total_bits(self) -> int {
        8 * self.plane_bits()
    }

    /// The buffer holds exactly one byte per channel per pixel, and the
    /// channel layout is RGB or RGBA.
    pub open spec fn wf(self) -> bool {
        0 < self.width && 0 < self.height && (self.channels == 3 || self.channels == 4)
            && self.data@.len() == self.plane_bits()
    }

    /// Index into `data` of the channel `plane` of the pixel at
    /// (`row`, `col`).
    pub open spec fn chan_index(self, row: int, col: int, plane: int) -> int {
        (row * self.width + col) * self.channels + plane
    }

    /// The dimensions and channel count of two surfaces agree.
    pub open spec fn same_shape(self, other: ImageSurface) -> bool {
        self.width == other.width && self.height == other.height && self.channels
            == other.channels
    }

    /// The value of the bit at linear stream position `p`.
    pub open spec fn bit_at(self, p: int) -> bool {
        let bit = p / self.plane_bits();
        let rem = p % self.plane_bits();
        let plane = rem / self.area();
        let pix = rem % self.area();
        bit_of(self.data@[pix * self.channels + plane], bit)
    }

    /// Wrap a pixel buffer, refusing a channel layout other than RGB or
    /// RGBA and a buffer whose length does not match the dimensions.
    pub fn from_parts(width: u32, height: u32, channels: u8, data: Vec<u8>) -> (r: Result<
        ImageSurface,
        StegError,
    >)
        ensures
            r is Ok <==> (0 < width && 0 < height && (channels == 3 || channels == 4)
                && data@.len() == channels * ((width as int) * (height as int))),
            r matches Ok(s) ==> s.wf() && s.width == width && s.height == height && s.channels
                == channels && s.data@ == data@,
    {
        if width == 0 || height == 0 || !(channels == 3 || channels == 4) {
            return Err(StegError::UnsupportedFormat);
        }
        proof {
            assert((channels as int) * ((width as int) * (height as int)) < 0x1_0000_0000_0000_0000_0000)
                by (nonlinear_arith)
                requires
                    channels < 0x100,
                    width < 0x1_0000_0000,
                    height < 0x1_0000_0000,
            ;
        }
        let expect: u128 = (channels as u128) * ((width as u128) * (height as u128));
        if (data.len() as u128) != expect {
            return Err(StegError::UnsupportedFormat);
        }
        Ok(ImageSurface { width, height, channels, data })
    }

    /// Read the channel value the cursor addresses.
    pub fn get_channel(&self, c: &Cursor) -> (v: u8)
        requires
            self.wf(),
            c.in_range(self.width as int, self.height as int, self.channels as int),
        ensures
            v == self.data@[self.chan_index(c.row as int, c.col as int, c.plane as int)],
    {
        proof {
            lemma_chan_index_bounds(
                *self,
                c.row as int,
                c.col as int,
                c.plane as int,
            );
        }
        let n: usize = self.data.len();
        let idx: usize = ((c.row as usize) * (self.width as usize) + (c.col as usize)) * (
        self.channels as usize) + (c.plane as usize);
        assert(idx < n);
        self.data[idx]
    }

    /// Store a channel value at the position the cursor addresses,
    /// leaving every other channel of every pixel alone.
    pub fn set_channel(&mut self, c: &Cursor, v: u8)
        requires
            old(self).wf(),
            c.in_range(
                old(self).width as int,
                old(self).height as int,
                old(self).channels as int,
            ),
        ensures
            final(self).wf(),
            final(self).same_shape(*old(self)),
            final(self).data@ == old(self).data@.update(
                old(self).chan_index(c.row as int, c.col as int, c.plane as int),
                v,
            ),
    {
        proof {
            lemma_chan_index_bounds(
                *self,
                c.row as int,
                c.col as int,
                c.plane as int,
            );
        }
        let n: usize = self.data.len();
        let idx: usize = ((c.row as usize) * (self.width as usize) + (c.col as usize)) * (
        self.channels as usize) + (c.plane as usize);
        assert(idx < n);
        self.data.set(idx, v);
    }
}

/// A channel index computed from in-range coordinates lands inside the
/// buffer, and every intermediate product stays below the buffer length.
pub proof fn lemma_chan_index_bounds(s: ImageSurface, row: int, col: int, plane: int)
    by (nonlinear_arith)
    requires
        s.wf(),
        0 <= row < s.height,
        0 <= col < s.width,
        0 <= plane < s.channels,
    ensures
        0 <= s.chan_index(row, col, plane) < s.data@.len(),
        row * s.width + col < s.area(),
        s.area() <= s.data@.len(),
        0 <= row * s.width,
        (row * s.width + col) * s.channels <= s.chan_index(row, col, plane),
        s.chan_index(row, col, plane) == (row * s.width + col) * s.channels + plane,
{
}

/// The bit the cursor addresses is the cursor's bit of the channel byte
/// the cursor addresses.
pub proof fn lemma_bit_at_cursor(s: ImageSurface, c: Cursor)
    requires
        s.wf(),
        0 < s.width,
        0 < s.height,
        c.in_range(s.width as int, s.height as int, s.channels as int),
    ensures
        s.bit_at(c.pos(s.width as int, s.height as int, s.channels as int)) == bit_of(
            s.data@[s.chan_index(c.row as int, c.col as int, c.plane as int)],
            c.bit as int,
        ),
{
    let w = s.width as int;
    let h = s.height as int;
    let ch = s.channels as int;
    let p = c.pos(w, h, ch);
    lemma_pos_decompose(c, w, h, ch);
    assert(ch * (w * h) == s.plane_bits() && w * h == s.area()) by (nonlinear_arith)
        requires
            w == s.width as int,
            h == s.height as int,
            ch == s.channels as int,
    ;
    let rem = p % s.plane_bits();
    assert(rem == p % (ch * (w * h)));
    assert(rem / s.area() == c.plane);
    assert(rem % s.area() == c.row * w + c.col);
    assert((c.row * w + c.col) * ch + c.plane == s.chan_index(
        c.row as int,
        c.col as int,
        c.plane as int,
    ));
}

/// Replacing the channel byte the cursor addresses with a byte that
/// differs from it at most at the cursor's bit changes the bitstream at
/// exactly the cursor's position and nowhere else.
pub proof fn lemma_write_one_bit(s: ImageSurface, s2: ImageSurface, c: Cursor, v2: u8)
    requires
        s.wf(),
        0 < s.width,
        0 < s.height,
        c.in_range(s.width as int, s.height as int, s.channels as int),
        s2.same_shape(s),
        s2.data@ == s.data@.update(
            s.chan_index(c.row as int, c.col as int, c.plane as int),
            v2,
        ),
        forall|j: u8|
            j < 8 && j != c.bit ==> bit_of(v2, j as int) == bit_of(
                s.data@[s.chan_index(c.row as int, c.col as int, c.plane as int)],
                j as int,
            ),
    ensures
        s2.wf(),
        s2.bit_at(c.pos(s.width as int, s.height as int, s.channels as int)) == bit_of(
            v2,
            c.bit as int,
        ),
        forall|p: int|
            0 <= p < s.total_bits() && p != c.pos(
                s.width as int,
                s.height as int,
                s.channels as int,
            ) ==> s2.bit_at(p) == s.bit_at(p),
{
    let w = s.width as int;
    let h = s.height as int;
    let ch = s.channels as int;
    let area = s.area();
    let pb = s.plane_bits();
    let k = s.chan_index(c.row as int, c.col as int, c.plane as int);
    let pixc = c.row * w + c.col;
    let cpos = c.pos(w, h, ch);
    lemma_chan_index_bounds(s, c.row as int, c.col as int, c.plane as int);
    assert(pb == ch * area && area == w * h && k == pixc * ch + c.plane && cpos == (c.bit * ch
        + c.plane) * area + pixc && 0 <= pixc < area) by (nonlinear_arith)
        requires
            s.wf(),
            0 < w,
            0 < h,
            w == s.width as int,
            h == s.height as int,
            ch == s.channels as int,
            area == s.area(),
            pb == s.plane_bits(),
            c.in_range(w, h, ch),
            k == s.chan_index(c.row as int, c.col as int, c.plane as int),
            pixc == c.row * w + c.col,
            cpos == c.pos(w, h, ch),
    ;
    assert(s2.plane_bits() == pb && s2.area() == area && s2.total_bits() == s.total_bits());
    lemma_bit_at_cursor(s2, c);
    assert(s2.data@[k] == v2);
    assert forall|p: int|
        0 <= p < s.total_bits() && p != cpos implies s2.bit_at(p) == s.bit_at(p) by {
        let b2 = p / pb;
        let rem = p % pb;
        let pl2 = rem / area;
        let pix2 = rem % area;
        assert(0 <= b2 < 8 && 0 <= rem < pb && 0 <= pl2 < ch && 0 <= pix2 < area && p == b2 * pb
            + pl2 * area + pix2) by (nonlinear_arith)
            requires
                0 <= p < 8 * pb,
                pb == ch * area,
                0 < area,
                0 < ch,
                ch < 8,
                b2 == p / pb,
                rem == p % pb,
                pl2 == rem / area,
                pix2 == rem % area,
        ;
        let idx2 = pix2 * ch + pl2;
        assert(0 <= idx2 < s.data@.len() && (idx2 == k <==> (pix2 == pixc && pl2 == c.plane)))
            by (nonlinear_arith)
            requires
                0 <= pl2 < ch,
                0 <= pix2 < area,
                0 <= c.plane < ch,
                0 <= pixc < area,
                idx2 == pix2 * ch + pl2,
                k == pixc * ch + c.plane,
                s.data@.len() == ch * area,
        ;
        if idx2 == k {
            assert(b2 != c.bit) by (nonlinear_arith)
                requires
                    p != cpos,
                    p == b2 * pb + pl2 * area + pix2,
                    cpos == (c.bit * ch + c.plane) * area + pixc,
                    pb == ch * area,
                    pix2 == pixc,
                    pl2 == c.plane,
            ;
            assert(bit_of(v2, b2) == bit_of(s.data@[k], b2));
        } else {
            assert(s2.data@[idx2] == s.data@[idx2]);
        }
    }
}


impl ImageSurface {
    /// The value of byte `m` of the bitstream: its bits, most significant
    /// first, stand at stream positions `8m` to `8m + 7`.
    pub open spec fn stream_byte(self, m: int) -> u8 {
        byte_from_bits(
            self.bit_at(8 * m),
            self.bit_at(8 * m + 1),
            self.bit_at(8 * m + 2),
            self.bit_at(8 * m + 3),
            self.bit_at(8 * m + 4),
            self.bit_at(8 * m + 5),
            self.bit_at(8 * m + 6),
            self.bit_at(8 * m + 7),
        )
    }

    /// The whole bitstream read as bytes: one per channel per pixel.
    pub open spec fn stream_len(self) -> int {
        self.plane_bits()
    }
}

/// A byte that agrees with stream byte `m` bit for bit is stream byte `m`.
pub proof fn lemma_stream_byte_unique(s: ImageSurface, m: int, v: u8)
    requires
        forall|j: int| 0 <= j < 8 ==> msb_bit(v, j) == s.bit_at(8 * m + j),
    ensures
        v == s.stream_byte(m),
{
    lemma_byte_from_bits_bits(
        s.bit_at(8 * m),
        s.bit_at(8 * m + 1),
        s.bit_at(8 * m + 2),
        s.bit_at(8 * m + 3),
        s.bit_at(8 * m + 4),
        s.bit_at(8 * m + 5),
        s.bit_at(8 * m + 6),
        s.bit_at(8 * m + 7),
    );
    let u = s.stream_byte(m);
    assert(bit_of(v, 0) == bit_of(u, 0) && bit_of(v, 1) == bit_of(u, 1) && bit_of(v, 2) == bit_of(
        u,
        2,
    ) && bit_of(v, 3) == bit_of(u, 3) && bit_of(v, 4) == bit_of(u, 4) && bit_of(v, 5) == bit_of(
        u,
        5,
    ) && bit_of(v, 6) == bit_of(u, 6) && bit_of(v, 7) == bit_of(u, 7)) by {
        assert(msb_bit(v, 0) == s.bit_at(8 * m + 0) && msb_bit(v, 1) == s.bit_at(8 * m + 1)
            && msb_bit(v, 2) == s.bit_at(8 * m + 2) && msb_bit(v, 3) == s.bit_at(8 * m + 3)
            && msb_bit(v, 4) == s.bit_at(8 * m + 4) && msb_bit(v, 5) == s.bit_at(8 * m + 5)
            && msb_bit(v, 6) == s.bit_at(8 * m + 6) && msb_bit(v, 7) == s.bit_at(8 * m + 7));
    }
    lemma_byte_from_bits(v, u);
}


impl ImageSurface {
    /// Bytes `off` to `off + n` of the bitstream, as a sequence.
    pub open spec fn stream_seq(self, off: int, n: int) -> Seq<u8> {
        Seq::new(n as nat, |m: int| self.stream_byte(off + m))
    }
}

} // verus!
