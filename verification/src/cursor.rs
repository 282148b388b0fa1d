//! The position cursor that walks an image's pixels: columns first, then
//! rows, then colour planes, and last bit significance.  The cursor is the
//! single source of truth for which physical bit holds which payload bit.

use vstd::prelude::*;
use vstd::arithmetic::div_mod::lemma_fundamental_div_mod_converse;

verus! {

/// Addresses one bit of one colour channel of one pixel.
///
/// `bit` is the significance of the addressed bit, starting at the least
/// significant.  A cursor either addresses a valid position or stands one
/// past the last position (`bit == 8`, everything else zero).
#[derive(Clone, Copy, PartialEq, Eq, Structural, Debug)]
pub struct Cursor {
    pub row: u32,
    pub col: u32,
    pub plane: u8,
    pub bit: u8,
}

impl Cursor {
    /// The cursor addresses a valid position of a `w` x `h` image with
    /// `ch` colour planes.
    pub open spec fn in_range(self, w: int, h: int, ch: int) -> bool {
        self.col < w && self.row < h && self.plane < ch && self.bit < 8
    }

    /// The cursor stands one past the last position.
    pub open spec fn at_end(self) -> bool {
        self.bit == 8 && self.col == 0 && self.row == 0 && self.plane == 0
    }

    /// The cursor addresses a valid position or stands at the end.
    pub open spec fn wf(self, w: int, h: int, ch: int) -> bool {
        self.in_range(w, h, ch) || self.at_end()
    }

    /// The linear position in the bitstream: how many positions come
    /// strictly before the one addressed.
    pub open spec fn pos(self, w: int, h: int, ch: int) -> int {
        (self.bit * ch + self.plane) * (w * h) + self.row * w + self.col
    }

    /// The cursor at the origin: the first bit of the stream.
    pub fn origin() -> (c: Cursor)
        ensures
            c.row == 0 && c.col == 0 && c.plane == 0 && c.bit == 0,
    {
        Cursor { row: 0, col: 0, plane: 0, bit: 0 }
    }

    /// Step to the next position: next column, wrapping through rows,
    /// colour planes and bit significances in that order.
    pub fn advance(&mut self, w: u32, h: u32, ch: u8)
        requires
            0 < w,
            0 < h,
            0 < ch,
            old(self).in_range(w as int, h as int, ch as int),
        ensures
            final(self).wf(w as int, h as int, ch as int),
            final(self).pos(w as int, h as int, ch as int) == old(self).pos(
                w as int,
                h as int,
                ch as int,
            ) + 1,
    {
        proof {
            lemma_advance_arith(
                w as int,
                h as int,
                ch as int,
                self.row as int,
                self.plane as int,
                self.bit as int,
            );
        }
        self.col = self.col + 1;
        if self.col == w {
            self.col = 0;
            self.row = self.row + 1;
            if self.row == h {
                self.row = 0;
                self.plane = self.plane + 1;
                if self.plane == ch {
                    self.plane = 0;
                    self.bit = self.bit + 1;
                }
            }
        }
    }
}

/// The distributivity facts behind `advance`: wrapping a column, a row or
/// a plane moves the linear position forward by exactly one.
proof fn lemma_advance_arith(w: int, h: int, ch: int, row: int, plane: int, bit: int)
    by (nonlinear_arith)
    requires
        0 < w,
        0 < h,
        0 < ch,
    ensures
        (row + 1) * w == row * w + w,
        (bit * ch + plane + 1) * (w * h) == (bit * ch + plane) * (w * h) + w * h,
        ((bit + 1) * ch) * (w * h) == (bit * ch + ch) * (w * h),
        (bit * ch + ch) * (w * h) == (bit * ch + (ch - 1)) * (w * h) + w * h,
        (h - 1) * w + w == h * w,
{
}

/// A cursor in range sits strictly before the end of the stream; the end
/// cursor sits exactly at `8 * ch * w * h`.
pub proof fn lemma_pos_bounds(c: Cursor, w: int, h: int, ch: int)
    by (nonlinear_arith)
    requires
        0 < w,
        0 < h,
        0 < ch,
        c.wf(w, h, ch),
    ensures
        c.in_range(w, h, ch) ==> c.pos(w, h, ch) < 8 * (ch * (w * h)),
        c.at_end() ==> c.pos(w, h, ch) == 8 * (ch * (w * h)),
        c.pos(w, h, ch) < 8 * (ch * (w * h)) ==> c.in_range(w, h, ch),
        0 <= c.pos(w, h, ch),
{
}

/// A cursor's linear position decomposes back into exactly its four
/// coordinates: the walk order is a mixed-radix numeral.
pub proof fn lemma_pos_decompose(c: Cursor, w: int, h: int, ch: int)
    requires
        0 < w,
        0 < h,
        0 < ch,
        c.in_range(w, h, ch),
    ensures
        c.pos(w, h, ch) / (ch * (w * h)) == c.bit,
        c.pos(w, h, ch) % (ch * (w * h)) / (w * h) == c.plane,
        c.pos(w, h, ch) % (ch * (w * h)) % (w * h) == c.row * w + c.col,
        c.pos(w, h, ch) % (ch * (w * h)) % (w * h) / w == c.row,
        c.pos(w, h, ch) % (ch * (w * h)) % (w * h) % w == c.col,
{
    let p = c.pos(w, h, ch);
    let r1 = c.plane * (w * h) + c.row * w + c.col;
    let r2 = c.row * w + c.col;
    assert(p == c.bit * (ch * (w * h)) + r1 && 0 <= r1 < ch * (w * h) && r1 == c.plane * (w * h)
        + r2 && 0 <= r2 < w * h && r2 == c.row * w + c.col && 0 <= c.col < w)
        by (nonlinear_arith)
        requires
            0 < w,
            0 < h,
            0 < ch,
            c.in_range(w, h, ch),
            p == c.pos(w, h, ch),
            r1 == c.plane * (w * h) + c.row * w + c.col,
            r2 == c.row * w + c.col,
    ;
    lemma_fundamental_div_mod_converse(p, ch * (w * h), c.bit as int, r1);
    lemma_fundamental_div_mod_converse(r1, w * h, c.plane as int, r2);
    lemma_fundamental_div_mod_converse(r2, w, c.row as int, c.col as int);
}


impl Cursor {
    /// The linear position, computed at run time.
    pub fn position(&self, w: u32, h: u32, ch: u8) -> (p: u128)
        requires
            self.wf(w as int, h as int, ch as int),
        ensures
            p == self.pos(w as int, h as int, ch as int),
    {
        proof {
            assert(0 <= (self.bit as int) * (ch as int) + (self.plane as int) < 0x1000 && 0 <= (
            w as int) * (h as int) < 0x1_0000_0000_0000_0000 && 0 <= ((self.bit as int) * (
            ch as int) + (self.plane as int)) * ((w as int) * (h as int))
                < 0x1000_0000_0000_0000_0000 && 0 <= (self.row as int) * (w as int)
                < 0x1_0000_0000_0000_0000 && ((self.bit as int) * (ch as int) + (
            self.plane as int)) * ((w as int) * (h as int)) + (self.row as int) * (w as int) + (
            self.col as int) < 0x1_0000_0000_0000_0000_0000_0000_0000_0000) by (nonlinear_arith)
                requires
                    self.bit <= 8,
                    self.plane < 0x100,
                    ch < 0x100,
                    w < 0x1_0000_0000,
                    h < 0x1_0000_0000,
                    self.row < 0x1_0000_0000,
                    self.col < 0x1_0000_0000,
            ;
        }
        ((self.bit as u128) * (ch as u128) + (self.plane as u128)) * ((w as u128) * (h as u128))
            + (self.row as u128) * (w as u128) + (self.col as u128)
    }
}

} // verus!
