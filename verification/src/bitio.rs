//! The bit writer and bit reader: they move whole byte slices through the
//! image bitstream one bit per colour channel at a time, most significant
//! bit of each byte first, and leave the cursor where the transfer ended.

use vstd::prelude::*;
use vstd::arithmetic::div_mod::lemma_fundamental_div_mod_converse;
use crate::bits::{bit_of, msb_bit, seq_bit, lemma_set_bit, lemma_set_bit_int, lemma_msb_mask, lemma_zero_byte};
use crate::cursor::{Cursor, lemma_pos_bounds};
use crate::surface::{ImageSurface, lemma_bit_at_cursor, lemma_write_one_bit, lemma_stream_byte_unique};

verus! {

/// Write `bytes` into the bitstream starting at the cursor: bit `j` of the
/// byte sequence (most significant bit of each byte first) lands at stream
/// position `pos + j`, and no other bit of the image changes.
#[verifier::loop_isolation(false)]
pub fn write_bytes(img: &mut ImageSurface, cur: &mut Cursor, bytes: &[u8])
    requires
        old(img).wf(),
        0 < old(img).width,
        0 < old(img).height,
        old(cur).wf(old(img).width as int, old(img).height as int, old(img).channels as int),
        old(cur).pos(old(img).width as int, old(img).height as int, old(img).channels as int) + 8
            * bytes@.len() <= old(img).total_bits(),
    ensures
        final(img).wf(),
        final(img).same_shape(*old(img)),
        final(cur).wf(old(img).width as int, old(img).height as int, old(img).channels as int),
        final(cur).pos(old(img).width as int, old(img).height as int, old(img).channels as int)
            == old(cur).pos(
            old(img).width as int,
            old(img).height as int,
            old(img).channels as int,
        ) + 8 * bytes@.len(),
        forall|j: int|
            0 <= j < 8 * bytes@.len() ==> final(img).bit_at(
                old(cur).pos(
                    old(img).width as int,
                    old(img).height as int,
                    old(img).channels as int,
                ) + j,
            ) == seq_bit(bytes@, j),
        forall|p: int|
            0 <= p < old(img).total_bits() && !(old(cur).pos(
                old(img).width as int,
                old(img).height as int,
                old(img).channels as int,
            ) <= p < old(cur).pos(
                old(img).width as int,
                old(img).height as int,
                old(img).channels as int,
            ) + 8 * bytes@.len()) ==> final(img).bit_at(p) == old(img).bit_at(p),
{
    let ghost orig = *img;
    let ghost w = img.width as int;
    let ghost h = img.height as int;
    let ghost ch = img.channels as int;
    let ghost start = cur.pos(w, h, ch);
    proof {
        lemma_pos_bounds(*cur, w, h, ch);
    }
    let n: usize = bytes.len();
    let mut i: usize = 0;
    while i < n
        invariant
            i <= n,
            img.wf(),
            img.same_shape(orig),
            cur.wf(w, h, ch),
            cur.pos(w, h, ch) == start + 8 * i,
            forall|j: int| 0 <= j < 8 * i ==> img.bit_at(start + j) == seq_bit(bytes@, j),
            forall|p: int|
                0 <= p < orig.total_bits() && !(start <= p < start + 8 * i) ==> img.bit_at(p)
                    == orig.bit_at(p),
        decreases n - i,
    {
        let byte: u8 = bytes[i];
        let mut k: usize = 0;
        while k < 8
            invariant
                i < n,
                k <= 8,
                img.wf(),
                img.same_shape(orig),
                cur.wf(w, h, ch),
                cur.pos(w, h, ch) == start + 8 * i + k,
                forall|j: int| 0 <= j < 8 * i + k ==> img.bit_at(start + j) == seq_bit(bytes@, j),
                forall|p: int|
                    0 <= p < orig.total_bits() && !(start <= p < start + 8 * i + k) ==> img.bit_at(
                        p,
                    ) == orig.bit_at(p),
            decreases 8 - k,
        {
            proof {
                lemma_pos_bounds(*cur, w, h, ch);
                assert(cur.pos(w, h, ch) < img.total_bits());
                assert(cur.in_range(w, h, ch));
            }
            let ghost m = 8 * i + k;
            let v: u8 = img.get_channel(cur);
            let bitval: bool = (byte & (0x80u8 >> (k as u8))) != 0;
            let nv: u8 = if bitval {
                v | (1u8 << cur.bit)
            } else {
                v & !(1u8 << cur.bit)
            };
            let ghost prev = *img;
            img.set_channel(cur, nv);
            proof {
                lemma_set_bit(v, cur.bit, bitval);
                lemma_msb_mask(byte, k as u8);
                lemma_write_one_bit(prev, *img, *cur, nv);
                lemma_fundamental_div_mod_converse(m, 8, i as int, k as int);
                assert(seq_bit(bytes@, m) == msb_bit(byte, k as int));
                assert(img.bit_at(start + m) == seq_bit(bytes@, m));
            }
            cur.advance(img.width, img.height, img.channels);
            k = k + 1;
        }
        i = i + 1;
    }
}

/// Read `n` bytes out of the bitstream starting at the cursor: bit `j` of
/// the returned byte sequence (most significant bit of each byte first) is
/// the bit at stream position `pos + j`.
#[verifier::loop_isolation(false)]
pub fn read_bytes(img: &ImageSurface, cur: &mut Cursor, n: usize) -> (r: Vec<u8>)
    requires
        img.wf(),
        0 < img.width,
        0 < img.height,
        old(cur).wf(img.width as int, img.height as int, img.channels as int),
        old(cur).pos(img.width as int, img.height as int, img.channels as int) + 8 * n
            <= img.total_bits(),
    ensures
        r@.len() == n,
        final(cur).wf(img.width as int, img.height as int, img.channels as int),
        final(cur).pos(img.width as int, img.height as int, img.channels as int) == old(cur).pos(
            img.width as int,
            img.height as int,
            img.channels as int,
        ) + 8 * n,
        forall|j: int|
            0 <= j < 8 * n ==> seq_bit(r@, j) == img.bit_at(
                old(cur).pos(img.width as int, img.height as int, img.channels as int) + j,
            ),
{
    let ghost w = img.width as int;
    let ghost h = img.height as int;
    let ghost ch = img.channels as int;
    let ghost start = cur.pos(w, h, ch);
    proof {
        lemma_pos_bounds(*cur, w, h, ch);
    }
    let mut r: Vec<u8> = Vec::new();
    let mut i: usize = 0;
    while i < n
        invariant
            i <= n,
            r@.len() == i,
            cur.wf(w, h, ch),
            cur.pos(w, h, ch) == start + 8 * i,
            forall|j: int| 0 <= j < 8 * i ==> seq_bit(r@, j) == img.bit_at(start + j),
        decreases n - i,
    {
        let mut acc: u8 = 0;
        proof {
            lemma_zero_byte();
        }
        let mut k: usize = 0;
        while k < 8
            invariant
                i < n,
                k <= 8,
                cur.wf(w, h, ch),
                cur.pos(w, h, ch) == start + 8 * i + k,
                forall|j: int|
                    0 <= j < k ==> msb_bit(acc, j) == img.bit_at(start + 8 * i + j),
                forall|j: int| k <= j < 8 ==> !msb_bit(acc, j),
            decreases 8 - k,
        {
            proof {
                lemma_pos_bounds(*cur, w, h, ch);
                assert(cur.pos(w, h, ch) < img.total_bits());
                assert(cur.in_range(w, h, ch));
            }
            let v: u8 = img.get_channel(cur);
            let bitval: bool = ((v >> cur.bit) & 1u8) == 1u8;
            proof {
                lemma_bit_at_cursor(*img, *cur);
                assert(bitval == bit_of(v, cur.bit as int));
                assert(img.bit_at(start + 8 * i + k) == bitval);
            }
            let ghost oldacc = acc;
            if bitval {
                proof {
                    lemma_set_bit_int(acc, (7 - k) as u8, true);
                }
                acc = acc | (1u8 << ((7 - k) as u8));
            }
            proof {
                assert(((7 - k) as u8) as int == 7 - k);
                assert(msb_bit(acc, k as int) == bitval);
                assert(acc == (if bitval {
                    oldacc | (1u8 << ((7 - k) as u8))
                } else {
                    oldacc
                }));
                assert forall|j: int| 0 <= j < k + 1 implies msb_bit(acc, j) == img.bit_at(
                    start + 8 * i + j,
                ) by {
                    if j < k {
                        assert(j != k as int && 0 <= 7 - j < 8 && 7 - j != 7 - k as int);
                        assert(msb_bit(oldacc, j) == img.bit_at(start + 8 * i + j));
                        assert(bit_of(acc, 7 - j) == bit_of(oldacc, 7 - j));
                    }
                }
                assert forall|j: int| k + 1 <= j < 8 implies !msb_bit(acc, j) by {
                    assert(!msb_bit(oldacc, j));
                    assert(bit_of(acc, 7 - j) == bit_of(oldacc, 7 - j));
                }
            }
            cur.advance(img.width, img.height, img.channels);
            k = k + 1;
        }
        let ghost prev_r = r@;
        r.push(acc);
        proof {
            assert forall|j: int| 0 <= j < 8 * (i + 1) implies seq_bit(r@, j) == img.bit_at(
                start + j,
            ) by {
                if j < 8 * i {
                    assert(0 <= j / 8 < i as int) by (nonlinear_arith)
                        requires
                            0 <= j < 8 * i,
                    ;
                    assert(r@[j / 8] == prev_r[j / 8]);
                    assert(seq_bit(r@, j) == seq_bit(prev_r, j));
                } else {
                    lemma_fundamental_div_mod_converse(j, 8, i as int, j - 8 * i);
                    assert(r@[j / 8] == acc);
                }
            }
        }
        i = i + 1;
    }
    r
}


/// Write `bytes` at a byte-aligned cursor: byte `m` of `bytes` becomes
/// stream byte `pos / 8 + m`, and every other stream byte keeps its value.
pub fn write_stream(img: &mut ImageSurface, cur: &mut Cursor, bytes: &[u8])
    requires
        old(img).wf(),
        0 < old(img).width,
        0 < old(img).height,
        old(cur).wf(old(img).width as int, old(img).height as int, old(img).channels as int),
        old(cur).pos(old(img).width as int, old(img).height as int, old(img).channels as int) % 8
            == 0,
        old(cur).pos(old(img).width as int, old(img).height as int, old(img).channels as int) + 8
            * bytes@.len() <= old(img).total_bits(),
    ensures
        final(img).wf(),
        final(img).same_shape(*old(img)),
        final(img).data@.len() == old(img).data@.len(),
        final(cur).wf(old(img).width as int, old(img).height as int, old(img).channels as int),
        final(cur).pos(old(img).width as int, old(img).height as int, old(img).channels as int)
            == old(cur).pos(
            old(img).width as int,
            old(img).height as int,
            old(img).channels as int,
        ) + 8 * bytes@.len(),
        forall|m: int|
            0 <= m < bytes@.len() ==> final(img).stream_byte(
                old(cur).pos(
                    old(img).width as int,
                    old(img).height as int,
                    old(img).channels as int,
                ) / 8 + m,
            ) == bytes@[m],
        forall|m: int|
            0 <= m < old(img).stream_len() && !(old(cur).pos(
                old(img).width as int,
                old(img).height as int,
                old(img).channels as int,
            ) / 8 <= m < old(cur).pos(
                old(img).width as int,
                old(img).height as int,
                old(img).channels as int,
            ) / 8 + bytes@.len()) ==> final(img).stream_byte(m) == old(img).stream_byte(m),
{
    let ghost orig = *img;
    let ghost w = img.width as int;
    let ghost h = img.height as int;
    let ghost ch = img.channels as int;
    let ghost start = cur.pos(w, h, ch);
    let ghost off = start / 8;
    let ghost n = bytes@.len() as int;
    proof {
        lemma_pos_bounds(*cur, w, h, ch);
        vstd::arithmetic::div_mod::lemma_fundamental_div_mod(start, 8);
        assert(start == 8 * off);
    }
    write_bytes(img, cur, bytes);
    proof {
        assert forall|m: int| 0 <= m < n implies img.stream_byte(off + m) == bytes@[m] by {
            assert forall|j: int| 0 <= j < 8 implies msb_bit(bytes@[m], j) == img.bit_at(
                8 * (off + m) + j,
            ) by {
                lemma_fundamental_div_mod_converse(8 * m + j, 8, m, j);
                assert(seq_bit(bytes@, 8 * m + j) == msb_bit(bytes@[m], j));
                assert(8 * (off + m) + j == start + (8 * m + j));
                assert(img.bit_at(start + (8 * m + j)) == seq_bit(bytes@, 8 * m + j));
            }
            lemma_stream_byte_unique(*img, off + m, bytes@[m]);
        }
        assert forall|m: int|
            0 <= m < orig.stream_len() && !(off <= m < off + n) implies img.stream_byte(m)
            == orig.stream_byte(m) by {
            assert forall|j: int| 0 <= j < 8 implies #[trigger] img.bit_at(8 * m + j)
                == orig.bit_at(8 * m + j) by {
                assert(0 <= 8 * m + j < orig.total_bits());
                assert(!(start <= 8 * m + j < start + 8 * n));
            }
        }
    }
}

/// Read `n` bytes at a byte-aligned cursor: byte `m` of the result is
/// stream byte `pos / 8 + m`.
pub fn read_stream(img: &ImageSurface, cur: &mut Cursor, n: usize) -> (r: Vec<u8>)
    requires
        img.wf(),
        0 < img.width,
        0 < img.height,
        old(cur).wf(img.width as int, img.height as int, img.channels as int),
        old(cur).pos(img.width as int, img.height as int, img.channels as int) % 8 == 0,
        old(cur).pos(img.width as int, img.height as int, img.channels as int) + 8 * n
            <= img.total_bits(),
    ensures
        r@.len() == n,
        final(cur).wf(img.width as int, img.height as int, img.channels as int),
        final(cur).pos(img.width as int, img.height as int, img.channels as int) == old(cur).pos(
            img.width as int,
            img.height as int,
            img.channels as int,
        ) + 8 * n,
        forall|m: int|
            0 <= m < n ==> r@[m] == img.stream_byte(
                old(cur).pos(img.width as int, img.height as int, img.channels as int) / 8 + m,
            ),
{
    let ghost w = img.width as int;
    let ghost h = img.height as int;
    let ghost ch = img.channels as int;
    let ghost start = cur.pos(w, h, ch);
    let ghost off = start / 8;
    proof {
        lemma_pos_bounds(*cur, w, h, ch);
        vstd::arithmetic::div_mod::lemma_fundamental_div_mod(start, 8);
        assert(start == 8 * off);
    }
    let r = read_bytes(img, cur, n);
    proof {
        assert forall|m: int| 0 <= m < n implies r@[m] == img.stream_byte(off + m) by {
            assert forall|j: int| 0 <= j < 8 implies msb_bit(r@[m], j) == img.bit_at(
                8 * (off + m) + j,
            ) by {
                lemma_fundamental_div_mod_converse(8 * m + j, 8, m, j);
                assert(seq_bit(r@, 8 * m + j) == msb_bit(r@[m], j));
                assert(8 * (off + m) + j == start + (8 * m + j));
            }
            lemma_stream_byte_unique(*img, off + m, r@[m]);
        }
    }
    r
}

} // verus!
