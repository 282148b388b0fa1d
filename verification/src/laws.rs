//! The codec's global laws, stated over the same spec functions the
//! executable functions' contracts use.

use vstd::prelude::*;
use crate::cursor::{Cursor, lemma_pos_decompose};
use crate::surface::ImageSurface;
use crate::settings::Settings;
use crate::sha::sha256_of;
use crate::steg::is_coded;
use crate::format::{
    pw_stream, container_stream, wf_entries, parse_payload, dec_str, pow10, entries_stream,
    lemma_dec_round_trip, lemma_parse_entries_stream,
};

verus! {

/// Law: a stream laid out by the embedder parses back to exactly the
/// files that were embedded, whatever bytes follow it — so embedding and
/// then extracting reproduces every file's name and content.
pub proof fn lemma_container_round_trip(
    sig: Seq<u8>,
    pw: Option<Seq<u8>>,
    files: Seq<(Seq<u8>, Seq<u8>)>,
    extra: Seq<u8>,
)
    requires
        files.len() <= 999,
        wf_entries(files),
    ensures
        parse_payload(
            container_stream(sig, pw, files).add(extra).skip(
                sig.len() + pw_stream(pw).len() as int,
            ),
        ) == Option::Some(files),
{
    let hdr = sig.len() + pw_stream(pw).len() as int;
    let s = container_stream(sig, pw, files).add(extra);
    let cnt = dec_str(files.len() as int, 3);
    let body = s.skip(hdr);
    assert(pow10(3) == 1000) by {
        reveal_with_fuel(pow10, 5);
    }
    lemma_dec_round_trip(files.len() as int, 3);
    assert(body.subrange(0, 3) =~= cnt);
    assert(body.skip(3) =~= entries_stream(files).add(extra));
    lemma_parse_entries_stream(files, extra);
}

/// Law: an image whose stream starts with the embedded container is
/// recognised as coded, its password flag and stored digest read back as
/// embedded, and the payload behind them parses to exactly the embedded
/// files.  This ties the embed orchestrator's postcondition to the
/// preconditions the check and extract stages decide by.
pub proof fn lemma_image_round_trip(
    img: ImageSurface,
    s: Settings,
    pw: Option<Seq<u8>>,
    files: Seq<(Seq<u8>, Seq<u8>)>,
)
    requires
        img.wf(),
        s.wf(),
        files.len() <= 999,
        wf_entries(files),
        pw matches Some(d) ==> d.len() == 32,
        container_stream(s.prog_code@, pw, files).len() <= img.stream_len(),
        img.stream_seq(0, container_stream(s.prog_code@, pw, files).len() as int)
            == container_stream(s.prog_code@, pw, files),
        s.capacity_of(img.stream_len()) >= s.min_capacity,
    ensures
        is_coded(img, s),
        img.stream_byte(s.prog_code@.len() as int) == (if pw is Some {
            89u8
        } else {
            78u8
        }),
        pw matches Some(d) ==> img.stream_seq(s.prog_code@.len() + 1int, 32) == d,
        parse_payload(
            img.stream_seq(
                s.prog_code@.len() + pw_stream(pw).len() as int,
                img.stream_len() - (s.prog_code@.len() + pw_stream(pw).len()),
            ),
        ) == Option::Some(files),
{
    let sig = s.prog_code@;
    let stream = container_stream(sig, pw, files);
    let hdr = sig.len() + pw_stream(pw).len() as int;
    let slen = img.stream_len();
    assert(stream.len() >= hdr);
    assert forall|m: int| 0 <= m < stream.len() implies img.stream_byte(m) == stream[m] by {
        assert(img.stream_seq(0, stream.len() as int)[m] == img.stream_byte(m));
    }
    assert(img.stream_seq(0, sig.len() as int) =~= sig);
    if pw is Some {
        let d = pw->Some_0;
        assert(stream[sig.len() as int] == 89);
        assert(img.stream_seq(sig.len() + 1int, 32) =~= d);
    } else {
        assert(stream[sig.len() as int] == 78);
    }
    let extra = img.stream_seq(stream.len() as int, slen - stream.len());
    assert(img.stream_seq(hdr, slen - hdr) =~= stream.add(extra).skip(hdr));
    lemma_container_round_trip(sig, pw, files, extra);
}

/// Law: within one bit-plane the cursor walk visits each channel of each
/// pixel exactly once: distinct in-range cursors have distinct linear
/// positions.
pub proof fn lemma_cursor_positions_distinct(c1: Cursor, c2: Cursor, w: int, h: int, ch: int)
    requires
        0 < w,
        0 < h,
        0 < ch,
        c1.in_range(w, h, ch),
        c2.in_range(w, h, ch),
        c1 != c2,
    ensures
        c1.pos(w, h, ch) != c2.pos(w, h, ch),
{
    lemma_pos_decompose(c1, w, h, ch);
    lemma_pos_decompose(c2, w, h, ch);
}

/// Law: every linear position below the stream's total is addressed by
/// some in-range cursor, so the walk misses no position either.
pub proof fn lemma_cursor_positions_complete(p: int, w: int, h: int, ch: int)
    requires
        0 < w,
        0 < h,
        0 < ch,
        ch <= 0xff,
        w <= 0xffff_ffff,
        h <= 0xffff_ffff,
        0 <= p < 8 * (ch * (w * h)),
    ensures
        exists|c: Cursor|
            c.in_range(w, h, ch) && #[trigger] c.pos(w, h, ch) == p,
{
    let b2 = p / (ch * (w * h));
    let rem = p % (ch * (w * h));
    let pl2 = rem / (w * h);
    let pix = rem % (w * h);
    let r2 = pix / w;
    let c2 = pix % w;
    assert(0 <= b2 < 8 && 0 <= rem < ch * (w * h) && 0 <= pl2 < ch && 0 <= pix < w * h && 0 <= r2
        < h && 0 <= c2 < w && p == (b2 * ch + pl2) * (w * h) + r2 * w + c2) by (nonlinear_arith)
        requires
            0 < w,
            0 < h,
            0 < ch,
            0 <= p < 8 * (ch * (w * h)),
            b2 == p / (ch * (w * h)),
            rem == p % (ch * (w * h)),
            pl2 == rem / (w * h),
            pix == rem % (w * h),
            r2 == pix / w,
            c2 == pix % w,
    ;
    let c = Cursor { row: r2 as u32, col: c2 as u32, plane: pl2 as u8, bit: b2 as u8 };
    assert(c.in_range(w, h, ch) && c.pos(w, h, ch) == p);
}

/// Law: the password gate is deterministic.  The granting condition is a
/// function of the stored digest and the offered password alone, so the
/// embedding password is granted every time it is offered, and any
/// password whose digest differs from the stored one is denied every
/// time.
pub proof fn lemma_password_gate(stored: Seq<u8>, correct: Seq<u8>, offered: Seq<u8>)
    requires
        stored == sha256_of(correct),
    ensures
        (stored == sha256_of(offered)) == (sha256_of(offered) == sha256_of(correct)),
        sha256_of(offered) != sha256_of(correct) ==> stored != sha256_of(offered),
{
}

} // verus!
