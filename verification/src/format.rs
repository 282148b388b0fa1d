//! The container framing codec: fixed-width zero-padded decimal fields,
//! the byte layout of an embedded stream (signature, password section,
//! file count, then per file its framed header and content), and the
//! parser that layout is proved to round-trip through.

use vstd::prelude::*;
use vstd::arithmetic::div_mod::lemma_fundamental_div_mod;

verus! {

/// An ASCII decimal digit.
pub open spec fn is_digit(b: u8) -> bool {
    48 <= b <= 57
}

/// Every byte is an ASCII decimal digit.
pub open spec fn is_dec(s: Seq<u8>) -> bool {
    forall|i: int| 0 <= i < s.len() ==> is_digit(#[trigger] s[i])
}

/// Ten to the `w`.
pub open spec fn pow10(w: nat) -> int
    decreases w,
{
    if w == 0 {
        1
    } else {
        10 * pow10((w - 1) as nat)
    }
}

/// `n` rendered as exactly `width` ASCII digits, zero-padded.
pub open spec fn dec_str(n: int, width: nat) -> Seq<u8>
    decreases width,
{
    if width == 0 {
        Seq::empty()
    } else {
        dec_str(n / 10, (width - 1) as nat).push((48 + n % 10) as u8)
    }
}

/// The value of an ASCII digit string.
pub open spec fn dec_val(s: Seq<u8>) -> int
    decreases s.len(),
{
    if s.len() == 0 {
        0
    } else {
        dec_val(s.drop_last()) * 10 + (s.last() - 48)
    }
}

/// A fixed-width decimal rendering has that width, is all digits, and
/// reads back as the number it was made from.
pub proof fn lemma_dec_round_trip(n: int, width: nat)
    requires
        0 <= n < pow10(width),
    ensures
        dec_str(n, width).len() == width,
        is_dec(dec_str(n, width)),
        dec_val(dec_str(n, width)) == n,
    decreases width,
{
    if width == 0 {
    } else {
        assert(n / 10 < pow10((width - 1) as nat) && 0 <= n / 10 && 0 <= n % 10 < 10)
            by (nonlinear_arith)
            requires
                0 <= n < pow10(width),
                pow10(width) == 10 * pow10((width - 1) as nat),
        ;
        lemma_dec_round_trip(n / 10, (width - 1) as nat);
        let s = dec_str(n, width);
        let prefix = dec_str(n / 10, (width - 1) as nat);
        assert(s.drop_last() =~= prefix);
        assert(dec_val(s) == dec_val(prefix) * 10 + (n % 10));
        lemma_fundamental_div_mod(n, 10);
    }
}

/// The password section: 'N' alone, or 'Y' followed by the stored digest.
pub open spec fn pw_stream(pw: Option<Seq<u8>>) -> Seq<u8> {
    match pw {
        Option::None => seq![78u8],
        Option::Some(digest) => seq![89u8].add(digest),
    }
}

/// The framed bytes of one file: 3-digit name length, the name, 10-digit
/// content size, then the content itself.
pub open spec fn entry_stream(name: Seq<u8>, content: Seq<u8>) -> Seq<u8> {
    dec_str(name.len() as int, 3).add(name).add(dec_str(content.len() as int, 10)).add(content)
}

/// The framed bytes of a sequence of files, in order.
pub open spec fn entries_stream(files: Seq<(Seq<u8>, Seq<u8>)>) -> Seq<u8>
    decreases files.len(),
{
    if files.len() == 0 {
        Seq::empty()
    } else {
        entry_stream(files[0].0, files[0].1).add(entries_stream(files.skip(1)))
    }
}

/// The whole embedded stream: signature, password section, 3-digit file
/// count, then the framed files.
pub open spec fn container_stream(
    sig: Seq<u8>,
    pw: Option<Seq<u8>>,
    files: Seq<(Seq<u8>, Seq<u8>)>,
) -> Seq<u8> {
    sig.add(pw_stream(pw)).add(dec_str(files.len() as int, 3)).add(entries_stream(files))
}

/// A file's name and content fit their fixed-width decimal fields.
pub open spec fn wf_entry(name: Seq<u8>, content: Seq<u8>) -> bool {
    name.len() <= 999 && content.len() <= 9_999_999_999
}

/// Every file fits its fields.
pub open spec fn wf_entries(files: Seq<(Seq<u8>, Seq<u8>)>) -> bool {
    forall|i: int| 0 <= i < files.len() ==> wf_entry(#[trigger] files[i].0, files[i].1)
}

/// Parse one framed file from the head of `s`: the file and the number
/// of bytes its frame occupies, or nothing if `s` is too short or a
/// decimal field is malformed.
pub open spec fn parse_entry(s: Seq<u8>) -> Option<((Seq<u8>, Seq<u8>), int)> {
    if s.len() < 3 || !is_dec(s.subrange(0, 3)) {
        Option::None
    } else {
        let nl = dec_val(s.subrange(0, 3));
        if s.len() < 13 + nl || !is_dec(s.subrange(3 + nl, 13 + nl)) {
            Option::None
        } else {
            let sz = dec_val(s.subrange(3 + nl, 13 + nl));
            if s.len() < 13 + nl + sz {
                Option::None
            } else {
                Option::Some(
                    ((s.subrange(3, 3 + nl), s.subrange(13 + nl, 13 + nl + sz)), 13 + nl + sz),
                )
            }
        }
    }
}

/// Parse `k` framed files from the head of `s`.
pub open spec fn parse_entries(s: Seq<u8>, k: nat) -> Option<Seq<(Seq<u8>, Seq<u8>)>>
    decreases k,
{
    if k == 0 {
        Option::Some(Seq::empty())
    } else {
        match parse_entry(s) {
            Option::None => Option::None,
            Option::Some(pr) => match parse_entries(s.skip(pr.1), (k - 1) as nat) {
                Option::None => Option::None,
                Option::Some(rest) => Option::Some(seq![pr.0].add(rest)),
            },
        }
    }
}

/// Parse the payload that follows the signature and the password
/// section: the 3-digit file count, then that many framed files.
pub open spec fn parse_payload(s: Seq<u8>) -> Option<Seq<(Seq<u8>, Seq<u8>)>> {
    if s.len() < 3 || !is_dec(s.subrange(0, 3)) {
        Option::None
    } else {
        parse_entries(s.skip(3), dec_val(s.subrange(0, 3)) as nat)
    }
}

/// Parsing the head of a stream that starts with one framed file yields
/// that file and consumes exactly its frame.
pub proof fn lemma_parse_entry_stream(name: Seq<u8>, content: Seq<u8>, rest: Seq<u8>)
    requires
        wf_entry(name, content),
    ensures
        parse_entry(entry_stream(name, content).add(rest)) == Option::Some(
            ((name, content), entry_stream(name, content).len() as int),
        ),
{
    let nl = name.len() as int;
    let sz = content.len() as int;
    let s = entry_stream(name, content).add(rest);
    assert(pow10(3) == 1000 && pow10(10) == 10_000_000_000) by {
        reveal_with_fuel(pow10, 12);
    }
    lemma_dec_round_trip(nl, 3);
    lemma_dec_round_trip(sz, 10);
    assert(s.subrange(0, 3) =~= dec_str(nl, 3));
    assert(s.subrange(3, 3 + nl) =~= name);
    assert(s.subrange(3 + nl, 13 + nl) =~= dec_str(sz, 10));
    assert(s.subrange(13 + nl, 13 + nl + sz) =~= content);
}

/// Parsing the head of a stream that starts with `files.len()` framed
/// files yields exactly those files.
pub proof fn lemma_parse_entries_stream(files: Seq<(Seq<u8>, Seq<u8>)>, rest: Seq<u8>)
    requires
        wf_entries(files),
    ensures
        parse_entries(entries_stream(files).add(rest), files.len()) == Option::Some(files),
    decreases files.len(),
{
    if files.len() == 0 {
        assert(parse_entries(entries_stream(files).add(rest), 0) == Option::Some(
            Seq::<(Seq<u8>, Seq<u8>)>::empty(),
        ));
        assert(files =~= Seq::<(Seq<u8>, Seq<u8>)>::empty());
    } else {
        let head = entry_stream(files[0].0, files[0].1);
        let tail = entries_stream(files.skip(1));
        let s = entries_stream(files).add(rest);
        assert(s =~= head.add(tail.add(rest)));
        lemma_parse_entry_stream(files[0].0, files[0].1, tail.add(rest));
        assert(parse_entry(s) == Option::Some(((files[0].0, files[0].1), head.len() as int)));
        assert(s.skip(head.len() as int) =~= tail.add(rest));
        assert(wf_entries(files.skip(1)));
        lemma_parse_entries_stream(files.skip(1), rest);
        assert(seq![(files[0].0, files[0].1)].add(files.skip(1)) =~= files);
    }
}

/// Appending one file to a sequence appends its frame to the framed
/// bytes of the sequence.
pub proof fn lemma_entries_stream_push(files: Seq<(Seq<u8>, Seq<u8>)>, e: (Seq<u8>, Seq<u8>))
    ensures
        entries_stream(files.push(e)) == entries_stream(files).add(entry_stream(e.0, e.1)),
    decreases files.len(),
{
    if files.len() == 0 {
        assert(files.push(e)[0] == e);
        assert(files.push(e).skip(1) =~= Seq::<(Seq<u8>, Seq<u8>)>::empty());
        assert(entries_stream(files.push(e)) == entry_stream(e.0, e.1).add(
            entries_stream(files.push(e).skip(1)),
        ));
        assert(entries_stream(files.push(e).skip(1)) == Seq::<u8>::empty());
        assert(entries_stream(files) == Seq::<u8>::empty());
        assert(entries_stream(files.push(e)) =~= entries_stream(files).add(
            entry_stream(e.0, e.1),
        ));
    } else {
        assert(files.push(e)[0] == files[0]);
        assert(files.push(e).skip(1) =~= files.skip(1).push(e));
        lemma_entries_stream_push(files.skip(1), e);
        assert(entries_stream(files.push(e)) == entry_stream(files[0].0, files[0].1).add(
            entries_stream(files.skip(1).push(e)),
        ));
        assert(entries_stream(files.skip(1).push(e)) == entries_stream(files.skip(1)).add(
            entry_stream(e.0, e.1),
        ));
        assert(entries_stream(files.push(e)) =~= entries_stream(files).add(
            entry_stream(e.0, e.1),
        ));
    }
}

/// Encode `n` as exactly `width` ASCII digits, zero-padded.
#[verifier::loop_isolation(false)]
pub fn encode_dec(n: u64, width: usize) -> (r: Vec<u8>)
    requires
        n < pow10(width as nat),
    ensures
        r@ == dec_str(n as int, width as nat),
        r@.len() == width,
{
    let mut r: Vec<u8> = Vec::new();
    let mut i: usize = 0;
    while i < width
        invariant
            i <= width,
            r@.len() == i,
        decreases width - i,
    {
        r.push(48);
        i = i + 1;
    }
    let mut m: u64 = n;
    let mut d: usize = 0;
    proof {
        assert(r@.subrange(width as int, width as int) =~= Seq::<u8>::empty());
        assert(dec_str(m as int, width as nat).add(Seq::empty()) =~= dec_str(
            m as int,
            width as nat,
        ));
    }
    while d < width
        invariant
            d <= width,
            r@.len() == width,
            dec_str(m as int, (width - d) as nat).add(
                r@.subrange((width - d) as int, width as int),
            ) =~= dec_str(n as int, width as nat),
        decreases width - d,
    {
        let ghost oldr = r@;
        let ghost wd = (width - d) as int;
        let digit: u8 = 48 + (m % 10) as u8;
        r.set(width - 1 - d, digit);
        proof {
            assert(dec_str(m as int, (wd) as nat) == dec_str((m as int) / 10, (wd - 1) as nat).push(
                digit,
            ));
            assert(r@.subrange(wd - 1, width as int) =~= seq![digit].add(
                oldr.subrange(wd, width as int),
            ));
            assert(dec_str((m as int) / 10, (wd - 1) as nat).add(
                r@.subrange(wd - 1, width as int),
            ) =~= dec_str(m as int, wd as nat).add(oldr.subrange(wd, width as int)));
        }
        m = m / 10;
        d = d + 1;
    }
    proof {
        assert(r@.subrange(0, width as int) =~= r@);
        assert(dec_str(m as int, 0).add(r@) =~= r@);
    }
    r
}

/// Decode a fixed-width ASCII decimal field: its value, or nothing if a
/// byte is not a digit.
#[verifier::loop_isolation(false)]
pub fn decode_dec(bytes: &[u8]) -> (r: Option<u64>)
    requires
        bytes@.len() <= 19,
    ensures
        r is Some <==> is_dec(bytes@),
        r matches Some(v) ==> v == dec_val(bytes@),
{
    let n: usize = bytes.len();
    let mut acc: u64 = 0;
    let mut i: usize = 0;
    proof {
        assert(bytes@.take(0) =~= Seq::<u8>::empty());
    }
    while i < n
        invariant
            i <= n,
            is_dec(bytes@.take(i as int)),
            acc == dec_val(bytes@.take(i as int)),
            acc < pow10(i as nat),
        decreases n - i,
    {
        let b: u8 = bytes[i];
        if b < 48 || b > 57 {
            assert(!is_dec(bytes@));
            return None;
        }
        proof {
            assert(pow10((i + 1) as nat) == 10 * pow10(i as nat));
            lemma_pow10_19_bound(i as nat);
            assert(bytes@.take(i + 1).drop_last() =~= bytes@.take(i as int));
            assert(bytes@.take(i + 1).last() == bytes@[i as int]);
        }
        acc = acc * 10 + ((b - 48) as u64);
        i = i + 1;
    }
    proof {
        assert(bytes@.take(n as int) =~= bytes@);
    }
    Some(acc)
}

/// Ten to a width of at most nineteen digits stays below two to the
/// sixty-four, so a decoded field fits a 64-bit accumulator.
proof fn lemma_pow10_19_bound(w: nat)
    requires
        w <= 18,
    ensures
        10 * pow10(w) <= 10_000_000_000_000_000_000,
    decreases w,
{
    vstd::arithmetic::power::lemma_pow_increases(10, w as nat, 18);
    assert(pow10(18) == 1_000_000_000_000_000_000) by {
        reveal_with_fuel(pow10, 20);
    }
    lemma_pow10_monotone(w, 18);
}

/// Ten to the power is monotone in the width.
proof fn lemma_pow10_monotone(a: nat, b: nat)
    requires
        a <= b,
    ensures
        pow10(a) <= pow10(b),
        0 < pow10(a),
    decreases b,
{
    if a == b {
        lemma_pow10_pos(a);
    } else {
        lemma_pow10_monotone(a, (b - 1) as nat);
        lemma_pow10_pos(b);
        assert(pow10(b) == 10 * pow10((b - 1) as nat));
    }
}

/// Ten to any power is positive.
proof fn lemma_pow10_pos(w: nat)
    ensures
        0 < pow10(w),
    decreases w,
{
    if w > 0 {
        lemma_pow10_pos((w - 1) as nat);
    }
}

} // verus!
