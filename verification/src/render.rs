//! The bytes that a calculation writes: lines with the chosen terminator,
//! optionally preceded by a byte order mark, and optionally each preceded by a
//! right-aligned count.
use crate::lines::{bom_bytes, terminator};
use vstd::prelude::*;

verus! {

/// The byte ` `.
pub const SPACE: u8 = 32u8;

/// The decimal digits of `n`, most significant first.
pub open spec fn decimal(n: nat) -> Seq<u8>
    decreases n,
{
    if n < 10 {
        seq![(48 + n) as u8]
    } else {
        decimal(n / 10).push((48 + n % 10) as u8)
    }
}

/// `k` spaces.
pub open spec fn spaces(k: nat) -> Seq<u8> {
    Seq::new(k, |i: int| SPACE)
}

/// `n` in decimal, right-aligned in a field of `width` bytes (wider if needed).
pub open spec fn padded(n: nat, width: nat) -> Seq<u8> {
    let d = decimal(n);
    if d.len() >= width {
        d
    } else {
        spaces((width - d.len()) as nat) + d
    }
}

/// The text written in place of a line count that reached `u32::MAX`.
pub open spec fn overflow_text() -> Seq<u8> {
    seq![SPACE, 111u8, 118u8, 101u8, 114u8, 102u8, 108u8, 111u8, 119u8, SPACE, SPACE]
}

/// The count written before a line: `v` right-aligned in `width` bytes and a
/// space, or ` overflow  ` if `marks_overflow` and `v` is `u32::MAX`.
pub open spec fn count_text(v: u32, width: nat, marks_overflow: bool) -> Seq<u8> {
    if marks_overflow && v == u32::MAX {
        overflow_text()
    } else {
        padded(v as nat, width).push(SPACE)
    }
}

/// The largest of `counts` (0 if there are none).
pub open spec fn max_count(counts: Seq<u32>) -> u32
    decreases counts.len(),
{
    if counts.len() == 0 {
        0
    } else {
        let m = max_count(counts.drop_last());
        if counts.last() > m {
            counts.last()
        } else {
            m
        }
    }
}

/// The byte order mark if `bom`, else nothing.
pub open spec fn bom_prefix(bom: bool) -> Seq<u8> {
    if bom {
        bom_bytes()
    } else {
        Seq::empty()
    }
}

/// Each of `keys` followed by the terminator.
pub open spec fn lines_text(keys: Seq<Seq<u8>>, crlf: bool) -> Seq<u8>
    decreases keys.len(),
{
    if keys.len() == 0 {
        Seq::empty()
    } else {
        lines_text(keys.drop_last(), crlf) + keys.last() + terminator(crlf)
    }
}

/// The output of a calculation that reports no counts.
pub open spec fn plain_output(bom: bool, crlf: bool, keys: Seq<Seq<u8>>) -> Seq<u8> {
    bom_prefix(bom) + lines_text(keys, crlf)
}

/// Each of `keys` preceded by its count and followed by the terminator.
pub open spec fn annotated_text(
    keys: Seq<Seq<u8>>,
    counts: Seq<u32>,
    width: nat,
    marks_overflow: bool,
    crlf: bool,
) -> Seq<u8>
    decreases keys.len(),
{
    if keys.len() == 0 {
        Seq::empty()
    } else {
        annotated_text(keys.drop_last(), counts, width, marks_overflow, crlf) + count_text(
            counts[keys.len() - 1],
            width,
            marks_overflow,
        ) + keys.last() + terminator(crlf)
    }
}

/// The output of a calculation that reports a count for each line: the byte
/// order mark, if any, then the lines with their counts, all counts padded to
/// the width of the largest.
pub open spec fn annotated_output(
    bom: bool,
    crlf: bool,
    keys: Seq<Seq<u8>>,
    counts: Seq<u32>,
    marks_overflow: bool,
) -> Seq<u8> {
    bom_prefix(bom) + annotated_text(
        keys,
        counts,
        decimal(max_count(counts) as nat).len(),
        marks_overflow,
        crlf,
    )
}

/// A `u32` has at most ten decimal digits.
pub proof fn lemma_decimal_len(n: nat)
    ensures
        1 <= decimal(n).len(),
        n <= u32::MAX ==> decimal(n).len() <= 10,
    decreases n,
{
    if n >= 10 {
        lemma_decimal_len(n / 10);
        if n <= u32::MAX {
            lemma_decimal_short(n);
        }
    }
}

proof fn lemma_decimal_short(n: nat)
    requires
        n <= u32::MAX,
    ensures
        decimal(n).len() <= 10,
{
    let n1 = n / 10;
    let n2 = n1 / 10;
    let n3 = n2 / 10;
    let n4 = n3 / 10;
    let n5 = n4 / 10;
    let n6 = n5 / 10;
    let n7 = n6 / 10;
    let n8 = n7 / 10;
    let n9 = n8 / 10;
    assert(n9 < 10);
    assert(decimal(n9).len() == 1);
    assert(decimal(n8).len() <= 2);
    assert(decimal(n7).len() <= 3);
    assert(decimal(n6).len() <= 4);
    assert(decimal(n5).len() <= 5);
    assert(decimal(n4).len() <= 6);
    assert(decimal(n3).len() <= 7);
    assert(decimal(n2).len() <= 8);
    assert(decimal(n1).len() <= 9);
}

/// Appends `bytes` to `out`.
pub fn push_bytes(out: &mut Vec<u8>, bytes: &[u8])
    ensures
        final(out)@ == old(out)@ + bytes@,
{
    let mut i: usize = 0;
    while i < bytes.len()
        invariant
            i <= bytes@.len(),
            out@ == old(out)@ + bytes@.take(i as int),
        decreases bytes@.len() - i,
    {
        out.push(bytes[i]);
        i = i + 1;
        assert(out@ =~= old(out)@ + bytes@.take(i as int));
    }
    assert(bytes@.take(bytes@.len() as int) =~= bytes@);
}

/// Appends the decimal digits of `n`.
pub fn push_decimal(out: &mut Vec<u8>, n: u32)
    ensures
        final(out)@ == old(out)@ + decimal(n as nat),
    decreases n,
{
    if n < 10 {
        out.push(48u8 + n as u8);
        assert(final(out)@ =~= old(out)@ + decimal(n as nat)) by {
            assert(decimal(n as nat) =~= seq![(48 + n) as u8]);
        }
    } else {
        push_decimal(out, n / 10);
        out.push(48u8 + (n % 10) as u8);
        assert(out@ =~= old(out)@ + decimal(n as nat));
    }
}

/// The number of decimal digits of `n`.
pub fn decimal_width(n: u32) -> (r: usize)
    ensures
        r == decimal(n as nat).len(),
        1 <= r <= 10,
{
    let mut digits: Vec<u8> = Vec::new();
    push_decimal(&mut digits, n);
    proof {
        lemma_decimal_len(n as nat);
        assert(digits@ =~= decimal(n as nat));
    }
    digits.len()
}

/// Appends `n` right-aligned in a field of `width` bytes.
pub fn push_padded(out: &mut Vec<u8>, n: u32, width: usize)
    ensures
        final(out)@ == old(out)@ + padded(n as nat, width as nat),
{
    let digits = decimal_width(n);
    if digits < width {
        let mut k: usize = 0;
        while k < width - digits
            invariant
                digits < width,
                k <= width - digits,
                out@ == old(out)@ + spaces(k as nat),
            decreases width - digits - k,
        {
            out.push(SPACE);
            k = k + 1;
            assert(out@ =~= old(out)@ + spaces(k as nat));
        }
    }
    let ghost mid = out@;
    push_decimal(out, n);
    assert(out@ =~= old(out)@ + padded(n as nat, width as nat));
}

/// Appends the count text for `v` (see `count_text`).
pub fn push_count(out: &mut Vec<u8>, v: u32, width: usize, marks_overflow: bool)
    ensures
        final(out)@ == old(out)@ + count_text(v, width as nat, marks_overflow),
{
    if marks_overflow && v == u32::MAX {
        let text: [u8; 11] = [SPACE, 111u8, 118u8, 101u8, 114u8, 102u8, 108u8, 111u8, 119u8, SPACE, SPACE];
        push_bytes(out, &text);
        assert(text@ =~= overflow_text());
    } else {
        push_padded(out, v, width);
        out.push(SPACE);
    }
}

/// Appends the byte order mark if `bom`.
pub fn push_bom(out: &mut Vec<u8>, bom: bool)
    ensures
        final(out)@ == old(out)@ + bom_prefix(bom),
{
    if bom {
        out.push(0xEFu8);
        out.push(0xBBu8);
        out.push(0xBFu8);
        assert(out@ =~= old(out)@ + bom_bytes());
    } else {
        assert(out@ =~= old(out)@ + Seq::<u8>::empty());
    }
}

/// Appends the line terminator.
pub fn push_terminator(out: &mut Vec<u8>, crlf: bool)
    ensures
        final(out)@ == old(out)@ + terminator(crlf),
{
    if crlf {
        out.push(13u8);
    }
    out.push(10u8);
    assert(out@ =~= old(out)@ + terminator(crlf));
}

} // verus!
