//! What is done to an operand's contents before its lines are read: a UTF-16
//! operand, recognized by its byte order mark, is translated to UTF-8; the
//! first operand keeps its (translated) mark, the others lose theirs.
use crate::lines::{BOM_0, BOM_1, BOM_2};
use crate::outside::{decode_later, decode_utf16, later_text, utf16_decoded};
use vstd::prelude::*;

verus! {

/// The encodings that a byte order mark announces.
#[derive(Clone, Copy, Debug, PartialEq, Eq, Structural)]
pub enum Bom {
    /// `EF BB BF`
    Utf8,
    /// `FF FE`
    Utf16Le,
    /// `FE FF`
    Utf16Be,
}

/// The encoding announced by the byte order mark that `bytes` starts with, and
/// the mark's length.
pub open spec fn bom_of(bytes: Seq<u8>) -> Option<(Bom, usize)> {
    if bytes.len() >= 3 && bytes[0] == BOM_0 && bytes[1] == BOM_1 && bytes[2] == BOM_2 {
        Some((Bom::Utf8, 3))
    } else if bytes.len() >= 2 && bytes[0] == 0xFFu8 && bytes[1] == 0xFEu8 {
        Some((Bom::Utf16Le, 2))
    } else if bytes.len() >= 2 && bytes[0] == 0xFEu8 && bytes[1] == 0xFFu8 {
        Some((Bom::Utf16Be, 2))
    } else {
        None
    }
}

/// What `decode_if_utf16` makes of `candidate`: a UTF-16 text, byte order mark
/// included, decoded to UTF-8; anything else unchanged.
pub open spec fn decoded(candidate: Seq<u8>) -> Seq<u8> {
    match bom_of(candidate) {
        Some((Bom::Utf16Le, _)) => utf16_decoded(false, candidate),
        Some((Bom::Utf16Be, _)) => utf16_decoded(true, candidate),
        _ => candidate,
    }
}

/// The encoding whose byte order mark `buffer` starts with, if any, and the
/// length of the mark (as `encoding_rs::Encoding::for_bom` sniffs it).
pub fn for_bom(buffer: &[u8]) -> (r: Option<(Bom, usize)>)
    ensures
        r == bom_of(buffer@),
{
    let n = buffer.len();
    if n >= 3 && buffer[0] == BOM_0 && buffer[1] == BOM_1 && buffer[2] == BOM_2 {
        Some((Bom::Utf8, 3))
    } else if n >= 2 && buffer[0] == 0xFFu8 && buffer[1] == 0xFEu8 {
        Some((Bom::Utf16Le, 2))
    } else if n >= 2 && buffer[0] == 0xFEu8 && buffer[1] == 0xFFu8 {
        Some((Bom::Utf16Be, 2))
    } else {
        None
    }
}

/// Decode UTF-16 to UTF-8 if we see a UTF-16 Byte Order Mark at the beginning
/// of `candidate`. Otherwise return `candidate` unchanged. The mark itself is
/// decoded too, so a UTF-16 text comes out with a UTF-8 byte order mark;
/// malformed sequences become the Unicode REPLACEMENT CHARACTER.
pub fn decode_if_utf16(candidate: Vec<u8>) -> (r: Vec<u8>)
    requires
        candidate@.len() <= usize::MAX / 2,
    ensures
        r@ == decoded(candidate@),
{
    match for_bom(candidate.as_slice()) {
        Some((Bom::Utf16Le, _)) => decode_utf16(false, candidate.as_slice()),
        Some((Bom::Utf16Be, _)) => decode_utf16(true, candidate.as_slice()),
        _ => candidate,
    }
}

/// The texts of the operands after the first, as their bytes `rest` read.
pub open spec fn later_texts(rest: Seq<Vec<u8>>) -> Seq<Seq<u8>> {
    rest.map_values(|v: Vec<u8>| later_text(v@))
}

/// The text of each operand after the first: a UTF-16 operand decoded to
/// UTF-8, and any byte order mark removed. An operand without a mark comes out
/// as it is; one with a UTF-8 mark loses the mark's three bytes.
pub fn decode_later_operands(rest: &[Vec<u8>]) -> (r: Vec<Vec<u8>>)
    ensures
        r@.map_values(|v: Vec<u8>| v@) == later_texts(rest@),
        r@.len() == rest@.len(),
        forall|i: int|
            0 <= i < rest@.len() && bom_of(#[trigger] rest@[i]@) is None ==> r@[i]@ == rest@[i]@,
        forall|i: int|
            0 <= i < rest@.len() && (bom_of(#[trigger] rest@[i]@) matches Some((Bom::Utf8, _)))
                ==> r@[i]@ == rest@[i]@.skip(3),
{
    let mut texts: Vec<Vec<u8>> = Vec::new();
    let mut k: usize = 0;
    while k < rest.len()
        invariant
            k <= rest@.len(),
            texts@.map_values(|v: Vec<u8>| v@) == later_texts(rest@.take(k as int)),
            texts@.len() == k,
            forall|i: int|
                0 <= i < k && bom_of(#[trigger] rest@[i]@) is None ==> texts@[i]@ == rest@[i]@,
            forall|i: int|
                0 <= i < k && (bom_of(#[trigger] rest@[i]@) matches Some((Bom::Utf8, _)))
                    ==> texts@[i]@ == rest@[i]@.skip(3),
        decreases rest@.len() - k,
    {
        let text = decode_later(rest[k].as_slice());
        assert(text@ == later_text(rest@[k as int]@));
        let ghost before = texts@;
        texts.push(text);
        assert(rest@.take(k + 1).drop_last() =~= rest@.take(k as int));
        assert(later_texts(rest@.take(k + 1)) =~= later_texts(rest@.take(k as int)).push(text@));
        assert(texts@.map_values(|v: Vec<u8>| v@) =~= before.map_values(|v: Vec<u8>| v@).push(text@));
        assert(texts@.map_values(|v: Vec<u8>| v@) =~= later_texts(rest@.take(k + 1)));
        k = k + 1;
    }
    assert(rest@.take(rest@.len() as int) =~= rest@);
    texts
}

} // verus!
