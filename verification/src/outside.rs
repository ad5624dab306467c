//! The calls into outside crates that the library makes, each with the
//! contract that the crate's source shows.
use crate::operands::{bom_of, Bom};
use crate::styles::{shade_end, shade_start, Shade};
use encoding_rs_io::DecodeReaderBytesBuilder;
use std::io::Read;
use anstyle::{AnsiColor, Color, Style};
use std::borrow::Cow;
use std::hash::BuildHasherDefault;
use fxhash::{FxBuildHasher, FxHasher};
use indexmap::IndexSet;
use vstd::prelude::*;

verus! {

/// `fxhash::FxHasher`, the hasher that the line index is built with.
#[verifier::external_type_specification]
#[verifier::external_body]
pub struct ExFxHasher(FxHasher);

/// `std::hash::BuildHasherDefault`, which builds a `FxHasher` for the line index.
#[verifier::external_type_specification]
#[verifier::external_body]
#[verifier::reject_recursive_types(H)]
pub struct ExBuildHasherDefault<H>(BuildHasherDefault<H>);

/// `std::path::PathBuf`, the path of an operand, carried through unread.
#[verifier::external_type_specification]
#[verifier::external_body]
pub struct ExPathBuf(std::path::PathBuf);

/// `indexmap::IndexSet`, which keeps its items in the order of insertion.
#[verifier::external_type_specification]
#[verifier::external_body]
#[verifier::reject_recursive_types(T)]
#[verifier::reject_recursive_types(S)]
pub struct ExIndexSet<T, S>(IndexSet<T, S>);

/// The lines that a line index holds, in the order in which they were first inserted.
pub uninterp spec fn indexed_lines(set: IndexSet<Cow<[u8]>, FxBuildHasher>) -> Seq<Seq<u8>>;

/// `IndexSet::default`: an empty set.
#[verifier::external_body]
pub(crate) fn new_line_index<'a>() -> (r: IndexSet<Cow<'a, [u8]>, FxBuildHasher>)
    ensures
        indexed_lines(r) == Seq::<Seq<u8>>::empty(),
{
    IndexSet::default()
}

/// `IndexSet::insert_full`: if an equal line is already present, the set is
/// unchanged and its index is returned with `false`; otherwise the line is
/// appended and its index, the old length, is returned with `true`.
#[verifier::external_body]
pub(crate) fn index_insert<'a>(set: &mut IndexSet<Cow<'a, [u8]>, FxBuildHasher>, line: Cow<'a, [u8]>) -> (r: (usize, bool))
    ensures
        indexed_lines(*old(set)).contains(line@) ==> {
            &&& !r.1
            &&& indexed_lines(*final(set)) == indexed_lines(*old(set))
            &&& r.0 < indexed_lines(*old(set)).len()
            &&& indexed_lines(*old(set))[r.0 as int] == line@
        },
        !indexed_lines(*old(set)).contains(line@) ==> {
            &&& r.1
            &&& r.0 == indexed_lines(*old(set)).len()
            &&& indexed_lines(*final(set)) == indexed_lines(*old(set)).push(line@)
        },
{
    set.insert_full(line)
}

/// `IndexSet::get_index_of`: the index of the line equal to `line`, if there is one.
#[verifier::external_body]
pub(crate) fn index_of(set: &IndexSet<Cow<[u8]>, FxBuildHasher>, line: &[u8]) -> (r: Option<usize>)
    ensures
        r matches Some(i) ==> i < indexed_lines(*set).len() && indexed_lines(*set)[i as int] == line@,
        r is None ==> !indexed_lines(*set).contains(line@),
{
    set.get_index_of(line)
}

/// `IndexSet::len`: the number of lines held.
#[verifier::external_body]
pub(crate) fn index_len(set: &IndexSet<Cow<[u8]>, FxBuildHasher>) -> (r: usize)
    ensures
        r == indexed_lines(*set).len(),
{
    set.len()
}

/// `IndexSet::get_index`: the line at index `i` (which exists).
#[verifier::external_body]
pub(crate) fn index_line<'b, 'a>(set: &'b IndexSet<Cow<'a, [u8]>, FxBuildHasher>, i: usize) -> (r: &'b [u8])
    requires
        i < indexed_lines(*set).len(),
    ensures
        r@ == indexed_lines(*set)[i as int],
{
    set.get_index(i).unwrap()
}

/// `IndexSet::into_iter`: the lines, moved out in their order.
#[verifier::external_body]
pub(crate) fn index_into_lines<'a>(set: IndexSet<Cow<'a, [u8]>, FxBuildHasher>) -> (r: Vec<Cow<'a, [u8]>>)
    ensures
        r@.len() == indexed_lines(set).len(),
        forall|i: int| 0 <= i < r@.len() ==> #[trigger] r@[i]@ == indexed_lines(set)[i],
{
    set.into_iter().collect()
}

/// `std::mem::forget`: abandons `value` without running its destructor. Nothing
/// is stated of it: the value is gone.
#[verifier::external_body]
pub(crate) fn discard<T>(value: T) {
    std::mem::forget(value)
}

/// `memchr::memchr`: the index of the first occurrence of `needle` in `haystack`, if any.
#[verifier::external_body]
pub(crate) fn find_byte(needle: u8, haystack: &[u8]) -> (r: Option<usize>)
    ensures
        r matches Some(i) ==> {
            &&& i < haystack@.len()
            &&& haystack@[i as int] == needle
            &&& forall|j: int| 0 <= j < i ==> haystack@[j] != needle
        },
        r is None ==> forall|j: int| 0 <= j < haystack@.len() ==> haystack@[j] != needle,
{
    memchr::memchr(needle, haystack)
}

/// The UTF-8 text that `encoding_rs` decodes from the UTF-16 bytes `bytes`
/// (big-endian if `big_endian`, else little-endian), without treating a byte
/// order mark specially.
pub uninterp spec fn utf16_decoded(big_endian: bool, bytes: Seq<u8>) -> Seq<u8>;

/// `encoding_rs::Encoding::decode_without_bom_handling`, called on `UTF_16BE`
/// if `big_endian`, else on `UTF_16LE`: the decoded text as UTF-8 bytes, with
/// malformed sequences replaced. Nothing is stated of the text but that it is
/// a function of the two arguments. The length bound keeps the size of the
/// buffer that the call reserves within `usize`.
#[verifier::external_body]
pub(crate) fn decode_utf16(big_endian: bool, bytes: &[u8]) -> (r: Vec<u8>)
    requires
        bytes@.len() <= usize::MAX / 2,
    ensures
        r@ == utf16_decoded(big_endian, bytes@),
{
    let encoding = if big_endian { encoding_rs::UTF_16BE } else { encoding_rs::UTF_16LE };
    let (text, _had_malformed_sequences) = encoding.decode_without_bom_handling(bytes);
    text.into_owned().into_bytes()
}

/// The lines that `textwrap` breaks `text` into, for lines of `width` columns
/// with the first line indented by `initial_indent` and the others by
/// `subsequent_indent`, the other options left at their defaults.
pub uninterp spec fn wrapped(
    text: Seq<char>,
    width: nat,
    initial_indent: Seq<char>,
    subsequent_indent: Seq<char>,
) -> Seq<Seq<char>>;

/// `textwrap::wrap`, with `textwrap::Options::new(width)` and the two indents:
/// the lines, each owned. Nothing is stated of them but that they are a
/// function of the four arguments.
#[verifier::external_body]
pub(crate) fn wrap_text(text: &str, width: usize, initial_indent: &str, subsequent_indent: &str) -> (r: Vec<String>)
    ensures
        r@.len() == wrapped(text@, width as nat, initial_indent@, subsequent_indent@).len(),
        forall|i: int|
            0 <= i < r@.len() ==> #[trigger] r@[i]@ == wrapped(
                text@,
                width as nat,
                initial_indent@,
                subsequent_indent@,
            )[i],
{
    let options = textwrap::Options::new(width).initial_indent(initial_indent).subsequent_indent(
        subsequent_indent,
    );
    textwrap::wrap(text, options).into_iter().map(|line| line.into_owned()).collect()
}

/// `anstyle::Style::render` and `anstyle::Style::render_reset`, for the style
/// of `shade` (green, bold green or yellow foreground): the codes that start
/// and end text in that style. As anstyle writes them, a style starts with
/// its effects (`ESC [1m` for bold) and then its foreground color
/// (`ESC [32m` green, `ESC [33m` yellow), and a style that is not plain ends
/// with the reset `ESC [0m`.
#[verifier::external_body]
pub(crate) fn shade_codes(shade: Shade) -> (r: (String, String))
    ensures
        r.0@ == shade_start(shade),
        r.1@ == shade_end(shade),
{
    let style = match shade {
        Shade::Green => Style::new().fg_color(Some(Color::Ansi(AnsiColor::Green))),
        Shade::BoldGreen => Style::new().fg_color(Some(Color::Ansi(AnsiColor::Green))).bold(),
        Shade::Yellow => Style::new().fg_color(Some(Color::Ansi(AnsiColor::Yellow))),
    };
    (style.render().to_string(), style.render_reset().to_string())
}

/// The text that `encoding_rs_io` reads from the bytes `raw` of an operand
/// after the first, with BOM sniffing, BOM stripping and UTF-8 passthrough.
pub uninterp spec fn later_text(raw: Seq<u8>) -> Seq<u8>;

/// `encoding_rs_io::DecodeReaderBytesBuilder`, with `bom_sniffing(true)`,
/// `strip_bom(true)` and `utf8_passthru(true)`, built on `raw` and read to
/// its end: a UTF-16 text (by its byte order mark) decoded to UTF-8 without
/// the mark, a UTF-8 text without its mark, anything else as it is. What
/// decoding UTF-16 gives is left unsaid. The reader passes on only the
/// errors of the reader it wraps, and reading a byte slice does not fail.
#[verifier::external_body]
pub(crate) fn decode_later(raw: &[u8]) -> (r: Vec<u8>)
    ensures
        r@ == later_text(raw@),
        bom_of(raw@) is None ==> r@ == raw@,
        bom_of(raw@) matches Some((Bom::Utf8, _)) ==> r@ == raw@.skip(3),
{
    let mut reader = DecodeReaderBytesBuilder::new()
        .bom_sniffing(true)
        .strip_bom(true)
        .utf8_passthru(true)
        .build(raw);
    let mut text = Vec::new();
    match reader.read_to_end(&mut text) {
        Ok(_) => text,
        Err(_) => Vec::new(),
    }
}

} // verus!
