//! How a byte string is read as lines, and what the first operand says about
//! the output: whether it starts with a byte order mark, and which line
//! terminator its first line uses.
use crate::outside::find_byte;
use vstd::prelude::*;
use vstd::slice::slice_subrange;

verus! {

/// The byte `\n`.
pub const NEWLINE: u8 = 10u8;

/// The byte `\r`.
pub const CARRIAGE_RETURN: u8 = 13u8;

/// `e` is the index of the first `\n` in `s`.
pub open spec fn is_first_newline(s: Seq<u8>, e: int) -> bool {
    &&& 0 <= e < s.len()
    &&& s[e] == NEWLINE
    &&& forall|j: int| 0 <= j < e ==> s[j] != NEWLINE
}

/// `s` contains a `\n`.
pub open spec fn has_newline(s: Seq<u8>) -> bool {
    exists|e: int| is_first_newline(s, e)
}

/// The index of the first `\n` in `s` (meaningful when `has_newline(s)`).
pub open spec fn first_newline(s: Seq<u8>) -> int {
    choose|e: int| is_first_newline(s, e)
}

/// A line without a final `\r`, if it has one.
pub open spec fn strip_cr(line: Seq<u8>) -> Seq<u8> {
    if line.len() > 0 && line.last() == CARRIAGE_RETURN {
        line.drop_last()
    } else {
        line
    }
}

/// The lines of `s`: the pieces between `\n` bytes, each without a `\r` that
/// ends it, and then what follows the last `\n`, unless that is empty.
pub open spec fn split_lines(s: Seq<u8>) -> Seq<Seq<u8>>
    decreases s.len(),
{
    if has_newline(s) {
        let e = first_newline(s);
        seq![strip_cr(s.take(e))] + split_lines(s.skip(e + 1))
    } else if s.len() == 0 {
        Seq::empty()
    } else {
        seq![s]
    }
}

/// The first byte of a UTF-8 byte order mark.
pub const BOM_0: u8 = 0xEFu8;

/// The second byte of a UTF-8 byte order mark.
pub const BOM_1: u8 = 0xBBu8;

/// The third byte of a UTF-8 byte order mark.
pub const BOM_2: u8 = 0xBFu8;

/// The bytes of a UTF-8 byte order mark.
pub open spec fn bom_bytes() -> Seq<u8> {
    seq![BOM_0, BOM_1, BOM_2]
}

/// `s` starts with a UTF-8 byte order mark.
pub open spec fn starts_with_bom(s: Seq<u8>) -> bool {
    s.len() >= 3 && s.take(3) == bom_bytes()
}

/// `s` without its byte order mark, if it has one.
pub open spec fn without_bom(s: Seq<u8>) -> Seq<u8> {
    if starts_with_bom(s) {
        s.skip(3)
    } else {
        s
    }
}

/// The first line of `s` ends with `\r\n`.
pub open spec fn first_line_ends_crlf(s: Seq<u8>) -> bool {
    has_newline(s) && first_newline(s) > 0 && s[first_newline(s) - 1] == CARRIAGE_RETURN
}

/// The line terminator for output: `\r\n` if `crlf`, else `\n`.
pub open spec fn terminator(crlf: bool) -> Seq<u8> {
    if crlf {
        seq![CARRIAGE_RETURN, NEWLINE]
    } else {
        seq![NEWLINE]
    }
}

/// The views of a sequence of borrowed lines.
pub open spec fn line_views(lines: Seq<&[u8]>) -> Seq<Seq<u8>> {
    lines.map_values(|l: &[u8]| l@)
}

/// The first `\n` is unique.
pub proof fn lemma_first_newline_is(s: Seq<u8>, e: int)
    requires
        is_first_newline(s, e),
    ensures
        has_newline(s),
        first_newline(s) == e,
{
    let c = first_newline(s);
    assert(is_first_newline(s, c));
    if c < e {
        assert(s[c] == NEWLINE);
    } else if e < c {
        assert(s[e] == NEWLINE);
    }
}

/// A final `\n` adds no line: `s` followed by `\n` has the lines of `s`, if
/// `s` is not empty and ends in neither `\n` nor `\r`.
pub proof fn lemma_final_newline(s: Seq<u8>)
    requires
        s.len() > 0,
        s.last() != NEWLINE,
        s.last() != CARRIAGE_RETURN,
    ensures
        split_lines(s.push(NEWLINE)) == split_lines(s),
    decreases s.len(),
{
    let t = s.push(NEWLINE);
    let n = s.len() as int;
    if has_newline(s) {
        let e = first_newline(s);
        assert(is_first_newline(s, e));
        assert(e < n - 1);
        assert(is_first_newline(t, e));
        lemma_first_newline_is(t, e);
        assert(t.take(e) =~= s.take(e));
        assert(t.skip(e + 1) =~= s.skip(e + 1).push(NEWLINE));
        let rest = s.skip(e + 1);
        assert(rest.last() == s.last());
        lemma_final_newline(rest);
    } else {
        assert forall|j: int| 0 <= j < n implies t[j] != NEWLINE by {
            assert(t[j] == s[j]);
            if s[j] == NEWLINE {
                lemma_some_newline(s, j);
            }
        }
        assert(is_first_newline(t, n));
        lemma_first_newline_is(t, n);
        assert(t.take(n) =~= s);
        assert(t.skip(n + 1) =~= Seq::<u8>::empty());
        assert(!has_newline(Seq::<u8>::empty()));
        assert(split_lines(Seq::<u8>::empty()) =~= Seq::<Seq<u8>>::empty());
        assert(split_lines(t) =~= seq![s]);
    }
}

/// Lines end at each `\n`: the lines of `x`, a `\n` and `y` are those of `x`
/// with the `\n`, then those of `y`; and `x` with a `\n` and no other is one
/// line, `x` without a `\r` that ends it, be it empty.
pub proof fn lemma_split_at_newline(x: Seq<u8>, y: Seq<u8>)
    ensures
        split_lines(x.push(NEWLINE) + y) == split_lines(x.push(NEWLINE)) + split_lines(y),
        !x.contains(NEWLINE) ==> split_lines(x.push(NEWLINE)) == seq![strip_cr(x)],
    decreases x.len(),
{
    let n = x.len() as int;
    let a = x.push(NEWLINE);
    let t = a + y;
    if has_newline(x) {
        let e = first_newline(x);
        assert(is_first_newline(x, e));
        assert(is_first_newline(a, e));
        assert(is_first_newline(t, e));
        lemma_first_newline_is(a, e);
        lemma_first_newline_is(t, e);
        assert(a.take(e) =~= x.take(e));
        assert(t.take(e) =~= x.take(e));
        let x2 = x.skip(e + 1);
        assert(a.skip(e + 1) =~= x2.push(NEWLINE));
        assert(t.skip(e + 1) =~= x2.push(NEWLINE) + y);
        lemma_split_at_newline(x2, y);
        assert(split_lines(t) =~= split_lines(a) + split_lines(y));
        assert(x.contains(NEWLINE));
    } else {
        assert forall|j: int| 0 <= j < n implies t[j] != NEWLINE && a[j] != NEWLINE by {
            if x[j] == NEWLINE {
                lemma_some_newline(x, j);
            }
        }
        assert(is_first_newline(t, n));
        assert(is_first_newline(a, n));
        lemma_first_newline_is(t, n);
        lemma_first_newline_is(a, n);
        assert(t.take(n) =~= x);
        assert(a.take(n) =~= x);
        assert(t.skip(n + 1) =~= y);
        assert(a.skip(n + 1) =~= Seq::<u8>::empty());
        assert(!has_newline(Seq::<u8>::empty()));
        assert(split_lines(Seq::<u8>::empty()) =~= Seq::<Seq<u8>>::empty());
        assert(split_lines(a) =~= seq![strip_cr(x)]);
        assert(split_lines(t) =~= split_lines(a) + split_lines(y));
        assert forall|j: int| 0 <= j < n implies x[j] != NEWLINE by {
            if x[j] == NEWLINE {
                lemma_some_newline(x, j);
            }
        }
    }
}

/// A string with a `\n` has a first one.
pub proof fn lemma_some_newline(s: Seq<u8>, i: int)
    requires
        0 <= i < s.len(),
        s[i] == NEWLINE,
    ensures
        has_newline(s),
    decreases i,
{
    if is_first_newline(s, i) {
    } else {
        let j = choose|j: int| 0 <= j < i && s[j] == NEWLINE;
        lemma_some_newline(s, j);
    }
}

/// Does `first_operand` begin with a (UTF-8) byte order mark?
pub fn has_bom(first_operand: &[u8]) -> (r: bool)
    ensures
        r == starts_with_bom(first_operand@),
{
    let r = first_operand.len() >= 3 && first_operand[0] == BOM_0 && first_operand[1] == BOM_1
        && first_operand[2] == BOM_2;
    proof {
        if first_operand@.len() >= 3 {
            assert(r ==> first_operand@.take(3) =~= bom_bytes());
            assert(first_operand@.take(3) == bom_bytes() ==> first_operand@.take(3)[0] == BOM_0
                && first_operand@.take(3)[1] == BOM_1 && first_operand@.take(3)[2] == BOM_2);
        }
    }
    r
}

/// Returns `(bom, crlf)`: whether `slice` begins with a byte order mark, and
/// whether its first line ends with `\r\n` (if it has no `\n`, the output uses `\n`).
pub fn output_info(slice: &[u8]) -> (r: (bool, bool))
    ensures
        r.0 == starts_with_bom(slice@),
        r.1 == first_line_ends_crlf(slice@),
{
    let bom = has_bom(slice);
    let mut crlf = false;
    match find_byte(NEWLINE, slice) {
        Some(n) => {
            proof {
                lemma_first_newline_is(slice@, n as int);
            }
            if n > 0 && slice[n - 1] == CARRIAGE_RETURN {
                crlf = true;
            }
        },
        None => {
            assert(!has_newline(slice@));
        },
    }
    (bom, crlf)
}

/// `line` without a final `\r`, if it has one.
fn trim_cr(line: &[u8]) -> (r: &[u8])
    ensures
        r@ == strip_cr(line@),
{
    let n = line.len();
    if n > 0 && line[n - 1] == CARRIAGE_RETURN {
        slice_subrange(line, 0, n - 1)
    } else {
        line
    }
}

/// The lines of `slice`, borrowed from it, as `split_lines` describes them.
pub fn lines_of<'a>(slice: &'a [u8]) -> (r: Vec<&'a [u8]>)
    ensures
        line_views(r@) == split_lines(slice@),
{
    let mut lines: Vec<&'a [u8]> = Vec::new();
    let mut rest = slice;
    loop
        invariant
            line_views(lines@) + split_lines(rest@) == split_lines(slice@),
        ensures
            line_views(lines@) + split_lines(rest@) == split_lines(slice@),
            !has_newline(rest@),
        decreases rest@.len(),
    {
        match find_byte(NEWLINE, rest) {
            Some(end) => {
                proof {
                    lemma_first_newline_is(rest@, end as int);
                }
                let len = rest.len();
                let line = trim_cr(slice_subrange(rest, 0, end));
                let ghost before = lines@;
                lines.push(line);
                let next = slice_subrange(rest, end + 1, len);
                proof {
                    assert(rest@.take(end as int) =~= rest@.subrange(0, end as int));
                    assert(next@ =~= rest@.skip(end + 1));
                    assert(line_views(lines@) =~= line_views(before).push(line@));
                    assert(split_lines(rest@) == seq![line@] + split_lines(next@));
                    assert(line_views(lines@) + split_lines(next@) =~= line_views(before)
                        + split_lines(rest@));
                }
                rest = next;
            },
            None => {
                assert(!has_newline(rest@));
                break ;
            },
        }
    }
    if rest.len() > 0 {
        let ghost before = lines@;
        lines.push(rest);
        assert(line_views(lines@) =~= line_views(before) + split_lines(rest@));
    } else {
        assert(line_views(lines@) =~= line_views(lines@) + split_lines(rest@));
    }
    lines
}

} // verus!
