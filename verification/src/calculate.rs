//! Houses the `exec` function, which computes a set operation with a plain
//! value kept for each line: none for `Union`, a flag for `Diff`, a color for
//! `Intersect`, and the first and last operands a line was seen in for
//! `Single` and `Multiple`.
use crate::args::OpName;
use crate::lines::{first_line_ends_crlf, line_views, lines_of, split_lines, starts_with_bom};
use crate::model::{
    events, lemma_events_take, lemma_events_valid, lemma_masked_select, lemma_seen_tally,
    lemma_select_all, lemma_select_congruent, lemma_select_select, lemma_tally_operand,
    operand_lines, seen, select, tagged, tally_of, Tally,
};
use crate::operands::{decode_if_utf16, decode_later_operands, decoded, later_texts};
use crate::operations::{all_events, first_events, output_plain, selection, views, zet_lines, ZetError};
use crate::render::plain_output;
use crate::set::ZetSet;
use vstd::prelude::*;
use vstd::slice::{slice_subrange, slice_to_vec};

verus! {

/// The operation that `exec` performs for `op`: its `Single` and `Multiple`
/// count the operands a line occurs in.
pub open spec fn by_file(op: OpName) -> OpName {
    match op {
        OpName::Single => OpName::SingleByFile,
        OpName::Multiple => OpName::MultipleByFile,
        _ => op,
    }
}

/// Whether `exec` numbers the operands, in a `u32`, to perform `op`.
pub open spec fn numbers_operands(op: OpName) -> bool {
    by_file(op) == OpName::SingleByFile || by_file(op) == OpName::MultipleByFile
}

/// What `exec` outputs for `op` on operands with bytes `operands`: nothing
/// if there are none; otherwise the lines that `op` selects, in order of first
/// appearance, after the byte order mark of the (decoded) first operand if it
/// has one, each terminated as its first line is. The operands after the first
/// are read as `later_texts` has them.
pub open spec fn exec_output(op: OpName, operands: Seq<Vec<u8>>) -> Seq<u8> {
    if operands.len() == 0 {
        Seq::empty()
    } else {
        let first = decoded(operands[0]@);
        plain_output(
            starts_with_bom(first),
            first_line_ends_crlf(first),
            zet_lines(by_file(op), first, later_texts(operands.skip(1))),
        )
    }
}

/// Calculates the set operation named by `op`, each operand taken as a set of
/// lines:
///
/// * `OpName::Union` gives the lines that occur in any operand,
/// * `OpName::Intersect` gives the lines that occur in all operands,
/// * `OpName::Diff` gives the lines that occur in the first operand and no other,
/// * `OpName::Single` (and `SingleByFile`) gives the lines that occur in exactly one operand, and
/// * `OpName::Multiple` (and `MultipleByFile`) gives the lines that occur in more than one operand.
///
/// `operands` holds the operands' bytes as they were read: a UTF-16 text is
/// decoded here, and the operands after the first lose any byte order mark
/// (see `decode_later_operands`). With no
/// operands the output is empty. `Single` and `Multiple` refuse more than
/// `u32::MAX` operands after the first.
pub fn exec(operation: OpName, operands: &[Vec<u8>]) -> (r: Result<Vec<u8>, ZetError>)
    requires
        operands@.len() > 0 ==> operands@[0]@.len() <= usize::MAX / 2,
    ensures
        r is Err <==> numbers_operands(operation) && operands@.len() > u32::MAX + 1,
        r matches Err(e) ==> e == ZetError::TooManyOperands,
        r matches Ok(out) ==> out@ == exec_output(operation, operands@),
{
    if operands.len() == 0 {
        return Ok(Vec::new());
    }
    let first_operand = decode_if_utf16(slice_to_vec(operands[0].as_slice()));
    let raw_rest = slice_subrange(operands, 1, operands.len());
    let texts = decode_later_operands(raw_rest);
    let rest = texts.as_slice();
    let first = first_operand.as_slice();
    assert(raw_rest@ =~= operands@.skip(1));
    assert(views(rest@) =~= later_texts(operands@.skip(1)));
    match operation {
        OpName::Union => Ok(exec_union(first, rest)),
        OpName::Diff => Ok(exec_diff(first, rest)),
        OpName::Intersect => Ok(exec_intersect(first, rest)),
        OpName::Single | OpName::SingleByFile => exec_by_operands(first, rest, true),
        OpName::Multiple | OpName::MultipleByFile => exec_by_operands(first, rest, false),
    }
}

/// The stream of the first operand is that of the first operand alone.
proof fn lemma_first_stream(ops: Seq<Seq<Seq<u8>>>, first: Seq<u8>, rest: Seq<Seq<u8>>)
    requires
        ops == operand_lines(first, rest),
    ensures
        events(ops.take(1)) == first_events(first),
        events(ops.take(rest.len() + 1 as int)) == all_events(first, rest),
{
    lemma_events_take(ops, 0);
    assert(ops.take(0) =~= Seq::<Seq<Seq<u8>>>::empty());
    assert(events(ops.take(1)) =~= first_events(first));
    assert(ops.take(rest.len() + 1 as int) =~= ops);
}

/// The stream of the first `k + 2` operands is that of the first `k + 1`,
/// then the lines of later operand `k`.
proof fn lemma_next_stream(ops: Seq<Seq<Seq<u8>>>, first: Seq<u8>, rest: Seq<Seq<u8>>, k: int)
    requires
        ops == operand_lines(first, rest),
        0 <= k < rest.len(),
    ensures
        events(ops.take(k + 2)) == events(ops.take(k + 1)) + tagged(split_lines(rest[k]), (k + 1) as nat),
{
    lemma_events_take(ops, k + 1);
    assert(ops[k + 1] == split_lines(rest[k]));
}

/// `all.take(j + 1)` holds what `all.take(j)` holds, and `all[j]`.
proof fn lemma_take_one_more(all: Seq<Seq<u8>>, j: int, x: Seq<u8>)
    requires
        0 <= j < all.len(),
    ensures
        all.take(j + 1).contains(x) <==> (all.take(j).contains(x) || all[j] == x),
{
    let longer = all.take(j + 1);
    let shorter = all.take(j);
    if longer.contains(x) {
        let i = choose|i: int| 0 <= i < longer.len() && longer[i] == x;
        if i < j {
            assert(shorter[i] == x);
        }
    }
    if shorter.contains(x) {
        let i = choose|i: int| 0 <= i < shorter.len() && shorter[i] == x;
        assert(longer[i] == x);
    }
    if all[j] == x {
        assert(longer[j] == x);
    }
}

/// Insert every line of `operand` (see `split_lines`), as an owned line with
/// value `item`; a line already present keeps its place.
fn insert_lines<B: Copy>(
    set: &mut ZetSet<B>,
    operand: &[u8],
    item: B,
    Ghost(ev): Ghost<Seq<(nat, Seq<u8>)>>,
    Ghost(f): Ghost<nat>,
)
    requires
        old(set).wf(),
        old(set).keys() == seen(ev),
    ensures
        final(set).wf(),
        final(set).keys() == seen(ev + tagged(split_lines(operand@), f)),
        final(set).bom() == old(set).bom(),
        final(set).crlf() == old(set).crlf(),
{
    let lines = lines_of(operand);
    let ghost all = split_lines(operand@);
    assert(ev + tagged(all.take(0), f) =~= ev);
    let mut j: usize = 0;
    while j < lines.len()
        invariant
            line_views(lines@) == all,
            j <= lines@.len(),
            set.wf(),
            set.keys() == seen(ev + tagged(all.take(j as int), f)),
            set.bom() == old(set).bom(),
            set.crlf() == old(set).crlf(),
        decreases lines@.len() - j,
    {
        let line = lines[j];
        let ghost before = ev + tagged(all.take(j as int), f);
        assert(line@ == all[j as int]);
        assert(before.push((f, line@)).drop_last() =~= before);
        set.insert(line, item);
        j = j + 1;
        assert(before.push((f, line@)) =~= ev + tagged(all.take(j as int), f));
    }
    assert(all.take(lines@.len() as int) =~= all);
}

/// Give every line that `operand` holds the value `item`; other lines keep
/// theirs, and no line is added.
fn mark_lines<B: Copy>(set: &mut ZetSet<B>, operand: &[u8], item: B)
    requires
        old(set).wf(),
    ensures
        final(set).wf(),
        final(set).keys() == old(set).keys(),
        final(set).items().len() == old(set).items().len(),
        forall|i: int|
            0 <= i < old(set).keys().len() ==> #[trigger] final(set).items()[i] == (if split_lines(
                operand@,
            ).contains(old(set).keys()[i]) {
                item
            } else {
                old(set).items()[i]
            }),
        final(set).bom() == old(set).bom(),
        final(set).crlf() == old(set).crlf(),
{
    let lines = lines_of(operand);
    let ghost all = split_lines(operand@);
    let ghost keys = set.keys();
    let ghost items = set.items();
    let mut j: usize = 0;
    while j < lines.len()
        invariant
            line_views(lines@) == all,
            j <= lines@.len(),
            set.wf(),
            set.keys() == keys,
            set.items().len() == items.len(),
            keys.len() == items.len(),
            forall|i: int|
                0 <= i < keys.len() ==> #[trigger] set.items()[i] == (if all.take(j as int).contains(keys[i]) {
                    item
                } else {
                    items[i]
                }),
            set.bom() == old(set).bom(),
            set.crlf() == old(set).crlf(),
        decreases lines@.len() - j,
    {
        let line = lines[j];
        assert(line@ == all[j as int]);
        let ghost prior = set.items();
        match set.position(line) {
            Some(p) => {
                set.set_item(p, item);
                assert forall|i: int| 0 <= i < keys.len() implies #[trigger] set.items()[i] == (if all.take(
                    j + 1,
                ).contains(keys[i]) {
                    item
                } else {
                    items[i]
                }) by {
                    lemma_take_one_more(all, j as int, keys[i]);
                    if i != p as int {
                        assert(keys.no_duplicates());
                    }
                }
            },
            None => {
                assert forall|i: int| 0 <= i < keys.len() implies #[trigger] set.items()[i] == (if all.take(
                    j + 1,
                ).contains(keys[i]) {
                    item
                } else {
                    items[i]
                }) by {
                    lemma_take_one_more(all, j as int, keys[i]);
                    assert(keys[i] != line@);
                }
            },
        }
        j = j + 1;
    }
    assert(all.take(lines@.len() as int) =~= all);
}

/// Which lines of a set of flags hold the flag `value`.
fn holding(set: &ZetSet<bool>, value: bool) -> (mask: Vec<bool>)
    requires
        set.wf(),
    ensures
        mask@.len() == set.keys().len(),
        forall|i: int| 0 <= i < mask@.len() ==> #[trigger] mask@[i] == (set.items()[i] == value),
{
    let n = set.len();
    let mut mask: Vec<bool> = Vec::new();
    let mut i: usize = 0;
    while i < n
        invariant
            set.wf(),
            n == set.keys().len(),
            i <= n,
            mask@.len() == i,
            forall|m: int| 0 <= m < i ==> #[trigger] mask@[m] == (set.items()[m] == value),
        decreases n - i,
    {
        let v = set.item(i);
        mask.push(v == value);
        i = i + 1;
    }
    mask
}

/// `Union` inserts every line of every operand.
fn exec_union(first: &[u8], rest: &[Vec<u8>]) -> (out: Vec<u8>)
    ensures
        out@ == plain_output(
            starts_with_bom(first@),
            first_line_ends_crlf(first@),
            zet_lines(OpName::Union, first@, views(rest@)),
        ),
{
    let ghost ops = operand_lines(first@, views(rest@));
    let mut set = ZetSet::with_value(first, ());
    proof {
        lemma_first_stream(ops, first@, views(rest@));
    }
    let mut k: usize = 0;
    while k < rest.len()
        invariant
            ops == operand_lines(first@, views(rest@)),
            k <= rest@.len(),
            set.wf(),
            set.keys() == seen(events(ops.take(k + 1))),
            set.bom() == starts_with_bom(first@),
            set.crlf() == first_line_ends_crlf(first@),
        decreases rest@.len() - k,
    {
        insert_lines(&mut set, rest[k].as_slice(), (), Ghost(events(ops.take(k + 1))), Ghost((k + 1) as nat));
        proof {
            lemma_next_stream(ops, first@, views(rest@), k as int);
        }
        k = k + 1;
    }
    let ghost ev = all_events(first@, views(rest@));
    let ghost sel = selection(OpName::Union, (rest@.len() + 1) as nat);
    proof {
        lemma_first_stream(ops, first@, views(rest@));
        lemma_select_all(seen(ev), |key: Seq<u8>| sel(tally_of(ev, key).unwrap()));
    }
    output_plain(&set)
}

/// The history of a line of the first operand, and its `Diff` flag: the flag
/// holds while no later operand has held the line, which is when the line
/// occurs in exactly one operand.
spec fn diff_state(t: Option<Tally>, keep: bool) -> bool {
    match t {
        Some(u) => (u.last == 0 ==> u.files == 1) && (u.last > 0 ==> u.files >= 2) && keep == (u.last == 0),
        None => false,
    }
}

/// `Diff` flags each line of the first operand, clears the flag of each line
/// seen in a later operand, and keeps the lines still flagged.
fn exec_diff(first: &[u8], rest: &[Vec<u8>]) -> (out: Vec<u8>)
    ensures
        out@ == plain_output(
            starts_with_bom(first@),
            first_line_ends_crlf(first@),
            zet_lines(OpName::Diff, first@, views(rest@)),
        ),
{
    let ghost ops = operand_lines(first@, views(rest@));
    let ghost k0 = seen(first_events(first@));
    let mut set = ZetSet::with_value(first, true);
    proof {
        lemma_first_stream(ops, first@, views(rest@));
        assert forall|i: int| 0 <= i < k0.len() implies diff_state(
            tally_of(events(ops.take(1)), #[trigger] k0[i]),
            set.items()[i],
        ) by {
            lemma_seen_tally(first_events(first@), k0[i]);
            lemma_events_valid(ops, 1, k0[i]);
        }
    }
    let mut k: usize = 0;
    while k < rest.len()
        invariant
            ops == operand_lines(first@, views(rest@)),
            k <= rest@.len(),
            set.wf(),
            set.keys() == k0,
            set.bom() == starts_with_bom(first@),
            set.crlf() == first_line_ends_crlf(first@),
            forall|i: int|
                0 <= i < k0.len() ==> diff_state(
                    tally_of(events(ops.take(k + 1)), #[trigger] k0[i]),
                    set.items()[i],
                ),
        decreases rest@.len() - k,
    {
        let ghost ev = events(ops.take(k + 1));
        let ghost prior = set.items();
        mark_lines(&mut set, rest[k].as_slice(), false);
        proof {
            lemma_next_stream(ops, first@, views(rest@), k as int);
            assert forall|i: int| 0 <= i < k0.len() implies diff_state(
                tally_of(events(ops.take(k + 2)), #[trigger] k0[i]),
                set.items()[i],
            ) by {
                assert(diff_state(tally_of(ev, k0[i]), prior[i]));
                lemma_events_valid(ops, (k + 1) as nat, k0[i]);
                lemma_tally_operand(ev, split_lines(rest@[k as int]@), (k + 1) as nat, k0[i]);
            }
        }
        k = k + 1;
    }
    let ghost ev = all_events(first@, views(rest@));
    let ghost sel = selection(OpName::Diff, (rest@.len() + 1) as nat);
    let mask = holding(&set, true);
    proof {
        lemma_first_stream(ops, first@, views(rest@));
        lemma_masked_select(k0, mask@, |key: Seq<u8>| tally_of(ev, key).unwrap().files == 1);
        lemma_select_congruent(
            k0,
            |key: Seq<u8>| tally_of(ev, key).unwrap().files == 1,
            |key: Seq<u8>| sel(tally_of(ev, key).unwrap()),
        );
    }
    set.retain_masked(&mask);
    output_plain(&set)
}

/// `Intersect` colors each line of the first operand; for each later
/// operand it flips the color, gives the new color to each line that the
/// operand holds, and keeps only the lines of the new color.
fn exec_intersect(first: &[u8], rest: &[Vec<u8>]) -> (out: Vec<u8>)
    ensures
        out@ == plain_output(
            starts_with_bom(first@),
            first_line_ends_crlf(first@),
            zet_lines(OpName::Intersect, first@, views(rest@)),
        ),
{
    let ghost ops = operand_lines(first@, views(rest@));
    let ghost k0 = seen(first_events(first@));
    let mut this_cycle: bool = true;
    let mut set = ZetSet::with_value(first, this_cycle);
    proof {
        lemma_first_stream(ops, first@, views(rest@));
        let ev0 = events(ops.take(1));
        assert forall|i: int| 0 <= i < k0.len() implies (tally_of(ev0, #[trigger] k0[i]) is Some
            && tally_of(ev0, k0[i]).unwrap().files == 1) by {
            lemma_seen_tally(first_events(first@), k0[i]);
            lemma_events_valid(ops, 1, k0[i]);
        }
        lemma_select_all(k0, |key: Seq<u8>| tally_of(ev0, key).unwrap().files == 1);
    }
    let mut k: usize = 0;
    while k < rest.len()
        invariant
            ops == operand_lines(first@, views(rest@)),
            k <= rest@.len(),
            set.wf(),
            set.keys() == select(k0, |key: Seq<u8>| tally_of(events(ops.take(k + 1)), key).unwrap().files == k + 1),
            forall|i: int| 0 <= i < set.keys().len() ==> #[trigger] set.items()[i] == this_cycle,
            forall|i: int| 0 <= i < k0.len() ==> #[trigger] tally_of(events(ops.take(k + 1)), k0[i]) is Some,
            set.bom() == starts_with_bom(first@),
            set.crlf() == first_line_ends_crlf(first@),
        decreases rest@.len() - k,
    {
        let ghost ev = events(ops.take(k + 1));
        let ghost lines = split_lines(rest@[k as int]@);
        let ghost keys = set.keys();
        this_cycle = !this_cycle;
        mark_lines(&mut set, rest[k].as_slice(), this_cycle);
        let mask = holding(&set, this_cycle);
        proof {
            lemma_masked_select(keys, mask@, |key: Seq<u8>| lines.contains(key));
        }
        let ghost marked = set.items();
        let origin = set.retain_masked(&mask);
        proof {
            lemma_next_stream(ops, first@, views(rest@), k as int);
            let ev2 = events(ops.take(k + 2));
            assert forall|i: int| 0 <= i < k0.len() implies (#[trigger] tally_of(ev2, k0[i]) is Some
                && (tally_of(ev2, k0[i]).unwrap().files == k + 2) == (tally_of(ev, k0[i]).unwrap().files
                == k + 1 && lines.contains(k0[i]))) by {
                lemma_events_valid(ops, (k + 1) as nat, k0[i]);
                lemma_tally_operand(ev, lines, (k + 1) as nat, k0[i]);
            }
            lemma_select_select(
                k0,
                |key: Seq<u8>| tally_of(ev, key).unwrap().files == k + 1,
                |key: Seq<u8>| lines.contains(key),
                |key: Seq<u8>| tally_of(ev2, key).unwrap().files == k + 2,
            );
            assert forall|i: int| 0 <= i < set.keys().len() implies #[trigger] set.items()[i] == this_cycle by {
                let o = origin@[i];
                assert(mask@[o]);
            }
        }
        k = k + 1;
    }
    let ghost ev = all_events(first@, views(rest@));
    let ghost sel = selection(OpName::Intersect, (rest@.len() + 1) as nat);
    proof {
        lemma_first_stream(ops, first@, views(rest@));
        lemma_select_congruent(
            k0,
            |key: Seq<u8>| tally_of(ev, key).unwrap().files == rest@.len() + 1,
            |key: Seq<u8>| sel(tally_of(ev, key).unwrap()),
        );
    }
    output_plain(&set)
}

/// The first and the last operand a line was seen in, numbered from `0`.
#[derive(Clone, Copy)]
struct SeenIn {
    first: u32,
    last: u32,
}

/// The history of a line seen in operands up to `cur`, and its `SeenIn`: the
/// line was first and last seen in the same operand exactly when it occurs in
/// one operand.
spec fn seen_in_state(t: Option<Tally>, s: SeenIn, cur: nat) -> bool {
    match t {
        Some(u) => {
            &&& s.last == u.last
            &&& s.first <= s.last
            &&& u.last <= cur
            &&& u.files >= 1
            &&& (s.first == s.last) == (u.files == 1)
        },
        None => false,
    }
}

/// Record each line of `operand`, operand number `f`: a line already present
/// was last seen in `f`; a new one is inserted as first and last seen in `f`.
fn record_operand(
    set: &mut ZetSet<SeenIn>,
    operand: &[u8],
    f: u32,
    Ghost(ev): Ghost<Seq<(nat, Seq<u8>)>>,
)
    requires
        f >= 1,
        old(set).wf(),
        old(set).keys() == seen(ev),
        forall|i: int|
            0 <= i < old(set).keys().len() ==> seen_in_state(
                tally_of(ev, #[trigger] old(set).keys()[i]),
                old(set).items()[i],
                (f - 1) as nat,
            ),
    ensures
        final(set).wf(),
        final(set).keys() == seen(ev + tagged(split_lines(operand@), f as nat)),
        forall|i: int|
            0 <= i < final(set).keys().len() ==> seen_in_state(
                tally_of(ev + tagged(split_lines(operand@), f as nat), #[trigger] final(set).keys()[i]),
                final(set).items()[i],
                f as nat,
            ),
        final(set).bom() == old(set).bom(),
        final(set).crlf() == old(set).crlf(),
{
    let lines = lines_of(operand);
    let ghost all = split_lines(operand@);
    assert(ev + tagged(all.take(0), f as nat) =~= ev);
    let mut j: usize = 0;
    while j < lines.len()
        invariant
            line_views(lines@) == all,
            j <= lines@.len(),
            f >= 1,
            set.wf(),
            set.keys() == seen(ev + tagged(all.take(j as int), f as nat)),
            forall|i: int|
                0 <= i < set.keys().len() ==> seen_in_state(
                    tally_of(ev + tagged(all.take(j as int), f as nat), #[trigger] set.keys()[i]),
                    set.items()[i],
                    f as nat,
                ),
            set.bom() == old(set).bom(),
            set.crlf() == old(set).crlf(),
        decreases lines@.len() - j,
    {
        let line = lines[j];
        let ghost before = ev + tagged(all.take(j as int), f as nat);
        let ghost after = before.push((f as nat, line@));
        let ghost keys = set.keys();
        let ghost items = set.items();
        assert(line@ == all[j as int]);
        assert(after.drop_last() =~= before);
        match set.position(line) {
            Some(p) => {
                let s = set.item(p);
                set.set_item(p, SeenIn { first: s.first, last: f });
                assert forall|i: int| 0 <= i < set.keys().len() implies seen_in_state(
                    tally_of(after, #[trigger] set.keys()[i]),
                    set.items()[i],
                    f as nat,
                ) by {
                    assert(seen_in_state(tally_of(before, keys[i]), items[i], f as nat));
                    if i != p as int {
                        assert(keys.no_duplicates());
                    }
                }
            },
            None => {
                proof {
                    lemma_seen_tally(before, line@);
                }
                set.insert(line, SeenIn { first: f, last: f });
                assert forall|i: int| 0 <= i < set.keys().len() implies seen_in_state(
                    tally_of(after, #[trigger] set.keys()[i]),
                    set.items()[i],
                    f as nat,
                ) by {
                    if i < keys.len() {
                        assert(seen_in_state(tally_of(before, keys[i]), items[i], f as nat));
                        assert(set.keys()[i] == keys[i]);
                    }
                }
            },
        }
        j = j + 1;
        assert(after =~= ev + tagged(all.take(j as int), f as nat));
    }
    assert(all.take(lines@.len() as int) =~= all);
}

/// Which lines were seen in a single operand (if `single`), or in several.
fn seen_once(set: &ZetSet<SeenIn>, single: bool) -> (mask: Vec<bool>)
    requires
        set.wf(),
    ensures
        mask@.len() == set.keys().len(),
        forall|i: int|
            0 <= i < mask@.len() ==> #[trigger] mask@[i] == ((set.items()[i].first == set.items()[i].last)
                == single),
{
    let n = set.len();
    let mut mask: Vec<bool> = Vec::new();
    let mut i: usize = 0;
    while i < n
        invariant
            set.wf(),
            n == set.keys().len(),
            i <= n,
            mask@.len() == i,
            forall|m: int|
                0 <= m < i ==> #[trigger] mask@[m] == ((set.items()[m].first == set.items()[m].last)
                    == single),
        decreases n - i,
    {
        let s = set.item(i);
        mask.push((s.first == s.last) == single);
        i = i + 1;
    }
    mask
}

/// `Single` and `Multiple` record, for each line, the first and last operands
/// it was seen in, and keep the lines where these are the same (`Single`) or
/// differ (`Multiple`). Operands are numbered in a `u32`: more than `u32::MAX`
/// after the first are refused.
fn exec_by_operands(first: &[u8], rest: &[Vec<u8>], single: bool) -> (r: Result<Vec<u8>, ZetError>)
    ensures
        r is Err <==> rest@.len() > u32::MAX,
        r matches Err(e) ==> e == ZetError::TooManyOperands,
        r matches Ok(out) ==> out@ == plain_output(
            starts_with_bom(first@),
            first_line_ends_crlf(first@),
            zet_lines(
                if single {
                    OpName::SingleByFile
                } else {
                    OpName::MultipleByFile
                },
                first@,
                views(rest@),
            ),
        ),
{
    let ghost ops = operand_lines(first@, views(rest@));
    let mut operand_count: u32 = 0;
    let mut set = ZetSet::with_value(first, SeenIn { first: 0, last: 0 });
    proof {
        lemma_first_stream(ops, first@, views(rest@));
        assert forall|i: int| 0 <= i < set.keys().len() implies seen_in_state(
            tally_of(events(ops.take(1)), #[trigger] set.keys()[i]),
            set.items()[i],
            0,
        ) by {
            lemma_seen_tally(first_events(first@), set.keys()[i]);
            lemma_events_valid(ops, 1, set.keys()[i]);
        }
    }
    let mut k: usize = 0;
    while k < rest.len()
        invariant
            ops == operand_lines(first@, views(rest@)),
            k <= rest@.len(),
            operand_count == k,
            set.wf(),
            set.keys() == seen(events(ops.take(k + 1))),
            forall|i: int|
                0 <= i < set.keys().len() ==> seen_in_state(
                    tally_of(events(ops.take(k + 1)), #[trigger] set.keys()[i]),
                    set.items()[i],
                    k as nat,
                ),
            set.bom() == starts_with_bom(first@),
            set.crlf() == first_line_ends_crlf(first@),
        decreases rest@.len() - k,
    {
        if operand_count == 4294967295u32 {
            return Err(ZetError::TooManyOperands);
        }
        operand_count = operand_count + 1;
        record_operand(&mut set, rest[k].as_slice(), operand_count, Ghost(events(ops.take(k + 1))));
        proof {
            lemma_next_stream(ops, first@, views(rest@), k as int);
        }
        k = k + 1;
    }
    let ghost ev = all_events(first@, views(rest@));
    let ghost keys = set.keys();
    let ghost sel = selection(
        if single {
            OpName::SingleByFile
        } else {
            OpName::MultipleByFile
        },
        (rest@.len() + 1) as nat,
    );
    let mask = seen_once(&set, single);
    proof {
        lemma_first_stream(ops, first@, views(rest@));
        assert forall|i: int| 0 <= i < keys.len() implies mask@[i] == sel(
            tally_of(ev, #[trigger] keys[i]).unwrap(),
        ) by {
            assert(seen_in_state(tally_of(ev, keys[i]), set.items()[i], rest@.len() as nat));
        }
        lemma_masked_select(keys, mask@, |key: Seq<u8>| sel(tally_of(ev, key).unwrap()));
    }
    set.retain_masked(&mask);
    Ok(output_plain(&set))
}

} // verus!
