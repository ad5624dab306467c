//! What the set operations promise as a whole: which lines each one gives,
//! that each line is given once, in the order of its first appearance in the
//! input, what the counts count, and how the command line's choices relate.
use crate::args::{log_type_of, op_of, optimized, request_of, CliFlags, CliName, OpName, Request};
use crate::calculate::{by_file, exec_output};
use crate::lines::{
    bom_bytes, first_line_ends_crlf, first_newline, has_newline, is_first_newline,
    lemma_final_newline, lemma_first_newline_is, lemma_some_newline, lemma_split_at_newline, split_lines, starts_with_bom,
    strip_cr, without_bom, BOM_2, CARRIAGE_RETURN, NEWLINE,
};
use crate::model::{
    events, lemma_events_take, lemma_events_valid, lemma_push_distinct, lemma_seen_distinct,
    lemma_seen_tally, lemma_select_all, lemma_select_congruent, lemma_tally_operand,
    operand_lines, seen, select, tagged, tally_of, tallies_of, count_in,
};
use crate::operands::{decoded, later_texts};
use crate::operations::{
    all_events, capped, first_events, reported_counts, selection, selects, subtractive, zet_lines,
    zet_output, LogType,
};
use crate::render::{annotated_output, annotated_text, bom_prefix, decimal, lines_text, max_count};
use vstd::prelude::*;

verus! {

/// How many of the operands `ops` (each given by its lines) hold `line`.
pub open spec fn operands_holding(ops: Seq<Seq<Seq<u8>>>, line: Seq<u8>) -> nat
    decreases ops.len(),
{
    if ops.len() == 0 {
        0
    } else {
        operands_holding(ops.drop_last(), line) + (if ops.last().contains(line) {
            1nat
        } else {
            0nat
        })
    }
}

/// How many times `line` occurs in all of the operands `ops`.
pub open spec fn occurrences(ops: Seq<Seq<Seq<u8>>>, line: Seq<u8>) -> nat
    decreases ops.len(),
{
    if ops.len() == 0 {
        0
    } else {
        occurrences(ops.drop_last(), line) + count_in(ops.last(), line)
    }
}

/// Whether operation `op` gives `line`, for operands `ops`, the first one first:
/// * `Union`: the line occurs in some operand
/// * `Intersect`: it occurs in every operand
/// * `Diff`: it occurs in the first operand and in no other
/// * `Single`: it occurs exactly once in the entire input
/// * `Multiple`: it occurs more than once in the entire input
/// * `SingleByFile`: it occurs in exactly one operand
/// * `MultipleByFile`: it occurs in two or more operands
pub open spec fn gives(op: OpName, ops: Seq<Seq<Seq<u8>>>, line: Seq<u8>) -> bool {
    match op {
        OpName::Union => operands_holding(ops, line) >= 1,
        OpName::Intersect => operands_holding(ops, line) == ops.len(),
        OpName::Diff => ops[0].contains(line) && operands_holding(ops, line) == 1,
        OpName::Single => occurrences(ops, line) == 1,
        OpName::Multiple => occurrences(ops, line) >= 2,
        OpName::SingleByFile => operands_holding(ops, line) == 1,
        OpName::MultipleByFile => operands_holding(ops, line) >= 2,
    }
}

/// The number of times the stream `ev` has shown `line`.
spec fn times_seen(ev: Seq<(nat, Seq<u8>)>, line: Seq<u8>) -> nat {
    match tally_of(ev, line) {
        Some(t) => t.lines,
        None => 0,
    }
}

/// Appending an operand's lines adds the times it holds `line`.
proof fn lemma_times_seen(ev: Seq<(nat, Seq<u8>)>, lines: Seq<Seq<u8>>, f: nat, line: Seq<u8>)
    ensures
        times_seen(ev + tagged(lines, f), line) == times_seen(ev, line) + count_in(lines, line),
    decreases lines.len(),
{
    if lines.len() == 0 {
        assert(ev + tagged(lines, f) =~= ev);
    } else {
        lemma_times_seen(ev, lines.drop_last(), f, line);
        let s = ev + tagged(lines, f);
        assert(s.drop_last() =~= ev + tagged(lines.drop_last(), f));
        assert(s.last() == (f, lines.last()));
    }
}

/// What the history of a line in the stream of the first `n` operands says:
/// it exists when some operand holds the line, it counts the operands that do,
/// and the times the line occurs.
proof fn lemma_events_counts(ops: Seq<Seq<Seq<u8>>>, n: nat, line: Seq<u8>)
    requires
        n <= ops.len(),
    ensures
        (tally_of(events(ops.take(n as int)), line) is Some) == (operands_holding(ops.take(n as int), line) > 0),
        tally_of(events(ops.take(n as int)), line) matches Some(t) ==> t.files == operands_holding(
            ops.take(n as int),
            line,
        ),
        times_seen(events(ops.take(n as int)), line) == occurrences(ops.take(n as int), line),
    decreases n,
{
    if n == 0 {
        assert(ops.take(0) =~= Seq::<Seq<Seq<u8>>>::empty());
    } else {
        let m = (n - 1) as nat;
        lemma_events_counts(ops, m, line);
        lemma_events_take(ops, m as int);
        let prior = events(ops.take(m as int));
        if m >= 1 {
            lemma_events_valid(ops, m, line);
        } else {
            assert(ops.take(0) =~= Seq::<Seq<Seq<u8>>>::empty());
        }
        lemma_tally_operand(prior, ops[m as int], m, line);
        lemma_times_seen(prior, ops[m as int], m, line);
        assert(ops.take(n as int).drop_last() =~= ops.take(m as int));
        assert(ops.take(n as int).last() == ops[m as int]);
    }
}

/// An operand's lines are held by the operands when the first one holds them.
proof fn lemma_first_held(ops: Seq<Seq<Seq<u8>>>, line: Seq<u8>)
    requires
        ops.len() >= 1,
        ops[0].contains(line),
    ensures
        operands_holding(ops, line) >= 1,
    decreases ops.len(),
{
    if ops.len() > 1 {
        assert(ops.drop_last()[0] == ops[0]);
        lemma_first_held(ops.drop_last(), line);
    }
}

/// A line that every operand holds is held by the first.
proof fn lemma_all_held(ops: Seq<Seq<Seq<u8>>>, line: Seq<u8>)
    requires
        ops.len() >= 1,
        operands_holding(ops, line) == ops.len(),
    ensures
        ops[0].contains(line),
    decreases ops.len(),
{
    lemma_holding_bound(ops.drop_last(), line);
    if ops.len() > 1 {
        assert(ops.drop_last()[0] == ops[0]);
        lemma_all_held(ops.drop_last(), line);
    }
}

/// No more operands hold a line than there are operands.
proof fn lemma_holding_bound(ops: Seq<Seq<Seq<u8>>>, line: Seq<u8>)
    ensures
        operands_holding(ops, line) <= ops.len(),
    decreases ops.len(),
{
    if ops.len() > 0 {
        lemma_holding_bound(ops.drop_last(), line);
    }
}

/// What `select` keeps of a line: the line, if `keys` holds it and `keep` does.
proof fn lemma_select_contains(keys: Seq<Seq<u8>>, keep: spec_fn(Seq<u8>) -> bool, x: Seq<u8>)
    ensures
        select(keys, keep).contains(x) == (keys.contains(x) && keep(x)),
    decreases keys.len(),
{
    if keys.len() > 0 {
        let init = keys.drop_last();
        lemma_select_contains(init, keep, x);
        let earlier = select(init, keep);
        if keep(keys.last()) {
            let s = earlier.push(keys.last());
            if s.contains(x) && x != keys.last() {
                let i = choose|i: int| 0 <= i < s.len() && s[i] == x;
                assert(earlier[i] == x);
            }
            if earlier.contains(x) {
                let i = choose|i: int| 0 <= i < earlier.len() && earlier[i] == x;
                assert(s[i] == x);
            }
            if x == keys.last() {
                assert(s[earlier.len() as int] == x);
            }
        }
        if keys.contains(x) && x != keys.last() {
            let i = choose|i: int| 0 <= i < keys.len() && keys[i] == x;
            assert(init[i] == x);
        }
        if init.contains(x) {
            let i = choose|i: int| 0 <= i < init.len() && init[i] == x;
            assert(keys[i] == x);
        }
        if x == keys.last() {
            assert(keys[keys.len() - 1] == x);
        }
    }
}

/// The first operand holds exactly the lines that its stream shows.
proof fn lemma_first_lines(first: Seq<u8>, rest: Seq<Seq<u8>>, line: Seq<u8>)
    ensures
        seen(first_events(first)).contains(line) == operand_lines(first, rest)[0].contains(line),
{
    let ops = operand_lines(first, rest);
    lemma_seen_tally(first_events(first), line);
    assert(Seq::<(nat, Seq<u8>)>::empty() + first_events(first) =~= first_events(first));
    lemma_tally_operand(Seq::empty(), ops[0], 0, line);
}

/// The histories in the stream of all operands count what the operands hold:
/// a line has a history exactly when some operand holds it, and then the
/// history's operand count is the number of operands that hold the line, and
/// its line count the number of times the line occurs in the input. These are
/// the counts that `--count-files` and `--count-lines` report.
pub proof fn law_counts(first: Seq<u8>, rest: Seq<Seq<u8>>, line: Seq<u8>)
    ensures
        (tally_of(all_events(first, rest), line) is Some) == (operands_holding(operand_lines(first, rest), line)
            > 0),
        tally_of(all_events(first, rest), line) matches Some(t) ==> t.files == operands_holding(
            operand_lines(first, rest),
            line,
        ) && t.lines == occurrences(operand_lines(first, rest), line),
        tally_of(all_events(first, rest), line) is None ==> occurrences(operand_lines(first, rest), line) == 0,
{
    let ops = operand_lines(first, rest);
    lemma_events_counts(ops, ops.len(), line);
    assert(ops.take(ops.len() as int) =~= ops);
}

/// Each operation gives exactly the lines that its description promises (see
/// `gives`): `union` those in any operand, `intersect` those in all, `diff`
/// those in the first and no other, `single` and `multiple` those occurring
/// once or more than once in the entire input, and with `--files` those in
/// one operand or in more than one.
pub proof fn law_lines_given(op: OpName, first: Seq<u8>, rest: Seq<Seq<u8>>, line: Seq<u8>)
    ensures
        zet_lines(op, first, rest).contains(line) == gives(op, operand_lines(first, rest), line),
{
    let ops = operand_lines(first, rest);
    let ev = all_events(first, rest);
    let n = (rest.len() + 1) as nat;
    let sel = selection(op, n);
    law_counts(first, rest, line);
    lemma_seen_tally(ev, line);
    lemma_first_lines(first, rest, line);
    lemma_holding_bound(ops, line);
    let candidates = if subtractive(op) {
        seen(first_events(first))
    } else {
        seen(ev)
    };
    lemma_select_contains(candidates, |k: Seq<u8>| sel(tally_of(ev, k).unwrap()), line);
    if ops[0].contains(line) {
        lemma_first_held(ops, line);
    }
    if operands_holding(ops, line) == ops.len() {
        lemma_all_held(ops, line);
    }
    assert(zet_lines(op, first, rest) == select(candidates, |k: Seq<u8>| sel(tally_of(ev, k).unwrap())));
}

/// A selection from distinct lines is distinct.
proof fn lemma_select_distinct(keys: Seq<Seq<u8>>, keep: spec_fn(Seq<u8>) -> bool)
    requires
        keys.no_duplicates(),
    ensures
        select(keys, keep).no_duplicates(),
    decreases keys.len(),
{
    if keys.len() > 0 {
        let init = keys.drop_last();
        assert forall|i: int, j: int| 0 <= i < init.len() && 0 <= j < init.len() && i != j implies init[i]
            != init[j] by {
            assert(init[i] == keys[i] && init[j] == keys[j]);
        }
        lemma_select_distinct(init, keep);
        if keep(keys.last()) {
            lemma_select_contains(init, keep, keys.last());
            if init.contains(keys.last()) {
                let i = choose|i: int| 0 <= i < init.len() && init[i] == keys.last();
                assert(keys[i] == keys[keys.len() - 1]);
            }
            lemma_push_distinct(select(init, keep), keys.last());
        }
    }
}

/// Selecting from two sequences one after the other.
proof fn lemma_select_concat(a: Seq<Seq<u8>>, b: Seq<Seq<u8>>, keep: spec_fn(Seq<u8>) -> bool)
    ensures
        select(a + b, keep) == select(a, keep) + select(b, keep),
    decreases b.len(),
{
    if b.len() == 0 {
        assert(a + b =~= a);
        assert(select(a, keep) + select(b, keep) =~= select(a, keep));
    } else {
        let init = b.drop_last();
        lemma_select_concat(a, init, keep);
        assert((a + b).drop_last() =~= a + init);
        assert((a + b).last() == b.last());
        if keep(b.last()) {
            assert((select(a, keep) + select(init, keep)).push(b.last()) =~= select(a, keep) + select(
                init,
                keep,
            ).push(b.last()));
        }
    }
}

/// Selecting by a predicate that holds of no line selects nothing.
proof fn lemma_select_none(keys: Seq<Seq<u8>>, keep: spec_fn(Seq<u8>) -> bool)
    requires
        forall|i: int| 0 <= i < keys.len() ==> !keep(#[trigger] keys[i]),
    ensures
        select(keys, keep) == Seq::<Seq<u8>>::empty(),
    decreases keys.len(),
{
    if keys.len() > 0 {
        assert(!keep(keys[keys.len() - 1]));
        lemma_select_none(keys.drop_last(), keep);
    }
}

/// The lines first seen in a longer stream start with those of its beginning,
/// and the others are new.
proof fn lemma_seen_prefix(a: Seq<(nat, Seq<u8>)>, b: Seq<(nat, Seq<u8>)>)
    ensures
        seen(a + b).len() >= seen(a).len(),
        seen(a + b).take(seen(a).len() as int) == seen(a),
        forall|i: int| seen(a).len() <= i < seen(a + b).len() ==> !seen(a).contains(#[trigger] seen(a + b)[i]),
    decreases b.len(),
{
    if b.len() == 0 {
        assert(a + b =~= a);
        assert(seen(a).take(seen(a).len() as int) =~= seen(a));
    } else {
        let c = a + b.drop_last();
        lemma_seen_prefix(a, b.drop_last());
        assert((a + b).drop_last() =~= c);
        let x = b.last().1;
        let before = seen(c);
        if !before.contains(x) {
            let after = before.push(x);
            assert(after.take(seen(a).len() as int) =~= before.take(seen(a).len() as int));
            if seen(a).contains(x) {
                let i = choose|i: int| 0 <= i < seen(a).len() && seen(a)[i] == x;
                assert(before.take(seen(a).len() as int)[i] == x);
                assert(before[i] == x);
            }
        }
    }
}

/// The stream of the first `n` operands begins the stream of the first `m`.
proof fn lemma_events_prefix(ops: Seq<Seq<Seq<u8>>>, n: int, m: int)
    requires
        0 <= n <= m <= ops.len(),
    ensures
        events(ops.take(m)).len() >= events(ops.take(n)).len(),
        events(ops.take(m)).take(events(ops.take(n)).len() as int) == events(ops.take(n)),
    decreases m,
{
    if m == n {
        assert(events(ops.take(n)).take(events(ops.take(n)).len() as int) =~= events(ops.take(n)));
    } else {
        lemma_events_prefix(ops, n, m - 1);
        lemma_events_take(ops, m - 1);
        let e = events(ops.take(m - 1));
        assert((e + tagged(ops[m - 1], (m - 1) as nat)).take(events(ops.take(n)).len() as int)
            =~= e.take(events(ops.take(n)).len() as int));
    }
}

/// The stream of all operands is that of the first operand, then the rest.
proof fn lemma_first_then_rest(first: Seq<u8>, rest: Seq<Seq<u8>>)
    ensures
        all_events(first, rest) == first_events(first) + all_events(first, rest).skip(
            first_events(first).len() as int,
        ),
{
    let ops = operand_lines(first, rest);
    lemma_events_take(ops, 0);
    assert(ops.take(0) =~= Seq::<Seq<Seq<u8>>>::empty());
    assert(events(ops.take(1)) =~= first_events(first));
    lemma_events_prefix(ops, 1, ops.len() as int);
    assert(ops.take(ops.len() as int) =~= ops);
    let ev = all_events(first, rest);
    assert(ev =~= first_events(first) + ev.skip(first_events(first).len() as int));
}

/// Each operation gives each of its lines once, in the order of the lines'
/// first appearance in the input: what it gives is what `union` gives, less
/// the lines that the operation does not give.
pub proof fn law_once_in_order(op: OpName, first: Seq<u8>, rest: Seq<Seq<u8>>)
    ensures
        zet_lines(op, first, rest).no_duplicates(),
        zet_lines(op, first, rest) == select(
            zet_lines(OpName::Union, first, rest),
            |k: Seq<u8>| gives(op, operand_lines(first, rest), k),
        ),
{
    let ops = operand_lines(first, rest);
    let ev = all_events(first, rest);
    let n = (rest.len() + 1) as nat;
    let sel = selection(op, n);
    let sel_union = selection(OpName::Union, n);
    let p = |k: Seq<u8>| sel(tally_of(ev, k).unwrap());
    let g = |k: Seq<u8>| gives(op, ops, k);
    let k0 = seen(first_events(first));
    lemma_seen_distinct(ev);
    lemma_seen_distinct(first_events(first));
    lemma_select_all(seen(ev), |k: Seq<u8>| sel_union(tally_of(ev, k).unwrap()));
    assert(zet_lines(OpName::Union, first, rest) == seen(ev));
    let candidates = if subtractive(op) {
        k0
    } else {
        seen(ev)
    };
    assert(zet_lines(op, first, rest) == select(candidates, p));
    lemma_select_distinct(candidates, p);
    assert forall|i: int| 0 <= i < candidates.len() implies #[trigger] g(candidates[i]) == p(candidates[i]) by {
        let k = candidates[i];
        law_lines_given(op, first, rest, k);
        lemma_select_contains(candidates, p, k);
    }
    lemma_select_congruent(candidates, g, p);
    if subtractive(op) {
        let b = ev.skip(first_events(first).len() as int);
        lemma_first_then_rest(first, rest);
        lemma_seen_prefix(first_events(first), b);
        let s = seen(ev);
        let d = s.skip(k0.len() as int);
        assert(s =~= k0 + d);
        assert forall|i: int| 0 <= i < d.len() implies !g(#[trigger] d[i]) by {
            let k = d[i];
            assert(s[k0.len() + i] == k);
            lemma_first_lines(first, rest, k);
            if operands_holding(ops, k) == ops.len() {
                lemma_all_held(ops, k);
            }
        }
        lemma_select_concat(k0, d, g);
        lemma_select_none(d, g);
        assert(select(k0, g) + Seq::<Seq<u8>>::empty() =~= select(k0, g));
    }
}

/// For a single operand, `union` gives what `intersect`, `diff` and `single
/// --files` give, counts included; and `multiple --files` gives no line. So
/// the operation that `operation_for` chooses gives the same output.
pub proof fn law_single_operand(op: OpName, log_type: LogType, first: Seq<u8>)
    ensures
        optimized(op, 1) matches Some(o) ==> zet_output(o, log_type, first, Seq::empty()) == zet_output(
            op,
            log_type,
            first,
            Seq::empty(),
        ),
        optimized(op, 1) is None ==> zet_lines(op, first, Seq::empty()) == Seq::<Seq<u8>>::empty(),
{
    let rest = Seq::<Seq<u8>>::empty();
    let ops = operand_lines(first, rest);
    let ev = all_events(first, rest);
    lemma_events_take(ops, 0);
    assert(ops.take(0) =~= Seq::<Seq<Seq<u8>>>::empty());
    assert(ops.take(1) =~= ops);
    assert(ev =~= first_events(first));
    let keys = seen(ev);
    assert forall|i: int| 0 <= i < keys.len() implies #[trigger] tally_of(ev, keys[i]) is Some && tally_of(
        ev,
        keys[i],
    ).unwrap().files == 1 by {
        lemma_seen_tally(ev, keys[i]);
        lemma_events_valid(ops, 1, keys[i]);
    }
    let sel = selection(op, 1);
    let p = |k: Seq<u8>| sel(tally_of(ev, k).unwrap());
    let sel_union = selection(OpName::Union, 1);
    lemma_select_all(keys, |k: Seq<u8>| sel_union(tally_of(ev, k).unwrap()));
    if op == OpName::Intersect || op == OpName::Diff || op == OpName::SingleByFile || op == OpName::Union {
        lemma_select_all(keys, p);
        assert(zet_lines(op, first, rest) == keys);
    }
    if op == OpName::MultipleByFile {
        lemma_select_none(keys, p);
    }
}

/// `exec` gives what `calculate` gives without counts, with its `single` and
/// `multiple` counting operands, for the decoded first operand.
pub proof fn law_exec_agrees(op: OpName, operands: Seq<Vec<u8>>)
    requires
        operands.len() > 0,
    ensures
        exec_output(op, operands) == zet_output(
            by_file(op),
            LogType::NoCount,
            decoded(operands[0]@),
            later_texts(operands.skip(1)),
        ),
{
}

/// A byte order mark at the start of the first operand is not part of its
/// first line, and does not change the line terminator: the lines given are
/// those given without the mark, and the output, counts or none, is that
/// without the mark, after a byte order mark (also where no line is given).
pub proof fn law_bom_ignored(op: OpName, log_type: LogType, text: Seq<u8>, rest: Seq<Seq<u8>>)
    requires
        !starts_with_bom(text),
    ensures
        starts_with_bom(bom_bytes() + text),
        zet_lines(op, bom_bytes() + text, rest) == zet_lines(op, text, rest),
        first_line_ends_crlf(bom_bytes() + text) == first_line_ends_crlf(text),
        zet_output(op, log_type, bom_bytes() + text, rest) == bom_bytes() + zet_output(
            op,
            log_type,
            text,
            rest,
        ),
{
    let marked = bom_bytes() + text;
    assert(marked.take(3) =~= bom_bytes());
    assert(marked.skip(3) =~= text);
    assert(without_bom(marked) == without_bom(text));
    if has_newline(text) {
        let e = first_newline(text);
        assert forall|j: int| 0 <= j < e + 3 implies marked[j] != NEWLINE by {
            if j >= 3 {
                assert(marked[j] == text[j - 3]);
            }
        }
        assert(marked[e + 3] == text[e]);
        lemma_first_newline_is(marked, e + 3);
        if e > 0 {
            assert(marked[e + 2] == text[e - 1]);
        }
    } else {
        if has_newline(marked) {
            let e = first_newline(marked);
            assert forall|j: int| 0 <= j < e - 3 implies text[j] != NEWLINE by {
                assert(marked[j + 3] == text[j]);
            }
            assert(marked[e] == NEWLINE);
            if e < 3 {
                assert(marked[e] == bom_bytes()[e]);
            }
            assert(text[e - 3] == marked[e]);
            assert(is_first_newline(text, e - 3));
        }
    }
    let keys = zet_lines(op, text, rest);
    let crlf = first_line_ends_crlf(text);
    assert(all_events(marked, rest) == all_events(text, rest));
    let tallies = crate::model::tallies_of(keys, all_events(text, rest));
    let count = crate::operations::reported(op, log_type);
    if count == LogType::NoCount {
        assert(zet_output(op, log_type, marked, rest) == bom_bytes() + crate::render::lines_text(keys, crlf));
        assert(zet_output(op, log_type, text, rest) =~= crate::render::lines_text(keys, crlf));
    } else {
        let counts = crate::operations::reported_counts(count, tallies);
        let body = crate::render::annotated_text(
            keys,
            counts,
            crate::render::decimal(crate::render::max_count(counts) as nat).len(),
            count == LogType::Lines,
            crlf,
        );
        assert(zet_output(op, log_type, marked, rest) == bom_bytes() + body);
        assert(zet_output(op, log_type, text, rest) =~= body);
    }
}

/// `--count` acts like `--count-lines`, unless `--files` is in effect, in
/// which case it acts like `--count-files`.
pub proof fn law_count_flag(files: bool)
    ensures
        log_type_of(false, false, true, files) == (if files {
            log_type_of(true, false, false, files)
        } else {
            log_type_of(false, true, false, files)
        }),
{
}

/// `--files` changes only what `single` and `multiple` give.
pub proof fn law_files_flag(name: CliName)
    requires
        name != CliName::Single,
        name != CliName::Multiple,
    ensures
        op_of(name, true) == op_of(name, false),
{
}

/// Line endings are ignored when lines are compared: a line ended by `\r\n`,
/// the same line ended by `\n`, and the same line last in its operand with
/// no ending are one line.
pub proof fn law_line_endings(line: Seq<u8>)
    requires
        line.len() > 0,
        !line.contains(NEWLINE),
        line.last() != CARRIAGE_RETURN,
    ensures
        split_lines(line + seq![CARRIAGE_RETURN, NEWLINE]) == seq![line],
        split_lines(line + seq![NEWLINE]) == seq![line],
        split_lines(line) == seq![line],
{
    let n = line.len() as int;
    assert forall|e: int| !is_first_newline(line, e) by {
        if is_first_newline(line, e) {
            assert(line[e] == NEWLINE);
        }
    }
    assert(!has_newline(line));
    let crlf = line + seq![CARRIAGE_RETURN, NEWLINE];
    assert forall|j: int| 0 <= j < n + 1 implies crlf[j] != NEWLINE by {
        if j < n {
            assert(crlf[j] == line[j]);
            if line[j] == NEWLINE {
                assert(line.contains(NEWLINE));
            }
        }
    }
    assert(is_first_newline(crlf, n + 1));
    lemma_first_newline_is(crlf, n + 1);
    assert(crlf.take(n + 1) =~= line.push(CARRIAGE_RETURN));
    assert(line.push(CARRIAGE_RETURN).drop_last() =~= line);
    assert(crlf.skip(n + 2) =~= Seq::<u8>::empty());
    assert(!has_newline(Seq::<u8>::empty()));
    let lf = line + seq![NEWLINE];
    assert forall|j: int| 0 <= j < n implies lf[j] != NEWLINE by {
        assert(lf[j] == line[j]);
        if line[j] == NEWLINE {
            assert(line.contains(NEWLINE));
        }
    }
    assert(is_first_newline(lf, n));
    lemma_first_newline_is(lf, n);
    assert(lf.take(n) =~= line);
    assert(lf.skip(n + 1) =~= Seq::<u8>::empty());
    assert(split_lines(Seq::<u8>::empty()) =~= Seq::<Seq<u8>>::empty());
    assert(strip_cr(crlf.take(n + 1)) == line);
    assert(split_lines(crlf) =~= seq![line]);
    assert(split_lines(lf) =~= seq![line]);
}

/// The last line of an operand after the first need not end in a newline:
/// the output is the same whether that operand's text (not empty, and ending
/// in neither `\n` nor `\r`) is followed by a `\n` or not.
pub proof fn law_final_newline(op: OpName, log_type: LogType, first: Seq<u8>, rest: Seq<Seq<u8>>, k: int)
    requires
        0 <= k < rest.len(),
        rest[k].len() > 0,
        rest[k].last() != NEWLINE,
        rest[k].last() != CARRIAGE_RETURN,
    ensures
        zet_output(op, log_type, first, rest.update(k, rest[k].push(NEWLINE))) == zet_output(
            op,
            log_type,
            first,
            rest,
        ),
{
    lemma_final_newline(rest[k]);
    let longer = rest.update(k, rest[k].push(NEWLINE));
    assert(operand_lines(first, longer) =~= operand_lines(first, rest));
}

/// The last line of the first operand need not end in a newline either: the
/// output is the same whether the first operand (with a line after any byte
/// order mark, ending in neither `\n` nor `\r`) is followed by a `\n` or not.
pub proof fn law_first_final_newline(op: OpName, log_type: LogType, first: Seq<u8>, rest: Seq<Seq<u8>>)
    requires
        without_bom(first).len() > 0,
        first.last() != NEWLINE,
        first.last() != CARRIAGE_RETURN,
    ensures
        zet_output(op, log_type, first.push(NEWLINE), rest) == zet_output(op, log_type, first, rest),
{
    let longer = first.push(NEWLINE);
    let n = first.len() as int;
    if first.len() >= 3 {
        assert(longer.take(3) =~= first.take(3));
    } else if longer.len() == 3 {
        assert(longer.take(3) =~= longer);
        assert(longer.take(3)[2] != BOM_2);
        assert(longer.take(3) != bom_bytes());
    }
    assert(starts_with_bom(longer) == starts_with_bom(first));
    let body = without_bom(first);
    assert(without_bom(longer) =~= body.push(NEWLINE));
    assert(body.last() == first.last());
    lemma_final_newline(body);
    if has_newline(first) {
        let e = first_newline(first);
        assert(is_first_newline(first, e));
        assert(is_first_newline(longer, e));
        lemma_first_newline_is(longer, e);
    } else {
        assert forall|j: int| 0 <= j < n implies longer[j] != NEWLINE by {
            if first[j] == NEWLINE {
                lemma_some_newline(first, j);
            }
        }
        assert(is_first_newline(longer, n));
        lemma_first_newline_is(longer, n);
    }
    assert(first_line_ends_crlf(longer) == first_line_ends_crlf(first));
    assert(operand_lines(longer, rest) =~= operand_lines(first, rest));
    assert(first_events(longer) == first_events(first));
}

/// A line's history never counts more operands than occurrences.
proof fn lemma_files_at_most_lines(ev: Seq<(nat, Seq<u8>)>, line: Seq<u8>)
    ensures
        tally_of(ev, line) matches Some(t) ==> t.files <= t.lines,
    decreases ev.len(),
{
    if ev.len() > 0 {
        lemma_files_at_most_lines(ev.drop_last(), line);
    }
}

/// Each line given has a history, whose counts are those of the operands.
proof fn lemma_given_counts(op: OpName, first: Seq<u8>, rest: Seq<Seq<u8>>, line: Seq<u8>)
    requires
        zet_lines(op, first, rest).contains(line),
    ensures
        tally_of(all_events(first, rest), line) is Some,
        tally_of(all_events(first, rest), line).unwrap().files == operands_holding(
            operand_lines(first, rest),
            line,
        ),
        tally_of(all_events(first, rest), line).unwrap().lines == occurrences(
            operand_lines(first, rest),
            line,
        ),
        op == OpName::Single ==> operands_holding(operand_lines(first, rest), line) == 1
            && occurrences(operand_lines(first, rest), line) == 1,
{
    law_lines_given(op, first, rest, line);
    law_counts(first, rest, line);
    lemma_files_at_most_lines(all_events(first, rest), line);
}

/// Counts that never reach `u32::MAX` are written the same whether or not
/// `u32::MAX` would be marked as an overflow.
proof fn lemma_unmarked(keys: Seq<Seq<u8>>, counts: Seq<u32>, width: nat, crlf: bool)
    requires
        keys.len() <= counts.len(),
        forall|i: int| 0 <= i < keys.len() ==> counts[i] != u32::MAX,
    ensures
        annotated_text(keys, counts, width, true, crlf) == annotated_text(keys, counts, width, false, crlf),
    decreases keys.len(),
{
    if keys.len() > 0 {
        lemma_unmarked(keys.drop_last(), counts, width, crlf);
    }
}

/// With `--count-files` each line given is preceded by the number of operands
/// that hold it, whatever the operation: the output is the byte order mark of
/// the first operand, if it has one, then each line given with that number,
/// right-aligned to the widest, and the first operand's line terminator.
pub proof fn law_count_files(op: OpName, first: Seq<u8>, rest: Seq<Seq<u8>>)
    ensures
        zet_output(op, LogType::Files, first, rest) == annotated_output(
            starts_with_bom(first),
            first_line_ends_crlf(first),
            zet_lines(op, first, rest),
            zet_lines(op, first, rest).map_values(
                |l: Seq<u8>| operands_holding(operand_lines(first, rest), l) as u32,
            ),
            false,
        ),
{
    let keys = zet_lines(op, first, rest);
    let ev = all_events(first, rest);
    let ops = operand_lines(first, rest);
    let tallies = tallies_of(keys, ev);
    let counts = keys.map_values(|l: Seq<u8>| operands_holding(ops, l) as u32);
    assert forall|i: int| 0 <= i < keys.len() implies tally_of(ev, #[trigger] keys[i]) is Some
        && tally_of(ev, keys[i]).unwrap().files == operands_holding(ops, keys[i])
        && tally_of(ev, keys[i]).unwrap().lines == occurrences(ops, keys[i])
        && (op == OpName::Single ==> operands_holding(ops, keys[i]) == 1 && occurrences(ops, keys[i]) == 1) by {
        assert(keys.contains(keys[i]));
        lemma_given_counts(op, first, rest, keys[i]);
    }
    if op == OpName::Single {
        let lc = reported_counts(LogType::Lines, tallies);
        assert(lc =~= counts);
        lemma_unmarked(keys, counts, decimal(max_count(counts) as nat).len(), first_line_ends_crlf(first));
    } else {
        assert(reported_counts(LogType::Files, tallies) =~= counts);
    }
}

/// With `--count-lines` each line given is preceded by the number of times it
/// occurs in the input (` overflow  ` from `u32::MAX` on), whatever the
/// operation.
pub proof fn law_count_lines(op: OpName, first: Seq<u8>, rest: Seq<Seq<u8>>)
    ensures
        zet_output(op, LogType::Lines, first, rest) == annotated_output(
            starts_with_bom(first),
            first_line_ends_crlf(first),
            zet_lines(op, first, rest),
            zet_lines(op, first, rest).map_values(
                |l: Seq<u8>| capped(occurrences(operand_lines(first, rest), l)),
            ),
            true,
        ),
{
    let keys = zet_lines(op, first, rest);
    let ev = all_events(first, rest);
    let ops = operand_lines(first, rest);
    let tallies = tallies_of(keys, ev);
    let counts = keys.map_values(|l: Seq<u8>| capped(occurrences(ops, l)));
    assert forall|i: int| 0 <= i < keys.len() implies tally_of(ev, #[trigger] keys[i]) is Some
        && tally_of(ev, keys[i]).unwrap().lines == occurrences(ops, keys[i]) by {
        assert(keys.contains(keys[i]));
        lemma_given_counts(op, first, rest, keys[i]);
    }
    assert(reported_counts(LogType::Lines, tallies) =~= counts);
}

/// Without a count flag, the output is the byte order mark of the first
/// operand, if it has one, then each line given with the first operand's line
/// terminator.
pub proof fn law_no_count(op: OpName, first: Seq<u8>, rest: Seq<Seq<u8>>)
    ensures
        zet_output(op, LogType::NoCount, first, rest) == bom_prefix(starts_with_bom(first)) + lines_text(
            zet_lines(op, first, rest),
            first_line_ends_crlf(first),
        ),
{
}

/// The operation asked for is the one run, on any number of operands but
/// one; on a single operand, only `multiple --files` is skipped (it can give
/// no line), and the others are run as themselves or as `union`.
pub proof fn law_operation_for(op: OpName, number_of_operands: nat)
    ensures
        number_of_operands != 1 ==> optimized(op, number_of_operands) == Some(op),
        optimized(op, number_of_operands) is None <==> number_of_operands == 1 && op
            == OpName::MultipleByFile,
        optimized(op, number_of_operands) matches Some(o) ==> o == op || o == OpName::Union,
{
}

/// What a command line asks for: help for `--help`, for no command and for
/// `help`; else the version for `--version`; else the operation named, with
/// `--files` turning `single` and `multiple` into their by-file forms, and
/// the count that the flags name: files for `--count-files`, lines for
/// `--count-lines`, files or lines for `--count` as `--files` is given or not,
/// and none without a count flag.
pub proof fn law_request(flags: CliFlags)
    ensures
        flags.help ==> request_of(flags) == Request::Help,
        !flags.help && flags.version ==> request_of(flags) == Request::Version,
        !flags.help && !flags.version && (flags.command is None || flags.command == Some(CliName::Help))
            ==> request_of(flags) == Request::Help,
        !flags.help && !flags.version && flags.command is Some && flags.command != Some(CliName::Help)
            ==> request_of(flags) is Run,
        request_of(flags) matches Request::Run { op, log_type } ==> {
            &&& !flags.help && !flags.version
            &&& flags.command == Some(CliName::Union) ==> op == OpName::Union
            &&& flags.command == Some(CliName::Intersect) ==> op == OpName::Intersect
            &&& flags.command == Some(CliName::Diff) ==> op == OpName::Diff
            &&& flags.command == Some(CliName::Single) ==> op == (if flags.files {
                OpName::SingleByFile
            } else {
                OpName::Single
            })
            &&& flags.command == Some(CliName::Multiple) ==> op == (if flags.files {
                OpName::MultipleByFile
            } else {
                OpName::Multiple
            })
            &&& flags.count_files ==> log_type == LogType::Files
            &&& !flags.count_files && flags.count_lines ==> log_type == LogType::Lines
            &&& !flags.count_files && !flags.count_lines && flags.count ==> log_type == (if flags.files {
                LogType::Files
            } else {
                LogType::Lines
            })
            &&& !flags.count_files && !flags.count_lines && !flags.count ==> log_type == LogType::NoCount
        },
{
}

/// Every `\n` ends a line, an empty one too: a lone `\n` is one empty line;
/// the lines of `x`, a `\n` and `y` are the lines of `x` with the `\n`
/// followed by the lines of `y`; and `x` without a `\n`, followed by one, is
/// the single line `x`, without a final `\r`. Without a `\n`, a text is one
/// line as it is, if it is not empty.
pub proof fn law_each_newline_ends_a_line(x: Seq<u8>, y: Seq<u8>)
    ensures
        split_lines(seq![NEWLINE]) == seq![Seq::<u8>::empty()],
        !x.contains(NEWLINE) ==> split_lines(x) == (if x.len() == 0 {
            Seq::<Seq<u8>>::empty()
        } else {
            seq![x]
        }),
        split_lines(x.push(NEWLINE) + y) == split_lines(x.push(NEWLINE)) + split_lines(y),
        !x.contains(NEWLINE) ==> split_lines(x.push(NEWLINE)) == seq![strip_cr(x)],
{
    lemma_split_at_newline(x, y);
    lemma_split_at_newline(Seq::<u8>::empty(), Seq::<u8>::empty());
    if !x.contains(NEWLINE) && has_newline(x) {
        let e = first_newline(x);
        assert(is_first_newline(x, e));
        assert(x[e] == NEWLINE);
    }
    assert(Seq::<u8>::empty().push(NEWLINE) =~= seq![NEWLINE]);
    assert(strip_cr(Seq::<u8>::empty()) =~= Seq::<u8>::empty());
}

/// The output reads back as the lines given: the lines written, each with
/// its terminator, are read as those lines again, provided no line holds a
/// `\n` (none read from an operand does) and, where lines end in `\n` alone,
/// no line ends in `\r`. A non-empty output ends in `\n`.
pub proof fn law_output_reads_back(keys: Seq<Seq<u8>>, crlf: bool)
    requires
        forall|i: int| 0 <= i < keys.len() ==> !(#[trigger] keys[i]).contains(NEWLINE),
        !crlf ==> forall|i: int|
            0 <= i < keys.len() ==> (#[trigger] keys[i]).len() == 0 || keys[i].last() != CARRIAGE_RETURN,
    ensures
        split_lines(lines_text(keys, crlf)) == keys,
        keys.len() > 0 ==> lines_text(keys, crlf).len() > 0 && lines_text(keys, crlf).last() == NEWLINE,
    decreases keys.len(),
{
    if keys.len() > 0 {
        let init = keys.drop_last();
        let k = keys.last();
        assert(k == keys[keys.len() - 1]);
        law_output_reads_back(init, crlf);
        let t = lines_text(init, crlf);
        let term = if crlf {
            seq![CARRIAGE_RETURN, NEWLINE]
        } else {
            seq![NEWLINE]
        };
        let body = if crlf {
            k.push(CARRIAGE_RETURN)
        } else {
            k
        };
        let piece = body.push(NEWLINE);
        assert(k + term =~= piece);
        assert(lines_text(keys, crlf) =~= t + piece);
        assert forall|j: int| 0 <= j < body.len() implies body[j] != NEWLINE by {
            if j < k.len() {
                if k[j] == NEWLINE {
                    assert(k.contains(NEWLINE));
                }
            }
        }
        assert(!body.contains(NEWLINE));
        lemma_split_at_newline(body, Seq::<u8>::empty());
        assert(piece + Seq::<u8>::empty() =~= piece);
        assert(strip_cr(body) == k) by {
            if crlf {
                assert(body.drop_last() =~= k);
            }
        }
        if init.len() == 0 {
            assert(t =~= Seq::<u8>::empty());
            assert(t + piece =~= piece);
        } else {
            let front = t.drop_last();
            assert(front.push(NEWLINE) =~= t);
            lemma_split_at_newline(front, piece);
            assert(front.push(NEWLINE) + piece =~= t + piece);
        }
        assert(split_lines(t + piece) =~= keys);
    }
}

/// The number that the decimal digits `s` (most significant first) spell.
pub open spec fn digits_value(s: Seq<u8>) -> nat
    decreases s.len(),
{
    if s.len() == 0 {
        0
    } else {
        digits_value(s.drop_last()) * 10 + (s.last() - 48) as nat
    }
}

/// A count is written in decimal: digits only, spelling the count, with no
/// leading zero.
pub proof fn law_decimal(n: nat)
    ensures
        decimal(n).len() > 0,
        forall|i: int| 0 <= i < decimal(n).len() ==> 48 <= #[trigger] decimal(n)[i] <= 57,
        digits_value(decimal(n)) == n,
        decimal(n)[0] == 48 ==> n == 0,
    decreases n,
{
    if n < 10 {
        assert(decimal(n).drop_last() =~= Seq::<u8>::empty());
        assert(digits_value(Seq::<u8>::empty()) == 0);
        assert(decimal(n).last() == (48 + n) as u8);
    } else {
        law_decimal(n / 10);
        let d = decimal(n / 10);
        assert(decimal(n) == d.push((48 + n % 10) as u8));
        assert(decimal(n).drop_last() =~= d);
        assert(decimal(n).last() == (48 + n % 10) as u8);
        assert((decimal(n).last() - 48) as nat == n % 10);
        assert(digits_value(decimal(n)) == digits_value(d) * 10 + n % 10);
        assert((n / 10) * 10 + n % 10 == n) by (nonlinear_arith);
        assert(decimal(n)[0] == d[0]);
        assert forall|i: int| 0 <= i < decimal(n).len() implies 48 <= #[trigger] decimal(n)[i] <= 57 by {
            if i < d.len() {
                assert(decimal(n)[i] == d[i]);
            }
        }
    }
}

/// A larger number takes at least as many digits.
proof fn lemma_decimal_len_grows(a: nat, b: nat)
    requires
        a <= b,
    ensures
        decimal(a).len() <= decimal(b).len(),
    decreases b,
{
    law_decimal(a);
    law_decimal(b);
    if a >= 10 {
        assert(a / 10 <= b / 10);
        lemma_decimal_len_grows(a / 10, b / 10);
    }
}

/// The counts are right-aligned to the widest: no count has more digits than
/// the field they are written in, and, when there is a count, one fills it.
pub proof fn law_count_width(counts: Seq<u32>)
    ensures
        forall|i: int|
            0 <= i < counts.len() ==> decimal(#[trigger] counts[i] as nat).len() <= decimal(
                max_count(counts) as nat,
            ).len(),
        counts.len() > 0 ==> exists|i: int| 0 <= i < counts.len() && counts[i] == max_count(counts),
    decreases counts.len(),
{
    if counts.len() > 0 {
        let init = counts.drop_last();
        law_count_width(init);
        assert forall|i: int| 0 <= i < counts.len() implies decimal(#[trigger] counts[i] as nat).len()
            <= decimal(max_count(counts) as nat).len() by {
            lemma_max_count_bounds(counts, i);
            lemma_decimal_len_grows(counts[i] as nat, max_count(counts) as nat);
        }
        if counts.last() > max_count(init) {
            assert(counts[counts.len() - 1] == max_count(counts));
        } else if init.len() > 0 {
            let j = choose|j: int| 0 <= j < init.len() && init[j] == max_count(init);
            assert(counts[j] == init[j]);
        } else {
            assert(counts[0] == counts.last());
        }
    }
}

/// No count exceeds the largest.
proof fn lemma_max_count_bounds(counts: Seq<u32>, i: int)
    requires
        0 <= i < counts.len(),
    ensures
        counts[i] <= max_count(counts),
    decreases counts.len(),
{
    if i < counts.len() - 1 {
        lemma_max_count_bounds(counts.drop_last(), i);
        assert(counts.drop_last()[i] == counts[i]);
    }
}

} // verus!
