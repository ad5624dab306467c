//! The mathematical model of a calculation: the lines of each operand as a
//! stream of events, the history (`Tally`) of each line in that stream, the
//! distinct lines in order of first appearance, and selection by a predicate.
use crate::lines::{split_lines, without_bom};
use vstd::prelude::*;

verus! {

/// What the input so far says of one line: how many times it occurred, in how
/// many operands, and the index of the last operand that held it.
pub struct Tally {
    pub lines: nat,
    pub files: nat,
    pub last: nat,
}

/// The history of a line seen once, in operand `f`.
pub open spec fn fresh(f: nat) -> Tally {
    Tally { lines: 1, files: 1, last: f }
}

/// The history `t` of a line, after the line is seen again in operand `f`.
pub open spec fn step(t: Tally, f: nat) -> Tally {
    Tally { lines: t.lines + 1, files: if t.last == f { t.files } else { t.files + 1 }, last: f }
}

/// A history that the stream up to operand `cur` can produce: the line was
/// seen, operands are taken in order, and it was seen in at most every operand.
pub open spec fn valid(t: Tally, cur: nat) -> bool {
    &&& t.lines >= 1
    &&& t.files >= 1
    &&& t.files <= t.last + 1
    &&& t.last <= cur
}

/// The lines of `lines`, each tagged with the operand index `f`.
pub open spec fn tagged(lines: Seq<Seq<u8>>, f: nat) -> Seq<(nat, Seq<u8>)> {
    lines.map_values(|l: Seq<u8>| (f, l))
}

/// The stream of all lines of all operands, in order, each tagged with the
/// index of its operand.
pub open spec fn events(ops: Seq<Seq<Seq<u8>>>) -> Seq<(nat, Seq<u8>)>
    decreases ops.len(),
{
    if ops.len() == 0 {
        Seq::empty()
    } else {
        events(ops.drop_last()) + tagged(ops.last(), (ops.len() - 1) as nat)
    }
}

/// The lines of each operand: the first operand without its byte order mark,
/// the others as they are.
pub open spec fn operand_lines(first: Seq<u8>, rest: Seq<Seq<u8>>) -> Seq<Seq<Seq<u8>>> {
    seq![split_lines(without_bom(first))] + rest.map_values(|r: Seq<u8>| split_lines(r))
}

/// The history of `line` in the stream `ev`, or `None` if it does not occur.
pub open spec fn tally_of(ev: Seq<(nat, Seq<u8>)>, line: Seq<u8>) -> Option<Tally>
    decreases ev.len(),
{
    if ev.len() == 0 {
        None
    } else {
        let prior = tally_of(ev.drop_last(), line);
        if ev.last().1 == line {
            Some(
                match prior {
                    None => fresh(ev.last().0),
                    Some(t) => step(t, ev.last().0),
                },
            )
        } else {
            prior
        }
    }
}

/// The distinct lines of the stream `ev`, in order of first appearance.
pub open spec fn seen(ev: Seq<(nat, Seq<u8>)>) -> Seq<Seq<u8>>
    decreases ev.len(),
{
    if ev.len() == 0 {
        Seq::empty()
    } else {
        let earlier = seen(ev.drop_last());
        if earlier.contains(ev.last().1) {
            earlier
        } else {
            earlier.push(ev.last().1)
        }
    }
}

/// The lines of `keys` for which `keep` holds, in their order.
pub open spec fn select(keys: Seq<Seq<u8>>, keep: spec_fn(Seq<u8>) -> bool) -> Seq<Seq<u8>>
    decreases keys.len(),
{
    if keys.len() == 0 {
        Seq::empty()
    } else {
        let earlier = select(keys.drop_last(), keep);
        if keep(keys.last()) {
            earlier.push(keys.last())
        } else {
            earlier
        }
    }
}

/// The elements `s[i]` for which `mask[i]` holds, in order.
pub open spec fn masked<T>(s: Seq<T>, mask: Seq<bool>) -> Seq<T>
    decreases s.len(),
{
    if s.len() == 0 {
        Seq::empty()
    } else {
        let earlier = masked(s.drop_last(), mask);
        if mask[s.len() - 1] {
            earlier.push(s.last())
        } else {
            earlier
        }
    }
}

/// The histories of `keys` in the stream `ev`.
pub open spec fn tallies_of(keys: Seq<Seq<u8>>, ev: Seq<(nat, Seq<u8>)>) -> Seq<Tally> {
    keys.map_values(|k: Seq<u8>| tally_of(ev, k).unwrap())
}

/// A line occurs in the stream exactly when it has a history there, and then
/// it is among the distinct lines seen.
pub proof fn lemma_seen_tally(ev: Seq<(nat, Seq<u8>)>, line: Seq<u8>)
    ensures
        seen(ev).contains(line) <==> tally_of(ev, line) is Some,
    decreases ev.len(),
{
    if ev.len() > 0 {
        lemma_seen_tally(ev.drop_last(), line);
        let earlier = seen(ev.drop_last());
        if !earlier.contains(ev.last().1) {
            let s = earlier.push(ev.last().1);
            assert(s[earlier.len() as int] == ev.last().1);
            if line != ev.last().1 {
                if s.contains(line) {
                    let i = choose|i: int| 0 <= i < s.len() && s[i] == line;
                    assert(earlier[i] == line);
                }
                if earlier.contains(line) {
                    let i = choose|i: int| 0 <= i < earlier.len() && earlier[i] == line;
                    assert(s[i] == line);
                }
            }
        }
    }
}

/// The distinct lines seen are indeed distinct.
pub proof fn lemma_seen_distinct(ev: Seq<(nat, Seq<u8>)>)
    ensures
        seen(ev).no_duplicates(),
    decreases ev.len(),
{
    if ev.len() > 0 {
        lemma_seen_distinct(ev.drop_last());
        let earlier = seen(ev.drop_last());
        if !earlier.contains(ev.last().1) {
            let s = earlier.push(ev.last().1);
            assert forall|i: int, j: int| 0 <= i < s.len() && 0 <= j < s.len() && i != j implies s[i]
                != s[j] by {
                if i == earlier.len() as int {
                    assert(s[j] == earlier[j]);
                } else if j == earlier.len() as int {
                    assert(s[i] == earlier[i]);
                }
            }
        }
    }
}

/// Selection depends only on what the predicate says of the lines selected from.
pub proof fn lemma_select_congruent(
    keys: Seq<Seq<u8>>,
    p: spec_fn(Seq<u8>) -> bool,
    q: spec_fn(Seq<u8>) -> bool,
)
    requires
        forall|i: int| 0 <= i < keys.len() ==> p(keys[i]) == q(keys[i]),
    ensures
        select(keys, p) == select(keys, q),
    decreases keys.len(),
{
    if keys.len() > 0 {
        assert(p(keys[keys.len() - 1]) == q(keys[keys.len() - 1]));
        lemma_select_congruent(keys.drop_last(), p, q);
    }
}

/// A mask that says what a predicate says selects what the predicate selects.
pub proof fn lemma_masked_select(keys: Seq<Seq<u8>>, mask: Seq<bool>, keep: spec_fn(Seq<u8>) -> bool)
    requires
        keys.len() <= mask.len(),
        forall|i: int| 0 <= i < keys.len() ==> mask[i] == keep(#[trigger] keys[i]),
    ensures
        masked(keys, mask) == select(keys, keep),
    decreases keys.len(),
{
    if keys.len() > 0 {
        assert(mask[keys.len() - 1] == keep(keys[keys.len() - 1]));
        lemma_masked_select(keys.drop_last(), mask, keep);
    }
}

/// Appending a line that is not yet present keeps a sequence free of duplicates.
pub proof fn lemma_push_distinct(s: Seq<Seq<u8>>, x: Seq<u8>)
    requires
        s.no_duplicates(),
        !s.contains(x),
    ensures
        s.push(x).no_duplicates(),
{
    let t = s.push(x);
    assert forall|i: int, j: int| 0 <= i < t.len() && 0 <= j < t.len() && i != j implies t[i]
        != t[j] by {
        if i == s.len() as int {
            assert(t[j] == s[j]);
        } else if j == s.len() as int {
            assert(t[i] == s[i]);
        }
    }
}

/// Selecting every line keeps them all.
pub proof fn lemma_select_all(keys: Seq<Seq<u8>>, keep: spec_fn(Seq<u8>) -> bool)
    requires
        forall|i: int| 0 <= i < keys.len() ==> keep(#[trigger] keys[i]),
    ensures
        select(keys, keep) == keys,
    decreases keys.len(),
{
    if keys.len() > 0 {
        assert(keep(keys[keys.len() - 1]));
        lemma_select_all(keys.drop_last(), keep);
        assert(keys.drop_last().push(keys.last()) =~= keys);
    }
}

/// The stream of the first `k + 1` operands is that of the first `k`, then
/// the lines of operand `k`.
pub proof fn lemma_events_take(ops: Seq<Seq<Seq<u8>>>, k: int)
    requires
        0 <= k < ops.len(),
    ensures
        events(ops.take(k + 1)) == events(ops.take(k)) + tagged(ops[k], k as nat),
{
    let s = ops.take(k + 1);
    assert(s.drop_last() =~= ops.take(k));
    assert(s.last() == ops[k]);
}

/// Appending the lines `lines` of operand `f` to a stream in which `line`, if
/// it occurs, was last seen before operand `f`: if `lines` holds `line`, its
/// history now ends in operand `f` and counts one more operand; otherwise its
/// history is unchanged.
pub proof fn lemma_tally_operand(ev: Seq<(nat, Seq<u8>)>, lines: Seq<Seq<u8>>, f: nat, line: Seq<u8>)
    requires
        tally_of(ev, line) matches Some(t) ==> t.last < f,
    ensures
        !lines.contains(line) ==> tally_of(ev + tagged(lines, f), line) == tally_of(ev, line),
        lines.contains(line) ==> (tally_of(ev + tagged(lines, f), line) matches Some(u) && u.last == f
            && u.lines >= 1 && u.files == (match tally_of(ev, line) {
            Some(t) => t.files + 1,
            None => 1nat,
        })),
    decreases lines.len(),
{
    if lines.len() == 0 {
        assert(ev + tagged(lines, f) =~= ev);
    } else {
        let init = lines.drop_last();
        lemma_tally_operand(ev, init, f, line);
        let s = ev + tagged(lines, f);
        assert(s.drop_last() =~= ev + tagged(init, f));
        assert(s.last() == (f, lines.last()));
        if lines.last() == line {
            assert(lines[lines.len() - 1] == line);
        } else {
            if init.contains(line) {
                let i = choose|i: int| 0 <= i < init.len() && init[i] == line;
                assert(lines[i] == line);
            }
            if lines.contains(line) {
                let i = choose|i: int| 0 <= i < lines.len() && lines[i] == line;
                assert(init[i] == line);
            }
        }
    }
}

/// Every history in the stream of the first `n` operands is valid up to
/// operand `n - 1`.
pub proof fn lemma_events_valid(ops: Seq<Seq<Seq<u8>>>, n: nat, line: Seq<u8>)
    requires
        1 <= n <= ops.len(),
    ensures
        tally_of(events(ops.take(n as int)), line) matches Some(t) ==> valid(t, (n - 1) as nat),
    decreases n,
{
    lemma_events_take(ops, n - 1);
    let prior = events(ops.take(n - 1));
    if n == 1 {
        assert(ops.take(0) =~= Seq::<Seq<Seq<u8>>>::empty());
        assert(prior =~= Seq::<(nat, Seq<u8>)>::empty());
    } else {
        lemma_events_valid(ops, (n - 1) as nat, line);
    }
    lemma_tally_operand(prior, ops[n - 1], (n - 1) as nat, line);
}

/// Selecting by `q` from what `p` selects selects what `r` does, where `r`
/// holds exactly where both `p` and `q` do.
pub proof fn lemma_select_select(
    keys: Seq<Seq<u8>>,
    p: spec_fn(Seq<u8>) -> bool,
    q: spec_fn(Seq<u8>) -> bool,
    r: spec_fn(Seq<u8>) -> bool,
)
    requires
        forall|i: int| 0 <= i < keys.len() ==> r(#[trigger] keys[i]) == (p(keys[i]) && q(keys[i])),
    ensures
        select(select(keys, p), q) == select(keys, r),
    decreases keys.len(),
{
    if keys.len() > 0 {
        let init = keys.drop_last();
        let x = keys.last();
        assert(r(keys[keys.len() - 1]) == (p(keys[keys.len() - 1]) && q(keys[keys.len() - 1])));
        assert forall|i: int| 0 <= i < init.len() implies r(#[trigger] init[i]) == (p(init[i]) && q(init[i])) by {
            assert(init[i] == keys[i]);
        }
        lemma_select_select(init, p, q, r);
        if p(x) {
            let s = select(init, p).push(x);
            assert(s.drop_last() =~= select(init, p));
        }
    }
}

/// How many times `line` occurs in `lines`.
pub open spec fn count_in(lines: Seq<Seq<u8>>, line: Seq<u8>) -> nat
    decreases lines.len(),
{
    if lines.len() == 0 {
        0
    } else {
        count_in(lines.drop_last(), line) + (if lines.last() == line {
            1nat
        } else {
            0nat
        })
    }
}

/// `count_in` a beginning of `lines` is at most `count_in` all of it.
pub proof fn lemma_count_take(lines: Seq<Seq<u8>>, j: int, line: Seq<u8>)
    requires
        0 <= j <= lines.len(),
    ensures
        count_in(lines.take(j), line) <= count_in(lines, line),
    decreases lines.len(),
{
    if j == lines.len() {
        assert(lines.take(j) =~= lines);
    } else {
        assert(lines.drop_last().take(j) =~= lines.take(j));
        lemma_count_take(lines.drop_last(), j, line);
    }
}

} // verus!
