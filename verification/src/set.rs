//! Provides the `ZetSet` structure, intended to be initialized from the
//! contents of the first input file.
use crate::lines::{line_views, lines_of, output_info, split_lines, without_bom};
use crate::model::{
    count_in, fresh, lemma_count_take, lemma_masked_select, lemma_push_distinct, lemma_seen_distinct,
    lemma_seen_tally, masked, seen, select, step, tagged, tally_of, valid, Tally,
};
use crate::operations::Bookkeeping;
use crate::outside::{
    index_insert, index_into_lines, index_len, index_line, index_of, indexed_lines,
    new_line_index,
};
use fxhash::FxBuildHasher;
use indexmap::IndexSet;
use std::borrow::Cow;
use vstd::prelude::*;
use vstd::slice::{slice_subrange, slice_to_vec};

verus! {

/// A `ZetSet` is an ordered set of lines, each with a bookkeeping value.
/// * The lines are held in an `IndexSet`, in the order in which they were
///   first seen; lines of the first operand are borrowed from it, later lines
///   are owned.
/// * `items[i]` is the bookkeeping value of the `i`th line. Each set operation
///   (`Union`, `Diff`, etc) chooses the type of these values.
/// * The set also records whether the first operand began with a byte order
///   mark, and whether its first line ended with `\r\n`: the output repeats the
///   mark and uses that line terminator.
pub struct ZetSet<'data, B> {
    lines: IndexSet<Cow<'data, [u8]>, FxBuildHasher>,
    items: Vec<B>,
    bom: bool,
    crlf: bool,
}

impl<'data, B: Copy> ZetSet<'data, B> {
    /// The lines of the set, in order.
    pub closed spec fn keys(&self) -> Seq<Seq<u8>> {
        indexed_lines(self.lines)
    }

    /// The bookkeeping values, one per line.
    pub closed spec fn items(&self) -> Seq<B> {
        self.items@
    }

    /// The output starts with a byte order mark.
    pub closed spec fn bom(&self) -> bool {
        self.bom
    }

    /// The output terminates lines with `\r\n` (else with `\n`).
    pub closed spec fn crlf(&self) -> bool {
        self.crlf
    }

    /// Does the output start with a byte order mark?
    pub fn writes_bom(&self) -> (r: bool)
        ensures
            r == self.bom(),
    {
        self.bom
    }

    /// Does the output terminate lines with `\r\n`?
    pub fn uses_crlf(&self) -> (r: bool)
        ensures
            r == self.crlf(),
    {
        self.crlf
    }

    /// Each line has a bookkeeping value, and no line occurs twice.
    pub open spec fn wf(&self) -> bool {
        &&& self.keys().len() == self.items().len()
        &&& self.keys().no_duplicates()
    }

    /// The number of lines.
    pub fn len(&self) -> (r: usize)
        requires
            self.wf(),
        ensures
            r == self.keys().len(),
    {
        index_len(&self.lines)
    }

    /// The `i`th line.
    pub fn line(&self, i: usize) -> (r: &[u8])
        requires
            self.wf(),
            i < self.keys().len(),
        ensures
            r@ == self.keys()[i as int],
    {
        index_line(&self.lines, i)
    }

    /// The bookkeeping value of the `i`th line.
    pub fn item(&self, i: usize) -> (r: B)
        requires
            self.wf(),
            i < self.keys().len(),
        ensures
            r == self.items()[i as int],
    {
        self.items[i]
    }

    /// Create a new `ZetSet` holding the lines of `slice` (after its byte order
    /// mark, if any), each borrowed from `slice`, every one with the value `item`.
    pub fn with_value(slice: &'data [u8], item: B) -> (r: Self)
        ensures
            r.wf(),
            r.keys() == seen(tagged(split_lines(without_bom(slice@)), 0)),
            r.items() == Seq::new(r.keys().len(), |i: int| item),
            r.bom() == crate::lines::starts_with_bom(slice@),
            r.crlf() == crate::lines::first_line_ends_crlf(slice@),
    {
        let (bom, crlf) = output_info(slice);
        let body = if bom {
            slice_subrange(slice, 3, slice.len())
        } else {
            slice
        };
        assert(body@ =~= without_bom(slice@));
        let lines = lines_of(body);
        let mut set = ZetSet { lines: new_line_index(), items: Vec::new(), bom, crlf };
        let ghost all = split_lines(without_bom(slice@));
        proof {
            lemma_seen_distinct(tagged(Seq::empty(), 0));
            assert(tagged(all.take(0), 0) =~= Seq::empty());
            assert(set.items() =~= Seq::new(set.keys().len(), |i: int| item));
        }
        let mut j: usize = 0;
        while j < lines.len()
            invariant
                line_views(lines@) == all,
                j <= lines@.len(),
                set.wf(),
                set.keys() == seen(tagged(all.take(j as int), 0)),
                set.items() == Seq::new(set.keys().len(), |i: int| item),
                set.bom() == bom,
                set.crlf() == crlf,
            decreases lines@.len() - j,
        {
            let line = lines[j];
            let ghost ev = tagged(all.take(j as int), 0);
            let ghost ev2 = ev.push((0nat, line@));
            assert(line@ == all[j as int]);
            assert(ev2.drop_last() =~= ev);
            proof {
                lemma_seen_distinct(ev2);
            }
            let (_, inserted) = index_insert(&mut set.lines, Cow::Borrowed(line));
            if inserted {
                set.items.push(item);
            }
            assert(set.items() =~= Seq::new(set.keys().len(), |i: int| item));
            j = j + 1;
            assert(ev2 =~= tagged(all.take(j as int), 0));
        }
        assert(all.take(lines@.len() as int) =~= all);
        set
    }

    /// The index of the line equal to `line`, if there is one.
    pub fn position(&self, line: &[u8]) -> (r: Option<usize>)
        requires
            self.wf(),
        ensures
            r matches Some(i) ==> i < self.keys().len() && self.keys()[i as int] == line@,
            r is None ==> !self.keys().contains(line@),
    {
        index_of(&self.lines, line)
    }

    /// Give the `i`th line the value `item`.
    pub fn set_item(&mut self, i: usize, item: B)
        requires
            old(self).wf(),
            i < old(self).keys().len(),
        ensures
            final(self).wf(),
            final(self).keys() == old(self).keys(),
            final(self).items() == old(self).items().update(i as int, item),
            final(self).bom() == old(self).bom(),
            final(self).crlf() == old(self).crlf(),
    {
        self.items.set(i, item);
    }

    /// Insert `line` as an owned line with value `item`. If the line is already
    /// present, it keeps its place and its value becomes `item`.
    pub fn insert(&mut self, line: &[u8], item: B)
        requires
            old(self).wf(),
        ensures
            final(self).wf(),
            final(self).keys() == (if old(self).keys().contains(line@) {
                old(self).keys()
            } else {
                old(self).keys().push(line@)
            }),
            forall|i: int|
                0 <= i < final(self).keys().len() ==> #[trigger] final(self).items()[i] == (if final(self).keys()[i] == line@ {
                    item
                } else {
                    old(self).items()[i]
                }),
            final(self).bom() == old(self).bom(),
            final(self).crlf() == old(self).crlf(),
    {
        match index_of(&self.lines, line) {
            Some(i) => {
                proof {
                    assert forall|k: int| 0 <= k < self.keys().len() && k != i as int implies self.keys()[k]
                        != line@ by {
                        assert(self.keys().no_duplicates());
                    }
                }
                self.items.set(i, item);
            },
            None => {
                let owned: Vec<u8> = slice_to_vec(line);
                proof {
                    lemma_push_distinct(self.keys(), line@);
                }
                let ghost before = self.keys();
                index_insert(&mut self.lines, Cow::Owned(owned));
                self.items.push(item);
                assert forall|k: int| 0 <= k < before.len() implies self.keys()[k] != line@ by {
                    assert(self.keys()[k] == before[k]);
                }
            },
        }
    }

    /// Keep exactly the lines `i` for which `mask[i]` holds, in their order.
    pub(crate) fn retain_masked(&mut self, mask: &Vec<bool>) -> (origin: Ghost<Seq<int>>)
        requires
            old(self).wf(),
            mask@.len() == old(self).keys().len(),
        ensures
            final(self).wf(),
            final(self).keys() == masked(old(self).keys(), mask@),
            final(self).items() == masked(old(self).items(), mask@),
            origin@.len() == final(self).keys().len(),
            forall|m: int|
                #![trigger origin@[m]]
                0 <= m < origin@.len() ==> 0 <= origin@[m] < old(self).keys().len() && mask@[origin@[m]]
                    && final(self).keys()[m] == old(self).keys()[origin@[m]] && final(self).items()[m]
                    == old(self).items()[origin@[m]],
            final(self).bom() == old(self).bom(),
            final(self).crlf() == old(self).crlf(),
    {
        let ghost keys = old(self).keys();
        let ghost items = old(self).items();
        let mut old_lines = new_line_index();
        std::mem::swap(&mut old_lines, &mut self.lines);
        let mut old_items: Vec<B> = Vec::new();
        std::mem::swap(&mut old_items, &mut self.items);
        assert(indexed_lines(old_lines) == keys);
        let n = index_len(&old_lines);
        let mut forward = index_into_lines(old_lines);
        let mut backward: Vec<Cow<'data, [u8]>> = Vec::new();
        while forward.len() > 0
            invariant
                forward@.len() + backward@.len() == n,
                n == keys.len(),
                forall|m: int| 0 <= m < forward@.len() ==> #[trigger] forward@[m]@ == keys[m],
                forall|m: int|
                    0 <= m < backward@.len() ==> #[trigger] backward@[m]@ == keys[n - 1 - m],
            decreases forward@.len(),
        {
            let k = forward.pop().unwrap();
            backward.push(k);
        }
        let ghost mut origin: Seq<int> = Seq::empty();
        let mut j: usize = 0;
        while j < n
            invariant
                j <= n,
                n == keys.len(),
                keys.len() == items.len(),
                mask@.len() == n,
                keys.no_duplicates(),
                old_items@ == items,
                backward@.len() == n - j,
                forall|m: int|
                    0 <= m < backward@.len() ==> #[trigger] backward@[m]@ == keys[n - 1 - m],
                self.keys() == masked(keys.take(j as int), mask@),
                self.items() == masked(items.take(j as int), mask@),
                self.wf(),
                origin.len() == self.keys().len(),
                forall|m: int|
                    #![trigger origin[m]]
                    0 <= m < origin.len() ==> 0 <= origin[m] < j && mask@[origin[m]] && self.keys()[m]
                        == keys[origin[m]] && self.items()[m] == items[origin[m]],
                self.bom() == old(self).bom(),
                self.crlf() == old(self).crlf(),
            decreases n - j,
        {
            let key = backward.pop().unwrap();
            assert(key@ == keys[j as int]);
            let v = old_items[j];
            assert(keys.take(j + 1).drop_last() =~= keys.take(j as int));
            assert(items.take(j + 1).drop_last() =~= items.take(j as int));
            if mask[j] {
                proof {
                    if self.keys().contains(key@) {
                        let m = choose|m: int| 0 <= m < self.keys().len() && self.keys()[m] == key@;
                        assert(keys[origin[m]] == keys[j as int]);
                    }
                    lemma_push_distinct(self.keys(), key@);
                }
                let ghost before = self.keys();
                let (_, inserted) = index_insert(&mut self.lines, key);
                self.items.push(v);
                proof {
                    origin = origin.push(j as int);
                    assert forall|m: int| 0 <= m < origin.len() implies 0 <= #[trigger] origin[m] < j + 1
                        && mask@[origin[m]] && self.keys()[m] == keys[origin[m]] && self.items()[m]
                        == items[origin[m]] by {
                        if m < origin.len() - 1 {
                            assert(self.keys()[m] == before[m]);
                        }
                    }
                }
            }
            j = j + 1;
        }
        assert(keys.take(n as int) =~= keys);
        assert(items.take(n as int) =~= items);
        Ghost(origin)
    }

    /// The bookkeeping value of the first line, if there is one.
    pub fn first(&self) -> (r: Option<B>)
        requires
            self.wf(),
        ensures
            r == (if self.keys().len() == 0 {
                None
            } else {
                Some(self.items()[0])
            }),
    {
        if self.items.len() == 0 {
            None
        } else {
            Some(self.items[0])
        }
    }
}

/// `b` updated `n` times by `item`.
pub open spec fn repeated<B: Bookkeeping>(b: B, item: B, n: nat) -> B
    decreases n,
{
    if n == 0 {
        b
    } else {
        repeated(b, item, (n - 1) as nat).updated(item)
    }
}

/// `b` can be updated by `item` `n` times, one after the other, without overflow.
pub open spec fn updatable_times<B: Bookkeeping>(b: B, item: B, n: nat) -> bool {
    forall|j: nat| j < n ==> #[trigger] repeated(b, item, j).can_update(item)
}

/// `keys`, then each line of `lines` that is not already there, in order.
pub open spec fn extend(keys: Seq<Seq<u8>>, lines: Seq<Seq<u8>>) -> Seq<Seq<u8>>
    decreases lines.len(),
{
    if lines.len() == 0 {
        keys
    } else {
        let earlier = extend(keys, lines.drop_last());
        if earlier.contains(lines.last()) {
            earlier
        } else {
            earlier.push(lines.last())
        }
    }
}

/// What the lines `lines`, read into a set that held `keys` with values
/// `values`, leave there: the keys extended by the new lines; an old key's
/// value updated by `item` once for each time `lines` hold the key; a new
/// key's value `item`, updated once for each time after the first.
pub open spec fn absorbed<B: Bookkeeping>(
    keys: Seq<Seq<u8>>,
    values: Seq<B>,
    item: B,
    lines: Seq<Seq<u8>>,
    new_keys: Seq<Seq<u8>>,
    new_values: Seq<B>,
) -> bool {
    &&& new_keys == extend(keys, lines)
    &&& new_values.len() == new_keys.len()
    &&& forall|i: int|
        0 <= i < new_keys.len() ==> #[trigger] new_values[i] == (if i < keys.len() {
            repeated(values[i], item, count_in(lines, keys[i]))
        } else {
            repeated(item, item, (count_in(lines, new_keys[i]) - 1) as nat)
        })
}

/// The lines of `lines` can be read into a set holding `keys` with values
/// `values` without overflow: each old key's value can be updated as often
/// as `lines` hold the key, and `item` as often as `lines` hold a new line,
/// less one.
pub open spec fn absorbable<B: Bookkeeping>(
    keys: Seq<Seq<u8>>,
    values: Seq<B>,
    item: B,
    lines: Seq<Seq<u8>>,
) -> bool {
    &&& forall|i: int|
        0 <= i < keys.len() ==> updatable_times(#[trigger] values[i], item, count_in(lines, keys[i]))
    &&& forall|k: Seq<u8>|
        !keys.contains(k) ==> updatable_times(item, item, (count_in(lines, k) - 1) as nat)
}

/// Which values' retention values satisfy `pred`.
pub open spec fn retained_mask<B: Bookkeeping>(values: Seq<B>, pred: spec_fn(u32) -> bool) -> Seq<bool> {
    values.map_values(|b: B| pred(b.retained()))
}

/// A value consistent with a history valid up to operand `f`, updated any
/// number of times by the fresh value of `f`, stays consistent with a history
/// valid up to `f`, and can be updated again.
pub proof fn lemma_repeated<B: Bookkeeping>(b: B, item: B, t: Tally, f: nat, n: nat) -> (u: Tally)
    requires
        valid(t, f),
        f < u32::MAX,
        b.models(t),
        item.models(fresh(f)),
    ensures
        valid(u, f),
        repeated(b, item, n).models(u),
        repeated(b, item, n).can_update(item),
    decreases n,
{
    if n == 0 {
        b.lemma_update(item, t, f);
        t
    } else {
        let u0 = lemma_repeated(b, item, t, f, (n - 1) as nat);
        repeated(b, item, (n - 1) as nat).lemma_update(item, u0, f);
        let u = step(u0, f);
        repeated(b, item, n).lemma_update(item, u, f);
        u
    }
}

/// Such a value can be updated `n` times.
pub proof fn lemma_updatable<B: Bookkeeping>(b: B, item: B, t: Tally, f: nat, n: nat)
    requires
        valid(t, f),
        f < u32::MAX,
        b.models(t),
        item.models(fresh(f)),
    ensures
        updatable_times(b, item, n),
{
    assert forall|j: nat| j < n implies #[trigger] repeated(b, item, j).can_update(item) by {
        lemma_repeated(b, item, t, f, j);
    }
}

/// Extending the distinct lines of a stream by an operand's lines gives the
/// distinct lines of the longer stream.
pub proof fn lemma_extend_seen(ev: Seq<(nat, Seq<u8>)>, lines: Seq<Seq<u8>>, f: nat)
    ensures
        extend(seen(ev), lines) == seen(ev + tagged(lines, f)),
    decreases lines.len(),
{
    if lines.len() == 0 {
        assert(ev + tagged(lines, f) =~= ev);
    } else {
        lemma_extend_seen(ev, lines.drop_last(), f);
        let s = ev + tagged(lines, f);
        assert(s.drop_last() =~= ev + tagged(lines.drop_last(), f));
        assert(s.last() == (f, lines.last()));
    }
}

/// The facts about `extend` that reading one more line relies on.
proof fn lemma_extend_step(keys: Seq<Seq<u8>>, lines: Seq<Seq<u8>>, j: int)
    requires
        0 <= j < lines.len(),
    ensures
        extend(keys, lines.take(j + 1)) == (if extend(keys, lines.take(j)).contains(lines[j]) {
            extend(keys, lines.take(j))
        } else {
            extend(keys, lines.take(j)).push(lines[j])
        }),
        forall|x: Seq<u8>| #[trigger] count_in(lines.take(j + 1), x) == count_in(lines.take(j), x) + (if x == lines[j] {
            1nat
        } else {
            0nat
        }),
{
    assert(lines.take(j + 1).drop_last() =~= lines.take(j));
    assert(lines.take(j + 1).last() == lines[j]);
}

impl<'data, B: Bookkeeping> ZetSet<'data, B> {
    /// The set holds lines of the stream `ev`, read up to operand `cur`, each
    /// with a bookkeeping value consistent with its history in `ev`.
    pub open spec fn tracks(&self, ev: Seq<(nat, Seq<u8>)>, cur: nat) -> bool {
        &&& self.wf()
        &&& forall|i: int|
            #![trigger self.keys()[i]]
            #![trigger self.items()[i]]
            0 <= i < self.keys().len() ==> {
                &&& tally_of(ev, self.keys()[i]) is Some
                &&& valid(tally_of(ev, self.keys()[i]).unwrap(), cur)
                &&& self.items()[i].models(tally_of(ev, self.keys()[i]).unwrap())
            }
    }

    /// A set that tracks a stream up to one operand tracks it up to any later one.
    pub proof fn lemma_tracks_later(&self, ev: Seq<(nat, Seq<u8>)>, cur: nat, later: nat)
        requires
            self.tracks(ev, cur),
            cur <= later,
        ensures
            self.tracks(ev, later),
    {
    }

    /// A set that tracks a stream up to operand `f` can read any lines of
    /// operand `f` with the fresh value of `f`.
    pub proof fn lemma_tracked_absorbable(&self, ev: Seq<(nat, Seq<u8>)>, f: nat, item: B, lines: Seq<Seq<u8>>)
        requires
            self.tracks(ev, f),
            item.models(fresh(f)),
            f < u32::MAX,
        ensures
            absorbable(self.keys(), self.items(), item, lines),
    {
        assert forall|i: int| 0 <= i < self.keys().len() implies updatable_times(
            #[trigger] self.items()[i],
            item,
            count_in(lines, self.keys()[i]),
        ) by {
            lemma_updatable(self.items()[i], item, tally_of(ev, self.keys()[i]).unwrap(), f, count_in(lines, self.keys()[i]));
        }
        assert forall|k: Seq<u8>| !self.keys().contains(k) implies updatable_times(
            item,
            item,
            (count_in(lines, k) - 1) as nat,
        ) by {
            lemma_updatable(item, item, fresh(f), f, (count_in(lines, k) - 1) as nat);
        }
    }

    /// Create a new `ZetSet`, with each key a line borrowed from `slice`, and
    /// value `item` for every line newly seen. If a line is already present,
    /// with bookkeeping value `v`, update it by calling `v.update_with(item)`.
    /// So the keys are the distinct lines of `slice` (after its byte order
    /// mark, if any) in order of first appearance, and a line's value is
    /// `item` updated by `item` once for each time the line occurs after the
    /// first.
    pub fn new(slice: &'data [u8], item: B) -> (r: Self)
        requires
            forall|k: Seq<u8>|
                updatable_times(
                    item,
                    item,
                    (count_in(split_lines(without_bom(slice@)), k) - 1) as nat,
                ),
        ensures
            r.wf(),
            r.keys() == seen(tagged(split_lines(without_bom(slice@)), 0)),
            forall|i: int|
                0 <= i < r.keys().len() ==> #[trigger] r.items()[i] == repeated(
                    item,
                    item,
                    (count_in(split_lines(without_bom(slice@)), r.keys()[i]) - 1) as nat,
                ),
            item.models(fresh(0)) ==> r.tracks(tagged(split_lines(without_bom(slice@)), 0), 0),
            r.bom() == crate::lines::starts_with_bom(slice@),
            r.crlf() == crate::lines::first_line_ends_crlf(slice@),
    {
        let (bom, crlf) = output_info(slice);
        let body = if bom {
            slice_subrange(slice, 3, slice.len())
        } else {
            slice
        };
        assert(body@ =~= without_bom(slice@));
        let lines = lines_of(body);
        let mut set = ZetSet { lines: new_line_index(), items: Vec::new(), bom, crlf };
        let ghost all = split_lines(without_bom(slice@));
        let ghost empty = Seq::<(nat, Seq<u8>)>::empty();
        proof {
            lemma_seen_distinct(empty);
            assert(all.take(0) =~= Seq::<Seq<u8>>::empty());
            assert(empty + tagged(all.take(0), 0) =~= empty);
            assert forall|k: Seq<u8>| !Seq::<Seq<u8>>::empty().contains(k) implies updatable_times(
                item,
                item,
                (count_in(all, k) - 1) as nat,
            ) by {
            }
        }
        set.absorb_lines(lines, item, Ghost(all), Ghost(empty), Ghost(0));
        proof {
            lemma_extend_seen(empty, all, 0);
            assert(empty + tagged(all, 0) =~= tagged(all, 0));
        }
        set
    }

    /// Read the lines `lines` (whose views are `all`): insert each line not
    /// yet present, with value `item`; update the value `v` of a line present
    /// by `v.update_with(item)`.
    fn absorb_lines(
        &mut self,
        lines: Vec<&'data [u8]>,
        item: B,
        Ghost(all): Ghost<Seq<Seq<u8>>>,
        Ghost(ev): Ghost<Seq<(nat, Seq<u8>)>>,
        Ghost(f): Ghost<nat>,
    )
        requires
            line_views(lines@) == all,
            old(self).wf(),
            absorbable(old(self).keys(), old(self).items(), item, all),
        ensures
            final(self).wf(),
            absorbed(old(self).keys(), old(self).items(), item, all, final(self).keys(), final(self).items()),
            (old(self).tracks(ev, f) && old(self).keys() == seen(ev) && item.models(fresh(f)) && f < u32::MAX)
                ==> final(self).tracks(ev + tagged(all, f), f),
            final(self).bom() == old(self).bom(),
            final(self).crlf() == old(self).crlf(),
    {
        let ghost keys0 = self.keys();
        let ghost values0 = self.items();
        let ghost premise = self.tracks(ev, f) && self.keys() == seen(ev) && item.models(fresh(f)) && f
            < u32::MAX;
        proof {
            assert(all.take(0) =~= Seq::<Seq<u8>>::empty());
            assert(ev + tagged(all.take(0), f) =~= ev);
            assert forall|i: int| 0 <= i < self.keys().len() implies #[trigger] self.items()[i] == (if i
                < keys0.len() {
                repeated(values0[i], item, count_in(all.take(0), keys0[i]))
            } else {
                repeated(item, item, (count_in(all.take(0), self.keys()[i]) - 1) as nat)
            }) by {
            }
        }
        let mut j: usize = 0;
        while j < lines.len()
            invariant
                line_views(lines@) == all,
                j <= lines@.len(),
                keys0.no_duplicates(),
                absorbable(keys0, values0, item, all),
                self.wf(),
                absorbed(keys0, values0, item, all.take(j as int), self.keys(), self.items()),
                forall|i: int| 0 <= i < keys0.len() ==> #[trigger] self.keys()[i] == keys0[i],
                keys0.len() <= self.keys().len(),
                forall|i: int| keys0.len() <= i < self.keys().len() ==> count_in(all.take(j as int), #[trigger] self.keys()[i]) >= 1,
                forall|x: Seq<u8>| count_in(all.take(j as int), x) >= 1 ==> #[trigger] self.keys().contains(x),
                premise == (old(self).tracks(ev, f) && keys0 == seen(ev) && item.models(fresh(f)) && f < u32::MAX),
                premise ==> self.tracks(ev + tagged(all.take(j as int), f), f) && self.keys() == seen(
                    ev + tagged(all.take(j as int), f),
                ),
                self.bom() == old(self).bom(),
                self.crlf() == old(self).crlf(),
            decreases lines@.len() - j,
        {
            let line = lines[j];
            let ghost before = ev + tagged(all.take(j as int), f);
            let ghost keys = self.keys();
            let ghost values = self.items();
            assert(line@ == all[j as int]);
            proof {
                lemma_extend_step(keys0, all, j as int);
                lemma_count_take(all, j + 1, line@);
                assert(before.push((f, line@)).drop_last() =~= before);
                if keys.contains(line@) {
                    let p = choose|p: int| 0 <= p < keys.len() && keys[p] == line@;
                    let c = count_in(all.take(j as int), line@);
                    if p < keys0.len() {
                        assert(values[p] == repeated(values0[p], item, c));
                        assert(updatable_times(values0[p], item, count_in(all, keys0[p])));
                        assert(repeated(values0[p], item, c).can_update(item));
                    } else {
                        if keys0.contains(line@) {
                            let q = choose|q: int| 0 <= q < keys0.len() && keys0[q] == line@;
                            assert(keys[q] == line@);
                        }
                        assert(values[p] == repeated(item, item, (c - 1) as nat));
                        assert(updatable_times(item, item, (count_in(all, line@) - 1) as nat));
                        assert(repeated(item, item, (c - 1) as nat).can_update(item));
                    }
                    assert forall|i: int| 0 <= i < keys.len() && keys[i] == line@ implies values[i].can_update(item) by {
                        assert(keys.no_duplicates());
                    }
                }
            }
            self.absorb(Cow::Borrowed(line), item, Ghost(before), Ghost(f));
            proof {
                let c = count_in(all.take(j as int), line@);
                assert forall|i: int| 0 <= i < self.keys().len() implies #[trigger] self.items()[i] == (if i
                    < keys0.len() {
                    repeated(values0[i], item, count_in(all.take(j + 1), keys0[i]))
                } else {
                    repeated(item, item, (count_in(all.take(j + 1), self.keys()[i]) - 1) as nat)
                }) by {
                    if i < keys.len() {
                        if keys[i] == line@ {
                            if i >= keys0.len() {
                                assert(c >= 1);
                            }
                        }
                    } else {
                        assert(c == 0);
                    }
                }
                assert forall|x: Seq<u8>| count_in(all.take(j + 1), x) >= 1 implies #[trigger] self.keys().contains(
                    x,
                ) by {
                    if x == line@ {
                        if !keys.contains(x) {
                            assert(self.keys()[keys.len() as int] == x);
                        } else {
                            let q = choose|q: int| 0 <= q < keys.len() && keys[q] == x;
                            assert(self.keys()[q] == x);
                        }
                    } else {
                        assert(count_in(all.take(j as int), x) >= 1);
                        assert(keys.contains(x));
                        let q = choose|q: int| 0 <= q < keys.len() && keys[q] == x;
                        assert(self.keys()[q] == x);
                    }
                }
                if premise {
                    lemma_extend_seen(ev, all.take(j + 1), f);
                    assert(before.push((f, line@)) =~= ev + tagged(all.take(j + 1), f));
                }
            }
            j = j + 1;
        }
        assert(all.take(lines@.len() as int) =~= all);
    }

    /// Insert `key` if absent, with value `item`; otherwise update its value
    /// `v` by `v.update_with(item)`.
    fn absorb(&mut self, key: Cow<'data, [u8]>, item: B, Ghost(ev): Ghost<Seq<(nat, Seq<u8>)>>, Ghost(f): Ghost<nat>)
        requires
            old(self).wf(),
            forall|i: int|
                0 <= i < old(self).keys().len() && old(self).keys()[i] == key@ ==> #[trigger] old(
                    self,
                ).items()[i].can_update(item),
        ensures
            final(self).wf(),
            final(self).keys() == (if old(self).keys().contains(key@) {
                old(self).keys()
            } else {
                old(self).keys().push(key@)
            }),
            forall|i: int|
                0 <= i < final(self).keys().len() ==> #[trigger] final(self).items()[i] == (if i < old(
                    self,
                ).keys().len() {
                    if old(self).keys()[i] == key@ {
                        old(self).items()[i].updated(item)
                    } else {
                        old(self).items()[i]
                    }
                } else {
                    item
                }),
            (old(self).tracks(ev, f) && old(self).keys() == seen(ev) && item.models(fresh(f)) && f
                < u32::MAX) ==> final(self).tracks(ev.push((f, key@)), f),
            final(self).bom() == old(self).bom(),
            final(self).crlf() == old(self).crlf(),
    {
        let ghost line = key@;
        let ghost ev2 = ev.push((f, line));
        let ghost premise = self.tracks(ev, f) && self.keys() == seen(ev) && item.models(fresh(f)) && f
            < u32::MAX;
        assert(ev2.drop_last() =~= ev);
        proof {
            lemma_seen_tally(ev, line);
            lemma_seen_distinct(ev2);
        }
        let (i, inserted) = index_insert(&mut self.lines, key);
        if inserted {
            self.items.push(item);
            assert forall|k: int| 0 <= k < old(self).keys().len() implies old(self).keys()[k] != line by {
                assert(self.keys()[k] == old(self).keys()[k]);
            }
            proof {
                if premise {
                    assert forall|k: int| 0 <= k < self.keys().len() implies {
                        &&& tally_of(ev2, #[trigger] self.keys()[k]) is Some
                        &&& valid(tally_of(ev2, self.keys()[k]).unwrap(), f)
                        &&& self.items()[k].models(tally_of(ev2, self.keys()[k]).unwrap())
                    } by {
                        if k < old(self).keys().len() {
                            assert(self.keys()[k] == old(self).keys()[k]);
                            assert(self.items()[k] == old(self).items()[k]);
                        }
                    }
                }
            }
        } else {
            let mut b = self.items[i];
            assert(old(self).keys()[i as int] == line);
            b.update_with(item);
            self.items.set(i, b);
            assert forall|k: int| 0 <= k < self.keys().len() && k != i as int implies self.keys()[k] != line by {
                assert(old(self).keys().no_duplicates());
            }
            proof {
                if premise {
                    let t = tally_of(ev, line).unwrap();
                    old(self).items()[i as int].lemma_update(item, t, f);
                    assert forall|k: int| 0 <= k < self.keys().len() implies {
                        &&& tally_of(ev2, #[trigger] self.keys()[k]) is Some
                        &&& valid(tally_of(ev2, self.keys()[k]).unwrap(), f)
                        &&& self.items()[k].models(tally_of(ev2, self.keys()[k]).unwrap())
                    } by {
                    }
                }
            }
        }
    }

    /// For each line of `operand` (see `split_lines`), insert it as an owned
    /// line with bookkeeping value `item` if it is not already present; if it
    /// is, with value `v`, update `v` by `v.update_with(item)`. So the keys
    /// are the old keys followed by the operand's new lines in order of first
    /// appearance; an old key's value is updated once for each time the
    /// operand holds it; a new key's value is `item`, updated once for each
    /// time after the first.
    pub fn insert_or_update(
        &mut self,
        operand: &[u8],
        item: B,
        Ghost(ev): Ghost<Seq<(nat, Seq<u8>)>>,
        Ghost(f): Ghost<nat>,
    )
        requires
            old(self).wf(),
            absorbable(old(self).keys(), old(self).items(), item, split_lines(operand@)),
        ensures
            final(self).wf(),
            absorbed(
                old(self).keys(),
                old(self).items(),
                item,
                split_lines(operand@),
                final(self).keys(),
                final(self).items(),
            ),
            (old(self).tracks(ev, f) && old(self).keys() == seen(ev) && item.models(fresh(f)) && f
                < u32::MAX) ==> final(self).tracks(ev + tagged(split_lines(operand@), f), f)
                && final(self).keys() == seen(ev + tagged(split_lines(operand@), f)),
            final(self).bom() == old(self).bom(),
            final(self).crlf() == old(self).crlf(),
    {
        let lines = lines_of(operand);
        let ghost all = split_lines(operand@);
        let ghost keys0 = self.keys();
        let ghost values0 = self.items();
        let ghost premise = self.tracks(ev, f) && self.keys() == seen(ev) && item.models(fresh(f)) && f
            < u32::MAX;
        proof {
            assert(all.take(0) =~= Seq::<Seq<u8>>::empty());
            assert(ev + tagged(all.take(0), f) =~= ev);
        }
        let mut j: usize = 0;
        while j < lines.len()
            invariant
                line_views(lines@) == all,
                j <= lines@.len(),
                keys0.no_duplicates(),
                absorbable(keys0, values0, item, all),
                self.wf(),
                absorbed(keys0, values0, item, all.take(j as int), self.keys(), self.items()),
                forall|i: int| 0 <= i < keys0.len() ==> #[trigger] self.keys()[i] == keys0[i],
                keys0.len() <= self.keys().len(),
                forall|i: int| keys0.len() <= i < self.keys().len() ==> count_in(all.take(j as int), #[trigger] self.keys()[i]) >= 1,
                forall|x: Seq<u8>| count_in(all.take(j as int), x) >= 1 ==> #[trigger] self.keys().contains(x),
                premise == (old(self).tracks(ev, f) && keys0 == seen(ev) && item.models(fresh(f)) && f < u32::MAX),
                premise ==> self.tracks(ev + tagged(all.take(j as int), f), f) && self.keys() == seen(
                    ev + tagged(all.take(j as int), f),
                ),
                self.bom() == old(self).bom(),
                self.crlf() == old(self).crlf(),
            decreases lines@.len() - j,
        {
            let line = lines[j];
            let ghost before = ev + tagged(all.take(j as int), f);
            let ghost keys = self.keys();
            let ghost values = self.items();
            assert(line@ == all[j as int]);
            proof {
                lemma_extend_step(keys0, all, j as int);
                lemma_count_take(all, j + 1, line@);
                assert(before.push((f, line@)).drop_last() =~= before);
                if keys.contains(line@) {
                    let p = choose|p: int| 0 <= p < keys.len() && keys[p] == line@;
                    let c = count_in(all.take(j as int), line@);
                    if p < keys0.len() {
                        assert(values[p] == repeated(values0[p], item, c));
                        assert(updatable_times(values0[p], item, count_in(all, keys0[p])));
                        assert(repeated(values0[p], item, c).can_update(item));
                    } else {
                        if keys0.contains(line@) {
                            let q = choose|q: int| 0 <= q < keys0.len() && keys0[q] == line@;
                            assert(keys[q] == line@);
                        }
                        assert(values[p] == repeated(item, item, (c - 1) as nat));
                        assert(updatable_times(item, item, (count_in(all, line@) - 1) as nat));
                        assert(repeated(item, item, (c - 1) as nat).can_update(item));
                    }
                    assert forall|i: int| 0 <= i < keys.len() && keys[i] == line@ implies values[i].can_update(item) by {
                        assert(keys.no_duplicates());
                    }
                }
            }
            match index_of(&self.lines, line) {
                Some(_) => {
                    self.update_line_if_present(line, item, Ghost(before), Ghost(f));
                },
                None => {
                    let owned: Vec<u8> = slice_to_vec(line);
                    self.absorb(Cow::Owned(owned), item, Ghost(before), Ghost(f));
                },
            }
            proof {
                let c = count_in(all.take(j as int), line@);
                assert forall|i: int| 0 <= i < self.keys().len() implies #[trigger] self.items()[i] == (if i
                    < keys0.len() {
                    repeated(values0[i], item, count_in(all.take(j + 1), keys0[i]))
                } else {
                    repeated(item, item, (count_in(all.take(j + 1), self.keys()[i]) - 1) as nat)
                }) by {
                    if i < keys.len() {
                        if keys[i] == line@ {
                            if i >= keys0.len() {
                                assert(c >= 1);
                            }
                        }
                    } else {
                        assert(c == 0);
                    }
                }
                assert forall|x: Seq<u8>| count_in(all.take(j + 1), x) >= 1 implies #[trigger] self.keys().contains(
                    x,
                ) by {
                    if x == line@ {
                        if !keys.contains(x) {
                            assert(self.keys()[keys.len() as int] == x);
                        } else {
                            let q = choose|q: int| 0 <= q < keys.len() && keys[q] == x;
                            assert(self.keys()[q] == x);
                        }
                    } else {
                        assert(count_in(all.take(j as int), x) >= 1);
                        assert(keys.contains(x));
                        let q = choose|q: int| 0 <= q < keys.len() && keys[q] == x;
                        assert(self.keys()[q] == x);
                    }
                }
                if premise {
                    lemma_extend_seen(ev, all.take(j + 1), f);
                    assert(before.push((f, line@)) =~= ev + tagged(all.take(j + 1), f));
                }
            }
            j = j + 1;
        }
        assert(all.take(lines@.len() as int) =~= all);
    }

    /// Update the value `v` of a line equal to `line`, if there is one, by
    /// `v.update_with(item)`.
    fn update_line_if_present(
        &mut self,
        line: &[u8],
        item: B,
        Ghost(ev): Ghost<Seq<(nat, Seq<u8>)>>,
        Ghost(f): Ghost<nat>,
    )
        requires
            old(self).wf(),
            forall|i: int|
                0 <= i < old(self).keys().len() && old(self).keys()[i] == line@ ==> #[trigger] old(
                    self,
                ).items()[i].can_update(item),
        ensures
            final(self).wf(),
            final(self).keys() == old(self).keys(),
            forall|i: int|
                0 <= i < old(self).keys().len() ==> #[trigger] final(self).items()[i] == (if old(
                    self,
                ).keys()[i] == line@ {
                    old(self).items()[i].updated(item)
                } else {
                    old(self).items()[i]
                }),
            (old(self).tracks(ev, f) && item.models(fresh(f)) && f < u32::MAX) ==> final(self).tracks(
                ev.push((f, line@)),
                f,
            ),
            final(self).bom() == old(self).bom(),
            final(self).crlf() == old(self).crlf(),
    {
        let ghost ev2 = ev.push((f, line@));
        let ghost premise = self.tracks(ev, f) && item.models(fresh(f)) && f < u32::MAX;
        assert(ev2.drop_last() =~= ev);
        match index_of(&self.lines, line) {
            Some(i) => {
                let mut b = self.items[i];
                b.update_with(item);
                self.items.set(i, b);
                assert forall|k: int| 0 <= k < self.keys().len() && k != i as int implies self.keys()[k]
                    != line@ by {
                    assert(old(self).keys().no_duplicates());
                }
                proof {
                    if premise {
                        let t = tally_of(ev, line@).unwrap();
                        old(self).items()[i as int].lemma_update(item, t, f);
                        assert forall|k: int| 0 <= k < self.keys().len() implies {
                            &&& tally_of(ev2, #[trigger] self.keys()[k]) is Some
                            &&& valid(tally_of(ev2, self.keys()[k]).unwrap(), f)
                            &&& self.items()[k].models(tally_of(ev2, self.keys()[k]).unwrap())
                        } by {
                        }
                    }
                }
            },
            None => {
                proof {
                    if premise {
                        assert forall|k: int| 0 <= k < self.keys().len() implies {
                            &&& tally_of(ev2, #[trigger] self.keys()[k]) is Some
                            &&& valid(tally_of(ev2, self.keys()[k]).unwrap(), f)
                            &&& self.items()[k].models(tally_of(ev2, self.keys()[k]).unwrap())
                        } by {
                            assert(self.keys()[k] != line@);
                        }
                    }
                }
            },
        }
    }

    /// Keep exactly those lines whose bookkeeping value's `retention_value()`
    /// satisfies `keep` (described by `pred`), in their order, with their
    /// values.
    pub fn retain<F: Fn(u32) -> bool>(
        &mut self,
        keep: F,
        Ghost(pred): Ghost<spec_fn(u32) -> bool>,
        Ghost(ev): Ghost<Seq<(nat, Seq<u8>)>>,
        Ghost(f): Ghost<nat>,
    )
        requires
            old(self).wf(),
            forall|v: u32| keep.requires((v,)),
            forall|v: u32, b: bool| keep.ensures((v,), b) ==> b == pred(v),
        ensures
            final(self).wf(),
            final(self).keys() == masked(old(self).keys(), retained_mask(old(self).items(), pred)),
            final(self).items() == masked(old(self).items(), retained_mask(old(self).items(), pred)),
            old(self).tracks(ev, f) ==> final(self).tracks(ev, f) && final(self).keys() == select(
                old(self).keys(),
                |k: Seq<u8>| pred(B::retention(tally_of(ev, k).unwrap())),
            ),
            final(self).bom() == old(self).bom(),
            final(self).crlf() == old(self).crlf(),
    {
        let ghost keys = self.keys();
        let ghost items = self.items();
        let n = self.len();
        let mut mask: Vec<bool> = Vec::new();
        let mut i: usize = 0;
        while i < n
            invariant
                self.wf(),
                n == self.keys().len(),
                keys == self.keys(),
                items == self.items(),
                i <= n,
                mask@.len() == i,
                forall|v: u32| keep.requires((v,)),
                forall|v: u32, b: bool| keep.ensures((v,), b) ==> b == pred(v),
                forall|k: int| 0 <= k < i ==> mask@[k] == pred(#[trigger] items[k].retained()),
            decreases n - i,
        {
            let v = self.items[i];
            assert(v == items[i as int]);
            let r = v.retention_value();
            mask.push(keep(r));
            i = i + 1;
        }
        assert(mask@ =~= retained_mask(items, pred));
        let ghost before = *self;
        let origin = self.retain_masked(&mask);
        proof {
            if before.tracks(ev, f) {
                let p = |k: Seq<u8>| pred(B::retention(tally_of(ev, k).unwrap()));
                assert forall|k: int| 0 <= k < keys.len() implies mask@[k] == p(#[trigger] keys[k]) by {
                    assert(items[k].models(tally_of(ev, keys[k]).unwrap()));
                    items[k].lemma_retained(tally_of(ev, keys[k]).unwrap());
                }
                lemma_masked_select(keys, mask@, p);
                assert forall|m: int| 0 <= m < self.keys().len() implies {
                    &&& tally_of(ev, #[trigger] self.keys()[m]) is Some
                    &&& valid(tally_of(ev, self.keys()[m]).unwrap(), f)
                    &&& self.items()[m].models(tally_of(ev, self.keys()[m]).unwrap())
                } by {
                    let j = origin@[m];
                    assert(before.keys()[j] == keys[j]);
                }
            }
        }
    }

    /// For each line of `operand` that is already present with bookkeeping
    /// value `v`, update `v` by `v.update_with(item)`; other lines are
    /// ignored. So the keys stay as they are, and each one's value is updated
    /// once for each time the operand holds it.
    pub fn update_if_present(
        &mut self,
        operand: &[u8],
        item: B,
        Ghost(ev): Ghost<Seq<(nat, Seq<u8>)>>,
        Ghost(f): Ghost<nat>,
    )
        requires
            old(self).wf(),
            forall|i: int|
                0 <= i < old(self).keys().len() ==> updatable_times(
                    #[trigger] old(self).items()[i],
                    item,
                    count_in(split_lines(operand@), old(self).keys()[i]),
                ),
        ensures
            final(self).wf(),
            final(self).keys() == old(self).keys(),
            final(self).items().len() == old(self).items().len(),
            forall|i: int|
                0 <= i < old(self).keys().len() ==> #[trigger] final(self).items()[i] == repeated(
                    old(self).items()[i],
                    item,
                    count_in(split_lines(operand@), old(self).keys()[i]),
                ),
            (old(self).tracks(ev, f) && item.models(fresh(f)) && f < u32::MAX) ==> final(self).tracks(
                ev + tagged(split_lines(operand@), f),
                f,
            ),
            final(self).bom() == old(self).bom(),
            final(self).crlf() == old(self).crlf(),
    {
        let lines = lines_of(operand);
        let ghost all = split_lines(operand@);
        let ghost keys0 = self.keys();
        let ghost values0 = self.items();
        let ghost premise = self.tracks(ev, f) && item.models(fresh(f)) && f < u32::MAX;
        assert(ev + tagged(all.take(0), f) =~= ev);
        assert(all.take(0) =~= Seq::<Seq<u8>>::empty());
        let mut j: usize = 0;
        while j < lines.len()
            invariant
                line_views(lines@) == all,
                j <= lines@.len(),
                self.wf(),
                self.keys() == keys0,
                self.items().len() == values0.len(),
                keys0.len() == values0.len(),
                forall|i: int|
                    0 <= i < keys0.len() ==> updatable_times(#[trigger] values0[i], item, count_in(all, keys0[i])),
                forall|i: int|
                    0 <= i < keys0.len() ==> #[trigger] self.items()[i] == repeated(
                        values0[i],
                        item,
                        count_in(all.take(j as int), keys0[i]),
                    ),
                premise == (old(self).tracks(ev, f) && item.models(fresh(f)) && f < u32::MAX),
                premise ==> self.tracks(ev + tagged(all.take(j as int), f), f),
                self.bom() == old(self).bom(),
                self.crlf() == old(self).crlf(),
            decreases lines@.len() - j,
        {
            let line = lines[j];
            let ghost before = ev + tagged(all.take(j as int), f);
            assert(line@ == all[j as int]);
            proof {
                lemma_extend_step(keys0, all, j as int);
                lemma_count_take(all, j + 1, line@);
                assert forall|i: int| 0 <= i < keys0.len() && keys0[i] == line@ implies #[trigger] self.items()[i].can_update(item) by {
                    assert(updatable_times(values0[i], item, count_in(all, keys0[i])));
                    assert(repeated(values0[i], item, count_in(all.take(j as int), keys0[i])).can_update(item));
                }
            }
            self.update_line_if_present(line, item, Ghost(before), Ghost(f));
            j = j + 1;
            assert(before.push((f, line@)) =~= ev + tagged(all.take(j as int), f));
        }
        assert(all.take(lines@.len() as int) =~= all);
    }
}

} // verus!
