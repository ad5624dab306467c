//! Houses the `calculate` function, and the bookkeeping values that the set
//! operations keep with each line.
use crate::args::OpName;
use crate::lines::{first_line_ends_crlf, split_lines, starts_with_bom, without_bom};
use crate::model::{
    count_in, lemma_events_take, lemma_select_all, events, fresh, lemma_select_congruent, operand_lines, seen, select, step, tagged, tallies_of,
    tally_of, valid, Tally,
};
use crate::operands::{decode_later_operands, later_texts};
use crate::outside::discard;
use crate::render::{
    annotated_output, annotated_text, bom_prefix, count_text, decimal, decimal_width, lines_text,
    max_count, plain_output, push_bom, push_bytes, push_count, push_terminator,
};
use crate::set::{lemma_updatable, updatable_times, ZetSet};
use vstd::prelude::*;

verus! {

/// What count, if any, to report with each output line.
#[derive(Clone, Copy, Debug, PartialEq, Eq, Structural)]
pub enum LogType {
    /// The number of times the line occurs in the input
    Lines,
    /// The number of operands the line occurs in
    Files,
    /// No count (`None` in the command line's terms)
    NoCount,
}

/// Why a calculation was refused.
#[derive(Clone, Copy, Debug, PartialEq, Eq, Structural)]
pub enum ZetError {
    /// More than `u32::MAX` operands were given.
    TooManyOperands,
}

/// The contents of the later operands.
pub open spec fn views(rest: Seq<Vec<u8>>) -> Seq<Seq<u8>> {
    rest.map_values(|v: Vec<u8>| v@)
}

/// The stream of lines of all operands.
pub open spec fn all_events(first: Seq<u8>, rest: Seq<Seq<u8>>) -> Seq<(nat, Seq<u8>)> {
    events(operand_lines(first, rest))
}

/// The lines of the first operand, as a stream.
pub open spec fn first_events(first: Seq<u8>) -> Seq<(nat, Seq<u8>)> {
    tagged(split_lines(without_bom(first)), 0)
}

/// Every line of `keys` has a history in `ev`, valid up to operand `cur`.
pub open spec fn all_valid(keys: Seq<Seq<u8>>, ev: Seq<(nat, Seq<u8>)>, cur: nat) -> bool {
    forall|i: int|
        #![trigger keys[i]]
        0 <= i < keys.len() ==> tally_of(ev, keys[i]) is Some && valid(
            tally_of(ev, keys[i]).unwrap(),
            cur,
        )
}

/// The lines of `keys` whose history in `ev` satisfies `sel`.
pub open spec fn sifted(keys: Seq<Seq<u8>>, ev: Seq<(nat, Seq<u8>)>, sel: spec_fn(Tally) -> bool) -> Seq<Seq<u8>> {
    select(keys, |k: Seq<u8>| sel(tally_of(ev, k).unwrap()))
}

/// Whether operation `op`, on `n` operands, outputs a line with history `t`:
/// * `Union`: every line
/// * `Intersect`: lines in all operands
/// * `Diff`: lines of the first operand found in no other
/// * `Single`: lines occurring once in the entire input
/// * `Multiple`: lines occurring more than once
/// * `SingleByFile`: lines in exactly one operand
/// * `MultipleByFile`: lines in more than one operand
pub open spec fn selects(op: OpName, n: nat, t: Tally) -> bool {
    match op {
        OpName::Union => true,
        OpName::Intersect => t.files == n,
        OpName::Diff => t.files == 1,
        OpName::Single => t.lines == 1,
        OpName::Multiple => t.lines > 1,
        OpName::SingleByFile => t.files == 1,
        OpName::MultipleByFile => t.files > 1,
    }
}

/// `Diff` and `Intersect` only ever output lines of the first operand.
pub open spec fn subtractive(op: OpName) -> bool {
    op == OpName::Diff || op == OpName::Intersect
}

/// The count reported for `op` when `log_type` is asked for. `Single` with
/// `--count-files` reports the line count: a line occurring once occurs in one file.
pub open spec fn reported(op: OpName, log_type: LogType) -> LogType {
    if log_type == LogType::Files && op == OpName::Single {
        LogType::Lines
    } else {
        log_type
    }
}

/// The counts reported for lines of histories `tallies`: occurrences (capped at
/// `u32::MAX`) or operands.
pub open spec fn reported_counts(count: LogType, tallies: Seq<Tally>) -> Seq<u32> {
    if count == LogType::Lines {
        tallies.map_values(|t: Tally| capped(t.lines))
    } else {
        tallies.map_values(|t: Tally| t.files as u32)
    }
}

/// The output for lines `keys` with histories `tallies`, reporting `count`.
pub open spec fn output_for(
    count: LogType,
    bom: bool,
    crlf: bool,
    keys: Seq<Seq<u8>>,
    tallies: Seq<Tally>,
) -> Seq<u8> {
    if count == LogType::NoCount {
        plain_output(bom, crlf, keys)
    } else {
        annotated_output(bom, crlf, keys, reported_counts(count, tallies), count == LogType::Lines)
    }
}

/// The lines that `op` outputs, in the order of their first appearance in the
/// input.
pub open spec fn zet_lines(op: OpName, first: Seq<u8>, rest: Seq<Seq<u8>>) -> Seq<Seq<u8>> {
    let ev = all_events(first, rest);
    let candidates = if subtractive(op) {
        seen(first_events(first))
    } else {
        seen(ev)
    };
    sifted(candidates, ev, selection(op, rest.len() + 1))
}

/// `selects(op, n, _)` as a predicate.
pub open spec fn selection(op: OpName, n: nat) -> spec_fn(Tally) -> bool {
    |t: Tally| selects(op, n, t)
}

/// What `calculate` outputs for operation `op`, reporting `log_type`, on the
/// first operand `first` and later operands `rest`. The output starts with a
/// byte order mark if `first` does, and terminates lines as the first line of
/// `first` is terminated.
pub open spec fn zet_output(op: OpName, log_type: LogType, first: Seq<u8>, rest: Seq<Seq<u8>>) -> Seq<u8> {
    let keys = zet_lines(op, first, rest);
    output_for(
        reported(op, log_type),
        starts_with_bom(first),
        first_line_ends_crlf(first),
        keys,
        tallies_of(keys, all_events(first, rest)),
    )
}

/// `n`, or `u32::MAX` if it is larger.
pub open spec fn capped(n: nat) -> u32 {
    if n >= u32::MAX {
        u32::MAX
    } else {
        n as u32
    }
}

/// The bookkeeping value kept with each line of a `ZetSet`.
///
/// There are five `Bookkeeping` types. The `Unsifted`, `Lines`, and `Files`
/// types are used for "sifting" — after all files have been processed, we look
/// at the bookkeeping values to sift out unwanted lines before printing. The
/// `Union` operation outputs every line, so uses an `Unsifted` bookkeeping type
/// with a zero-size value and no-op methods. The `Single` and `Multiple`
/// operations use the `Lines` type to sift by the number of times a line has
/// been seen, while the `Diff`, `Intersect`, `SingleByFile`, and
/// `MultipleByFile` operations use the `Files` type to sift by the number of
/// files in which a line has been seen. `Log<B>` acts like `B` but its output
/// reports `B`'s count with each line; `SiftLog<S, L>` sifts by `S` and reports
/// the count of `L`.
pub trait Bookkeeping: Copy + Sized {
    /// `self` is consistent with the history `t` of its line.
    spec fn models(self, t: Tally) -> bool;

    /// What `retention_value` gives for a line with history `t`.
    spec fn retention(t: Tally) -> u32;

    /// What `output_zet_set` writes for a set with lines `keys` of histories `tallies`.
    spec fn rendering(bom: bool, crlf: bool, keys: Seq<Seq<u8>>, tallies: Seq<Tally>) -> Seq<u8>;

    /// The initial bookkeeping value for each line in the first operand.
    fn new() -> (r: Self)
        ensures
            r.models(fresh(0)),
    ;

    /// Move a fresh value on to the next operand.
    fn next_file(&mut self)
        ensures
            forall|f: nat|
                f + 1 < u32::MAX && #[trigger] old(self).models(fresh(f)) ==> final(self).models(
                    fresh(f + 1),
                ),
    ;

    /// What `update_with(other)` makes of `self`.
    spec fn updated(self, other: Self) -> Self;

    /// `update_with(other)` does not overflow.
    spec fn can_update(self, other: Self) -> bool;

    /// What `retention_value` gives.
    spec fn retained(self) -> u32;

    /// A value consistent with the history `t` of a line, updated by the fresh
    /// value of operand `f`, can be updated, and is then consistent with the
    /// line seen again in `f`.
    proof fn lemma_update(self, other: Self, t: Tally, f: nat)
        requires
            valid(t, f),
            f < u32::MAX,
            self.models(t),
            other.models(fresh(f)),
        ensures
            self.can_update(other),
            self.updated(other).models(step(t, f)),
    ;

    /// A value consistent with the history `t` retains as `t` says.
    proof fn lemma_retained(self, t: Tally)
        requires
            self.models(t),
        ensures
            self.retained() == Self::retention(t),
    ;

    /// Here `other` is the value that would have been inserted for a
    /// newly-encountered line. Used to update the bookkeeping values of lines
    /// already present in the `ZetSet`.
    fn update_with(&mut self, other: Self)
        requires
            old(self).can_update(other),
        ensures
            *final(self) == old(self).updated(other),
    ;

    /// The value that decides whether a line is retained.
    fn retention_value(self) -> (r: u32)
        ensures
            r == self.retained(),
    ;

    /// The output for the set: its lines, with counts for the types that
    /// report them. It is `rendering` of the histories that the set's values
    /// are consistent with.
    fn output_zet_set(set: &ZetSet<Self>) -> (out: Vec<u8>)
        requires
            set.wf(),
        ensures
            forall|tallies: Seq<Tally>|
                tallies.len() == set.keys().len() && (forall|i: int|
                    0 <= i < tallies.len() ==> set.items()[i].models(#[trigger] tallies[i]))
                    ==> out@ == #[trigger] Self::rendering(set.bom(), set.crlf(), set.keys(), tallies),
    ;
}

/// A `Bookkeeping` type that can report a count with each line.
pub trait Loggable: Bookkeeping {
    /// The count reported for a line with history `t`.
    spec fn log_of(t: Tally) -> u32;

    /// `u32::MAX` is reported as ` overflow  ` (a count that may have saturated).
    spec fn marks_overflow() -> bool;

    /// The count that `self` reports.
    spec fn log_spec(self) -> u32;

    /// A value consistent with history `t` reports `t`'s count.
    proof fn lemma_log_of(self, t: Tally)
        requires
            self.models(t),
        ensures
            self.log_spec() == Self::log_of(t),
    ;

    /// The line/file count to be used for logging purposes
    fn log_value(self) -> (r: u32)
        ensures
            r == self.log_spec(),
    ;

    /// Write the count to the output. Called before outputting the line itself.
    fn write_log(&self, width: usize, out: &mut Vec<u8>)
        ensures
            final(out)@ == old(out)@ + count_text(self.log_spec(), width as nat, Self::marks_overflow()),
    ;
}

/// The counts reported for lines of histories `tallies`.
pub open spec fn logged<B: Loggable>(tallies: Seq<Tally>) -> Seq<u32> {
    tallies.map_values(|t: Tally| B::log_of(t))
}

/// The counts that `logs` report.
pub open spec fn log_specs<L: Loggable>(logs: Seq<L>) -> Seq<u32> {
    logs.map_values(|l: L| l.log_spec())
}

/// The lines of the set, each followed by the terminator, after the byte
/// order mark if there is one.
pub(crate) fn output_plain<B: Copy>(set: &ZetSet<B>) -> (out: Vec<u8>)
    requires
        set.wf(),
    ensures
        out@ == plain_output(set.bom(), set.crlf(), set.keys()),
{
    let mut out: Vec<u8> = Vec::new();
    push_bom(&mut out, set.writes_bom());
    let crlf = set.uses_crlf();
    let n = set.len();
    let mut i: usize = 0;
    assert(set.keys().take(0) =~= Seq::<Seq<u8>>::empty());
    while i < n
        invariant
            set.wf(),
            n == set.keys().len(),
            i <= n,
            crlf == set.crlf(),
            out@ == bom_prefix(set.bom()) + lines_text(set.keys().take(i as int), crlf),
        decreases n - i,
    {
        push_bytes(&mut out, set.line(i));
        push_terminator(&mut out, crlf);
        assert(set.keys().take(i + 1).drop_last() =~= set.keys().take(i as int));
        i = i + 1;
        assert(out@ =~= bom_prefix(set.bom()) + lines_text(set.keys().take(i as int), crlf));
    }
    assert(set.keys().take(n as int) =~= set.keys());
    out
}

/// The lines of the set, each preceded by its count, padded to the width of
/// the largest count, after the byte order mark if there is one.
///
/// `logs[i]` is the value that reports the count of the `i`th line.
fn output_zet_set_annotated<B: Copy, L: Loggable>(set: &ZetSet<B>, logs: &Vec<L>) -> (out: Vec<u8>)
    requires
        set.wf(),
        logs@.len() == set.keys().len(),
    ensures
        out@ == annotated_output(
            set.bom(),
            set.crlf(),
            set.keys(),
            log_specs(logs@),
            L::marks_overflow(),
        ),
{
    let ghost counts = log_specs(logs@);
    let n = set.len();
    let mut max_value: u32 = 0;
    let mut i: usize = 0;
    assert(counts.take(0) =~= Seq::<u32>::empty());
    while i < n
        invariant
            set.wf(),
            n == set.keys().len(),
            i <= n,
            logs@.len() == n,
            counts == log_specs(logs@),
            max_value == max_count(counts.take(i as int)),
        decreases n - i,
    {
        let v = logs[i].log_value();
        assert(counts.take(i + 1).drop_last() =~= counts.take(i as int));
        if v > max_value {
            max_value = v;
        }
        i = i + 1;
    }
    assert(counts.take(n as int) =~= counts);
    let width = decimal_width(max_value);
    let mut out: Vec<u8> = Vec::new();
    push_bom(&mut out, set.writes_bom());
    let crlf = set.uses_crlf();
    let mut i: usize = 0;
    assert(set.keys().take(0) =~= Seq::<Seq<u8>>::empty());
    while i < n
        invariant
            set.wf(),
            n == set.keys().len(),
            i <= n,
            logs@.len() == n,
            counts == log_specs(logs@),
            crlf == set.crlf(),
            width == decimal(max_count(counts) as nat).len(),
            out@ == bom_prefix(set.bom()) + annotated_text(
                set.keys().take(i as int),
                counts,
                width as nat,
                L::marks_overflow(),
                crlf,
            ),
        decreases n - i,
    {
        logs[i].write_log(width, &mut out);
        push_bytes(&mut out, set.line(i));
        push_terminator(&mut out, crlf);
        assert(set.keys().take(i + 1).drop_last() =~= set.keys().take(i as int));
        i = i + 1;
        assert(out@ =~= bom_prefix(set.bom()) + annotated_text(
            set.keys().take(i as int),
            counts,
            width as nat,
            L::marks_overflow(),
            crlf,
        ));
    }
    assert(set.keys().take(n as int) =~= set.keys());
    out
}

/// We use the `Unsifted` struct for the `Union` operation when logging isn't needed.
/// `Union` includes every line seen and doesn't need bookkeeping for anything
/// but such logging.
#[derive(Clone, Copy)]
pub struct Unsifted();

impl Bookkeeping for Unsifted {
    open spec fn models(self, t: Tally) -> bool {
        true
    }

    open spec fn retention(t: Tally) -> u32 {
        0
    }

    open spec fn rendering(bom: bool, crlf: bool, keys: Seq<Seq<u8>>, tallies: Seq<Tally>) -> Seq<u8> {
        plain_output(bom, crlf, keys)
    }

    fn new() -> (r: Self) {
        Unsifted()
    }

    fn next_file(&mut self) {
    }

    open spec fn updated(self, other: Self) -> Self {
        self
    }

    open spec fn can_update(self, other: Self) -> bool {
        true
    }

    open spec fn retained(self) -> u32 {
        0
    }

    proof fn lemma_update(self, other: Self, t: Tally, f: nat) {
    }

    proof fn lemma_retained(self, t: Tally) {
    }

    fn update_with(&mut self, other: Self) {
    }

    fn retention_value(self) -> (r: u32) {
        0
    }

    fn output_zet_set(set: &ZetSet<Self>) -> (out: Vec<u8>) {
        output_plain(set)
    }
}

/// For `Single` and `Multiple` each line's `Lines` item will keep track of
/// how many times it has appeared in the entire input. `Lines` can also be
/// used for reporting the number of times each line appears in the input.
///
/// `Lines` is a thin wrapper around `u32`. It ignores `next_file`, and uses
/// `update_with` only to increment its `u32` element. We use a saturating
/// increment: `Single` and `Multiple` care only whether the count is `1` or
/// greater than `1`, and for reporting it is better to report overflow for
/// lines that appear `u32::MAX` times or more than to stop completely.
#[derive(Clone, Copy)]
pub struct Lines(pub u32);

impl Bookkeeping for Lines {
    open spec fn models(self, t: Tally) -> bool {
        self.0 == capped(t.lines)
    }

    open spec fn retention(t: Tally) -> u32 {
        capped(t.lines)
    }

    open spec fn rendering(bom: bool, crlf: bool, keys: Seq<Seq<u8>>, tallies: Seq<Tally>) -> Seq<u8> {
        plain_output(bom, crlf, keys)
    }

    /// Returns `Lines(1)` because when we insert a fresh line into the `ZetSet`
    /// we've seen it once.
    fn new() -> (r: Self) {
        Lines(1)
    }

    /// `next_file` does nothing because `Lines` isn't affected by the number of
    /// files we've seen.
    fn next_file(&mut self) {
    }

    open spec fn updated(self, other: Self) -> Self {
        Lines(if self.0 < u32::MAX {
            (self.0 + 1) as u32
        } else {
            self.0
        })
    }

    open spec fn can_update(self, other: Self) -> bool {
        true
    }

    open spec fn retained(self) -> u32 {
        self.0
    }

    proof fn lemma_update(self, other: Self, t: Tally, f: nat) {
    }

    proof fn lemma_retained(self, t: Tally) {
    }

    /// When `update_with` is called, it means we've seen the line an additional
    /// time. We ignore `_other` and just increment our line count (with
    /// `saturating_add(1)` so we don't wrap around).
    fn update_with(&mut self, _other: Self) {
        self.0 = self.0.saturating_add(1);
    }

    /// Our `retention_value` is just the `u32` element.
    fn retention_value(self) -> (r: u32) {
        self.0
    }

    fn output_zet_set(set: &ZetSet<Self>) -> (out: Vec<u8>) {
        output_plain(set)
    }
}

impl Loggable for Lines {
    open spec fn log_of(t: Tally) -> u32 {
        capped(t.lines)
    }

    open spec fn marks_overflow() -> bool {
        true
    }

    open spec fn log_spec(self) -> u32 {
        self.0
    }

    proof fn lemma_log_of(self, t: Tally) {
    }

    /// Our `log_value` is the same as our `retention_value`: the underlying
    /// `u32` element.
    fn log_value(self) -> (r: u32) {
        self.retention_value()
    }

    /// Write our `log_value`. But if that is `u32::MAX`, write `" overflow  "`
    /// instead, since we might actually have seen more than `u32::MAX` lines.
    fn write_log(&self, width: usize, out: &mut Vec<u8>) {
        push_count(out, self.0, width, true);
    }
}

/// For `Diff`, `Intersect`, `SingleByFile`, and `MultipleByFile`, each line's
/// `Files` item will keep track of how many files the line has appeared in.
/// `Files` can also be used to report the file count information for operatons
/// whose selection criteria are different from number of files.
///
/// The `Files` struct has `file_number` and `files_seen` fields.
#[derive(Clone, Copy)]
pub struct Files {
    pub file_number: u32,
    pub files_seen: u32,
}

impl Bookkeeping for Files {
    open spec fn models(self, t: Tally) -> bool {
        self.file_number == t.last && self.files_seen == t.files
    }

    open spec fn retention(t: Tally) -> u32 {
        t.files as u32
    }

    open spec fn rendering(bom: bool, crlf: bool, keys: Seq<Seq<u8>>, tallies: Seq<Tally>) -> Seq<u8> {
        plain_output(bom, crlf, keys)
    }

    /// Returns `Files { file_number: 0, files_seen: 1 }` — `file_number` acts
    /// as an ID number, different for each operand, while `files_seen` counts
    /// the number of files this line has been seen to occur in.
    fn new() -> (r: Self) {
        Files { file_number: 0, files_seen: 1 }
    }

    /// Increment the `file_number` field — with `wrapping_add(1)` because
    /// `calculate` refuses more than `u32::MAX` operands.
    fn next_file(&mut self) {
        self.file_number = self.file_number.wrapping_add(1);
    }

    open spec fn updated(self, other: Self) -> Self {
        if other.file_number != self.file_number {
            Files { file_number: other.file_number, files_seen: (self.files_seen + 1) as u32 }
        } else {
            self
        }
    }

    open spec fn can_update(self, other: Self) -> bool {
        other.file_number != self.file_number ==> self.files_seen < u32::MAX
    }

    open spec fn retained(self) -> u32 {
        self.files_seen
    }

    proof fn lemma_update(self, other: Self, t: Tally, f: nat) {
    }

    proof fn lemma_retained(self, t: Tally) {
    }

    /// If a line is already present in the `ZetSet`, with bookkeeping value
    /// `b`, and `other.file_number` is different from `b.file_number`, we
    /// update `b.file_number` and increment `b.files_seen`.
    fn update_with(&mut self, other: Self) {
        if other.file_number != self.file_number {
            self.files_seen = self.files_seen + 1;
            self.file_number = other.file_number;
        }
    }

    /// Our `retention_value` is the `files_seen` field.
    fn retention_value(self) -> (r: u32) {
        self.files_seen
    }

    fn output_zet_set(set: &ZetSet<Self>) -> (out: Vec<u8>) {
        output_plain(set)
    }
}

impl Loggable for Files {
    open spec fn log_of(t: Tally) -> u32 {
        t.files as u32
    }

    open spec fn marks_overflow() -> bool {
        false
    }

    open spec fn log_spec(self) -> u32 {
        self.files_seen
    }

    proof fn lemma_log_of(self, t: Tally) {
    }

    /// Our `log_value` is the same as our `retention_value` — `files_seen`.
    fn log_value(self) -> (r: u32) {
        self.retention_value()
    }

    /// We write `files_seen`.
    fn write_log(&self, width: usize, out: &mut Vec<u8>) {
        push_count(out, self.files_seen, width, false);
    }
}

/// The `Log` newtype delegates everything except `output_zet_set` to its
/// sole element, and overrides `output_zet_set` to call
/// `output_zet_set_annotated`.
#[derive(Clone, Copy)]
pub struct Log<B: Loggable>(pub B);

impl<B: Loggable> Bookkeeping for Log<B> {
    open spec fn models(self, t: Tally) -> bool {
        self.0.models(t)
    }

    open spec fn retention(t: Tally) -> u32 {
        B::retention(t)
    }

    open spec fn rendering(bom: bool, crlf: bool, keys: Seq<Seq<u8>>, tallies: Seq<Tally>) -> Seq<u8> {
        annotated_output(bom, crlf, keys, logged::<B>(tallies), B::marks_overflow())
    }

    fn new() -> (r: Self) {
        Log(B::new())
    }

    fn next_file(&mut self) {
        self.0.next_file()
    }

    open spec fn updated(self, other: Self) -> Self {
        Log(self.0.updated(other.0))
    }

    open spec fn can_update(self, other: Self) -> bool {
        self.0.can_update(other.0)
    }

    open spec fn retained(self) -> u32 {
        self.0.retained()
    }

    proof fn lemma_update(self, other: Self, t: Tally, f: nat) {
        self.0.lemma_update(other.0, t, f);
    }

    proof fn lemma_retained(self, t: Tally) {
        self.0.lemma_retained(t);
    }

    fn update_with(&mut self, other: Self) {
        self.0.update_with(other.0)
    }

    fn retention_value(self) -> (r: u32) {
        self.0.retention_value()
    }

    fn output_zet_set(set: &ZetSet<Self>) -> (out: Vec<u8>) {
        let n = set.len();
        let mut logs: Vec<B> = Vec::new();
        let mut i: usize = 0;
        while i < n
            invariant
                set.wf(),
                n == set.keys().len(),
                i <= n,
                logs@.len() == i,
                forall|k: int| 0 <= k < i ==> #[trigger] logs@[k] == set.items()[k].0,
            decreases n - i,
        {
            logs.push(set.item(i).0);
            i = i + 1;
        }
        let out = output_zet_set_annotated(set, &logs);
        assert forall|tallies: Seq<Tally>|
            tallies.len() == set.keys().len() && (forall|i: int|
                0 <= i < tallies.len() ==> set.items()[i].models(#[trigger] tallies[i])) implies out@
            == #[trigger] Self::rendering(set.bom(), set.crlf(), set.keys(), tallies) by {
            assert forall|i: int| 0 <= i < tallies.len() implies #[trigger] logged::<B>(tallies)[i]
                == log_specs(logs@)[i] by {
                assert(set.items()[i].models(tallies[i]));
                logs@[i].lemma_log_of(tallies[i]);
            }
            assert(logged::<B>(tallies) =~= log_specs(logs@));
        }
        out
    }
}

impl<B: Loggable> Loggable for Log<B> {
    open spec fn log_of(t: Tally) -> u32 {
        B::log_of(t)
    }

    open spec fn marks_overflow() -> bool {
        B::marks_overflow()
    }

    open spec fn log_spec(self) -> u32 {
        self.0.log_spec()
    }

    proof fn lemma_log_of(self, t: Tally) {
        self.0.lemma_log_of(t);
    }

    fn log_value(self) -> (r: u32) {
        self.0.log_value()
    }

    fn write_log(&self, width: usize, out: &mut Vec<u8>) {
        self.0.write_log(width, out)
    }
}

/// A `SiftLog<Sifted, Logged>` struct tracks a `Bookkeeping` item of type
/// `Sifted` and a `Loggable` item of type `Logged`. The latter will be used to
/// print a count for each line, either the number of times the line appeared in
/// the input, or the number of files it appeared in. We use the
/// `retention_value` of `Sifted` and the `log_value` and `write_log` methods of
/// `Logged`.
#[derive(Clone, Copy)]
pub struct SiftLog<Sifted: Bookkeeping, Logged: Loggable> {
    pub sift: Sifted,
    pub log: Logged,
}

impl<Sifted: Bookkeeping, Logged: Loggable> Bookkeeping for SiftLog<Sifted, Logged> {
    open spec fn models(self, t: Tally) -> bool {
        self.sift.models(t) && self.log.models(t)
    }

    open spec fn retention(t: Tally) -> u32 {
        Sifted::retention(t)
    }

    open spec fn rendering(bom: bool, crlf: bool, keys: Seq<Seq<u8>>, tallies: Seq<Tally>) -> Seq<u8> {
        annotated_output(bom, crlf, keys, logged::<Logged>(tallies), Logged::marks_overflow())
    }

    /// Returns `SiftLog { sift: Sifted::new(), log: Logged::new() }` —
    /// freshly inserted lines will have a bookkeeping item suitable for both
    /// sifting and logging.
    fn new() -> (r: Self) {
        SiftLog { sift: Sifted::new(), log: Logged::new() }
    }

    /// Our `next_file` method calls `next_file` for both its fields.
    fn next_file(&mut self) {
        self.sift.next_file();
        self.log.next_file()
    }

    open spec fn updated(self, other: Self) -> Self {
        SiftLog { sift: self.sift.updated(other.sift), log: self.log.updated(other.log) }
    }

    open spec fn can_update(self, other: Self) -> bool {
        self.sift.can_update(other.sift) && self.log.can_update(other.log)
    }

    open spec fn retained(self) -> u32 {
        self.sift.retained()
    }

    proof fn lemma_update(self, other: Self, t: Tally, f: nat) {
        self.sift.lemma_update(other.sift, t, f);
        self.log.lemma_update(other.log, t, f);
    }

    proof fn lemma_retained(self, t: Tally) {
        self.sift.lemma_retained(t);
    }

    /// Our `update_with` method calls `update_with` for both its fields,
    /// sending `other.sift` to our `sift` field and `other.log` to our `log`
    /// field.
    fn update_with(&mut self, other: Self) {
        self.sift.update_with(other.sift);
        self.log.update_with(other.log);
    }

    /// Our `retention_value` is our **`sift` field's** retention value.
    fn retention_value(self) -> (r: u32) {
        self.sift.retention_value()
    }

    /// We override `output_zet_set` to use `output_zet_set_annotated`.
    fn output_zet_set(set: &ZetSet<Self>) -> (out: Vec<u8>) {
        let n = set.len();
        let mut logs: Vec<Logged> = Vec::new();
        let mut i: usize = 0;
        while i < n
            invariant
                set.wf(),
                n == set.keys().len(),
                i <= n,
                logs@.len() == i,
                forall|k: int| 0 <= k < i ==> #[trigger] logs@[k] == set.items()[k].log,
            decreases n - i,
        {
            logs.push(set.item(i).log);
            i = i + 1;
        }
        let out = output_zet_set_annotated(set, &logs);
        assert forall|tallies: Seq<Tally>|
            tallies.len() == set.keys().len() && (forall|i: int|
                0 <= i < tallies.len() ==> set.items()[i].models(#[trigger] tallies[i])) implies out@
            == #[trigger] Self::rendering(set.bom(), set.crlf(), set.keys(), tallies) by {
            assert forall|i: int| 0 <= i < tallies.len() implies #[trigger] logged::<Logged>(tallies)[i]
                == log_specs(logs@)[i] by {
                assert(set.items()[i].models(tallies[i]));
                logs@[i].lemma_log_of(tallies[i]);
            }
            assert(logged::<Logged>(tallies) =~= log_specs(logs@));
        }
        out
    }
}

impl<Sifted: Bookkeeping, Logged: Loggable> Loggable for SiftLog<Sifted, Logged> {
    open spec fn log_of(t: Tally) -> u32 {
        Logged::log_of(t)
    }

    open spec fn marks_overflow() -> bool {
        Logged::marks_overflow()
    }

    open spec fn log_spec(self) -> u32 {
        self.log.log_spec()
    }

    proof fn lemma_log_of(self, t: Tally) {
        self.log.lemma_log_of(t);
    }

    /// Our `log_value` is our **`log` field's** log value.
    fn log_value(self) -> (r: u32) {
        self.log.log_value()
    }

    /// For `write_log` we output our `log` field's log value.
    fn write_log(&self, width: usize, out: &mut Vec<u8>) {
        self.log.write_log(width, out)
    }
}


/// `Lines` reports the line counts that `calculate` promises.
proof fn lemma_lines_reported(tallies: Seq<Tally>)
    ensures
        logged::<Lines>(tallies) == reported_counts(LogType::Lines, tallies),
{
    assert(logged::<Lines>(tallies) =~= reported_counts(LogType::Lines, tallies));
}

/// `Files` reports the file counts that `calculate` promises.
proof fn lemma_files_reported(tallies: Seq<Tally>)
    ensures
        logged::<Files>(tallies) == reported_counts(LogType::Files, tallies),
{
    assert(logged::<Files>(tallies) =~= reported_counts(LogType::Files, tallies));
}

/// Calculates the set operation named by `operation`, each operand taken as a
/// set of lines, and returns what is to be printed:
///
/// * `OpName::Union` gives the lines that occur in any operand,
/// * `OpName::Intersect` gives the lines that occur in all operands,
/// * `OpName::Diff` gives the lines that occur in the first operand and no other,
/// * `OpName::Single` gives the lines that occur exactly once in the input,
/// * `OpName::Multiple` gives the lines that occur more than once in the input,
/// * `OpName::SingleByFile` gives the lines that occur in exactly one operand, and
/// * `OpName::MultipleByFile` gives the lines that occur in more than one operand.
///
/// Each line is given once, in the order of its first appearance. `log_type`
/// says whether each line is preceded by the number of times it appears in the
/// input (`LogType::Lines`), the number of operands it appears in
/// (`LogType::Files`), or neither (`LogType::NoCount`).
///
/// `first_operand` is the first operand's contents (a UTF-16 one already
/// translated: see `decode_if_utf16`); `rest` holds the bytes of the others,
/// as they were read: each is decoded here (see `decode_later_operands`).
/// More than `u32::MAX` operands are refused.
pub fn calculate(
    operation: OpName,
    log_type: LogType,
    first_operand: &[u8],
    rest: &[Vec<u8>],
) -> (r: Result<Vec<u8>, ZetError>)
    ensures
        r is Err <==> rest@.len() + 1 > u32::MAX,
        r matches Err(e) ==> e == ZetError::TooManyOperands,
        r matches Ok(out) ==> out@ == zet_output(operation, log_type, first_operand@, later_texts(rest@)),
{
    if rest.len() >= 4294967295usize {
        return Err(ZetError::TooManyOperands);
    }
    let texts = decode_later_operands(rest);
    assert(views(texts@) =~= later_texts(rest@));
    calculate_texts(operation, log_type, first_operand, texts.as_slice())
}

/// `calculate`, on the texts `rest` of the later operands.
fn calculate_texts(
    operation: OpName,
    log_type: LogType,
    first_operand: &[u8],
    rest: &[Vec<u8>],
) -> (r: Result<Vec<u8>, ZetError>)
    ensures
        r is Err <==> rest@.len() + 1 > u32::MAX,
        r matches Err(e) ==> e == ZetError::TooManyOperands,
        r matches Ok(out) ==> out@ == zet_output(operation, log_type, first_operand@, views(rest@)),
{
    if rest.len() >= 4294967295usize {
        return Err(ZetError::TooManyOperands);
    }
    let ghost n: nat = (rest@.len() + 1) as nat;
    let ghost ev = all_events(first_operand@, views(rest@));
    let ghost sel = selection(operation, n);
    let ghost bom = starts_with_bom(first_operand@);
    let ghost crlf = first_line_ends_crlf(first_operand@);
    let ghost keys = zet_lines(operation, first_operand@, views(rest@));
    let ghost tallies = tallies_of(keys, ev);
    assert(views(rest@).len() == rest@.len());
    let out = match log_type {
        LogType::NoCount => match operation {
            OpName::Union => {
                let out = union::<Unsifted>(first_operand, rest);
                proof {
                    lemma_select_all(seen(ev), |k: Seq<u8>| sel(tally_of(ev, k).unwrap()));
                }
                out
            },
            OpName::Diff => diff::<Files>(first_operand, rest, Ghost(sel)),
            OpName::Intersect => intersect::<Files>(first_operand, rest, Ghost(sel)),
            OpName::Single => keep_single::<Lines>(first_operand, rest, Ghost(sel)),
            OpName::Multiple => keep_multiple::<Lines>(first_operand, rest, Ghost(sel)),
            OpName::SingleByFile => keep_single::<Files>(first_operand, rest, Ghost(sel)),
            OpName::MultipleByFile => keep_multiple::<Files>(first_operand, rest, Ghost(sel)),
        },
        // When `log_type` is `LogType::Lines` and `operation` is `Single` or
        // `Multiple`, both logging and selection use `Lines`. Since
        // `SiftLog<Lines, Lines>` would do duplicate bookkeeping, we just
        // use `Log<Lines>`.
        LogType::Lines => {
            proof {
                lemma_lines_reported(tallies);
            }
            match operation {
                OpName::Union => {
                    let out = union::<Log<Lines>>(first_operand, rest);
                    proof {
                        lemma_select_all(seen(ev), |k: Seq<u8>| sel(tally_of(ev, k).unwrap()));
                    }
                    out
                },
                OpName::Diff => diff::<SiftLog<Files, Lines>>(first_operand, rest, Ghost(sel)),
                OpName::Intersect => intersect::<SiftLog<Files, Lines>>(first_operand, rest, Ghost(sel)),
                OpName::Single => keep_single::<Log<Lines>>(first_operand, rest, Ghost(sel)),
                OpName::Multiple => keep_multiple::<Log<Lines>>(first_operand, rest, Ghost(sel)),
                OpName::SingleByFile => keep_single::<SiftLog<Files, Lines>>(first_operand, rest, Ghost(sel)),
                OpName::MultipleByFile => keep_multiple::<SiftLog<Files, Lines>>(first_operand, rest, Ghost(sel)),
            }
        },
        // Similarly, we use `Log<Files>` by itself when `log_type` is
        // `LogType::Files` and `operation` is `SingleByFile` or
        // `MultipleByFile`. And we use `Log<Lines>` for `Single`, rather than
        // `SiftLog<Lines, Files>`, since the number reported for `Single` will
        // always be 1 — a line appearing only once can appear in only one file.
        LogType::Files => {
            proof {
                lemma_lines_reported(tallies);
                lemma_files_reported(tallies);
            }
            match operation {
                OpName::Union => {
                    let out = union::<Log<Files>>(first_operand, rest);
                    proof {
                        lemma_select_all(seen(ev), |k: Seq<u8>| sel(tally_of(ev, k).unwrap()));
                    }
                    out
                },
                OpName::Diff => diff::<Log<Files>>(first_operand, rest, Ghost(sel)),
                OpName::Intersect => intersect::<Log<Files>>(first_operand, rest, Ghost(sel)),
                OpName::Single => keep_single::<Log<Lines>>(first_operand, rest, Ghost(sel)),
                OpName::Multiple => keep_multiple::<SiftLog<Lines, Files>>(first_operand, rest, Ghost(sel)),
                OpName::SingleByFile => keep_single::<Log<Files>>(first_operand, rest, Ghost(sel)),
                OpName::MultipleByFile => keep_multiple::<Log<Files>>(first_operand, rest, Ghost(sel)),
            }
        },
    };
    Ok(out)
}

/// For the "additive" operations (all but `Diff` and `Intersect`), we insert
/// every line in the input into the `ZetSet`. Both `ZetSet::new` and
/// `set.insert_or_update` will call `b.update_with(item)` on the line's
/// bookkeeping item `b` if the line is already present in the `ZetSet`.
fn every_line<'data, B: Bookkeeping>(first_operand: &'data [u8], rest: &[Vec<u8>]) -> (set: ZetSet<'data, B>)
    requires
        rest@.len() < u32::MAX,
    ensures
        set.tracks(all_events(first_operand@, views(rest@)), rest@.len() as nat),
        set.keys() == seen(all_events(first_operand@, views(rest@))),
        set.bom() == starts_with_bom(first_operand@),
        set.crlf() == first_line_ends_crlf(first_operand@),
{
    let ghost ops = operand_lines(first_operand@, views(rest@));
    let mut item = B::new();
    proof {
        assert forall|k: Seq<u8>|
            updatable_times(
                item,
                item,
                (count_in(split_lines(without_bom(first_operand@)), k) - 1) as nat,
            ) by {
            lemma_updatable(item, item, fresh(0), 0, (count_in(split_lines(without_bom(first_operand@)), k) - 1) as nat);
        }
    }
    let mut set = ZetSet::new(first_operand, item);
    proof {
        lemma_events_take(ops, 0);
        assert(ops.take(0) =~= Seq::<Seq<Seq<u8>>>::empty());
        assert(events(ops.take(1)) =~= first_events(first_operand@));
    }
    let mut k: usize = 0;
    while k < rest.len()
        invariant
            ops == operand_lines(first_operand@, views(rest@)),
            k <= rest@.len(),
            rest@.len() < u32::MAX,
            item.models(fresh(k as nat)),
            set.tracks(events(ops.take(k + 1)), k as nat),
            set.keys() == seen(events(ops.take(k + 1))),
            set.bom() == starts_with_bom(first_operand@),
            set.crlf() == first_line_ends_crlf(first_operand@),
        decreases rest@.len() - k,
    {
        item.next_file();
        let ghost ev = events(ops.take(k + 1));
        proof {
            set.lemma_tracks_later(ev, k as nat, (k + 1) as nat);
            set.lemma_tracked_absorbable(ev, (k + 1) as nat, item, split_lines(rest@[k as int]@));
        }
        set.insert_or_update(rest[k].as_slice(), item, Ghost(ev), Ghost((k + 1) as nat));
        proof {
            lemma_events_take(ops, k + 1);
            assert(ops[k + 1] == split_lines(rest@[k as int]@));
        }
        k = k + 1;
    }
    assert(ops.take(rest@.len() + 1 as int) =~= ops);
    set
}

/// For the "subtractive" operations `Diff` and `Intersect`, we insert only
/// those lines in the first input file into the `ZetSet`. Lines in the
/// remaining files are only used to update the bookkeeping values of lines
/// already present.
fn first_file_lines<'data, B: Bookkeeping>(first_operand: &'data [u8], rest: &[Vec<u8>]) -> (set: ZetSet<'data, B>)
    requires
        rest@.len() < u32::MAX,
    ensures
        set.tracks(all_events(first_operand@, views(rest@)), rest@.len() as nat),
        set.keys() == seen(first_events(first_operand@)),
        set.bom() == starts_with_bom(first_operand@),
        set.crlf() == first_line_ends_crlf(first_operand@),
{
    let ghost ops = operand_lines(first_operand@, views(rest@));
    let mut item = B::new();
    proof {
        assert forall|k: Seq<u8>|
            updatable_times(
                item,
                item,
                (count_in(split_lines(without_bom(first_operand@)), k) - 1) as nat,
            ) by {
            lemma_updatable(item, item, fresh(0), 0, (count_in(split_lines(without_bom(first_operand@)), k) - 1) as nat);
        }
    }
    let mut set = ZetSet::new(first_operand, item);
    proof {
        lemma_events_take(ops, 0);
        assert(ops.take(0) =~= Seq::<Seq<Seq<u8>>>::empty());
        assert(events(ops.take(1)) =~= first_events(first_operand@));
    }
    let mut k: usize = 0;
    while k < rest.len()
        invariant
            ops == operand_lines(first_operand@, views(rest@)),
            k <= rest@.len(),
            rest@.len() < u32::MAX,
            item.models(fresh(k as nat)),
            set.tracks(events(ops.take(k + 1)), k as nat),
            set.keys() == seen(first_events(first_operand@)),
            set.bom() == starts_with_bom(first_operand@),
            set.crlf() == first_line_ends_crlf(first_operand@),
        decreases rest@.len() - k,
    {
        item.next_file();
        let ghost ev = events(ops.take(k + 1));
        proof {
            set.lemma_tracks_later(ev, k as nat, (k + 1) as nat);
            set.lemma_tracked_absorbable(ev, (k + 1) as nat, item, split_lines(rest@[k as int]@));
        }
        set.update_if_present(rest[k].as_slice(), item, Ghost(ev), Ghost((k + 1) as nat));
        proof {
            lemma_events_take(ops, k + 1);
            assert(ops[k + 1] == split_lines(rest@[k as int]@));
        }
        k = k + 1;
    }
    assert(ops.take(rest@.len() + 1 as int) =~= ops);
    set
}

/// When we've finished constructing the `ZetSet`, we write its lines and
/// abandon the set rather than free it: the program is about to exit.
fn output_and_discard<'data, B: Bookkeeping>(set: ZetSet<'data, B>, ev: Ghost<Seq<(nat, Seq<u8>)>>, cur: Ghost<nat>) -> (out: Vec<u8>)
    requires
        set.tracks(ev@, cur@),
    ensures
        out@ == B::rendering(set.bom(), set.crlf(), set.keys(), tallies_of(set.keys(), ev@)),
{
    let ghost tallies = tallies_of(set.keys(), ev@);
    assert forall|i: int| 0 <= i < tallies.len() implies set.items()[i].models(#[trigger] tallies[i]) by {
        assert(set.keys()[i] == set.keys()[i]);
    }
    let out = B::output_zet_set(&set);
    assert(out@ == B::rendering(set.bom(), set.crlf(), set.keys(), tallies));
    discard(set);
    out
}

/// Retain the lines of `set` whose retention value satisfies `keep`; `sel`
/// says the same of their histories.
fn sift<'data, B: Bookkeeping, F: Fn(u32) -> bool>(
    set: &mut ZetSet<'data, B>,
    keep: F,
    pred: Ghost<spec_fn(u32) -> bool>,
    sel: Ghost<spec_fn(Tally) -> bool>,
    ev: Ghost<Seq<(nat, Seq<u8>)>>,
    cur: Ghost<nat>,
)
    requires
        old(set).tracks(ev@, cur@),
        forall|v: u32| keep.requires((v,)),
        forall|v: u32, b: bool| keep.ensures((v,), b) ==> b == pred@(v),
        forall|t: Tally| valid(t, cur@) ==> (pred@(B::retention(t)) <==> sel@(t)),
    ensures
        final(set).tracks(ev@, cur@),
        final(set).keys() == sifted(old(set).keys(), ev@, sel@),
        all_valid(old(set).keys(), ev@, cur@),
        final(set).bom() == old(set).bom(),
        final(set).crlf() == old(set).crlf(),
{
    let ghost keys = set.keys();
    assert forall|i: int| 0 <= i < keys.len() implies tally_of(ev@, #[trigger] keys[i]) is Some && valid(
        tally_of(ev@, keys[i]).unwrap(),
        cur@,
    ) by {
        assert(set.keys()[i] == keys[i]);
    }
    set.retain(keep, pred, ev, cur);
    proof {
        lemma_select_congruent(
            keys,
            |k: Seq<u8>| pred@(B::retention(tally_of(ev@, k).unwrap())),
            |k: Seq<u8>| sel@(tally_of(ev@, k).unwrap()),
        );
    }
}

/// `Union` collects every line, so we don't need to call `retain`.
fn union<B: Bookkeeping>(first_operand: &[u8], rest: &[Vec<u8>]) -> (out: Vec<u8>)
    requires
        rest@.len() < u32::MAX,
    ensures
        out@ == B::rendering(
            starts_with_bom(first_operand@),
            first_line_ends_crlf(first_operand@),
            seen(all_events(first_operand@, views(rest@))),
            tallies_of(
                seen(all_events(first_operand@, views(rest@))),
                all_events(first_operand@, views(rest@)),
            ),
        ),
        all_valid(
            seen(all_events(first_operand@, views(rest@))),
            all_events(first_operand@, views(rest@)),
            rest@.len() as nat,
        ),
{
    let ghost ev = all_events(first_operand@, views(rest@));
    let set = every_line::<B>(first_operand, rest);
    assert forall|i: int| 0 <= i < set.keys().len() implies tally_of(ev, #[trigger] set.keys()[i]) is Some
        && valid(tally_of(ev, set.keys()[i]).unwrap(), rest@.len() as nat) by {
        assert(set.keys()[i] == set.keys()[i]);
    }
    output_and_discard(set, Ghost(ev), Ghost(rest@.len() as nat))
}

/// `Single` and `SingleByFile` retain those lines where the relevant count is
/// `1`.
fn keep_single<B: Bookkeeping>(first_operand: &[u8], rest: &[Vec<u8>], sel: Ghost<spec_fn(Tally) -> bool>) -> (out: Vec<u8>)
    requires
        rest@.len() < u32::MAX,
        forall|t: Tally| valid(t, rest@.len() as nat) ==> (B::retention(t) == 1 <==> sel@(t)),
    ensures
        out@ == B::rendering(
            starts_with_bom(first_operand@),
            first_line_ends_crlf(first_operand@),
            sifted(seen(all_events(first_operand@, views(rest@))), all_events(first_operand@, views(rest@)), sel@),
            tallies_of(
                sifted(seen(all_events(first_operand@, views(rest@))), all_events(first_operand@, views(rest@)), sel@),
                all_events(first_operand@, views(rest@)),
            ),
        ),
        all_valid(
            seen(all_events(first_operand@, views(rest@))),
            all_events(first_operand@, views(rest@)),
            rest@.len() as nat,
        ),
{
    let ghost ev = all_events(first_operand@, views(rest@));
    let mut set = every_line::<B>(first_operand, rest);
    let keep = |occurences: u32| -> (b: bool)
        ensures
            b == (occurences == 1),
        { occurences == 1 };
    sift(&mut set, keep, Ghost(|v: u32| v == 1), sel, Ghost(ev), Ghost(rest@.len() as nat));
    output_and_discard(set, Ghost(ev), Ghost(rest@.len() as nat))
}

/// `Multiple` and `MultipleByFile` retain those lines where the relevant count is
/// greater than `1`.
fn keep_multiple<B: Bookkeeping>(first_operand: &[u8], rest: &[Vec<u8>], sel: Ghost<spec_fn(Tally) -> bool>) -> (out: Vec<u8>)
    requires
        rest@.len() < u32::MAX,
        forall|t: Tally| valid(t, rest@.len() as nat) ==> (B::retention(t) > 1 <==> sel@(t)),
    ensures
        out@ == B::rendering(
            starts_with_bom(first_operand@),
            first_line_ends_crlf(first_operand@),
            sifted(seen(all_events(first_operand@, views(rest@))), all_events(first_operand@, views(rest@)), sel@),
            tallies_of(
                sifted(seen(all_events(first_operand@, views(rest@))), all_events(first_operand@, views(rest@)), sel@),
                all_events(first_operand@, views(rest@)),
            ),
        ),
        all_valid(
            seen(all_events(first_operand@, views(rest@))),
            all_events(first_operand@, views(rest@)),
            rest@.len() as nat,
        ),
{
    let ghost ev = all_events(first_operand@, views(rest@));
    let mut set = every_line::<B>(first_operand, rest);
    let keep = |occurences: u32| -> (b: bool)
        ensures
            b == (occurences > 1),
        { occurences > 1 };
    sift(&mut set, keep, Ghost(|v: u32| v > 1), sel, Ghost(ev), Ghost(rest@.len() as nat));
    output_and_discard(set, Ghost(ev), Ghost(rest@.len() as nat))
}

/// `Diff` retains only those lines seen only in the first file. Since
/// `first_file_lines` only includes lines from the first file, we can
/// equivalently retain those lines whose file count is `1`.
fn diff<B: Bookkeeping>(first_operand: &[u8], rest: &[Vec<u8>], sel: Ghost<spec_fn(Tally) -> bool>) -> (out: Vec<u8>)
    requires
        rest@.len() < u32::MAX,
        forall|t: Tally| valid(t, rest@.len() as nat) ==> (B::retention(t) == 1 <==> sel@(t)),
    ensures
        out@ == B::rendering(
            starts_with_bom(first_operand@),
            first_line_ends_crlf(first_operand@),
            sifted(seen(first_events(first_operand@)), all_events(first_operand@, views(rest@)), sel@),
            tallies_of(
                sifted(seen(first_events(first_operand@)), all_events(first_operand@, views(rest@)), sel@),
                all_events(first_operand@, views(rest@)),
            ),
        ),
        all_valid(
            seen(first_events(first_operand@)),
            all_events(first_operand@, views(rest@)),
            rest@.len() as nat,
        ),
{
    let ghost ev = all_events(first_operand@, views(rest@));
    let first_file_only: u32 = 1;
    let mut set = first_file_lines::<B>(first_operand, rest);
    let keep = |files_containing_line: u32| -> (b: bool)
        ensures
            b == (files_containing_line == first_file_only),
        { files_containing_line == first_file_only };
    sift(&mut set, keep, Ghost(|v: u32| v == 1), sel, Ghost(ev), Ghost(rest@.len() as nat));
    output_and_discard(set, Ghost(ev), Ghost(rest@.len() as nat))
}

/// `Intersect` retains only those lines whose file count is the same as the
/// number of input files.
fn intersect<B: Bookkeeping>(first_operand: &[u8], rest: &[Vec<u8>], sel: Ghost<spec_fn(Tally) -> bool>) -> (out: Vec<u8>)
    requires
        rest@.len() < u32::MAX,
        forall|t: Tally| valid(t, rest@.len() as nat) ==> (B::retention(t) == rest@.len() + 1 <==> sel@(t)),
    ensures
        out@ == B::rendering(
            starts_with_bom(first_operand@),
            first_line_ends_crlf(first_operand@),
            sifted(seen(first_events(first_operand@)), all_events(first_operand@, views(rest@)), sel@),
            tallies_of(
                sifted(seen(first_events(first_operand@)), all_events(first_operand@, views(rest@)), sel@),
                all_events(first_operand@, views(rest@)),
            ),
        ),
        all_valid(
            seen(first_events(first_operand@)),
            all_events(first_operand@, views(rest@)),
            rest@.len() as nat,
        ),
{
    let ghost ev = all_events(first_operand@, views(rest@));
    let all_files: u32 = (rest.len() + 1) as u32;
    let mut set = first_file_lines::<B>(first_operand, rest);
    let keep = |files_containing_line: u32| -> (b: bool)
        ensures
            b == (files_containing_line == all_files),
        { files_containing_line == all_files };
    sift(&mut set, keep, Ghost(|v: u32| v == all_files), sel, Ghost(ev), Ghost(rest@.len() as nat));
    output_and_discard(set, Ghost(ev), Ghost(rest@.len() as nat))
}

} // verus!
