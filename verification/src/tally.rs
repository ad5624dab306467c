//! Values kept with each line to select lines by: a line count, a file count,
//! nothing, or the last file a line was seen in, and pairs of these (one to
//! select by, one to report). The file number of a value is the number of the
//! operand it was made for, counted from `0`.
use crate::operations::ZetError;
use crate::render::{padded, push_padded, SPACE};
use vstd::prelude::*;

verus! {

/// A value kept with each line, by which lines are selected.
pub trait Select: Copy + Sized {
    /// The value of a line first seen in the first file.
    spec fn initial() -> Self;

    /// `self`, made for the next file.
    spec fn advanced(self) -> Self;

    /// `self`, updated by the value `other` of a line seen again.
    spec fn updated(self, other: Self) -> Self;

    /// The number lines are selected by.
    spec fn selected_by(self) -> u32;

    /// Moving to the next file does not overflow.
    spec fn can_advance(self) -> bool;

    /// Updating by `other` does not overflow.
    spec fn can_update(self, other: Self) -> bool;

    /// The value of a line first seen in the first file.
    fn new() -> (r: Self)
        ensures
            r == Self::initial(),
    ;

    /// Make `self` the value for the next file.
    fn next_file(&mut self) -> (r: Result<(), ZetError>)
        requires
            old(self).can_advance(),
        ensures
            r is Ok,
            *final(self) == old(self).advanced(),
    ;

    /// Update `self` with the value `other` of the line seen again.
    fn update_with(&mut self, other: Self)
        requires
            old(self).can_update(other),
        ensures
            *final(self) == old(self).updated(other),
    ;

    /// The number lines are selected by.
    fn value(self) -> (r: u32)
        ensures
            r == self.selected_by(),
    ;
}

/// A `Select` value that also reports a count.
pub trait Bookkeeping: Select {
    /// The count reported.
    spec fn reported(self) -> u32;

    /// What `write_count` writes, for a field of `width` bytes.
    spec fn written(self, width: nat) -> Seq<u8>;

    /// The count reported.
    fn count(self) -> (r: u32)
        ensures
            r == self.reported(),
    ;

    /// Write the count, right-aligned in `width` bytes, and a space.
    fn write_count(&self, width: usize, out: &mut Vec<u8>)
        ensures
            final(out)@ == old(out)@ + self.written(width as nat),
    ;
}

/// The number of the file a value was made for, where it keeps one.
pub trait FileNumber: Copy + Sized {
    /// The file number kept, if any.
    spec fn file_number_spec(self) -> Option<u32>;

    /// The file number kept, if any.
    fn file_number(self) -> (r: Option<u32>)
        ensures
            r == self.file_number_spec(),
    ;
}

/// The number of times a line occurs.
#[derive(Clone, Copy, PartialEq, Eq, Debug)]
pub struct LineCount(pub u32);

impl Select for LineCount {
    open spec fn initial() -> Self {
        LineCount(1)
    }

    open spec fn advanced(self) -> Self {
        self
    }

    open spec fn updated(self, other: Self) -> Self {
        LineCount((self.0 + 1) as u32)
    }

    open spec fn selected_by(self) -> u32 {
        self.0
    }

    open spec fn can_advance(self) -> bool {
        true
    }

    open spec fn can_update(self, other: Self) -> bool {
        self.0 < u32::MAX
    }

    fn new() -> (r: Self) {
        LineCount(1)
    }

    fn next_file(&mut self) -> (r: Result<(), ZetError>) {
        Ok(())
    }

    fn update_with(&mut self, _other: Self) {
        self.0 = self.0 + 1;
    }

    fn value(self) -> (r: u32) {
        self.0
    }
}

impl Bookkeeping for LineCount {
    open spec fn reported(self) -> u32 {
        self.0
    }

    open spec fn written(self, width: nat) -> Seq<u8> {
        padded(self.0 as nat, width).push(SPACE)
    }

    fn count(self) -> (r: u32) {
        self.value()
    }

    fn write_count(&self, width: usize, out: &mut Vec<u8>) {
        push_padded(out, self.0, width);
        out.push(SPACE);
    }
}

impl FileNumber for LineCount {
    open spec fn file_number_spec(self) -> Option<u32> {
        None
    }

    fn file_number(self) -> (r: Option<u32>) {
        None
    }
}

/// The number of files a line occurs in, and the file it was last seen in.
#[derive(Clone, Copy, PartialEq, Eq, Debug)]
pub struct FileCount {
    pub file_number: u32,
    pub files_seen: u32,
}

impl Select for FileCount {
    open spec fn initial() -> Self {
        FileCount { file_number: 0, files_seen: 1 }
    }

    open spec fn advanced(self) -> Self {
        FileCount { file_number: (self.file_number + 1) as u32, files_seen: self.files_seen }
    }

    open spec fn updated(self, other: Self) -> Self {
        if other.file_number != self.file_number {
            FileCount { file_number: other.file_number, files_seen: (self.files_seen + 1) as u32 }
        } else {
            self
        }
    }

    open spec fn selected_by(self) -> u32 {
        self.files_seen
    }

    open spec fn can_advance(self) -> bool {
        self.file_number < u32::MAX
    }

    open spec fn can_update(self, other: Self) -> bool {
        other.file_number != self.file_number ==> self.files_seen < u32::MAX
    }

    fn new() -> (r: Self) {
        FileCount { file_number: 0, files_seen: 1 }
    }

    fn next_file(&mut self) -> (r: Result<(), ZetError>) {
        self.file_number = self.file_number + 1;
        Ok(())
    }

    fn update_with(&mut self, other: Self) {
        if other.file_number != self.file_number {
            self.files_seen = self.files_seen + 1;
            self.file_number = other.file_number;
        }
    }

    fn value(self) -> (r: u32) {
        self.files_seen
    }
}

impl Bookkeeping for FileCount {
    open spec fn reported(self) -> u32 {
        self.files_seen
    }

    open spec fn written(self, width: nat) -> Seq<u8> {
        padded(self.files_seen as nat, width).push(SPACE)
    }

    fn count(self) -> (r: u32) {
        self.value()
    }

    fn write_count(&self, width: usize, out: &mut Vec<u8>) {
        push_padded(out, self.files_seen, width);
        out.push(SPACE);
    }
}

impl FileNumber for FileCount {
    open spec fn file_number_spec(self) -> Option<u32> {
        Some(self.file_number)
    }

    fn file_number(self) -> (r: Option<u32>) {
        Some(self.file_number)
    }
}

/// No bookkeeping at all.
#[derive(Clone, Copy, PartialEq, Eq, Debug)]
pub struct Noop();

impl Select for Noop {
    open spec fn initial() -> Self {
        Noop()
    }

    open spec fn advanced(self) -> Self {
        self
    }

    open spec fn updated(self, other: Self) -> Self {
        self
    }

    open spec fn selected_by(self) -> u32 {
        0
    }

    open spec fn can_advance(self) -> bool {
        true
    }

    open spec fn can_update(self, other: Self) -> bool {
        true
    }

    fn new() -> (r: Self) {
        Noop()
    }

    fn next_file(&mut self) -> (r: Result<(), ZetError>) {
        Ok(())
    }

    fn update_with(&mut self, _other: Self) {
    }

    fn value(self) -> (r: u32) {
        0
    }
}

impl Bookkeeping for Noop {
    open spec fn reported(self) -> u32 {
        0
    }

    open spec fn written(self, width: nat) -> Seq<u8> {
        Seq::empty()
    }

    fn count(self) -> (r: u32) {
        self.value()
    }

    fn write_count(&self, _width: usize, _out: &mut Vec<u8>) {
    }
}

impl FileNumber for Noop {
    open spec fn file_number_spec(self) -> Option<u32> {
        None
    }

    fn file_number(self) -> (r: Option<u32>) {
        None
    }
}

/// The last file a line was seen in.
#[derive(Clone, Copy, PartialEq, Eq, Debug)]
pub struct LastFileSeen(pub u32);

impl Select for LastFileSeen {
    open spec fn initial() -> Self {
        LastFileSeen(0)
    }

    open spec fn advanced(self) -> Self {
        LastFileSeen((self.0 + 1) as u32)
    }

    open spec fn updated(self, other: Self) -> Self {
        other
    }

    open spec fn selected_by(self) -> u32 {
        self.0
    }

    open spec fn can_advance(self) -> bool {
        self.0 < u32::MAX
    }

    open spec fn can_update(self, other: Self) -> bool {
        true
    }

    fn new() -> (r: Self) {
        LastFileSeen(0)
    }

    fn next_file(&mut self) -> (r: Result<(), ZetError>) {
        self.0 = self.0 + 1;
        Ok(())
    }

    fn update_with(&mut self, other: Self) {
        self.0 = other.0;
    }

    fn value(self) -> (r: u32) {
        self.0
    }
}

impl FileNumber for LastFileSeen {
    open spec fn file_number_spec(self) -> Option<u32> {
        Some(self.0)
    }

    fn file_number(self) -> (r: Option<u32>) {
        Some(self.0)
    }
}

/// A value to select by and a value to report.
#[derive(Clone, Copy, PartialEq, Eq, Debug)]
pub struct Dual<S: Select, B: Bookkeeping> {
    pub select: S,
    pub log: B,
}

impl<S: Select, B: Bookkeeping> Select for Dual<S, B> {
    open spec fn initial() -> Self {
        Dual { select: S::initial(), log: B::initial() }
    }

    open spec fn advanced(self) -> Self {
        Dual { select: self.select.advanced(), log: self.log.advanced() }
    }

    open spec fn updated(self, other: Self) -> Self {
        Dual { select: self.select.updated(other.select), log: self.log.updated(other.log) }
    }

    open spec fn selected_by(self) -> u32 {
        self.select.selected_by()
    }

    open spec fn can_advance(self) -> bool {
        self.select.can_advance() && self.log.can_advance()
    }

    open spec fn can_update(self, other: Self) -> bool {
        self.select.can_update(other.select) && self.log.can_update(other.log)
    }

    fn new() -> (r: Self) {
        Dual { select: S::new(), log: B::new() }
    }

    fn next_file(&mut self) -> (r: Result<(), ZetError>) {
        self.select.next_file()?;
        self.log.next_file()
    }

    fn update_with(&mut self, other: Self) {
        self.select.update_with(other.select);
        self.log.update_with(other.log);
    }

    fn value(self) -> (r: u32) {
        self.select.value()
    }
}

impl<S: Select, B: Bookkeeping> Bookkeeping for Dual<S, B> {
    open spec fn reported(self) -> u32 {
        self.log.reported()
    }

    open spec fn written(self, width: nat) -> Seq<u8> {
        self.log.written(width)
    }

    fn count(self) -> (r: u32) {
        self.log.count()
    }

    fn write_count(&self, width: usize, out: &mut Vec<u8>) {
        self.log.write_count(width, out)
    }
}

impl<S: Select + FileNumber, B: Bookkeeping + FileNumber> FileNumber for Dual<S, B> {
    open spec fn file_number_spec(self) -> Option<u32> {
        match self.select.file_number_spec() {
            Some(n) => Some(n),
            None => self.log.file_number_spec(),
        }
    }

    fn file_number(self) -> (r: Option<u32>) {
        match self.select.file_number() {
            Some(n) => Some(n),
            None => self.log.file_number(),
        }
    }
}

} // verus!
