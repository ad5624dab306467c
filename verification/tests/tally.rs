use zet::tally::{Bookkeeping, Dual, FileCount, FileNumber, LastFileSeen, LineCount, Noop, Select};

fn new_file_number<S: Select + FileNumber>() -> Option<u32> {
    S::new().file_number()
}

#[test]
#[allow(non_snake_case)]
fn first_file_file_number_is_None_for_Noop_and_LineCount_and_Some_0_otherwise() {
    assert_eq!(new_file_number::<LineCount>(), None);
    assert_eq!(new_file_number::<FileCount>(), Some(0));
    assert_eq!(new_file_number::<Noop>(), None);
    assert_eq!(new_file_number::<LastFileSeen>(), Some(0));
    assert_eq!(new_file_number::<Dual<LineCount, LineCount>>(), None);
    assert_eq!(new_file_number::<Dual<LineCount, FileCount>>(), Some(0));
    assert_eq!(new_file_number::<Dual<LineCount, Noop>>(), None);
    assert_eq!(new_file_number::<Dual<FileCount, LineCount>>(), Some(0));
    assert_eq!(new_file_number::<Dual<FileCount, FileCount>>(), Some(0));
    assert_eq!(new_file_number::<Dual<FileCount, Noop>>(), Some(0));
    assert_eq!(new_file_number::<Dual<Noop, LineCount>>(), None);
    assert_eq!(new_file_number::<Dual<Noop, FileCount>>(), Some(0));
    assert_eq!(new_file_number::<Dual<Noop, Noop>>(), None);
    assert_eq!(new_file_number::<Dual<LastFileSeen, LineCount>>(), Some(0));
    assert_eq!(new_file_number::<Dual<LastFileSeen, FileCount>>(), Some(0));
    assert_eq!(new_file_number::<Dual<LastFileSeen, Noop>>(), Some(0));
}

fn bump_twice<S: Select>() -> S {
    let mut select = S::new();
    select.next_file().unwrap();
    select.next_file().unwrap();
    select
}
fn bump_twice_file_number<S: Select + FileNumber>() -> Option<u32> {
    bump_twice::<S>().file_number()
}

#[test]
#[allow(non_snake_case)]
fn next_file_increments_file_number_only_for_LastFileSeen_and_FileCount() {
    assert_eq!(bump_twice_file_number::<LineCount>(), None);
    assert_eq!(bump_twice_file_number::<FileCount>(), Some(2));
    assert_eq!(bump_twice_file_number::<Noop>(), None);
    assert_eq!(bump_twice_file_number::<LastFileSeen>(), Some(2));
    assert_eq!(bump_twice_file_number::<Dual<LineCount, LineCount>>(), None);
    assert_eq!(bump_twice_file_number::<Dual<LineCount, FileCount>>(), Some(2));
    assert_eq!(bump_twice_file_number::<Dual<LineCount, Noop>>(), None);
    assert_eq!(bump_twice_file_number::<Dual<FileCount, LineCount>>(), Some(2));
    assert_eq!(bump_twice_file_number::<Dual<FileCount, FileCount>>(), Some(2));
    assert_eq!(bump_twice_file_number::<Dual<FileCount, Noop>>(), Some(2));
    assert_eq!(bump_twice_file_number::<Dual<Noop, LineCount>>(), None);
    assert_eq!(bump_twice_file_number::<Dual<Noop, FileCount>>(), Some(2));
    assert_eq!(bump_twice_file_number::<Dual<Noop, Noop>>(), None);
    assert_eq!(bump_twice_file_number::<Dual<LastFileSeen, LineCount>>(), Some(2));
    assert_eq!(bump_twice_file_number::<Dual<LastFileSeen, FileCount>>(), Some(2));
    assert_eq!(bump_twice_file_number::<Dual<LastFileSeen, Noop>>(), Some(2));
}

fn assert_update_with_sets_self_file_number_to_arguments<S: Select + FileNumber>() {
    let mut naive = S::new();
    let mut other = S::new();
    other.next_file().unwrap();
    other.next_file().unwrap();
    naive.update_with(other);
    assert_eq!(naive.file_number(), other.file_number());
}

#[test]
fn update_with_sets_file_number_to_its_arguments_file_number() {
    assert_update_with_sets_self_file_number_to_arguments::<LineCount>();
    assert_update_with_sets_self_file_number_to_arguments::<FileCount>();
    assert_update_with_sets_self_file_number_to_arguments::<Noop>();
    assert_update_with_sets_self_file_number_to_arguments::<LastFileSeen>();
    assert_update_with_sets_self_file_number_to_arguments::<Dual<LineCount, LineCount>>();
    assert_update_with_sets_self_file_number_to_arguments::<Dual<LineCount, FileCount>>();
    assert_update_with_sets_self_file_number_to_arguments::<Dual<LineCount, Noop>>();
    assert_update_with_sets_self_file_number_to_arguments::<Dual<FileCount, LineCount>>();
    assert_update_with_sets_self_file_number_to_arguments::<Dual<FileCount, FileCount>>();
    assert_update_with_sets_self_file_number_to_arguments::<Dual<FileCount, Noop>>();
    assert_update_with_sets_self_file_number_to_arguments::<Dual<Noop, LineCount>>();
    assert_update_with_sets_self_file_number_to_arguments::<Dual<Noop, FileCount>>();
    assert_update_with_sets_self_file_number_to_arguments::<Dual<Noop, Noop>>();
    assert_update_with_sets_self_file_number_to_arguments::<Dual<LastFileSeen, LineCount>>();
    assert_update_with_sets_self_file_number_to_arguments::<Dual<LastFileSeen, FileCount>>();
    assert_update_with_sets_self_file_number_to_arguments::<Dual<LastFileSeen, Noop>>();
}

#[test]
fn counts_and_values_of_each_tally() {
    let mut lines = LineCount::new();
    lines.update_with(LineCount::new());
    lines.update_with(LineCount::new());
    assert_eq!(lines.value(), 3);
    assert_eq!(lines.count(), 3);

    let mut files = FileCount::new();
    let mut later = FileCount::new();
    later.next_file().unwrap();
    files.update_with(later);
    files.update_with(later);
    assert_eq!(files.value(), 2);

    assert_eq!(Noop::new().value(), 0);

    let mut dual: Dual<FileCount, LineCount> = Dual::new();
    let mut next: Dual<FileCount, LineCount> = Dual::new();
    next.next_file().unwrap();
    dual.update_with(next);
    dual.update_with(next);
    assert_eq!(dual.value(), 2);
    assert_eq!(dual.count(), 3);
}

#[test]
fn write_count_pads_the_count_to_the_width() {
    let mut out = Vec::new();
    LineCount(7).write_count(3, &mut out);
    assert_eq!(out, b"  7 ".to_vec());
    let mut out = Vec::new();
    FileCount { file_number: 1, files_seen: 12 }.write_count(1, &mut out);
    assert_eq!(out, b"12 ".to_vec());
    let mut out = Vec::new();
    Noop().write_count(5, &mut out);
    assert!(out.is_empty());
    let mut out = Vec::new();
    let dual = Dual { select: LastFileSeen(4), log: LineCount(5) };
    dual.write_count(2, &mut out);
    assert_eq!(out, b" 5 ".to_vec());
}
