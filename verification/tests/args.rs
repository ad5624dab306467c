use zet::args::OpName::{Diff, Intersect, Multiple, MultipleByFile, Single, SingleByFile, Union};
use zet::args::{log_type_for, op_for, operation_for, request, CliFlags, CliName, Request};
use zet::operations::LogType;

fn flags(command: Option<CliName>) -> CliFlags {
    CliFlags {
        count_files: false,
        count_lines: false,
        count: false,
        files: false,
        help: false,
        version: false,
        command,
    }
}

#[test]
fn count_flags_choose_the_log_type() {
    assert_eq!(log_type_for(false, false, false, false), LogType::NoCount);
    assert_eq!(log_type_for(false, false, false, true), LogType::NoCount);
    assert_eq!(log_type_for(true, false, false, false), LogType::Files);
    assert_eq!(log_type_for(false, true, false, true), LogType::Lines);
    assert_eq!(log_type_for(true, true, true, false), LogType::Files);
}

#[test]
fn count_acts_like_count_lines_unless_files_is_in_effect() {
    assert_eq!(log_type_for(false, false, true, false), log_type_for(false, true, false, false));
    assert_eq!(log_type_for(false, false, true, false), LogType::Lines);
    assert_eq!(log_type_for(false, false, true, true), log_type_for(true, false, false, true));
    assert_eq!(log_type_for(false, false, true, true), LogType::Files);
}

#[test]
fn files_flag_changes_only_single_and_multiple() {
    assert_eq!(op_for(CliName::Single, false), Some(Single));
    assert_eq!(op_for(CliName::Single, true), Some(SingleByFile));
    assert_eq!(op_for(CliName::Multiple, false), Some(Multiple));
    assert_eq!(op_for(CliName::Multiple, true), Some(MultipleByFile));
    for files in [false, true] {
        assert_eq!(op_for(CliName::Union, files), Some(Union));
        assert_eq!(op_for(CliName::Intersect, files), Some(Intersect));
        assert_eq!(op_for(CliName::Diff, files), Some(Diff));
        assert_eq!(op_for(CliName::Help, files), None);
    }
}

#[test]
fn help_is_requested_by_flag_by_command_or_by_no_command() {
    let mut f = flags(Some(CliName::Union));
    f.help = true;
    assert_eq!(request(&f), Request::Help);
    assert_eq!(request(&flags(None)), Request::Help);
    assert_eq!(request(&flags(Some(CliName::Help))), Request::Help);
    let mut v = flags(None);
    v.version = true;
    assert_eq!(request(&v), Request::Version);
}

#[test]
fn a_command_is_run_with_its_log_type() {
    let mut f = flags(Some(CliName::Multiple));
    f.files = true;
    f.count = true;
    assert_eq!(request(&f), Request::Run { op: MultipleByFile, log_type: LogType::Files });
    let f = flags(Some(CliName::Diff));
    assert_eq!(request(&f), Request::Run { op: Diff, log_type: LogType::NoCount });
}

#[test]
fn a_single_operand_is_optimized_only_where_the_output_is_the_same() {
    assert_eq!(operation_for(Intersect, 1), Some(Union));
    assert_eq!(operation_for(Diff, 1), Some(Union));
    assert_eq!(operation_for(SingleByFile, 1), Some(Union));
    assert_eq!(operation_for(Union, 1), Some(Union));
    assert_eq!(operation_for(MultipleByFile, 1), None);
    assert_eq!(operation_for(Single, 1), Some(Single));
    assert_eq!(operation_for(Multiple, 1), Some(Multiple));
    for op in [Intersect, Union, Diff, Single, SingleByFile, Multiple, MultipleByFile] {
        assert_eq!(operation_for(op, 2), Some(op));
        assert_eq!(operation_for(op, 0), Some(op));
    }
}
