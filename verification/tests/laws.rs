use zet::args::operation_for;
use zet::args::OpName::{self, Diff, Intersect, Multiple, MultipleByFile, Single, SingleByFile, Union};
use zet::calculate::exec;
use zet::operations::{calculate, LogType};

const OPS: [OpName; 7] = [Intersect, Union, Diff, Single, SingleByFile, Multiple, MultipleByFile];

fn lines_of(op: OpName, log_type: LogType, first: &[u8], rest: &[&[u8]]) -> Vec<String> {
    let rest: Vec<Vec<u8>> = rest.iter().map(|r| r.to_vec()).collect();
    let out = calculate(op, log_type, first, &rest).unwrap();
    String::from_utf8(out).unwrap().lines().map(|l| l.to_string()).collect()
}

#[test]
fn each_output_line_occurs_once_in_the_order_of_the_union() {
    let first: &[u8] = b"b\na\nb\nc\n";
    let rest: [&[u8]; 2] = [b"c\nd\na\nd\n", b"e\nb\nd\n"];
    let union = lines_of(Union, LogType::NoCount, first, &rest);
    assert_eq!(union, vec!["b", "a", "c", "d", "e"]);
    for op in OPS {
        let lines = lines_of(op, LogType::NoCount, first, &rest);
        let mut at = 0;
        for line in &lines {
            let found = union[at..].iter().position(|u| u == line);
            assert!(found.is_some(), "{op:?} gives {line} out of the union's order");
            at += found.unwrap() + 1;
        }
    }
    assert_eq!(lines_of(Intersect, LogType::NoCount, first, &rest), Vec::<String>::new());
    assert_eq!(lines_of(Diff, LogType::NoCount, first, &rest), Vec::<String>::new());
    assert_eq!(lines_of(SingleByFile, LogType::NoCount, first, &rest), vec!["e"]);
    assert_eq!(lines_of(Single, LogType::NoCount, first, &rest), vec!["e"]);
    assert_eq!(lines_of(MultipleByFile, LogType::NoCount, first, &rest), vec!["b", "a", "c", "d"]);
}

#[test]
fn counts_are_occurrences_and_operands_holding_the_line() {
    let first: &[u8] = b"a\na\nb\n";
    let rest: [&[u8]; 2] = [b"a\nc\n", b"c\nc\na\n"];
    assert_eq!(lines_of(Union, LogType::Lines, first, &rest), vec!["4 a", "1 b", "3 c"]);
    assert_eq!(lines_of(Union, LogType::Files, first, &rest), vec!["3 a", "1 b", "2 c"]);
}

#[test]
fn the_optimized_operation_for_one_operand_gives_the_same_output() {
    let first: &[u8] = b"a3\nb2\nc1\na3\na3\nb2\nd1\n";
    for log_type in [LogType::NoCount, LogType::Lines, LogType::Files] {
        for op in OPS {
            let out = calculate(op, log_type, first, &[]).unwrap();
            match operation_for(op, 1) {
                Some(o) => assert_eq!(calculate(o, log_type, first, &[]).unwrap(), out, "{op:?}"),
                None => assert!(out.is_empty(), "{op:?}"),
            }
        }
    }
}

#[test]
fn exec_agrees_with_calculate_counting_operands() {
    let first: &[u8] = b"x\ny\ny\nz\n";
    let rest: Vec<Vec<u8>> = vec![b"y\nw\n".to_vec(), b"w\nv\nx\n".to_vec()];
    let mut operands = vec![first.to_vec()];
    operands.extend(rest.iter().cloned());
    let by_file = |op| match op {
        Single => SingleByFile,
        Multiple => MultipleByFile,
        other => other,
    };
    for op in OPS {
        let expected = calculate(by_file(op), LogType::NoCount, first, &rest).unwrap();
        assert_eq!(exec(op, &operands).unwrap(), expected, "{op:?}");
    }
}

#[test]
fn a_byte_order_mark_on_the_first_operand_only_prefixes_the_output() {
    let text: &[u8] = b"a\r\nb\n";
    let mut marked = b"\xEF\xBB\xBF".to_vec();
    marked.extend_from_slice(text);
    let rest = vec![b"b\nc\n".to_vec()];
    for op in OPS {
        let plain = calculate(op, LogType::NoCount, text, &rest).unwrap();
        let mut expected = b"\xEF\xBB\xBF".to_vec();
        expected.extend_from_slice(&plain);
        assert_eq!(calculate(op, LogType::NoCount, &marked, &rest).unwrap(), expected, "{op:?}");
    }
}

#[test]
fn line_endings_are_ignored_when_lines_are_compared() {
    let first: &[u8] = b"a\r\nb\n";
    let rest: [&[u8]; 2] = [b"a\nb\r\n", b"b\na"];
    assert_eq!(lines_of(Intersect, LogType::NoCount, first, &rest), vec!["a", "b"]);
    let out = calculate(Union, LogType::NoCount, first, &[b"a\nc".to_vec()]).unwrap();
    assert_eq!(out, b"a\r\nb\r\nc\r\n".to_vec());
}

#[test]
fn the_byte_order_mark_is_kept_when_counts_select_no_line() {
    let first: &[u8] = b"\xEF\xBB\xBFa\n";
    let rest = vec![b"a\n".to_vec()];
    for log_type in [LogType::NoCount, LogType::Lines, LogType::Files] {
        assert_eq!(calculate(Diff, log_type, first, &rest).unwrap(), b"\xEF\xBB\xBF".to_vec(), "{log_type:?}");
    }
    assert_eq!(calculate(Diff, LogType::Lines, b"a\n", &rest).unwrap(), Vec::<u8>::new());
}

#[test]
fn later_operands_are_decoded_and_lose_their_byte_order_mark() {
    let mut utf16 = b"\xfe\xff".to_vec();
    for b in b"b\nc\n" {
        utf16.push(0);
        utf16.push(*b);
    }
    let rest = vec![utf16, b"\xEF\xBB\xBFa\nd\n".to_vec()];
    let out = calculate(Union, LogType::NoCount, b"a\nb\n", &rest).unwrap();
    assert_eq!(out, b"a\nb\nc\nd\n".to_vec());
    let operands = vec![b"a\nb\n".to_vec(), rest[0].clone(), rest[1].clone()];
    assert_eq!(exec(Union, &operands).unwrap(), b"a\nb\nc\nd\n".to_vec());
}

#[test]
fn the_last_line_of_an_operand_need_not_end_in_a_newline() {
    let first: &[u8] = b"a\nb\nc\n";
    let ended = vec![b"b\nd".to_vec(), b"c\ne\n".to_vec()];
    let trimmed = vec![b"b\nd\n".to_vec(), b"c\ne".to_vec()];
    for log_type in [LogType::NoCount, LogType::Lines, LogType::Files] {
        for op in OPS {
            let a = calculate(op, log_type, first, &ended).unwrap();
            assert_eq!(calculate(op, log_type, first, &trimmed).unwrap(), a, "{op:?}");
            assert_eq!(calculate(op, log_type, b"a\nb\nc", &ended).unwrap(), a, "{op:?}");
        }
    }
    assert_eq!(calculate(Union, LogType::NoCount, first, &trimmed).unwrap(), b"a\nb\nc\nd\ne\n".to_vec());
}

#[test]
fn a_final_carriage_return_is_part_of_the_last_line() {
    let out = calculate(Union, LogType::NoCount, b"a\n", &[b"a\r".to_vec()]).unwrap();
    assert_eq!(out, b"a\na\r\n".to_vec());
    let out = calculate(Union, LogType::NoCount, b"a\n", &[b"a\r\n".to_vec()]).unwrap();
    assert_eq!(out, b"a\n".to_vec());
}
