use zet::args::OpName::{self, Diff, Intersect, Multiple, MultipleByFile, Single, SingleByFile, Union};
use zet::calculate::exec;

fn calc(operation: OpName, operands: &[&[u8]]) -> String {
    let operands: Vec<Vec<u8>> = operands.iter().map(|s| s.to_vec()).collect();
    let answer = exec(operation, &operands).unwrap();
    String::from_utf8(answer).unwrap()
}

#[test]
fn given_a_single_argument_all_ops_but_multiple_return_its_lines_in_order_without_dups() {
    let arg: Vec<&[u8]> = vec![b"xxx\nabc\nxxx\nyyy\nxxx\nabc\n"];
    let uniq = "xxx\nabc\nyyy\n";
    let empty = "";
    for op in &[Intersect, Union, Diff, Single, Multiple] {
        let result = calc(*op, &arg);
        let expected = if *op == Multiple { empty } else { uniq };
        assert_eq!(result, *expected, "for {:?}", op);
    }
}

#[test]
fn calculate_results_for_each_operation() {
    let args: Vec<&[u8]> = vec![
        b"xyz\nabc\nxy\nxz\nx\n", // Strings containing "x" (and "abc")
        b"xyz\nabc\nxy\nyz\ny\n", // Strings containing "y" (and "abc")
        b"xyz\nabc\nxz\nyz\nz\n", // Strings containing "z" (and "abc")
    ];
    assert_eq!(calc(Union, &args), "xyz\nabc\nxy\nxz\nx\nyz\ny\nz\n", "for {:?}", Union);
    assert_eq!(calc(Intersect, &args), "xyz\nabc\n", "for {:?}", Intersect);
    assert_eq!(calc(Diff, &args), "x\n", "for {:?}", Diff);
    assert_eq!(calc(Single, &args), "x\ny\nz\n", "for {:?}", Single);
    assert_eq!(calc(Multiple, &args), "xyz\nabc\nxy\nxz\nyz\n", "for {:?}", Multiple);
}

#[test]
fn exec_with_no_operands_gives_nothing() {
    let none: Vec<Vec<u8>> = Vec::new();
    for op in [Intersect, Union, Diff, Single, SingleByFile, Multiple, MultipleByFile] {
        assert_eq!(exec(op, &none), Ok(Vec::new()), "for {op:?}");
    }
}

#[test]
fn exec_counts_operands_for_single_and_multiple() {
    // "y" occurs twice, but in one operand only
    let args: Vec<&[u8]> = vec![b"x\nw\n", b"y\ny\nw\n", b"z\n"];
    assert_eq!(calc(Single, &args), "x\ny\nz\n");
    assert_eq!(calc(SingleByFile, &args), "x\ny\nz\n");
    assert_eq!(calc(Multiple, &args), "w\n");
    assert_eq!(calc(MultipleByFile, &args), "w\n");
}

#[test]
fn exec_intersect_drops_a_line_missing_from_a_middle_operand() {
    let args: Vec<&[u8]> = vec![b"a\nb\nc\n", b"c\na\n", b"b\nc\na\na\n"];
    assert_eq!(calc(Intersect, &args), "a\nc\n");
    let args: Vec<&[u8]> = vec![b"a\nb\n", b"b\n", b"a\n"];
    assert_eq!(calc(Intersect, &args), "");
}

#[test]
fn exec_diff_keeps_lines_of_the_first_operand_only() {
    let args: Vec<&[u8]> = vec![b"a\nb\nc\nb\n", b"c\nd\n", b"e\na\n"];
    assert_eq!(calc(Diff, &args), "b\n");
}

#[test]
fn exec_keeps_the_byte_order_mark_and_line_terminator_of_the_first_operand() {
    let args: Vec<&[u8]> = vec![b"\xEF\xBB\xBFa\r\nb\n", b"c\r\na\n"];
    assert_eq!(calc(Union, &args).as_bytes(), b"\xEF\xBB\xBFa\r\nb\r\nc\r\n");
}

#[test]
fn exec_decodes_a_utf16_first_operand() {
    let mut first = b"\xff\xfe".to_vec();
    for b in b"a\nb\n" {
        first.push(*b);
        first.push(0);
    }
    let operands = vec![first, b"b\nc\n".to_vec()];
    let answer = exec(Union, &operands).unwrap();
    assert_eq!(answer, b"\xEF\xBB\xBFa\nb\nc\n".to_vec());
}
