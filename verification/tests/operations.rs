use indexmap::IndexMap;
use zet::args::OpName::{self, Diff, Intersect, Multiple, MultipleByFile, Single, SingleByFile, Union};
use zet::lines::{BOM_0, BOM_1, BOM_2};
use zet::operations::{calculate, Bookkeeping, Lines, Log, LogType};
use zet::set::ZetSet;

type V8<'a> = [&'a [u8]];

fn run(operation: OpName, log_type: LogType, operands: &V8) -> Vec<u8> {
    let first = operands[0];
    let rest: Vec<Vec<u8>> = operands[1..].iter().map(|o| o.to_vec()).collect();
    calculate(operation, log_type, first, &rest).unwrap()
}

fn calc(operation: OpName, operands: &V8) -> String {
    String::from_utf8(run(operation, LogType::NoCount, operands)).unwrap()
}

#[test]
fn given_a_single_argument_all_most_ops_return_input_lines_in_order_without_dups() {
    let arg: Vec<&[u8]> = vec![b"xxx\nabc\nxxx\nyyy\nxxx\nabc\n"];
    let uniq = "xxx\nabc\nyyy\n";
    let solo = "yyy\n";
    let multi = "xxx\nabc\n";
    let empty = "";
    for &op in &[Intersect, Union, Diff, Single, SingleByFile, Multiple, MultipleByFile] {
        let result = calc(op, &arg);
        let expected = if op == Single {
            solo
        } else if op == Multiple {
            multi
        } else if op == MultipleByFile {
            empty
        } else {
            uniq
        };
        assert_eq!(result, *expected, "for {op:?}");
    }
}

#[test]
fn operations_results_for_each_operation() {
    let args: Vec<&[u8]> = vec![
        b"xyz\nabc\nxy\nxz\nx\n",    // Strings containing "x" (and "abc")
        b"xyz\nabc\nxy\nyz\ny\ny\n", // Strings containing "y" (and "abc")
        b"xyz\nabc\nxz\nyz\nz\n",    // Strings containing "z" (and "abc")
    ];
    assert_eq!(calc(Union, &args), "xyz\nabc\nxy\nxz\nx\nyz\ny\nz\n", "for {Union:?}");
    assert_eq!(calc(Intersect, &args), "xyz\nabc\n", "for {Intersect:?}");
    assert_eq!(calc(Diff, &args), "x\n", "for {Diff:?}");
    assert_eq!(calc(Single, &args), "x\nz\n", "for {Single:?}");
    assert_eq!(calc(SingleByFile, &args), "x\ny\nz\n", "for {SingleByFile:?}");
    assert_eq!(calc(Multiple, &args), "xyz\nabc\nxy\nxz\nyz\ny\n", "for {Multiple:?}");
    assert_eq!(calc(MultipleByFile, &args), "xyz\nabc\nxy\nxz\nyz\n", "for {MultipleByFile:?}");
}

// Test `LogType::Lines` and `LogType::Files' output
type CountMap = IndexMap<String, u32>;
fn counted(operation: OpName, count: LogType, operands: &V8) -> CountMap {
    let answer = run(operation, count, operands);
    let mut result = CountMap::new();
    for line in String::from_utf8(answer).unwrap().lines() {
        let line = line.trim_start();
        let v: Vec<_> = line.splitn(2, ' ').collect();
        let count: u32 = v[0].parse().unwrap();
        result.insert(v[1].to_string(), count);
    }
    result
}
fn lines(operands: &V8) -> CountMap {
    let mut result = CountMap::new();
    for &operand in operands {
        let operand = String::from_utf8(operand.to_vec()).unwrap();
        for line in operand.lines() {
            result.entry(line.to_string()).and_modify(|c| *c += 1).or_insert(1);
        }
    }
    result
}
fn files(operands: &V8) -> CountMap {
    let mut result = CountMap::new();
    for &operand in operands {
        let operand = String::from_utf8(operand.to_vec()).unwrap();
        let mut seen = CountMap::new();
        for line in operand.lines() {
            seen.insert(line.to_string(), 1);
        }
        for line in seen.into_keys() {
            result.entry(line).and_modify(|c| *c += 1).or_insert(1);
        }
    }
    result
}
#[test]
fn check_line_count() {
    let args: Vec<&[u8]> = vec![
        b"xyz\nabc\nxy\nxz\nx\n",    // Strings containing "x" (and "abc")
        b"xyz\nabc\nxy\nyz\ny\ny\n", // Strings containing "y" (and "abc")
        b"xyz\nabc\nxz\nyz\nz\n",    // Strings containing "z" (and "abc")
    ];
    let line_count = lines(&args);
    for &op in &[Intersect, Union, Diff, Single, SingleByFile, Multiple, MultipleByFile] {
        let result = counted(op, LogType::Lines, &args);
        for line in result.keys() {
            assert_eq!(result.get(line), line_count.get(line));
        }
    }
}
#[test]
fn check_file_count() {
    let args: Vec<&[u8]> = vec![
        b"xyz\nabc\nxy\nxz\nx\n",    // Strings containing "x" (and "abc")
        b"xyz\nabc\nxy\nyz\ny\ny\n", // Strings containing "y" (and "abc")
        b"xyz\nabc\nxz\nyz\nz\n",    // Strings containing "z" (and "abc")
    ];
    let file_count = files(&args);
    for &op in &[Intersect, Union, Diff, Single, SingleByFile, Multiple, MultipleByFile] {
        let result = counted(op, LogType::Files, &args);
        for line in result.keys() {
            assert_eq!(result.get(line), file_count.get(line));
        }
    }
}

#[test]
fn line_count_update_with_uses_saturating_increment() {
    let mut changer = Lines(u32::MAX - 2);
    let other = Lines::new();
    assert_eq!(changer.retention_value(), u32::MAX - 2);
    changer.update_with(other);
    assert_eq!(changer.retention_value(), u32::MAX - 1);
    changer.update_with(other);
    assert_eq!(changer.retention_value(), u32::MAX);
    changer.update_with(other);
    assert_eq!(changer.retention_value(), u32::MAX);
}

#[test]
fn log_lines_logs_the_string_overflow_for_u32_max() {
    let zet = ZetSet::<Log<Lines>>::new(b"a\na\na\nb\n", Log(Lines(u32::MAX - 1)));
    let result = Log::<Lines>::output_zet_set(&zet);
    let result = String::from_utf8(result).unwrap();
    assert_eq!(result, format!(" overflow  a\n{} b\n", u32::MAX - 1));
}

const UTF8_BOM: &str = "\u{FEFF}";

#[test]
fn set_utf8_bom_is_correct() {
    assert_eq!([BOM_0, BOM_1, BOM_2], UTF8_BOM.as_bytes());
}

#[test]
fn io_utf8_bom_is_correct() {
    assert_eq!([BOM_0, BOM_1, BOM_2], UTF8_BOM.as_bytes());
}
