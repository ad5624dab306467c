use zet::help::{entry_lines, help_lines, lines_of_text, parse, HelpItem};
use zet::style::{always, never};
use zet::styles::Shade;

const TEXT: &str = "Usage: zet [OPTIONS] <COMMAND> [FILES]...\nTake the union, intersection, etc of files\n\nCommands:\n  union      Print the lines present in any file   \n  intersect  Print the lines present in every file\n\nOptions:\n  -c, --count  Show counts\n";

fn sections(text: &str) -> Vec<(String, Vec<(String, String)>)> {
    parse(text)
        .iter()
        .filter_map(|item| match item {
            HelpItem::Section(s) => Some((
                s.title.to_string(),
                s.entries.iter().map(|e| (e.item.content().to_string(), e.caption.to_string())).collect(),
            )),
            _ => None,
        })
        .collect()
}

#[test]
fn text_is_split_into_lines_as_str_lines_does() {
    let text = "a\r\nb\n\nc\r";
    assert_eq!(lines_of_text(text), text.lines().collect::<Vec<_>>());
    assert_eq!(lines_of_text("x\ny\n"), vec!["x", "y"]);
    assert_eq!(lines_of_text(""), Vec::<&str>::new());
}

#[test]
fn parse_finds_the_usage_paragraphs_and_sections() {
    let help = parse(TEXT);
    assert_eq!(help.len(), 6);
    assert!(matches!(help[0], HelpItem::Usage(" [OPTIONS] <COMMAND> [FILES]...")));
    assert!(matches!(help[1], HelpItem::Paragraph("Take the union, intersection, etc of files")));
    assert!(matches!(help[2], HelpItem::Paragraph("")));
    assert!(matches!(help[4], HelpItem::Paragraph("")));
    let found = sections(TEXT);
    assert_eq!(found.len(), 2);
    assert_eq!(found[0].0, "Commands:");
    assert_eq!(
        found[0].1,
        vec![
            ("  union      ".to_string(), "Print the lines present in any file".to_string()),
            ("  intersect  ".to_string(), "Print the lines present in every file".to_string()),
        ]
    );
    assert_eq!(found[1].0, "Options:");
    assert_eq!(found[1].1, vec![("  -c, --count  ".to_string(), "Show counts".to_string())]);
}

#[test]
fn an_entry_is_split_after_its_last_double_space() {
    let found = sections("Flags:\n  --a   b  c d\n");
    assert_eq!(found[0].1, vec![("  --a   b  ".to_string(), "c d".to_string())]);
}

#[test]
fn help_lines_show_name_version_usage_and_entries() {
    let help = parse(TEXT);
    let lines = help_lines(&never(), &help, "0.2.6", 100);
    assert_eq!(
        lines,
        vec![
            "zet 0.2.6",
            "Usage: zet [OPTIONS] <COMMAND> [FILES]...",
            "Take the union, intersection, etc of files",
            "",
            "Commands:",
            "  union      Print the lines present in any file",
            "  intersect  Print the lines present in every file",
            "",
            "Options:",
            "  -c, --count  Show counts",
        ]
    );
    let colored = help_lines(&always(), &help, "0.2.6", 100);
    assert_eq!(colored[0], "\x1B[32;1mzet\x1B[m 0.2.6");
    assert_eq!(colored[1], "\x1B[33mUsage: \x1B[m\x1B[32;1mzet\x1B[m [OPTIONS] <COMMAND> [FILES]...");
    assert_eq!(colored[4], "\x1B[33mCommands:\x1B[m");
    assert_eq!(colored[5], "\x1B[32m  union      \x1B[mPrint the lines present in any file");
}

#[test]
fn paragraphs_are_wrapped_to_the_width() {
    let help = parse("one two three four\n");
    let lines = help_lines(&never(), &help, "1", 9);
    assert_eq!(lines, vec!["zet 1", "one two", "three", "four"]);
}

#[test]
fn entries_too_wide_for_the_line_take_the_less_bad_layout() {
    let text = "Commands:\n  union  Print the lines present in any of the files given\n";
    let help = parse(text);
    let section = match &help[0] {
        HelpItem::Section(s) => s,
        _ => panic!("expected a section"),
    };
    let width = 30;
    let caption = "Print the lines present in any of the files given";
    let same: Vec<String> = textwrap::wrap(
        caption,
        textwrap::Options::new(width).initial_indent("  union  ").subsequent_indent("             "),
    )
    .into_iter()
    .map(|l| l.into_owned())
    .collect();
    let mut next: Vec<String> = vec!["  union  ".to_string()];
    next.extend(
        textwrap::wrap(caption, textwrap::Options::new(width).initial_indent("      ").subsequent_indent("      "))
            .into_iter()
            .map(|l| l.into_owned()),
    );
    let badness = |groups: &[usize]| -> usize { groups.iter().map(|&n| n + 2 * n.saturating_sub(2)).sum() };
    let expected = if badness(&[same.len()]) <= badness(&[1, next.len() - 1]) { same } else { next };
    let lines = entry_lines(section, &never(), width);
    assert_eq!(lines, expected);
    assert!(lines.len() > 1);
}

#[test]
fn parsed_items_are_shown_in_green() {
    let help = parse(TEXT);
    let mut seen = 0;
    for item in &help {
        if let HelpItem::Section(s) = item {
            for e in &s.entries {
                assert_eq!(e.item.prefix(), Shade::Green);
                seen += 1;
            }
        }
    }
    assert_eq!(seen, 3);
}
