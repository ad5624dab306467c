//! The help text: its parts (the usage line, paragraphs, and sections of
//! items with their captions), read from the text the program carries.
use crate::outside::{wrap_text, wrapped};
use crate::style::StyleSheet;
use crate::styles::{as_item, leading_spaces, Shade, StyledStr};
use vstd::prelude::*;
use vstd::string::{StrSliceExecFns, StringExecFns, StringSliceAdditionalSpecFns};

verus! {

/// A part of the help text.
pub enum HelpItem<'a> {
    /// The usage line's arguments
    Usage(&'a str),
    /// A line of text, to be wrapped
    Paragraph(&'a str),
    /// A titled list of items
    Section(Section<'a>),
}

/// A title and the items under it.
pub struct Section<'a> {
    pub title: &'a str,
    pub entries: Vec<Entry<'a>>,
}

/// An item (a command or flag) and its caption.
pub struct Entry<'a> {
    pub item: StyledStr<'a>,
    pub caption: &'a str,
}

/// What a part of the help text holds.
pub enum HelpPart {
    Usage(Seq<char>),
    Paragraph(Seq<char>),
    Section(Seq<char>, Seq<(Seq<char>, Seq<char>)>),
}

/// What an entry holds: its item's text and its caption.
pub open spec fn entry_part(e: Entry) -> (Seq<char>, Seq<char>) {
    (e.item.text()@, e.caption@)
}

/// What the entries hold.
pub open spec fn entry_parts(entries: Seq<Entry>) -> Seq<(Seq<char>, Seq<char>)> {
    entries.map_values(|e: Entry| entry_part(e))
}

/// What a part of the help text holds.
pub open spec fn part_of(item: HelpItem) -> HelpPart {
    match item {
        HelpItem::Usage(s) => HelpPart::Usage(s@),
        HelpItem::Paragraph(s) => HelpPart::Paragraph(s@),
        HelpItem::Section(sec) => HelpPart::Section(sec.title@, entry_parts(sec.entries@)),
    }
}

/// Every entry of `entries` shows its item in green.
pub open spec fn green_entries(entries: Seq<Entry>) -> bool {
    forall|k: int| 0 <= k < entries.len() ==> (#[trigger] entries[k]).item.shade() == Shade::Green
}

/// Every section of `items` shows its items in green.
pub open spec fn green_items(items: Seq<HelpItem>) -> bool {
    forall|k: int|
        0 <= k < items.len() ==> match #[trigger] items[k] {
            HelpItem::Section(sec) => green_entries(sec.entries@),
            _ => true,
        }
}

/// What the parts of the help text hold.
pub open spec fn parts_of(items: Seq<HelpItem>) -> Seq<HelpPart> {
    items.map_values(|i: HelpItem| part_of(i))
}

/// The index of the first `c` in `s`, or the length of `s` if there is none.
pub open spec fn find_char(s: Seq<char>, c: char) -> nat
    decreases s.len(),
{
    if s.len() == 0 {
        0
    } else if s[0] == c {
        0
    } else {
        1 + find_char(s.drop_first(), c)
    }
}

/// `s` without a `\r` that ends it.
pub open spec fn strip_cr_char(s: Seq<char>) -> Seq<char> {
    if s.len() > 0 && s.last() == '\r' {
        s.drop_last()
    } else {
        s
    }
}

/// The lines of `s`, as `str::lines` gives them: the pieces ended by `\n`,
/// each without a `\r` before the `\n`, and what follows the last `\n` unless
/// it is empty.
pub open spec fn text_lines(s: Seq<char>) -> Seq<Seq<char>>
    decreases s.len(),
{
    let i = find_char(s, '\n');
    if i < s.len() {
        seq![strip_cr_char(s.take(i as int))] + text_lines(s.skip(i + 1 as int))
    } else if s.len() == 0 {
        Seq::empty()
    } else {
        seq![s]
    }
}

/// Whether `c` is white space, as `char::is_whitespace` has it.
pub open spec fn is_white(c: char) -> bool {
    ||| '\t' <= c <= '\r'
    ||| c == ' '
    ||| c == '\u{85}'
    ||| c == '\u{a0}'
    ||| c == '\u{1680}'
    ||| '\u{2000}' <= c <= '\u{200a}'
    ||| c == '\u{2028}'
    ||| c == '\u{2029}'
    ||| c == '\u{202f}'
    ||| c == '\u{205f}'
    ||| c == '\u{3000}'
}

/// `s` without the white space that ends it.
pub open spec fn trim_end(s: Seq<char>) -> Seq<char>
    decreases s.len(),
{
    if s.len() > 0 && is_white(s.last()) {
        trim_end(s.drop_last())
    } else {
        s
    }
}

/// The start of the last two consecutive spaces in `s`, if any.
pub open spec fn last_double_space(s: Seq<char>) -> Option<nat>
    decreases s.len(),
{
    if s.len() < 2 {
        None
    } else if s[s.len() - 2] == ' ' && s[s.len() - 1] == ' ' {
        Some((s.len() - 2) as nat)
    } else {
        last_double_space(s.drop_last())
    }
}

/// The prefix of the usage line.
pub open spec fn usage_prefix() -> Seq<char> {
    seq!['U', 's', 'a', 'g', 'e', ':', ' ']
}

/// `s` starts with `p`.
pub open spec fn starts_with(s: Seq<char>, p: Seq<char>) -> bool {
    s.len() >= p.len() && s.take(p.len() as int) == p
}

/// Where the reading of the help text stands: the parts read so far, the
/// section being read (its title and entries), if any, and whether every
/// entry so far had two spaces between item and caption.
pub struct HelpScan {
    pub parts: Seq<HelpPart>,
    pub open: Option<(Seq<char>, Seq<(Seq<char>, Seq<char>)>)>,
    pub ok: bool,
}

/// Reading one more line of the help text. Outside a section, a line is the
/// usage line (its arguments are what follows the program name), starts a
/// section (it ends with `:`; it is the title), or is a paragraph. Inside a
/// section, a line blank but for white space ends the section and stands for
/// an empty paragraph; any other line, without its final white space, is an
/// entry split after its last two consecutive spaces.
pub open spec fn scan_line(st: HelpScan, line: Seq<char>) -> HelpScan {
    if !st.ok {
        st
    } else {
        match st.open {
            None => {
                if starts_with(line, usage_prefix()) {
                    let rest = line.skip(7);
                    HelpScan { parts: st.parts.push(HelpPart::Usage(rest.skip(find_char(rest, ' ') as int))), ..st }
                } else if line.len() > 0 && line.last() == ':' {
                    HelpScan { open: Some((line, Seq::empty())), ..st }
                } else {
                    HelpScan { parts: st.parts.push(HelpPart::Paragraph(line)), ..st }
                }
            },
            Some((title, entries)) => {
                let e = trim_end(line);
                if e.len() == 0 {
                    HelpScan {
                        parts: st.parts.push(HelpPart::Section(title, entries)).push(
                            HelpPart::Paragraph(Seq::empty()),
                        ),
                        open: None,
                        ok: true,
                    }
                } else {
                    match last_double_space(e) {
                        None => HelpScan { ok: false, ..st },
                        Some(sp) => HelpScan {
                            open: Some((title, entries.push((e.take(sp + 2 as int), e.skip(sp + 2 as int))))),
                            ..st
                        },
                    }
                }
            },
        }
    }
}

/// Reading the lines `lines` of the help text.
pub open spec fn scan(lines: Seq<Seq<char>>) -> HelpScan
    decreases lines.len(),
{
    if lines.len() == 0 {
        HelpScan { parts: Seq::empty(), open: None, ok: true }
    } else {
        scan_line(scan(lines.drop_last()), lines.last())
    }
}

/// The help text can be read: every entry has two spaces between its item
/// and its caption.
pub open spec fn well_formed(text: Seq<char>) -> bool {
    scan(text_lines(text)).ok
}

/// The parts of the help text `text`: those read, and the section being read
/// at the end, if any.
pub open spec fn help_parts(text: Seq<char>) -> Seq<HelpPart> {
    let st = scan(text_lines(text));
    match st.open {
        Some((title, entries)) => st.parts.push(HelpPart::Section(title, entries)),
        None => st.parts,
    }
}

/// The characters of `s`.
fn chars_of(s: &str) -> (r: Vec<char>)
    ensures
        r@ == s@,
{
    let n = s.unicode_len();
    let mut r: Vec<char> = Vec::new();
    let mut i: usize = 0;
    while i < n
        invariant
            n == s@.len(),
            i <= n,
            r@ == s@.take(i as int),
        decreases n - i,
    {
        r.push(s.get_char(i));
        i = i + 1;
        assert(r@ =~= s@.take(i as int));
    }
    assert(s@.take(n as int) =~= s@);
    r
}

/// `find_char` is the index of the first `c`, or the length.
proof fn lemma_find_char(s: Seq<char>, c: char, i: int)
    requires
        0 <= i <= s.len(),
        forall|j: int| 0 <= j < i ==> s[j] != c,
        i == s.len() || s[i] == c,
    ensures
        find_char(s, c) == i,
    decreases s.len(),
{
    if s.len() > 0 && i > 0 {
        assert forall|j: int| 0 <= j < i - 1 implies s.drop_first()[j] != c by {
            assert(s.drop_first()[j] == s[j + 1]);
        }
        if i < s.len() {
            assert(s.drop_first()[i - 1] == s[i]);
        }
        lemma_find_char(s.drop_first(), c, i - 1);
    }
}

/// The index of the first `c` at or after `from` in `chars`, or the length.
fn find_from(chars: &Vec<char>, c: char, from: usize) -> (r: usize)
    requires
        from <= chars@.len(),
    ensures
        r == from + find_char(chars@.skip(from as int), c),
        from <= r <= chars@.len(),
{
    let mut i = from;
    while i < chars.len() && chars[i] != c
        invariant
            from <= i <= chars@.len(),
            forall|j: int| from <= j < i ==> chars@[j] != c,
        decreases chars@.len() - i,
    {
        i = i + 1;
    }
    proof {
        let s = chars@.skip(from as int);
        assert forall|j: int| 0 <= j < i - from implies s[j] != c by {
            assert(s[j] == chars@[from + j]);
        }
        if i < chars@.len() {
            assert(s[i - from] == chars@[i as int]);
        }
        lemma_find_char(s, c, i - from);
    }
    i
}

/// The lines of `text`, as `str::lines` gives them.
pub fn lines_of_text<'a>(text: &'a str) -> (r: Vec<&'a str>)
    ensures
        r@.map_values(|l: &str| l@) == text_lines(text@),
{
    let chars = chars_of(text);
    let n = chars.len();
    let mut lines: Vec<&'a str> = Vec::new();
    let mut start: usize = 0;
    assert(text@.skip(0) =~= text@);
    assert(lines@.map_values(|l: &str| l@) + text_lines(text@) =~= text_lines(text@));
    while start < n
        invariant
            n == chars@.len(),
            chars@ == text@,
            start <= n,
            lines@.map_values(|l: &str| l@) + text_lines(text@.skip(start as int)) == text_lines(text@),
        decreases n - start,
    {
        let ghost rest = text@.skip(start as int);
        let end = find_from(&chars, '\n', start);
        if end < n {
            let stop = if end > start && chars[end - 1] == '\r' {
                end - 1
            } else {
                end
            };
            let line = text.substring_char(start, stop);
            proof {
                assert(rest.take(end - start) =~= text@.subrange(start as int, end as int));
                if end > start && chars@[end - 1] == '\r' {
                    assert(rest.take(end - start).drop_last() =~= text@.subrange(start as int, stop as int));
                }
                assert(rest.skip(end - start + 1) =~= text@.skip(end + 1));
                assert(line@ == strip_cr_char(rest.take(end - start)));
            }
            let ghost before = lines@.map_values(|l: &str| l@);
            lines.push(line);
            assert(lines@.map_values(|l: &str| l@) =~= before.push(line@));
            start = end + 1;
            assert(before.push(line@) + text_lines(text@.skip(start as int)) =~= before + text_lines(rest));
        } else {
            let line = text.substring_char(start, n);
            assert(line@ =~= rest);
            let ghost before = lines@.map_values(|l: &str| l@);
            lines.push(line);
            assert(lines@.map_values(|l: &str| l@) =~= before.push(line@));
            start = n;
            assert(text@.skip(n as int) =~= Seq::<char>::empty());
            assert(text_lines(Seq::<char>::empty()) =~= Seq::<Seq<char>>::empty());
            assert(before.push(line@) + text_lines(text@.skip(start as int)) =~= before + text_lines(rest));
        }
    }
    proof {
        assert(text@.skip(n as int) =~= Seq::<char>::empty());
        assert(text_lines(Seq::<char>::empty()) =~= Seq::<Seq<char>>::empty());
        assert(lines@.map_values(|l: &str| l@) + Seq::<Seq<char>>::empty() =~= lines@.map_values(
            |l: &str| l@,
        ));
    }
    lines
}

/// Whether `c` is white space.
fn is_white_char(c: char) -> (r: bool)
    ensures
        r == is_white(c),
{
    ('\t' <= c && c <= '\r') || c == ' ' || c == '\u{85}' || c == '\u{a0}' || c == '\u{1680}' || (
    '\u{2000}' <= c && c <= '\u{200a}') || c == '\u{2028}' || c == '\u{2029}' || c == '\u{202f}'
        || c == '\u{205f}' || c == '\u{3000}'
}

/// `s` without the white space that ends it.
fn trim_end_str<'a>(s: &'a str) -> (r: &'a str)
    ensures
        r@ == trim_end(s@),
{
    let chars = chars_of(s);
    let mut k = chars.len();
    assert(s@.take(k as int) =~= s@);
    while k > 0 && is_white_char(chars[k - 1])
        invariant
            chars@ == s@,
            k <= chars@.len(),
            trim_end(s@) == trim_end(s@.take(k as int)),
        decreases k,
    {
        assert(s@.take(k as int).drop_last() =~= s@.take(k - 1));
        k = k - 1;
    }
    let r = s.substring_char(0, k);
    assert(r@ =~= s@.take(k as int));
    r
}

/// The start of the last two consecutive spaces in `chars`, if any.
fn last_double_space_in(chars: &Vec<char>) -> (r: Option<usize>)
    ensures
        r matches Some(i) ==> last_double_space(chars@) == Some(i as nat) && i + 2 <= chars@.len(),
        r is None ==> last_double_space(chars@) is None,
{
    let mut k = chars.len();
    assert(chars@.take(k as int) =~= chars@);
    while k >= 2
        invariant
            k <= chars@.len(),
            last_double_space(chars@) == last_double_space(chars@.take(k as int)),
        decreases k,
    {
        let ghost t = chars@.take(k as int);
        assert(t[k - 2] == chars@[k - 2] && t[k - 1] == chars@[k - 1]);
        if chars[k - 2] == ' ' && chars[k - 1] == ' ' {
            return Some(k - 2);
        }
        assert(t.drop_last() =~= chars@.take(k - 1));
        k = k - 1;
    }
    None
}

/// Whether `chars` starts with the usage line's prefix.
fn starts_with_usage(chars: &Vec<char>) -> (r: bool)
    ensures
        r == starts_with(chars@, usage_prefix()),
{
    let r = chars.len() >= 7 && chars[0] == 'U' && chars[1] == 's' && chars[2] == 'a' && chars[3] == 'g'
        && chars[4] == 'e' && chars[5] == ':' && chars[6] == ' ';
    proof {
        if chars@.len() >= 7 {
            if r {
                assert(chars@.take(7) =~= usage_prefix());
            } else {
                let t = chars@.take(7);
                assert(t[0] == chars@[0] && t[1] == chars@[1] && t[2] == chars@[2] && t[3] == chars@[3]
                    && t[4] == chars@[4] && t[5] == chars@[5] && t[6] == chars@[6]);
                assert(usage_prefix()[0] == 'U' && usage_prefix()[6] == ' ');
                assert(t != usage_prefix());
            }
        }
    }
    r
}

/// A reading that ends well went well all along.
proof fn lemma_scan_ok_prefix(lines: Seq<Seq<char>>, j: int)
    requires
        0 <= j <= lines.len(),
        scan(lines).ok,
    ensures
        scan(lines.take(j)).ok,
    decreases lines.len(),
{
    if j == lines.len() {
        assert(lines.take(j) =~= lines);
    } else {
        let init = lines.drop_last();
        assert(scan(init).ok);
        assert(init.take(j) =~= lines.take(j));
        lemma_scan_ok_prefix(init, j);
    }
}

/// Read the help text `text` into its parts: the usage line, paragraphs,
/// and sections (see `scan_line`). Items are shown in green.
pub fn parse<'a>(text: &'a str) -> (r: Vec<HelpItem<'a>>)
    requires
        well_formed(text@),
    ensures
        parts_of(r@) == help_parts(text@),
        green_items(r@),
{
    let lines = lines_of_text(text);
    let ghost all = text_lines(text@);
    let mut help: Vec<HelpItem<'a>> = Vec::new();
    let mut title: &'a str = "";
    let mut entries: Vec<Entry<'a>> = Vec::new();
    let mut in_section = false;
    proof {
        reveal_strlit("");
        assert(all.take(0) =~= Seq::<Seq<char>>::empty());
        assert(parts_of(help@) =~= Seq::<HelpPart>::empty());
    }
    let mut j: usize = 0;
    while j < lines.len()
        invariant
            lines@.map_values(|l: &str| l@) == all,
            j <= lines@.len(),
            scan(all).ok,
            parts_of(help@) == scan(all.take(j as int)).parts,
            scan(all.take(j as int)).open == (if in_section {
                Some((title@, entry_parts(entries@)))
            } else {
                None
            }),
            scan(all.take(j as int)).ok,
            !in_section ==> entries@.len() == 0,
            ""@ == Seq::<char>::empty(),
            green_items(help@),
            green_entries(entries@),
        decreases lines@.len() - j,
    {
        let line = lines[j];
        let ghost st = scan(all.take(j as int));
        proof {
            assert(line@ == all[j as int]);
            assert(all.take(j + 1).drop_last() =~= all.take(j as int));
            lemma_scan_ok_prefix(all, j + 1);
        }
        let ghost next = scan_line(st, line@);
        assert(scan(all.take(j + 1)) == next);
        let ghost before = parts_of(help@);
        if in_section {
            let e = trim_end_str(line);
            if e.is_empty() {
                let mut finished: Vec<Entry<'a>> = Vec::new();
                std::mem::swap(&mut finished, &mut entries);
                help.push(HelpItem::Section(Section { title, entries: finished }));
                help.push(HelpItem::Paragraph(""));
                in_section = false;
                assert(parts_of(help@) =~= before.push(HelpPart::Section(title@, entry_parts(finished@))).push(
                    HelpPart::Paragraph(Seq::empty()),
                ));
            } else {
                let chars = chars_of(e);
                let found = last_double_space_in(&chars);
                assert(st.open == Some((title@, entry_parts(entries@))));
                assert(chars@ == trim_end(line@));
                assert(chars@.len() != 0);
                let sp = match found {
                    Some(sp) => sp,
                    None => {
                        assert(last_double_space(trim_end(line@)) is None);
                        assert(!next.ok);
                        assert(false);
                        0
                    },
                };
                let n = chars.len();
                assert(sp + 2 <= n);
                let item = e.substring_char(0, sp + 2);
                let caption = e.substring_char(sp + 2, n);
                assert(item@ =~= e@.take(sp + 2));
                assert(caption@ =~= e@.skip(sp + 2));
                let ghost was = entry_parts(entries@);
                entries.push(Entry { item: as_item(item), caption });
                assert(entry_parts(entries@) =~= was.push((e@.take(sp + 2), e@.skip(sp + 2))));
            }
        } else {
            let chars = chars_of(line);
            if starts_with_usage(&chars) {
                let n = chars.len();
                let rest = line.substring_char(7, n);
                let rest_chars = chars_of(rest);
                let sp = find_from(&rest_chars, ' ', 0);
                let args = rest.substring_char(sp, rest_chars.len());
                help.push(HelpItem::Usage(args));
                proof {
                    assert(rest@ =~= line@.skip(7));
                    assert(rest@.skip(0) =~= rest@);
                    assert(args@ =~= rest@.skip(sp as int));
                    assert(parts_of(help@) =~= before.push(HelpPart::Usage(args@)));
                }
            } else if chars.len() > 0 && chars[chars.len() - 1] == ':' {
                title = line;
                in_section = true;
                assert(entry_parts(entries@) =~= Seq::<(Seq<char>, Seq<char>)>::empty());
            } else {
                help.push(HelpItem::Paragraph(line));
                assert(parts_of(help@) =~= before.push(HelpPart::Paragraph(line@)));
            }
        }
        j = j + 1;
    }
    assert(all.take(lines@.len() as int) =~= all);
    if in_section {
        let ghost before = parts_of(help@);
        help.push(HelpItem::Section(Section { title, entries }));
        assert(parts_of(help@) =~= before.push(HelpPart::Section(title@, entry_parts(entries@))));
    }
    help
}

/// The most blanks that indent a caption.
pub const MAX_INDENT: usize = 56;

/// `n` spaces.
pub open spec fn blanks(n: nat) -> Seq<char> {
    Seq::new(n, |i: int| ' ')
}

/// The smaller of `a` and `b`.
pub open spec fn min_nat(a: nat, b: nat) -> nat {
    if a <= b {
        a
    } else {
        b
    }
}

/// `n`, or `usize::MAX` if it is larger.
pub open spec fn saturated(n: nat) -> nat {
    min_nat(n, usize::MAX as nat)
}

/// The views of some strings.
pub open spec fn views_of(strings: Seq<String>) -> Seq<Seq<char>> {
    strings.map_values(|s: String| s@)
}

/// An entry's item, styled.
pub open spec fn styled_item(sheet: StyleSheet, e: Entry) -> Seq<char> {
    sheet.item_start() + e.item.text()@ + sheet.end()
}

/// An entry's item and caption fit in a line of `width` bytes.
pub open spec fn fits_in_line(e: Entry, width: nat) -> bool {
    e.item.text().spec_bytes().len() + e.caption.spec_bytes().len() <= width
}

/// The caption wrapped after the item, later lines indented past the item.
pub open spec fn same_line_help(sheet: StyleSheet, e: Entry, width: nat) -> Seq<Seq<char>> {
    wrapped(
        e.caption@,
        width,
        styled_item(sheet, e),
        blanks(min_nat(e.item.text().spec_bytes().len() + 4, MAX_INDENT as nat)),
    )
}

/// The most spaces any item of `entries` begins with.
pub open spec fn max_indent(entries: Seq<Entry>) -> nat
    decreases entries.len(),
{
    if entries.len() == 0 {
        0
    } else {
        let m = max_indent(entries.drop_last());
        let k = leading_spaces(entries.last().item.text().spec_bytes());
        if m >= k {
            m
        } else {
            k
        }
    }
}

/// How far captions are indented on the lines after their items.
pub open spec fn next_line_indent(entries: Seq<Entry>) -> nat {
    min_nat(max_indent(entries) + 4, MAX_INDENT as nat)
}

/// Each entry's caption wrapped on the lines after the item, as groups: the
/// item, then the caption's lines, indented by `indent`.
pub open spec fn next_line_groups(sheet: StyleSheet, entries: Seq<Entry>, width: nat, indent: nat) -> Seq<
    Seq<Seq<char>>,
>
    decreases entries.len(),
{
    if entries.len() == 0 {
        Seq::empty()
    } else {
        let e = entries.last();
        next_line_groups(sheet, entries.drop_last(), width, indent).push(seq![styled_item(sheet, e)]).push(
            wrapped(e.caption@, width, blanks(indent), blanks(indent)),
        )
    }
}

/// Each entry's caption wrapped after its item, as groups.
pub open spec fn same_line_groups(sheet: StyleSheet, entries: Seq<Entry>, width: nat) -> Seq<Seq<Seq<char>>> {
    entries.map_values(|e: Entry| same_line_help(sheet, e, width))
}

/// How bad a layout looks: each group counts its lines, and twice each line
/// past the second.
pub open spec fn badness(groups: Seq<Seq<Seq<char>>>) -> nat
    decreases groups.len(),
{
    if groups.len() == 0 {
        0
    } else {
        let n = groups.last().len();
        badness(groups.drop_last()) + n + 2 * (if n >= 2 {
            (n - 2) as nat
        } else {
            0nat
        })
    }
}

/// The lines of the groups, in order.
pub open spec fn flatten(groups: Seq<Seq<Seq<char>>>) -> Seq<Seq<char>>
    decreases groups.len(),
{
    if groups.len() == 0 {
        Seq::empty()
    } else {
        flatten(groups.drop_last()) + groups.last()
    }
}

/// The lines that show a section's entries in lines of `width`: each item
/// followed by its caption if every entry fits in a line; otherwise the
/// layout with captions after the items, unless the layout with captions
/// below the items is less bad (badness counted up to `usize::MAX`).
pub open spec fn section_lines(sheet: StyleSheet, entries: Seq<Entry>, width: nat) -> Seq<Seq<char>> {
    if forall|i: int| 0 <= i < entries.len() ==> fits_in_line(#[trigger] entries[i], width) {
        entries.map_values(|e: Entry| styled_item(sheet, e) + e.caption@)
    } else {
        let same = same_line_groups(sheet, entries, width);
        let next = next_line_groups(sheet, entries, width, next_line_indent(entries));
        if saturated(badness(same)) <= saturated(badness(next)) {
            flatten(same)
        } else {
            flatten(next)
        }
    }
}

/// A string of `n` spaces.
fn blank_string(n: usize) -> (r: String)
    ensures
        r@ == blanks(n as nat),
{
    let mut r = String::new();
    proof {
        reveal_strlit(" ");
    }
    let mut i: usize = 0;
    while i < n
        invariant
            i <= n,
            r@ == blanks(i as nat),
            " "@ == seq![' '],
        decreases n - i,
    {
        r.append(" ");
        i = i + 1;
        assert(r@ =~= blanks(i as nat));
    }
    r
}

/// The badness of `groups`, up to `usize::MAX`.
fn badness_of(groups: &Vec<Vec<String>>) -> (r: usize)
    ensures
        r == saturated(badness(groups@.map_values(|g: Vec<String>| views_of(g@)))),
{
    let ghost model = groups@.map_values(|g: Vec<String>| views_of(g@));
    let mut total: usize = 0;
    let mut i: usize = 0;
    assert(model.take(0) =~= Seq::<Seq<Seq<char>>>::empty());
    while i < groups.len()
        invariant
            i <= groups@.len(),
            model == groups@.map_values(|g: Vec<String>| views_of(g@)),
            total == saturated(badness(model.take(i as int))),
        decreases groups@.len() - i,
    {
        let n = groups[i].len();
        let m = if n >= 2 {
            n - 2
        } else {
            0
        };
        let extra = m.saturating_add(m);
        total = total.saturating_add(n).saturating_add(extra);
        assert(model.take(i + 1).drop_last() =~= model.take(i as int));
        assert(model.take(i + 1).last().len() == n);
        i = i + 1;
    }
    assert(model.take(groups@.len() as int) =~= model);
    total
}

/// The lines of `groups`, in order.
fn flatten_groups(groups: &Vec<Vec<String>>) -> (r: Vec<String>)
    ensures
        views_of(r@) == flatten(groups@.map_values(|g: Vec<String>| views_of(g@))),
{
    let ghost model = groups@.map_values(|g: Vec<String>| views_of(g@));
    let mut lines: Vec<String> = Vec::new();
    let mut i: usize = 0;
    assert(model.take(0) =~= Seq::<Seq<Seq<char>>>::empty());
    assert(views_of(lines@) =~= Seq::<Seq<char>>::empty());
    while i < groups.len()
        invariant
            i <= groups@.len(),
            model == groups@.map_values(|g: Vec<String>| views_of(g@)),
            views_of(lines@) == flatten(model.take(i as int)),
        decreases groups@.len() - i,
    {
        let group = &groups[i];
        let ghost before = views_of(lines@);
        let mut k: usize = 0;
        while k < group.len()
            invariant
                k <= group@.len(),
                views_of(lines@) == before + views_of(group@).take(k as int),
            decreases group@.len() - k,
        {
            let line = group[k].clone();
            assert(line@ == group@[k as int]@);
            let ghost prior = lines@;
            lines.push(line);
            assert(views_of(lines@) =~= views_of(prior).push(line@));
            assert(views_of(group@).take(k + 1) =~= views_of(group@).take(k as int).push(line@));
            k = k + 1;
            assert(views_of(lines@) =~= before + views_of(group@).take(k as int));
        }
        assert(views_of(group@).take(group@.len() as int) =~= views_of(group@));
        assert(model.take(i + 1).drop_last() =~= model.take(i as int));
        assert(model.take(i + 1).last() == views_of(group@));
        i = i + 1;
    }
    assert(model.take(groups@.len() as int) =~= model);
    lines
}

/// The lines that show `section`'s entries in lines of `width` (see
/// `section_lines`).
pub fn entry_lines(section: &Section, style: &StyleSheet, width: usize) -> (r: Vec<String>)
    ensures
        views_of(r@) == section_lines(*style, section.entries@, width as nat),
{
    let entries = &section.entries;
    let n = entries.len();
    let ghost es = entries@;
    let mut fits = true;
    let mut i: usize = 0;
    while i < n
        invariant
            n == es.len(),
            es == entries@,
            i <= n,
            fits == forall|j: int| 0 <= j < i ==> fits_in_line(#[trigger] es[j], width as nat),
        decreases n - i,
    {
        let e = &entries[i];
        let item_len = e.item.len();
        let caption_len = e.caption.as_bytes().len();
        assert(*e == es[i as int]);
        assert(item_len == es[i as int].item.text().spec_bytes().len());
        assert(caption_len == es[i as int].caption.spec_bytes().len());
        assert(fits_in_line(es[i as int], width as nat) == (item_len + caption_len <= width));
        if item_len > width || caption_len > width - item_len {
            fits = false;
        }
        i = i + 1;
    }
    if fits {
        let mut lines: Vec<String> = Vec::new();
        let mut k: usize = 0;
        while k < n
            invariant
                n == es.len(),
                es == entries@,
                k <= n,
                views_of(lines@) == es.take(k as int).map_values(|e: Entry| styled_item(*style, e) + e.caption@),
            decreases n - k,
        {
            let e = &entries[k];
            let mut line = style.item(e.item.content());
            line.append(e.caption);
            assert(line@ == styled_item(*style, es[k as int]) + es[k as int].caption@);
            let ghost before = lines@;
            lines.push(line);
            assert(views_of(lines@) =~= views_of(before).push(line@));
            assert(es.take(k + 1).map_values(|e: Entry| styled_item(*style, e) + e.caption@) =~= es.take(
                k as int,
            ).map_values(|e: Entry| styled_item(*style, e) + e.caption@).push(line@));
            k = k + 1;
            assert(views_of(lines@) =~= es.take(k as int).map_values(
                |e: Entry| styled_item(*style, e) + e.caption@,
            ));
        }
        assert(es.take(n as int) =~= es);
        return lines;
    }
    let mut same: Vec<Vec<String>> = Vec::new();
    let mut k: usize = 0;
    while k < n
        invariant
            n == es.len(),
            es == entries@,
            k <= n,
            same@.map_values(|g: Vec<String>| views_of(g@)) == same_line_groups(*style, es.take(k as int), width as nat),
        decreases n - k,
    {
        let e = &entries[k];
        let first = style.item(e.item.content());
        let room = e.item.len();
        let indent = if room < MAX_INDENT - 4 {
            room + 4
        } else {
            MAX_INDENT
        };
        let rest = blank_string(indent);
        let group = wrap_text(e.caption, width, first.as_str(), rest.as_str());
        let ghost before = same@.map_values(|g: Vec<String>| views_of(g@));
        same.push(group);
        k = k + 1;
        proof {
            assert(views_of(group@) =~= same_line_help(*style, es[k - 1], width as nat));
            assert(same@.map_values(|g: Vec<String>| views_of(g@)) =~= before.push(views_of(group@)));
            assert(es.take(k as int).map_values(|e: Entry| same_line_help(*style, e, width as nat)) =~= es.take(
                k - 1,
            ).map_values(|e: Entry| same_line_help(*style, e, width as nat)).push(
                same_line_help(*style, es[k - 1], width as nat),
            ));
            assert(same@.map_values(|g: Vec<String>| views_of(g@)) =~= same_line_groups(
                *style,
                es.take(k as int),
                width as nat,
            ));
        }
    }
    let mut deepest: usize = 0;
    let mut k: usize = 0;
    assert(es.take(0) =~= Seq::<Entry>::empty());
    while k < n
        invariant
            n == es.len(),
            es == entries@,
            k <= n,
            deepest == max_indent(es.take(k as int)),
        decreases n - k,
    {
        let d = entries[k].item.indented_by();
        if d > deepest {
            deepest = d;
        }
        assert(es.take(k + 1).drop_last() =~= es.take(k as int));
        k = k + 1;
    }
    let indent_len = if deepest < MAX_INDENT - 4 {
        deepest + 4
    } else {
        MAX_INDENT
    };
    let indent = blank_string(indent_len);
    let mut next: Vec<Vec<String>> = Vec::new();
    let mut k: usize = 0;
    assert(es.take(n as int) =~= es);
    while k < n
        invariant
            n == es.len(),
            es == entries@,
            k <= n,
            indent@ == blanks(next_line_indent(es)),
            next@.map_values(|g: Vec<String>| views_of(g@)) == next_line_groups(
                *style,
                es.take(k as int),
                width as nat,
                next_line_indent(es),
            ),
        decreases n - k,
    {
        let e = &entries[k];
        let mut item_group: Vec<String> = Vec::new();
        item_group.push(style.item(e.item.content()));
        let caption_group = wrap_text(e.caption, width, indent.as_str(), indent.as_str());
        let ghost before = next@.map_values(|g: Vec<String>| views_of(g@));
        next.push(item_group);
        next.push(caption_group);
        proof {
            assert(es.take(k + 1).drop_last() =~= es.take(k as int));
            assert(es.take(k + 1).last() == es[k as int]);
            assert(views_of(caption_group@) =~= wrapped(
                es[k as int].caption@,
                width as nat,
                blanks(next_line_indent(es)),
                blanks(next_line_indent(es)),
            ));
            assert(views_of(item_group@) =~= seq![styled_item(*style, es[k as int])]);
            assert(next@.map_values(|g: Vec<String>| views_of(g@)) =~= before.push(views_of(item_group@)).push(
                views_of(caption_group@),
            ));
        }
        k = k + 1;
    }
    assert(es.take(n as int) =~= es);
    if badness_of(&same) <= badness_of(&next) {
        flatten_groups(&same)
    } else {
        flatten_groups(&next)
    }
}

/// `t` styled as a title.
pub open spec fn titled(sheet: StyleSheet, t: Seq<char>) -> Seq<char> {
    sheet.title_start() + t + sheet.end()
}

/// The lines that show one part of the help text, with `name` the program's
/// name as shown: a paragraph wrapped to `width`; the usage line; a section's
/// title and then its entries.
pub open spec fn item_lines(sheet: StyleSheet, name: Seq<char>, item: HelpItem, width: nat) -> Seq<Seq<char>> {
    match item {
        HelpItem::Paragraph(t) => wrapped(t@, width, Seq::empty(), Seq::empty()),
        HelpItem::Usage(args) => seq![titled(sheet, "Usage: "@) + name + args@],
        HelpItem::Section(sec) => seq![titled(sheet, sec.title@)] + section_lines(sheet, sec.entries@, width),
    }
}

/// The lines that show the parts `items` of the help text.
pub open spec fn items_lines(sheet: StyleSheet, name: Seq<char>, items: Seq<HelpItem>, width: nat) -> Seq<Seq<char>>
    decreases items.len(),
{
    if items.len() == 0 {
        Seq::empty()
    } else {
        items_lines(sheet, name, items.drop_last(), width) + item_lines(sheet, name, items.last(), width)
    }
}

/// Append the lines `more` to `lines`.
fn push_lines(lines: &mut Vec<String>, more: Vec<String>)
    ensures
        views_of(final(lines)@) == views_of(old(lines)@) + views_of(more@),
{
    let mut more = more;
    let ghost before = lines@;
    let ghost added = more@;
    lines.append(&mut more);
    assert(lines@ =~= before + added);
    assert(views_of(lines@) =~= views_of(before) + views_of(added));
}

/// The lines of the help message whose parts are `help`, for lines of
/// `width` columns: the program's name and `version`, then each part.
pub fn help_lines(style: &StyleSheet, help: &Vec<HelpItem>, version: &str, width: usize) -> (r: Vec<String>)
    ensures
        views_of(r@) == seq![style.app_start() + "zet"@ + style.end() + " "@ + version@] + items_lines(
            *style,
            style.app_start() + "zet"@ + style.end(),
            help@,
            width as nat,
        ),
{
    let name = style.app_name("zet");
    let mut first = name.clone();
    first.append(" ");
    first.append(version);
    let mut lines: Vec<String> = Vec::new();
    lines.push(first);
    proof {
        reveal_strlit("");
        assert(help@.take(0) =~= Seq::<HelpItem>::empty());
        assert(views_of(lines@) =~= seq![first@] + items_lines(*style, name@, help@.take(0), width as nat));
    }
    let mut i: usize = 0;
    while i < help.len()
        invariant
            i <= help@.len(),
            name@ == style.app_start() + "zet"@ + style.end(),
            first@ == name@ + " "@ + version@,
            ""@ == Seq::<char>::empty(),
            views_of(lines@) == seq![first@] + items_lines(*style, name@, help@.take(i as int), width as nat),
        decreases help@.len() - i,
    {
        let ghost before = views_of(lines@);
        match &help[i] {
            HelpItem::Paragraph(text) => {
                let wrapped_text = wrap_text(text, width, "", "");
                assert(views_of(wrapped_text@) =~= wrapped(text@, width as nat, Seq::empty(), Seq::empty()));
                push_lines(&mut lines, wrapped_text);
            },
            HelpItem::Usage(args) => {
                let mut usage = style.title("Usage: ");
                usage.append(name.as_str());
                usage.append(args);
                let ghost prior = lines@;
                lines.push(usage);
                assert(views_of(lines@) =~= views_of(prior) + seq![usage@]);
            },
            HelpItem::Section(section) => {
                let title = style.title(section.title);
                let ghost prior = lines@;
                lines.push(title);
                assert(views_of(lines@) =~= views_of(prior) + seq![title@]);
                let body = entry_lines(section, style, width);
                push_lines(&mut lines, body);
            },
        }
        proof {
            assert(help@.take(i + 1).drop_last() =~= help@.take(i as int));
            assert(help@.take(i + 1).last() == help@[i as int]);
        }
        i = i + 1;
        assert(views_of(lines@) =~= seq![first@] + items_lines(*style, name@, help@.take(i as int), width as nat));
    }
    assert(help@.take(help@.len() as int) =~= help@);
    lines
}

/// Whether the help text `text` can be read: every entry of every section
/// has two spaces between its item and its caption.
pub fn is_well_formed(text: &str) -> (r: bool)
    ensures
        r == well_formed(text@),
{
    let lines = lines_of_text(text);
    let ghost all = text_lines(text@);
    let mut in_section = false;
    assert(all.take(0) =~= Seq::<Seq<char>>::empty());
    let mut j: usize = 0;
    while j < lines.len()
        invariant
            lines@.map_values(|l: &str| l@) == all,
            all == text_lines(text@),
            j <= lines@.len(),
            scan(all.take(j as int)).ok,
            (scan(all.take(j as int)).open is Some) == in_section,
        decreases lines@.len() - j,
    {
        let line = lines[j];
        proof {
            assert(line@ == all[j as int]);
            assert(all.take(j + 1).drop_last() =~= all.take(j as int));
        }
        if in_section {
            let e = trim_end_str(line);
            if e.is_empty() {
                in_section = false;
            } else {
                let chars = chars_of(e);
                if last_double_space_in(&chars).is_none() {
                    proof {
                        assert(!scan(all.take(j + 1)).ok);
                        lemma_scan_stays_bad(all, j + 1);
                    }
                    return false;
                }
            }
        } else {
            let chars = chars_of(line);
            if !starts_with_usage(&chars) && chars.len() > 0 && chars[chars.len() - 1] == ':' {
                in_section = true;
            }
        }
        j = j + 1;
    }
    assert(all.take(lines@.len() as int) =~= all);
    true
}

/// A reading that has gone wrong stays wrong.
proof fn lemma_scan_stays_bad(lines: Seq<Seq<char>>, j: int)
    requires
        0 <= j <= lines.len(),
        !scan(lines.take(j)).ok,
    ensures
        !scan(lines).ok,
{
    if scan(lines).ok {
        lemma_scan_ok_prefix(lines, j);
    }
}

/// What keeps the help text readable, line by line: a line spoils it only if
/// it stands in a section, is not blank, and has no two consecutive spaces
/// (after its final white space is cut). A blank line leaves no section
/// open: after the entries of a section, it ends the section.
pub proof fn law_readable_lines(lines: Seq<Seq<char>>, line: Seq<char>)
    ensures
        scan(lines.push(line)).ok == (scan(lines).ok && !(scan(lines).open is Some && trim_end(line).len()
            > 0 && last_double_space(trim_end(line)) is None)),
        scan(lines).ok && trim_end(line).len() == 0 ==> scan(lines.push(line)).open is None,
{
    assert(lines.push(line).drop_last() =~= lines);
    if line.len() > 0 && trim_end(line).len() == 0 {
        assert(is_white(line.last()));
    }
}

} // verus!
