//! Style sheets for the help text: the escape codes that color the program's
//! name, the items and the section titles, or none at all.
use crate::outside::find_byte;
use vstd::prelude::*;
use vstd::utf8::{encode_scalar, encode_utf8, has_width_1_encoding, has_width_2_encoding, has_width_3_encoding, is_ascii_chars, is_scalar};
use vstd::string::{StringExecFns, StringSliceAdditionalSpecFns};

verus! {

/// Whether to color the help text: `Auto` means yes if standard output is a
/// terminal that supports color.
#[derive(Clone, Copy, Debug, PartialEq, Eq, Structural)]
pub enum ColorChoice {
    Auto,
    Always,
    Never,
}

/// The escape codes that start the program's name, an item and a title, and
/// the code that ends each.
#[derive(Debug, Clone, Copy)]
pub struct StyleSheet {
    app_start: &'static str,
    item_start: &'static str,
    title_start: &'static str,
    end: &'static str,
}

/// The escape byte that starts a color code.
pub const ESC: u8 = 0x1Bu8;

impl StyleSheet {
    /// The code that starts the program's name.
    pub closed spec fn app_start(&self) -> Seq<char> {
        self.app_start@
    }

    /// The code that starts an item.
    pub closed spec fn item_start(&self) -> Seq<char> {
        self.item_start@
    }

    /// The code that starts a title.
    pub closed spec fn title_start(&self) -> Seq<char> {
        self.title_start@
    }

    /// The code that ends a styled piece of text.
    pub closed spec fn end(&self) -> Seq<char> {
        self.end@
    }

    /// `s` styled as the program's name.
    pub fn app_name(&self, s: &str) -> (r: String)
        ensures
            r@ == self.app_start() + s@ + self.end(),
    {
        let mut r = String::from_str(self.app_start);
        r.append(s);
        r.append(self.end);
        r
    }

    /// `s` styled as an item.
    pub fn item(&self, s: &str) -> (r: String)
        ensures
            r@ == self.item_start() + s@ + self.end(),
    {
        let mut r = String::from_str(self.item_start);
        r.append(s);
        r.append(self.end);
        r
    }

    /// `s` styled as a title.
    pub fn title(&self, s: &str) -> (r: String)
        ensures
            r@ == self.title_start() + s@ + self.end(),
    {
        let mut r = String::from_str(self.title_start);
        r.append(s);
        r.append(self.end);
        r
    }
}

/// The colored style sheet.
pub closed spec fn colored_sheet() -> StyleSheet {
    StyleSheet { app_start: "\x1B[32;1m", item_start: "\x1B[32m", title_start: "\x1B[33m", end: "\x1B[m" }
}

/// The plain style sheet.
pub closed spec fn plain_sheet() -> StyleSheet {
    StyleSheet { app_start: "", item_start: "", title_start: "", end: "" }
}

/// The colored style sheet: bold green for the name, green for items, yellow
/// for titles, each ended by a reset.
#[verifier::when_used_as_spec(colored_sheet)]
pub fn always() -> (r: StyleSheet)
    ensures
        r == colored_sheet(),
        r.app_start() == "\x1B[32;1m"@,
        r.item_start() == "\x1B[32m"@,
        r.title_start() == "\x1B[33m"@,
        r.end() == "\x1B[m"@,
{
    StyleSheet { app_start: "\x1B[32;1m", item_start: "\x1B[32m", title_start: "\x1B[33m", end: "\x1B[m" }
}

/// The plain style sheet: no escape codes at all.
#[verifier::when_used_as_spec(plain_sheet)]
pub fn never() -> (r: StyleSheet)
    ensures
        r == plain_sheet(),
        r.app_start() == ""@,
        r.item_start() == ""@,
        r.title_start() == ""@,
        r.end() == ""@,
{
    StyleSheet { app_start: "", item_start: "", title_start: "", end: "" }
}

/// The style sheet for `ColorChoice::Auto`: colored if the terminal supports it.
pub fn auto_sheet(use_color: bool) -> (r: StyleSheet)
    ensures
        r == (if use_color {
            always()
        } else {
            never()
        }),
{
    if use_color {
        always()
    } else {
        never()
    }
}

/// The style sheet for `cc`. For `Auto`, `auto` is the style sheet chosen for
/// the terminal, if it has been chosen yet; if not, the plain one is used.
pub fn colored(cc: ColorChoice, auto: Option<StyleSheet>) -> (r: StyleSheet)
    ensures
        r == (match cc {
            ColorChoice::Always => always(),
            ColorChoice::Never => never(),
            ColorChoice::Auto => match auto {
                Some(sheet) => sheet,
                None => never(),
            },
        }),
{
    match cc {
        ColorChoice::Always => always(),
        ColorChoice::Never => never(),
        ColorChoice::Auto => match auto {
            Some(sheet) => sheet,
            None => never(),
        },
    }
}

/// The bytes of the reset code `ESC [ m`.
pub open spec fn reset_bytes() -> Seq<u8> {
    seq![ESC, 91u8, 109u8]
}

/// `e` is the index of the first `m` in `s`.
pub open spec fn is_first_m(s: Seq<u8>, e: int) -> bool {
    &&& 0 <= e < s.len()
    &&& s[e] == 109u8
    &&& forall|j: int| 0 <= j < e ==> s[j] != 109u8
}

/// `s` is long enough to hold a color code and a reset, starts with
/// `ESC [`, and ends with the reset code.
pub open spec fn is_styled(s: Seq<u8>) -> bool {
    &&& s.len() >= 8
    &&& s[0] == ESC
    &&& s[1] == 91u8
    &&& s.skip(s.len() - 3) == reset_bytes()
}

/// The width of `s` on a terminal: its length, less the leading color code
/// (up to the first `m`) and the trailing reset, if it is styled.
pub open spec fn display_width_of(s: Seq<u8>) -> int {
    if is_styled(s) && exists|e: int| is_first_m(s, e) {
        s.len() - ((choose|e: int| is_first_m(s, e)) + 1 + 3)
    } else {
        s.len() as int
    }
}

/// The width is defined: a styled `s` has its first `m` before the reset.
pub open spec fn display_width_defined(s: Seq<u8>) -> bool {
    is_styled(s) && (exists|e: int| is_first_m(s, e)) ==> (choose|e: int| is_first_m(s, e)) + 4
        <= s.len()
}

/// The width of `s` on a terminal, not counting a leading color code and a
/// trailing reset.
pub fn display_width(s: &str) -> (r: usize)
    requires
        display_width_defined(s.spec_bytes()),
    ensures
        r == display_width_of(s.spec_bytes()),
{
    let s = s.as_bytes();
    let n = s.len();
    if n < 8 {
        return n;
    }
    if s[0] == ESC && s[1] == 91u8 && s[n - 3] == ESC && s[n - 2] == 91u8 && s[n - 1] == 109u8 {
        assert(s@.skip(n - 3) =~= reset_bytes());
        match find_byte(109u8, s) {
            Some(m) => {
                proof {
                    assert(is_first_m(s@, m as int));
                    let c = choose|e: int| is_first_m(s@, e);
                    if c < m {
                        assert(s@[c] == 109u8);
                    } else if m < c {
                        assert(s@[m as int] == 109u8);
                    }
                }
                n - (m + 1 + 3)
            },
            None => {
                assert(!exists|e: int| is_first_m(s@, e));
                n
            },
        }
    } else {
        proof {
            if is_styled(s@) {
                assert(s@.skip(n - 3)[0] == s@[n - 3]);
                assert(s@.skip(n - 3)[1] == s@[n - 2]);
                assert(s@.skip(n - 3)[2] == s@[n - 1]);
            }
        }
        n
    }
}

/// The encoding of two character sequences one after the other.
proof fn lemma_encode_concat(a: Seq<char>, b: Seq<char>)
    ensures
        encode_utf8(a + b) == encode_utf8(a) + encode_utf8(b),
    decreases a.len(),
{
    if a.len() == 0 {
        assert(a + b =~= b);
        assert(encode_utf8(a) + encode_utf8(b) =~= encode_utf8(b));
    } else {
        assert((a + b).drop_first() =~= a.drop_first() + b);
        assert((a + b)[0] == a[0]);
        lemma_encode_concat(a.drop_first(), b);
        assert(encode_utf8(a + b) =~= encode_utf8(a) + encode_utf8(b));
    }
}

/// A character other than the escape does not encode to a first byte that
/// is the escape.
proof fn lemma_first_byte(s: Seq<char>)
    requires
        s.len() > 0,
        s[0] != '\x1B',
    ensures
        encode_utf8(s).len() > 0,
        encode_utf8(s)[0] != ESC,
{
    let c = s[0] as u32;
    vstd::utf8::char_is_scalar(s[0]);
    vstd::utf8::char_u32_cast(s[0], c);
    vstd::utf8::char_u32_cast('\x1B', 27u32);
    assert(c != 27u32);
    assert(encode_utf8(s) == encode_scalar(c) + encode_utf8(s.drop_first()));
    if has_width_1_encoding(c) {
        assert((c & 0x7F) as u8 != 27u8) by (bit_vector)
            requires
                c <= 0x7F,
                c != 27u32,
        ;
    } else if has_width_2_encoding(c) {
        let y = ((c >> 6) & 0x1F) as u8;
        assert((0xC0u8 | y) != 27u8) by (bit_vector);
    } else if has_width_3_encoding(c) {
        let y = ((c >> 12) & 0x0F) as u8;
        assert((0xE0u8 | y) != 27u8) by (bit_vector);
    } else {
        let y = (#[verifier::truncate] (((c >> 18) & 0x7) as u8));
        assert((0xF0u8 | y) != 27u8) by (bit_vector);
    }
}

/// Text between a color code (`ESC [`, then no `m` until the `m` that ends
/// it) and the reset `ESC [ m` has the width of the text.
proof fn lemma_styled_width(p: Seq<char>, s: Seq<char>, e: Seq<char>)
    requires
        is_ascii_chars(p),
        p.len() >= 5,
        p[0] == '\x1B',
        p[1] == '[',
        p[p.len() - 1] == 'm',
        forall|i: int| 0 <= i < p.len() - 1 ==> p[i] != 'm',
        e == seq!['\x1B', '[', 'm'],
    ensures
        display_width_defined(encode_utf8(p + s + e)),
        display_width_of(encode_utf8(p + s + e)) == encode_utf8(s).len(),
{
    broadcast use vstd::utf8::is_ascii_chars_encode_utf8;
    lemma_encode_concat(p + s, e);
    lemma_encode_concat(p, s);
    assert(is_ascii_chars(e));
    let bp = encode_utf8(p);
    let bs = encode_utf8(s);
    let be = encode_utf8(e);
    let bytes = encode_utf8(p + s + e);
    assert(bytes == bp + bs + be);
    assert(be =~= reset_bytes()) by {
        assert(be[0] == e[0] as u8);
        assert(be[1] == e[1] as u8);
        assert(be[2] == e[2] as u8);
    }
    let k = bp.len() - 1;
    assert(bytes[0] == bp[0]);
    assert(bytes[1] == bp[1]);
    assert(bytes.skip(bytes.len() - 3) =~= be);
    assert(bytes[k] == bp[k]);
    assert(bp[k] == p[k] as u8);
    assert(is_first_m(bytes, k)) by {
        assert forall|j: int| 0 <= j < k implies bytes[j] != 109u8 by {
            assert(bytes[j] == bp[j]);
            assert(bp[j] == p[j] as u8);
        }
    }
    assert forall|e2: int| is_first_m(bytes, e2) implies e2 == k by {
        if e2 < k {
            assert(bytes[e2] == 109u8);
        } else if e2 > k {
            assert(bytes[k] == 109u8);
        }
    }
    assert((choose|e2: int| is_first_m(bytes, e2)) == k);
    assert(bp.len() == p.len());
    assert(be.len() == 3);
    assert(bytes.len() == bp.len() + bs.len() + 3);
    assert(bp[0] == p[0] as u8);
    assert(bp[1] == p[1] as u8);
    assert(bytes[0] == ESC);
    assert(bytes[1] == 91u8);
    assert(is_styled(bytes));
}

/// The width on a terminal of text styled by the colored or the plain style
/// sheet (as the program's name, an item or a title) is the length of the
/// text itself, for text that does not start with an escape.
pub proof fn law_display_width(s: Seq<char>)
    requires
        s.len() == 0 || s[0] != '\x1B',
    ensures
        ({
            let c = colored_sheet();
            &&& display_width_defined(encode_utf8(c.app_start() + s + c.end()))
            &&& display_width_of(encode_utf8(c.app_start() + s + c.end())) == encode_utf8(s).len()
            &&& display_width_defined(encode_utf8(c.item_start() + s + c.end()))
            &&& display_width_of(encode_utf8(c.item_start() + s + c.end())) == encode_utf8(s).len()
            &&& display_width_defined(encode_utf8(c.title_start() + s + c.end()))
            &&& display_width_of(encode_utf8(c.title_start() + s + c.end())) == encode_utf8(s).len()
        }),
        ({
            let p = plain_sheet();
            &&& display_width_defined(encode_utf8(p.app_start() + s + p.end()))
            &&& display_width_of(encode_utf8(p.app_start() + s + p.end())) == encode_utf8(s).len()
            &&& display_width_defined(encode_utf8(p.item_start() + s + p.end()))
            &&& display_width_of(encode_utf8(p.item_start() + s + p.end())) == encode_utf8(s).len()
            &&& display_width_defined(encode_utf8(p.title_start() + s + p.end()))
            &&& display_width_of(encode_utf8(p.title_start() + s + p.end())) == encode_utf8(s).len()
        }),
{
    reveal_strlit("\x1B[32;1m");
    reveal_strlit("\x1B[32m");
    reveal_strlit("\x1B[33m");
    reveal_strlit("\x1B[m");
    reveal_strlit("");
    let e = seq!['\x1B', '[', 'm'];
    assert("\x1B[m"@ =~= e);
    lemma_styled_width("\x1B[32;1m"@, s, e);
    lemma_styled_width("\x1B[32m"@, s, e);
    lemma_styled_width("\x1B[33m"@, s, e);
    let plain = ""@ + s + ""@;
    assert(plain =~= s);
    if s.len() > 0 {
        lemma_first_byte(s);
    }
}

} // verus!
