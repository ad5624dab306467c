//! Styled pieces of the help text: a string with the color it is shown in.
use crate::outside::shade_codes;
use vstd::prelude::*;
use vstd::string::{StringExecFns, StringSliceAdditionalSpecFns};

verus! {

/// The colors the help text uses.
#[derive(Clone, Copy, Debug, PartialEq, Eq, Structural)]
pub enum Shade {
    /// Bold green, for the program's name
    BoldGreen,
    /// Green, for items
    Green,
    /// Yellow, for titles
    Yellow,
}

/// The escape codes that start text in `shade`.
pub open spec fn shade_start(shade: Shade) -> Seq<char> {
    match shade {
        Shade::Green => "\x1B[32m"@,
        Shade::BoldGreen => "\x1B[1m\x1B[32m"@,
        Shade::Yellow => "\x1B[33m"@,
    }
}

/// The escape code that ends text in any shade: the reset.
pub open spec fn shade_end(shade: Shade) -> Seq<char> {
    "\x1B[0m"@
}

/// A string to be shown in a color.
pub struct StyledStr<'a> {
    prefix: Shade,
    content: &'a str,
}

/// `content` styled as the program's name.
pub fn app_name(content: &str) -> (r: StyledStr<'_>)
    ensures
        r.shade() == Shade::BoldGreen,
        r.text() == content,
{
    StyledStr { prefix: Shade::BoldGreen, content }
}

/// `content` styled as an item.
pub fn as_item(content: &str) -> (r: StyledStr<'_>)
    ensures
        r.shade() == Shade::Green,
        r.text() == content,
{
    StyledStr { prefix: Shade::Green, content }
}

/// `content` styled as a title.
pub fn as_title(content: &str) -> (r: StyledStr<'_>)
    ensures
        r.shade() == Shade::Yellow,
        r.text() == content,
{
    StyledStr { prefix: Shade::Yellow, content }
}

/// The number of spaces that `s` begins with.
pub open spec fn leading_spaces(s: Seq<u8>) -> nat
    decreases s.len(),
{
    if s.len() > 0 && s[0] == 32u8 {
        1 + leading_spaces(s.drop_first())
    } else {
        0
    }
}

impl<'a> StyledStr<'a> {
    /// The color.
    pub closed spec fn shade(&self) -> Shade {
        self.prefix
    }

    /// The string.
    pub closed spec fn text(&self) -> &'a str {
        self.content
    }

    /// The color it is shown in.
    pub fn prefix(&self) -> (r: Shade)
        ensures
            r == self.shade(),
    {
        self.prefix
    }

    /// The string shown.
    pub fn content(&self) -> (r: &'a str)
        ensures
            r == self.text(),
    {
        self.content
    }

    /// The length in bytes of the string shown (the color codes take no room).
    pub fn len(&self) -> (r: usize)
        ensures
            r == self.text().spec_bytes().len(),
    {
        self.content.as_bytes().len()
    }

    /// The number of spaces the string begins with.
    pub fn indented_by(&self) -> (r: usize)
        ensures
            r == leading_spaces(self.text().spec_bytes()),
    {
        let bytes = self.content.as_bytes();
        let n = bytes.len();
        let mut i: usize = 0;
        assert(bytes@.skip(0) =~= bytes@);
        while i < n && bytes[i] == 32u8
            invariant
                n == bytes@.len(),
                i <= n,
                leading_spaces(bytes@) == i + leading_spaces(bytes@.skip(i as int)),
            decreases n - i,
        {
            assert(bytes@.skip(i as int).drop_first() =~= bytes@.skip(i + 1));
            i = i + 1;
        }
        proof {
            if i < n {
                assert(bytes@.skip(i as int)[0] == bytes@[i as int]);
            }
        }
        i
    }

    /// The string as shown: the codes that start its color, the string, and
    /// the codes that end the color.
    pub fn rendered(&self) -> (r: String)
        ensures
            r@ == shade_start(self.shade()) + self.text()@ + shade_end(self.shade()),
    {
        let (start, end) = shade_codes(self.prefix);
        let mut r = start;
        r.append(self.content);
        r.append(end.as_str());
        r
    }
}

} // verus!
