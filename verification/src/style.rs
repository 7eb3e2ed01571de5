//! ANSI style codes used by the renderer.
use vstd::prelude::*;
use crate::text::{ends_in_escape, is_code, lemma_code_scan_push, scan, visible_text};

verus! {

/// Ends every style.
pub const RESET: &'static str = "\x1b[0m";
/// Bold text.
pub const BOLD: &'static str = "\x1b[1m";
/// Italic text.
pub const ITALIC: &'static str = "\x1b[3m";
/// Reversed colours, for inline code.
pub const REVERSE: &'static str = "\x1b[7m";
/// Faint text, for code blocks and images.
pub const DIM: &'static str = "\x1b[2m";
/// Underlined text, for links.
pub const UNDERLINE: &'static str = "\x1b[4m";

/// The code `ESC [ n m` that selects the graphic rendition `n`.
pub open spec fn sgr(n: char) -> Seq<char> {
    seq!['\x1b', '[', n, 'm']
}

pub open spec fn reset_code() -> Seq<char> {
    sgr('0')
}

pub open spec fn bold_code() -> Seq<char> {
    sgr('1')
}

pub open spec fn dim_code() -> Seq<char> {
    sgr('2')
}

pub open spec fn italic_code() -> Seq<char> {
    sgr('3')
}

pub open spec fn underline_code() -> Seq<char> {
    sgr('4')
}

pub open spec fn reverse_code() -> Seq<char> {
    sgr('7')
}

/// The style constants spell the codes above.
pub proof fn lemma_style_codes()
    ensures
        RESET@ == reset_code(),
        BOLD@ == bold_code(),
        DIM@ == dim_code(),
        ITALIC@ == italic_code(),
        UNDERLINE@ == underline_code(),
        REVERSE@ == reverse_code(),
{
    reveal_strlit("\x1b[0m");
    reveal_strlit("\x1b[1m");
    reveal_strlit("\x1b[2m");
    reveal_strlit("\x1b[3m");
    reveal_strlit("\x1b[4m");
    reveal_strlit("\x1b[7m");
    assert(RESET@ =~= reset_code());
    assert(BOLD@ =~= bold_code());
    assert(DIM@ =~= dim_code());
    assert(ITALIC@ =~= italic_code());
    assert(UNDERLINE@ =~= underline_code());
    assert(REVERSE@ =~= reverse_code());
}

/// A style code shows nothing and ends the escape sequence it starts.
pub proof fn lemma_sgr_invisible(n: char)
    requires
        '0' <= n && n <= '9',
    ensures
        visible_text(sgr(n)) == Seq::<char>::empty(),
        !ends_in_escape(sgr(n)),
{
    let s = sgr(n);
    assert(s.drop_last().drop_last().drop_last().drop_last() =~= Seq::<char>::empty());
    reveal_with_fuel(scan, 5);
}

/// The six levels of a heading.
#[derive(Clone, Copy, Debug, PartialEq, Eq)]
pub enum HeadingLevel {
    H1,
    H2,
    H3,
    H4,
    H5,
    H6,
}

/// The colour digit that a heading level is drawn in (after bold `1;`): bright white for
/// level 1, then cyan, green, yellow, blue and magenta.
pub open spec fn heading_colour(level: HeadingLevel) -> Seq<char> {
    match level {
        HeadingLevel::H1 => seq!['9', '7'],
        HeadingLevel::H2 => seq!['3', '6'],
        HeadingLevel::H3 => seq!['3', '2'],
        HeadingLevel::H4 => seq!['3', '3'],
        HeadingLevel::H5 => seq!['3', '4'],
        HeadingLevel::H6 => seq!['3', '5'],
    }
}

/// The code that starts a heading: bold in the level's colour, `ESC [ 1 ; colour m`.
pub open spec fn heading_code(level: HeadingLevel) -> Seq<char> {
    seq!['\x1b', '[', '1', ';'] + heading_colour(level) + seq!['m']
}

/// The style a heading of the given level is drawn in.
pub fn heading_style(level: HeadingLevel) -> (style: &'static str)
    ensures
        style@ == heading_code(level),
{
    proof {
        reveal_strlit("\x1b[1;97m");
        reveal_strlit("\x1b[1;36m");
        reveal_strlit("\x1b[1;32m");
        reveal_strlit("\x1b[1;33m");
        reveal_strlit("\x1b[1;34m");
        reveal_strlit("\x1b[1;35m");
    }
    let style = match level {
        HeadingLevel::H1 => "\x1b[1;97m",
        HeadingLevel::H2 => "\x1b[1;36m",
        HeadingLevel::H3 => "\x1b[1;32m",
        HeadingLevel::H4 => "\x1b[1;33m",
        HeadingLevel::H5 => "\x1b[1;34m",
        HeadingLevel::H6 => "\x1b[1;35m",
    };
    assert(style@ =~= heading_code(level));
    style
}

/// Each heading level has a colour of its own.
pub proof fn lemma_heading_styles_distinct(a: HeadingLevel, b: HeadingLevel)
    requires
        a != b,
    ensures
        heading_code(a) != heading_code(b),
{
    if heading_code(a) == heading_code(b) {
        assert(heading_code(a)[4] == heading_code(b)[4]);
        assert(heading_code(a)[5] == heading_code(b)[5]);
    }
}

/// A style code is one whole escape sequence.
pub proof fn lemma_sgr_is_code(n: char)
    requires
        '0' <= n && n <= '9',
    ensures
        is_code(sgr(n)),
{
    let p0 = Seq::<char>::empty();
    let p1 = p0.push('\x1b');
    let p2 = p1.push('[');
    let p3 = p2.push(n);
    let p4 = p3.push('m');
    lemma_code_scan_push(p0, '\x1b');
    lemma_code_scan_push(p1, '[');
    lemma_code_scan_push(p2, n);
    lemma_code_scan_push(p3, 'm');
    assert(p1 =~= seq!['\x1b']);
    assert(p4 =~= sgr(n));
}

/// A heading's style is one whole escape sequence.
pub proof fn lemma_heading_code_is_code(level: HeadingLevel)
    ensures
        is_code(heading_code(level)),
{
    let s = heading_code(level);
    let p0 = Seq::<char>::empty();
    let p1 = p0.push(s[0]);
    let p2 = p1.push(s[1]);
    let p3 = p2.push(s[2]);
    let p4 = p3.push(s[3]);
    let p5 = p4.push(s[4]);
    let p6 = p5.push(s[5]);
    let p7 = p6.push(s[6]);
    lemma_code_scan_push(p0, s[0]);
    lemma_code_scan_push(p1, s[1]);
    lemma_code_scan_push(p2, s[2]);
    lemma_code_scan_push(p3, s[3]);
    lemma_code_scan_push(p4, s[4]);
    lemma_code_scan_push(p5, s[5]);
    lemma_code_scan_push(p6, s[6]);
    assert(p1 =~= seq![s[0]]);
    assert(p7 =~= s);
}

} // verus!
