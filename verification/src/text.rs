//! Visible width of text that carries ANSI escape sequences.
use vstd::prelude::*;

verus! {

/// The escape character that starts an ANSI escape sequence.
pub open spec fn is_escape(c: char) -> bool {
    c == '\x1b'
}

/// Where a left-to-right reading of text stands with respect to escape sequences.
#[derive(Clone, Copy, Debug, PartialEq, Eq, Structural)]
pub enum ScanState {
    /// Outside any escape sequence: characters show.
    Plain,
    /// Just after an escape character.
    Escape,
    /// Inside a control sequence `ESC [ ...`, before its final character.
    Control,
    /// Inside any other escape sequence, before the ASCII letter that ends it.
    Sequence,
}

/// A letter of the ASCII alphabet: what ends an escape sequence other than a control
/// sequence.
pub open spec fn is_ascii_letter(c: char) -> bool {
    ('a' <= c && c <= 'z') || ('A' <= c && c <= 'Z')
}

/// A character that ends a control sequence (`@` up to `~`).
pub open spec fn is_final(c: char) -> bool {
    '@' <= c && c <= '~'
}

/// The reading position after character `c`. An escape character opens a sequence; `[`
/// right after it makes it a control sequence, which runs up to its first character from
/// `@` to `~`; any other escape sequence runs up to and including the first ASCII letter
/// after the escape character.
pub open spec fn next_state(state: ScanState, c: char) -> ScanState {
    match state {
        ScanState::Plain => if is_escape(c) {
            ScanState::Escape
        } else {
            ScanState::Plain
        },
        ScanState::Escape => if c == '[' {
            ScanState::Control
        } else if is_ascii_letter(c) {
            ScanState::Plain
        } else {
            ScanState::Sequence
        },
        ScanState::Control => if is_final(c) {
            ScanState::Plain
        } else {
            ScanState::Control
        },
        ScanState::Sequence => if is_ascii_letter(c) {
            ScanState::Plain
        } else {
            ScanState::Sequence
        },
    }
}

/// Character `c` shows when it is read outside any escape sequence and does not open one.
pub open spec fn shows(state: ScanState, c: char) -> bool {
    state == ScanState::Plain && !is_escape(c)
}

/// Reads `s` from left to right and returns the characters that stay visible once every
/// escape sequence is removed, together with where the reading ends.
pub open spec fn scan(s: Seq<char>) -> (Seq<char>, ScanState)
    decreases s.len(),
{
    if s.len() == 0 {
        (Seq::empty(), ScanState::Plain)
    } else {
        let (vis, state) = scan(s.drop_last());
        let c = s.last();
        (
            if shows(state, c) {
                vis.push(c)
            } else {
                vis
            },
            next_state(state, c),
        )
    }
}

/// The characters of `s` that a terminal shows: `s` with its escape sequences stripped.
pub open spec fn visible_text(s: Seq<char>) -> Seq<char> {
    scan(s).0
}

/// `s` ends inside an escape sequence that has not been closed yet.
pub open spec fn ends_in_escape(s: Seq<char>) -> bool {
    scan(s).1 != ScanState::Plain
}

fn next(state: ScanState, c: char) -> (next: ScanState)
    ensures
        next == next_state(state, c),
{
    let letter = ('a' <= c && c <= 'z') || ('A' <= c && c <= 'Z');
    match state {
        ScanState::Plain => if c == '\x1b' {
            ScanState::Escape
        } else {
            ScanState::Plain
        },
        ScanState::Escape => if c == '[' {
            ScanState::Control
        } else if letter {
            ScanState::Plain
        } else {
            ScanState::Sequence
        },
        ScanState::Control => if '@' <= c && c <= '~' {
            ScanState::Plain
        } else {
            ScanState::Control
        },
        ScanState::Sequence => if letter {
            ScanState::Plain
        } else {
            ScanState::Sequence
        },
    }
}

/// The number of characters of `s` that remain once its ANSI escape sequences are stripped:
/// a control sequence `ESC [` runs up to its first character from `@` to `~`, and any other
/// escape sequence up to and including the first ASCII letter after the escape character.
pub fn visible_len(s: &str) -> (n: usize)
    ensures
        n == visible_text(s@).len(),
{
    let total = s.unicode_len();
    let mut len: usize = 0;
    let mut state = ScanState::Plain;
    let mut i: usize = 0;
    for c in it: s.chars()
        invariant
            total == s@.len(),
            it.seq() == s@,
            i == it.index(),
            len as nat == visible_text(s@.take(i as int)).len(),
            state == scan(s@.take(i as int)).1,
            len <= i,
    {
        proof {
            assert(s@.take(i + 1).drop_last() =~= s@.take(i as int));
        }
        if state == ScanState::Plain && c != '\x1b' {
            len = len + 1;
        }
        state = next(state, c);
        i = i + 1;
    }
    proof {
        assert(s@.take(i as int) =~= s@);
    }
    len
}

/// `n` copies of `piece`, one after the other.
pub open spec fn copies(piece: Seq<char>, n: nat) -> Seq<char>
    decreases n,
{
    if n == 0 {
        Seq::empty()
    } else {
        copies(piece, (n - 1) as nat) + piece
    }
}

/// `n` blanks.
pub open spec fn spaces(n: nat) -> Seq<char> {
    copies(seq![' '], n)
}

/// Appends `count` copies of `piece` to `out`.
pub fn append_copies(out: &mut String, piece: &str, count: usize)
    ensures
        final(out)@ == old(out)@ + copies(piece@, count as nat),
{
    let ghost start = out@;
    let mut k: usize = 0;
    while k < count
        invariant
            k <= count,
            out@ == start + copies(piece@, k as nat),
        decreases count - k,
    {
        out.append(piece);
        proof {
            assert(copies(piece@, (k + 1) as nat) == copies(piece@, k as nat) + piece@);
        }
        k = k + 1;
    }
}

/// Appends `n` blanks to `out`.
pub fn append_spaces(out: &mut String, n: usize)
    ensures
        final(out)@ == old(out)@ + spaces(n as nat),
{
    proof {
        reveal_strlit(" ");
        assert(" "@ =~= seq![' ']);
    }
    append_copies(out, " ", n);
}

/// What shows of two pieces of text put together is what shows of each, as long as the first
/// one does not leave an escape sequence open; the whole then ends in an escape exactly when
/// the second piece does.
pub proof fn lemma_visible_concat(a: Seq<char>, b: Seq<char>)
    requires
        !ends_in_escape(a),
    ensures
        visible_text(a + b) == visible_text(a) + visible_text(b),
        scan(a + b).1 == scan(b).1,
        ends_in_escape(a + b) == ends_in_escape(b),
    decreases b.len(),
{
    if b.len() == 0 {
        assert(a + b =~= a);
        assert(visible_text(a) + visible_text(b) =~= visible_text(a));
    } else {
        lemma_visible_concat(a, b.drop_last());
        assert((a + b).drop_last() =~= a + b.drop_last());
        assert((a + b).last() == b.last());
        let (vb, ob) = scan(b.drop_last());
        assert(visible_text(a) + vb.push(b.last()) =~= (visible_text(a) + vb).push(b.last()));
    }
}

/// Blanks are all visible and close no escape sequence.
pub proof fn lemma_spaces_visible(n: nat)
    ensures
        spaces(n).len() == n,
        visible_text(spaces(n)) == spaces(n),
        !ends_in_escape(spaces(n)),
    decreases n,
{
    if n > 0 {
        lemma_spaces_visible((n - 1) as nat);
        let s = spaces((n - 1) as nat);
        assert(spaces(n) == s + seq![' ']);
        assert((s + seq![' ']).drop_last() =~= s);
        assert((s + seq![' ']).last() == ' ');
    }
}

/// A piece of text without escape characters shows every character.
pub proof fn lemma_plain_visible(s: Seq<char>)
    requires
        forall|i: int| 0 <= i < s.len() ==> !is_escape(#[trigger] s[i]),
    ensures
        visible_text(s) == s,
        !ends_in_escape(s),
    decreases s.len(),
{
    if s.len() > 0 {
        lemma_plain_visible(s.drop_last());
        assert(s.drop_last().push(s.last()) =~= s);
    }
}

/// `n` copies of one character are `n` characters, all of them that character.
pub proof fn lemma_copies_char(c: char, n: nat)
    ensures
        copies(seq![c], n).len() == n,
        forall|i: int| 0 <= i < n ==> #[trigger] copies(seq![c], n)[i] == c,
    decreases n,
{
    if n > 0 {
        lemma_copies_char(c, (n - 1) as nat);
    }
}

/// A run of one character other than the escape character shows in full.
pub proof fn lemma_copies_visible(c: char, n: nat)
    requires
        !is_escape(c),
    ensures
        visible_text(copies(seq![c], n)).len() == n,
        !ends_in_escape(copies(seq![c], n)),
{
    lemma_copies_char(c, n);
    lemma_plain_visible(copies(seq![c], n));
}

/// What shows of three pieces put together, when neither of the first two leaves an escape
/// sequence open.
pub proof fn lemma_visible_concat3(a: Seq<char>, b: Seq<char>, c: Seq<char>)
    requires
        !ends_in_escape(a),
        !ends_in_escape(b),
    ensures
        visible_text(a + b + c) == visible_text(a) + visible_text(b) + visible_text(c),
        ends_in_escape(a + b + c) == ends_in_escape(c),
{
    lemma_visible_concat(a, b);
    lemma_visible_concat(a + b, c);
}

/// The decimal digit for `d < 10`.
pub open spec fn digit(d: nat) -> char {
    seq!['0', '1', '2', '3', '4', '5', '6', '7', '8', '9'][d as int]
}

/// `n` written in decimal, without leading zeros.
pub open spec fn decimal(n: nat) -> Seq<char>
    decreases n,
{
    if n < 10 {
        seq![digit(n)]
    } else {
        decimal(n / 10) + seq![digit(n % 10)]
    }
}

fn digit_str(d: u64) -> (s: &'static str)
    requires
        d < 10,
    ensures
        s@ == seq![digit(d as nat)],
{
    proof {
        reveal_strlit("0");
        reveal_strlit("1");
        reveal_strlit("2");
        reveal_strlit("3");
        reveal_strlit("4");
        reveal_strlit("5");
        reveal_strlit("6");
        reveal_strlit("7");
        reveal_strlit("8");
        reveal_strlit("9");
    }
    let s = match d {
        0 => "0",
        1 => "1",
        2 => "2",
        3 => "3",
        4 => "4",
        5 => "5",
        6 => "6",
        7 => "7",
        8 => "8",
        _ => "9",
    };
    assert(s@ =~= seq![digit(d as nat)]);
    s
}

/// Appends `n` in decimal to `out`.
pub fn append_decimal(out: &mut String, n: u64)
    ensures
        final(out)@ == old(out)@ + decimal(n as nat),
    decreases n,
{
    if n >= 10 {
        append_decimal(out, n / 10);
    }
    out.append(digit_str(n % 10));
    assert(out@ =~= old(out)@ + decimal(n as nat));
}

/// No escape character occurs in `s`.
pub open spec fn quiet(s: Seq<char>) -> bool {
    forall|i: int| 0 <= i < s.len() ==> !is_escape(#[trigger] s[i])
}

/// Reads `s` from left to right keeping where the reading stands, the characters of the
/// escape sequence being read, and the last escape sequence read to its end.
pub open spec fn code_scan(s: Seq<char>) -> (ScanState, Seq<char>, Option<Seq<char>>)
    decreases s.len(),
{
    if s.len() == 0 {
        (ScanState::Plain, Seq::empty(), None)
    } else {
        code_step(code_scan(s.drop_last()), s.last())
    }
}

/// One character of `code_scan`.
pub open spec fn code_step(at: (ScanState, Seq<char>, Option<Seq<char>>), c: char) -> (
    ScanState,
    Seq<char>,
    Option<Seq<char>>,
) {
    let (state, partial, last) = at;
    match state {
        ScanState::Plain => if is_escape(c) {
            (ScanState::Escape, seq![c], last)
        } else {
            (ScanState::Plain, Seq::empty(), last)
        },
        _ => {
            let next = next_state(state, c);
            if next == ScanState::Plain {
                (ScanState::Plain, Seq::empty(), Some(partial.push(c)))
            } else {
                (next, partial.push(c), last)
            }
        },
    }
}

/// Reading one more character.
pub proof fn lemma_code_scan_push(s: Seq<char>, c: char)
    ensures
        code_scan(s.push(c)) == code_step(code_scan(s), c),
{
    assert(s.push(c).drop_last() =~= s);
}

/// The last escape sequence of `s` that was read to its end, if any.
pub open spec fn last_code(s: Seq<char>) -> Option<Seq<char>> {
    code_scan(s).2
}

/// `s` is exactly one escape sequence, read to its end.
pub open spec fn is_code(s: Seq<char>) -> bool {
    code_scan(s) == (ScanState::Plain, Seq::<char>::empty(), Some(s))
}

/// Reading a text that ends outside any escape sequence and then more: the last escape
/// sequence is the more's, if it has one.
pub proof fn lemma_code_scan_concat(a: Seq<char>, b: Seq<char>)
    requires
        code_scan(a).0 == ScanState::Plain,
    ensures
        code_scan(a + b).0 == code_scan(b).0,
        code_scan(a + b).1 == code_scan(b).1,
        code_scan(a + b).2 == if code_scan(b).2 is Some {
            code_scan(b).2
        } else {
            code_scan(a).2
        },
    decreases b.len(),
{
    if b.len() == 0 {
        assert(a + b =~= a);
    } else {
        lemma_code_scan_concat(a, b.drop_last());
        assert((a + b).drop_last() =~= a + b.drop_last());
        assert((a + b).last() == b.last());
    }
}

/// Text without escape characters holds no escape sequence.
pub proof fn lemma_quiet_code_scan(s: Seq<char>)
    requires
        quiet(s),
    ensures
        code_scan(s) == (ScanState::Plain, Seq::<char>::empty(), None::<Seq<char>>),
    decreases s.len(),
{
    if s.len() > 0 {
        assert(quiet(s.drop_last()));
        lemma_quiet_code_scan(s.drop_last());
        assert(!is_escape(s[s.len() - 1]));
    }
}

/// Decimal numbers and runs of blanks have no escape characters.
pub proof fn lemma_quiet_pieces(n: nat, k: nat)
    ensures
        quiet(decimal(n)),
        quiet(spaces(k)),
        quiet(copies(seq![' ', ' '], k)),
    decreases n,
{
    lemma_copies_char(' ', k);
    lemma_copies_quiet(seq![' ', ' '], k);
    assert(quiet(seq![digit(n % 10)]));
    if n >= 10 {
        lemma_quiet_pieces(n / 10, k);
        lemma_quiet_concat(decimal(n / 10), seq![digit(n % 10)]);
    } else {
        assert(n % 10 == n);
    }
}

/// Copies of a text without escape characters have none either.
pub proof fn lemma_copies_quiet(piece: Seq<char>, k: nat)
    requires
        quiet(piece),
    ensures
        quiet(copies(piece, k)),
    decreases k,
{
    if k > 0 {
        lemma_copies_quiet(piece, (k - 1) as nat);
        let prev = copies(piece, (k - 1) as nat);
        assert forall|i: int| 0 <= i < copies(piece, k).len() implies !is_escape(
            #[trigger] copies(piece, k)[i],
        ) by {
            if i < prev.len() {
                assert(copies(piece, k)[i] == prev[i]);
            } else {
                assert(copies(piece, k)[i] == piece[i - prev.len()]);
            }
        }
    }
}

/// Joining texts without escape characters gives one without.
pub proof fn lemma_quiet_concat(a: Seq<char>, b: Seq<char>)
    requires
        quiet(a),
        quiet(b),
    ensures
        quiet(a + b),
{
    assert forall|i: int| 0 <= i < (a + b).len() implies !is_escape(#[trigger] (a + b)[i]) by {
        if i < a.len() {
            assert((a + b)[i] == a[i]);
        } else {
            assert((a + b)[i] == b[i - a.len()]);
        }
    }
}

} // verus!
