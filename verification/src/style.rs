//! Colours on a terminal: ANSI escape sequences round a text, and the width of a
//! text without them.

use crate::text::{chars_of, copy_text};
use vstd::prelude::*;
use vstd::string::*;

verus! {

/// The character that opens an escape sequence.
pub const ESC: char = '\u{1b}';

/// `c` is an ASCII letter, which closes an escape sequence.
pub open spec fn ascii_letter(c: char) -> bool {
    'a' <= c <= 'z' || 'A' <= c <= 'Z'
}

/// Whether the end of `s` is inside an escape sequence, where its start is inside
/// one if `inside` says so.
pub open spec fn ends_inside(s: Seq<char>, inside: bool) -> bool
    decreases s.len(),
{
    if s.len() == 0 {
        inside
    } else if ends_inside(s.drop_last(), inside) {
        !ascii_letter(s.last())
    } else {
        s.last() == ESC
    }
}

/// The characters of `s` outside escape sequences, where its start is inside one
/// if `inside` says so.
pub open spec fn outside(s: Seq<char>, inside: bool) -> Seq<char>
    decreases s.len(),
{
    if s.len() == 0 {
        s
    } else if ends_inside(s.drop_last(), inside) || s.last() == ESC {
        outside(s.drop_last(), inside)
    } else {
        outside(s.drop_last(), inside).push(s.last())
    }
}

/// What is seen of `s` on a terminal: its characters outside escape sequences.
pub open spec fn visible(s: Seq<char>) -> Seq<char> {
    outside(s, false)
}

/// The number of characters of `s` outside ANSI escape sequences.
pub fn plain_len(s: &str) -> (len: usize)
    ensures
        len == visible(s@).len(),
{
    let x = chars_of(s);
    let mut len: usize = 0;
    let mut in_esc = false;
    let mut i: usize = 0;
    while i < x.len()
        invariant
            x@ == s@,
            i <= x.len(),
            len <= i,
            len == visible(x@.take(i as int)).len(),
            in_esc == ends_inside(x@.take(i as int), false),
        decreases x.len() - i,
    {
        assert(x@.take(i + 1).drop_last() =~= x@.take(i as int));
        let c = x[i];
        if in_esc {
            if ('a' <= c && c <= 'z') || ('A' <= c && c <= 'Z') {
                in_esc = false;
            }
        } else if c == ESC {
            in_esc = true;
        } else {
            len += 1;
        }
        i += 1;
    }
    assert(x@.take(x.len() as int) =~= x@);
    len
}

/// `s` in the rendition `code`, where colours are on.
pub open spec fn rendition(on: bool, code: Seq<char>, s: Seq<char>) -> Seq<char> {
    if on {
        "\x1b["@ + code + "m"@ + s + "\x1b[0m"@
    } else {
        s
    }
}

/// `s` dimmed.
pub open spec fn dimmed(on: bool, s: Seq<char>) -> Seq<char> {
    rendition(on, "2"@, s)
}

/// `s` in bold type.
pub open spec fn bolded(on: bool, s: Seq<char>) -> Seq<char> {
    rendition(on, "1"@, s)
}

/// `s` in cyan.
pub open spec fn in_cyan(on: bool, s: Seq<char>) -> Seq<char> {
    rendition(on, "36"@, s)
}

/// `s` in green.
pub open spec fn in_green(on: bool, s: Seq<char>) -> Seq<char> {
    rendition(on, "32"@, s)
}

/// `s` in bold yellow.
pub open spec fn in_yellow(on: bool, s: Seq<char>) -> Seq<char> {
    rendition(on, "1;33"@, s)
}

/// Whether colours are on.
#[derive(Debug, Clone, Copy, PartialEq, Eq)]
pub struct Style {
    pub enabled: bool,
}

impl Style {
    /// The style with colours on or off.
    pub fn new(enabled: bool) -> (r: Style)
        ensures
            r.enabled == enabled,
    {
        Style { enabled }
    }

    /// `s` in the rendition `code`.
    pub fn wrap(&self, code: &str, s: &str) -> (r: String)
        ensures
            r@ == rendition(self.enabled, code@, s@),
    {
        if self.enabled {
            let mut r = copy_text("\x1b[");
            r.append(code);
            r.append("m");
            r.append(s);
            r.append("\x1b[0m");
            r
        } else {
            copy_text(s)
        }
    }

    /// `s` dimmed.
    pub fn dim(&self, s: &str) -> (r: String)
        ensures
            r@ == dimmed(self.enabled, s@),
    {
        self.wrap("2", s)
    }

    /// `s` in bold type.
    pub fn bold(&self, s: &str) -> (r: String)
        ensures
            r@ == bolded(self.enabled, s@),
    {
        self.wrap("1", s)
    }

    /// `s` in cyan.
    pub fn cyan(&self, s: &str) -> (r: String)
        ensures
            r@ == in_cyan(self.enabled, s@),
    {
        self.wrap("36", s)
    }

    /// `s` in green.
    pub fn green(&self, s: &str) -> (r: String)
        ensures
            r@ == in_green(self.enabled, s@),
    {
        self.wrap("32", s)
    }

    /// `s` in bold yellow.
    pub fn bold_yellow(&self, s: &str) -> (r: String)
        ensures
            r@ == in_yellow(self.enabled, s@),
    {
        self.wrap("1;33", s)
    }
}

/// Output is coloured: never where `NO_COLOR` is set, else always where `CLICOLOR_FORCE` is
/// set, else where it goes to a terminal.
pub open spec fn wants_colour(no_color: bool, clicolor_force: bool, is_terminal: bool) -> bool {
    !no_color && (clicolor_force || is_terminal)
}

/// `NO_COLOR` wins over `CLICOLOR_FORCE`, and that over the terminal.
pub proof fn lemma_when_coloured(no_color: bool, clicolor_force: bool, is_terminal: bool)
    ensures
        no_color ==> !wants_colour(no_color, clicolor_force, is_terminal),
        !no_color && clicolor_force ==> wants_colour(no_color, clicolor_force, is_terminal),
        !no_color && !clicolor_force ==> wants_colour(no_color, clicolor_force, is_terminal)
            == is_terminal,
{
}

/// Whether output is coloured: never where `NO_COLOR` is set, else always where
/// `CLICOLOR_FORCE` is set, else where it goes to a terminal.
pub fn should_colorize(no_color: bool, clicolor_force: bool, is_terminal: bool) -> (r: bool)
    ensures
        r == (!no_color && (clicolor_force || is_terminal)),
        r == wants_colour(no_color, clicolor_force, is_terminal),
{
    if no_color {
        return false;
    }
    if clicolor_force {
        return true;
    }
    is_terminal
}

/// The start of a text decides what is seen of its end only by whether it breaks
/// off inside an escape sequence.
pub proof fn lemma_outside_add(a: Seq<char>, b: Seq<char>, inside: bool)
    ensures
        ends_inside(a + b, inside) == ends_inside(b, ends_inside(a, inside)),
        outside(a + b, inside) == outside(a, inside) + outside(b, ends_inside(a, inside)),
    decreases b.len(),
{
    if b.len() == 0 {
        assert(a + b =~= a);
        assert(outside(a, inside) + outside(b, ends_inside(a, inside)) =~= outside(a, inside));
    } else {
        assert((a + b).drop_last() =~= a + b.drop_last());
        lemma_outside_add(a, b.drop_last(), inside);
    }
}

/// Inside an escape sequence nothing is seen up to the letter that closes it.
pub proof fn lemma_inside(s: Seq<char>)
    requires
        forall|i: int| 0 <= i < s.len() ==> !ascii_letter(s[i]),
    ensures
        ends_inside(s, true),
        outside(s, true) == Seq::<char>::empty(),
    decreases s.len(),
{
    if s.len() > 0 {
        lemma_inside(s.drop_last());
    } else {
        assert(s =~= Seq::<char>::empty());
    }
}

/// Colours change nothing of what is seen, nor of its width: what is seen of a
/// text in some rendition is what is seen of the text.
pub proof fn lemma_rendition_unseen(on: bool, code: Seq<char>, s: Seq<char>)
    requires
        forall|i: int| 0 <= i < code.len() ==> !ascii_letter(code[i]),
    ensures
        visible(rendition(on, code, s)) == visible(s),
{
    if on {
        reveal_strlit("\x1b[");
        reveal_strlit("m");
        reveal_strlit("\x1b[0m");
        let open = "\x1b["@;
        let close = "\x1b[0m"@;
        assert(open =~= seq![ESC] + seq!['[']);
        assert(close =~= seq![ESC] + seq!['[', '0'] + seq!['m']);
        assert("m"@ =~= seq!['m']);
        reveal_with_fuel(outside, 3);
        reveal_with_fuel(ends_inside, 3);
        assert(open.drop_last() =~= seq![ESC]);
        assert(seq![ESC].drop_last() =~= Seq::<char>::empty());
        lemma_inside(code);
        lemma_outside_add(open, code, false);
        assert(seq!['m'].drop_last() =~= Seq::<char>::empty());
        lemma_outside_add(open + code, "m"@, false);
        let head = open + code + "m"@;
        assert(outside(head, false) =~= Seq::<char>::empty());
        assert(!ends_inside(head, false));
        lemma_outside_add(head, s, false);
        lemma_outside_add(head + s, close, false);
        let e = ends_inside(s, false);
        lemma_inside(seq!['[', '0']);
        lemma_inside(seq![ESC] + seq!['[', '0']);
        lemma_outside_add(seq![ESC], seq!['[', '0'], e);
        lemma_outside_add(seq![ESC] + seq!['[', '0'], seq!['m'], e);
        assert(outside(close, e) =~= Seq::<char>::empty());
        assert(visible(rendition(on, code, s)) =~= visible(s));
    }
}

} // verus!
