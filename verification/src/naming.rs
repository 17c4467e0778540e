//! Names and texts by which schemas, types and references are displayed.

use crate::text::{after_last, cat3, chars_of, copy_text, same, tail_after_last};
use vstd::prelude::*;

verus! {

/// Whether `c` has Unicode's `Uppercase` property.
pub uninterp spec fn char_is_uppercase(c: char) -> bool;

/// `char::is_uppercase`: whether the character has Unicode's `Uppercase`
/// property. Of the ASCII characters, those that have it are `A` to `Z`.
#[verifier::external_body]
fn is_uppercase(c: char) -> (r: bool)
    ensures
        r == char_is_uppercase(c),
        c <= '\u{7f}' ==> r == ('A' <= c <= 'Z'),
{
    c.is_uppercase()
}

/// `c` is upper case: an ASCII capital letter, or, beyond ASCII, a character that
/// Unicode counts as such.
pub open spec fn uppercase(c: char) -> bool {
    if c <= '\u{7f}' {
        'A' <= c <= 'Z'
    } else {
        char_is_uppercase(c)
    }
}

/// `c` with an ASCII capital letter turned into the small one.
pub open spec fn ascii_lower(c: char) -> char {
    if 'A' <= c <= 'Z' {
        (c as u8 + 32) as char
    } else {
        c
    }
}

/// `s` in small letters, with an underscore in front of each character that
/// `upper` marks, but for the first.
pub open spec fn snake_with(s: Seq<char>, upper: Seq<bool>) -> Seq<char>
    decreases s.len(),
{
    if s.len() == 0 {
        Seq::empty()
    } else {
        let init = snake_with(s.drop_last(), upper);
        let last = ascii_lower(s.last());
        if upper[s.len() - 1] && s.len() > 1 {
            init.push('_').push(last)
        } else {
            init.push(last)
        }
    }
}

/// Which characters of `s` are upper case.
pub open spec fn uppercase_marks(s: Seq<char>) -> Seq<bool> {
    Seq::new(s.len(), |i: int| uppercase(s[i]))
}

/// `s` in `snake_case`.
pub open spec fn snake(s: Seq<char>) -> Seq<char> {
    snake_with(s, uppercase_marks(s))
}

/// `s` in small letters, with an underscore in front of each character that
/// `upper` marks, but for the first.
pub fn snake_case_with(s: &str, upper: &Vec<bool>) -> (r: String)
    requires
        upper.len() == s@.len(),
    ensures
        r@ == snake_with(s@, upper@),
{
    let x = chars_of(s);
    let mut out = String::new();
    let mut i: usize = 0;
    while i < x.len()
        invariant
            x@ == s@,
            upper.len() == x.len(),
            i <= x.len(),
            out@ == snake_with(x@.take(i as int), upper@),
        decreases x.len() - i,
    {
        assert(x@.take(i + 1).drop_last() =~= x@.take(i as int));
        let c = x[i];
        if upper[i] && i > 0 {
            out.push('_');
        }
        let low = if 'A' <= c && c <= 'Z' {
            (c as u8 + 32) as char
        } else {
            c
        };
        out.push(low);
        i += 1;
    }
    assert(x@.take(x.len() as int) =~= x@);
    out
}

/// A name in `snake_case` has no ASCII capital letters.
pub proof fn lemma_snake_has_no_capitals(s: Seq<char>, upper: Seq<bool>, i: int)
    requires
        0 <= i < snake_with(s, upper).len(),
    ensures
        !('A' <= snake_with(s, upper)[i] <= 'Z'),
    decreases s.len(),
{
    if s.len() > 0 {
        let init = snake_with(s.drop_last(), upper);
        if i < init.len() {
            lemma_snake_has_no_capitals(s.drop_last(), upper, i);
        }
    }
}

/// Putting a name in `snake_case` brings in small letters and underscores only.
pub proof fn lemma_snake_brings_in(s: Seq<char>, upper: Seq<bool>, c: char)
    requires
        snake_with(s, upper).contains(c),
    ensures
        s.contains(c) || c == '_' || 'a' <= c <= 'z',
    decreases s.len(),
{
    if s.len() > 0 {
        let all = snake_with(s, upper);
        let init = snake_with(s.drop_last(), upper);
        let i = choose|i: int| 0 <= i < all.len() && all[i] == c;
        if i < init.len() {
            assert(init[i] == c);
            lemma_snake_brings_in(s.drop_last(), upper, c);
            if s.drop_last().contains(c) {
                let j = choose|j: int| 0 <= j < s.drop_last().len() && s.drop_last()[j] == c;
                assert(s[j] == c);
            }
        } else if c != '_' && !('a' <= c <= 'z') {
            assert(s[s.len() - 1] == c);
        }
    }
}

/// A name that has no upper-case character stays as it is.
pub proof fn lemma_snake_keeps_small_letters(s: Seq<char>, upper: Seq<bool>)
    requires
        upper.len() == s.len(),
        forall|i: int| 0 <= i < s.len() ==> !upper[i] && !('A' <= s[i] <= 'Z'),
    ensures
        snake_with(s, upper) == s,
    decreases s.len(),
{
    if s.len() > 0 {
        let init = s.drop_last();
        assert(upper.drop_last().len() == init.len());
        lemma_snake_by_marks(init, upper, upper.drop_last());
        lemma_snake_keeps_small_letters(init, upper.drop_last());
        assert(s =~= init.push(s.last()));
    } else {
        assert(snake_with(s, upper) =~= s);
    }
}

/// Only the marks of its own characters count for a name.
proof fn lemma_snake_by_marks(s: Seq<char>, a: Seq<bool>, b: Seq<bool>)
    requires
        forall|i: int| 0 <= i < s.len() ==> a[i] == b[i],
    ensures
        snake_with(s, a) == snake_with(s, b),
    decreases s.len(),
{
    if s.len() > 0 {
        lemma_snake_by_marks(s.drop_last(), a, b);
    }
}

/// An ASCII name without capital letters stays as it is in `snake_case`.
pub proof fn lemma_snake_keeps_ascii(s: Seq<char>)
    requires
        forall|i: int| 0 <= i < s.len() ==> s[i] <= '\u{7f}' && !('A' <= s[i] <= 'Z'),
    ensures
        snake(s) == s,
{
    lemma_snake_keeps_small_letters(s, uppercase_marks(s));
}

/// Convert a `PascalCase`/`camelCase` type name to `snake_case`.
pub fn snake_case(s: &str) -> (r: String)
    ensures
        r@ == snake(s@),
{
    let x = chars_of(s);
    let mut upper: Vec<bool> = Vec::new();
    let mut i: usize = 0;
    while i < x.len()
        invariant
            x@ == s@,
            i <= x.len(),
            upper@ == uppercase_marks(x@).take(i as int),
        decreases x.len() - i,
    {
        upper.push(is_uppercase(x[i]));
        i += 1;
        assert(upper@ =~= uppercase_marks(x@).take(i as int));
    }
    assert(upper@ =~= uppercase_marks(s@));
    snake_case_with(s, &upper)
}

/// The trailing segment of a `$ref` pointer.
pub open spec fn ref_target(r: Seq<char>) -> Seq<char> {
    after_last(r, '/')
}

/// The trailing segment is the end of the pointer, behind its last slash, and has no
/// slash in it.
pub proof fn lemma_ref_target(r: Seq<char>)
    ensures
        !ref_target(r).contains('/'),
        ref_target(r).len() <= r.len(),
        r.skip(r.len() - ref_target(r).len()) == ref_target(r),
        ref_target(r).len() < r.len() ==> r[r.len() - ref_target(r).len() - 1] == '/',
    decreases r.len(),
{
    if r.len() == 0 {
        assert(r.skip(0) =~= r);
    } else if r.last() == '/' {
        assert(r.skip(r.len() as int) =~= Seq::<char>::empty());
    } else {
        let init = r.drop_last();
        lemma_ref_target(init);
        let t = ref_target(init);
        let from = init.len() - t.len();
        assert(r.skip(from) =~= init.skip(from).push(r.last()));
        assert forall|i: int| 0 <= i < t.len() + 1 implies t.push(r.last())[i] != '/' by {
            if i < t.len() {
                assert(t.contains(t[i]));
            }
        }
    }
}

/// The trailing segment of a `$ref` pointer, e.g. `#/definitions/Foo` -> `Foo`.
pub fn ref_name(r: &str) -> (name: String)
    ensures
        name@ == ref_target(r@),
{
    tail_after_last(r, '/')
}

/// Display name for the `format` of a string schema.
pub open spec fn format_name(format: Option<Seq<char>>) -> Seq<char> {
    match format {
        None => "String"@,
        Some(f) => if f == "uuid"@ {
            "Uuid"@
        } else if f == "date-time"@ {
            "DateTime"@
        } else if f == "ip"@ {
            "IpAddr"@
        } else if f == "ipv4"@ {
            "Ipv4Addr"@
        } else if f == "ipv6"@ {
            "Ipv6Addr"@
        } else if f == "byte"@ {
            "Base64"@
        } else {
            "String ("@ + f + ")"@
        },
    }
}

/// Display name for a string schema's `format`, e.g. `"uuid"` -> `Uuid`,
/// `"date-time"` -> `DateTime`. Unknown formats render as `String (<format>)`;
/// no format renders as `String`.
pub fn string_format_name(format: Option<&str>) -> (r: String)
    ensures
        r@ == format_name(
            match format {
                Some(f) => Some(f@),
                None => None,
            },
        ),
{
    match format {
        None => copy_text("String"),
        Some(f) => if same(f, "uuid") {
            copy_text("Uuid")
        } else if same(f, "date-time") {
            copy_text("DateTime")
        } else if same(f, "ip") {
            copy_text("IpAddr")
        } else if same(f, "ipv4") {
            copy_text("Ipv4Addr")
        } else if same(f, "ipv6") {
            copy_text("Ipv6Addr")
        } else if same(f, "byte") {
            copy_text("Base64")
        } else {
            cat3("String (", f, ")")
        },
    }
}

} // verus!
