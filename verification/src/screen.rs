//! What is on the screen: pieces of text, each with its look, for the head line, the rows
//! and the foot line.

use crate::rows::{Row, RowView};
use crate::text::{blank, blanks, cat, cat3, chars_of, copy_text, texts};
use vstd::prelude::*;
use vstd::string::*;

verus! {

/// A colour of the text.
#[derive(Debug, Clone, Copy, PartialEq, Eq, Structural)]
pub enum Color {
    DarkGray,
    Green,
    Cyan,
    Yellow,
}

/// How a piece of text looks.
#[derive(Debug, Clone, Copy, PartialEq, Eq, Structural)]
pub struct Look {
    pub color: Option<Color>,
    pub bold: bool,
    pub dim: bool,
}

/// A piece of text with its look.
#[derive(Debug, PartialEq, Eq)]
pub struct Span {
    pub text: String,
    pub look: Look,
}

/// What a piece of text is.
#[verifier::ext_equal]
pub struct SpanView {
    pub text: Seq<char>,
    pub look: Look,
}

impl View for Span {
    type V = SpanView;

    open spec fn view(&self) -> SpanView {
        SpanView { text: self.text@, look: self.look }
    }
}

/// What the pieces of `spans` are, in order.
pub open spec fn spans_view(spans: Seq<Span>) -> Seq<SpanView> {
    Seq::new(spans.len(), |i: int| spans[i]@)
}

/// The look without a colour.
pub open spec fn raw() -> Look {
    Look { color: None, bold: false, dim: false }
}

/// The look of a colour.
pub open spec fn painted(color: Color) -> Look {
    Look { color: Some(color), bold: false, dim: false }
}

/// The look of the selected variant of a union.
pub open spec fn chosen_look() -> Look {
    Look { color: Some(Color::Green), bold: true, dim: false }
}

/// The marker in front of a row. A variant shows whether it is selected; any other row
/// shows, in one column each, whether it is expanded and whether it is an optional field
/// that is included.
pub open spec fn marker_text(row: RowView) -> Seq<char> {
    if row.is_variant_child {
        if row.is_selected_variant {
            "●  "@
        } else {
            "○  "@
        }
    } else {
        let arrow = if row.expandable {
            if row.expanded {
                "▼"@
            } else {
                "▶"@
            }
        } else {
            " "@
        };
        let mark = if !row.is_required && row.included {
            "+"@
        } else {
            " "@
        };
        arrow + mark + " "@
    }
}

/// The look of the marker in front of a row.
pub open spec fn marker_look(row: RowView) -> Look {
    if row.is_variant_child && row.is_selected_variant {
        chosen_look()
    } else if !row.is_variant_child && !row.is_required && row.included {
        painted(Color::Green)
    } else {
        painted(Color::DarkGray)
    }
}

/// The label of a row: an optional field stands in brackets.
pub open spec fn label_text(row: RowView) -> Seq<char> {
    if row.is_required || row.is_variant_child {
        row.label
    } else {
        "["@ + row.label + "]"@
    }
}

/// The look of the label of a row.
pub open spec fn label_look(row: RowView) -> Look {
    if row.is_variant_child {
        if row.is_selected_variant {
            chosen_look()
        } else {
            Look { color: None, bold: false, dim: true }
        }
    } else if row.is_required {
        Look { color: None, bold: true, dim: false }
    } else if row.included {
        raw()
    } else {
        Look { color: None, bold: false, dim: true }
    }
}

/// The look of the description of a type: a name is cyan, a string green.
pub open spec fn type_look(desc: Seq<char>) -> Look {
    if desc.len() > 0 && desc[0] == '<' {
        painted(Color::Cyan)
    } else if desc.len() > 0 && desc[0] == '"' {
        painted(Color::Green)
    } else {
        raw()
    }
}

/// A piece of text in the look `look`.
pub open spec fn piece(text: Seq<char>, look: Look) -> SpanView {
    SpanView { text, look }
}

/// The pieces that show `notes`, each behind two blanks.
pub open spec fn note_spans(notes: Seq<Seq<char>>) -> Seq<SpanView>
    decreases notes.len(),
{
    if notes.len() == 0 {
        Seq::empty()
    } else {
        note_spans(notes.drop_last()) + seq![
            piece("  "@, raw()),
            piece(notes.last(), painted(Color::DarkGray)),
        ]
    }
}

/// The pieces that show a row: its indentation, its marker and its label; the
/// description of its type, where it has one; its annotations; and its default value,
/// where it has one.
pub open spec fn row_spans(row: RowView) -> Seq<SpanView> {
    let head = seq![
        piece(blanks(2 * row.depth), raw()),
        piece(marker_text(row), marker_look(row)),
        piece(label_text(row), label_look(row)),
    ];
    let desc = if row.type_desc.len() > 0 {
        seq![piece(": "@, raw()), piece(row.type_desc, type_look(row.type_desc))]
    } else {
        Seq::empty()
    };
    let def = match row.default {
        Some(d) => seq![
            piece("  "@, raw()),
            piece("(default: "@ + d + ")"@, painted(Color::DarkGray)),
        ],
        None => Seq::empty(),
    };
    head + desc + note_spans(row.annotations) + def
}

/// The pieces of the head line: the name of the program and the title.
pub open spec fn header_spans(title: Seq<char>) -> Seq<SpanView> {
    seq![
        piece("schema-tui  "@, Look { color: None, bold: true, dim: false }),
        piece("· "@ + title, painted(Color::DarkGray)),
    ]
}

/// A key of the foot line and what it does.
pub open spec fn hint(key: Seq<char>, text: Seq<char>) -> Seq<SpanView> {
    seq![piece(key, painted(Color::Yellow)), piece(text, raw())]
}

/// The pieces of the foot line: the keys and what they do.
pub open spec fn footer_spans() -> Seq<SpanView> {
    hint("↑↓"@, " move   "@) + hint("Enter"@, " peek / pick variant   "@) + hint(
        "space"@,
        " include in output   "@,
    ) + hint("←"@, " collapse   "@) + hint("q"@, " export   "@) + hint("Esc"@, " cancel"@)
}

/// The marker in front of a row, and its look.
pub fn build_marker(row: &Row) -> (r: (String, Look))
    ensures
        r.0@ == marker_text(row@),
        r.1 == marker_look(row@),
{
    if row.is_variant_child {
        return if row.is_selected_variant {
            (copy_text("●  "), Look { color: Some(Color::Green), bold: true, dim: false })
        } else {
            (copy_text("○  "), Look { color: Some(Color::DarkGray), bold: false, dim: false })
        };
    }
    let arrow = if row.expandable {
        if row.expanded {
            "▼"
        } else {
            "▶"
        }
    } else {
        " "
    };
    // For optional fields, second column shows '+' when included.
    let shown = !row.is_required && row.included;
    let mark = if shown {
        "+"
    } else {
        " "
    };
    let color = if shown {
        Color::Green
    } else {
        Color::DarkGray
    };
    (cat3(arrow, mark, " "), Look { color: Some(color), bold: false, dim: false })
}

/// The look of the description of a type.
fn look_of_type(desc: &str) -> (r: Look)
    ensures
        r == type_look(desc@),
{
    let x = chars_of(desc);
    let color = if x.len() > 0 && x[0] == '<' {
        Some(Color::Cyan)
    } else if x.len() > 0 && x[0] == '"' {
        Some(Color::Green)
    } else {
        None
    };
    Look { color, bold: false, dim: false }
}

/// Twice `depth` blanks.
fn indentation(depth: usize) -> (r: String)
    ensures
        r@ == blanks(2 * depth as nat),
{
    let half = blank(depth);
    let r = cat(&half, &half);
    assert(r@ =~= blanks(2 * depth as nat));
    r
}

/// What pieces are after one more was added.
proof fn lemma_spans_push(spans: Seq<Span>, s: Span)
    ensures
        spans_view(spans.push(s)) == spans_view(spans).push(s@),
{
    assert(spans_view(spans.push(s)) =~= spans_view(spans).push(s@));
}

/// Adds a piece of text.
fn push_span(spans: &mut Vec<Span>, text: String, look: Look)
    ensures
        spans_view(final(spans)@) == spans_view(old(spans)@).push(piece(text@, look)),
{
    let span = Span { text, look };
    proof {
        lemma_spans_push(spans@, span);
    }
    spans.push(span);
}

/// The pieces of the head line.
pub fn header(title: &str) -> (r: Vec<Span>)
    ensures
        spans_view(r@) == header_spans(title@),
{
    let mut spans: Vec<Span> = Vec::new();
    assert(spans_view(spans@) =~= Seq::<SpanView>::empty());
    push_span(
        &mut spans,
        copy_text("schema-tui  "),
        Look { color: None, bold: true, dim: false },
    );
    push_span(
        &mut spans,
        cat("· ", title),
        Look { color: Some(Color::DarkGray), bold: false, dim: false },
    );
    assert(spans_view(spans@) =~= header_spans(title@));
    spans
}

/// Adds a key of the foot line and what it does.
fn push_hint(spans: &mut Vec<Span>, key: &str, text: &str)
    ensures
        spans_view(final(spans)@) == spans_view(old(spans)@) + hint(key@, text@),
{
    push_span(
        spans,
        copy_text(key),
        Look { color: Some(Color::Yellow), bold: false, dim: false },
    );
    push_span(spans, copy_text(text), Look { color: None, bold: false, dim: false });
    assert(spans_view(spans@) =~= spans_view(old(spans)@) + hint(key@, text@));
}

/// The pieces of the foot line.
pub fn footer() -> (r: Vec<Span>)
    ensures
        spans_view(r@) == footer_spans(),
{
    let mut spans: Vec<Span> = Vec::new();
    assert(spans_view(spans@) =~= Seq::<SpanView>::empty());
    push_hint(&mut spans, "↑↓", " move   ");
    push_hint(&mut spans, "Enter", " peek / pick variant   ");
    push_hint(&mut spans, "space", " include in output   ");
    push_hint(&mut spans, "←", " collapse   ");
    push_hint(&mut spans, "q", " export   ");
    push_hint(&mut spans, "Esc", " cancel");
    assert(spans_view(spans@) =~= footer_spans());
    spans
}

/// The pieces that show a row.
pub fn row_to_item(row: &Row) -> (r: Vec<Span>)
    ensures
        spans_view(r@) == row_spans(row@),
{
    let plain = Look { color: None, bold: false, dim: false };
    let gray = Look { color: Some(Color::DarkGray), bold: false, dim: false };
    let (marker, marker_style) = build_marker(row);
    let label = if row.is_required || row.is_variant_child {
        row.label.clone()
    } else {
        cat3("[", &row.label, "]")
    };
    let label_style = if row.is_variant_child {
        if row.is_selected_variant {
            Look { color: Some(Color::Green), bold: true, dim: false }
        } else {
            Look { color: None, bold: false, dim: true }
        }
    } else if row.is_required {
        Look { color: None, bold: true, dim: false }
    } else if row.included {
        plain
    } else {
        Look { color: None, bold: false, dim: true }
    };
    let mut spans: Vec<Span> = Vec::new();
    assert(spans_view(spans@) =~= Seq::<SpanView>::empty());
    push_span(&mut spans, indentation(row.depth), plain);
    push_span(&mut spans, marker, marker_style);
    push_span(&mut spans, label, label_style);
    let ghost head = spans_view(spans@);
    proof {
        assert(head =~= seq![
            piece(blanks(2 * row@.depth), raw()),
            piece(marker_text(row@), marker_look(row@)),
            piece(label_text(row@), label_look(row@)),
        ]);
    }
    let ghost desc: Seq<SpanView> = if row@.type_desc.len() > 0 {
        seq![piece(": "@, raw()), piece(row@.type_desc, type_look(row@.type_desc))]
    } else {
        Seq::empty()
    };
    if chars_of(&row.type_desc).len() > 0 {
        push_span(&mut spans, copy_text(": "), plain);
        let type_style = look_of_type(&row.type_desc);
        push_span(&mut spans, row.type_desc.clone(), type_style);
    }
    assert(spans_view(spans@) =~= head + desc);
    let ghost notes = texts(row.annotations@);
    let mut i: usize = 0;
    assert(spans_view(spans@) =~= head + desc + note_spans(notes.take(0)));
    while i < row.annotations.len()
        invariant
            plain == raw(),
            gray == painted(Color::DarkGray),
            notes == texts(row.annotations@),
            i <= row.annotations.len(),
            spans_view(spans@) == head + desc + note_spans(notes.take(i as int)),
        decreases row.annotations.len() - i,
    {
        assert(notes.take(i + 1).drop_last() =~= notes.take(i as int));
        push_span(&mut spans, copy_text("  "), plain);
        push_span(&mut spans, row.annotations[i].clone(), gray);
        assert(spans_view(spans@) =~= head + desc + note_spans(notes.take(i + 1)));
        i += 1;
    }
    assert(notes.take(notes.len() as int) =~= notes);
    if let Some(def) = &row.default {
        push_span(&mut spans, copy_text("  "), plain);
        push_span(&mut spans, cat3("(default: ", def, ")"), gray);
    }
    assert(spans_view(spans@) =~= row_spans(row@));
    spans
}

} // verus!
