//! What is seen of each row.

use crate::rows::RowView;
use crate::schema::title;
use crate::screen::{
    footer_spans, header_spans, note_spans, painted, piece, raw, row_spans, Color, Look,
};
use vstd::prelude::*;

verus! {

/// `look` is plain.
pub open spec fn is_plain(look: Look) -> bool {
    look.color is None && !look.bold && !look.dim
}

/// `look` is the colour `color`, neither bold nor dimmed.
pub open spec fn is_colour(look: Look, color: Color) -> bool {
    look.color == Some(color) && !look.bold && !look.dim
}

/// A row starts with two blanks for each level it is below the root.
pub proof fn lemma_row_is_indented(row: RowView)
    ensures
        row_spans(row).len() >= 3,
        row_spans(row)[0].text.len() == 2 * row.depth,
        forall|i: int| 0 <= i < 2 * row.depth ==> #[trigger] row_spans(row)[0].text[i] == ' ',
        is_plain(row_spans(row)[0].look),
{
}

/// The marker of a row that is no variant has three columns: an arrow, down where the row
/// is expanded and else to the right, blank where there is nothing to expand; `+` exactly
/// where the field is optional and included; and a blank.
pub proof fn lemma_marker_of_field(row: RowView)
    requires
        !row.is_variant_child,
    ensures
        row_spans(row)[1].text.len() == 3,
        row_spans(row)[1].text[0] == '▼' <==> row.expandable && row.expanded,
        row_spans(row)[1].text[0] == '▶' <==> row.expandable && !row.expanded,
        row_spans(row)[1].text[0] == ' ' <==> !row.expandable,
        row_spans(row)[1].text[1] == '+' <==> !row.is_required && row.included,
        row_spans(row)[1].text[1] == ' ' <==> row.is_required || !row.included,
        row_spans(row)[1].text[2] == ' ',
        is_colour(
            row_spans(row)[1].look,
            if !row.is_required && row.included {
                Color::Green
            } else {
                Color::DarkGray
            },
        ),
{
    reveal_strlit("▼");
    reveal_strlit("▶");
    reveal_strlit("+");
    reveal_strlit(" ");
}

/// The marker of a variant has a full circle where it is selected, in bold green, else an
/// empty one, and two blanks.
pub proof fn lemma_marker_of_variant(row: RowView)
    requires
        row.is_variant_child,
    ensures
        row_spans(row)[1].text.len() == 3,
        row_spans(row)[1].text[0] == if row.is_selected_variant {
            '●'
        } else {
            '○'
        },
        row_spans(row)[1].text[1] == ' ',
        row_spans(row)[1].text[2] == ' ',
        row.is_selected_variant ==> row_spans(row)[1].look.color == Some(Color::Green)
            && row_spans(row)[1].look.bold && !row_spans(row)[1].look.dim,
        !row.is_selected_variant ==> is_colour(row_spans(row)[1].look, Color::DarkGray),
{
    reveal_strlit("●  ");
    reveal_strlit("○  ");
}

/// The label of an optional field stands in square brackets, that of any other row as it
/// is.
pub proof fn lemma_label_of_row(row: RowView)
    ensures
        row.is_required || row.is_variant_child ==> row_spans(row)[2].text == row.label,
        !row.is_required && !row.is_variant_child ==> row_spans(row)[2].text == seq!['[']
            + row.label + seq![']'],
{
    reveal_strlit("[");
    reveal_strlit("]");
    assert("["@ =~= seq!['[']);
    assert("]"@ =~= seq![']']);
}

/// The label of a required field is bold; that of an optional one plain where it is
/// included and else dimmed; that of the selected variant bold and green, and that of any
/// other variant dimmed.
pub proof fn lemma_look_of_label(row: RowView)
    ensures
        row_spans(row)[2].look.color == if row.is_variant_child && row.is_selected_variant {
            Some(Color::Green)
        } else {
            None
        },
        row_spans(row)[2].look.bold <==> (if row.is_variant_child {
            row.is_selected_variant
        } else {
            row.is_required
        }),
        row_spans(row)[2].look.dim <==> (if row.is_variant_child {
            !row.is_selected_variant
        } else {
            !row.is_required && !row.included
        }),
{
}

/// The number of pieces that stand before the annotations of a row.
pub open spec fn before_notes(row: RowView) -> int {
    if row.type_desc.len() > 0 {
        5
    } else {
        3
    }
}

/// The type of a row follows its label behind a colon, cyan where it is a name, green
/// where it is a string; a row without a type has no such pieces.
pub proof fn lemma_type_of_row(row: RowView)
    requires
        row.type_desc.len() > 0,
    ensures
        row_spans(row).len() >= 5,
        row_spans(row)[3].text == seq![':', ' '],
        is_plain(row_spans(row)[3].look),
        row_spans(row)[4].text == row.type_desc,
        row.type_desc[0] == '<' ==> is_colour(row_spans(row)[4].look, Color::Cyan),
        row.type_desc[0] == '"' ==> is_colour(row_spans(row)[4].look, Color::Green),
        row.type_desc[0] != '<' && row.type_desc[0] != '"' ==> is_plain(row_spans(row)[4].look),
{
    reveal_strlit(": ");
    assert(": "@ =~= seq![':', ' ']);
}

/// Notes are shown each behind two blanks.
proof fn lemma_notes(notes: Seq<Seq<char>>)
    ensures
        note_spans(notes).len() == 2 * notes.len(),
        forall|j: int|
            #![trigger notes[j]]
            0 <= j < notes.len() ==> note_spans(notes)[2 * j] == piece("  "@, raw())
                && note_spans(notes)[2 * j + 1] == piece(notes[j], painted(Color::DarkGray)),
    decreases notes.len(),
{
    if notes.len() > 0 {
        let init = notes.drop_last();
        lemma_notes(init);
        let some = note_spans(init);
        assert forall|j: int|
            #![trigger notes[j]]
            0 <= j < notes.len() implies note_spans(notes)[2 * j] == piece("  "@, raw())
            && note_spans(notes)[2 * j + 1] == piece(notes[j], painted(Color::DarkGray)) by {
            if j < init.len() {
                assert(init[j] == notes[j]);
                assert(note_spans(notes)[2 * j] == some[2 * j]);
                assert(note_spans(notes)[2 * j + 1] == some[2 * j + 1]);
            }
        }
    }
}

/// Each annotation of a row is shown in grey, behind two blanks, in order.
pub proof fn lemma_annotations_of_row(row: RowView, j: int)
    requires
        0 <= j < row.annotations.len(),
    ensures
        row_spans(row).len() >= before_notes(row) + 2 * row.annotations.len(),
        row_spans(row)[before_notes(row) + 2 * j].text == seq![' ', ' '],
        is_plain(row_spans(row)[before_notes(row) + 2 * j].look),
        row_spans(row)[before_notes(row) + 2 * j + 1].text == row.annotations[j],
        is_colour(row_spans(row)[before_notes(row) + 2 * j + 1].look, Color::DarkGray),
{
    lemma_notes(row.annotations);
    reveal_strlit("  ");
    assert("  "@ =~= seq![' ', ' ']);
    let from = before_notes(row);
    let note = row.annotations[j];
    assert(note_spans(row.annotations)[2 * j] == piece("  "@, raw()));
    assert(row_spans(row)[from + 2 * j] == note_spans(row.annotations)[2 * j]);
    assert(row_spans(row)[from + 2 * j + 1] == note_spans(row.annotations)[2 * j + 1]);
}

/// The default value of a row is shown last, in grey, behind two blanks; nothing follows
/// the annotations of a row without one.
pub proof fn lemma_default_of_row(row: RowView)
    ensures
        ({
            let from = before_notes(row) + 2 * row.annotations.len();
            match row.default {
                Some(d) => {
                    &&& row_spans(row).len() == from + 2
                    &&& row_spans(row)[from].text == seq![' ', ' ']
                    &&& is_plain(row_spans(row)[from].look)
                    &&& row_spans(row)[from + 1].text == "(default: "@ + d + ")"@
                    &&& is_colour(row_spans(row)[from + 1].look, Color::DarkGray)
                },
                None => row_spans(row).len() == from,
            }
        }),
{
    lemma_notes(row.annotations);
    reveal_strlit("  ");
    assert("  "@ =~= seq![' ', ' ']);
}

/// What is seen of a row tells what it stands for: rows of a tree that are drawn alike
/// have the same depth, label, type and default, and are alike in what is included,
/// expanded and selected.
pub proof fn lemma_drawing_tells_rows_apart(a: RowView, b: RowView)
    requires
        row_spans(a) == row_spans(b),
        a.is_variant_child == b.is_variant_child,
        a.is_required == b.is_required,
    ensures
        a.depth == b.depth,
        a.label == b.label,
        a.is_variant_child ==> a.is_selected_variant == b.is_selected_variant,
        !a.is_variant_child ==> a.expandable == b.expandable && (a.expandable ==> a.expanded
            == b.expanded),
        !a.is_variant_child && !a.is_required ==> a.included == b.included,
{
    lemma_row_is_indented(a);
    lemma_row_is_indented(b);
    if a.is_variant_child {
        lemma_marker_of_variant(a);
        lemma_marker_of_variant(b);
    } else {
        lemma_marker_of_field(a);
        lemma_marker_of_field(b);
    }
    lemma_label_of_row(a);
    lemma_label_of_row(b);
    if !a.is_required && !a.is_variant_child {
        let x = row_spans(a)[2].text;
        assert(x.subrange(1, x.len() - 1) =~= a.label);
        assert(x.subrange(1, x.len() - 1) =~= b.label);
    }
}

/// The head line names the program in bold and the title in grey.
pub proof fn lemma_head_line(title: Seq<char>)
    ensures
        header_spans(title).len() == 2,
        header_spans(title)[0].text == "schema-tui  "@,
        header_spans(title)[0].look.bold && header_spans(title)[0].look.color is None
            && !header_spans(title)[0].look.dim,
        header_spans(title)[1].text == seq!['·', ' '] + title,
        is_colour(header_spans(title)[1].look, Color::DarkGray),
{
    reveal_strlit("· ");
    assert("· "@ =~= seq!['·', ' ']);
}

/// The foot line names each key in yellow, and behind it in plain what the key does.
pub proof fn lemma_foot_line()
    ensures
        footer_spans().len() == 12,
        footer_spans()[0].text == "↑↓"@ && footer_spans()[1].text == " move   "@,
        footer_spans()[2].text == "Enter"@ && footer_spans()[3].text
            == " peek / pick variant   "@,
        footer_spans()[4].text == "space"@ && footer_spans()[5].text == " include in output   "@,
        footer_spans()[6].text == "←"@ && footer_spans()[7].text == " collapse   "@,
        footer_spans()[8].text == "q"@ && footer_spans()[9].text == " export   "@,
        footer_spans()[10].text == "Esc"@ && footer_spans()[11].text == " cancel"@,
        forall|i: int|
            0 <= i < 12 ==> (if i % 2 == 0 {
                is_colour((#[trigger] footer_spans()[i]).look, Color::Yellow)
            } else {
                is_plain(footer_spans()[i].look)
            }),
{
}

} // verus!
