//! Colours only decorate: what is seen of a text in colour is the plain text, and the
//! layout is the same.

use crate::document::{
    agenda, grammar, is_agenda, legend, lemma_agenda_unique, owing, productions, referenced,
    refs_of_names,
};
use crate::finite::lemma_agenda_exists;
use crate::json::{json_text, lemma_printable, shown, Json, JsonView};
use crate::names::{find, is_least, lemma_find, lemma_listed, listed};
use crate::naming::{format_name, lemma_snake_brings_in, ref_target, snake, uppercase_marks};
use crate::production::{
    all_fit, block_variant, block_variants, body, body_refs, effective, fits, head, inline_object,
    inline_variant, inline_variants, member_parts, object_production, production, production_refs,
    remarks, shown_arms, shown_tag, tag_first, used_by, variants_refs, variants_text,
};
use crate::properties::{
    fixed_field, is_tag, lemma_order_bounds, property_order, single_string, tag_of,
};
use crate::render::{
    alternatives, arm_texts, arms_text, bar, bar_line, default_of, default_remark, enum_texts,
    item_text, members_text, object_block, object_type_text, plain_key, property_line,
    property_lines, property_texts, shown_key, type_text, widest_key,
};
use crate::schema::{
    format_of, non_null, null_schema, one_type, root_name, title_of, union_arms, Defs, InstanceType,
    ObjectValidation, RootSchema, Schema, SchemaObject, SingleOrVec,
};
use crate::style::{
    bolded, dimmed, ends_inside, in_yellow, lemma_outside_add, lemma_rendition_unseen, rendition,
    visible, ESC,
};
use crate::text::{blanks, byte_len, decimal, digit, joined};
use crate::usage::{mentioned_by, users, users_among};
use vstd::prelude::*;
use vstd::string::*;

verus! {

/// No escape sequence starts in `s`.
pub open spec fn calm(s: Seq<char>) -> bool {
    !s.contains(ESC)
}

/// `a` is `b` in colour: what is seen of it is `b`, it ends outside an escape sequence,
/// and it has the same line breaks and braces.
pub open spec fn decorates(a: Seq<char>, b: Seq<char>) -> bool {
    &&& visible(a) == b
    &&& !ends_inside(a, false)
    &&& calm(b)
    &&& a.contains('\n') == b.contains('\n')
    &&& a.contains('{') == b.contains('{')
}

/// Each of `a` is the one of `b` in colour.
pub open spec fn all_decorate(a: Seq<Seq<char>>, b: Seq<Seq<char>>) -> bool {
    a.len() == b.len() && forall|i: int| 0 <= i < a.len() ==> decorates(#[trigger] a[i], b[i])
}

/// What occurs in a text made of two.
proof fn lemma_contains_add(a: Seq<char>, b: Seq<char>, c: char)
    ensures
        (a + b).contains(c) == (a.contains(c) || b.contains(c)),
{
    if a.contains(c) {
        let i = choose|i: int| 0 <= i < a.len() && a[i] == c;
        assert((a + b)[i] == c);
    }
    if b.contains(c) {
        let i = choose|i: int| 0 <= i < b.len() && b[i] == c;
        assert((a + b)[a.len() + i] == c);
    }
    if (a + b).contains(c) {
        let i = choose|i: int| 0 <= i < (a + b).len() && (a + b)[i] == c;
        if i < a.len() {
            assert(a[i] == c);
        } else {
            assert(b[i - a.len()] == c);
        }
    }
}

/// Where no escape sequence starts, all is seen.
pub proof fn lemma_calm_visible(s: Seq<char>)
    requires
        calm(s),
    ensures
        visible(s) == s,
        !ends_inside(s, false),
        decorates(s, s),
    decreases s.len(),
{
    if s.len() > 0 {
        let init = s.drop_last();
        assert forall|i: int| 0 <= i < init.len() implies init[i] != ESC by {
            assert(s[i] != ESC);
        }
        lemma_calm_visible(init);
        assert(s[s.len() - 1] != ESC);
        assert(s =~= init.push(s.last()));
    }
}

/// Texts in colour one after the other are the texts one after the other in colour.
proof fn lemma_add(a: Seq<char>, b: Seq<char>, x: Seq<char>, y: Seq<char>)
    requires
        decorates(a, b),
        decorates(x, y),
    ensures
        decorates(a + x, b + y),
{
    lemma_outside_add(a, x, false);
    lemma_contains_add(a, x, '\n');
    lemma_contains_add(b, y, '\n');
    lemma_contains_add(a, x, '{');
    lemma_contains_add(b, y, '{');
    lemma_contains_add(b, y, ESC);
}

/// The codes that are used hold no letters.
spec fn is_code(code: Seq<char>) -> bool {
    code == "2"@ || code == "1"@ || code == "36"@ || code == "32"@ || code == "1;33"@
}

/// A text in some rendition is the text in colour.
proof fn lemma_rendition(code: Seq<char>, s: Seq<char>)
    requires
        is_code(code),
        calm(s),
    ensures
        decorates(rendition(true, code, s), s),
        rendition(false, code, s) == s,
{
    reveal_strlit("2");
    reveal_strlit("1");
    reveal_strlit("36");
    reveal_strlit("32");
    reveal_strlit("1;33");
    reveal_strlit("\x1b[");
    reveal_strlit("m");
    reveal_strlit("\x1b[0m");
    assert(forall|i: int|
        0 <= i < code.len() ==> code[i] == '1' || code[i] == '2' || code[i] == '3' || code[i] == '6'
            || code[i] == ';');
    lemma_rendition_unseen(true, code, s);
    lemma_calm_visible(s);
    let open = "\x1b["@;
    let close = "\x1b[0m"@;
    let a = open + code + "m"@ + s + close;
    assert(a == rendition(true, code, s));
    // The reset at the end closes its own sequence.
    let front = open + code + "m"@ + s;
    lemma_outside_add(front, close, false);
    assert(close =~= seq![ESC, '[', '0'].push('m'));
    assert(close.drop_last() =~= seq![ESC, '[', '0']);
    assert(seq![ESC, '[', '0'].drop_last() =~= seq![ESC, '[']);
    assert(seq![ESC, '['].drop_last() =~= seq![ESC]);
    assert(seq![ESC].drop_last() =~= Seq::<char>::empty());
    reveal_with_fuel(ends_inside, 5);
    assert(!ends_inside(close, ends_inside(front, false)));
    lemma_contains_add(front, close, '\n');
    lemma_contains_add(open + code + "m"@, s, '\n');
    lemma_contains_add(open + code, "m"@, '\n');
    lemma_contains_add(open, code, '\n');
    lemma_contains_add(front, close, '{');
    lemma_contains_add(open + code + "m"@, s, '{');
    lemma_contains_add(open + code, "m"@, '{');
    lemma_contains_add(open, code, '{');
}

/// Texts in colour, joined, are the joined texts in colour.
proof fn lemma_joined(a: Seq<Seq<char>>, b: Seq<Seq<char>>, x: Seq<char>, y: Seq<char>)
    requires
        all_decorate(a, b),
        decorates(x, y),
    ensures
        decorates(joined(a, x), joined(b, y)),
    decreases a.len(),
{
    if a.len() == 0 {
        lemma_calm_visible(Seq::<char>::empty());
    } else if a.len() == 1 {
        assert(decorates(a[0], b[0]));
    } else {
        assert forall|i: int| 0 <= i < a.drop_last().len() implies decorates(
            #[trigger] a.drop_last()[i],
            b.drop_last()[i],
        ) by {
            assert(decorates(a[i], b[i]));
        }
        lemma_joined(a.drop_last(), b.drop_last(), x, y);
        lemma_add(joined(a.drop_last(), x), joined(b.drop_last(), y), x, y);
        assert(decorates(a[a.len() - 1], b[b.len() - 1]));
        lemma_add(
            joined(a.drop_last(), x) + x,
            joined(b.drop_last(), y) + y,
            a.last(),
            b.last(),
        );
    }
}

/// Blanks are calm.
proof fn lemma_blanks(n: nat)
    ensures
        decorates(blanks(n), blanks(n)),
{
    lemma_calm_visible(blanks(n));
}

/// The separators between alternatives, in colour and plain.
proof fn lemma_bars(indent: nat)
    ensures
        decorates(bar(true), bar(false)),
        decorates(bar_line(indent, true), bar_line(indent, false)),
        decorates(in_yellow(true, "|"@), in_yellow(false, "|"@)),
        decorates("\n"@ + in_yellow(true, "|"@) + " "@, "\n"@ + in_yellow(false, "|"@) + " "@),
{
    reveal_strlit("|");
    reveal_strlit(" ");
    reveal_strlit("\n");
    lemma_rendition("1;33"@, "|"@);
    lemma_calm_visible(" "@);
    lemma_calm_visible("\n"@);
    lemma_blanks(indent);
    let on = in_yellow(true, "|"@);
    let off = in_yellow(false, "|"@);
    lemma_add(" "@, " "@, on, off);
    lemma_add(" "@ + on, " "@ + off, " "@, " "@);
    lemma_add("\n"@, "\n"@, blanks(indent), blanks(indent));
    lemma_add("\n"@ + blanks(indent), "\n"@ + blanks(indent), on, off);
    lemma_add("\n"@ + blanks(indent) + on, "\n"@ + blanks(indent) + off, " "@, " "@);
    lemma_add("\n"@, "\n"@, on, off);
    lemma_add("\n"@ + on, "\n"@ + off, " "@, " "@);
}

/// Alternatives are laid out alike.
proof fn lemma_alternatives(a: Seq<Seq<char>>, b: Seq<Seq<char>>, indent: nat)
    requires
        all_decorate(a, b),
    ensures
        decorates(alternatives(a, indent, true), alternatives(b, indent, false)),
{
    lemma_bars(indent);
    lemma_joined(a, b, bar(true), bar(false));
    lemma_joined(a, b, bar_line(indent, true), bar_line(indent, false));
    lemma_calm_visible(joined(b, bar(false)));
}

/// The texts that `s` shows are calm.
pub open spec fn quiet(s: Schema) -> bool
    decreases s, 0int,
{
    match s {
        Schema::Bool(_) => true,
        Schema::Object(o) => quiet_object(o),
    }
}

/// `v` is no string with an escape sequence in it. How other values are shown is calm in
/// any case.
pub open spec fn quiet_value(v: JsonView) -> bool {
    v matches JsonView::String(s) ==> calm(s)
}

/// The texts that a schema object shows are calm: the name it refers to, its format,
/// the strings among its values and its default, the names of its properties, and those
/// of its parts.
pub open spec fn quiet_object(o: SchemaObject) -> bool
    decreases o, 0int,
{
    &&& o.reference matches Some(r) ==> calm(ref_target(r@))
    &&& o.format matches Some(f) ==> calm(f@)
    &&& o.enum_values matches Some(v) ==> forall|i: int|
        0 <= i < v@.len() ==> quiet_value(#[trigger] v@[i]@)
    &&& default_of(o) matches Some(d) ==> quiet_value(d)
    &&& o.subschemas is Some ==> {
        &&& quiet_list(o.subschemas->0.all_of)
        &&& quiet_list(o.subschemas->0.any_of)
        &&& quiet_list(o.subschemas->0.one_of)
    }
    &&& o.array is Some ==> match o.array->0.items {
        Some(SingleOrVec::Single(s)) => quiet(*s),
        Some(SingleOrVec::Vec(v)) => quiet_all(v@),
        None => true,
    }
    &&& o.object is Some ==> quiet_members(o.object->0.properties.entries@)
}

/// The texts that the schemas of a list show are calm, where there is one.
pub open spec fn quiet_list(list: Option<Vec<Schema>>) -> bool
    decreases list, 0int,
{
    match list {
        Some(v) => quiet_all(v@),
        None => true,
    }
}

/// The texts that the schemas of `list` show are calm.
pub open spec fn quiet_all(list: Seq<Schema>) -> bool
    decreases list, 0int,
{
    forall|i: int| 0 <= i < list.len() ==> quiet(#[trigger] list[i])
}

/// The names of `props` are calm, and the texts that they show.
pub open spec fn quiet_members(props: Seq<(String, Schema)>) -> bool
    decreases props, 0int,
{
    forall|i: int| 0 <= i < props.len() ==> calm((#[trigger] props[i]).0@) && quiet(props[i].1)
}

/// The words of the notation are calm.
proof fn lemma_calm_words()
    ensures
        calm("any"@),
        calm("never"@),
        calm("<"@),
        calm(">"@),
        calm("Number"@),
        calm("bool"@),
        calm("null"@),
        calm("Integer"@),
        calm("["@),
        calm(", ...]"@),
{
    reveal_strlit("any");
    reveal_strlit("never");
    reveal_strlit("<");
    reveal_strlit(">");
    reveal_strlit("Number");
    reveal_strlit("bool");
    reveal_strlit("null");
    reveal_strlit("Integer");
    reveal_strlit("[");
    reveal_strlit(", ...]");
}

/// The names of the string formats are calm.
proof fn lemma_calm_formats()
    ensures
        calm("String"@),
        calm("Uuid"@),
        calm("DateTime"@),
        calm("IpAddr"@),
        calm("Ipv4Addr"@),
        calm("Ipv6Addr"@),
        calm("Base64"@),
        calm("String ("@),
        calm(")"@),
{
    reveal_strlit("String");
    reveal_strlit("Uuid");
    reveal_strlit("DateTime");
    reveal_strlit("IpAddr");
    reveal_strlit("Ipv4Addr");
    reveal_strlit("Ipv6Addr");
    reveal_strlit("Base64");
    reveal_strlit("String (");
    reveal_strlit(")");
}

/// The marks of the notation are calm.
proof fn lemma_calm_marks()
    ensures
        calm("]:"@),
        calm(":"@),
        calm("{}"@),
        calm("{\n"@),
        calm("\n"@),
        calm("}"@),
        calm("  "@),
        calm("   "@),
        calm("(default: "@),
        calm("{ "@),
        calm(" }"@),
        calm(", "@),
        calm(" "@),
{
    reveal_strlit("]:");
    reveal_strlit(":");
    reveal_strlit("{}");
    reveal_strlit("{\n");
    reveal_strlit("\n");
    reveal_strlit("}");
    reveal_strlit("  ");
    reveal_strlit("   ");
    reveal_strlit("(default: ");
    reveal_strlit("{ ");
    reveal_strlit(" }");
    reveal_strlit(", ");
    reveal_strlit(" ");
}

/// The remarks of the notation are calm.
proof fn lemma_calm_remarks()
    ensures
        calm("(used by: "@),
        calm(", +"@),
        calm(" more"@),
        calm("(root)"@),
        calm("(tagged on `"@),
        calm("`)"@),
        calm("::="@),
        calm("request"@),
        calm("\n\n"@),
{
    reveal_strlit("(used by: ");
    reveal_strlit(", +");
    reveal_strlit(" more");
    reveal_strlit("(root)");
    reveal_strlit("(tagged on `");
    reveal_strlit("`)");
    reveal_strlit("::=");
    reveal_strlit("request");
    reveal_strlit("\n\n");
}

/// What is made of calm texts is calm.
proof fn lemma_calm_add(a: Seq<char>, b: Seq<char>)
    requires
        calm(a),
        calm(b),
    ensures
        calm(a + b),
{
    lemma_contains_add(a, b, ESC);
}

/// How a quiet value is shown is calm.
proof fn lemma_calm_shown(v: JsonView)
    requires
        quiet_value(v),
    ensures
        calm(shown(v)),
{
    if let JsonView::String(s) = v {
        reveal_strlit("\"");
        assert(calm("\""@));
        lemma_calm_add("\""@, s);
        lemma_calm_add("\""@ + s, "\""@);
    } else {
        lemma_printable(json_text(v));
    }
}

/// The key of a property, in colour and plain.
proof fn lemma_key(name: Seq<char>, is_required: bool)
    requires
        calm(name),
    ensures
        decorates(shown_key(name, is_required, true), shown_key(name, is_required, false)),
{
    lemma_calm_marks();
    lemma_calm_words();
    lemma_calm_add(name, ":"@);
    lemma_calm_add("["@, name);
    lemma_calm_add("["@ + name, "]:"@);
    lemma_calm_visible(plain_key(name, is_required));
    lemma_rendition("2"@, plain_key(name, is_required));
}

/// The remark on a default, in colour and plain.
proof fn lemma_remark(s: Schema, sep: Seq<char>)
    requires
        quiet(s),
        calm(sep),
    ensures
        decorates(default_remark(s, sep, true), default_remark(s, sep, false)),
{
    lemma_calm_visible(Seq::<char>::empty());
    if let Schema::Object(o) = s {
        assert(quiet_object(o));
        if let Some(d) = default_of(o) {
            lemma_calm_marks();
            lemma_calm_formats();
            lemma_calm_shown(d);
            lemma_calm_add(sep, "(default: "@);
            lemma_calm_add(sep + "(default: "@, shown(d));
            lemma_calm_add(sep + "(default: "@ + shown(d), ")"@);
            lemma_rendition("2"@, sep + "(default: "@ + shown(d) + ")"@);
        }
    }
}

/// The values of an `enum`, in colour and plain.
proof fn lemma_enum(values: Seq<Json>)
    requires
        forall|i: int| 0 <= i < values.len() ==> quiet_value(#[trigger] values[i]@),
    ensures
        all_decorate(enum_texts(values, true), enum_texts(values, false)),
{
    let a = enum_texts(values, true);
    let b = enum_texts(values, false);
    assert forall|i: int| 0 <= i < a.len() implies decorates(#[trigger] a[i], b[i]) by {
        lemma_calm_shown(values[i]@);
        lemma_rendition("32"@, shown(values[i]@));
        lemma_calm_visible(shown(values[i]@));
    }
}

/// The block of an object is laid out alike.
proof fn lemma_block(
    ov: ObjectValidation,
    a: Seq<Seq<char>>,
    b: Seq<Seq<char>>,
    priority: Seq<Seq<char>>,
    indent: nat,
)
    requires
        quiet_members(ov.properties.entries@),
        all_decorate(a, b),
        a.len() == ov.properties.entries@.len(),
    ensures
        decorates(
            object_block(ov, a, priority, indent, true),
            object_block(ov, b, priority, indent, false),
        ),
{
    lemma_calm_marks();
    lemma_calm_visible("{}"@);
    let props = ov.properties.entries@;
    let order = property_order(props, ov.required@, priority);
    lemma_order_bounds(props, ov.required@, priority);
    let x = property_lines(ov, a, order, indent, true);
    let y = property_lines(ov, b, order, indent, false);
    assert forall|j: int| 0 <= j < x.len() implies decorates(#[trigger] x[j], y[j]) by {
        let at = order[j];
        assert(0 <= at < props.len());
        let prop = props[at];
        assert(calm(props[at].0@) && quiet(props[at].1));
        assert(decorates(a[at], b[at]));
        lemma_line(
            prop,
            a[at],
            b[at],
            ov.required@.contains(prop.0@),
            widest_key(props, ov.required@),
            indent,
        );
    }
    lemma_calm_visible("\n"@);
    lemma_calm_visible("{\n"@);
    lemma_calm_visible("}"@);
    lemma_blanks(indent);
    lemma_joined(x, y, "\n"@, "\n"@);
    let jx = joined(x, "\n"@);
    let jy = joined(y, "\n"@);
    lemma_add("{\n"@, "{\n"@, jx, jy);
    lemma_add("{\n"@ + jx, "{\n"@ + jy, "\n"@, "\n"@);
    lemma_add("{\n"@ + jx + "\n"@, "{\n"@ + jy + "\n"@, blanks(indent), blanks(indent));
    lemma_add(
        "{\n"@ + jx + "\n"@ + blanks(indent),
        "{\n"@ + jy + "\n"@ + blanks(indent),
        "}"@,
        "}"@,
    );
}

/// The line of a property is laid out alike.
proof fn lemma_line(
    prop: (String, Schema),
    a: Seq<char>,
    b: Seq<char>,
    is_required: bool,
    widest: nat,
    indent: nat,
)
    requires
        calm(prop.0@),
        quiet(prop.1),
        decorates(a, b),
    ensures
        decorates(
            property_line(prop, a, is_required, widest, indent, true),
            property_line(prop, b, is_required, widest, indent, false),
        ),
{
    let name = prop.0@;
    lemma_calm_marks();
    lemma_calm_visible("  "@);
    lemma_key(name, is_required);
    lemma_remark(prop.1, "   "@);
    let pad = blanks((widest - byte_len(plain_key(name, is_required))) as nat);
    lemma_blanks(indent + 2);
    lemma_blanks((widest - byte_len(plain_key(name, is_required))) as nat);
    let k = shown_key(name, is_required, true);
    let l = shown_key(name, is_required, false);
    let front = blanks(indent + 2);
    lemma_add(front, front, k, l);
    lemma_add(front + k, front + l, pad, pad);
    lemma_add(front + k + pad, front + l + pad, "  "@, "  "@);
    lemma_add(front + k + pad + "  "@, front + l + pad + "  "@, a, b);
    lemma_add(
        front + k + pad + "  "@ + a,
        front + l + pad + "  "@ + b,
        default_remark(prop.1, "   "@, true),
        default_remark(prop.1, "   "@, false),
    );
}

/// The text of a type, in colour and plain.
proof fn lemma_type(s: Schema, indent: nat)
    requires
        quiet(s),
    ensures
        decorates(type_text(s, indent, true), type_text(s, indent, false)),
    decreases s, 0int,
{
    lemma_calm_words();
    lemma_calm_visible("any"@);
    lemma_calm_visible("never"@);
    if let Schema::Object(o) = s {
        lemma_object_type(o, indent);
    }
}

/// The text of a schema object, in colour and plain.
proof fn lemma_object_type(o: SchemaObject, indent: nat)
    requires
        quiet_object(o),
    ensures
        decorates(object_type_text(o, indent, true), object_type_text(o, indent, false)),
    decreases o, 2int,
{
    lemma_calm_words();
    lemma_calm_formats();
    if o.reference is Some {
        let name = ref_target(o.reference->0@);
        lemma_calm_add("<"@, name);
        lemma_calm_add("<"@ + name, ">"@);
        lemma_rendition("36"@, "<"@ + name + ">"@);
    } else if o.subschemas is Some && o.subschemas->0.all_of is Some
        && o.subschemas->0.all_of->0@.len() == 1 {
        let all = o.subschemas->0.all_of->0@;
        assert(quiet_all(all));
        assert(quiet(all[0]));
        lemma_type(all[0], indent);
    } else if o.subschemas is Some && o.subschemas->0.one_of is Some {
        let arms = o.subschemas->0.one_of->0@;
        assert(quiet_all(arms));
        lemma_arms(arms, indent);
        lemma_union(arm_texts(arms, indent, true), arm_texts(arms, indent, false), indent);
    } else if o.subschemas is Some && o.subschemas->0.any_of is Some {
        let arms = o.subschemas->0.any_of->0@;
        assert(quiet_all(arms));
        lemma_arms(arms, indent);
        lemma_union(arm_texts(arms, indent, true), arm_texts(arms, indent, false), indent);
    } else if o.enum_values is Some && o.enum_values->0@.len() > 0 {
        let values = o.enum_values->0@;
        lemma_enum(values);
        lemma_bars(0);
        lemma_joined(enum_texts(values, true), enum_texts(values, false), bar(true), bar(false));
    } else {
        lemma_calm_visible("Number"@);
        lemma_calm_visible("bool"@);
        lemma_calm_visible("null"@);
        lemma_calm_visible("Integer"@);
        lemma_calm_visible("["@);
        lemma_calm_visible(", ...]"@);
        if let Some(f) = format_of(o) {
            lemma_calm_visible(f);
            lemma_calm_add("String ("@, f);
            lemma_calm_add("String ("@ + f, ")"@);
        }
        lemma_calm_visible(format_name(format_of(o)));
        match one_type(o.instance_type) {
            Some(InstanceType::Array) => {
                lemma_item(o, indent);
                let a = item_text(o, indent, true);
                let b = item_text(o, indent, false);
                lemma_add("["@, "["@, a, b);
                lemma_add("["@ + a, "["@ + b, ", ...]"@, ", ...]"@);
            },
            Some(InstanceType::Object) => lemma_members(o, Seq::empty(), indent),
            None => lemma_members(o, Seq::empty(), indent),
            _ => {},
        }
    }
}

/// A union of texts, in colour and plain.
proof fn lemma_union(a: Seq<Seq<char>>, b: Seq<Seq<char>>, indent: nat)
    requires
        all_decorate(a, b),
    ensures
        decorates(arms_text(a, indent, true), arms_text(b, indent, false)),
{
    lemma_alternatives(a, b, indent);
    if a.len() == 1 {
        assert(decorates(a[0], b[0]));
    }
}

/// The texts of the real arms of a union, in colour and plain.
proof fn lemma_arms(arms: Seq<Schema>, indent: nat)
    requires
        quiet_all(arms),
    ensures
        all_decorate(arm_texts(arms, indent, true), arm_texts(arms, indent, false)),
    decreases arms, 0int,
{
    if arms.len() > 0 {
        let init = arms.drop_last();
        assert forall|i: int| 0 <= i < init.len() implies quiet(#[trigger] init[i]) by {
            assert(quiet(arms[i]));
        }
        lemma_arms(init, indent);
        assert(quiet(arms[arms.len() - 1]));
        if !null_schema(arms.last()) {
            lemma_type(arms.last(), indent);
            let a = arm_texts(arms, indent, true);
            let b = arm_texts(arms, indent, false);
            let x = arm_texts(init, indent, true);
            let y = arm_texts(init, indent, false);
            assert forall|i: int| 0 <= i < a.len() implies decorates(#[trigger] a[i], b[i]) by {
                if i < x.len() {
                    assert(decorates(x[i], y[i]));
                }
            }
        }
    }
}

/// The text of the items of an array, in colour and plain.
proof fn lemma_item(o: SchemaObject, indent: nat)
    requires
        quiet_object(o),
    ensures
        decorates(item_text(o, indent, true), item_text(o, indent, false)),
    decreases o, 0int,
{
    lemma_calm_words();
    lemma_calm_visible("any"@);
    if o.array is Some {
        match o.array->0.items {
            Some(SingleOrVec::Single(s)) => {
                lemma_type(*s, indent);
            },
            Some(SingleOrVec::Vec(v)) => {
                if v@.len() > 0 {
                    assert(quiet_all(v@));
                    assert(quiet(v@[0]));
                    assert(decreases_to!(o => v@));
                    assert(decreases_to!(v@ => v@[0]));
                    lemma_type(v@[0], indent);
                }
            },
            None => {},
        }
    }
}

/// The block of the members of an object, in colour and plain.
proof fn lemma_members(o: SchemaObject, priority: Seq<Seq<char>>, indent: nat)
    requires
        quiet_object(o),
    ensures
        decorates(
            members_text(o, priority, indent, true),
            members_text(o, priority, indent, false),
        ),
    decreases o, 1int,
{
    lemma_calm_marks();
    lemma_calm_visible("{}"@);
    if o.object is Some {
        let ov = *o.object->0;
        let props = ov.properties.entries@;
        assert(quiet_members(props));
        lemma_properties(props, indent + 2);
        lemma_block(
            ov,
            property_texts(props, indent + 2, true),
            property_texts(props, indent + 2, false),
            priority,
            indent,
        );
    }
}

/// The texts of the types of properties, in colour and plain.
proof fn lemma_properties(props: Seq<(String, Schema)>, indent: nat)
    requires
        quiet_members(props),
    ensures
        all_decorate(property_texts(props, indent, true), property_texts(props, indent, false)),
    decreases props, 0int,
{
    let a = property_texts(props, indent, true);
    let b = property_texts(props, indent, false);
    assert forall|i: int| 0 <= i < a.len() implies decorates(#[trigger] a[i], b[i]) by {
        assert(quiet(props[i].1));
        assert(decreases_to!(props => props[i].1));
        lemma_type(props[i].1, indent);
    }
}

/// One more schema of `arms` that is not the `null` schema is quiet.
proof fn lemma_quiet_arms(arms: Seq<Schema>)
    requires
        quiet_all(arms),
    ensures
        quiet_all(non_null(arms)),
    decreases arms.len(),
{
    if arms.len() > 0 {
        let init = arms.drop_last();
        assert forall|i: int| 0 <= i < init.len() implies quiet(#[trigger] init[i]) by {
            assert(quiet(arms[i]));
        }
        lemma_quiet_arms(init);
        assert(quiet(arms[arms.len() - 1]));
        let all = non_null(arms);
        let some = non_null(init);
        assert forall|i: int| 0 <= i < all.len() implies quiet(#[trigger] all[i]) by {
            if i < some.len() {
                assert(quiet(some[i]));
            }
        }
    }
}

/// An object on one line, in colour and plain.
proof fn lemma_inline_object(ov: ObjectValidation, tag: Option<Seq<char>>)
    requires
        quiet_members(ov.properties.entries@),
    ensures
        decorates(inline_object(ov, tag, true), inline_object(ov, tag, false)),
{
    lemma_calm_marks();
    lemma_calm_visible("{}"@);
    lemma_calm_visible("{ "@);
    lemma_calm_visible(" }"@);
    lemma_calm_visible(", "@);
    lemma_calm_visible(" "@);
    let props = ov.properties.entries@;
    let order = property_order(props, ov.required@, tag_first(tag));
    lemma_order_bounds(props, ov.required@, tag_first(tag));
    lemma_properties(props, 0);
    let a = property_texts(props, 0, true);
    let b = property_texts(props, 0, false);
    let x = member_parts(ov, a, order, true);
    let y = member_parts(ov, b, order, false);
    assert forall|j: int| 0 <= j < x.len() implies decorates(#[trigger] x[j], y[j]) by {
        let at = order[j];
        assert(0 <= at < props.len());
        let name = props[at].0@;
        assert(calm(props[at].0@) && quiet(props[at].1));
        assert(decorates(a[at], b[at]));
        let is_required = ov.required@.contains(name);
        lemma_key(name, is_required);
        lemma_remark(props[at].1, " "@);
        let k = shown_key(name, is_required, true);
        let l = shown_key(name, is_required, false);
        lemma_add(k, l, " "@, " "@);
        lemma_add(k + " "@, l + " "@, a[at], b[at]);
        lemma_add(
            k + " "@ + a[at],
            l + " "@ + b[at],
            default_remark(props[at].1, " "@, true),
            default_remark(props[at].1, " "@, false),
        );
    }
    lemma_joined(x, y, ", "@, ", "@);
    lemma_add("{ "@, "{ "@, joined(x, ", "@), joined(y, ", "@));
    lemma_add("{ "@ + joined(x, ", "@), "{ "@ + joined(y, ", "@), " }"@, " }"@);
}

/// An arm, on one line and as a block, in colour and plain.
proof fn lemma_variant(s: Schema, tag: Option<Seq<char>>)
    requires
        quiet(s),
    ensures
        decorates(inline_variant(s, tag, true), inline_variant(s, tag, false)),
        decorates(block_variant(s, tag, true), block_variant(s, tag, false)),
{
    lemma_type(s, 0);
    if let Schema::Object(o) = s {
        assert(quiet_object(o));
        lemma_members(o, tag_first(tag), 0);
        if o.object is Some {
            lemma_inline_object(*o.object->0, tag);
        }
    }
}

/// The body of a union is laid out alike.
proof fn lemma_variants(arms: Seq<Schema>, tag: Option<Seq<char>>)
    requires
        quiet_all(arms),
    ensures
        all_fit(arms, tag, true) == all_fit(arms, tag, false),
        decorates(variants_text(arms, tag, true), variants_text(arms, tag, false)),
        variants_refs(arms, tag, true) == variants_refs(arms, tag, false),
{
    let a = inline_variants(arms, tag, true);
    let b = inline_variants(arms, tag, false);
    assert forall|i: int| 0 <= i < arms.len() implies decorates(
        #[trigger] inline_variant(arms[i], tag, true),
        inline_variant(arms[i], tag, false),
    ) && decorates(block_variant(arms[i], tag, true), block_variant(arms[i], tag, false)) && fits(
        inline_variant(arms[i], tag, true),
        76,
    ) == fits(inline_variant(arms[i], tag, false), 76) by {
        assert(quiet(arms[i]));
        lemma_variant(arms[i], tag);
        lemma_calm_visible(inline_variant(arms[i], tag, false));
    }
    if all_fit(arms, tag, true) {
        assert forall|i: int| 0 <= i < arms.len() implies fits(
            #[trigger] inline_variant(arms[i], tag, false),
            76,
        ) by {
            assert(fits(inline_variant(arms[i], tag, true), 76));
        }
    }
    if all_fit(arms, tag, false) {
        assert forall|i: int| 0 <= i < arms.len() implies fits(
            #[trigger] inline_variant(arms[i], tag, true),
            76,
        ) by {
            assert(fits(inline_variant(arms[i], tag, false), 76));
        }
    }
    assert forall|i: int| 0 <= i < a.len() implies decorates(#[trigger] a[i], b[i]) by {
        assert(a[i] == inline_variant(arms[i], tag, true));
    }
    let c = block_variants(arms, tag, true);
    let d = block_variants(arms, tag, false);
    assert forall|i: int| 0 <= i < c.len() implies decorates(#[trigger] c[i], d[i]) by {
        assert(decorates(inline_variant(arms[i], tag, true), inline_variant(arms[i], tag, false)));
    }
    lemma_bars(0);
    let sep_on = "\n"@ + in_yellow(true, "|"@) + " "@;
    let sep_off = "\n"@ + in_yellow(false, "|"@) + " "@;
    lemma_joined(a, b, bar(true), bar(false));
    lemma_joined(a, b, sep_on, sep_off);
    lemma_joined(c, d, sep_on, sep_off);
    lemma_calm_marks();
    lemma_calm_visible("  "@);
    lemma_add("  "@, "  "@, joined(a, sep_on), joined(b, sep_off));
    lemma_calm_visible(joined(b, bar(false)));
    let p = forall|i: int| 0 <= i < a.len() ==> !(#[trigger] a[i]).contains('{');
    let q = forall|i: int| 0 <= i < b.len() ==> !(#[trigger] b[i]).contains('{');
    assert(p == q) by {
        if p {
            assert forall|i: int| 0 <= i < b.len() implies !(#[trigger] b[i]).contains('{') by {
                assert(decorates(a[i], b[i]));
                assert(!a[i].contains('{'));
            }
        }
        if q {
            assert forall|i: int| 0 <= i < a.len() implies !(#[trigger] a[i]).contains('{') by {
                assert(decorates(a[i], b[i]));
                assert(!b[i].contains('{'));
            }
        }
    }
}

/// The arms that a production shows are quiet, and so is their tag.
proof fn lemma_shown_arms(o: SchemaObject)
    requires
        quiet_object(o),
    ensures
        shown_arms(o) matches Some(arms) ==> quiet_all(arms),
        shown_tag(o) matches Some(t) ==> calm(t),
{
    let e = effective(o);
    assert(quiet_object(e)) by {
        if o.subschemas is Some && o.subschemas->0.all_of is Some
            && o.subschemas->0.all_of->0@.len() == 1 && o.subschemas->0.all_of->0@[0] is Object {
            let all = o.subschemas->0.all_of->0@;
            assert(quiet_list(o.subschemas->0.all_of));
            assert(quiet_all(all));
            assert(quiet(all[0]));
        }
    }
    if let Some(arms) = union_arms(e) {
        let sub = e.subschemas->0;
        if sub.one_of is Some {
            assert(quiet_list(sub.one_of));
        } else {
            assert(quiet_list(sub.any_of));
        }
        assert(quiet_all(arms));
        lemma_quiet_arms(arms);
        let kept = non_null(arms);
        if let Some(t) = tag_of(kept) {
            assert(is_tag(kept, t));
            assert(fixed_field(kept[0], t));
            assert(quiet(kept[0]));
            let x = kept[0]->Object_0;
            assert(quiet_object(x));
            let props = x.object->0.properties.entries@;
            assert(quiet_members(props));
            let i = choose|i: int|
                #![trigger props[i]]
                0 <= i < props.len() && props[i].0@ == t && single_string(
                    props[i].1,
                );
            assert(calm(props[i].0@));
        }
    }
}

/// The body of a production, in colour and plain.
proof fn lemma_body(o: SchemaObject)
    requires
        quiet_object(o),
    ensures
        decorates(body(o, true), body(o, false)),
        body_refs(o, true) == body_refs(o, false),
{
    lemma_object_type(o, 0);
    lemma_shown_arms(o);
    if let Some(arms) = shown_arms(o) {
        if arms.len() > 1 {
            lemma_variants(arms, shown_tag(o));
        } else if arms.len() == 1 {
            assert(quiet(arms[0]));
            lemma_type(arms[0], 0);
        }
    }
}

/// A number in decimal notation is calm.
proof fn lemma_calm_decimal(n: nat)
    ensures
        calm(decimal(n)),
    decreases n,
{
    let d = n % 10;
    assert(digit(d) != ESC);
    if n >= 10 {
        lemma_calm_decimal(n / 10);
        let init = decimal(n / 10);
        assert(decimal(n) =~= init + seq![digit(d)]);
        lemma_calm_add(init, seq![digit(d)]);
    } else {
        assert(digit(n) != ESC);
    }
}

/// The remark on the users of a name is calm.
proof fn lemma_calm_used_by(names: Seq<Seq<char>>)
    requires
        forall|i: int| 0 <= i < names.len() ==> calm(#[trigger] names[i]),
    ensures
        calm(used_by(names)),
{
    lemma_calm_marks();
    lemma_calm_remarks();
    lemma_calm_formats();
    let take = if names.len() <= 3 {
        names.len() as int
    } else {
        3
    };
    let few = names.take(take);
    assert forall|i: int| 0 <= i < few.len() implies decorates(#[trigger] few[i], few[i]) by {
        assert(calm(names[i]));
        lemma_calm_visible(few[i]);
    }
    lemma_calm_visible(", "@);
    lemma_joined(few, few, ", "@, ", "@);
    let top = "(used by: "@ + joined(few, ", "@);
    lemma_calm_add("(used by: "@, joined(few, ", "@));
    lemma_calm_add(top, ")"@);
    if names.len() > 3 {
        let n = (names.len() - 3) as nat;
        lemma_calm_decimal(n);
        lemma_calm_add(top, ", +"@);
        lemma_calm_add(top + ", +"@, decimal(n));
        lemma_calm_add(top + ", +"@ + decimal(n), " more"@);
        lemma_calm_add(top + ", +"@ + decimal(n) + " more"@, ")"@);
    }
}

/// The names that use a type are finitely many, and calm.
proof fn lemma_calm_users(
    defs: Seq<(String, Schema)>,
    name: Seq<char>,
    others: Set<Seq<char>>,
)
    requires
        quiet_members(defs),
        others.finite(),
        forall|n: Seq<char>| #[trigger] others.contains(n) ==> calm(n),
    ensures
        users_among(defs, name, others).finite(),
        forall|n: Seq<char>| #[trigger] users_among(defs, name, others).contains(n) ==> calm(n),
    decreases defs.len(),
{
    if defs.len() > 0 {
        let init = defs.drop_last();
        assert forall|i: int| 0 <= i < init.len() implies calm((#[trigger] init[i]).0@) && quiet(
            init[i].1,
        ) by {
            assert(calm(defs[i].0@));
        }
        lemma_calm_users(init, name, others);
        assert(calm(defs[defs.len() - 1].0@));
    }
}

/// The production for a schema object, in colour and plain.
proof fn lemma_object_production(
    name: Seq<char>,
    o: SchemaObject,
    is_root: bool,
    users: Set<Seq<char>>,
)
    requires
        calm(name),
        quiet_object(o),
        users.finite(),
        forall|n: Seq<char>| #[trigger] users.contains(n) ==> calm(n),
    ensures
        decorates(
            object_production(name, o, is_root, users, true),
            object_production(name, o, is_root, users, false),
        ),
{
    lemma_calm_marks();
    lemma_calm_remarks();
    lemma_body(o);
    lemma_shown_arms(o);
    let others = listed(users.remove(name));
    lemma_listed(users.remove(name));
    assert forall|i: int| 0 <= i < others.len() implies calm(#[trigger] others[i]) by {
        assert(others.to_set().contains(others[i]));
        assert(users.contains(others[i]));
    }
    lemma_calm_used_by(others);
    lemma_rendition("2"@, "(root)"@);
    lemma_rendition("2"@, used_by(others));
    let x = remarks(name, o, is_root, users, true);
    let y = remarks(name, o, is_root, users, false);
    if let Some(t) = shown_tag(o) {
        lemma_calm_add("(tagged on `"@, t);
        lemma_calm_add("(tagged on `"@ + t, "`)"@);
        lemma_rendition("2"@, "(tagged on `"@ + t + "`)"@);
    }
    assert(all_decorate(x, y));
    lemma_head(name);
    lemma_calm_visible("  "@);
    lemma_calm_visible("\n"@);
    lemma_joined(x, y, "  "@, "  "@);
    let h = head(name, true);
    let k = head(name, false);
    lemma_add(h, k, "  "@, "  "@);
    lemma_add(h + "  "@, k + "  "@, joined(x, "  "@), joined(y, "  "@));
    let top = if x.len() > 0 {
        h + "  "@ + joined(x, "  "@)
    } else {
        h
    };
    let plain = if y.len() > 0 {
        k + "  "@ + joined(y, "  "@)
    } else {
        k
    };
    lemma_add(top, plain, "\n"@, "\n"@);
    lemma_add(top + "\n"@, plain + "\n"@, body(o, true), body(o, false));
    lemma_add(top + "\n"@ + body(o, true), plain + "\n"@ + body(o, false), "\n"@, "\n"@);
}

/// The head of a production, in colour and plain.
proof fn lemma_head(name: Seq<char>)
    requires
        calm(name),
    ensures
        decorates(head(name, true), head(name, false)),
{
    lemma_calm_marks();
    lemma_calm_remarks();
    lemma_rendition("1"@, name);
    lemma_rendition("2"@, "::="@);
    lemma_calm_visible(" "@);
    lemma_add(bolded(true, name), bolded(false, name), " "@, " "@);
    lemma_add(
        bolded(true, name) + " "@,
        bolded(false, name) + " "@,
        dimmed(true, "::="@),
        dimmed(false, "::="@),
    );
}

/// A production, in colour and plain.
proof fn lemma_production(name: Seq<char>, s: Schema, users: Set<Seq<char>>)
    requires
        calm(name),
        quiet(s),
        users.finite(),
        forall|n: Seq<char>| #[trigger] users.contains(n) ==> calm(n),
    ensures
        decorates(production(name, s, users, true), production(name, s, users, false)),
        production_refs(s, true) == production_refs(s, false),
{
    match s {
        Schema::Bool(_) => {
            lemma_calm_marks();
            lemma_calm_visible(" "@);
            lemma_calm_visible("\n"@);
            lemma_head(name);
            lemma_type(s, 0);
            let h = head(name, true);
            let k = head(name, false);
            let a = type_text(s, 0, true);
            let b = type_text(s, 0, false);
            lemma_add(h, k, " "@, " "@);
            lemma_add(h + " "@, k + " "@, a, b);
            lemma_add(h + " "@ + a, k + " "@ + b, "\n"@, "\n"@);
        },
        Schema::Object(o) => {
            lemma_object_production(name, o, false, users);
            lemma_body(o);
        },
    }
}

/// The texts of a whole schema are calm: its title, what it shows, and the names of its
/// definitions and what they show.
pub open spec fn quiet_root(root: RootSchema) -> bool {
    &&& title_of(root.schema) matches Some(t) ==> calm(t)
    &&& quiet_object(root.schema)
    &&& quiet_members(root.definitions.entries@)
}

/// The name of a whole schema is calm.
proof fn lemma_calm_name(root: RootSchema)
    requires
        quiet_root(root),
    ensures
        calm(root_name(root)),
{
    lemma_calm_remarks();
    if let Some(t) = title_of(root.schema) {
        if snake(t).contains(ESC) {
            lemma_snake_brings_in(t, uppercase_marks(t), ESC);
        }
    }
}

/// The definition that a name finds is quiet.
proof fn lemma_quiet_definition(defs: Defs, name: Seq<char>)
    requires
        quiet_members(defs.entries@),
    ensures
        defs.at(name) matches Some(s) ==> quiet(s) && calm(name),
{
    lemma_find(defs.entries@, name);
    if let Some(i) = find(defs.entries@, name) {
        assert(calm(defs.entries@[i].0@));
    }
}

/// The users of a name are finitely many, and calm.
proof fn lemma_root_users(root: RootSchema, name: Seq<char>)
    requires
        quiet_root(root),
    ensures
        users(root, root_name(root), name).finite(),
        forall|n: Seq<char>| #[trigger]
            users(root, root_name(root), name).contains(n) ==> calm(n),
{
    lemma_calm_name(root);
    let others = if mentioned_by(root.schema).contains(name) {
        Set::empty().insert(root_name(root))
    } else {
        Set::empty()
    };
    lemma_calm_users(root.definitions.entries@, name, others);
}

/// What is referred to does not depend on colours.
proof fn lemma_refs_same(root: RootSchema, names: Seq<Seq<char>>)
    requires
        quiet_root(root),
    ensures
        referenced(root, names, true) == referenced(root, names, false),
    decreases names.len(),
{
    lemma_body(root.schema);
    if names.len() > 0 {
        lemma_refs_of_names_same(root, names);
    }
}

proof fn lemma_refs_of_names_same(root: RootSchema, names: Seq<Seq<char>>)
    requires
        quiet_root(root),
    ensures
        refs_of_names(root.definitions, names, true) == refs_of_names(
            root.definitions,
            names,
            false,
        ),
    decreases names.len(),
{
    if names.len() > 0 {
        lemma_refs_of_names_same(root, names.drop_last());
        lemma_quiet_definition(root.definitions, names.last());
        if let Some(s) = root.definitions.at(names.last()) {
            lemma_production(names.last(), s, Set::empty());
        }
    }
}

/// The productions, in colour and plain.
proof fn lemma_productions(root: RootSchema, names: Seq<Seq<char>>)
    requires
        quiet_root(root),
    ensures
        decorates(productions(root, names, true), productions(root, names, false)),
    decreases names.len(),
{
    if names.len() == 0 {
        lemma_calm_visible(Seq::<char>::empty());
    } else {
        let init = names.drop_last();
        let name = names.last();
        lemma_productions(root, init);
        lemma_quiet_definition(root.definitions, name);
        if let Some(s) = root.definitions.at(name) {
            let by = users(root, root_name(root), name);
            lemma_root_users(root, name);
            lemma_production(name, s, by);
            lemma_calm_marks();
            lemma_calm_visible("\n"@);
            let a = productions(root, init, true);
            let b = productions(root, init, false);
            lemma_add(a, b, "\n"@, "\n"@);
            lemma_add(
                a + "\n"@,
                b + "\n"@,
                production(name, s, by, true),
                production(name, s, by, false),
            );
        }
    }
}

/// The legend, in colour and plain.
proof fn lemma_legend()
    ensures
        decorates(legend(true), legend(false)),
{
    let first = "# [foo] = optional   <Type> = named ref   | = alternative"@;
    let second = "# (default: X) = default value   (tagged on `f`) = discriminator field"@;
    reveal_strlit("# [foo] = optional   <Type> = named ref   | = alternative");
    reveal_strlit("# (default: X) = default value   (tagged on `f`) = discriminator field");
    assert(calm(first));
    assert(calm(second));
    lemma_rendition("2"@, first);
    lemma_rendition("2"@, second);
    lemma_calm_marks();
    lemma_calm_remarks();
    lemma_calm_visible("\n"@);
    lemma_calm_visible("\n\n"@);
    let a = dimmed(true, first);
    let b = dimmed(false, first);
    let c = dimmed(true, second);
    let d = dimmed(false, second);
    lemma_add(a, b, "\n"@, "\n"@);
    lemma_add(a + "\n"@, b + "\n"@, c, d);
    lemma_add(a + "\n"@ + c, b + "\n"@ + d, "\n\n"@, "\n\n"@);
}

/// Colours only decorate: where no text of the schema has an escape character in it, what
/// is seen of the grammar reference in colour is the plain one, and the plain one has no
/// escape sequence in it.
pub proof fn lemma_colour_only_decorates(root: RootSchema)
    requires
        quiet_root(root),
    ensures
        visible(grammar(root, true)) == grammar(root, false),
        calm(grammar(root, false)),
{
    lemma_agenda_exists(root, true);
    let names = agenda(root, true);
    assert forall|k: int| 0 <= k < names.len() implies is_least(
        #[trigger] owing(root, names.take(k), false),
        names[k],
    ) by {
        lemma_refs_same(root, names.take(k));
        assert(is_least(owing(root, names.take(k), true), names[k]));
    }
    lemma_refs_same(root, names);
    assert(is_agenda(root, names, false));
    lemma_agenda_unique(root, names, false);
    let top = root_name(root);
    let by = users(root, top, top);
    lemma_root_users(root, top);
    lemma_legend();
    lemma_calm_name(root);
    lemma_object_production(top, root.schema, true, by);
    lemma_productions(root, names);
    let a = object_production(top, root.schema, true, by, true);
    let b = object_production(top, root.schema, true, by, false);
    lemma_add(legend(true), legend(false), a, b);
    lemma_add(
        legend(true) + a,
        legend(false) + b,
        productions(root, names, true),
        productions(root, names, false),
    );
}

} // verus!
