//! What the grammar reference says of each type.

use crate::agree::lemma_after_slash;
use crate::colour::lemma_calm_visible;
use crate::document::{agenda, grammar, is_agenda, owing, productions, refs_of_names};
use crate::finite::lemma_agenda_exists;
use crate::json::{shown, Json, JsonView};
use crate::laws::lemma_arm_texts;
use crate::names::{
    ascending, find, is_least, lemma_ascending_unique, lemma_find, lemma_find_at, listed, name_lt,
};
use crate::naming::{format_name, ref_target};
use crate::present::described;
use crate::production::{
    all_fit, block_refs, block_variant, block_variants, body, body_refs, effective, fits,
    inline_refs, inline_variant, inline_variants, member_parts, object_production, production,
    production_refs, refs_of_all, shown_arms, shown_tag, tag_first, used_by, variants_text,
};
use crate::properties::{
    lemma_order_bounds, lemma_order_covers, lemma_order_lists_each_once, property_order, tag_of,
};
use crate::reading_laws::lemma_shown_string;
use crate::render::{
    alternatives, arm_refs, arm_texts, bar, default_of, default_remark, enum_texts, item_refs,
    item_text, members_refs, members_text, object_block, object_type_refs, object_type_text,
    plain_key, property_lines, property_refs, property_texts, shown_key, type_refs, type_text,
    union_at, widest_key,
};
use crate::row_laws::lines;
use crate::schema::{
    item_of, non_null, null_schema, one_type, root_name, Defs, InstanceType, ObjectValidation,
    RootSchema, Schema, SchemaObject, SingleOrVec,
};
use crate::style::{
    bolded, dimmed, ends_inside, in_cyan, in_green, in_yellow, lemma_inside, lemma_outside_add,
    outside, visible,
};
use crate::text::{blanks, byte_len, decimal, joined, same};
use crate::tree_laws::lemma_each_once_len;
use crate::usage::{
    mentioned, mentioned_by, mentioned_by_all, mentioned_by_members, mentioned_in, users,
    users_among,
};
use vstd::prelude::*;

verus! {

/// `s` in the rendition that the terminal calls `code`, where colours are on.
pub open spec fn ink(on: bool, code: Seq<char>, s: Seq<char>) -> Seq<char> {
    if on {
        seq!['\u{1b}', '['] + code + seq!['m'] + s + seq!['\u{1b}', '[', '0', 'm']
    } else {
        s
    }
}

/// Colours are put on as the terminal asks for, and not at all where they are off.
pub proof fn lemma_inks(on: bool, s: Seq<char>)
    ensures
        dimmed(on, s) == ink(on, seq!['2'], s),
        bolded(on, s) == ink(on, seq!['1'], s),
        in_cyan(on, s) == ink(on, seq!['3', '6'], s),
        in_green(on, s) == ink(on, seq!['3', '2'], s),
        in_yellow(on, s) == ink(on, seq!['1', ';', '3', '3'], s),
{
    reveal_strlit("\x1b[");
    reveal_strlit("m");
    reveal_strlit("\x1b[0m");
    reveal_strlit("2");
    reveal_strlit("1");
    reveal_strlit("36");
    reveal_strlit("32");
    reveal_strlit("1;33");
    assert("2"@ =~= seq!['2']);
    assert("1"@ =~= seq!['1']);
    assert("36"@ =~= seq!['3', '6']);
    assert("32"@ =~= seq!['3', '2']);
    assert("1;33"@ =~= seq!['1', ';', '3', '3']);
    assert("\x1b["@ =~= seq!['\u{1b}', '[']);
    assert("m"@ =~= seq!['m']);
    assert("\x1b[0m"@ =~= seq!['\u{1b}', '[', '0', 'm']);
}

/// The bar between alternatives.
pub open spec fn bar_text(on: bool) -> Seq<char> {
    ink(on, seq!['1', ';', '3', '3'], seq!['|'])
}

proof fn lemma_bar_text(on: bool)
    ensures
        in_yellow(on, "|"@) == bar_text(on),
        bar(on) == seq![' '] + bar_text(on) + seq![' '],
        " "@ == seq![' '],
        "|"@ == seq!['|'],
        "\n"@ == seq!['\n'],
{
    reveal_strlit("|");
    reveal_strlit(" ");
    reveal_strlit("\n");
    assert("|"@ =~= seq!['|']);
    assert(" "@ =~= seq![' ']);
    assert("\n"@ =~= seq!['\n']);
    lemma_inks(on, seq!['|']);
}

/// `true` is `any`, and `false` is `never`.
pub proof fn lemma_text_of_bool(b: bool, indent: nat, on: bool)
    ensures
        type_text(Schema::Bool(b), indent, on) == if b {
            "any"@
        } else {
            "never"@
        },
        type_refs(Schema::Bool(b)) == Set::<Seq<char>>::empty(),
{
}

/// A pointer without a slash is its own last segment.
pub proof fn lemma_no_slash(name: Seq<char>)
    requires
        !name.contains('/'),
    ensures
        ref_target(name) == name,
    decreases name.len(),
{
    if name.len() > 0 {
        let init = name.drop_last();
        assert forall|i: int| 0 <= i < init.len() implies init[i] != '/' by {
            assert(name.contains(name[i]));
        }
        lemma_no_slash(init);
        assert(name.contains(name.last()));
        assert(init.push(name.last()) =~= name);
    }
}

/// A reference is shown as the last segment of its pointer in angle brackets, in cyan, and
/// asks for the production of that name.
pub proof fn lemma_text_of_reference(
    o: SchemaObject,
    start: Seq<char>,
    name: Seq<char>,
    indent: nat,
    on: bool,
)
    requires
        !name.contains('/'),
        o.reference matches Some(r) && (r@ == start + seq!['/'] + name || r@ == name),
    ensures
        type_text(Schema::Object(o), indent, on) == ink(
            on,
            seq!['3', '6'],
            seq!['<'] + name + seq!['>'],
        ),
        described(o) == seq!['<'] + name + seq!['>'],
        type_refs(Schema::Object(o)) == Set::empty().insert(name),
        mentioned(Schema::Object(o)) == Set::empty().insert(name),
{
    lemma_after_slash(start + seq!['/'], name);
    lemma_no_slash(name);
    reveal_strlit("<");
    reveal_strlit(">");
    assert("<"@ =~= seq!['<']);
    assert(">"@ =~= seq!['>']);
    lemma_inks(on, seq!['<'] + name + seq!['>']);
    assert(type_text(Schema::Object(o), indent, on) == object_type_text(o, indent, on));
    assert(type_refs(Schema::Object(o)) == object_type_refs(o));
    assert(mentioned(Schema::Object(o)) == mentioned_by(o));
}

/// An `allOf` of one schema is shown as that schema.
pub proof fn lemma_text_of_all_of(o: SchemaObject, s: Schema, indent: nat, on: bool)
    requires
        o.reference is None,
        o.subschemas matches Some(sub) && (sub.all_of matches Some(v) && v@.len() == 1 && v@[0]
            == s),
    ensures
        type_text(Schema::Object(o), indent, on) == type_text(s, indent, on),
        type_refs(Schema::Object(o)) == type_refs(s),
{
    assert(type_text(Schema::Object(o), indent, on) == object_type_text(o, indent, on));
    assert(type_refs(Schema::Object(o)) == object_type_refs(o));
}

/// `arms` are the real arms of the union `o`, which is no `allOf` of one schema.
pub open spec fn real_arms_are(o: SchemaObject, arms: Seq<Schema>) -> bool {
    &&& o.subschemas matches Some(sub) && !(sub.all_of matches Some(v) && v@.len() == 1) && match
        sub.one_of {
        Some(v) => arms == non_null(v@),
        None => sub.any_of matches Some(v) && arms == non_null(v@),
    }
}

/// `o` is neither a reference, nor a union, nor an `allOf` of one schema.
pub open spec fn stands_alone(o: SchemaObject) -> bool {
    &&& o.reference is None
    &&& o.subschemas matches Some(sub) ==> sub.one_of is None && sub.any_of is None && !(
    sub.all_of matches Some(v) && v@.len() == 1)
}

/// The texts of the types of `arms`.
pub open spec fn texts_of_arms(arms: Seq<Schema>, indent: nat, on: bool) -> Seq<Seq<char>> {
    Seq::new(arms.len(), |i: int| type_text(arms[i], indent, on))
}

/// Alternatives stand on one line, with bars between them, where there is no line break in
/// them and they fit into 80 columns with the indentation; else on a line each.
pub open spec fn laid_out(parts: Seq<Seq<char>>, indent: nat, on: bool) -> Seq<char> {
    let line = joined(parts, seq![' '] + bar_text(on) + seq![' ']);
    if !line.contains('\n') && (visible(line).len() + indent <= 80 || visible(line).len() == 0) {
        line
    } else {
        joined(parts, seq!['\n'] + blanks(indent) + bar_text(on) + seq![' '])
    }
}

/// Alternatives are laid out on one line where that fits, else on a line each.
pub proof fn lemma_alternatives_laid_out(parts: Seq<Seq<char>>, indent: nat, on: bool)
    ensures
        alternatives(parts, indent, on) == laid_out(parts, indent, on),
{
    lemma_bar_text(on);
}

/// The default of a schema is that of its metadata, `null` too.
pub proof fn lemma_default_of_schema(o: SchemaObject)
    ensures
        default_of(o) == if o.metadata is Some && o.metadata->0.default is Some {
            Some(o.metadata->0.default->0@)
        } else {
            None
        },
{
}

/// The items of an array are shown as the one schema for them, or the first of several,
/// and as `any` where there is none.
pub proof fn lemma_text_of_items(o: SchemaObject, indent: nat, on: bool)
    ensures
        item_text(o, indent, on) == match item_of(o) {
            Some(item) => type_text(item, indent, on),
            None => "any"@,
        },
        item_refs(o) == match item_of(o) {
            Some(item) => type_refs(item),
            None => Set::empty(),
        },
{
}

/// A union is shown as its real arms: a single one as itself, several as alternatives.
pub proof fn lemma_text_of_union(o: SchemaObject, arms: Seq<Schema>, indent: nat, on: bool)
    requires
        o.reference is None,
        real_arms_are(o, arms),
    ensures
        arms.len() == 1 ==> type_text(Schema::Object(o), indent, on) == type_text(
            arms[0],
            indent,
            on,
        ),
        arms.len() != 1 ==> type_text(Schema::Object(o), indent, on) == laid_out(
            texts_of_arms(arms, indent, on),
            indent,
            on,
        ),
        forall|x: Seq<char>| #[trigger]
            type_refs(Schema::Object(o)).contains(x) <==> exists|i: int|
                0 <= i < arms.len() && type_refs(#[trigger] arms[i]).contains(x),
{
    let sub = o.subschemas->0;
    let all = if sub.one_of is Some {
        sub.one_of->0@
    } else {
        sub.any_of->0@
    };
    lemma_arm_texts(all, indent, on);
    assert(arm_texts(all, indent, on) =~= texts_of_arms(arms, indent, on));
    lemma_bar_text(on);
    assert(type_text(Schema::Object(o), indent, on) == object_type_text(o, indent, on));
    assert(type_refs(Schema::Object(o)) == object_type_refs(o));
    assert forall|x: Seq<char>| #[trigger]
        type_refs(Schema::Object(o)).contains(x) <==> exists|i: int|
            0 <= i < arms.len() && type_refs(#[trigger] arms[i]).contains(x) by {
        lemma_refs_of_arms(all, x);
    }
}

proof fn lemma_refs_of_arms(all: Seq<Schema>, x: Seq<char>)
    ensures
        arm_refs(all).contains(x) <==> exists|i: int|
            0 <= i < non_null(all).len() && type_refs(#[trigger] non_null(all)[i]).contains(x),
    decreases all.len(),
{
    if all.len() > 0 {
        let init = all.drop_last();
        lemma_refs_of_arms(init, x);
        let a = non_null(init);
        let b = non_null(all);
        if arm_refs(init).contains(x) {
            let i = choose|i: int| 0 <= i < a.len() && type_refs(#[trigger] a[i]).contains(x);
            assert(b[i] == a[i]);
        }
        if !null_schema(all.last()) && type_refs(all.last()).contains(x) {
            assert(b[b.len() - 1] == all.last());
        }
        if exists|i: int| 0 <= i < b.len() && type_refs(#[trigger] b[i]).contains(x) {
            let i = choose|i: int| 0 <= i < b.len() && type_refs(#[trigger] b[i]).contains(x);
            if i < a.len() {
                assert(a[i] == b[i]);
            }
        }
    }
}

/// The values of an `enum`, strings in quotes and in green.
pub open spec fn values_text(values: Seq<Json>, on: bool) -> Seq<Seq<char>> {
    Seq::new(
        values.len(),
        |i: int|
            match values[i]@ {
                JsonView::String(s) => ink(on, seq!['3', '2'], seq!['"'] + s + seq!['"']),
                other => shown(other),
            },
    )
}

/// An `enum` is shown as its values, on one line, with bars between them.
pub proof fn lemma_text_of_enum(o: SchemaObject, indent: nat, on: bool)
    requires
        stands_alone(o),
        o.enum_values matches Some(v) && v@.len() > 0,
    ensures
        type_text(Schema::Object(o), indent, on) == joined(
            values_text(o.enum_values->0@, on),
            seq![' '] + bar_text(on) + seq![' '],
        ),
        type_refs(Schema::Object(o)) == Set::<Seq<char>>::empty(),
{
    let values = o.enum_values->0@;
    lemma_bar_text(on);
    assert forall|i: int| 0 <= i < values.len() implies #[trigger] enum_texts(values, on)[i]
        == values_text(values, on)[i] by {
        if let JsonView::String(s) = values[i]@ {
            lemma_shown_string(s);
            lemma_inks(on, seq!['"'] + s + seq!['"']);
        }
    }
    assert(enum_texts(values, on) =~= values_text(values, on));
    assert(type_text(Schema::Object(o), indent, on) == object_type_text(o, indent, on));
    assert(type_refs(Schema::Object(o)) == object_type_refs(o));
}

/// A scalar is shown by the name of its type, and an array by its items in square
/// brackets.
pub proof fn lemma_text_of_scalar(o: SchemaObject, t: InstanceType, indent: nat, on: bool)
    requires
        stands_alone(o),
        o.enum_values matches Some(v) ==> v@.len() == 0,
        one_type(o.instance_type) == Some(t),
    ensures
        ({
            let text = type_text(Schema::Object(o), indent, on);
            &&& t == InstanceType::String ==> text == if o.format is Some {
                format_name(Some(o.format->0@))
            } else {
                "String"@
            }
            &&& t == InstanceType::Integer ==> text == if o.format is Some {
                o.format->0@
            } else {
                "Integer"@
            }
            &&& t == InstanceType::Number ==> text == "Number"@
            &&& t == InstanceType::Boolean ==> text == "bool"@
            &&& t == InstanceType::Null ==> text == "null"@
            &&& t == InstanceType::Object && o.object is None ==> text == "{}"@
            &&& t == InstanceType::Array ==> text == "["@ + (match item_of(o) {
                Some(item) => type_text(item, indent, on),
                None => "any"@,
            }) + ", ...]"@
        }),
        t == InstanceType::Array ==> type_refs(Schema::Object(o)) == match item_of(o) {
            Some(item) => type_refs(item),
            None => Set::empty(),
        },
        t != InstanceType::Array && t != InstanceType::Object ==> type_refs(Schema::Object(o))
            == Set::<Seq<char>>::empty(),
{
    assert(type_text(Schema::Object(o), indent, on) == object_type_text(o, indent, on));
    assert(type_refs(Schema::Object(o)) == object_type_refs(o));
    assert(item_text(o, indent, on) == match item_of(o) {
        Some(item) => type_text(item, indent, on),
        None => "any"@,
    });
    assert(item_refs(o) == match item_of(o) {
        Some(item) => type_refs(item),
        None => Set::empty(),
    });
    assert(o.object is None ==> members_text(o, Seq::empty(), indent, on) == "{}"@);
}

/// A schema without a type and without properties is shown as an empty object.
pub proof fn lemma_text_of_nothing(o: SchemaObject, indent: nat, on: bool)
    requires
        stands_alone(o),
        o.enum_values matches Some(v) ==> v@.len() == 0,
        one_type(o.instance_type) is None,
        o.object is None,
    ensures
        type_text(Schema::Object(o), indent, on) == seq!['{', '}'],
        type_refs(Schema::Object(o)) == Set::<Seq<char>>::empty(),
{
    reveal_strlit("{}");
    assert("{}"@ =~= seq!['{', '}']);
    assert(type_text(Schema::Object(o), indent, on) == object_type_text(o, indent, on));
    assert(type_refs(Schema::Object(o)) == object_type_refs(o));
    assert(members_text(o, Seq::empty(), indent, on) == "{}"@);
}

/// The key of a property: in square brackets where it is optional.
pub open spec fn key_text(name: Seq<char>, is_required: bool) -> Seq<char> {
    if is_required {
        name + seq![':']
    } else {
        seq!['['] + name + seq![']', ':']
    }
}

/// The key of a property as it is shown, dimmed where it is optional.
pub open spec fn key_in_ink(name: Seq<char>, is_required: bool, on: bool) -> Seq<char> {
    if is_required {
        key_text(name, is_required)
    } else {
        ink(on, seq!['2'], key_text(name, is_required))
    }
}

/// The remark on the default value that `s` gives, dimmed and `sep` behind the type.
pub open spec fn remark_text(s: Schema, sep: Seq<char>, on: bool) -> Seq<char> {
    if s is Object && s->Object_0.metadata is Some && s->Object_0.metadata->0.default is Some {
        ink(
            on,
            seq!['2'],
            sep + "(default: "@ + shown(s->Object_0.metadata->0.default->0@) + seq![')'],
        )
    } else {
        Seq::empty()
    }
}

/// A key is the name and a colon, in square brackets and dimmed where the property is
/// optional; the remark on a default is dimmed and stands in parentheses.
pub proof fn lemma_key_and_remark(
    name: Seq<char>,
    is_required: bool,
    s: Schema,
    sep: Seq<char>,
    on: bool,
)
    ensures
        plain_key(name, is_required) == key_text(name, is_required),
        shown_key(name, is_required, on) == key_in_ink(name, is_required, on),
        default_remark(s, sep, on) == remark_text(s, sep, on),
{
    reveal_strlit(":");
    reveal_strlit("[");
    reveal_strlit("]:");
    reveal_strlit(")");
    assert(":"@ =~= seq![':']);
    assert("["@ =~= seq!['[']);
    assert("]:"@ =~= seq![']', ':']);
    assert(")"@ =~= seq![')']);
    lemma_inks(on, key_text(name, is_required));
    if let Schema::Object(o) = s {
        if let Some(d) = default_of(o) {
            lemma_inks(on, sep + "(default: "@ + shown(d) + seq![')']);
        }
    }
}

/// `w` is the width of the widest key, in bytes.
pub open spec fn widest(ov: ObjectValidation, w: nat) -> bool {
    let props = ov.properties.entries@;
    &&& forall|i: int|
        0 <= i < props.len() ==> byte_len(
            key_text((#[trigger] props[i]).0@, ov.required@.contains(props[i].0@)),
        ) <= w
    &&& props.len() > 0 ==> exists|i: int|
        0 <= i < props.len() && byte_len(
            key_text((#[trigger] props[i]).0@, ov.required@.contains(props[i].0@)),
        ) == w
}

/// The line of property number `i`: two blanks in, its key, blanks up to the common column,
/// two more, its type, and the remark on its default.
pub open spec fn line_text(ov: ObjectValidation, i: int, w: nat, indent: nat, on: bool) -> Seq<
    char,
> {
    let name = ov.properties.entries@[i].0@;
    let needed = ov.required@.contains(name);
    blanks(indent + 2) + key_in_ink(name, needed, on) + blanks(
        (w - byte_len(key_text(name, needed))) as nat,
    ) + seq![' ', ' '] + type_text(ov.properties.entries@[i].1, indent + 2, on) + remark_text(
        ov.properties.entries@[i].1,
        seq![' ', ' ', ' '],
        on,
    )
}

proof fn lemma_widest(props: Seq<(String, Schema)>, required: Set<Seq<char>>)
    ensures
        forall|i: int|
            0 <= i < props.len() ==> byte_len(
                key_text((#[trigger] props[i]).0@, required.contains(props[i].0@)),
            ) <= widest_key(props, required),
        props.len() > 0 ==> exists|i: int|
            0 <= i < props.len() && byte_len(
                key_text((#[trigger] props[i]).0@, required.contains(props[i].0@)),
            ) == widest_key(props, required),
    decreases props.len(),
{
    if props.len() > 0 {
        let init = props.drop_last();
        lemma_widest(init, required);
        let last = props[props.len() - 1];
        let w = widest_key(props, required);
        lemma_key_and_remark(
            last.0@,
            required.contains(last.0@),
            last.1,
            Seq::empty(),
            false,
        );
        assert forall|i: int| 0 <= i < props.len() implies byte_len(
            key_text((#[trigger] props[i]).0@, required.contains(props[i].0@)),
        ) <= w by {
            if i < init.len() {
                assert(init[i] == props[i]);
            }
        }
        if w == byte_len(key_text(last.0@, required.contains(last.0@))) {
            assert(props[props.len() - 1].0@ == last.0@);
        } else {
            assert(init.len() > 0) by {
                if init.len() == 0 {
                    assert(widest_key(init, required) == 0);
                }
            }
            let i = choose|i: int|
                0 <= i < init.len() && byte_len(
                    key_text((#[trigger] init[i]).0@, required.contains(init[i].0@)),
                ) == widest_key(init, required);
            assert(props[i] == init[i]);
        }
    }
}

/// An object is shown as a block with a line for each property, in the order in which they
/// are listed; one without properties as `{}`.
pub proof fn lemma_block_text(
    o: SchemaObject,
    priority: Seq<Seq<char>>,
    w: nat,
    indent: nat,
    on: bool,
)
    requires
        o.object is Some,
        widest(*o.object->0, w),
    ensures
        o.object->0.properties.entries@.len() == 0 ==> members_text(o, priority, indent, on)
            == "{}"@,
        o.object->0.properties.entries@.len() > 0 ==> members_text(o, priority, indent, on) == seq![
            '{',
            '\n',
        ] + joined(
            Seq::new(
                property_order(
                    o.object->0.properties.entries@,
                    o.object->0.required@,
                    priority,
                ).len(),
                |j: int|
                    line_text(
                        *o.object->0,
                        property_order(
                            o.object->0.properties.entries@,
                            o.object->0.required@,
                            priority,
                        )[j],
                        w,
                        indent,
                        on,
                    ),
            ),
            seq!['\n'],
        ) + seq!['\n'] + blanks(indent) + seq!['}'],
{
    let ov = *o.object->0;
    let props = ov.properties.entries@;
    let order = property_order(props, ov.required@, priority);
    if props.len() > 0 {
        lemma_widest(props, ov.required@);
        assert(w == widest_key(props, ov.required@)) by {
            let i = choose|i: int|
                0 <= i < props.len() && byte_len(
                    key_text((#[trigger] props[i]).0@, ov.required@.contains(props[i].0@)),
                ) == w;
            let k = choose|k: int|
                0 <= k < props.len() && byte_len(
                    key_text((#[trigger] props[k]).0@, ov.required@.contains(props[k].0@)),
                ) == widest_key(props, ov.required@);
            assert(byte_len(
                key_text(props[i].0@, ov.required@.contains(props[i].0@)),
            ) <= widest_key(props, ov.required@));
            assert(byte_len(key_text(props[k].0@, ov.required@.contains(props[k].0@))) <= w);
        }
        lemma_order_bounds(props, ov.required@, priority);
        reveal_strlit("  ");
        reveal_strlit("   ");
        reveal_strlit("{\n");
        reveal_strlit("\n");
        reveal_strlit("}");
        assert("  "@ =~= seq![' ', ' ']);
        assert("   "@ =~= seq![' ', ' ', ' ']);
        assert("{\n"@ =~= seq!['{', '\n']);
        assert("\n"@ =~= seq!['\n']);
        assert("}"@ =~= seq!['}']);
        let types = property_texts(props, indent + 2, on);
        let a = property_lines(ov, types, order, indent, on);
        let b = Seq::new(order.len(), |j: int| line_text(ov, order[j], w, indent, on));
        assert forall|j: int| 0 <= j < order.len() implies #[trigger] a[j] == b[j] by {
            let at = order[j];
            assert(0 <= at < props.len());
            let name = props[at].0@;
            let needed = ov.required@.contains(name);
            lemma_key_and_remark(name, needed, props[at].1, "   "@, on);
            assert(types[at] == type_text(props[at].1, indent + 2, on));
        }
        assert(a =~= b);
        assert(members_text(o, priority, indent, on) == object_block(
            ov,
            types,
            priority,
            indent,
            on,
        ));
    }
}

/// A schema that asks for an object, or for no type at all, is shown as the block of its
/// properties, and asks for the productions that these ask for.
pub proof fn lemma_text_of_object(o: SchemaObject, indent: nat, on: bool, x: Seq<char>)
    requires
        stands_alone(o),
        o.enum_values matches Some(v) ==> v@.len() == 0,
        one_type(o.instance_type) is None || one_type(o.instance_type) == Some(
            InstanceType::Object,
        ),
        o.object is Some,
    ensures
        type_text(Schema::Object(o), indent, on) == members_text(o, Seq::empty(), indent, on),
        type_refs(Schema::Object(o)).contains(x) <==> exists|i: int|
            0 <= i < o.object->0.properties.entries@.len() && type_refs(
                (#[trigger] o.object->0.properties.entries@[i]).1,
            ).contains(x),
{
    assert(type_text(Schema::Object(o), indent, on) == object_type_text(o, indent, on));
    assert(type_refs(Schema::Object(o)) == object_type_refs(o));
    let ov = o.object->0;
    let props = ov.properties.entries@;
    let order = property_order(props, ov.required@, Seq::empty());
    lemma_order_bounds(props, ov.required@, Seq::empty());
    lemma_union_at(property_refs(props), order, x);
    if exists|i: int| 0 <= i < props.len() && type_refs((#[trigger] props[i]).1).contains(x) {
        let i = choose|i: int|
            0 <= i < props.len() && type_refs((#[trigger] props[i]).1).contains(x);
        lemma_order_covers(props, ov.required@, i);
        let j = choose|j: int| 0 <= j < order.len() && order[j] == i;
        assert(property_refs(props)[order[j]].contains(x));
    }
    if type_refs(Schema::Object(o)).contains(x) {
        let j = choose|j: int|
            0 <= j < order.len() && #[trigger] property_refs(props)[order[j]].contains(x);
        assert(0 <= order[j] < props.len());
        assert(type_refs(props[order[j]].1).contains(x));
    }
}

proof fn lemma_union_at(sets: Seq<Set<Seq<char>>>, order: Seq<int>, x: Seq<char>)
    ensures
        union_at(sets, order).contains(x) <==> exists|j: int|
            0 <= j < order.len() && #[trigger] sets[order[j]].contains(x),
    decreases order.len(),
{
    if order.len() > 0 {
        let init = order.drop_last();
        lemma_union_at(sets, init, x);
        if union_at(sets, init).contains(x) {
            let j = choose|j: int| 0 <= j < init.len() && #[trigger] sets[init[j]].contains(x);
            assert(sets[order[j]].contains(x));
        }
        if sets[order.last()].contains(x) {
            assert(sets[order[order.len() - 1]].contains(x));
        }
        if exists|j: int| 0 <= j < order.len() && #[trigger] sets[order[j]].contains(x) {
            let j = choose|j: int| 0 <= j < order.len() && #[trigger] sets[order[j]].contains(x);
            if j < init.len() {
                assert(sets[init[j]].contains(x));
            }
        }
    }
}

/// Member number `i` of an object on one line: its key, its type, and the remark on its
/// default.
pub open spec fn member_text(ov: ObjectValidation, i: int, on: bool) -> Seq<char> {
    let name = ov.properties.entries@[i].0@;
    key_in_ink(name, ov.required@.contains(name), on) + seq![' '] + type_text(
        ov.properties.entries@[i].1,
        0,
        on,
    ) + remark_text(ov.properties.entries@[i].1, seq![' '], on)
}

/// The names that are listed first: the tag, where there is one.
pub open spec fn tag_names(tag: Option<Seq<char>>) -> Seq<Seq<char>> {
    if tag is Some {
        seq![tag->0]
    } else {
        Seq::empty()
    }
}

/// An arm of a union on one line: an object in braces with its members, the tag first, any
/// other type as it is.
pub open spec fn arm_line(s: Schema, tag: Option<Seq<char>>, on: bool) -> Seq<char> {
    if s is Object && s->Object_0.object is Some {
        let ov = *s->Object_0.object->0;
        let order = property_order(ov.properties.entries@, ov.required@, tag_names(tag));
        if order.len() == 0 {
            seq!['{', '}']
        } else {
            seq!['{', ' '] + joined(
                Seq::new(order.len(), |j: int| member_text(ov, order[j], on)),
                seq![',', ' '],
            ) + seq![' ', '}']
        }
    } else {
        type_text(s, 0, on)
    }
}

/// An arm of a union as a block: an object of a tagged union with its tag first, any other
/// type as it is.
pub open spec fn arm_block(s: Schema, tag: Option<Seq<char>>, on: bool) -> Seq<char> {
    if s is Object && tag is Some {
        members_text(s->Object_0, seq![tag->0], 0, on)
    } else {
        type_text(s, 0, on)
    }
}

/// An arm of a union is shown on one line with its members in braces, and as a block with
/// its tag first, where there is one.
pub proof fn lemma_arm_line(s: Schema, tag: Option<Seq<char>>, on: bool)
    ensures
        inline_variant(s, tag, on) == arm_line(s, tag, on),
        block_variant(s, tag, on) == arm_block(s, tag, on),
        tag_first(tag) == tag_names(tag),
{
    if s is Object && s->Object_0.object is Some {
        let ov = *s->Object_0.object->0;
        let props = ov.properties.entries@;
        let order = property_order(props, ov.required@, tag_names(tag));
        lemma_order_bounds(props, ov.required@, tag_names(tag));
        reveal_strlit("{}");
        reveal_strlit("{ ");
        reveal_strlit(" }");
        reveal_strlit(", ");
        reveal_strlit(" ");
        assert("{}"@ =~= seq!['{', '}']);
        assert("{ "@ =~= seq!['{', ' ']);
        assert(" }"@ =~= seq![' ', '}']);
        assert(", "@ =~= seq![',', ' ']);
        assert(" "@ =~= seq![' ']);
        let types = property_texts(props, 0, on);
        let a = member_parts(ov, types, order, on);
        let b = Seq::new(order.len(), |j: int| member_text(ov, order[j], on));
        assert forall|j: int| 0 <= j < order.len() implies #[trigger] a[j] == b[j] by {
            let at = order[j];
            assert(0 <= at < props.len());
            let name = props[at].0@;
            lemma_key_and_remark(name, ov.required@.contains(name), props[at].1, " "@, on);
            assert(types[at] == type_text(props[at].1, 0, on));
        }
        assert(a =~= b);
    }
}

/// An object on one line, without colours, has a member for each property: for an optional
/// one it starts with the name in square brackets, for a required one with the bare name,
/// and a colon and the type follow.
pub proof fn lemma_optional_members_in_brackets(
    s: Schema,
    ov: ObjectValidation,
    tag: Option<Seq<char>>,
    i: int,
) -> (r: (Seq<Seq<char>>, int))
    requires
        s matches Schema::Object(o) && (o.object matches Some(x) && *x == ov),
        ov.properties.wf(),
        0 <= i < ov.properties.entries@.len(),
    ensures
        ({
            let (members, j) = r;
            let name = ov.properties.entries@[i].0@;
            let key = if ov.required@.contains(name) {
                name + seq![':']
            } else {
                seq!['['] + name + seq![']', ':']
            };
            &&& inline_variant(s, tag, false) == seq!['{', ' '] + joined(members, seq![',', ' '])
                + seq![' ', '}']
            &&& members.len() == ov.properties.entries@.len()
            &&& 0 <= j < members.len()
            &&& members[j].take(key.len() as int) == key
            &&& members[j].skip(key.len() as int) == seq![' '] + type_text(
                ov.properties.entries@[i].1,
                0,
                false,
            ) + remark_text(ov.properties.entries@[i].1, seq![' '], false)
        }),
{
    let props = ov.properties.entries@;
    let names = tag_names(tag);
    let order = property_order(props, ov.required@, names);
    lemma_arm_line(s, tag, false);
    lemma_order_lists_each_once(props, ov.required@, names);
    lemma_order_bounds(props, ov.required@, names);
    lemma_each_once_len(order, props.len());
    assert(order.contains(i));
    let j = choose|j: int| 0 <= j < order.len() && order[j] == i;
    let members = Seq::new(order.len(), |j: int| member_text(ov, order[j], false));
    let name = props[i].0@;
    let key = key_text(name, ov.required@.contains(name));
    let text = member_text(ov, i, false);
    assert(text.take(key.len() as int) =~= key);
    assert(text.skip(key.len() as int) =~= seq![' '] + type_text(props[i].1, 0, false)
        + remark_text(props[i].1, seq![' '], false));
    (members, j)
}

/// The lines of the arms of a union.
pub open spec fn arm_lines(arms: Seq<Schema>, tag: Option<Seq<char>>, on: bool) -> Seq<Seq<char>> {
    Seq::new(arms.len(), |i: int| arm_line(arms[i], tag, on))
}

/// The blocks of the arms of a union.
pub open spec fn arm_blocks(arms: Seq<Schema>, tag: Option<Seq<char>>, on: bool) -> Seq<
    Seq<char>,
> {
    Seq::new(arms.len(), |i: int| arm_block(arms[i], tag, on))
}

/// Where each of several arms fits on a line of 76 columns, they stand on one line if that
/// has at most 80 columns and none is an object, else on a line each; where one does not
/// fit, all are shown as blocks.
pub open spec fn arms_laid_out(arms: Seq<Schema>, tag: Option<Seq<char>>, on: bool) -> Seq<char> {
    let lines = arm_lines(arms, tag, on);
    let line = joined(lines, seq![' '] + bar_text(on) + seq![' ']);
    let fit = forall|i: int|
        0 <= i < lines.len() ==> visible(#[trigger] lines[i]).len() <= 76 && !lines[i].contains(
            '\n',
        );
    let flat = forall|i: int| 0 <= i < lines.len() ==> !(#[trigger] lines[i]).contains('{');
    let next = seq!['\n'] + bar_text(on) + seq![' '];
    if !fit {
        joined(arm_blocks(arms, tag, on), next)
    } else if flat && visible(line).len() <= 80 {
        line
    } else {
        seq![' ', ' '] + joined(lines, next)
    }
}

/// The arms of a union are laid out by what fits.
pub proof fn lemma_arms_laid_out(arms: Seq<Schema>, tag: Option<Seq<char>>, on: bool)
    ensures
        variants_text(arms, tag, on) == arms_laid_out(arms, tag, on),
{
    let lines = arm_lines(arms, tag, on);
    assert forall|i: int| 0 <= i < arms.len() implies #[trigger] arm_lines(arms, tag, on)[i]
        == inline_variant(arms[i], tag, on) && arm_blocks(arms, tag, on)[i] == block_variant(
        arms[i],
        tag,
        on,
    ) by {
        lemma_arm_line(arms[i], tag, on);
    }
    assert(inline_variants(arms, tag, on) =~= lines);
    assert forall|i: int| 0 <= i < arms.len() implies #[trigger] block_variants(
        arms,
        tag,
        on,
    )[i] == arm_blocks(arms, tag, on)[i] by {
        assert(arm_lines(arms, tag, on)[i] == inline_variant(arms[i], tag, on));
    }
    assert(block_variants(arms, tag, on) =~= arm_blocks(arms, tag, on));
    lemma_bar_text(on);
    reveal_strlit("  ");
    assert("  "@ =~= seq![' ', ' ']);
    let fit = forall|i: int|
        0 <= i < lines.len() ==> visible(#[trigger] lines[i]).len() <= 76 && !lines[i].contains(
            '\n',
        );
    assert(all_fit(arms, tag, on) == fit) by {
        if fit {
            assert forall|i: int| 0 <= i < arms.len() implies fits(
                #[trigger] inline_variant(arms[i], tag, on),
                76,
            ) by {
                assert(lines[i] == inline_variant(arms[i], tag, on));
            }
        }
        if all_fit(arms, tag, on) {
            assert forall|i: int| 0 <= i < lines.len() implies visible(#[trigger] lines[i]).len()
                <= 76 && !lines[i].contains('\n') by {
                assert(fits(inline_variant(arms[i], tag, on), 76));
            }
        }
    }
}

/// The production of a union shows its real arms.
pub proof fn lemma_body_of_union(o: SchemaObject, arms: Seq<Schema>, on: bool)
    requires
        real_arms_are(o, arms),
        arms.len() > 1,
    ensures
        body(o, on) == arms_laid_out(arms, tag_of(arms), on),
{
    assert(effective(o) == o);
    assert(shown_arms(o) == Some(arms));
    assert(shown_tag(o) == tag_of(arms));
    lemma_arms_laid_out(arms, tag_of(arms), on);
}

/// `o` is an `allOf` of `inner` alone, which is no such thing itself.
pub open spec fn wraps_all_of(o: SchemaObject, inner: SchemaObject) -> bool {
    &&& o.reference is None
    &&& o.subschemas matches Some(sub) && (sub.all_of matches Some(v) && v@.len() == 1 && v@[0]
        == Schema::Object(inner))
    &&& !(inner.subschemas matches Some(sub) && (sub.all_of matches Some(v) && v@.len() == 1))
}

/// The production of anything but a union with several real arms shows its type, and a
/// one-element `allOf` of an object schema is shown as that.
pub proof fn lemma_body_of_type(o: SchemaObject, on: bool)
    ensures
        stands_alone(o) ==> body(o, on) == type_text(Schema::Object(o), 0, on),
        forall|arms: Seq<Schema>| #[trigger]
            real_arms_are(o, arms) && arms.len() == 0 ==> body(o, on) == type_text(
                Schema::Object(o),
                0,
                on,
            ),
        forall|arms: Seq<Schema>| #[trigger]
            real_arms_are(o, arms) && arms.len() == 1 ==> body(o, on) == type_text(arms[0], 0, on),
        forall|inner: SchemaObject| #[trigger]
            wraps_all_of(o, inner) ==> body(o, on) == body(inner, on),
{
    assert(type_text(Schema::Object(o), 0, on) == object_type_text(o, 0, on));
    assert forall|inner: SchemaObject| #[trigger] wraps_all_of(o, inner) implies body(o, on)
        == body(inner, on) by {
        assert(effective(o) == inner);
        assert(effective(inner) == inner);
        assert(type_text(Schema::Object(inner), 0, on) == object_type_text(inner, 0, on));
    }
}

/// Property number `p` of the arm `s` refers to `x`.
pub open spec fn field_refers(s: Schema, p: int, x: Seq<char>) -> bool {
    &&& s matches Schema::Object(o) && (o.object matches Some(ov) && 0 <= p
        < ov.properties.entries@.len())
    &&& type_refs(s->Object_0.object->0.properties.entries@[p].1).contains(x)
}

proof fn lemma_refs_of_all(arms: Seq<Schema>, f: spec_fn(Schema) -> Set<Seq<char>>, x: Seq<char>)
    ensures
        refs_of_all(arms, f).contains(x) <==> exists|i: int|
            0 <= i < arms.len() && f(#[trigger] arms[i]).contains(x),
    decreases arms.len(),
{
    if arms.len() > 0 {
        let init = arms.drop_last();
        lemma_refs_of_all(init, f, x);
        if exists|i: int| 0 <= i < init.len() && f(#[trigger] init[i]).contains(x) {
            let i = choose|i: int| 0 <= i < init.len() && f(#[trigger] init[i]).contains(x);
            assert(arms[i] == init[i]);
        }
        assert(arms[arms.len() - 1] == arms.last());
        if exists|i: int| 0 <= i < arms.len() && f(#[trigger] arms[i]).contains(x) {
            let i = choose|i: int| 0 <= i < arms.len() && f(#[trigger] arms[i]).contains(x);
            if i < init.len() {
                assert(init[i] == arms[i]);
            }
        }
    }
}

/// The members of an arm refer to what its properties refer to.
proof fn lemma_refs_of_members(s: Schema, names: Seq<Seq<char>>, x: Seq<char>)
    requires
        s is Object,
        names.no_duplicates(),
    ensures
        members_refs(s->Object_0, names).contains(x) ==> exists|p: int| #[trigger]
            field_refers(s, p, x),
        (s->Object_0.object matches Some(ov) && ov.properties.wf()) && (exists|p: int| #[trigger]
            field_refers(s, p, x)) ==> members_refs(s->Object_0, names).contains(x),
{
    let o = s->Object_0;
    if let Some(ov) = o.object {
        let props = ov.properties.entries@;
        let order = property_order(props, ov.required@, names);
        lemma_order_bounds(props, ov.required@, names);
        lemma_union_at(property_refs(props), order, x);
        if members_refs(o, names).contains(x) {
            let j = choose|j: int|
                0 <= j < order.len() && #[trigger] property_refs(props)[order[j]].contains(x);
            assert(0 <= order[j] < props.len());
            assert(field_refers(s, order[j], x));
        }
        if ov.properties.wf() && exists|p: int| #[trigger] field_refers(s, p, x) {
            let p = choose|p: int| #[trigger] field_refers(s, p, x);
            lemma_order_lists_each_once(props, ov.required@, names);
            assert(order.contains(p));
            let j = choose|j: int| 0 <= j < order.len() && order[j] == p;
            assert(property_refs(props)[order[j]].contains(x));
        }
    }
}

/// The production of a union asks for the productions that its arms refer to: those of the
/// properties of an object, and those of the type of any other arm; and for no others but
/// those that the types of its arms refer to.
pub proof fn lemma_refs_of_union_body(
    o: SchemaObject,
    arms: Seq<Schema>,
    on: bool,
    i: int,
    p: int,
    x: Seq<char>,
)
    requires
        real_arms_are(o, arms),
        arms.len() > 1,
    ensures
        0 <= i < arms.len() && field_refers(arms[i], p, x)
            && arms[i]->Object_0.object->0.properties.wf() ==> body_refs(o, on).contains(x),
        0 <= i < arms.len() && !(arms[i] matches Schema::Object(a) && a.object is Some)
            && type_refs(arms[i]).contains(x) ==> body_refs(o, on).contains(x),
        body_refs(o, on).contains(x) ==> exists|k: int|
            #![trigger arms[k]]
            0 <= k < arms.len() && (type_refs(arms[k]).contains(x) || exists|q: int| #[trigger]
                field_refers(arms[k], q, x)),
{
    let tag = tag_of(arms);
    let names = tag_first(tag);
    assert(effective(o) == o);
    assert(shown_arms(o) == Some(arms));
    assert(shown_tag(o) == tag);
    let f = |s: Schema| inline_refs(s, tag);
    let g = |s: Schema| block_refs(s, tag);
    lemma_refs_of_all(arms, f, x);
    lemma_refs_of_all(arms, g, x);
    if 0 <= i < arms.len() && arms[i] is Object {
        lemma_refs_of_members(arms[i], names, x);
        assert(f(arms[i]) == inline_refs(arms[i], tag));
    }
    if body_refs(o, on).contains(x) {
        if refs_of_all(arms, f).contains(x) {
            let k = choose|k: int| 0 <= k < arms.len() && f(#[trigger] arms[k]).contains(x);
            if arms[k] is Object {
                lemma_refs_of_members(arms[k], names, x);
            }
        } else {
            let k = choose|k: int| 0 <= k < arms.len() && g(#[trigger] arms[k]).contains(x);
            if arms[k] is Object {
                lemma_refs_of_members(arms[k], names, x);
            }
        }
    }
}

/// The production of anything but a union asks for what its type refers to.
pub proof fn lemma_refs_of_type_body(o: SchemaObject, on: bool)
    ensures
        stands_alone(o) ==> body_refs(o, on) == type_refs(Schema::Object(o)),
        forall|arms: Seq<Schema>| #[trigger]
            real_arms_are(o, arms) && arms.len() == 1 ==> body_refs(o, on) == type_refs(arms[0]),
{
    assert(type_refs(Schema::Object(o)) == object_type_refs(o));
}

/// The remark on who uses a type: the first three names, and how many more there are.
pub open spec fn used_by_text(names: Seq<Seq<char>>) -> Seq<char> {
    if names.len() <= 3 {
        "(used by: "@ + joined(names, seq![',', ' ']) + seq![')']
    } else {
        "(used by: "@ + joined(seq![names[0], names[1], names[2]], seq![',', ' ']) + ", +"@
            + decimal((names.len() - 3) as nat) + " more)"@
    }
}

proof fn lemma_used_by_text(names: Seq<Seq<char>>)
    ensures
        used_by(names) == used_by_text(names),
{
    reveal_strlit(", ");
    reveal_strlit(")");
    reveal_strlit(" more");
    reveal_strlit(" more)");
    assert(", "@ =~= seq![',', ' ']);
    assert(")"@ =~= seq![')']);
    assert(" more)"@ =~= " more"@ + ")"@);
    if names.len() <= 3 {
        assert(names.take(names.len() as int) =~= names);
    } else {
        assert(names.take(3) =~= seq![names[0], names[1], names[2]]);
        let a = "(used by: "@ + joined(names.take(3), ", "@) + ", +"@ + decimal(
            (names.len() - 3) as nat,
        );
        assert(a + " more"@ + ")"@ =~= a + (" more"@ + ")"@));
    }
}

/// The head of a production: its name in bold, `::=` dimmed, and the remarks dimmed, each
/// behind two blanks: `(root)` for the root; for any other type who uses it, but for
/// itself, in the order of their names; and the tag of a tagged union. The body follows on
/// the next line, and a line break closes it.
pub proof fn lemma_production_text(
    name: Seq<char>,
    o: SchemaObject,
    is_root: bool,
    by: Set<Seq<char>>,
    others: Seq<Seq<char>>,
    on: bool,
)
    requires
        ascending(others),
        others.to_set() == by.remove(name),
    ensures
        ({
            let role = if is_root {
                seq![ink(on, seq!['2'], "(root)"@)]
            } else if others.len() > 0 {
                seq![ink(on, seq!['2'], used_by_text(others))]
            } else {
                Seq::empty()
            };
            let notes = match shown_tag(o) {
                Some(t) => role.push(ink(on, seq!['2'], "(tagged on `"@ + t + "`)"@)),
                None => role,
            };
            let head = ink(on, seq!['1'], name) + seq![' '] + ink(on, seq!['2'], "::="@);
            object_production(name, o, is_root, by, on) == if notes.len() > 0 {
                head + seq![' ', ' '] + joined(notes, seq![' ', ' ']) + seq!['\n'] + body(o, on)
                    + seq!['\n']
            } else {
                head + seq!['\n'] + body(o, on) + seq!['\n']
            }
        }),
        forall|arms: Seq<Schema>| #[trigger]
            real_arms_are(o, arms) ==> shown_tag(o) == tag_of(arms),
        stands_alone(o) ==> shown_tag(o) is None,
{
    let same = listed(by.remove(name));
    assert(exists|s: Seq<Seq<char>>| ascending(s) && s.to_set() == by.remove(name));
    assert(ascending(same) && same.to_set() == by.remove(name));
    lemma_ascending_unique(same, others);
    lemma_used_by_text(others);
    lemma_inks(on, "(root)"@);
    lemma_inks(on, used_by_text(others));
    lemma_inks(on, name);
    lemma_inks(on, "::="@);
    if let Some(t) = shown_tag(o) {
        lemma_inks(on, "(tagged on `"@ + t + "`)"@);
    }
    reveal_strlit(" ");
    reveal_strlit("  ");
    reveal_strlit("\n");
    assert(" "@ =~= seq![' ']);
    assert("  "@ =~= seq![' ', ' ']);
    assert("\n"@ =~= seq!['\n']);
    assert forall|arms: Seq<Schema>| #[trigger] real_arms_are(o, arms) implies shown_tag(o)
        == tag_of(arms) by {
        assert(effective(o) == o);
        assert(shown_arms(o) == Some(arms));
    }
}

/// The production of a definition that is `true` or `false` stands on one line.
pub proof fn lemma_production_of_bool(name: Seq<char>, b: bool, by: Set<Seq<char>>, on: bool)
    ensures
        production(name, Schema::Bool(b), by, on) == ink(on, seq!['1'], name) + seq![' '] + ink(
            on,
            seq!['2'],
            "::="@,
        ) + seq![' '] + (if b {
            "any"@
        } else {
            "never"@
        }) + seq!['\n'],
{
    lemma_inks(on, name);
    lemma_inks(on, "::="@);
    reveal_strlit(" ");
    reveal_strlit("\n");
    assert(" "@ =~= seq![' ']);
    assert("\n"@ =~= seq!['\n']);
    lemma_text_of_bool(b, 0, on);
}

/// The grammar reference starts with the legend, dimmed, and the root's production; the
/// productions of the definitions that are due follow.
pub proof fn lemma_grammar_starts(root: RootSchema, on: bool)
    ensures
        grammar(root, on) == ink(
            on,
            seq!['2'],
            "# [foo] = optional   <Type> = named ref   | = alternative"@,
        ) + seq!['\n'] + ink(
            on,
            seq!['2'],
            "# (default: X) = default value   (tagged on `f`) = discriminator field"@,
        ) + seq!['\n', '\n'] + object_production(
            root_name(root),
            root.schema,
            true,
            users(root, root_name(root), root_name(root)),
            on,
        ) + productions(root, agenda(root, on), on),
        is_agenda(root, agenda(root, on), on),
{
    lemma_inks(on, "# [foo] = optional   <Type> = named ref   | = alternative"@);
    lemma_inks(on, "# (default: X) = default value   (tagged on `f`) = discriminator field"@);
    reveal_strlit("\n");
    reveal_strlit("\n\n");
    assert("\n"@ =~= seq!['\n']);
    assert("\n\n"@ =~= seq!['\n', '\n']);
    lemma_agenda_exists(root, on);
}

/// Productions follow each other so that next comes always the first name, in the order of
/// names, that is due; at the end nothing is due.
pub proof fn lemma_order_of_productions(root: RootSchema, k: int, n: Seq<char>, on: bool)
    ensures
        ({
            let names = agenda(root, on);
            &&& !owing(root, names, on).contains(n)
            &&& 0 <= k < names.len() ==> owing(root, names.take(k), on).contains(names[k])
            &&& 0 <= k < names.len() && owing(root, names.take(k), on).contains(n) && n
                != names[k] ==> name_lt(names[k], n)
        }),
{
    lemma_agenda_exists(root, on);
    let names = agenda(root, on);
    assert(is_agenda(root, names, on));
    if 0 <= k < names.len() {
        assert(is_least(owing(root, names.take(k), on), names[k]));
    }
}

/// What is seen of a text: all of it where no escape sequence starts in it, and nothing of
/// an escape sequence, up to the letter that closes it.
pub proof fn lemma_what_is_seen(a: Seq<char>, code: Seq<char>, c: char, b: Seq<char>)
    requires
        !a.contains('\u{1b}'),
        forall|i: int|
            0 <= i < code.len() ==> !('a' <= #[trigger] code[i] <= 'z' || 'A' <= code[i] <= 'Z'),
        'a' <= c <= 'z' || 'A' <= c <= 'Z',
    ensures
        visible(a) == a,
        visible(a + seq!['\u{1b}'] + code + seq![c] + b) == a + visible(b),
{
    lemma_calm_visible(a);
    let open = seq!['\u{1b}'];
    let close = seq![c];
    reveal_with_fuel(outside, 2);
    reveal_with_fuel(ends_inside, 2);
    assert(open.drop_last() =~= Seq::<char>::empty());
    assert(close.drop_last() =~= Seq::<char>::empty());
    lemma_inside(code);
    lemma_outside_add(a, open, false);
    lemma_outside_add(a + open, code, false);
    lemma_outside_add(a + open + code, close, false);
    lemma_outside_add(a + open + code + close, b, false);
    assert(outside(open, false) =~= Seq::<char>::empty());
    assert(outside(close, true) =~= Seq::<char>::empty());
    assert(outside(a + open + code + close, false) =~= a);
}

/// The production of each definition that is due follows behind an empty line; a name that
/// is not defined has none.
pub proof fn lemma_productions_one_by_one(
    root: RootSchema,
    names: Seq<Seq<char>>,
    name: Seq<char>,
    i: int,
    on: bool,
)
    requires
        root.definitions.wf(),
    ensures
        productions(root, Seq::empty(), on) == Seq::<char>::empty(),
        0 <= i < root.definitions.entries@.len() && root.definitions.entries@[i].0@ == name
            ==> productions(root, names.push(name), on) == productions(root, names, on) + seq![
            '\n',
        ] + production(
            name,
            root.definitions.entries@[i].1,
            users(root, root_name(root), name),
            on,
        ),
        (forall|k: int|
            0 <= k < root.definitions.entries@.len() ==> (
            #[trigger] root.definitions.entries@[k]).0@ != name) ==> productions(
            root,
            names.push(name),
            on,
        ) == productions(root, names, on),
{
    assert(names.push(name).drop_last() =~= names);
    reveal_strlit("\n");
    assert("\n"@ =~= seq!['\n']);
    lemma_find(root.definitions.entries@, name);
    if 0 <= i < root.definitions.entries@.len() && root.definitions.entries@[i].0@ == name {
        lemma_find_at(root.definitions.entries@, i);
    }
}

/// A definition is shown under its name as what it is, never as the root.
pub proof fn lemma_production_of_definition(
    name: Seq<char>,
    o: SchemaObject,
    by: Set<Seq<char>>,
    on: bool,
)
    ensures
        production(name, Schema::Object(o), by, on) == object_production(name, o, false, by, on),
        production_refs(Schema::Object(o), on) == body_refs(o, on),
{
}

/// What is due after the root and some definitions: what their productions refer to, and
/// is not yet shown.
pub proof fn lemma_what_is_due(root: RootSchema, names: Seq<Seq<char>>, x: Seq<char>, on: bool)
    requires
        root.definitions.wf(),
    ensures
        owing(root, names, on).contains(x) <==> !names.contains(x) && (body_refs(
            root.schema,
            on,
        ).contains(x) || exists|k: int, i: int|
            0 <= k < names.len() && 0 <= i < root.definitions.entries@.len()
                && #[trigger] root.definitions.entries@[i].0@ == #[trigger] names[k]
                && production_refs(root.definitions.entries@[i].1, on).contains(x)),
{
    lemma_refs_of_names(root.definitions, names, x, on);
}

proof fn lemma_refs_of_names(defs: Defs, names: Seq<Seq<char>>, x: Seq<char>, on: bool)
    requires
        defs.wf(),
    ensures
        refs_of_names(defs, names, on).contains(x) <==> exists|k: int, i: int|
            0 <= k < names.len() && 0 <= i < defs.entries@.len()
                && #[trigger] defs.entries@[i].0@ == #[trigger] names[k] && production_refs(
                defs.entries@[i].1,
                on,
            ).contains(x),
    decreases names.len(),
{
    if names.len() > 0 {
        let init = names.drop_last();
        lemma_refs_of_names(defs, init, x, on);
        let last = names[names.len() - 1];
        lemma_find(defs.entries@, last);
        if refs_of_names(defs, init, on).contains(x) {
            let (k, i) = choose|k: int, i: int|
                0 <= k < init.len() && 0 <= i < defs.entries@.len()
                    && #[trigger] defs.entries@[i].0@ == #[trigger] init[k] && production_refs(
                    defs.entries@[i].1,
                    on,
                ).contains(x);
            assert(names[k] == init[k]);
            assert(defs.entries@[i].0@ == names[k]);
        } else if refs_of_names(defs, names, on).contains(x) {
            let i = find(defs.entries@, last)->0;
            assert(defs.entries@[i].0@ == names[names.len() - 1]);
        }
        if exists|k: int, i: int|
            0 <= k < names.len() && 0 <= i < defs.entries@.len()
                && #[trigger] defs.entries@[i].0@ == #[trigger] names[k] && production_refs(
                defs.entries@[i].1,
                on,
            ).contains(x) {
            let (k, i) = choose|k: int, i: int|
                0 <= k < names.len() && 0 <= i < defs.entries@.len()
                    && #[trigger] defs.entries@[i].0@ == #[trigger] names[k] && production_refs(
                    defs.entries@[i].1,
                    on,
                ).contains(x);
            if k < init.len() {
                assert(init[k] == names[k]);
                assert(defs.entries@[i].0@ == init[k]);
            } else {
                lemma_find_at(defs.entries@, i);
            }
        }
    }
}

/// The types that use a name are the root, where it mentions it, and each definition that
/// does.
pub proof fn lemma_users(root: RootSchema, top: Seq<char>, name: Seq<char>, u: Seq<char>)
    ensures
        users(root, top, name).contains(u) <==> (u == top && mentioned(
            Schema::Object(root.schema),
        ).contains(name)) || exists|i: int|
            0 <= i < root.definitions.entries@.len() && (
            #[trigger] root.definitions.entries@[i]).0@ == u && mentioned(
                root.definitions.entries@[i].1,
            ).contains(name),
{
    let others = if mentioned_by(root.schema).contains(name) {
        Set::empty().insert(top)
    } else {
        Set::empty()
    };
    assert(mentioned(Schema::Object(root.schema)) == mentioned_by(root.schema));
    lemma_users_among(root.definitions.entries@, name, others, u);
}

proof fn lemma_users_among(
    defs: Seq<(String, Schema)>,
    name: Seq<char>,
    others: Set<Seq<char>>,
    u: Seq<char>,
)
    ensures
        users_among(defs, name, others).contains(u) <==> others.contains(u) || exists|i: int|
            0 <= i < defs.len() && (#[trigger] defs[i]).0@ == u && mentioned(defs[i].1).contains(
                name,
            ),
    decreases defs.len(),
{
    if defs.len() > 0 {
        let init = defs.drop_last();
        lemma_users_among(init, name, others, u);
        if exists|i: int|
            0 <= i < init.len() && (#[trigger] init[i]).0@ == u && mentioned(init[i].1).contains(
                name,
            ) {
            let i = choose|i: int|
                0 <= i < init.len() && (#[trigger] init[i]).0@ == u && mentioned(
                    init[i].1,
                ).contains(name);
            assert(defs[i] == init[i]);
        }
        assert(defs[defs.len() - 1] == defs.last());
        if exists|i: int|
            0 <= i < defs.len() && (#[trigger] defs[i]).0@ == u && mentioned(defs[i].1).contains(
                name,
            ) {
            let i = choose|i: int|
                0 <= i < defs.len() && (#[trigger] defs[i]).0@ == u && mentioned(
                    defs[i].1,
                ).contains(name);
            if i < init.len() {
                assert(init[i] == defs[i]);
            }
        }
    }
}

/// `list` has a schema that mentions `name`.
pub open spec fn some_mentions(list: Seq<Schema>, name: Seq<char>) -> bool {
    exists|i: int| 0 <= i < list.len() && mentioned(#[trigger] list[i]).contains(name)
}

proof fn lemma_some_mentions(list: Seq<Schema>, name: Seq<char>)
    ensures
        mentioned_by_all(list).contains(name) <==> some_mentions(list, name),
    decreases list.len(),
{
    if list.len() > 0 {
        let init = list.drop_last();
        lemma_some_mentions(init, name);
        if some_mentions(init, name) {
            let i = choose|i: int|
                0 <= i < init.len() && mentioned(#[trigger] init[i]).contains(name);
            assert(list[i] == init[i]);
        }
        assert(list[list.len() - 1] == list.last());
        if some_mentions(list, name) {
            let i = choose|i: int|
                0 <= i < list.len() && mentioned(#[trigger] list[i]).contains(name);
            if i < init.len() {
                assert(init[i] == list[i]);
            }
        }
    }
}

proof fn lemma_member_mentions(props: Seq<(String, Schema)>, name: Seq<char>)
    ensures
        mentioned_by_members(props).contains(name) <==> exists|i: int|
            0 <= i < props.len() && mentioned((#[trigger] props[i]).1).contains(name),
    decreases props.len(),
{
    if props.len() > 0 {
        let init = props.drop_last();
        lemma_member_mentions(init, name);
        if exists|i: int| 0 <= i < init.len() && mentioned((#[trigger] init[i]).1).contains(name) {
            let i = choose|i: int|
                0 <= i < init.len() && mentioned((#[trigger] init[i]).1).contains(name);
            assert(props[i] == init[i]);
        }
        assert(props[props.len() - 1] == props.last());
        if exists|i: int| 0 <= i < props.len() && mentioned((#[trigger] props[i]).1).contains(
            name,
        ) {
            let i = choose|i: int|
                0 <= i < props.len() && mentioned((#[trigger] props[i]).1).contains(name);
            if i < init.len() {
                assert(init[i] == props[i]);
            }
        }
    }
}

/// A schema without a reference mentions what an arm of it, a schema of its `allOf`, a
/// property or an item mentions, and nothing else.
pub proof fn lemma_mentions(o: SchemaObject, name: Seq<char>)
    requires
        o.reference is None,
    ensures
        mentioned(Schema::Object(o)).contains(name) <==> {
            ||| o.subschemas matches Some(sub) && (sub.one_of matches Some(v) && some_mentions(
                v@,
                name,
            ))
            ||| o.subschemas matches Some(sub) && (sub.any_of matches Some(v) && some_mentions(
                v@,
                name,
            ))
            ||| o.subschemas matches Some(sub) && (sub.all_of matches Some(v) && some_mentions(
                v@,
                name,
            ))
            ||| o.object matches Some(ov) && exists|i: int|
                0 <= i < ov.properties.entries@.len() && mentioned(
                    (#[trigger] ov.properties.entries@[i]).1,
                ).contains(name)
            ||| o.array matches Some(av) && match av.items {
                Some(SingleOrVec::Single(s)) => mentioned(*s).contains(name),
                Some(SingleOrVec::Vec(v)) => some_mentions(v@, name),
                None => false,
            }
        },
{
    assert(mentioned(Schema::Object(o)) == mentioned_by(o));
    if let Some(sub) = o.subschemas {
        if let Some(v) = sub.one_of {
            lemma_some_mentions(v@, name);
            assert(mentioned_in(sub.one_of) == mentioned_by_all(v@));
        }
        if let Some(v) = sub.any_of {
            lemma_some_mentions(v@, name);
            assert(mentioned_in(sub.any_of) == mentioned_by_all(v@));
        }
        if let Some(v) = sub.all_of {
            lemma_some_mentions(v@, name);
            assert(mentioned_in(sub.all_of) == mentioned_by_all(v@));
        }
        assert(sub.one_of is None ==> mentioned_in(sub.one_of) == Set::<Seq<char>>::empty());
        assert(sub.any_of is None ==> mentioned_in(sub.any_of) == Set::<Seq<char>>::empty());
        assert(sub.all_of is None ==> mentioned_in(sub.all_of) == Set::<Seq<char>>::empty());
    }
    if let Some(ov) = o.object {
        lemma_member_mentions(ov.properties.entries@, name);
    }
    if let Some(av) = o.array {
        if let Some(SingleOrVec::Vec(v)) = av.items {
            lemma_some_mentions(v@, name);
        }
    }
}

} // verus!
