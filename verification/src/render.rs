//! The grammar notation of a schema: each type as one line or block of text, with
//! the names that it refers to.

use crate::json::{display_value, shown, Json, JsonView};
use crate::names::NameSet;
use crate::naming::{format_name, ref_name, ref_target};
use crate::properties::{lemma_order_bounds, lists, order_properties, property_order};
use crate::schema::{
    format_of, instance_type, is_null_schema, item_schema, null_schema, one_type, render_integer,
    render_string, InstanceType, ObjectValidation, Schema, SchemaObject, SingleOrVec,
};
use crate::style::{dimmed, in_cyan, in_green, in_yellow, plain_len, visible, Style};
use crate::text::{
    blank, blanks, byte_len, cat, cat3, copy_text, has_char, join, joined, lemma_texts_push,
    len_in_bytes, len_in_chars, texts,
};
use vstd::prelude::*;
use vstd::string::*;

verus! {

/// What stands between two alternatives on one line.
pub open spec fn bar(on: bool) -> Seq<char> {
    " "@ + in_yellow(on, "|"@) + " "@
}

/// What stands between two alternatives on lines of their own, `indent` blanks
/// in.
pub open spec fn bar_line(indent: nat, on: bool) -> Seq<char> {
    "\n"@ + blanks(indent) + in_yellow(on, "|"@) + " "@
}

/// The columns that are left of 80, `indent` blanks in.
pub open spec fn room(indent: nat) -> nat {
    if indent <= 80 {
        (80 - indent) as nat
    } else {
        0
    }
}

/// The alternatives `parts`, on one line where that fits into 80 columns less the
/// indentation, else on a line each.
pub open spec fn alternatives(parts: Seq<Seq<char>>, indent: nat, on: bool) -> Seq<char> {
    let inline = joined(parts, bar(on));
    if !inline.contains('\n') && visible(inline).len() <= room(indent) {
        inline
    } else {
        joined(parts, bar_line(indent, on))
    }
}

/// A property's key: `key:` where the property is required, else `[key]:`.
pub open spec fn plain_key(name: Seq<char>, is_required: bool) -> Seq<char> {
    if is_required {
        name + ":"@
    } else {
        "["@ + name + "]:"@
    }
}

/// A property's key as it is shown, dimmed where the property is optional.
pub open spec fn shown_key(name: Seq<char>, is_required: bool, on: bool) -> Seq<char> {
    if is_required {
        plain_key(name, is_required)
    } else {
        dimmed(on, plain_key(name, is_required))
    }
}

/// The default value that `o` gives.
pub open spec fn default_of(o: SchemaObject) -> Option<JsonView> {
    match o.metadata {
        Some(m) => match m.default {
            Some(d) => Some(d@),
            None => None,
        },
        None => None,
    }
}

/// The remark on a property's default value, `sep` behind its type.
pub open spec fn default_remark(s: Schema, sep: Seq<char>, on: bool) -> Seq<char> {
    match s {
        Schema::Object(o) => match default_of(o) {
            Some(d) => dimmed(on, sep + "(default: "@ + shown(d) + ")"@),
            None => Seq::empty(),
        },
        Schema::Bool(_) => Seq::empty(),
    }
}

/// The width, in bytes, of the widest key of `props`.
pub open spec fn widest_key(props: Seq<(String, Schema)>, required: Set<Seq<char>>) -> nat
    decreases props.len(),
{
    if props.len() == 0 {
        0
    } else {
        let init = widest_key(props.drop_last(), required);
        let name = props.last().0@;
        let width = byte_len(plain_key(name, required.contains(name)));
        if width > init {
            width
        } else {
            init
        }
    }
}

/// The values of an `enum`, as they are shown.
pub open spec fn enum_texts(values: Seq<Json>, on: bool) -> Seq<Seq<char>> {
    Seq::new(
        values.len(),
        |i: int|
            match values[i]@ {
                JsonView::String(s) => in_green(on, shown(values[i]@)),
                _ => shown(values[i]@),
            },
    )
}

/// The line of an object's block that shows one property: its key, blanks up to
/// the common column, its type and the remark on its default.
pub open spec fn property_line(
    prop: (String, Schema),
    text: Seq<char>,
    is_required: bool,
    widest: nat,
    indent: nat,
    on: bool,
) -> Seq<char> {
    let name = prop.0@;
    blanks(indent + 2) + shown_key(name, is_required, on) + blanks(
        (widest - byte_len(plain_key(name, is_required))) as nat,
    ) + "  "@ + text + default_remark(prop.1, "   "@, on)
}

/// The lines of an object's block, for the properties at the positions `order`
/// whose types have the texts `types`.
pub open spec fn property_lines(
    ov: ObjectValidation,
    types: Seq<Seq<char>>,
    order: Seq<int>,
    indent: nat,
    on: bool,
) -> Seq<Seq<char>> {
    let props = ov.properties.entries@;
    Seq::new(
        order.len(),
        |j: int|
            property_line(
                props[order[j]],
                types[order[j]],
                ov.required@.contains(props[order[j]].0@),
                widest_key(props, ov.required@),
                indent,
                on,
            ),
    )
}

/// The block that shows an object, where the types of its properties have the
/// texts `types`.
pub open spec fn object_block(
    ov: ObjectValidation,
    types: Seq<Seq<char>>,
    priority: Seq<Seq<char>>,
    indent: nat,
    on: bool,
) -> Seq<char> {
    let props = ov.properties.entries@;
    if props.len() == 0 {
        "{}"@
    } else {
        let order = property_order(props, ov.required@, priority);
        "{\n"@ + joined(property_lines(ov, types, order, indent, on), "\n"@) + "\n"@ + blanks(
            indent,
        ) + "}"@
    }
}

/// The text of the type that `s` is, `indent` blanks in.
pub open spec fn type_text(s: Schema, indent: nat, on: bool) -> Seq<char>
    decreases s, 0int,
{
    match s {
        Schema::Bool(true) => "any"@,
        Schema::Bool(false) => "never"@,
        Schema::Object(o) => object_type_text(o, indent, on),
    }
}

/// The text of the type that a schema object is: the name it refers to; what a
/// single-element `allOf` wraps; the real arms of a union; the values of an
/// `enum`; or else the type it asks for.
pub open spec fn object_type_text(o: SchemaObject, indent: nat, on: bool) -> Seq<char>
    decreases o, 2int,
{
    if o.reference is Some {
        in_cyan(on, "<"@ + ref_target(o.reference->0@) + ">"@)
    } else if o.subschemas is Some && o.subschemas->0.all_of is Some
        && o.subschemas->0.all_of->0@.len() == 1 {
        type_text(o.subschemas->0.all_of->0@[0], indent, on)
    } else if o.subschemas is Some && o.subschemas->0.one_of is Some {
        arms_text(arm_texts(o.subschemas->0.one_of->0@, indent, on), indent, on)
    } else if o.subschemas is Some && o.subschemas->0.any_of is Some {
        arms_text(arm_texts(o.subschemas->0.any_of->0@, indent, on), indent, on)
    } else if o.enum_values is Some && o.enum_values->0@.len() > 0 {
        joined(enum_texts(o.enum_values->0@, on), bar(on))
    } else {
        match one_type(o.instance_type) {
            Some(InstanceType::String) => format_name(format_of(o)),
            Some(InstanceType::Integer) => match format_of(o) {
                Some(f) => f,
                None => "Integer"@,
            },
            Some(InstanceType::Number) => "Number"@,
            Some(InstanceType::Boolean) => "bool"@,
            Some(InstanceType::Null) => "null"@,
            Some(InstanceType::Array) => "["@ + item_text(o, indent, on) + ", ...]"@,
            _ => members_text(o, Seq::empty(), indent, on),
        }
    }
}

/// A union with the real arms `arms`: a single arm stands for itself.
pub open spec fn arms_text(arms: Seq<Seq<char>>, indent: nat, on: bool) -> Seq<char> {
    if arms.len() == 1 {
        arms[0]
    } else {
        alternatives(arms, indent, on)
    }
}

/// The texts of those of `arms` that are not the `null` schema.
pub open spec fn arm_texts(arms: Seq<Schema>, indent: nat, on: bool) -> Seq<Seq<char>>
    decreases arms, 0int,
{
    if arms.len() == 0 {
        Seq::empty()
    } else {
        let init = arm_texts(arms.drop_last(), indent, on);
        if null_schema(arms.last()) {
            init
        } else {
            init.push(type_text(arms.last(), indent, on))
        }
    }
}

/// The text of the items of the array `o`.
pub open spec fn item_text(o: SchemaObject, indent: nat, on: bool) -> Seq<char>
    decreases o, 0int,
{
    match o.array {
        None => "any"@,
        Some(av) => match av.items {
            Some(SingleOrVec::Single(s)) => type_text(*s, indent, on),
            Some(SingleOrVec::Vec(v)) => if v@.len() > 0 {
                type_text(v@[0], indent, on)
            } else {
                "any"@
            },
            None => "any"@,
        },
    }
}

/// The block that shows the members of `o`, those that `priority` names first.
pub open spec fn members_text(
    o: SchemaObject,
    priority: Seq<Seq<char>>,
    indent: nat,
    on: bool,
) -> Seq<char>
    decreases o, 1int,
{
    match o.object {
        None => "{}"@,
        Some(ov) => object_block(
            *ov,
            property_texts(ov.properties.entries@, indent + 2, on),
            priority,
            indent,
            on,
        ),
    }
}

/// The texts of the types of `props`, in order.
pub open spec fn property_texts(props: Seq<(String, Schema)>, indent: nat, on: bool) -> Seq<
    Seq<char>,
>
    decreases props, 0int,
{
    Seq::new(
        props.len(),
        |i: int|
            if 0 <= i < props.len() {
                type_text(props[i].1, indent, on)
            } else {
                Seq::empty()
            },
    )
}

/// The names that the text of `s` refers to.
pub open spec fn type_refs(s: Schema) -> Set<Seq<char>>
    decreases s, 0int,
{
    match s {
        Schema::Bool(_) => Set::empty(),
        Schema::Object(o) => object_type_refs(o),
    }
}

/// The names that the text of a schema object refers to.
pub open spec fn object_type_refs(o: SchemaObject) -> Set<Seq<char>>
    decreases o, 2int,
{
    if o.reference is Some {
        Set::empty().insert(ref_target(o.reference->0@))
    } else if o.subschemas is Some && o.subschemas->0.all_of is Some
        && o.subschemas->0.all_of->0@.len() == 1 {
        type_refs(o.subschemas->0.all_of->0@[0])
    } else if o.subschemas is Some && o.subschemas->0.one_of is Some {
        arm_refs(o.subschemas->0.one_of->0@)
    } else if o.subschemas is Some && o.subschemas->0.any_of is Some {
        arm_refs(o.subschemas->0.any_of->0@)
    } else if o.enum_values is Some && o.enum_values->0@.len() > 0 {
        Set::empty()
    } else {
        match one_type(o.instance_type) {
            Some(InstanceType::Array) => item_refs(o),
            Some(InstanceType::Object) => members_refs(o, Seq::empty()),
            None => members_refs(o, Seq::empty()),
            _ => Set::empty(),
        }
    }
}

/// The names that those of `arms` refer to that are not the `null` schema.
pub open spec fn arm_refs(arms: Seq<Schema>) -> Set<Seq<char>>
    decreases arms, 0int,
{
    if arms.len() == 0 {
        Set::empty()
    } else {
        let init = arm_refs(arms.drop_last());
        if null_schema(arms.last()) {
            init
        } else {
            init.union(type_refs(arms.last()))
        }
    }
}

/// The names that the text of the items of the array `o` refers to.
pub open spec fn item_refs(o: SchemaObject) -> Set<Seq<char>>
    decreases o, 0int,
{
    match o.array {
        None => Set::empty(),
        Some(av) => match av.items {
            Some(SingleOrVec::Single(s)) => type_refs(*s),
            Some(SingleOrVec::Vec(v)) => if v@.len() > 0 {
                type_refs(v@[0])
            } else {
                Set::empty()
            },
            None => Set::empty(),
        },
    }
}

/// The names that the block for the members of `o` refers to.
pub open spec fn members_refs(o: SchemaObject, priority: Seq<Seq<char>>) -> Set<Seq<char>>
    decreases o, 1int,
{
    match o.object {
        None => Set::empty(),
        Some(ov) => union_at(
            property_refs(ov.properties.entries@),
            property_order(ov.properties.entries@, ov.required@, priority),
        ),
    }
}

/// The names that the types of `props` refer to, property by property.
pub open spec fn property_refs(props: Seq<(String, Schema)>) -> Seq<Set<Seq<char>>>
    decreases props, 0int,
{
    Seq::new(
        props.len(),
        |i: int|
            if 0 <= i < props.len() {
                type_refs(props[i].1)
            } else {
                Set::empty()
            },
    )
}

/// The names in those of `sets` that stand at the positions `order`.
pub open spec fn union_at(sets: Seq<Set<Seq<char>>>, order: Seq<int>) -> Set<Seq<char>>
    decreases order.len(),
{
    if order.len() == 0 {
        Set::empty()
    } else {
        union_at(sets, order.drop_last()).union(sets[order.last()])
    }
}

/// The alternatives `variants`, on one line where that fits into 80 columns less
/// the indentation, else on a line each.
pub fn join_variants(variants: &Vec<String>, indent: &str, style: &Style) -> (r: String)
    requires
        indent@ == blanks(indent@.len()),
    ensures
        r@ == alternatives(texts(variants@), indent@.len(), style.enabled),
{
    let bar = style.bold_yellow("|");
    let inline = join(variants, &cat3(" ", &bar, " "));
    let used = len_in_chars(indent);
    let budget: usize = if used <= 80 {
        80 - used
    } else {
        0
    };
    if !has_char(&inline, '\n') && plain_len(&inline) <= budget {
        return inline;
    }
    let mut sep = cat3("\n", indent, &bar);
    sep.append(" ");
    join(variants, &sep)
}

/// `key:` for required, dimmed `[key]:` for optional, returned as (plain, styled)
/// so callers can measure alignment on the plain form.
pub fn render_key(k: &str, is_required: bool, style: &Style) -> (r: (String, String))
    ensures
        r.0@ == plain_key(k@, is_required),
        r.1@ == shown_key(k@, is_required, style.enabled),
{
    let plain = if is_required {
        cat(k, ":")
    } else {
        cat3("[", k, "]:")
    };
    let styled = if is_required {
        plain.clone()
    } else {
        style.dim(&plain)
    };
    (plain, styled)
}

/// How the default value of a schema is shown.
pub fn default_annotation(o: &SchemaObject) -> (r: Option<String>)
    ensures
        match r {
            Some(t) => default_of(*o) matches Some(d) && t@ == shown(d),
            None => default_of(*o) is None,
        },
{
    match &o.metadata {
        Some(m) => match &m.default {
            Some(d) => Some(display_value(d)),
            None => None,
        },
        None => None,
    }
}

/// The dimmed `(default: ...)` annotation for a property, or empty. `sep` is the
/// whitespace between the rendered type and the annotation.
pub fn default_suffix(v: &Schema, sep: &str, style: &Style) -> (r: String)
    ensures
        r@ == default_remark(*v, sep@, style.enabled),
{
    match v {
        Schema::Object(o) => match default_annotation(o) {
            Some(d) => {
                let mut t = cat3(sep, "(default: ", &d);
                t.append(")");
                style.dim(&t)
            },
            None => String::new(),
        },
        Schema::Bool(_) => String::new(),
    }
}

/// The width, in bytes, of the widest key of an object.
fn key_width(ov: &ObjectValidation) -> (r: usize)
    ensures
        r == widest_key(ov.properties.entries@, ov.required@),
{
    let props = &ov.properties.entries;
    let plain = Style::new(false);
    let mut widest: usize = 0;
    let mut i: usize = 0;
    while i < props.len()
        invariant
            props == ov.properties.entries,
            i <= props.len(),
            widest == widest_key(props@.take(i as int), ov.required@),
        decreases props.len() - i,
    {
        assert(props@.take(i + 1).drop_last() =~= props@.take(i as int));
        let key = render_key(&props[i].0, ov.required.contains(&props[i].0), &plain).0;
        let width = len_in_bytes(&key);
        if width > widest {
            widest = width;
        }
        i += 1;
    }
    assert(props@.take(props.len() as int) =~= props@);
    widest
}

/// No key is wider than the widest.
proof fn lemma_widest(props: Seq<(String, Schema)>, required: Set<Seq<char>>, i: int)
    requires
        0 <= i < props.len(),
    ensures
        byte_len(plain_key(props[i].0@, required.contains(props[i].0@))) <= widest_key(
            props,
            required,
        ),
    decreases props.len(),
{
    if i < props.len() - 1 {
        lemma_widest(props.drop_last(), required, i);
    }
}

/// The text of the type that `s` is, and the names it refers to, added to `refs`.
pub fn render_schema(s: &Schema, refs: &mut NameSet, indent: &str, style: &Style) -> (r: String)
    requires
        old(refs).wf(),
        indent@ == blanks(indent@.len()),
    ensures
        final(refs).wf(),
        final(refs)@ == old(refs)@.union(type_refs(*s)),
        r@ == type_text(*s, indent@.len(), style.enabled),
    decreases *s, 0int,
{
    match s {
        Schema::Bool(b) => {
            assert(refs@ =~= refs@.union(type_refs(*s)));
            if *b {
                copy_text("any")
            } else {
                copy_text("never")
            }
        },
        Schema::Object(o) => render_schema_object(o, refs, indent, style),
    }
}

/// The text of the type that a schema object is, and the names it refers to,
/// added to `refs`.
pub fn render_schema_object(
    o: &SchemaObject,
    refs: &mut NameSet,
    indent: &str,
    style: &Style,
) -> (r: String)
    requires
        old(refs).wf(),
        indent@ == blanks(indent@.len()),
    ensures
        final(refs).wf(),
        final(refs)@ == old(refs)@.union(object_type_refs(*o)),
        r@ == object_type_text(*o, indent@.len(), style.enabled),
    decreases *o, 2int,
{
    if let Some(r) = &o.reference {
        let name = ref_name(r);
        let text = cat3("<", &name, ">");
        refs.insert(name);
        assert(refs@ =~= old(refs)@.union(object_type_refs(*o)));
        return style.cyan(&text);
    }
    if let Some(sub) = &o.subschemas {
        // allOf wrapping a single schema is just a description carrier; unwrap.
        if let Some(all) = &sub.all_of {
            if all.len() == 1 {
                assert(decreases_to!(*o => all@));
                assert(decreases_to!(all@ => all@[0]));
                return render_schema(&all[0], refs, indent, style);
            }
        }
        // oneOf/anyOf: drop null alternatives (optionality is shown by brackets).
        if let Some(arms) = &sub.one_of {
            assert(decreases_to!(*o => arms@));
            return render_arms(arms, refs, indent, style);
        }
        if let Some(arms) = &sub.any_of {
            assert(decreases_to!(*o => arms@));
            return render_arms(arms, refs, indent, style);
        }
    }
    if let Some(values) = &o.enum_values {
        if values.len() > 0 {
            assert(refs@ =~= refs@.union(object_type_refs(*o)));
            return render_enum(values, style);
        }
    }
    match instance_type(&o.instance_type) {
        Some(InstanceType::Array) => render_array(o, refs, indent, style),
        Some(InstanceType::Object) | None => {
            let none: Vec<String> = Vec::new();
            assert(texts(none@) =~= Seq::<Seq<char>>::empty());
            render_object(o, &none, refs, indent, style)
        },
        Some(t) => {
            assert(refs@ =~= refs@.union(object_type_refs(*o)));
            match t {
                InstanceType::String => render_string(o),
                InstanceType::Integer => render_integer(o),
                InstanceType::Number => copy_text("Number"),
                InstanceType::Boolean => copy_text("bool"),
                _ => copy_text("null"),
            }
        },
    }
}

/// The values of an `enum`, as alternatives.
fn render_enum(values: &Vec<Json>, style: &Style) -> (r: String)
    ensures
        r@ == joined(enum_texts(values@, style.enabled), bar(style.enabled)),
{
    let mut rendered: Vec<String> = Vec::new();
    let mut i: usize = 0;
    while i < values.len()
        invariant
            i <= values.len(),
            texts(rendered@) == enum_texts(values@, style.enabled).take(i as int),
        decreases values.len() - i,
    {
        let ghost before = rendered@;
        let plain = display_value(&values[i]);
        let text = match &values[i] {
            Json::String(_) => style.green(&plain),
            _ => plain,
        };
        assert(text@ == enum_texts(values@, style.enabled)[i as int]);
        rendered.push(text);
        proof {
            lemma_texts_push(before, text);
            let all = enum_texts(values@, style.enabled);
            assert(all.take(i + 1) =~= all.take(i as int).push(all[i as int]));
        }
        i += 1;
    }
    assert(texts(rendered@) =~= enum_texts(values@, style.enabled));
    let sep = cat3(" ", &style.bold_yellow("|"), " ");
    join(&rendered, &sep)
}

/// The real arms of a union, as alternatives.
fn render_arms(arms: &Vec<Schema>, refs: &mut NameSet, indent: &str, style: &Style) -> (r: String)
    requires
        old(refs).wf(),
        indent@ == blanks(indent@.len()),
    ensures
        final(refs).wf(),
        final(refs)@ == old(refs)@.union(arm_refs(arms@)),
        r@ == arms_text(
            arm_texts(arms@, indent@.len(), style.enabled),
            indent@.len(),
            style.enabled,
        ),
    decreases arms@, 0int,
{
    let mut rendered: Vec<String> = Vec::new();
    let mut i: usize = 0;
    assert(refs@ =~= old(refs)@.union(arm_refs(arms@.take(0))));
    assert(texts(rendered@) =~= arm_texts(arms@.take(0), indent@.len(), style.enabled));
    while i < arms.len()
        invariant
            i <= arms.len(),
            refs.wf(),
            indent@ == blanks(indent@.len()),
            refs@ == old(refs)@.union(arm_refs(arms@.take(i as int))),
            texts(rendered@) == arm_texts(arms@.take(i as int), indent@.len(), style.enabled),
        decreases arms.len() - i,
    {
        assert(arms@.take(i + 1).drop_last() =~= arms@.take(i as int));
        if !is_null_schema(&arms[i]) {
            let ghost before = rendered@;
            assert(decreases_to!(arms@ => arms@[i as int]));
            let text = render_schema(&arms[i], refs, indent, style);
            rendered.push(text);
            assert(texts(rendered@) =~= texts(before).push(text@));
            assert(refs@ =~= old(refs)@.union(arm_refs(arms@.take(i + 1))));
        }
        i += 1;
    }
    assert(arms@.take(arms.len() as int) =~= arms@);
    assert(texts(rendered@).len() == rendered.len());
    if rendered.len() == 1 {
        assert(texts(rendered@)[0] == rendered@[0]@);
        return rendered[0].clone();
    }
    join_variants(&rendered, indent, style)
}

/// The text of an array: that of its items in brackets.
pub fn render_array(o: &SchemaObject, refs: &mut NameSet, indent: &str, style: &Style) -> (r:
    String)
    requires
        old(refs).wf(),
        indent@ == blanks(indent@.len()),
    ensures
        final(refs).wf(),
        final(refs)@ == old(refs)@.union(item_refs(*o)),
        r@ == "["@ + item_text(*o, indent@.len(), style.enabled) + ", ...]"@,
    decreases *o, 0int,
{
    let item = match item_schema(o) {
        Some(s) => render_schema(s, refs, indent, style),
        None => {
            assert(refs@ =~= refs@.union(item_refs(*o)));
            copy_text("any")
        },
    };
    cat3("[", &item, ", ...]")
}

/// The block that shows the members of an object, those that `priority` names
/// first, then the required ones, then the optional ones, with their types in one
/// column.
pub fn render_object(
    o: &SchemaObject,
    priority: &Vec<String>,
    refs: &mut NameSet,
    indent: &str,
    style: &Style,
) -> (r: String)
    requires
        old(refs).wf(),
        indent@ == blanks(indent@.len()),
    ensures
        final(refs).wf(),
        final(refs)@ == old(refs)@.union(members_refs(*o, texts(priority@))),
        r@ == members_text(*o, texts(priority@), indent@.len(), style.enabled),
    decreases *o, 1int,
{
    let ov = match &o.object {
        Some(ov) => ov,
        None => {
            assert(refs@ =~= refs@.union(members_refs(*o, texts(priority@))));
            return copy_text("{}");
        },
    };
    let ghost props = ov.properties.entries@;
    let ghost first = texts(priority@);
    let ghost order = property_order(props, ov.required@, first);
    let ghost on = style.enabled;
    let ghost sets = property_refs(props);
    let ghost types = property_texts(props, indent@.len() + 2, on);
    proof {
        lemma_order_bounds(props, ov.required@, first);
    }
    if ov.properties.entries.len() == 0 {
        proof {
            assert(order.len() == 0) by {
                if order.len() > 0 {
                    assert(0 <= property_order(props, ov.required@, first)[0] < props.len());
                }
            }
        }
        assert(refs@ =~= refs@.union(members_refs(*o, first)));
        return copy_text("{}");
    }
    let inner = cat(indent, "  ");
    proof {
        reveal_strlit("  ");
        assert(inner@ =~= blanks(indent@.len() + 2));
    }
    let widest = key_width(ov);
    let listed = order_properties(ov, priority);
    let mut lines: Vec<String> = Vec::new();
    let mut j: usize = 0;
    assert(refs@ =~= old(refs)@.union(union_at(sets, order.take(0))));
    while j < listed.len()
        invariant
            j <= listed.len(),
            o.object == Some(*ov),
            props == ov.properties.entries@,
            first == texts(priority@),
            order == property_order(props, ov.required@, first),
            forall|k: int| 0 <= k < order.len() ==> 0 <= #[trigger] order[k] < props.len(),
            lists(listed@, **ov, order),
            on == style.enabled,
            sets == property_refs(props),
            types == property_texts(props, indent@.len() + 2, on),
            widest == widest_key(props, ov.required@),
            inner@ == blanks(indent@.len() + 2),
            inner@.len() == indent@.len() + 2,
            refs.wf(),
            refs@ == old(refs)@.union(union_at(sets, order.take(j as int))),
            texts(lines@) == property_lines(**ov, types, order, indent@.len(), on).take(j as int),
        decreases listed.len() - j,
    {
        let (k, v, is_required) = listed[j];
        let ghost at = order[j as int];
        assert(decreases_to!(*o => o.object->0.properties.entries@));
        assert(decreases_to!(props => props[at].1));
        let rendered = render_schema(v, refs, &inner, style);
        assert(type_text(props[at].1, indent@.len() + 2, on) == types[at]);
        assert(type_refs(props[at].1) == sets[at]);
        let (key_plain, key_styled) = render_key(k, is_required, style);
        proof {
            lemma_widest(props, ov.required@, at);
        }
        let pad = blank(widest - len_in_bytes(&key_plain));
        let mut line = cat3(&inner, &key_styled, &pad);
        line.append("  ");
        line.append(&rendered);
        line.append(&default_suffix(v, "   ", style));
        assert(line@ == property_lines(**ov, types, order, indent@.len(), on)[j as int]);
        let ghost before = lines@;
        lines.push(line);
        assert(order.take(j + 1).drop_last() =~= order.take(j as int));
        assert(order.take(j + 1).last() == at);
        assert(refs@ =~= old(refs)@.union(union_at(sets, order.take(j + 1))));
        proof {
            lemma_texts_push(before, line);
            let all = property_lines(**ov, types, order, indent@.len(), on);
            assert(all.take(j + 1) =~= all.take(j as int).push(all[j as int]));
        }
        j += 1;
    }
    assert(order.take(listed.len() as int) =~= order);
    assert(texts(lines@) =~= property_lines(**ov, types, order, indent@.len(), on));
    let mut out = cat3("{\n", &join(&lines, "\n"), "\n");
    out.append(indent);
    out.append("}");
    out
}

} // verus!
