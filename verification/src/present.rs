//! How each schema is presented in the tree: what it is once references are seen
//! through, its description, its label, and whether it can be drilled into.

use crate::generate::{generated, generates, try_generate_value_object};
use crate::json::{display_value, shown, Json, JsonView};
use crate::naming::{ref_name, ref_target};
use crate::node::{value_of, NodeKind};
use crate::properties::single_string;
use crate::render::default_of;
use crate::schema::{
    instance_type, is_multi_variant, item_of, item_schema, lemma_item_smaller,
    lemma_wrapped_smaller, multi_variant, one_type, scalar_name, scalar_type_name, title, title_of,
    transparent_inner, wrapped, Defs, InstanceType, Schema, SchemaObject,
};
use crate::text::{cat3, copy_text, join, joined, lemma_texts_push, same, texts};
use vstd::prelude::*;

verus! {

/// What `o` is once references and wrappers are seen through, `steps` of them at
/// most. A reference to what is not defined, or not an object, is left as it is.
pub open spec fn resolved(o: SchemaObject, defs: Defs, steps: nat) -> SchemaObject
    decreases steps,
{
    if steps == 0 {
        o
    } else if o.reference is Some {
        match defs.at(ref_target(o.reference->0@)) {
            Some(Schema::Object(inner)) => resolved(inner, defs, (steps - 1) as nat),
            _ => o,
        }
    } else {
        match wrapped(o) {
            Some(Schema::Object(inner)) => resolved(inner, defs, (steps - 1) as nat),
            _ => o,
        }
    }
}

/// The number of references and wrappers that are seen through.
pub const MAX_RESOLVE_STEPS: usize = 32;

/// What `o` is once references and wrappers are seen through.
pub fn resolve_object<'a>(o: &'a SchemaObject, defs: &'a Defs) -> (r: &'a SchemaObject)
    ensures
        *r == resolved(*o, *defs, 32),
{
    let mut cur = o;
    let mut left: usize = MAX_RESOLVE_STEPS;
    while left > 0
        invariant_except_break
            left <= 32,
            resolved(*o, *defs, 32) == resolved(*cur, *defs, left as nat),
        ensures
            *cur == resolved(*o, *defs, 32),
        decreases left,
    {
        if let Some(r) = &cur.reference {
            let name = ref_name(r);
            match defs.get(&name) {
                Some(Schema::Object(inner)) => {
                    cur = inner;
                },
                _ => {
                    break ;
                },
            }
        } else {
            // See through single-element `allOf` and `Option<T>` wrappers to the
            // real type (e.g. so a field classifies as its inner type, not a union).
            match transparent_inner(cur) {
                Some(Schema::Object(inner)) => {
                    cur = inner;
                },
                _ => {
                    break ;
                },
            }
        }
        left -= 1;
    }
    cur
}

/// What `schema` is once references and wrappers are seen through; `None` where it is
/// not an object.
pub fn resolve_to_object<'a>(schema: &'a Schema, defs: &'a Defs) -> (r: Option<&'a SchemaObject>)
    ensures
        match r {
            Some(o) => *schema matches Schema::Object(x) && *o == resolved(x, *defs, 32),
            None => schema is Bool,
        },
{
    match schema {
        Schema::Object(o) => Some(resolve_object(o, defs)),
        Schema::Bool(_) => None,
    }
}

/// How the values of `values` are shown, in order.
pub open spec fn shown_values(values: Seq<Json>) -> Seq<Seq<char>> {
    Seq::new(values.len(), |i: int| shown(values[i]@))
}

/// At most the first four of `values`.
pub open spec fn first_four(values: Seq<Json>) -> Seq<Json> {
    if values.len() <= 4 {
        values
    } else {
        values.take(4)
    }
}

/// The description of the type that `o` is.
pub open spec fn described(o: SchemaObject) -> Seq<char>
    decreases o,
{
    if o.reference is Some {
        "<"@ + ref_target(o.reference->0@) + ">"@
    } else if wrapped(o) is Some && wrapped(o)->0 is Object {
        proof {
            lemma_wrapped_smaller(o);
            assert(decreases_to!(wrapped(o)->0 => wrapped(o)->0->Object_0));
        }
        described(wrapped(o)->0->Object_0)
    } else if multi_variant(o) {
        "(variants)"@
    } else if o.enum_values is Some && o.enum_values->0@.len() > 0 {
        joined(shown_values(first_four(o.enum_values->0@)), " | "@)
    } else if o.array is Some {
        proof {
            lemma_item_smaller(o);
            assert(item_of(o) is Some && item_of(o)->0 is Object ==> decreases_to!(
                item_of(o)->0 => item_of(o)->0->Object_0));
        }
        let item = if item_of(o) is Some && item_of(o)->0 is Object {
            described(item_of(o)->0->Object_0)
        } else {
            "any"@
        };
        "["@ + item + ", ...]"@
    } else {
        match scalar_name(o) {
            Some(t) => t,
            None => match one_type(o.instance_type) {
                Some(InstanceType::Array) => "[...]"@,
                Some(InstanceType::Object) => "object"@,
                _ => "any"@,
            },
        }
    }
}

/// The first values of an `enum`, as they are shown.
fn describe_values(values: &Vec<Json>) -> (r: String)
    ensures
        r@ == joined(shown_values(first_four(values@)), " | "@),
{
    let ghost all = shown_values(first_four(values@));
    let mut items: Vec<String> = Vec::new();
    let mut i: usize = 0;
    assert(texts(items@) =~= all.take(0));
    while i < values.len() && i < 4
        invariant
            i <= values.len(),
            i <= 4,
            all == shown_values(first_four(values@)),
            texts(items@) == all.take(i as int),
        decreases 4 - i,
    {
        let ghost before = items@;
        let text = display_value(&values[i]);
        items.push(text);
        proof {
            lemma_texts_push(before, text);
            assert(text@ == all[i as int]);
            assert(all.take(i + 1) =~= all.take(i as int).push(all[i as int]));
        }
        i += 1;
    }
    assert(all.take(i as int) =~= all);
    join(&items, " | ")
}

/// The description of the type that `o` is: the name it refers to; what it wraps; the
/// values of an `enum`; the items of an array; or else the name of its type.
pub fn describe_type(o: &SchemaObject) -> (r: String)
    ensures
        r@ == described(*o),
    decreases *o,
{
    if let Some(r) = &o.reference {
        return cat3("<", &ref_name(r), ">");
    }
    // A transparent wrapper (single-arm `allOf` / `Option<T>`) describes as its
    // inner type rather than "(variants)".
    if let Some(Schema::Object(inner)) = transparent_inner(o) {
        return describe_type(inner);
    }
    // A real multi-arm union has no single inner type to name.
    if is_multi_variant(o) {
        return copy_text("(variants)");
    }
    if let Some(values) = &o.enum_values {
        if values.len() > 0 {
            return describe_values(values);
        }
    }
    if o.array.is_some() {
        let item = match item_schema(o) {
            Some(Schema::Object(io)) => describe_type(io),
            _ => copy_text("any"),
        };
        return cat3("[", &item, ", ...]");
    }
    match scalar_type_name(o) {
        Some(t) => t,
        None => match instance_type(&o.instance_type) {
            Some(InstanceType::Array) => copy_text("[...]"),
            Some(InstanceType::Object) => copy_text("object"),
            _ => copy_text("any"),
        },
    }
}

/// The string that `s` allows only.
pub open spec fn fixed_text(s: Schema) -> Seq<char> {
    s->Object_0.enum_values->0@[0]@->String_0
}

/// The string that `s` allows only, where it allows nothing else.
fn fixed_string(s: &Schema) -> (r: Option<&String>)
    ensures
        match r {
            Some(t) => single_string(*s) && fixed_text(*s) == t@,
            None => !single_string(*s),
        },
{
    match s {
        Schema::Object(o) => match &o.enum_values {
            Some(values) => if values.len() == 1 {
                match &values[0] {
                    Json::String(t) => Some(t),
                    _ => None,
                }
            } else {
                None
            },
            None => None,
        },
        _ => None,
    }
}

/// The position of the first of `props` that allows a single string only.
pub open spec fn first_fixed(props: Seq<(String, Schema)>) -> Option<int>
    decreases props.len(),
{
    if props.len() == 0 {
        None
    } else {
        match first_fixed(props.drop_last()) {
            Some(i) => Some(i),
            None => if single_string(props.last().1) {
                Some(props.len() - 1)
            } else {
                None
            },
        }
    }
}

/// The fixed property that labels an arm, where it is an object.
pub open spec fn label_property(s: Schema) -> Option<(String, Schema)> {
    match s {
        Schema::Object(o) => match o.object {
            Some(ov) => match first_fixed(ov.properties.entries@) {
                Some(i) => Some(ov.properties.entries@[i]),
                None => None,
            },
            None => None,
        },
        Schema::Bool(_) => None,
    }
}

/// The label of the arm `s`: its discriminator; its only value; its title; or else
/// the description of its type.
pub open spec fn arm_label(s: Schema, defs: Defs) -> Seq<char> {
    match s {
        Schema::Bool(_) => "variant"@,
        Schema::Object(o) => match label_property(s) {
            Some(prop) => "\""@ + fixed_text(prop.1) + "\"  ("@ + prop.0@ + ")"@,
            None => if single_string(s) {
                "\""@ + fixed_text(s) + "\""@
            } else {
                match title_of(o) {
                    Some(t) => t,
                    None => {
                        let d = described(resolved(o, defs, 32));
                        if d != "any"@ {
                            d
                        } else {
                            "variant"@
                        }
                    },
                }
            },
        },
    }
}

/// The fixed property that labels an arm.
fn discriminator(s: &Schema) -> (r: Option<(&String, &String)>)
    ensures
        match r {
            Some((name, text)) => label_property(*s) matches Some(prop) && prop.0@ == name@
                && fixed_text(prop.1) == text@,
            None => label_property(*s) is None,
        },
{
    match s {
        Schema::Object(o) => match &o.object {
            Some(ov) => {
                let props = &ov.properties.entries;
                let mut i: usize = 0;
                while i < props.len()
                    invariant
                        s matches Schema::Object(x) && x.object matches Some(y)
                            && y.properties.entries == props,
                        i <= props.len(),
                        first_fixed(props@.take(i as int)) is None,
                    decreases props.len() - i,
                {
                    assert(props@.take(i + 1).drop_last() =~= props@.take(i as int));
                    if let Some(text) = fixed_string(&props[i].1) {
                        proof {
                            lemma_first_fixed(props@, i + 1);
                        }
                        return Some((&props[i].0, text));
                    }
                    i += 1;
                }
                assert(props@.take(props.len() as int) =~= props@);
                None
            },
            None => None,
        },
        _ => None,
    }
}

/// A fixed property among the first `n` is the first among all.
proof fn lemma_first_fixed(props: Seq<(String, Schema)>, n: int)
    requires
        0 <= n <= props.len(),
        first_fixed(props.take(n)) is Some,
    ensures
        first_fixed(props) == first_fixed(props.take(n)),
    decreases props.len(),
{
    if n < props.len() {
        assert(props.drop_last().take(n) =~= props.take(n));
        lemma_first_fixed(props.drop_last(), n);
    } else {
        assert(props.take(n) =~= props);
    }
}

/// The label of the arm `schema`.
pub fn variant_label(schema: &Schema, defs: &Defs) -> (r: String)
    ensures
        r@ == arm_label(*schema, *defs),
{
    match schema {
        Schema::Bool(_) => copy_text("variant"),
        Schema::Object(o) => {
            // Tagged-object variant: {type: "object", properties: {type: {enum: ["local"]}}}.
            if let Some((name, text)) = discriminator(schema) {
                let mut r = cat3("\"", text, "\"  (");
                r.append(name);
                r.append(")");
                return r;
            }
            // Scalar enum variant: {type: "string", enum: ["never"]}.
            if let Some(text) = fixed_string(schema) {
                return cat3("\"", text, "\"");
            }
            // Named arm: prefer its title over a generic label.
            if let Some(t) = title(o) {
                return t.clone();
            }
            // Last resort: describe the arm's resolved type (e.g. `Uuid`) rather
            // than an opaque "variant".
            let d = describe_type(resolve_object(o, defs));
            if !same(&d, "any") {
                d
            } else {
                copy_text("variant")
            }
        },
    }
}

/// The one value that the arm `s` allows.
pub open spec fn only_value(s: Schema) -> Option<JsonView> {
    if s matches Schema::Object(o) && o.enum_values matches Some(values) && values@.len() == 1 {
        Some(s->Object_0.enum_values->0@[0]@)
    } else {
        None
    }
}

/// If `schema` has a single-value `enum`, that value.
pub fn scalar_variant_value(schema: &Schema) -> (r: Option<Json>)
    ensures
        value_of(r) == only_value(*schema),
{
    match schema {
        Schema::Object(o) => match &o.enum_values {
            Some(values) => if values.len() == 1 {
                Some(values[0].clone())
            } else {
                None
            },
            None => None,
        },
        Schema::Bool(_) => None,
    }
}

/// The default value that `o` gives, unless it is `null`.
pub open spec fn real_default(o: SchemaObject) -> Option<JsonView> {
    match default_of(o) {
        Some(JsonView::Null) => None,
        d => d,
    }
}

/// The default value that `o` gives. `default: null` typically means "no concrete
/// default" on a nullable field and is no real value.
pub fn default_value(o: &SchemaObject) -> (r: Option<Json>)
    ensures
        value_of(r) == real_default(*o),
{
    match &o.metadata {
        Some(m) => match &m.default {
            Some(d) => if d.is_null() {
                None
            } else {
                Some(d.clone())
            },
            None => None,
        },
        None => None,
    }
}

/// `o` is an object with properties or a union with several real arms.
pub open spec fn complex(o: SchemaObject) -> bool {
    o.object is Some || multi_variant(o)
}

/// How `o` is presented: a union with several real arms, an object, an array of such,
/// or else a leaf.
pub open spec fn shape(o: SchemaObject, defs: Defs) -> NodeKind {
    let r = resolved(o, defs, 32);
    if multi_variant(r) {
        NodeKind::OneOf
    } else if r.object is Some {
        NodeKind::Object
    } else if item_of(r) matches Some(Schema::Object(item)) && complex(resolved(item, defs, 32)) {
        NodeKind::Array
    } else {
        NodeKind::Leaf
    }
}

/// How `o` is presented, whether it can be drilled into, and the placeholder of a
/// leaf; `None` where that placeholder cannot be worked out.
pub open spec fn classified(o: SchemaObject, defs: Defs) -> Option<
    (NodeKind, bool, Option<JsonView>),
> {
    let kind = shape(o, defs);
    if kind != NodeKind::Leaf {
        Some((kind, true, None))
    } else if generates(Schema::Object(o), defs) {
        Some((kind, false, Some(generated(Schema::Object(o), defs))))
    } else {
        None
    }
}

/// Decide how a property schema is presented: expandable, or a `Leaf` with the
/// placeholder that `generate_value` gives, so arrays, enums, and scalars all resolve
/// identically. `None` where following the schema's references never comes to an end.
pub fn classify(o: &SchemaObject, defs: &Defs) -> (r: Option<(NodeKind, bool, Option<Json>)>)
    ensures
        match r {
            Some((kind, expandable, value)) => classified(*o, *defs) == Some(
                (kind, expandable, value_of(value)),
            ),
            None => classified(*o, *defs) is None,
        },
{
    let r = resolve_object(o, defs);
    // oneOf with >1 non-null variant: expandable variant picker.
    if is_multi_variant(r) {
        return Some((NodeKind::OneOf, true, None));
    }
    if r.object.is_some() {
        return Some((NodeKind::Object, true, None));
    }
    // array of complex elements (object / multi-variant oneOf): drillable; the user
    // customizes a representative element. Arrays of scalars stay leaves.
    if let Some(item) = item_schema(r) {
        if let Some(item_resolved) = resolve_to_object(item, defs) {
            if item_resolved.object.is_some() || is_multi_variant(item_resolved) {
                return Some((NodeKind::Array, true, None));
            }
        }
    }
    match try_generate_value_object(o, defs) {
        Some(v) => Some((NodeKind::Leaf, false, Some(v))),
        None => None,
    }
}

} // verus!
