//! How schemas are read, and what their types and variants are called.

use crate::generate_laws::lemma_first_real_arm;
use crate::json::{json_text, lemma_printable, shown, JsonView};
use crate::names::{lemma_lt_asymmetric, lemma_lt_irreflexive, name_lt, parts_at};
use crate::naming::{ascii_lower, format_name, snake, snake_with, uppercase_marks};
use crate::present::{arm_label, described, first_fixed, first_four, resolved, shown_values};
use crate::properties::{fixed_field, is_tag, lists, shared_field, single_string, tag_of};
use crate::schema::{
    first_non_null, item_of, multi_variant, non_null, null_schema, one_type, root_name, scalar_name,
    union_arms, wrapped, Defs, InstanceType, ObjectValidation, RootSchema, Schema, SchemaObject,
    SingleOrVec,
};
use crate::text::{byte_len, decimal, joined};
use vstd::prelude::*;

verus! {

/// A single type stands for itself.
pub proof fn lemma_single_type(t: Option<SingleOrVec<InstanceType>>)
    ensures
        t matches Some(SingleOrVec::Single(x)) ==> one_type(t) == Some(*x),
        t is None ==> one_type(t) is None,
{
}

/// Of a list of types the first that is not `null` counts, and none where there is no
/// such type.
pub proof fn lemma_first_type(v: Vec<InstanceType>, i: int)
    ensures
        0 <= i < v@.len() && v@[i] != InstanceType::Null && (forall|k: int|
            0 <= k < i ==> #[trigger] v@[k] == InstanceType::Null) ==> one_type(
            Some(SingleOrVec::Vec(v)),
        ) == Some(v@[i]),
        (forall|k: int| 0 <= k < v@.len() ==> #[trigger] v@[k] == InstanceType::Null)
            ==> one_type(Some(SingleOrVec::Vec(v))) is None,
{
    if 0 <= i < v@.len() && v@[i] != InstanceType::Null && (forall|k: int|
        0 <= k < i ==> #[trigger] v@[k] == InstanceType::Null) {
        lemma_first_at(v@, i);
    }
    if forall|k: int| 0 <= k < v@.len() ==> #[trigger] v@[k] == InstanceType::Null {
        lemma_none_but_null(v@);
    }
}

proof fn lemma_first_at(types: Seq<InstanceType>, i: int)
    requires
        0 <= i < types.len(),
        types[i] != InstanceType::Null,
        forall|k: int| 0 <= k < i ==> #[trigger] types[k] == InstanceType::Null,
    ensures
        first_non_null(types) == Some(types[i]),
    decreases types.len(),
{
    if i > 0 {
        assert(types[0] == InstanceType::Null);
        let rest = types.skip(1);
        assert forall|k: int| 0 <= k < i - 1 implies #[trigger] rest[k] == InstanceType::Null by {
            assert(types[k + 1] == InstanceType::Null);
        }
        lemma_first_at(rest, i - 1);
    }
}

proof fn lemma_none_but_null(types: Seq<InstanceType>)
    requires
        forall|k: int| 0 <= k < types.len() ==> #[trigger] types[k] == InstanceType::Null,
    ensures
        first_non_null(types) is None,
    decreases types.len(),
{
    if types.len() > 0 {
        let rest = types.skip(1);
        assert(types[0] == InstanceType::Null);
        assert forall|k: int| 0 <= k < rest.len() implies #[trigger] rest[k]
            == InstanceType::Null by {
            assert(types[k + 1] == InstanceType::Null);
        }
        lemma_none_but_null(rest);
    }
}

/// The `null` schema is the object that asks for the single type `null`.
pub proof fn lemma_null_schema(s: Schema)
    ensures
        null_schema(s) <==> (s matches Schema::Object(o) && o.instance_type == Some(
            SingleOrVec::Single(Box::new(InstanceType::Null)),
        )),
{
    if let Schema::Object(o) = s {
        if let Some(SingleOrVec::Vec(v)) = o.instance_type {
            lemma_never_null(v@);
        }
    }
}

proof fn lemma_never_null(types: Seq<InstanceType>)
    ensures
        first_non_null(types) != Some(InstanceType::Null),
    decreases types.len(),
{
    if types.len() > 0 {
        lemma_never_null(types.skip(1));
    }
}

/// The arms of a union are those of its `oneOf`, else those of its `anyOf`.
pub proof fn lemma_arms_of_union(o: SchemaObject)
    ensures
        union_arms(o) == if o.subschemas is None {
            None
        } else if o.subschemas->0.one_of is Some {
            Some(o.subschemas->0.one_of->0@)
        } else if o.subschemas->0.any_of is Some {
            Some(o.subschemas->0.any_of->0@)
        } else {
            None
        },
        multi_variant(o) <==> (union_arms(o) matches Some(arms) && exists|i: int, j: int|
            0 <= i < j < arms.len() && !null_schema(#[trigger] arms[i]) && !null_schema(
                #[trigger] arms[j],
            )),
{
    if let Some(arms) = union_arms(o) {
        if non_null(arms).len() > 1 {
            let (i, j) = lemma_two_real(arms);
            assert(!null_schema(arms[i]) && !null_schema(arms[j]));
        }
        if exists|i: int, j: int|
            0 <= i < j < arms.len() && !null_schema(#[trigger] arms[i]) && !null_schema(
                #[trigger] arms[j],
            ) {
            let (i, j) = choose|i: int, j: int|
                0 <= i < j < arms.len() && !null_schema(#[trigger] arms[i]) && !null_schema(
                    #[trigger] arms[j],
                );
            lemma_two_kept(arms, i, j);
        }
    }
}

proof fn lemma_two_real(arms: Seq<Schema>) -> (r: (int, int))
    requires
        non_null(arms).len() > 1,
    ensures
        0 <= r.0 < r.1 < arms.len(),
        !null_schema(arms[r.0]),
        !null_schema(arms[r.1]),
    decreases arms.len(),
{
    let init = arms.drop_last();
    if non_null(init).len() > 1 {
        lemma_two_real(init)
    } else {
        let i = lemma_first_real_arm(init);
        assert(init[i] == arms[i]);
        (i, arms.len() - 1)
    }
}

proof fn lemma_one_kept(arms: Seq<Schema>, i: int)
    requires
        0 <= i < arms.len(),
        !null_schema(arms[i]),
    ensures
        non_null(arms).len() > 0,
    decreases arms.len(),
{
    if i < arms.len() - 1 {
        assert(arms.drop_last()[i] == arms[i]);
        lemma_one_kept(arms.drop_last(), i);
    }
}

proof fn lemma_two_kept(arms: Seq<Schema>, i: int, j: int)
    requires
        0 <= i < j < arms.len(),
        !null_schema(arms[i]),
        !null_schema(arms[j]),
    ensures
        non_null(arms).len() > 1,
    decreases arms.len(),
{
    let init = arms.drop_last();
    assert(init[i] == arms[i]);
    if j < init.len() {
        assert(init[j] == arms[j]);
        lemma_two_kept(init, i, j);
    } else {
        lemma_one_kept(init, i);
    }
}

/// The items of an array are those of its one schema for them, or of the first of several.
pub proof fn lemma_items_of_array(o: SchemaObject)
    ensures
        item_of(o) == if o.array is None {
            None
        } else {
            match o.array->0.items {
                Some(SingleOrVec::Single(s)) => Some(*s),
                Some(SingleOrVec::Vec(v)) => if v@.len() == 0 {
                    None
                } else {
                    Some(v@[0])
                },
                None => None,
            }
        },
{
}

/// A schema is called by its title in `snake_case`, and `request` where it has none.
pub proof fn lemma_name_of_root(root: RootSchema)
    ensures
        root_name(root) == if root.schema.metadata is Some
            && root.schema.metadata->0.title is Some {
            snake(root.schema.metadata->0.title->0@)
        } else {
            "request"@
        },
{
}

/// In `snake_case`, an ASCII capital letter becomes a small one, behind an underscore
/// unless it comes first, and any other ASCII character stays as it is.
pub proof fn lemma_snake_by_character(s: Seq<char>, c: char)
    requires
        c <= '\u{7f}',
    ensures
        snake(Seq::empty()) == Seq::<char>::empty(),
        !('A' <= c <= 'Z') ==> snake(s.push(c)) == snake(s).push(c),
        'A' <= c <= 'Z' && s.len() > 0 ==> snake(s.push(c)) == snake(s).push('_').push(
            (c as u32 + 32) as char,
        ),
        'A' <= c <= 'Z' && s.len() == 0 ==> snake(s.push(c)) == seq![(c as u32 + 32) as char],
{
    let all = s.push(c);
    assert(all.drop_last() =~= s);
    lemma_marks_of_start(s, uppercase_marks(all), uppercase_marks(s));
    if s.len() == 0 {
        assert(snake(s) =~= Seq::<char>::empty());
        assert(snake(all) =~= Seq::<char>::empty().push(ascii_lower(c)));
    }
}

proof fn lemma_marks_of_start(s: Seq<char>, a: Seq<bool>, b: Seq<bool>)
    requires
        forall|i: int| 0 <= i < s.len() ==> a[i] == b[i],
    ensures
        snake_with(s, a) == snake_with(s, b),
    decreases s.len(),
{
    if s.len() > 0 {
        lemma_marks_of_start(s.drop_last(), a, b);
    }
}

/// The names of the string formats; a format without one is shown in parentheses.
pub proof fn lemma_format_names(f: Seq<char>)
    ensures
        format_name(None) == "String"@,
        f == "uuid"@ ==> format_name(Some(f)) == "Uuid"@,
        f == "date-time"@ ==> format_name(Some(f)) == "DateTime"@,
        f == "ip"@ ==> format_name(Some(f)) == "IpAddr"@,
        f == "ipv4"@ ==> format_name(Some(f)) == "Ipv4Addr"@,
        f == "ipv6"@ ==> format_name(Some(f)) == "Ipv6Addr"@,
        f == "byte"@ ==> format_name(Some(f)) == "Base64"@,
        f != "uuid"@ && f != "date-time"@ && f != "ip"@ && f != "ipv4"@ && f != "ipv6"@ && f
            != "byte"@ ==> format_name(Some(f)) == "String ("@ + f + ")"@,
{
    reveal_strlit("uuid");
    reveal_strlit("date-time");
    reveal_strlit("ip");
    reveal_strlit("ipv4");
    reveal_strlit("ipv6");
    reveal_strlit("byte");
    assert("ip"@.len() == 2 && "date-time"@.len() == 9);
    assert("uuid"@.len() == 4 && "ipv4"@.len() == 4 && "ipv6"@.len() == 4 && "byte"@.len() == 4);
    assert("ipv4"@[3] == '4' && "ipv6"@[3] == '6');
    assert("uuid"@[0] != "byte"@[0]);
    assert("uuid"@[0] != "ipv4"@[0]);
    assert("uuid"@[0] != "ipv6"@[0]);
    assert("byte"@[0] != "ipv4"@[0]);
    assert("byte"@[0] != "ipv6"@[0]);
}

/// A scalar is called by its type: a string by its format, an integer by its format, where
/// it has one.
pub proof fn lemma_scalar_names(o: SchemaObject, t: InstanceType)
    requires
        one_type(o.instance_type) == Some(t),
    ensures
        t == InstanceType::String && o.format is None ==> scalar_name(o) == Some("String"@),
        t == InstanceType::String && o.format is Some ==> scalar_name(o) == Some(
            format_name(Some(o.format->0@)),
        ),
        t == InstanceType::Integer && o.format is None ==> scalar_name(o) == Some("Integer"@),
        t == InstanceType::Integer && o.format is Some ==> scalar_name(o) == Some(o.format->0@),
        t == InstanceType::Number ==> scalar_name(o) == Some("Number"@),
        t == InstanceType::Boolean ==> scalar_name(o) == Some("bool"@),
        t == InstanceType::Null ==> scalar_name(o) == Some("null"@),
        t == InstanceType::Array || t == InstanceType::Object ==> scalar_name(o) is None,
{
}

/// Field number `p` of the variant `s` allows the single string `text` only.
pub open spec fn pins(s: Schema, p: int, text: Seq<char>) -> bool {
    &&& s matches Schema::Object(o) && (o.object matches Some(ov) && 0 <= p
        < ov.properties.entries@.len())
    &&& s->Object_0.object->0.properties.entries@[p].1 matches Schema::Object(f) && (
    f.enum_values matches Some(v) && v@.len() == 1 && v@[0]@ == JsonView::String(text))
}

/// Field number `p` of the variant `s` is called `name`.
pub open spec fn field_is(s: Schema, p: int, name: Seq<char>) -> bool {
    s->Object_0.object->0.properties.entries@[p].0@ == name
}

/// The tag of a union is the one field that each variant has, and pins to a string.
pub proof fn lemma_tag(variants: Seq<Schema>, name: Seq<char>, i: int)
    ensures
        tag_of(variants) == Some(name) && 0 <= i < variants.len() ==> exists|
            p: int,
            text: Seq<char>,
        | #[trigger] pins(variants[i], p, text) && field_is(variants[i], p, name),
        tag_of(variants) == Some(name) ==> variants.len() > 0,
{
    if tag_of(variants) == Some(name) {
        assert(is_tag(variants, name));
        if 0 <= i < variants.len() {
            assert(fixed_field(variants[i], name));
            let ov = variants[i]->Object_0.object->0;
            let p = choose|p: int|
                #![trigger ov.properties.entries@[p]]
                0 <= p < ov.properties.entries@.len() && ov.properties.entries@[p].0@ == name
                    && single_string(ov.properties.entries@[p].1);
            let text = ov.properties.entries@[p].1->Object_0.enum_values->0@[0]@->String_0;
            assert(pins(variants[i], p, text));
        }
    }
}

/// Where each variant pins the field `name` to a string, the union has a tag, and it is
/// that field, unless the variants share another such field: then there is none.
pub proof fn lemma_tag_is_found(
    variants: Seq<Schema>,
    name: Seq<char>,
    at: Seq<int>,
    texts: Seq<Seq<char>>,
)
    requires
        variants.len() > 0,
        at.len() == variants.len() && texts.len() == variants.len(),
        forall|i: int|
            0 <= i < variants.len() ==> pins(#[trigger] variants[i], at[i], texts[i]) && field_is(
                variants[i],
                at[i],
                name,
            ),
    ensures
        tag_of(variants) is None || tag_of(variants) == Some(name),
        tag_of(variants) is None ==> exists|other: Seq<char>| #[trigger]
            shared_field(variants, other) && other != name,
{
    assert forall|i: int| 0 <= i < variants.len() implies #[trigger] fixed_field(
        variants[i],
        name,
    ) by {
        let ov = variants[i]->Object_0.object->0;
        assert(pins(variants[i], at[i], texts[i]));
        assert(ov.properties.entries@[at[i]].0@ == name);
    }
    assert(shared_field(variants, name));
    if tag_of(variants) is None {
        assert(!is_tag(variants, name));
    }
}

/// A type is described by what it is: a name in angle brackets, `(variants)` for a union
/// with several real arms, the first four values of an `enum` at most, the items of an
/// array, the name of a scalar, `object`, or `any`.
pub proof fn lemma_descriptions(o: SchemaObject)
    requires
        o.reference is None,
        wrapped(o) is None || wrapped(o)->0 is Bool,
        !multi_variant(o),
    ensures
        o.enum_values matches Some(v) && v@.len() > 4 ==> described(o) == joined(
            seq![
                shown(o.enum_values->0@[0]@),
                shown(o.enum_values->0@[1]@),
                shown(o.enum_values->0@[2]@),
                shown(o.enum_values->0@[3]@),
            ],
            seq![' ', '|', ' '],
        ),
        (o.enum_values matches Some(v) ==> v@.len() == 0) && o.array is None && one_type(
            o.instance_type,
        ) == Some(InstanceType::Object) ==> described(o)
            == "object"@,
        (o.enum_values matches Some(v) ==> v@.len() == 0) && o.array is None && one_type(
            o.instance_type,
        ) == Some(InstanceType::Array) ==> described(o)
            == "[...]"@,
        (o.enum_values matches Some(v) ==> v@.len() == 0) && o.array is None
            && one_type(o.instance_type) is None ==> described(o) == "any"@,
        (o.enum_values matches Some(v) ==> v@.len() == 0) && o.array is None && scalar_name(
            o,
        ) is Some ==> described(o) == scalar_name(o)->0,
        (o.enum_values matches Some(v) ==> v@.len() == 0) && o.array is Some ==> described(o)
            == "["@ + (match o.array->0.items {
            Some(SingleOrVec::Single(s)) => match *s {
                Schema::Object(item) => described(item),
                Schema::Bool(_) => "any"@,
            },
            Some(SingleOrVec::Vec(v)) => if v@.len() > 0 && v@[0] is Object {
                described(v@[0]->Object_0)
            } else {
                "any"@
            },
            None => "any"@,
        }) + ", ...]"@,
{
    reveal_strlit(" | ");
    assert(" | "@ =~= seq![' ', '|', ' ']);
    if o.enum_values is Some && o.enum_values->0@.len() > 4 {
        let v = o.enum_values->0@;
        assert(shown_values(first_four(v)) =~= seq![
            shown(v[0]@),
            shown(v[1]@),
            shown(v[2]@),
            shown(v[3]@),
        ]);
    }
}

/// A union with several real arms is described as such.
pub proof fn lemma_variants_are_described(o: SchemaObject)
    requires
        o.reference is None,
        !(o.subschemas matches Some(sub) && (sub.all_of matches Some(v) && v@.len() == 1)),
        multi_variant(o),
    ensures
        described(o) == "(variants)"@,
{
}

/// Of fields, the first that pins a string is found.
proof fn lemma_first_fixed_at(props: Seq<(String, Schema)>, p: int)
    requires
        0 <= p < props.len(),
        single_string(props[p].1),
        forall|k: int| 0 <= k < p ==> !single_string((#[trigger] props[k]).1),
    ensures
        first_fixed(props) == Some(p),
    decreases props.len(),
{
    let init = props.drop_last();
    if p < init.len() {
        assert forall|k: int| 0 <= k < p implies !single_string((#[trigger] init[k]).1) by {
            assert(props[k] == init[k]);
        }
        assert(init[p] == props[p]);
        lemma_first_fixed_at(init, p);
    } else {
        assert forall|k: int| 0 <= k < init.len() implies !single_string(
            (#[trigger] init[k]).1,
        ) by {
            assert(props[k] == init[k]);
        }
        lemma_no_fixed(init);
    }
}

proof fn lemma_no_fixed(props: Seq<(String, Schema)>)
    requires
        forall|k: int| 0 <= k < props.len() ==> !single_string((#[trigger] props[k]).1),
    ensures
        first_fixed(props) is None,
    decreases props.len(),
{
    if props.len() > 0 {
        let init = props.drop_last();
        assert forall|k: int| 0 <= k < init.len() implies !single_string(
            (#[trigger] init[k]).1,
        ) by {
            assert(props[k] == init[k]);
        }
        lemma_no_fixed(init);
        assert(!single_string(props[props.len() - 1].1));
    }
}

/// A variant is labelled by the first of its fields that pins a string: that string in
/// quotes, and the name of the field in parentheses.
pub proof fn lemma_label_by_field(s: Schema, defs: Defs, p: int, text: Seq<char>)
    requires
        pins(s, p, text),
        forall|k: int, other: Seq<char>| 0 <= k < p ==> !#[trigger] pins(s, k, other),
    ensures
        arm_label(s, defs) == seq!['"'] + text + seq!['"', ' ', ' ', '(']
            + s->Object_0.object->0.properties.entries@[p].0@ + seq![')'],
{
    let props = s->Object_0.object->0.properties.entries@;
    assert forall|k: int| 0 <= k < p implies !single_string((#[trigger] props[k]).1) by {
        if single_string(props[k].1) {
            let other = props[k].1->Object_0.enum_values->0@[0]@->String_0;
            assert(pins(s, k, other));
        }
    }
    lemma_first_fixed_at(props, p);
    reveal_strlit("\"");
    reveal_strlit("\"  (");
    reveal_strlit(")");
    assert("\""@ =~= seq!['"']);
    assert("\"  ("@ =~= seq!['"', ' ', ' ', '(']);
    assert(")"@ =~= seq![')']);
}

/// A variant without such a field is labelled by the only string that it allows, in quotes;
/// else by its title; else by the description of its type, or `variant` where that is
/// `any`.
pub proof fn lemma_label_without_field(s: Schema, defs: Defs)
    requires
        s matches Schema::Object(o) && (o.object matches Some(ov) ==> forall|k: int|
            0 <= k < ov.properties.entries@.len() ==> !single_string(
                (#[trigger] ov.properties.entries@[k]).1,
            )),
    ensures
        ({
            let o = s->Object_0;
            let pinned = o.enum_values matches Some(v) && v@.len() == 1 && v@[0]@ is String;
            let titled = o.metadata matches Some(m) && m.title is Some;
            let d = described(resolved(o, defs, 32));
            &&& pinned ==> arm_label(s, defs) == seq!['"'] + o.enum_values->0@[0]@->String_0
                + seq!['"']
            &&& !pinned && titled ==> arm_label(s, defs) == o.metadata->0.title->0@
            &&& !pinned && !titled && d != "any"@ ==> arm_label(s, defs) == d
            &&& !pinned && !titled && d == "any"@ ==> arm_label(s, defs) == "variant"@
        }),
        arm_label(Schema::Bool(true), defs) == "variant"@,
        arm_label(Schema::Bool(false), defs) == "variant"@,
{
    let o = s->Object_0;
    if o.object is Some {
        lemma_no_fixed(o.object->0.properties.entries@);
    }
    reveal_strlit("\"");
    assert("\""@ =~= seq!['"']);
}

/// A string is shown between double quotes as it is.
pub proof fn lemma_shown_string(s: Seq<char>)
    ensures
        shown(JsonView::String(s)) == seq!['"'] + s + seq!['"'],
{
    reveal_strlit("\"");
    assert("\""@ =~= seq!['"']);
}

/// A value other than a string is shown by its JSON text, where that is printable.
pub proof fn lemma_shown_other(v: JsonView)
    requires
        !(v is String),
        forall|i: int| 0 <= i < json_text(v).len() ==> json_text(v)[i] >= ' ',
    ensures
        shown(v) == json_text(v),
{
    lemma_printable(json_text(v));
}

/// The properties of an object are listed each with its name, its schema and whether it is
/// required.
pub proof fn lemma_listed_property(
    r: Seq<(&String, &Schema, bool)>,
    ov: ObjectValidation,
    order: Seq<int>,
    j: int,
)
    requires
        lists(r, ov, order),
        0 <= j < order.len(),
    ensures
        r.len() == order.len(),
        r[j].0@ == ov.properties.entries@[order[j]].0@,
        *r[j].1 == ov.properties.entries@[order[j]].1,
        r[j].2 <==> ov.required@.contains(ov.properties.entries@[order[j]].0@),
{
    let item = r[j];
}

/// The width of a key is counted in the bytes that it takes in UTF-8, of which an ASCII
/// character takes one.
pub proof fn lemma_width_in_bytes(s: Seq<char>)
    ensures
        byte_len(s) == vstd::utf8::encode_utf8(s).len(),
{
}

/// Texts are joined one after the other, with the separator between neighbours alone.
pub proof fn lemma_joining(parts: Seq<Seq<char>>, sep: Seq<char>, last: Seq<char>)
    ensures
        joined(Seq::empty(), sep) == Seq::<char>::empty(),
        joined(seq![last], sep) == last,
        parts.len() > 0 ==> joined(parts.push(last), sep) == joined(parts, sep) + sep + last,
{
    assert(parts.push(last).drop_last() =~= parts);
}

/// A number below ten is written as one digit, and ten times a number and a digit as that
/// number with the digit behind it.
pub proof fn lemma_decimal_by_digit(n: nat, d: nat)
    requires
        d < 10,
    ensures
        decimal(d) == seq![(48 + d) as char],
        n > 0 ==> decimal((10 * n + d) as nat) == decimal(n).push((48 + d) as char),
{
    if n > 0 {
        let m = (10 * n + d) as nat;
        assert(m / 10 == n && m % 10 == d);
    }
}

/// Names are ordered by their first difference: a smaller character comes first, and a
/// name before those that go on behind it.
pub proof fn lemma_order_of_names(start: Seq<char>, a: char, x: Seq<char>, b: char, y: Seq<char>)
    requires
        a < b,
    ensures
        name_lt(start + seq![a] + x, start + seq![b] + y),
        !name_lt(start + seq![b] + y, start + seq![a] + x),
        name_lt(start, start + seq![a] + x),
        !name_lt(start, start),
{
    let s = start + seq![a] + x;
    let t = start + seq![b] + y;
    let i = start.len() as int;
    assert(s[i] == a && t[i] == b);
    assert(parts_at(s, t, i));
    lemma_lt_asymmetric(s, t);
    assert(parts_at(start, s, i));
    lemma_lt_irreflexive(start);
}

} // verus!
