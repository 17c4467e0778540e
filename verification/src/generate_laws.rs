//! What can be relied on of placeholder values.

use crate::generate::{
    all_placeholders, array_placeholder, definition, first_settled, first_viable, generated,
    generates, lemma_definitions_are_enough, lemma_settled_is_generated, object_placeholder,
    or_null, own_placeholder, placeholder, required_members, settles,
};
use crate::json::JsonView;
use crate::names::{ascending, keys, lemma_lt_irreflexive, name_lt};
use crate::schema::{
    item_of, non_null, null_schema, union_arms, wrapped, Defs, InstanceType, Schema, SchemaObject,
    SingleOrVec,
};
use vstd::prelude::*;

verus! {

/// A reference stands for what it refers to: its placeholder is that of the definition,
/// and `null` where there is none.
pub proof fn lemma_reference_resolves(o: SchemaObject, defs: Defs)
    requires
        o.reference is Some,
    ensures
        match definition(defs, o.reference->0@) {
            Some(s) => {
                &&& generates(Schema::Object(o), defs) <==> generates(s, defs)
                &&& generates(s, defs) ==> generated(Schema::Object(o), defs) == generated(s, defs)
            },
            None => generates(Schema::Object(o), defs) && generated(Schema::Object(o), defs)
                == JsonView::Null,
        },
{
    let whole = Schema::Object(o);
    lemma_definitions_are_enough(whole, defs);
    match definition(defs, o.reference->0@) {
        Some(s) => {
            lemma_definitions_are_enough(s, defs);
            assert forall|fuel: nat| #[trigger]
                placeholder(whole, defs, false, fuel + 1) == placeholder(s, defs, false, fuel) by {
                assert(placeholder(whole, defs, false, fuel + 1) == object_placeholder(
                    o,
                    defs,
                    false,
                    fuel + 1,
                ));
            }
            if generates(whole, defs) {
                let fuel = choose|fuel: nat| #[trigger] placeholder(
                    whole,
                    defs,
                    false,
                    fuel,
                ) is Some;
                assert(placeholder(whole, defs, false, fuel) == object_placeholder(
                    o,
                    defs,
                    false,
                    fuel,
                ));
                assert(fuel > 0);
                let less = (fuel - 1) as nat;
                assert(placeholder(whole, defs, false, less + 1) == placeholder(
                    s,
                    defs,
                    false,
                    less,
                ));
            }
            if generates(s, defs) {
                let fuel = choose|fuel: nat| #[trigger] placeholder(s, defs, false, fuel) is Some;
                assert(placeholder(whole, defs, false, fuel + 1) == placeholder(
                    s,
                    defs,
                    false,
                    fuel,
                ));
            }
        },
        None => {
            assert(placeholder(whole, defs, false, 0) == object_placeholder(o, defs, false, 0));
        },
    }
}

/// `o` asks for an object, and for nothing else that has a placeholder.
pub open spec fn plain_object(o: SchemaObject) -> bool {
    &&& o.reference is None
    &&& o.subschemas is None
    &&& o.enum_values is None
    &&& o.instance_type matches Some(SingleOrVec::Single(t)) && *t == InstanceType::Object
    &&& o.object is Some
}

/// Which names the required members have.
proof fn lemma_required_names(
    props: Seq<(String, Schema)>,
    required: Set<Seq<char>>,
    defs: Defs,
    fuel: nat,
    name: Seq<char>,
)
    ensures
        required_members(
            props,
            required,
            defs,
            false,
            fuel,
        ) matches Some(m) ==> (m.dom().contains(name)
            <==> required.contains(name) && exists|i: int|
            0 <= i < props.len() && (#[trigger] props[i]).0@ == name),
    decreases props.len(),
{
    if props.len() > 0 {
        let init = props.drop_last();
        lemma_required_names(init, required, defs, fuel, name);
        if exists|i: int| 0 <= i < init.len() && (#[trigger] init[i]).0@ == name {
            let i = choose|i: int| 0 <= i < init.len() && (#[trigger] init[i]).0@ == name;
            assert(props[i].0@ == name);
        }
        if exists|i: int| 0 <= i < props.len() && (#[trigger] props[i]).0@ == name {
            let i = choose|i: int| 0 <= i < props.len() && (#[trigger] props[i]).0@ == name;
            if i < init.len() {
                assert(init[i].0@ == name);
            }
        }
    }
}

/// What the required members hold.
proof fn lemma_required_values(
    props: Seq<(String, Schema)>,
    required: Set<Seq<char>>,
    defs: Defs,
    fuel: nat,
    i: int,
)
    requires
        ascending(keys(props)),
        0 <= i < props.len(),
        required.contains(props[i].0@),
    ensures
        required_members(props, required, defs, false, fuel) matches Some(m) ==> placeholder(
            props[i].1,
            defs,
            false,
            fuel,
        ) == Some(m[props[i].0@]),
    decreases props.len(),
{
    let init = props.drop_last();
    if i < init.len() {
        assert(keys(init) =~= keys(props).drop_last());
        lemma_required_values(init, required, defs, fuel, i);
        let ks = keys(props);
        assert(name_lt(ks[i], ks[ks.len() - 1]));
        if props[i].0@ == props.last().0@ {
            lemma_lt_irreflexive(props[i].0@);
        }
    }
}

/// Required members that can each be worked out can be worked out together.
proof fn lemma_required_generate(
    props: Seq<(String, Schema)>,
    required: Set<Seq<char>>,
    defs: Defs,
    fuel: nat,
)
    requires
        forall|i: int|
            0 <= i < props.len() && required.contains((#[trigger] props[i]).0@) ==> placeholder(
                props[i].1,
                defs,
                false,
                fuel,
            ) is Some,
    ensures
        required_members(props, required, defs, false, fuel) is Some,
    decreases props.len(),
{
    if props.len() > 0 {
        let init = props.drop_last();
        assert forall|i: int|
            0 <= i < init.len() && required.contains((#[trigger] init[i]).0@) implies placeholder(
            init[i].1,
            defs,
            false,
            fuel,
        ) is Some by {
            assert(props[i] == init[i]);
        }
        lemma_required_generate(init, required, defs, fuel);
        assert(props[props.len() - 1] == props.last());
    }
}

/// An object whose required properties have placeholders has one.
pub proof fn lemma_object_generates(o: SchemaObject, defs: Defs)
    requires
        plain_object(o),
        forall|i: int|
            0 <= i < o.object->0.properties.entries@.len() && o.object->0.required@.contains(
                (#[trigger] o.object->0.properties.entries@[i]).0@,
            ) ==> generates(o.object->0.properties.entries@[i].1, defs),
    ensures
        generates(Schema::Object(o), defs),
{
    let ov = o.object->0;
    let props = ov.properties.entries@;
    let fuel = defs.entries@.len();
    assert forall|i: int|
        0 <= i < props.len() && ov.required@.contains((#[trigger] props[i]).0@) implies placeholder(
        props[i].1,
        defs,
        false,
        fuel,
    ) is Some by {
        lemma_definitions_are_enough(props[i].1, defs);
    }
    lemma_required_generate(props, ov.required@, defs, fuel);
    assert(object_placeholder(o, defs, false, fuel) == own_placeholder(o, defs, false, fuel));
    assert(placeholder(Schema::Object(o), defs, false, fuel) == object_placeholder(
        o,
        defs,
        false,
        fuel,
    ));
}

/// `o` asks for an array with one schema for its items, and for nothing else that has a
/// placeholder.
pub open spec fn plain_array(o: SchemaObject) -> bool {
    &&& o.reference is None
    &&& o.subschemas is None
    &&& o.enum_values is None
    &&& o.instance_type matches Some(SingleOrVec::Single(t)) && *t == InstanceType::Array
    &&& o.array matches Some(av) && match av.items {
        Some(SingleOrVec::Single(_)) => true,
        Some(SingleOrVec::Vec(v)) => v@.len() == 1,
        None => false,
    }
}

/// An array with one schema for its items holds one placeholder of that schema.
pub proof fn lemma_array_holds_item(o: SchemaObject, defs: Defs)
    requires
        plain_array(o),
    ensures
        item_of(o) matches Some(item) && {
            &&& generates(Schema::Object(o), defs) <==> generates(item, defs)
            &&& generates(item, defs) ==> generated(Schema::Object(o), defs) == JsonView::Array(
                seq![generated(item, defs)],
            )
        },
{
    let whole = Schema::Object(o);
    let item = item_of(o)->0;
    lemma_definitions_are_enough(whole, defs);
    lemma_definitions_are_enough(item, defs);
    assert forall|fuel: nat| #[trigger]
        placeholder(whole, defs, false, fuel) == match placeholder(item, defs, false, fuel) {
            Some(v) => Some(JsonView::Array(seq![v])),
            None => None,
        } by {
        assert(placeholder(whole, defs, false, fuel) == object_placeholder(o, defs, false, fuel));
        assert(object_placeholder(o, defs, false, fuel) == own_placeholder(o, defs, false, fuel));
        assert(own_placeholder(o, defs, false, fuel) == array_placeholder(o, defs, false, fuel));
        if let Some(SingleOrVec::Vec(v)) = o.array->0.items {
            assert(v@.drop_last() =~= Seq::<Schema>::empty());
            reveal_with_fuel(all_placeholders, 2);
            assert(v@.last() == item);
            if let Some(x) = placeholder(item, defs, false, fuel) {
                assert(Seq::<JsonView>::empty().push(x) =~= seq![x]);
            }
        }
    }
    let fuel = defs.entries@.len();
    assert(placeholder(whole, defs, false, fuel) is Some <==> placeholder(
        item,
        defs,
        false,
        fuel,
    ) is Some);
}

/// An object holds its required properties and no others.
pub proof fn lemma_object_holds_required(o: SchemaObject, defs: Defs, name: Seq<char>)
    requires
        plain_object(o),
        generates(Schema::Object(o), defs),
    ensures
        generated(Schema::Object(o), defs) matches JsonView::Object(m) && (m.dom().contains(name)
            <==> o.object->0.required@.contains(name) && exists|i: int|
            0 <= i < o.object->0.properties.entries@.len() && (
            #[trigger] o.object->0.properties.entries@[i]).0@ == name),
{
    let whole = Schema::Object(o);
    let ov = o.object->0;
    let fuel = defs.entries@.len();
    lemma_definitions_are_enough(whole, defs);
    assert(placeholder(whole, defs, false, fuel) == object_placeholder(o, defs, false, fuel));
    assert(object_placeholder(o, defs, false, fuel) == own_placeholder(o, defs, false, fuel));
    lemma_required_names(ov.properties.entries@, ov.required@, defs, fuel, name);
}

/// Each required property of an object holds the placeholder of its own schema.
pub proof fn lemma_object_holds_placeholders(o: SchemaObject, defs: Defs, i: int)
    requires
        plain_object(o),
        generates(Schema::Object(o), defs),
        o.object->0.properties.wf(),
        0 <= i < o.object->0.properties.entries@.len(),
        o.object->0.required@.contains(o.object->0.properties.entries@[i].0@),
    ensures
        generated(Schema::Object(o), defs) matches JsonView::Object(m) && {
            let prop = o.object->0.properties.entries@[i];
            generates(prop.1, defs) && m[prop.0@] == generated(prop.1, defs)
        },
{
    let whole = Schema::Object(o);
    let ov = o.object->0;
    let prop = ov.properties.entries@[i];
    let fuel = defs.entries@.len();
    lemma_definitions_are_enough(whole, defs);
    lemma_definitions_are_enough(prop.1, defs);
    assert(placeholder(whole, defs, false, fuel) == object_placeholder(o, defs, false, fuel));
    assert(object_placeholder(o, defs, false, fuel) == own_placeholder(o, defs, false, fuel));
    lemma_required_values(ov.properties.entries@, ov.required@, defs, fuel, i);
}

/// The first arms with no value but `null` are passed over.
proof fn lemma_viable_at(arms: Seq<Schema>, defs: Defs, fuel: nat, k: int)
    requires
        0 <= k < arms.len(),
        forall|i: int|
            0 <= i < k ==> placeholder(
                #[trigger] arms[i],
                defs,
                false,
                fuel,
            ) == Some(JsonView::Null),
        placeholder(arms[k], defs, false, fuel) matches Some(v) && v != JsonView::Null,
    ensures
        first_viable(arms, defs, false, fuel) == Some(placeholder(arms[k], defs, false, fuel)),
    decreases arms.len(),
{
    let init = arms.drop_last();
    if k < init.len() {
        lemma_viable_at(init, defs, fuel, k);
    } else {
        lemma_viable_none(init, defs, fuel);
    }
}

pub proof fn lemma_viable_none(arms: Seq<Schema>, defs: Defs, fuel: nat)
    requires
        forall|i: int|
            0 <= i < arms.len() ==> placeholder(#[trigger] arms[i], defs, false, fuel) == Some(
                JsonView::Null,
            ),
    ensures
        first_viable(arms, defs, false, fuel) == Some(None::<JsonView>),
    decreases arms.len(),
{
    if arms.len() > 0 {
        lemma_viable_none(arms.drop_last(), defs, fuel);
        assert(placeholder(arms[arms.len() - 1], defs, false, fuel) == Some(JsonView::Null));
    }
}

/// `o` is a union of `arms`, by its `anyOf` or its `oneOf` alone.
pub open spec fn union_of(o: SchemaObject, arms: Seq<Schema>) -> bool {
    &&& o.reference is None
    &&& o.subschemas matches Some(sub) && match sub.any_of {
        Some(v) => v@ == arms,
        None => sub.one_of matches Some(v) && v@ == arms,
    }
}

/// `s` asks for `null`, and for nothing else that has a placeholder.
pub open spec fn bare_null(s: Schema) -> bool {
    s matches Schema::Object(o) && {
        &&& o.reference is None
        &&& o.subschemas is None
        &&& o.enum_values matches Some(v) ==> v@.len() == 0 || v@[0]@ == JsonView::Null
        &&& o.instance_type == Some(SingleOrVec::Single(Box::new(InstanceType::Null)))
    }
}

/// The placeholder of a bare `null` is `null`.
pub proof fn lemma_bare_null(s: Schema, defs: Defs, fuel: nat)
    requires
        bare_null(s),
    ensures
        placeholder(s, defs, false, fuel) == Some(JsonView::Null),
        generates(s, defs),
        generated(s, defs) == JsonView::Null,
{
    let o = s->Object_0;
    assert forall|f: nat| #[trigger] placeholder(s, defs, false, f) == Some(JsonView::Null) by {
        assert(placeholder(s, defs, false, f) == object_placeholder(o, defs, false, f));
        assert(object_placeholder(o, defs, false, f) == own_placeholder(o, defs, false, f));
    }
    assert(placeholder(s, defs, false, fuel) is Some);
    assert(placeholder(s, defs, false, defs.entries@.len()) == Some(JsonView::Null));
}

/// The `null` schemas among `arms` are bare.
pub open spec fn nulls_bare(arms: Seq<Schema>) -> bool {
    forall|i: int| 0 <= i < arms.len() && null_schema(#[trigger] arms[i]) ==> bare_null(arms[i])
}

/// `o` is a union with nothing beside it that has a placeholder.
pub open spec fn lone_union(o: SchemaObject) -> bool {
    &&& o.reference is None
    &&& o.enum_values is None
    &&& o.instance_type is None
    &&& o.subschemas matches Some(sub) && sub.all_of is None && (sub.any_of is None
        || sub.one_of is None)
}

/// What is viable among arms of which all, or all but one, are a bare `null`.
proof fn lemma_viable_single(arms: Seq<Schema>, defs: Defs, fuel: nat)
    requires
        nulls_bare(arms),
        non_null(arms).len() <= 1,
    ensures
        first_viable(arms, defs, false, fuel) == if non_null(arms).len() == 0 {
            Some(None)
        } else {
            match placeholder(non_null(arms)[0], defs, false, fuel) {
                None => None,
                Some(JsonView::Null) => Some(None),
                Some(v) => Some(Some(v)),
            }
        },
    decreases arms.len(),
{
    if arms.len() > 0 {
        let init = arms.drop_last();
        assert forall|i: int| 0 <= i < init.len() && null_schema(
            #[trigger] init[i],
        ) implies bare_null(init[i]) by {
            assert(arms[i] == init[i]);
        }
        lemma_viable_single(init, defs, fuel);
        assert(arms[arms.len() - 1] == arms.last());
        if null_schema(arms.last()) {
            lemma_bare_null(arms.last(), defs, fuel);
        }
    }
}

/// The template comes to `arm`, the first real arm of the union `o`: that is an `anyOf`, or
/// no `null` stands before the arm, or the arm can be worked out strictly.
pub open spec fn comes_to(o: SchemaObject, arm: Schema, defs: Defs) -> bool {
    o.subschemas->0.any_of is Some || !null_schema(union_arms(o)->0[0]) || settles(arm, defs)
}

/// `o` wraps a schema, and has nothing beside it that has a placeholder: a one-element
/// `allOf`, or a union with one real arm.
pub open spec fn lone_wrapper(o: SchemaObject, defs: Defs) -> bool {
    if o.subschemas matches Some(sub) && sub.all_of matches Some(all) && all@.len() == 1 {
        let sub = o.subschemas->0;
        o.reference is None && sub.any_of is None && sub.one_of is None
    } else {
        lone_union(o) && (union_arms(o) matches Some(arms) && non_null(arms).len() == 1
            && nulls_bare(arms) && comes_to(o, non_null(arms)[0], defs))
    }
}

/// Two schemas whose placeholders take the same to work out, and are the same.
pub open spec fn same_template(a: Schema, b: Schema, defs: Defs) -> bool {
    &&& generates(a, defs) <==> generates(b, defs)
    &&& generates(a, defs) ==> generated(a, defs) == generated(b, defs)
}

/// No arm is viable where each that can be worked out strictly is `null`.
proof fn lemma_settled_none(arms: Seq<Schema>, defs: Defs)
    requires
        forall|i: int|
            0 <= i < arms.len() && settles(#[trigger] arms[i], defs) ==> generated(arms[i], defs)
                == JsonView::Null,
    ensures
        first_settled(arms, defs) is None,
    decreases arms.len(),
{
    if arms.len() > 0 {
        let init = arms.drop_last();
        assert forall|i: int| 0 <= i < init.len() && settles(
            #[trigger] init[i],
            defs,
        ) implies generated(init[i], defs) == JsonView::Null by {
            assert(arms[i] == init[i]);
        }
        lemma_settled_none(init, defs);
        let last = arms[arms.len() - 1];
        lemma_definitions_are_enough(last, defs);
        if settles(last, defs) {
            lemma_settled_is_generated(last, defs);
        }
    }
}

/// The first viable arm is settled on, where it can be worked out strictly.
proof fn lemma_settled_at(arms: Seq<Schema>, defs: Defs, k: int)
    requires
        0 <= k < arms.len(),
        forall|i: int|
            0 <= i < k && settles(#[trigger] arms[i], defs) ==> generated(arms[i], defs)
                == JsonView::Null,
        settles(arms[k], defs),
        generated(arms[k], defs) != JsonView::Null,
    ensures
        first_settled(arms, defs) == Some(generated(arms[k], defs)),
    decreases arms.len(),
{
    let init = arms.drop_last();
    assert forall|i: int| 0 <= i < k && settles(#[trigger] init[i], defs) implies generated(
        init[i],
        defs,
    ) == JsonView::Null by {
        assert(arms[i] == init[i]);
    }
    if k < init.len() {
        assert(arms[k] == init[k]);
        lemma_settled_at(init, defs, k);
    } else {
        lemma_settled_none(init, defs);
        lemma_settled_is_generated(arms[k], defs);
    }
}

/// `o` is a union of `arms`, by its `oneOf`.
pub open spec fn one_of_union(o: SchemaObject, arms: Seq<Schema>) -> bool {
    &&& o.reference is None
    &&& o.subschemas matches Some(sub) && sub.any_of is None && (sub.one_of matches Some(v) && v@
        == arms)
    &&& arms.len() > 0
}

/// A `oneOf` has a placeholder wherever its first arm has one, and takes that, unless it
/// is `null`.
pub proof fn lemma_one_of_by_first_arm(o: SchemaObject, arms: Seq<Schema>, defs: Defs)
    requires
        one_of_union(o, arms),
    ensures
        generates(Schema::Object(o), defs) <==> generates(arms[0], defs),
        generates(arms[0], defs) ==> generated(Schema::Object(o), defs) == if generated(
            arms[0],
            defs,
        ) == JsonView::Null {
            or_null(first_settled(arms, defs))
        } else {
            generated(arms[0], defs)
        },
{
    let whole = Schema::Object(o);
    let first = arms[0];
    lemma_definitions_are_enough(whole, defs);
    lemma_definitions_are_enough(first, defs);
    let fuel = defs.entries@.len();
    assert(placeholder(whole, defs, false, fuel) == object_placeholder(o, defs, false, fuel));
}

/// An arm that cannot be worked out is not viable: where the first arm of a `oneOf` is
/// `null`, and so is each of the others that can be worked out strictly, the `oneOf` is
/// `null`.
pub proof fn lemma_endless_arms_are_not_viable(o: SchemaObject, arms: Seq<Schema>, defs: Defs)
    requires
        one_of_union(o, arms),
        generates(arms[0], defs),
        generated(arms[0], defs) == JsonView::Null,
        forall|i: int|
            0 <= i < arms.len() && settles(#[trigger] arms[i], defs) ==> generated(arms[i], defs)
                == JsonView::Null,
    ensures
        generates(Schema::Object(o), defs),
        generated(Schema::Object(o), defs) == JsonView::Null,
{
    lemma_one_of_by_first_arm(o, arms, defs);
    lemma_settled_none(arms, defs);
}

/// Before the first arm that is not `null` stand `null` schemas only.
pub proof fn lemma_first_real_arm(arms: Seq<Schema>) -> (j: int)
    requires
        non_null(arms).len() > 0,
    ensures
        0 <= j < arms.len(),
        arms[j] == non_null(arms)[0],
        forall|i: int| 0 <= i < j ==> null_schema(#[trigger] arms[i]),
        !null_schema(arms[j]),
    decreases arms.len(),
{
    let init = arms.drop_last();
    if non_null(init).len() > 0 {
        let j = lemma_first_real_arm(init);
        assert forall|i: int| 0 <= i < j implies null_schema(#[trigger] arms[i]) by {
            assert(init[i] == arms[i]);
        }
        j
    } else {
        lemma_all_null(init);
        assert forall|i: int| 0 <= i < init.len() implies null_schema(#[trigger] arms[i]) by {
            assert(init[i] == arms[i]);
        }
        arms.len() - 1
    }
}

/// Arms of which none is real are `null` schemas.
proof fn lemma_all_null(arms: Seq<Schema>)
    requires
        non_null(arms).len() == 0,
    ensures
        forall|i: int| 0 <= i < arms.len() ==> null_schema(#[trigger] arms[i]),
    decreases arms.len(),
{
    if arms.len() > 0 {
        let init = arms.drop_last();
        lemma_all_null(init);
        assert forall|i: int| 0 <= i < arms.len() implies null_schema(#[trigger] arms[i]) by {
            if i < init.len() {
                assert(init[i] == arms[i]);
            }
        }
    }
}

/// Of arms with one that is real, all others are `null` schemas.
proof fn lemma_only_real_arm(arms: Seq<Schema>, j: int)
    requires
        non_null(arms).len() == 1,
        0 <= j < arms.len(),
        !null_schema(arms[j]),
    ensures
        arms[j] == non_null(arms)[0],
        forall|i: int| 0 <= i < arms.len() && i != j ==> null_schema(#[trigger] arms[i]),
    decreases arms.len(),
{
    let init = arms.drop_last();
    if null_schema(arms.last()) {
        lemma_only_real_arm(init, j);
        assert forall|i: int| 0 <= i < arms.len() && i != j implies null_schema(
            #[trigger] arms[i],
        ) by {
            if i < init.len() {
                assert(init[i] == arms[i]);
            }
        }
    } else {
        lemma_all_null(init);
        if j < init.len() {
            assert(null_schema(init[j]));
        }
        assert forall|i: int| 0 <= i < arms.len() && i != j implies null_schema(
            #[trigger] arms[i],
        ) by {
            assert(init[i] == arms[i]);
        }
    }
}

/// A wrapper has the placeholder of what it wraps.
pub proof fn lemma_wrapper_template(o: SchemaObject, defs: Defs)
    requires
        lone_wrapper(o, defs),
    ensures
        wrapped(o) matches Some(inner) && same_template(Schema::Object(o), inner, defs),
{
    let whole = Schema::Object(o);
    let inner = wrapped(o)->0;
    let sub = o.subschemas->0;
    let all = sub.all_of is Some && sub.all_of->0@.len() == 1;
    if all || sub.any_of is Some {
        assert forall|fuel: nat| #[trigger]
            placeholder(whole, defs, false, fuel) == placeholder(inner, defs, false, fuel) by {
            assert(placeholder(whole, defs, false, fuel) == object_placeholder(
                o,
                defs,
                false,
                fuel,
            ));
            if !all {
                lemma_viable_single(union_arms(o)->0, defs, fuel);
                assert(own_placeholder(o, defs, false, fuel) == Some(JsonView::Null));
            }
        }
        lemma_same_placeholders(whole, inner, defs);
    } else {
        let arms = union_arms(o)->0;
        let j = lemma_first_real_arm(arms);
        lemma_only_real_arm(arms, j);
        assert forall|i: int| 0 <= i < arms.len() && i != j implies generates(
            #[trigger] arms[i],
            defs,
        ) && generated(arms[i], defs) == JsonView::Null by {
            lemma_bare_null(arms[i], defs, 0);
        }
        lemma_one_of_by_first_arm(o, arms, defs);
        if j > 0 {
            assert(null_schema(arms[0]));
            assert(generates(arms[0], defs));
            lemma_settled_is_generated(inner, defs);
        }
        if generates(inner, defs) {
            if generated(inner, defs) == JsonView::Null {
                lemma_settled_none(arms, defs);
            } else if j > 0 {
                lemma_settled_at(arms, defs, j);
            }
        }
    }
}

/// Placeholders that are the same however they are worked out are the same.
pub proof fn lemma_same_placeholders(a: Schema, b: Schema, defs: Defs)
    requires
        forall|fuel: nat| #[trigger] placeholder(a, defs, false, fuel) == placeholder(
            b,
            defs,
            false,
            fuel,
        ),
    ensures
        same_template(a, b, defs),
{
    if generates(a, defs) {
        let fuel = choose|fuel: nat| #[trigger] placeholder(a, defs, false, fuel) is Some;
        assert(placeholder(b, defs, false, fuel) is Some);
    }
    if generates(b, defs) {
        let fuel = choose|fuel: nat| #[trigger] placeholder(b, defs, false, fuel) is Some;
        assert(placeholder(a, defs, false, fuel) == placeholder(b, defs, false, fuel));
    }
    assert(placeholder(a, defs, false, defs.entries@.len()) == placeholder(
        b,
        defs,
        false,
        defs.entries@.len(),
    ));
}

/// A union takes the value of its first viable arm, the first whose value is not `null`. In
/// a `oneOf`, an arm behind the first has to be worked out strictly for that.
pub proof fn lemma_union_takes_first_viable(
    o: SchemaObject,
    arms: Seq<Schema>,
    defs: Defs,
    k: int,
)
    requires
        union_of(o, arms),
        0 <= k < arms.len(),
        forall|i: int|
            0 <= i < k ==> generates(#[trigger] arms[i], defs) && generated(arms[i], defs)
                == JsonView::Null,
        generates(arms[k], defs),
        generated(arms[k], defs) != JsonView::Null,
        o.subschemas->0.any_of is Some || k == 0 || settles(arms[k], defs),
    ensures
        generates(Schema::Object(o), defs),
        generated(Schema::Object(o), defs) == generated(arms[k], defs),
{
    let whole = Schema::Object(o);
    if o.subschemas->0.any_of is Some {
        let fuel = defs.entries@.len();
        lemma_definitions_are_enough(whole, defs);
        lemma_definitions_are_enough(arms[k], defs);
        assert forall|i: int| 0 <= i < k implies placeholder(
            #[trigger] arms[i],
            defs,
            false,
            fuel,
        ) == Some(JsonView::Null) by {
            lemma_definitions_are_enough(arms[i], defs);
        }
        lemma_viable_at(arms, defs, fuel, k);
        assert(placeholder(whole, defs, false, fuel) == object_placeholder(o, defs, false, fuel));
    } else {
        lemma_one_of_by_first_arm(o, arms, defs);
        if k > 0 {
            assert(generates(arms[0], defs));
            lemma_settled_at(arms, defs, k);
        }
    }
}

} // verus!
