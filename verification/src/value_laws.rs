//! What the placeholder of each kind of schema is.

use crate::generate::{
    all_placeholders, array_placeholder, first_viable, generated, generates,
    lemma_definitions_are_enough, object_placeholder, own_placeholder, placeholder,
};
use crate::generate_laws::{lemma_reference_resolves, lemma_same_placeholders, lemma_viable_none};
use crate::json::{json_integer, JsonView};
use crate::names::{lemma_find, lemma_find_at};
use crate::schema::{Defs, InstanceType, Schema, SchemaObject, SingleOrVec};
use vstd::prelude::*;

verus! {

/// `true` and `false` have the placeholder `null`.
pub proof fn lemma_bool_is_null(b: bool, defs: Defs)
    ensures
        generates(Schema::Bool(b), defs),
        generated(Schema::Bool(b), defs) == JsonView::Null,
{
    assert(placeholder(Schema::Bool(b), defs, false, 0) is Some);
}

/// The placeholder of a schema object without reference and subschemas is worked out from
/// its own keywords.
proof fn lemma_by_own(o: SchemaObject, defs: Defs)
    requires
        o.reference is None,
        o.subschemas is None,
    ensures
        forall|fuel: nat| #[trigger]
            placeholder(Schema::Object(o), defs, false, fuel) == own_placeholder(
                o,
                defs,
                false,
                fuel,
            ),
{
    assert forall|fuel: nat| #[trigger]
        placeholder(Schema::Object(o), defs, false, fuel) == own_placeholder(
            o,
            defs,
            false,
            fuel,
        ) by {
        assert(placeholder(Schema::Object(o), defs, false, fuel) == object_placeholder(
            o,
            defs,
            false,
            fuel,
        ));
    }
}

/// An `enum` takes its first value, whatever type it asks for beside it.
pub proof fn lemma_enum_takes_first_value(o: SchemaObject, defs: Defs)
    requires
        o.reference is None,
        o.subschemas is None,
        o.enum_values matches Some(values) && values@.len() > 0,
    ensures
        generates(Schema::Object(o), defs),
        generated(Schema::Object(o), defs) == o.enum_values->0@[0]@,
{
    lemma_by_own(o, defs);
    assert(placeholder(Schema::Object(o), defs, false, 0) is Some);
}

/// Scalars become the empty string, zero and `false`; a schema that asks for `null`, for no
/// type or for a list of types has the placeholder `null`.
pub proof fn lemma_scalars_are_empty(o: SchemaObject, defs: Defs)
    requires
        o.reference is None,
        o.subschemas is None,
        o.enum_values matches Some(values) ==> values@.len() == 0,
        o.instance_type matches Some(SingleOrVec::Single(t)) ==> *t != InstanceType::Array && *t
            != InstanceType::Object,
    ensures
        generates(Schema::Object(o), defs),
        generated(Schema::Object(o), defs) == match o.instance_type {
            Some(SingleOrVec::Single(t)) => match *t {
                InstanceType::String => JsonView::String(Seq::empty()),
                InstanceType::Integer => JsonView::Number(json_integer(0)),
                InstanceType::Number => JsonView::Number(json_integer(0)),
                InstanceType::Boolean => JsonView::Bool(false),
                _ => JsonView::Null,
            },
            _ => JsonView::Null,
        },
{
    lemma_by_own(o, defs);
    assert(placeholder(Schema::Object(o), defs, false, 0) is Some);
}

/// An array without a schema for its items is empty, and so is an object without
/// properties.
pub proof fn lemma_empty_containers(o: SchemaObject, defs: Defs)
    requires
        o.reference is None,
        o.subschemas is None,
        o.enum_values matches Some(values) ==> values@.len() == 0,
        o.instance_type matches Some(SingleOrVec::Single(t)) && ((*t == InstanceType::Array && (
        o.array matches Some(av) ==> av.items is None)) || (*t == InstanceType::Object
            && o.object is None)),
    ensures
        generates(Schema::Object(o), defs),
        generated(Schema::Object(o), defs) == if *o.instance_type->0->Single_0
            == InstanceType::Array {
            JsonView::Array(Seq::empty())
        } else {
            JsonView::Object(Map::empty())
        },
{
    lemma_by_own(o, defs);
    if *o.instance_type->0->Single_0 == InstanceType::Array {
        assert forall|fuel: nat| #[trigger]
            own_placeholder(o, defs, false, fuel) == Some(JsonView::Array(Seq::empty())) by {
            assert(array_placeholder(o, defs, false, fuel) == Some(
                JsonView::Array(Seq::empty()),
            ));
        }
    }
    assert(placeholder(Schema::Object(o), defs, false, 0) is Some);
}

/// The placeholders of a list of schemas, one by one.
proof fn lemma_all_one_by_one(schemas: Seq<Schema>, defs: Defs, fuel: nat)
    ensures
        all_placeholders(schemas, defs, false, fuel) is Some <==> forall|i: int|
            0 <= i < schemas.len() ==> placeholder(
                #[trigger] schemas[i],
                defs,
                false,
                fuel,
            ) is Some,
        all_placeholders(schemas, defs, false, fuel) matches Some(vs) ==> vs.len() == schemas.len()
            && forall|i: int|
            0 <= i < vs.len() ==> Some(#[trigger] vs[i]) == placeholder(
                schemas[i],
                defs,
                false,
                fuel,
            ),
    decreases schemas.len(),
{
    if schemas.len() > 0 {
        let init = schemas.drop_last();
        lemma_all_one_by_one(init, defs, fuel);
        assert(schemas[schemas.len() - 1] == schemas.last());
        if all_placeholders(init, defs, false, fuel) is Some {
            assert forall|i: int| 0 <= i < init.len() implies placeholder(
                #[trigger] schemas[i],
                defs,
                false,
                fuel,
            ) is Some by {
                assert(init[i] == schemas[i]);
            }
            if let Some(vs) = all_placeholders(schemas, defs, false, fuel) {
                let some = all_placeholders(init, defs, false, fuel)->0;
                assert forall|i: int| 0 <= i < vs.len() implies Some(#[trigger] vs[i])
                    == placeholder(schemas[i], defs, false, fuel) by {
                    if i < some.len() {
                        assert(vs[i] == some[i]);
                        assert(init[i] == schemas[i]);
                    }
                }
            }
        } else {
            let i = choose|i: int|
                0 <= i < init.len() && placeholder(#[trigger] init[i], defs, false, fuel) is None;
            assert(schemas[i] == init[i]);
            assert(placeholder(schemas[i], defs, false, fuel) is None);
        }
    }
}

/// An array with a list of schemas for its items holds one placeholder of each, in order.
pub proof fn lemma_array_holds_each_item(o: SchemaObject, items: Seq<Schema>, defs: Defs)
    requires
        o.reference is None,
        o.subschemas is None,
        o.enum_values matches Some(values) ==> values@.len() == 0,
        o.instance_type matches Some(SingleOrVec::Single(t)) && *t == InstanceType::Array,
        o.array is Some,
        match o.array->0.items {
            Some(SingleOrVec::Vec(v)) => v@ == items,
            Some(SingleOrVec::Single(s)) => items == seq![*s],
            None => false,
        },
    ensures
        generates(Schema::Object(o), defs) <==> forall|i: int|
            0 <= i < items.len() ==> generates(#[trigger] items[i], defs),
        generates(Schema::Object(o), defs) ==> (generated(
            Schema::Object(o),
            defs,
        ) matches JsonView::Array(vs) && vs.len() == items.len() && forall|i: int|
            0 <= i < vs.len() ==> #[trigger] vs[i] == generated(items[i], defs)),
{
    let whole = Schema::Object(o);
    let fuel = defs.entries@.len();
    lemma_by_own(o, defs);
    lemma_definitions_are_enough(whole, defs);
    lemma_all_one_by_one(items, defs, fuel);
    assert(placeholder(whole, defs, false, fuel) == array_placeholder(o, defs, false, fuel));
    assert forall|i: int| 0 <= i < items.len() implies (generates(#[trigger] items[i], defs)
        <==> placeholder(items[i], defs, false, fuel) is Some) by {
        lemma_definitions_are_enough(items[i], defs);
    }
    if let Some(SingleOrVec::Single(s)) = o.array->0.items {
        assert(items[0] == *s);
        if placeholder(*s, defs, false, fuel) is Some {
            assert(forall|i: int| 0 <= i < items.len() ==> generates(#[trigger] items[i], defs));
        }
    } else {
        if placeholder(whole, defs, false, fuel) is Some {
            assert forall|i: int| 0 <= i < items.len() implies generates(
                #[trigger] items[i],
                defs,
            ) by {
                assert(placeholder(items[i], defs, false, fuel) is Some);
            }
        }
        if forall|i: int| 0 <= i < items.len() ==> generates(#[trigger] items[i], defs) {
            assert forall|i: int| 0 <= i < items.len() implies placeholder(
                #[trigger] items[i],
                defs,
                false,
                fuel,
            ) is Some by {
                assert(generates(items[i], defs));
            }
        }
    }
}

/// Neither titles, defaults nor formats count for the placeholder.
pub proof fn lemma_remarks_do_not_count(o: SchemaObject, p: SchemaObject, defs: Defs)
    requires
        p == (SchemaObject { metadata: p.metadata, format: p.format, ..o }),
    ensures
        generates(Schema::Object(o), defs) <==> generates(Schema::Object(p), defs),
        generated(Schema::Object(o), defs) == generated(Schema::Object(p), defs),
{
    let a = Schema::Object(o);
    let b = Schema::Object(p);
    assert forall|fuel: nat| #[trigger]
        placeholder(a, defs, false, fuel) == placeholder(b, defs, false, fuel) by {
        assert(placeholder(a, defs, false, fuel) == object_placeholder(o, defs, false, fuel));
        assert(placeholder(b, defs, false, fuel) == object_placeholder(p, defs, false, fuel));
        assert(array_placeholder(o, defs, false, fuel) == array_placeholder(p, defs, false, fuel));
        assert(own_placeholder(o, defs, false, fuel) == own_placeholder(p, defs, false, fuel));
    }
    lemma_same_placeholders(a, b, defs);
    assert(placeholder(a, defs, false, defs.entries@.len()) == placeholder(
        b,
        defs,
        false,
        defs.entries@.len(),
    ));
}

/// A pointer to a definition stands for it; a pointer to none, or to anything but a
/// definition, is `null`.
pub proof fn lemma_pointer_stands_for_definition(
    o: SchemaObject,
    defs: Defs,
    name: Seq<char>,
    i: int,
)
    requires
        defs.wf(),
        o.reference matches Some(r) && r@ == "#/definitions/"@ + name,
    ensures
        0 <= i < defs.entries@.len() && defs.entries@[i].0@ == name ==> {
            let d = defs.entries@[i].1;
            &&& generates(Schema::Object(o), defs) <==> generates(d, defs)
            &&& generates(d, defs) ==> generated(Schema::Object(o), defs) == generated(d, defs)
        },
        (forall|j: int| 0 <= j < defs.entries@.len() ==> (#[trigger] defs.entries@[j]).0@ != name)
            ==> generates(Schema::Object(o), defs) && generated(Schema::Object(o), defs)
            == JsonView::Null,
{
    let start = "#/definitions/"@;
    assert((start + name).take(start.len() as int) =~= start);
    assert((start + name).skip(start.len() as int) =~= name);
    lemma_reference_resolves(o, defs);
    lemma_find(defs.entries@, name);
    if 0 <= i < defs.entries@.len() && defs.entries@[i].0@ == name {
        lemma_find_at(defs.entries@, i);
    }
}

/// A pointer that does not start as one to a definition is `null`.
pub proof fn lemma_other_pointers_are_null(o: SchemaObject, defs: Defs)
    requires
        o.reference is Some,
        !"#/definitions/"@.is_prefix_of(o.reference->0@),
    ensures
        generates(Schema::Object(o), defs),
        generated(Schema::Object(o), defs) == JsonView::Null,
{
    let start = "#/definitions/"@;
    let r = o.reference->0@;
    if start.len() <= r.len() && r.take(start.len() as int) == start {
        assert(r.take(start.len() as int) =~= r.subrange(0, start.len() as int));
    }
    lemma_reference_resolves(o, defs);
}

/// An `anyOf` that comes to an arm without a placeholder has none.
pub proof fn lemma_any_of_stops_at_endless_arm(
    o: SchemaObject,
    arms: Seq<Schema>,
    defs: Defs,
    k: int,
)
    requires
        o.reference is None,
        o.subschemas matches Some(sub) && (sub.any_of matches Some(v) && v@ == arms),
        0 <= k < arms.len(),
        forall|i: int|
            0 <= i < k ==> generates(#[trigger] arms[i], defs) && generated(arms[i], defs)
                == JsonView::Null,
        !generates(arms[k], defs),
    ensures
        !generates(Schema::Object(o), defs),
{
    let whole = Schema::Object(o);
    let fuel = defs.entries@.len();
    lemma_definitions_are_enough(whole, defs);
    assert forall|i: int| 0 <= i < k implies placeholder(
        #[trigger] arms[i],
        defs,
        false,
        fuel,
    ) == Some(JsonView::Null) by {
        lemma_definitions_are_enough(arms[i], defs);
    }
    assert(placeholder(arms[k], defs, false, fuel) is None);
    lemma_viable_stops(arms, defs, fuel, k);
    assert(placeholder(whole, defs, false, fuel) == object_placeholder(o, defs, false, fuel));
}

proof fn lemma_viable_stops(arms: Seq<Schema>, defs: Defs, fuel: nat, k: int)
    requires
        0 <= k < arms.len(),
        forall|i: int|
            0 <= i < k ==> placeholder(#[trigger] arms[i], defs, false, fuel) == Some(
                JsonView::Null,
            ),
        placeholder(arms[k], defs, false, fuel) is None,
    ensures
        first_viable(arms, defs, false, fuel) is None,
    decreases arms.len(),
{
    let init = arms.drop_last();
    if k < init.len() {
        assert(init[k] == arms[k]);
        lemma_viable_stops(init, defs, fuel, k);
    } else {
        assert forall|i: int| 0 <= i < init.len() implies placeholder(
            #[trigger] init[i],
            defs,
            false,
            fuel,
        ) == Some(JsonView::Null) by {
            assert(arms[i] == init[i]);
        }
        lemma_viable_none(init, defs, fuel);
    }
}

/// An `anyOf` without a viable arm counts for nothing: what stands beside it decides.
pub proof fn lemma_any_of_without_viable_arm(o: SchemaObject, p: SchemaObject, defs: Defs)
    requires
        o.reference is None,
        o.subschemas matches Some(sub) && (sub.any_of matches Some(v) && forall|i: int|
            0 <= i < v@.len() ==> generates(#[trigger] v@[i], defs) && generated(v@[i], defs)
                == JsonView::Null),
        p.subschemas matches Some(sub) && sub.any_of is None && sub.one_of
            == o.subschemas->0.one_of && sub.all_of == o.subschemas->0.all_of,
        p == (SchemaObject { subschemas: p.subschemas, ..o }),
    ensures
        generates(Schema::Object(o), defs) <==> generates(Schema::Object(p), defs),
        generates(Schema::Object(o), defs) ==> generated(Schema::Object(o), defs) == generated(
            Schema::Object(p),
            defs,
        ),
{
    let a = Schema::Object(o);
    let b = Schema::Object(p);
    let arms = o.subschemas->0.any_of->0@;
    let fuel = defs.entries@.len();
    lemma_definitions_are_enough(a, defs);
    lemma_definitions_are_enough(b, defs);
    assert forall|i: int| 0 <= i < arms.len() implies placeholder(
        #[trigger] arms[i],
        defs,
        false,
        fuel,
    ) == Some(JsonView::Null) by {
        lemma_definitions_are_enough(arms[i], defs);
    }
    lemma_viable_none(arms, defs, fuel);
    assert(placeholder(a, defs, false, fuel) == object_placeholder(o, defs, false, fuel));
    assert(placeholder(b, defs, false, fuel) == object_placeholder(p, defs, false, fuel));
    assert(array_placeholder(o, defs, false, fuel) == array_placeholder(p, defs, false, fuel));
    assert(own_placeholder(o, defs, false, fuel) == own_placeholder(p, defs, false, fuel));
}

/// An `allOf` has the placeholder of its first schema, where there is no union beside it.
pub proof fn lemma_all_of_takes_first(o: SchemaObject, all: Seq<Schema>, defs: Defs)
    requires
        o.reference is None,
        o.subschemas matches Some(sub) && sub.any_of is None && (sub.one_of matches Some(v)
            ==> v@.len() == 0) && (sub.all_of matches Some(v) && v@ == all),
        all.len() > 0,
    ensures
        generates(Schema::Object(o), defs) <==> generates(all[0], defs),
        generates(all[0], defs) ==> generated(Schema::Object(o), defs) == generated(all[0], defs),
{
    let whole = Schema::Object(o);
    assert forall|fuel: nat| #[trigger]
        placeholder(whole, defs, false, fuel) == placeholder(all[0], defs, false, fuel) by {
        assert(placeholder(whole, defs, false, fuel) == object_placeholder(o, defs, false, fuel));
    }
    lemma_same_placeholders(whole, all[0], defs);
}

/// Subschemas without any schema count for nothing.
pub proof fn lemma_empty_subschemas(o: SchemaObject, p: SchemaObject, defs: Defs)
    requires
        o.reference is None,
        o.subschemas matches Some(sub) && sub.any_of is None && (sub.one_of matches Some(v)
            ==> v@.len() == 0) && (sub.all_of matches Some(v) ==> v@.len() == 0),
        p == (SchemaObject { subschemas: None, ..o }),
    ensures
        generates(Schema::Object(o), defs) <==> generates(Schema::Object(p), defs),
        generates(Schema::Object(o), defs) ==> generated(Schema::Object(o), defs) == generated(
            Schema::Object(p),
            defs,
        ),
{
    let a = Schema::Object(o);
    let b = Schema::Object(p);
    lemma_by_own(p, defs);
    assert forall|fuel: nat| #[trigger]
        placeholder(a, defs, false, fuel) == placeholder(b, defs, false, fuel) by {
        assert(placeholder(a, defs, false, fuel) == object_placeholder(o, defs, false, fuel));
        assert(array_placeholder(o, defs, false, fuel) == array_placeholder(p, defs, false, fuel));
        assert(own_placeholder(o, defs, false, fuel) == own_placeholder(p, defs, false, fuel));
    }
    lemma_same_placeholders(a, b, defs);
}

} // verus!
