//! Placeholder values for schemas.

use crate::json::{
    items_view, lemma_json_view, members_view, set_member, zero, zero_value, Json, JsonView,
};
use crate::names::{find, lemma_find, NameMap};
use crate::schema::{Defs, InstanceType, ObjectValidation, Schema, SchemaObject, SingleOrVec};
use crate::text::{strip_prefix, without_prefix};
use vstd::prelude::*;

verus! {

/// The definition that the pointer `r` refers to.
pub open spec fn definition(defs: Defs, r: Seq<char>) -> Option<Schema> {
    match without_prefix(r, "#/definitions/"@) {
        Some(name) => defs.at(name),
        None => None,
    }
}

/// What is worked out strictly comes before what is not.
pub open spec fn rank(strict: bool) -> nat {
    if strict {
        0
    } else {
        1
    }
}

/// The placeholder for `s`, where it takes no more than `fuel` nested references
/// to work it out; `None` where it takes more.
///
/// Strictly, each arm of a union is worked out, up to the first viable one. Else, where
/// the first arm of a `oneOf` gives `null`, those of the others that cannot be worked
/// out strictly are not viable.
pub open spec fn placeholder(s: Schema, defs: Defs, strict: bool, fuel: nat) -> Option<JsonView>
    decreases rank(strict), fuel, s, 0int,
{
    match s {
        Schema::Bool(_) => Some(JsonView::Null),
        Schema::Object(o) => object_placeholder(o, defs, strict, fuel),
    }
}

/// The placeholder for a schema object: that of the definition it refers to, of
/// the first viable arm of its `anyOf` or `oneOf`, of the first arm of its
/// `allOf`, or else its own.
pub open spec fn object_placeholder(
    o: SchemaObject,
    defs: Defs,
    strict: bool,
    fuel: nat,
) -> Option<JsonView>
    decreases rank(strict), fuel, o, 2int,
{
    if o.reference is Some {
        match definition(defs, o.reference->0@) {
            Some(s) => if fuel == 0 {
                None
            } else {
                placeholder(s, defs, strict, (fuel - 1) as nat)
            },
            None => Some(JsonView::Null),
        }
    } else if o.subschemas is Some {
        let sub = o.subschemas->0;
        let any = if sub.any_of is Some {
            first_viable(sub.any_of->0@, defs, strict, fuel)
        } else {
            Some(None)
        };
        match any {
            None => None,
            Some(Some(v)) => Some(v),
            Some(None) => if sub.one_of is Some && sub.one_of->0@.len() > 0 {
                let arms = sub.one_of->0@;
                if strict {
                    match first_viable(arms, defs, strict, fuel) {
                        None => None,
                        Some(v) => Some(or_null(v)),
                    }
                } else {
                    match placeholder(arms[0], defs, strict, fuel) {
                        None => None,
                        Some(JsonView::Null) => Some(or_null(first_settled(arms, defs))),
                        Some(v) => Some(v),
                    }
                }
            } else if sub.all_of is Some && sub.all_of->0@.len() > 0 {
                placeholder(sub.all_of->0@[0], defs, strict, fuel)
            } else {
                own_placeholder(o, defs, strict, fuel)
            },
        }
    } else {
        own_placeholder(o, defs, strict, fuel)
    }
}

/// The placeholder that a schema object has by its own keywords: the first value
/// of its `enum`, else the empty value of its type, with the required members of
/// an object and the items of an array filled in.
pub open spec fn own_placeholder(
    o: SchemaObject,
    defs: Defs,
    strict: bool,
    fuel: nat,
) -> Option<JsonView>
    decreases rank(strict), fuel, o, 1int,
{
    if o.enum_values is Some && o.enum_values->0@.len() > 0 {
        Some(o.enum_values->0@[0]@)
    } else {
        match o.instance_type {
            Some(SingleOrVec::Single(t)) => match *t {
                InstanceType::Null => Some(JsonView::Null),
                InstanceType::Boolean => Some(JsonView::Bool(false)),
                InstanceType::Number => Some(zero()),
                InstanceType::Integer => Some(zero()),
                InstanceType::String => Some(JsonView::String(Seq::empty())),
                InstanceType::Array => array_placeholder(o, defs, strict, fuel),
                InstanceType::Object => match o.object {
                    None => Some(JsonView::Object(Map::empty())),
                    Some(ov) => match required_members(
                        ov.properties.entries@,
                        ov.required@,
                        defs,
                        strict,
                        fuel,
                    ) {
                        None => None,
                        Some(m) => Some(JsonView::Object(m)),
                    },
                },
            },
            _ => Some(JsonView::Null),
        }
    }
}

/// The placeholder for an array: a list with one placeholder for each schema of
/// its items.
pub open spec fn array_placeholder(
    o: SchemaObject,
    defs: Defs,
    strict: bool,
    fuel: nat,
) -> Option<JsonView>
    decreases rank(strict), fuel, o, 0int,
{
    match o.array {
        None => Some(JsonView::Array(Seq::empty())),
        Some(av) => match av.items {
            None => Some(JsonView::Array(Seq::empty())),
            Some(SingleOrVec::Single(s)) => match placeholder(*s, defs, strict, fuel) {
                None => None,
                Some(v) => Some(JsonView::Array(seq![v])),
            },
            Some(SingleOrVec::Vec(v)) => match all_placeholders(v@, defs, strict, fuel) {
                None => None,
                Some(items) => Some(JsonView::Array(items)),
            },
        },
    }
}

/// The placeholder of the first of `arms` whose placeholder is not `null`;
/// `Some(None)` where there is no such arm.
pub open spec fn first_viable(arms: Seq<Schema>, defs: Defs, strict: bool, fuel: nat) -> Option<
    Option<JsonView>,
>
    decreases rank(strict), fuel, arms, 0int,
{
    if arms.len() == 0 {
        Some(None)
    } else {
        match first_viable(arms.drop_last(), defs, strict, fuel) {
            None => None,
            Some(Some(v)) => Some(Some(v)),
            Some(None) => match placeholder(arms.last(), defs, strict, fuel) {
                None => None,
                Some(JsonView::Null) => Some(None),
                Some(v) => Some(Some(v)),
            },
        }
    }
}

/// The value of a viable arm; `null` where there is no such arm.
pub open spec fn or_null(v: Option<JsonView>) -> JsonView {
    match v {
        Some(x) => x,
        None => JsonView::Null,
    }
}

/// The placeholder of the first of `arms` that can be worked out strictly, and is not
/// `null`.
pub open spec fn first_settled(arms: Seq<Schema>, defs: Defs) -> Option<JsonView>
    decreases 0nat, defs.entries@.len(), arms, 0int,
{
    if arms.len() == 0 {
        None
    } else {
        match first_settled(arms.drop_last(), defs) {
            Some(v) => Some(v),
            None => match placeholder(arms.last(), defs, true, defs.entries@.len()) {
                None => None,
                Some(JsonView::Null) => None,
                Some(v) => Some(v),
            },
        }
    }
}

/// The placeholders of `schemas`, in order.
pub open spec fn all_placeholders(
    schemas: Seq<Schema>,
    defs: Defs,
    strict: bool,
    fuel: nat,
) -> Option<
    Seq<JsonView>,
>
    decreases rank(strict), fuel, schemas, 0int,
{
    if schemas.len() == 0 {
        Some(Seq::empty())
    } else {
        match all_placeholders(schemas.drop_last(), defs, strict, fuel) {
            None => None,
            Some(init) => match placeholder(schemas.last(), defs, strict, fuel) {
                None => None,
                Some(v) => Some(init.push(v)),
            },
        }
    }
}

/// The placeholders of those of `props` that are required, by name.
pub open spec fn required_members(
    props: Seq<(String, Schema)>,
    required: Set<Seq<char>>,
    defs: Defs,
    strict: bool,
    fuel: nat,
) -> Option<Map<Seq<char>, JsonView>>
    decreases rank(strict), fuel, props, 0int,
{
    if props.len() == 0 {
        Some(Map::empty())
    } else {
        match required_members(props.drop_last(), required, defs, strict, fuel) {
            None => None,
            Some(init) => if required.contains(props.last().0@) {
                match placeholder(props.last().1, defs, strict, fuel) {
                    None => None,
                    Some(v) => Some(init.insert(props.last().0@, v)),
                }
            } else {
                Some(init)
            },
        }
    }
}

/// More fuel changes nothing where there is enough.
pub proof fn lemma_more_placeholder(s: Schema, defs: Defs, strict: bool, fuel: nat)
    ensures
        placeholder(s, defs, strict, fuel) is Some ==> placeholder(s, defs, strict, fuel + 1)
            == placeholder(s, defs, strict, fuel),
    decreases rank(strict), fuel, s, 0int,
{
    if let Schema::Object(o) = s {
        lemma_more_object_placeholder(o, defs, strict, fuel);
    }
}

proof fn lemma_more_object_placeholder(o: SchemaObject, defs: Defs, strict: bool, fuel: nat)
    ensures
        object_placeholder(o, defs, strict, fuel) is Some ==> object_placeholder(
            o,
            defs,
            strict,
            fuel + 1,
        ) == object_placeholder(o, defs, strict, fuel),
    decreases rank(strict), fuel, o, 2int,
{
    if o.reference is Some {
        if let Some(s) = definition(defs, o.reference->0@) {
            if fuel > 0 {
                lemma_more_placeholder(s, defs, strict, (fuel - 1) as nat);
            }
        }
    } else if o.subschemas is Some {
        let sub = o.subschemas->0;
        if sub.any_of is Some {
            lemma_more_first_viable(sub.any_of->0@, defs, strict, fuel);
        }
        if sub.one_of is Some && sub.one_of->0@.len() > 0 {
            lemma_more_first_viable(sub.one_of->0@, defs, strict, fuel);
            lemma_more_placeholder(sub.one_of->0@[0], defs, strict, fuel);
        } else if sub.all_of is Some && sub.all_of->0@.len() > 0 {
            lemma_more_placeholder(sub.all_of->0@[0], defs, strict, fuel);
        } else {
            lemma_more_own_placeholder(o, defs, strict, fuel);
        }
    } else {
        lemma_more_own_placeholder(o, defs, strict, fuel);
    }
}

proof fn lemma_more_own_placeholder(o: SchemaObject, defs: Defs, strict: bool, fuel: nat)
    ensures
        own_placeholder(o, defs, strict, fuel) is Some ==> own_placeholder(
            o,
            defs,
            strict,
            fuel + 1,
        ) == own_placeholder(o, defs, strict, fuel),
    decreases rank(strict), fuel, o, 1int,
{
    if let Some(SingleOrVec::Single(t)) = o.instance_type {
        if *t is Array {
            lemma_more_array_placeholder(o, defs, strict, fuel);
        } else if *t is Object && o.object is Some {
            lemma_more_required_members(
                o.object->0.properties.entries@,
                o.object->0.required@,
                defs,
                strict,
                fuel,
            );
        }
    }
}

proof fn lemma_more_array_placeholder(o: SchemaObject, defs: Defs, strict: bool, fuel: nat)
    ensures
        array_placeholder(o, defs, strict, fuel) is Some ==> array_placeholder(
            o,
            defs,
            strict,
            fuel + 1,
        ) == array_placeholder(o, defs, strict, fuel),
    decreases rank(strict), fuel, o, 0int,
{
    if o.array is Some {
        match o.array->0.items {
            Some(SingleOrVec::Single(s)) => lemma_more_placeholder(*s, defs, strict, fuel),
            Some(SingleOrVec::Vec(v)) => lemma_more_all_placeholders(v@, defs, strict, fuel),
            None => {},
        }
    }
}

proof fn lemma_more_first_viable(arms: Seq<Schema>, defs: Defs, strict: bool, fuel: nat)
    ensures
        first_viable(arms, defs, strict, fuel) is Some ==> first_viable(
            arms,
            defs,
            strict,
            fuel + 1,
        ) == first_viable(arms, defs, strict, fuel),
    decreases rank(strict), fuel, arms, 0int,
{
    if arms.len() > 0 {
        lemma_more_first_viable(arms.drop_last(), defs, strict, fuel);
        lemma_more_placeholder(arms.last(), defs, strict, fuel);
    }
}

proof fn lemma_more_all_placeholders(schemas: Seq<Schema>, defs: Defs, strict: bool, fuel: nat)
    ensures
        all_placeholders(schemas, defs, strict, fuel) is Some ==> all_placeholders(
            schemas,
            defs,
            strict,
            fuel + 1,
        ) == all_placeholders(schemas, defs, strict, fuel),
    decreases rank(strict), fuel, schemas, 0int,
{
    if schemas.len() > 0 {
        lemma_more_all_placeholders(schemas.drop_last(), defs, strict, fuel);
        lemma_more_placeholder(schemas.last(), defs, strict, fuel);
    }
}

proof fn lemma_more_required_members(
    props: Seq<(String, Schema)>,
    required: Set<Seq<char>>,
    defs: Defs,
    strict: bool,
    fuel: nat,
)
    ensures
        required_members(props, required, defs, strict, fuel) is Some ==> required_members(
            props,
            required,
            defs,
            strict,
            fuel + 1,
        ) == required_members(props, required, defs, strict, fuel),
    decreases rank(strict), fuel, props, 0int,
{
    if props.len() > 0 {
        lemma_more_required_members(props.drop_last(), required, defs, strict, fuel);
        lemma_more_placeholder(props.last().1, defs, strict, fuel);
    }
}

/// Working out the placeholder of `s` takes exactly `n` nested references.
pub open spec fn takes(s: Schema, defs: Defs, strict: bool, n: nat) -> bool {
    placeholder(s, defs, strict, n) is Some && (n == 0 || placeholder(
        s,
        defs,
        strict,
        (n - 1) as nat,
    ) is None)
}

/// The placeholder of some definition takes exactly `n` nested references.
spec fn definition_takes(defs: Defs, strict: bool, n: nat) -> bool {
    exists|i: int|
        0 <= i < defs.entries@.len() && #[trigger] takes(defs.entries@[i].1, defs, strict, n)
}

/// Something can be worked out with what there is now, and could not with what there was
/// before.
spec fn just_enough<T>(now: Option<T>, before: Option<T>) -> bool {
    now is Some && before is None
}

/// What takes `fuel` references, and one at least, leads to a definition that
/// takes one less.
proof fn lemma_leads_placeholder(s: Schema, defs: Defs, strict: bool, fuel: nat)
    ensures
        fuel > 0 && just_enough(
            placeholder(s, defs, strict, fuel),
            placeholder(s, defs, strict, (fuel - 1) as nat),
        ) ==> definition_takes(defs, strict, (fuel - 1) as nat),
    decreases rank(strict), fuel, s, 0int,
{
    if fuel > 0 && just_enough(
        placeholder(s, defs, strict, fuel),
        placeholder(s, defs, strict, (fuel - 1) as nat),
    ) {
        if let Schema::Object(o) = s {
            lemma_leads_object_placeholder(o, defs, strict, fuel);
        }
    }
}

proof fn lemma_leads_object_placeholder(o: SchemaObject, defs: Defs, strict: bool, fuel: nat)
    ensures
        fuel > 0 && just_enough(
            object_placeholder(o, defs, strict, fuel),
            object_placeholder(o, defs, strict, (fuel - 1) as nat),
        ) ==> definition_takes(defs, strict, (fuel - 1) as nat),
    decreases rank(strict), fuel, o, 2int,
{
    if fuel > 0 && just_enough(
        object_placeholder(o, defs, strict, fuel),
        object_placeholder(o, defs, strict, (fuel - 1) as nat),
    ) {
        if o.reference is Some {
            if let Some(s) = definition(defs, o.reference->0@) {
                let name = without_prefix(o.reference->0@, "#/definitions/"@)->0;
                lemma_find(defs.entries@, name);
                let i = find(defs.entries@, name)->0;
                assert(takes(defs.entries@[i].1, defs, strict, (fuel - 1) as nat));
            }
        } else if o.subschemas is Some {
            let sub = o.subschemas->0;
            if sub.any_of is Some {
                lemma_more_first_viable(sub.any_of->0@, defs, strict, (fuel - 1) as nat);
                lemma_leads_first_viable(sub.any_of->0@, defs, strict, fuel);
            }
            if sub.one_of is Some && sub.one_of->0@.len() > 0 {
                lemma_leads_first_viable(sub.one_of->0@, defs, strict, fuel);
                lemma_leads_placeholder(sub.one_of->0@[0], defs, strict, fuel);
            } else if sub.all_of is Some && sub.all_of->0@.len() > 0 {
                lemma_leads_placeholder(sub.all_of->0@[0], defs, strict, fuel);
            } else {
                lemma_leads_own_placeholder(o, defs, strict, fuel);
            }
        } else {
            lemma_leads_own_placeholder(o, defs, strict, fuel);
        }
    }
}

proof fn lemma_leads_own_placeholder(o: SchemaObject, defs: Defs, strict: bool, fuel: nat)
    ensures
        fuel > 0 && just_enough(
            own_placeholder(o, defs, strict, fuel),
            own_placeholder(o, defs, strict, (fuel - 1) as nat),
        ) ==> definition_takes(defs, strict, (fuel - 1) as nat),
    decreases rank(strict), fuel, o, 1int,
{
    if fuel > 0 && just_enough(
        own_placeholder(o, defs, strict, fuel),
        own_placeholder(o, defs, strict, (fuel - 1) as nat),
    ) {
        if let Some(SingleOrVec::Single(t)) = o.instance_type {
            if *t is Array {
                lemma_leads_array_placeholder(o, defs, strict, fuel);
            } else if *t is Object && o.object is Some {
                lemma_leads_required_members(
                    o.object->0.properties.entries@,
                    o.object->0.required@,
                    defs,
                    strict,
                    fuel,
                );
            }
        }
    }
}

proof fn lemma_leads_array_placeholder(o: SchemaObject, defs: Defs, strict: bool, fuel: nat)
    ensures
        fuel > 0 && just_enough(
            array_placeholder(o, defs, strict, fuel),
            array_placeholder(o, defs, strict, (fuel - 1) as nat),
        ) ==> definition_takes(defs, strict, (fuel - 1) as nat),
    decreases rank(strict), fuel, o, 0int,
{
    if fuel > 0 && just_enough(
        array_placeholder(o, defs, strict, fuel),
        array_placeholder(o, defs, strict, (fuel - 1) as nat),
    ) {
        if o.array is Some {
            match o.array->0.items {
                Some(SingleOrVec::Single(s)) => lemma_leads_placeholder(*s, defs, strict, fuel),
                Some(SingleOrVec::Vec(v)) => lemma_leads_all_placeholders(v@, defs, strict, fuel),
                None => {},
            }
        }
    }
}

proof fn lemma_leads_first_viable(arms: Seq<Schema>, defs: Defs, strict: bool, fuel: nat)
    ensures
        fuel > 0 && just_enough(
            first_viable(arms, defs, strict, fuel),
            first_viable(arms, defs, strict, (fuel - 1) as nat),
        ) ==> definition_takes(defs, strict, (fuel - 1) as nat),
    decreases rank(strict), fuel, arms, 0int,
{
    if fuel > 0 && just_enough(
        first_viable(arms, defs, strict, fuel),
        first_viable(arms, defs, strict, (fuel - 1) as nat),
    ) {
        if arms.len() > 0 {
            lemma_more_first_viable(arms.drop_last(), defs, strict, (fuel - 1) as nat);
            lemma_leads_first_viable(arms.drop_last(), defs, strict, fuel);
            lemma_leads_placeholder(arms.last(), defs, strict, fuel);
        }
    }
}

proof fn lemma_leads_all_placeholders(schemas: Seq<Schema>, defs: Defs, strict: bool, fuel: nat)
    ensures
        fuel > 0 && just_enough(
            all_placeholders(schemas, defs, strict, fuel),
            all_placeholders(schemas, defs, strict, (fuel - 1) as nat),
        ) ==> definition_takes(defs, strict, (fuel - 1) as nat),
    decreases rank(strict), fuel, schemas, 0int,
{
    if fuel > 0 && just_enough(
        all_placeholders(schemas, defs, strict, fuel),
        all_placeholders(schemas, defs, strict, (fuel - 1) as nat),
    ) {
        if schemas.len() > 0 {
            lemma_more_all_placeholders(schemas.drop_last(), defs, strict, (fuel - 1) as nat);
            lemma_leads_all_placeholders(schemas.drop_last(), defs, strict, fuel);
            lemma_leads_placeholder(schemas.last(), defs, strict, fuel);
        }
    }
}

proof fn lemma_leads_required_members(
    props: Seq<(String, Schema)>,
    required: Set<Seq<char>>,
    defs: Defs,
    strict: bool,
    fuel: nat,
)
    ensures
        fuel > 0 && just_enough(
            required_members(props, required, defs, strict, fuel),
            required_members(props, required, defs, strict, (fuel - 1) as nat),
        ) ==> definition_takes(defs, strict, (fuel - 1) as nat),
    decreases rank(strict), fuel, props, 0int,
{
    if fuel > 0 && just_enough(
        required_members(props, required, defs, strict, fuel),
        required_members(props, required, defs, strict, (fuel - 1) as nat),
    ) {
        if props.len() > 0 {
            lemma_more_required_members(
                props.drop_last(),
                required,
                defs,
                strict,
                (fuel - 1) as nat,
            );
            lemma_leads_required_members(props.drop_last(), required, defs, strict, fuel);
            lemma_leads_placeholder(props.last().1, defs, strict, fuel);
        }
    }
}

/// Any amount of fuel that is enough gives the same placeholder.
proof fn lemma_fuel_agrees(s: Schema, defs: Defs, strict: bool, low: nat, high: nat)
    requires
        low <= high,
        placeholder(s, defs, strict, low) is Some,
    ensures
        placeholder(s, defs, strict, high) == placeholder(s, defs, strict, low),
    decreases high,
{
    if low < high {
        lemma_fuel_agrees(s, defs, strict, low, (high - 1) as nat);
        lemma_more_placeholder(s, defs, strict, (high - 1) as nat);
    }
}

/// A placeholder that `fuel` references are enough for takes some number of them
/// exactly.
proof fn lemma_takes_some(s: Schema, defs: Defs, strict: bool, fuel: nat) -> (n: nat)
    requires
        placeholder(s, defs, strict, fuel) is Some,
    ensures
        n <= fuel,
        takes(s, defs, strict, n),
    decreases fuel,
{
    if fuel == 0 || placeholder(s, defs, strict, (fuel - 1) as nat) is None {
        fuel
    } else {
        lemma_takes_some(s, defs, strict, (fuel - 1) as nat)
    }
}

/// Where a definition takes `n` references, others take each smaller number.
proof fn lemma_each_below(defs: Defs, strict: bool, n: nat, k: nat)
    requires
        definition_takes(defs, strict, n),
        k <= n,
    ensures
        definition_takes(defs, strict, k),
    decreases n,
{
    if k < n {
        let i = choose|i: int|
            0 <= i < defs.entries@.len() && #[trigger] takes(defs.entries@[i].1, defs, strict, n);
        lemma_leads_placeholder(defs.entries@[i].1, defs, strict, n);
        lemma_each_below(defs, strict, (n - 1) as nat, k);
    }
}

/// The position of a definition that takes exactly `n` references.
spec fn taker(defs: Defs, strict: bool, n: nat) -> int {
    choose|i: int|
        0 <= i < defs.entries@.len() && #[trigger] takes(defs.entries@[i].1, defs, strict, n)
}

/// No placeholder takes more nested references than there are definitions: those
/// on the way all take different numbers of them.
proof fn lemma_at_most_definitions(s: Schema, defs: Defs, strict: bool, n: nat)
    requires
        takes(s, defs, strict, n),
    ensures
        n <= defs.entries@.len(),
{
    if n > 0 {
        lemma_leads_placeholder(s, defs, strict, n);
        let m = defs.entries@.len() as int;
        let at = Seq::new(n, |k: int| taker(defs, strict, k as nat));
        assert forall|k: int| 0 <= k < n implies 0 <= #[trigger] at[k] < m && takes(
            defs.entries@[at[k]].1,
            defs,
            strict,
            k as nat,
        ) by {
            lemma_each_below(defs, strict, (n - 1) as nat, k as nat);
        }
        assert forall|j: int, k: int| 0 <= j < k < n implies at[j] != at[k] by {
            if at[j] == at[k] {
                let d = defs.entries@[at[j]].1;
                assert(takes(defs.entries@[at[k]].1, defs, strict, k as nat));
                lemma_fuel_agrees(d, defs, strict, j as nat, (k - 1) as nat);
            }
        }
        assert(at.no_duplicates()) by {
            assert forall|j: int, k: int|
                0 <= j < at.len() && 0 <= k < at.len() && j != k implies at[j] != at[k] by {
                if j < k {
                    assert(at[j] != at[k]);
                } else {
                    assert(at[k] != at[j]);
                }
            }
        }
        at.unique_seq_to_set();
        vstd::set_lib::lemma_int_range(0, m);
        assert(at.to_set().subset_of(vstd::set_lib::set_int_range(0, m)));
        vstd::set_lib::lemma_len_subset(at.to_set(), vstd::set_lib::set_int_range(0, m));
    }
}

/// The placeholder of `s` can be worked out: following the references on the way
/// comes to an end.
pub open spec fn generates(s: Schema, defs: Defs) -> bool {
    exists|fuel: nat| #[trigger] placeholder(s, defs, false, fuel) is Some
}

/// The placeholder of `s`.
pub open spec fn generated(s: Schema, defs: Defs) -> JsonView {
    placeholder(s, defs, false, defs.entries@.len())->0
}

/// The placeholder of `s` can be worked out strictly.
pub open spec fn settles(s: Schema, defs: Defs) -> bool {
    exists|fuel: nat| #[trigger] placeholder(s, defs, true, fuel) is Some
}

/// What can be worked out at all takes no more nested references than there are
/// definitions.
proof fn lemma_enough(s: Schema, defs: Defs, strict: bool, fuel: nat)
    requires
        placeholder(s, defs, strict, fuel) is Some,
    ensures
        placeholder(s, defs, strict, defs.entries@.len()) == placeholder(s, defs, strict, fuel),
{
    let all = defs.entries@.len();
    let n = lemma_takes_some(s, defs, strict, fuel);
    lemma_at_most_definitions(s, defs, strict, n);
    lemma_fuel_agrees(s, defs, strict, n, all);
    lemma_fuel_agrees(s, defs, strict, n, fuel);
}

/// A placeholder can be worked out at all only if it takes no more nested
/// references than there are definitions, and is the same however it is worked
/// out.
pub proof fn lemma_definitions_are_enough(s: Schema, defs: Defs)
    ensures
        generates(s, defs) <==> placeholder(s, defs, false, defs.entries@.len()) is Some,
        settles(s, defs) <==> placeholder(s, defs, true, defs.entries@.len()) is Some,
        forall|fuel: nat| #[trigger]
            placeholder(s, defs, false, fuel) is Some ==> placeholder(s, defs, false, fuel) == Some(
                generated(s, defs),
            ),
{
    assert forall|fuel: nat, strict: bool| #[trigger]
        placeholder(s, defs, strict, fuel) is Some implies placeholder(
        s,
        defs,
        strict,
        defs.entries@.len(),
    ) == placeholder(s, defs, strict, fuel) by {
        lemma_enough(s, defs, strict, fuel);
    }
}

/// What can be worked out strictly is the placeholder.
pub proof fn lemma_settled_is_generated(s: Schema, defs: Defs)
    requires
        settles(s, defs),
    ensures
        generates(s, defs),
        placeholder(s, defs, true, defs.entries@.len()) == Some(generated(s, defs)),
{
    let fuel = defs.entries@.len();
    lemma_definitions_are_enough(s, defs);
    lemma_strict_placeholder(s, defs, fuel);
    assert(placeholder(s, defs, false, fuel) is Some);
}

/// What can be worked out strictly is the same otherwise.
proof fn lemma_strict_placeholder(s: Schema, defs: Defs, fuel: nat)
    ensures
        placeholder(s, defs, true, fuel) is Some ==> placeholder(s, defs, false, fuel)
            == placeholder(s, defs, true, fuel),
    decreases fuel, s, 0int,
{
    if let Schema::Object(o) = s {
        lemma_strict_object_placeholder(o, defs, fuel);
    }
}

proof fn lemma_strict_object_placeholder(o: SchemaObject, defs: Defs, fuel: nat)
    ensures
        object_placeholder(o, defs, true, fuel) is Some ==> object_placeholder(o, defs, false, fuel)
            == object_placeholder(o, defs, true, fuel),
    decreases fuel, o, 2int,
{
    if o.reference is Some {
        if let Some(s) = definition(defs, o.reference->0@) {
            if fuel > 0 {
                lemma_strict_placeholder(s, defs, (fuel - 1) as nat);
            }
        }
    } else if o.subschemas is Some {
        let sub = o.subschemas->0;
        if sub.any_of is Some {
            lemma_strict_first_viable(sub.any_of->0@, defs, fuel);
        }
        if sub.one_of is Some && sub.one_of->0@.len() > 0 {
            let arms = sub.one_of->0@;
            lemma_strict_placeholder(arms[0], defs, fuel);
            lemma_first_decides(arms, defs, fuel);
            lemma_viable_is_settled(arms, defs, fuel);
        } else if sub.all_of is Some && sub.all_of->0@.len() > 0 {
            lemma_strict_placeholder(sub.all_of->0@[0], defs, fuel);
        } else {
            lemma_strict_own_placeholder(o, defs, fuel);
        }
    } else {
        lemma_strict_own_placeholder(o, defs, fuel);
    }
}

/// Where a viable arm is found strictly, the first arm was worked out, and is that one
/// where it is not `null`.
proof fn lemma_first_decides(arms: Seq<Schema>, defs: Defs, fuel: nat)
    requires
        arms.len() > 0,
    ensures
        first_viable(arms, defs, true, fuel) is Some ==> (placeholder(
            arms[0],
            defs,
            true,
            fuel,
        ) matches Some(v) && (v != JsonView::Null ==> first_viable(arms, defs, true, fuel) == Some(
            Some(v),
        ))),
    decreases arms.len(),
{
    let init = arms.drop_last();
    if init.len() > 0 {
        lemma_first_decides(init, defs, fuel);
    } else {
        reveal_with_fuel(first_viable, 2);
        assert(arms.last() == arms[0]);
    }
}

/// A viable arm that is found strictly is the first that is worked out strictly.
proof fn lemma_viable_is_settled(arms: Seq<Schema>, defs: Defs, fuel: nat)
    ensures
        first_viable(arms, defs, true, fuel) matches Some(v) ==> first_settled(arms, defs) == v,
    decreases arms.len(),
{
    if arms.len() > 0 {
        lemma_viable_is_settled(arms.drop_last(), defs, fuel);
        if placeholder(arms.last(), defs, true, fuel) is Some {
            lemma_enough(arms.last(), defs, true, fuel);
        }
    }
}

proof fn lemma_strict_own_placeholder(o: SchemaObject, defs: Defs, fuel: nat)
    ensures
        own_placeholder(o, defs, true, fuel) is Some ==> own_placeholder(o, defs, false, fuel)
            == own_placeholder(o, defs, true, fuel),
    decreases fuel, o, 1int,
{
    if let Some(SingleOrVec::Single(t)) = o.instance_type {
        if *t is Array {
            lemma_strict_array_placeholder(o, defs, fuel);
        } else if *t is Object && o.object is Some {
            lemma_strict_required_members(
                o.object->0.properties.entries@,
                o.object->0.required@,
                defs,
                fuel,
            );
        }
    }
}

proof fn lemma_strict_array_placeholder(o: SchemaObject, defs: Defs, fuel: nat)
    ensures
        array_placeholder(o, defs, true, fuel) is Some ==> array_placeholder(o, defs, false, fuel)
            == array_placeholder(o, defs, true, fuel),
    decreases fuel, o, 0int,
{
    if o.array is Some {
        match o.array->0.items {
            Some(SingleOrVec::Single(s)) => lemma_strict_placeholder(*s, defs, fuel),
            Some(SingleOrVec::Vec(v)) => lemma_strict_all_placeholders(v@, defs, fuel),
            None => {},
        }
    }
}

proof fn lemma_strict_first_viable(arms: Seq<Schema>, defs: Defs, fuel: nat)
    ensures
        first_viable(arms, defs, true, fuel) is Some ==> first_viable(arms, defs, false, fuel)
            == first_viable(arms, defs, true, fuel),
    decreases fuel, arms, 0int,
{
    if arms.len() > 0 {
        lemma_strict_first_viable(arms.drop_last(), defs, fuel);
        lemma_strict_placeholder(arms.last(), defs, fuel);
    }
}

proof fn lemma_strict_all_placeholders(schemas: Seq<Schema>, defs: Defs, fuel: nat)
    ensures
        all_placeholders(schemas, defs, true, fuel) is Some ==> all_placeholders(
            schemas,
            defs,
            false,
            fuel,
        ) == all_placeholders(schemas, defs, true, fuel),
    decreases fuel, schemas, 0int,
{
    if schemas.len() > 0 {
        lemma_strict_all_placeholders(schemas.drop_last(), defs, fuel);
        lemma_strict_placeholder(schemas.last(), defs, fuel);
    }
}

proof fn lemma_strict_required_members(
    props: Seq<(String, Schema)>,
    required: Set<Seq<char>>,
    defs: Defs,
    fuel: nat,
)
    ensures
        required_members(props, required, defs, true, fuel) is Some ==> required_members(
            props,
            required,
            defs,
            false,
            fuel,
        ) == required_members(props, required, defs, true, fuel),
    decreases fuel, props, 0int,
{
    if props.len() > 0 {
        lemma_strict_required_members(props.drop_last(), required, defs, fuel);
        lemma_strict_placeholder(props.last().1, defs, fuel);
    }
}

/// The placeholder of `schema`, worked out with at most `budget` nested
/// references.
fn value_within(
    schema: &Schema,
    definitions: &Defs,
    strict: bool,
    budget: usize,
) -> (r: Option<Json>)
    ensures
        match r {
            Some(v) => placeholder(*schema, *definitions, strict, budget as nat) == Some(v@),
            None => placeholder(*schema, *definitions, strict, budget as nat) is None,
        },
    decreases rank(strict), budget, *schema, 0int,
{
    match schema {
        Schema::Bool(_) => Some(Json::Null),
        Schema::Object(o) => object_within(o, definitions, strict, budget),
    }
}

fn object_within(
    schema: &SchemaObject,
    definitions: &Defs,
    strict: bool,
    budget: usize,
) -> (r: Option<Json>)
    ensures
        match r {
            Some(v) => object_placeholder(*schema, *definitions, strict, budget as nat) == Some(v@),
            None => object_placeholder(*schema, *definitions, strict, budget as nat) is None,
        },
    decreases rank(strict), budget, *schema, 2int,
{
    if let Some(reference) = &schema.reference {
        if let Some(def_name) = strip_prefix(reference, "#/definitions/") {
            if let Some(def_schema) = definitions.get(&def_name) {
                if budget == 0 {
                    return None;
                }
                return value_within(def_schema, definitions, strict, budget - 1);
            }
        }
        return Some(Json::Null);
    }
    if let Some(sub) = &schema.subschemas {
        if let Some(any_of) = &sub.any_of {
            assert(decreases_to!(*schema => any_of@));
            match viable_within(any_of, definitions, strict, budget) {
                None => return None,
                Some(Some(v)) => return Some(v),
                Some(None) => {},
            }
        }
        if let Some(one_of) = &sub.one_of {
            if one_of.len() > 0 {
                assert(decreases_to!(*schema => one_of@));
                assert(decreases_to!(one_of@ => one_of@[0]));
                if strict {
                    return match viable_within(one_of, definitions, strict, budget) {
                        None => None,
                        Some(Some(v)) => Some(v),
                        Some(None) => Some(Json::Null),
                    };
                }
                return match value_within(&one_of[0], definitions, strict, budget) {
                    None => None,
                    Some(v) => if v.is_null() {
                        match settled_arm(one_of, definitions) {
                            Some(later) => Some(later),
                            None => Some(Json::Null),
                        }
                    } else {
                        Some(v)
                    },
                };
            }
        }
        if let Some(all_of) = &sub.all_of {
            if all_of.len() > 0 {
                assert(decreases_to!(*schema => all_of@));
                assert(decreases_to!(all_of@ => all_of@[0]));
                return value_within(&all_of[0], definitions, strict, budget);
            }
        }
    }
    own_within(schema, definitions, strict, budget)
}

fn own_within(
    schema: &SchemaObject,
    definitions: &Defs,
    strict: bool,
    budget: usize,
) -> (r: Option<Json>)
    ensures
        match r {
            Some(v) => own_placeholder(*schema, *definitions, strict, budget as nat) == Some(v@),
            None => own_placeholder(*schema, *definitions, strict, budget as nat) is None,
        },
    decreases rank(strict), budget, *schema, 1int,
{
    broadcast use lemma_json_view;

    if let Some(enum_values) = &schema.enum_values {
        if enum_values.len() > 0 {
            return Some(enum_values[0].clone());
        }
    }
    match &schema.instance_type {
        Some(SingleOrVec::Single(t)) => match **t {
            InstanceType::Null => Some(Json::Null),
            InstanceType::Boolean => Some(Json::Bool(false)),
            InstanceType::Number => Some(zero_value()),
            InstanceType::Integer => Some(zero_value()),
            InstanceType::String => Some(Json::String(String::new())),
            InstanceType::Array => array_within(schema, definitions, strict, budget),
            InstanceType::Object => match &schema.object {
                None => Some(Json::Object(NameMap::new())),
                Some(ov) => {
                    assert(decreases_to!(*schema => ov.properties.entries@));
                    match members_within(ov, definitions, strict, budget) {
                        None => None,
                        Some(m) => Some(Json::Object(m)),
                    }
                },
            },
        },
        _ => Some(Json::Null),
    }
}

fn array_within(
    schema: &SchemaObject,
    definitions: &Defs,
    strict: bool,
    budget: usize,
) -> (r: Option<Json>)
    ensures
        match r {
            Some(v) => array_placeholder(*schema, *definitions, strict, budget as nat) == Some(v@),
            None => array_placeholder(*schema, *definitions, strict, budget as nat) is None,
        },
    decreases rank(strict), budget, *schema, 0int,
{
    broadcast use lemma_json_view;

    let mut items: Vec<Json> = Vec::new();
    if let Some(av) = &schema.array {
        match &av.items {
            None => {},
            Some(SingleOrVec::Single(s)) => {
                match value_within(s, definitions, strict, budget) {
                    None => return None,
                    Some(v) => {
                        items.push(v);
                        assert(items_view(items@) =~= seq![v@]);
                    },
                }
            },
            Some(SingleOrVec::Vec(v)) => {
                assert(decreases_to!(*schema => v@));
                match values_within(v, definitions, strict, budget) {
                    None => return None,
                    Some(vs) => {
                        items = vs;
                    },
                }
            },
        }
    }
    assert(items@.len() == 0 ==> items_view(items@) =~= Seq::<JsonView>::empty());
    Some(Json::Array(items))
}

fn viable_within(arms: &Vec<Schema>, definitions: &Defs, strict: bool, budget: usize) -> (r: Option<
    Option<Json>,
>)
    ensures
        match r {
            Some(Some(v)) => first_viable(
                arms@,
                *definitions,
                strict,
                budget as nat,
            ) == Some(Some(v@)),
            Some(None) => first_viable(arms@, *definitions, strict, budget as nat) == Some(
                None::<JsonView>,
            ),
            None => first_viable(arms@, *definitions, strict, budget as nat) is None,
        },
    decreases rank(strict), budget, arms@, 0int,
{
    let mut i: usize = 0;
    while i < arms.len()
        invariant
            i <= arms.len(),
            first_viable(arms@.take(i as int), *definitions, strict, budget as nat) == Some(
                None::<JsonView>,
            ),
        decreases arms.len() - i,
    {
        let ghost upto = arms@.take(i + 1);
        assert(upto.drop_last() =~= arms@.take(i as int));
        assert(decreases_to!(arms@ => arms@[i as int]));
        match value_within(&arms[i], definitions, strict, budget) {
            None => {
                proof {
                    lemma_viable_prefix(arms@, i + 1, *definitions, strict, budget as nat);
                }
                return None;
            },
            Some(v) => {
                if !v.is_null() {
                    proof {
                        lemma_viable_prefix(arms@, i + 1, *definitions, strict, budget as nat);
                    }
                    return Some(Some(v));
                }
            },
        }
        i += 1;
    }
    assert(arms@.take(arms.len() as int) =~= arms@);
    Some(None)
}

/// What the first `n` arms decide, all of them decide.
proof fn lemma_viable_prefix(arms: Seq<Schema>, n: int, defs: Defs, strict: bool, fuel: nat)
    requires
        0 <= n <= arms.len(),
        first_viable(arms.take(n), defs, strict, fuel) != Some(None::<JsonView>),
    ensures
        first_viable(arms, defs, strict, fuel) == first_viable(arms.take(n), defs, strict, fuel),
    decreases arms.len(),
{
    if n < arms.len() {
        assert(arms.drop_last().take(n) =~= arms.take(n));
        lemma_viable_prefix(arms.drop_last(), n, defs, strict, fuel);
    } else {
        assert(arms.take(n) =~= arms);
    }
}

/// The placeholder of the first of `arms` that can be worked out strictly, and is not
/// `null`.
fn settled_arm(arms: &Vec<Schema>, definitions: &Defs) -> (r: Option<Json>)
    ensures
        match r {
            Some(v) => first_settled(arms@, *definitions) == Some(v@),
            None => first_settled(arms@, *definitions) is None,
        },
    decreases 0nat, definitions.entries@.len(), arms@, 0int,
{
    let mut i: usize = 0;
    while i < arms.len()
        invariant
            i <= arms.len(),
            first_settled(arms@.take(i as int), *definitions) is None,
        decreases arms.len() - i,
    {
        let ghost upto = arms@.take(i + 1);
        assert(upto.drop_last() =~= arms@.take(i as int));
        assert(decreases_to!(arms@ => arms@[i as int]));
        if let Some(v) = value_within(&arms[i], definitions, true, definitions.entries.len()) {
            if !v.is_null() {
                proof {
                    lemma_settled_prefix(arms@, i + 1, *definitions);
                }
                return Some(v);
            }
        }
        i += 1;
    }
    assert(arms@.take(arms.len() as int) =~= arms@);
    None
}

/// What is settled among the first `n` arms is settled among all of them.
proof fn lemma_settled_prefix(arms: Seq<Schema>, n: int, defs: Defs)
    requires
        0 <= n <= arms.len(),
        first_settled(arms.take(n), defs) is Some,
    ensures
        first_settled(arms, defs) == first_settled(arms.take(n), defs),
    decreases arms.len(),
{
    if n < arms.len() {
        assert(arms.drop_last().take(n) =~= arms.take(n));
        lemma_settled_prefix(arms.drop_last(), n, defs);
    } else {
        assert(arms.take(n) =~= arms);
    }
}

fn values_within(
    schemas: &Vec<Schema>,
    definitions: &Defs,
    strict: bool,
    budget: usize,
) -> (r: Option<
    Vec<Json>,
>)
    ensures
        match r {
            Some(v) => all_placeholders(schemas@, *definitions, strict, budget as nat) == Some(
                items_view(v@),
            ),
            None => all_placeholders(schemas@, *definitions, strict, budget as nat) is None,
        },
    decreases rank(strict), budget, schemas@, 0int,
{
    let mut out: Vec<Json> = Vec::new();
    let mut i: usize = 0;
    assert(items_view(out@) =~= Seq::<JsonView>::empty());
    while i < schemas.len()
        invariant
            i <= schemas.len(),
            all_placeholders(schemas@.take(i as int), *definitions, strict, budget as nat) == Some(
                items_view(out@),
            ),
        decreases schemas.len() - i,
    {
        let ghost upto = schemas@.take(i + 1);
        assert(upto.drop_last() =~= schemas@.take(i as int));
        assert(decreases_to!(schemas@ => schemas@[i as int]));
        match value_within(&schemas[i], definitions, strict, budget) {
            None => {
                proof {
                    lemma_all_prefix(schemas@, i + 1, *definitions, strict, budget as nat);
                }
                return None;
            },
            Some(v) => {
                let ghost before = out@;
                out.push(v);
                assert(items_view(out@) =~= items_view(before).push(v@));
            },
        }
        i += 1;
    }
    assert(schemas@.take(schemas.len() as int) =~= schemas@);
    Some(out)
}

proof fn lemma_all_prefix(schemas: Seq<Schema>, n: int, defs: Defs, strict: bool, fuel: nat)
    requires
        0 <= n <= schemas.len(),
        all_placeholders(schemas.take(n), defs, strict, fuel) is None,
    ensures
        all_placeholders(schemas, defs, strict, fuel) is None,
    decreases schemas.len(),
{
    if n < schemas.len() {
        assert(schemas.drop_last().take(n) =~= schemas.take(n));
        lemma_all_prefix(schemas.drop_last(), n, defs, strict, fuel);
    } else {
        assert(schemas.take(n) =~= schemas);
    }
}

fn members_within(
    ov: &ObjectValidation,
    definitions: &Defs,
    strict: bool,
    budget: usize,
) -> (r: Option<
    NameMap<Json>,
>)
    ensures
        match r {
            Some(m) => m.wf() && required_members(
                ov.properties.entries@,
                ov.required@,
                *definitions,
                strict,
                budget as nat,
            ) == Some(members_view(m.entries@)),
            None => required_members(
                ov.properties.entries@,
                ov.required@,
                *definitions,
                strict,
                budget as nat,
            ) is None,
        },
    decreases rank(strict), budget, ov.properties.entries@, 0int,
{
    let props = &ov.properties.entries;
    let mut map: NameMap<Json> = NameMap::new();
    let mut i: usize = 0;
    while i < props.len()
        invariant
            props == ov.properties.entries,
            i <= props.len(),
            map.wf(),
            required_members(
                props@.take(i as int),
                ov.required@,
                *definitions,
                strict,
                budget as nat,
            ) == Some(members_view(map.entries@)),
        decreases props.len() - i,
    {
        let ghost upto = props@.take(i + 1);
        assert(upto.drop_last() =~= props@.take(i as int));
        assert(decreases_to!(props@ => props@[i as int].1));
        if ov.required.contains(&props[i].0) {
            match value_within(&props[i].1, definitions, strict, budget) {
                None => {
                    proof {
                        lemma_members_prefix(
                            props@,
                            i + 1,
                            ov.required@,
                            *definitions,
                            strict,
                            budget as nat,
                        );
                    }
                    return None;
                },
                Some(v) => {
                    set_member(&mut map, props[i].0.clone(), v);
                },
            }
        }
        i += 1;
    }
    assert(props@.take(props.len() as int) =~= props@);
    Some(map)
}

proof fn lemma_members_prefix(
    props: Seq<(String, Schema)>,
    n: int,
    required: Set<Seq<char>>,
    defs: Defs,
    strict: bool,
    fuel: nat,
)
    requires
        0 <= n <= props.len(),
        required_members(props.take(n), required, defs, strict, fuel) is None,
    ensures
        required_members(props, required, defs, strict, fuel) is None,
    decreases props.len(),
{
    if n < props.len() {
        assert(props.drop_last().take(n) =~= props.take(n));
        lemma_members_prefix(props.drop_last(), n, required, defs, strict, fuel);
    } else {
        assert(props.take(n) =~= props);
    }
}

/// Generate a placeholder JSON value for an arbitrary schema node, as
/// `generate_value` does, or `None` where following the schema's references
/// never comes to an end.
pub fn try_generate_value(schema: &Schema, definitions: &Defs) -> (r: Option<Json>)
    ensures
        r is Some <==> generates(*schema, *definitions),
        r matches Some(v) ==> v@ == generated(*schema, *definitions),
{
    proof {
        lemma_definitions_are_enough(*schema, *definitions);
    }
    value_within(schema, definitions, false, definitions.entries.len())
}

/// Generate a placeholder JSON value for a schema object, or `None` where following
/// its references never comes to an end.
pub fn try_generate_value_object(schema: &SchemaObject, definitions: &Defs) -> (r: Option<Json>)
    ensures
        r is Some <==> generates(Schema::Object(*schema), *definitions),
        r matches Some(v) ==> v@ == generated(Schema::Object(*schema), *definitions),
{
    proof {
        lemma_definitions_are_enough(Schema::Object(*schema), *definitions);
    }
    object_within(schema, definitions, false, definitions.entries.len())
}

/// Generate a placeholder JSON value for an arbitrary schema node, resolving
/// `$ref`s against `definitions`.
///
/// Objects include only their required properties; `anyOf`/`oneOf` select the
/// first viable variant, the first whose value is not `null`; scalars become
/// empty string / `0` / `false`; enums take their first value. A variant of a `oneOf`
/// behind a `null` whose references never come to an end is not viable.
pub fn generate_value(schema: &Schema, definitions: &Defs) -> (r: Json)
    requires
        generates(*schema, *definitions),
    ensures
        r@ == generated(*schema, *definitions),
{
    match try_generate_value(schema, definitions) {
        Some(v) => v,
        None => Json::Null,
    }
}

} // verus!
