//! Each type refers to finitely many names, so that the productions of a grammar come
//! to an end.

use crate::document::{agenda, in_turn, is_agenda, lemma_agenda_unique, owing, referenced};
use crate::names::{find, is_least, least, lemma_find, lemma_least_exists};
use crate::production::{
    block_refs, body_refs, inline_refs, production_refs, refs_of_all, shown_arms, shown_tag,
    tag_first,
};
use crate::properties::{lemma_order_bounds, property_order};
use crate::render::{
    arm_refs, item_refs, members_refs, object_type_refs, property_refs, type_refs, union_at,
};
use crate::schema::{one_type, InstanceType, RootSchema, Schema, SchemaObject, SingleOrVec};
use vstd::prelude::*;

verus! {

/// A type refers to finitely many names.
pub proof fn lemma_type_refs(s: Schema)
    ensures
        type_refs(s).finite(),
    decreases s, 0int,
{
    if let Schema::Object(o) = s {
        lemma_object_refs(o);
    }
}

/// A schema object refers to finitely many names.
pub proof fn lemma_object_refs(o: SchemaObject)
    ensures
        object_type_refs(o).finite(),
    decreases o, 2int,
{
    if o.reference is Some {
    } else if o.subschemas is Some && o.subschemas->0.all_of is Some
        && o.subschemas->0.all_of->0@.len() == 1 {
        lemma_type_refs(o.subschemas->0.all_of->0@[0]);
    } else if o.subschemas is Some && o.subschemas->0.one_of is Some {
        lemma_arm_refs(o.subschemas->0.one_of->0@);
    } else if o.subschemas is Some && o.subschemas->0.any_of is Some {
        lemma_arm_refs(o.subschemas->0.any_of->0@);
    } else if o.enum_values is Some && o.enum_values->0@.len() > 0 {
    } else {
        match one_type(o.instance_type) {
            Some(InstanceType::Array) => lemma_item_refs(o),
            Some(InstanceType::Object) => lemma_members_refs(o, Seq::empty()),
            None => lemma_members_refs(o, Seq::empty()),
            _ => {},
        }
    }
}

proof fn lemma_arm_refs(arms: Seq<Schema>)
    ensures
        arm_refs(arms).finite(),
    decreases arms, 0int,
{
    if arms.len() > 0 {
        lemma_arm_refs(arms.drop_last());
        lemma_type_refs(arms.last());
    }
}

proof fn lemma_item_refs(o: SchemaObject)
    ensures
        item_refs(o).finite(),
    decreases o, 0int,
{
    if o.array is Some {
        match o.array->0.items {
            Some(SingleOrVec::Single(s)) => lemma_type_refs(*s),
            Some(SingleOrVec::Vec(v)) => {
                if v@.len() > 0 {
                    assert(decreases_to!(o => v@));
                    assert(decreases_to!(v@ => v@[0]));
                    lemma_type_refs(v@[0]);
                }
            },
            None => {},
        }
    }
}

proof fn lemma_members_refs(o: SchemaObject, priority: Seq<Seq<char>>)
    ensures
        members_refs(o, priority).finite(),
    decreases o, 1int,
{
    if o.object is Some {
        let props = o.object->0.properties.entries@;
        let sets = property_refs(props);
        lemma_property_refs(props);
        let order = property_order(props, o.object->0.required@, priority);
        lemma_order_bounds(props, o.object->0.required@, priority);
        assert(forall|j: int| 0 <= j < order.len() ==> 0 <= #[trigger] order[j] < sets.len());
        lemma_union_at(sets, order);
    }
}

proof fn lemma_property_refs(props: Seq<(String, Schema)>)
    ensures
        forall|i: int|
            0 <= i < property_refs(props).len() ==> (#[trigger] property_refs(props)[i]).finite(),
    decreases props, 0int,
{
    assert forall|i: int| 0 <= i < property_refs(props).len() implies (#[trigger] property_refs(
        props,
    )[i]).finite() by {
        assert(decreases_to!(props => props[i].1));
        lemma_type_refs(props[i].1);
    }
}

proof fn lemma_union_at(sets: Seq<Set<Seq<char>>>, order: Seq<int>)
    requires
        forall|i: int| 0 <= i < sets.len() ==> (#[trigger] sets[i]).finite(),
        forall|j: int| 0 <= j < order.len() ==> 0 <= #[trigger] order[j] < sets.len(),
    ensures
        union_at(sets, order).finite(),
    decreases order.len(),
{
    if order.len() > 0 {
        assert forall|j: int| 0 <= j < order.drop_last().len() implies 0
            <= #[trigger] order.drop_last()[j] < sets.len() by {
            assert(0 <= order[j] < sets.len());
        }
        lemma_union_at(sets, order.drop_last());
        assert(0 <= order[order.len() - 1] < sets.len());
        assert(sets[order.last()].finite());
    }
}

proof fn lemma_refs_of_all(arms: Seq<Schema>, f: spec_fn(Schema) -> Set<Seq<char>>)
    requires
        forall|s: Schema| (#[trigger] f(s)).finite(),
    ensures
        refs_of_all(arms, f).finite(),
    decreases arms.len(),
{
    if arms.len() > 0 {
        lemma_refs_of_all(arms.drop_last(), f);
    }
}

/// A production refers to finitely many names.
pub proof fn lemma_production_refs(s: Schema, on: bool)
    ensures
        production_refs(s, on).finite(),
{
    if let Schema::Object(o) = s {
        lemma_body_refs(o, on);
    }
}

/// The body of a production refers to finitely many names.
pub proof fn lemma_body_refs(o: SchemaObject, on: bool)
    ensures
        body_refs(o, on).finite(),
{
    lemma_object_refs(o);
    if let Some(arms) = shown_arms(o) {
        if arms.len() > 1 {
            let tag = shown_tag(o);
            let f = |s: Schema| inline_refs(s, tag);
            let g = |s: Schema| block_refs(s, tag);
            assert forall|s: Schema| (#[trigger] f(s)).finite() by {
                lemma_type_refs(s);
                if let Schema::Object(x) = s {
                    lemma_members_refs(x, tag_first(tag));
                }
            }
            assert forall|s: Schema| (#[trigger] g(s)).finite() by {
                lemma_type_refs(s);
                if let Schema::Object(x) = s {
                    lemma_members_refs(x, tag_first(tag));
                }
            }
            lemma_refs_of_all(arms, f);
            lemma_refs_of_all(arms, g);
        } else if arms.len() == 1 {
            lemma_type_refs(arms[0]);
        }
    }
}

/// All names that the root or some definition refers to.
spec fn all_refs(root: RootSchema, defs: Seq<(String, Schema)>, on: bool) -> Set<Seq<char>>
    decreases defs.len(),
{
    if defs.len() == 0 {
        body_refs(root.schema, on)
    } else {
        all_refs(root, defs.drop_last(), on).union(production_refs(defs.last().1, on))
    }
}

proof fn lemma_all_refs(root: RootSchema, defs: Seq<(String, Schema)>, on: bool)
    ensures
        all_refs(root, defs, on).finite(),
        body_refs(root.schema, on).subset_of(all_refs(root, defs, on)),
        forall|i: int|
            0 <= i < defs.len() ==> production_refs((#[trigger] defs[i]).1, on).subset_of(
                all_refs(root, defs, on),
            ),
    decreases defs.len(),
{
    if defs.len() == 0 {
        lemma_body_refs(root.schema, on);
    } else {
        let init = defs.drop_last();
        lemma_all_refs(root, init, on);
        lemma_production_refs(defs.last().1, on);
        assert forall|i: int| 0 <= i < defs.len() implies production_refs(
            (#[trigger] defs[i]).1,
            on,
        ).subset_of(all_refs(root, defs, on)) by {
            if i < init.len() {
                assert(init[i] == defs[i]);
            }
        }
    }
}

/// What is referred to is among all names that are referred to.
proof fn lemma_referenced_within(root: RootSchema, names: Seq<Seq<char>>, on: bool)
    ensures
        referenced(root, names, on).subset_of(all_refs(root, root.definitions.entries@, on)),
    decreases names.len(),
{
    let defs = root.definitions.entries@;
    lemma_all_refs(root, defs, on);
    if names.len() > 0 {
        lemma_referenced_within(root, names.drop_last(), on);
        lemma_find(defs, names.last());
        if let Some(s) = root.definitions.at(names.last()) {
            let i = find(defs, names.last())->0;
            assert(defs[i].1 == s);
        }
    }
}

/// A beginning of the order of productions can be completed.
proof fn lemma_complete(root: RootSchema, names: Seq<Seq<char>>, on: bool) -> (whole: Seq<
    Seq<char>,
>)
    requires
        in_turn(root, names, on),
    ensures
        is_agenda(root, whole, on),
    decreases all_refs(root, root.definitions.entries@, on).difference(names.to_set()).len(),
{
    let all = all_refs(root, root.definitions.entries@, on);
    let due = owing(root, names, on);
    lemma_all_refs(root, root.definitions.entries@, on);
    lemma_referenced_within(root, names, on);
    assert(due.subset_of(all.difference(names.to_set())));
    vstd::set_lib::lemma_len_subset(due, all.difference(names.to_set()));
    if due.len() == 0 {
        assert(due =~= Set::<Seq<char>>::empty());
        names
    } else {
        lemma_least_exists(due);
        let next = least(due);
        let more = names.push(next);
        assert forall|k: int| 0 <= k < more.len() implies is_least(
            #[trigger] owing(root, more.take(k), on),
            more[k],
        ) by {
            if k < names.len() {
                assert(more.take(k) =~= names.take(k));
                assert(is_least(owing(root, names.take(k), on), names[k]));
            } else {
                assert(more.take(k) =~= names);
            }
        }
        let before = all.difference(names.to_set());
        let after = all.difference(more.to_set());
        assert(before.contains(next));
        assert(after =~= before.remove(next)) by {
            assert forall|x: Seq<char>| more.contains(x) <==> names.contains(x) || x == next by {
                assert(more[names.len() as int] == next);
                if names.contains(x) {
                    let k = choose|k: int| 0 <= k < names.len() && names[k] == x;
                    assert(more[k] == x);
                }
            }
        }
        lemma_complete(root, more, on)
    }
}

/// The productions come to an end: there is an order in which each name that is referred
/// to has its turn.
pub proof fn lemma_agenda_exists(root: RootSchema, on: bool)
    ensures
        is_agenda(root, agenda(root, on), on),
{
    let whole = lemma_complete(root, Seq::empty(), on);
    lemma_agenda_unique(root, whole, on);
}

} // verus!
