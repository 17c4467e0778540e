//! Where every definition has a placeholder, every schema has one, a session starts, and
//! no key brings it to a stop.

use crate::generate::{
    all_placeholders, array_placeholder, definition, first_viable, generates,
    lemma_definitions_are_enough, object_placeholder, own_placeholder, placeholder,
    required_members,
};
use crate::names::{find, lemma_find};
use crate::node::NodeView;
use crate::present::{classified, resolved};
use crate::rows::at;
use crate::schema::{
    item_of, multi_variant, non_null, union_arms, Defs, RootSchema, Schema, SchemaObject,
    SingleOrVec,
};
use crate::session::{after, cursor, Action, State};
use crate::text::without_prefix;
use crate::tree::{
    arm_requests, bare_root, child, children, fresh, gain, item_request, own_object, populated,
    property_requests, root_tree, Request,
};
use vstd::prelude::*;

verus! {

/// Every definition has a placeholder: following references comes to an end.
pub open spec fn settled_definitions(defs: Defs) -> bool {
    forall|i: int| 0 <= i < defs.entries@.len() ==> generates((#[trigger] defs.entries@[i]).1, defs)
}

/// Every definition has a placeholder that takes at most `fuel` nested references.
spec fn settled_within(defs: Defs, fuel: nat) -> bool {
    forall|i: int|
        0 <= i < defs.entries@.len() ==> placeholder(
            (#[trigger] defs.entries@[i]).1,
            defs,
            false,
            fuel,
        ) is Some
}

proof fn lemma_enough(s: Schema, defs: Defs, fuel: nat)
    requires
        settled_within(defs, fuel),
    ensures
        placeholder(s, defs, false, fuel + 1) is Some,
    decreases s, 0int,
{
    if let Schema::Object(o) = s {
        lemma_enough_object(o, defs, fuel);
    }
}

proof fn lemma_enough_object(o: SchemaObject, defs: Defs, fuel: nat)
    requires
        settled_within(defs, fuel),
    ensures
        object_placeholder(o, defs, false, fuel + 1) is Some,
    decreases o, 2int,
{
    if o.reference is Some {
        if let Some(s) = definition(defs, o.reference->0@) {
            let name = without_prefix(o.reference->0@, "#/definitions/"@)->0;
            lemma_find(defs.entries@, name);
            let i = find(defs.entries@, name)->0;
            assert(placeholder(defs.entries@[i].1, defs, false, fuel) is Some);
        }
    } else if o.subschemas is Some {
        let sub = o.subschemas->0;
        if sub.any_of is Some {
            lemma_enough_viable(sub.any_of->0@, defs, fuel);
        }
        if sub.one_of is Some && sub.one_of->0@.len() > 0 {
            lemma_enough(sub.one_of->0@[0], defs, fuel);
        } else if sub.all_of is Some && sub.all_of->0@.len() > 0 {
            lemma_enough(sub.all_of->0@[0], defs, fuel);
        } else {
            lemma_enough_own(o, defs, fuel);
        }
    } else {
        lemma_enough_own(o, defs, fuel);
    }
}

proof fn lemma_enough_own(o: SchemaObject, defs: Defs, fuel: nat)
    requires
        settled_within(defs, fuel),
    ensures
        own_placeholder(o, defs, false, fuel + 1) is Some,
    decreases o, 1int,
{
    if let Some(SingleOrVec::Single(t)) = o.instance_type {
        if *t is Array {
            lemma_enough_array(o, defs, fuel);
        } else if *t is Object && o.object is Some {
            lemma_enough_members(
                o.object->0.properties.entries@,
                o.object->0.required@,
                defs,
                fuel,
            );
        }
    }
}

proof fn lemma_enough_array(o: SchemaObject, defs: Defs, fuel: nat)
    requires
        settled_within(defs, fuel),
    ensures
        array_placeholder(o, defs, false, fuel + 1) is Some,
    decreases o, 0int,
{
    if o.array is Some {
        match o.array->0.items {
            Some(SingleOrVec::Single(s)) => lemma_enough(*s, defs, fuel),
            Some(SingleOrVec::Vec(v)) => lemma_enough_all(v@, defs, fuel),
            None => {},
        }
    }
}

proof fn lemma_enough_viable(arms: Seq<Schema>, defs: Defs, fuel: nat)
    requires
        settled_within(defs, fuel),
    ensures
        first_viable(arms, defs, false, fuel + 1) is Some,
    decreases arms, 0int,
{
    if arms.len() > 0 {
        lemma_enough_viable(arms.drop_last(), defs, fuel);
        lemma_enough(arms.last(), defs, fuel);
    }
}

proof fn lemma_enough_all(schemas: Seq<Schema>, defs: Defs, fuel: nat)
    requires
        settled_within(defs, fuel),
    ensures
        all_placeholders(schemas, defs, false, fuel + 1) is Some,
    decreases schemas, 0int,
{
    if schemas.len() > 0 {
        lemma_enough_all(schemas.drop_last(), defs, fuel);
        lemma_enough(schemas.last(), defs, fuel);
    }
}

proof fn lemma_enough_members(
    props: Seq<(String, Schema)>,
    required: Set<Seq<char>>,
    defs: Defs,
    fuel: nat,
)
    requires
        settled_within(defs, fuel),
    ensures
        required_members(props, required, defs, false, fuel + 1) is Some,
    decreases props, 0int,
{
    if props.len() > 0 {
        lemma_enough_members(props.drop_last(), required, defs, fuel);
        lemma_enough(props.last().1, defs, fuel);
    }
}

/// Where every definition has a placeholder, every schema has one.
pub proof fn lemma_every_schema_generates(s: Schema, defs: Defs)
    requires
        settled_definitions(defs),
    ensures
        generates(s, defs),
{
    let fuel = defs.entries@.len();
    assert forall|i: int| 0 <= i < defs.entries@.len() implies placeholder(
        (#[trigger] defs.entries@[i]).1,
        defs,
        false,
        fuel,
    ) is Some by {
        lemma_definitions_are_enough(defs.entries@[i].1, defs);
    }
    lemma_enough(s, defs, fuel);
}

/// Where every definition has a placeholder, every node can be populated.
pub proof fn lemma_every_node_populates(n: NodeView, defs: Defs, depth: nat)
    requires
        settled_definitions(defs),
    ensures
        populated(n, defs, depth) is Some,
    decreases 65 - depth, 3int, 0int,
{
    if !(n.populated || depth > 64 || n.schema_snapshot is None) {
        lemma_gains(n.schema_snapshot->0, defs, depth);
    }
}

proof fn lemma_gains(o: SchemaObject, defs: Defs, depth: nat)
    requires
        settled_definitions(defs),
        depth <= 64,
    ensures
        gain(o, defs, depth) is Some,
    decreases 65 - depth, 2int, 0int,
{
    let r = resolved(o, defs, 32);
    if multi_variant(r) {
        lemma_has_children(arm_requests(non_null(union_arms(r)->0), defs), defs, depth);
    } else {
        let requests = if union_arms(r) matches Some(arms) && non_null(arms).len() == 1
            && non_null(arms)[0] is Object {
            property_requests(non_null(union_arms(r)->0)[0]->Object_0)
        } else {
            match item_of(r) {
                Some(item) => item_request(item),
                None => property_requests(r),
            }
        };
        lemma_has_children(requests, defs, depth);
    }
}

proof fn lemma_has_children(requests: Seq<Request>, defs: Defs, depth: nat)
    requires
        settled_definitions(defs),
        depth <= 64,
    ensures
        children(requests, defs, depth) is Some,
    decreases 65 - depth, 1int, requests.len(),
{
    if requests.len() > 0 {
        lemma_has_children(requests.drop_last(), defs, depth);
        lemma_has_child(requests.last(), defs, depth);
    }
}

proof fn lemma_has_child(request: Request, defs: Defs, depth: nat)
    requires
        settled_definitions(defs),
        depth <= 64,
    ensures
        child(request, defs, depth) is Some,
    decreases 65 - depth, 0int, 0int,
{
    let o = own_object(request.schema);
    lemma_every_schema_generates(Schema::Object(o), defs);
    let class = classified(o, defs)->0;
    if class.1 && request.is_required && depth < 64 {
        lemma_every_node_populates(
            fresh(request.label, o, request.is_required, class),
            defs,
            depth + 1,
        );
    }
}

/// Where every definition has a placeholder, a session starts.
pub proof fn lemma_session_starts(root: RootSchema)
    requires
        settled_definitions(root.definitions),
    ensures
        root_tree(root) is Some,
{
    lemma_every_node_populates(bare_root(root), root.definitions, 0);
}

/// Where every definition has a placeholder, no key brings a session to a stop.
pub proof fn lemma_session_never_stuck(s: State, action: Action, defs: Defs)
    requires
        settled_definitions(defs),
    ensures
        after(s, action, defs) is Some,
{
    if let Some(row) = cursor(s) {
        if let Some(n) = at(s.root, row.path) {
            lemma_every_node_populates(n, defs, 0);
        }
    }
}

} // verus!
