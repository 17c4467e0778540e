//! Ordinary schemas, with one thing said by each: the builder and the template read them
//! alike.

use crate::agree::{
    builds_alike, content_alike, lemma_builder_agrees_with_template,
    lemma_pointer_leads_to_definition, resolves_cleanly,
};
use crate::generate::{
    all_placeholders, array_placeholder, first_viable, generated, generates, lemma_more_placeholder,
    lemma_settled_is_generated, object_placeholder, own_placeholder, placeholder, required_members,
    settles,
};
use crate::generate_laws::{lone_union, lone_wrapper, nulls_bare, plain_array, plain_object};
use crate::json::JsonView;
use crate::naming::{lemma_ref_target, ref_target};
use crate::node::{exported, NodeKind};
use crate::present::{only_value, real_default, resolved, shape};
use crate::properties::{lemma_order_bounds, property_order};
use crate::schema::{
    blank_object, item_of, lemma_real_arm, non_null, union_arms, wrapped, Defs, RootSchema, Schema,
    SchemaObject, SingleOrVec,
};
use crate::tree::{
    arm_requests, child, children, gain, item_request, lemma_blank_is_leaf, property_requests,
    root_tree, Request,
};
use vstd::prelude::*;

verus! {

/// `o` is a scalar, an `enum`, or else without parts.
pub open spec fn atom(o: SchemaObject) -> bool {
    o.reference is None && o.subschemas is None && o.object is None && item_of(o) is None
}

/// `o` has no keywords of its own beside a reference or subschemas.
pub open spec fn nothing_beside(o: SchemaObject) -> bool {
    o.enum_values is None && o.instance_type is None && o.array is None && o.object is None
}

/// `o` is a union of `arms`, by its `anyOf` or its `oneOf`, with nothing beside it.
pub open spec fn bare_union(o: SchemaObject, arms: Seq<Schema>) -> bool {
    &&& lone_union(o)
    &&& nothing_beside(o)
    &&& union_arms(o) == Some(arms)
}

/// `o` is a one-element `allOf` of `s`, with nothing beside it.
pub open spec fn bare_all_of(o: SchemaObject, s: Schema) -> bool {
    &&& o.reference is None
    &&& nothing_beside(o)
    &&& o.subschemas matches Some(sub) && sub.any_of is None && sub.one_of is None && (
    sub.all_of matches Some(v) && v@ == seq![s])
}

/// `s` is ordinary, nested at most `k` deep, and without a default: `true`, `false`, a
/// scalar or an `enum`; or a reference to a definition, a one-element `allOf` or a union,
/// with nothing beside it; or a typed object or array, with one schema for the items; and
/// so is each part of it. A union has a real arm; where it has several, the first of them
/// is no array of objects or unions, and has a placeholder other than `null`.
pub open spec fn ordinary(s: Schema, defs: Defs, k: nat) -> bool
    decreases k,
{
    match s {
        Schema::Bool(_) => true,
        Schema::Object(o) => {
            &&& real_default(o) is None
            &&& atom(o) || k > 0
            &&& if atom(o) {
                true
            } else if o.reference is Some {
                let name = ref_target(o.reference->0@);
                &&& o.reference->0@ == "#/definitions/"@ + name
                &&& o.subschemas is None
                &&& nothing_beside(o)
                &&& defs.at(name) matches Some(d) && d is Object && ordinary(
                    d,
                    defs,
                    (k - 1) as nat,
                )
            } else if o.subschemas is Some {
                if union_arms(o) is Some {
                    let arms = union_arms(o)->0;
                    let first = non_null(arms)[0];
                    &&& bare_union(o, arms)
                    &&& nulls_bare(arms)
                    &&& forall|i: int|
                        0 <= i < arms.len() ==> ordinary(#[trigger] arms[i], defs, (k - 1) as nat)
                    &&& non_null(arms).len() > 0
                    &&& first is Object
                    &&& non_null(arms).len() > 1 ==> generated(first, defs) != JsonView::Null
                        && shape(first->Object_0, defs) != NodeKind::Array
                } else {
                    let inner = wrapped(o)->0;
                    &&& bare_all_of(o, inner)
                    &&& inner is Object
                    &&& ordinary(inner, defs, (k - 1) as nat)
                }
            } else if o.object is Some {
                &&& plain_object(o)
                &&& item_of(o) is None
                &&& o.object->0.properties.wf()
                &&& forall|i: int|
                    0 <= i < o.object->0.properties.entries@.len() ==> ordinary(
                        (#[trigger] o.object->0.properties.entries@[i]).1,
                        defs,
                        (k - 1) as nat,
                    )
            } else {
                &&& plain_array(o)
                &&& ordinary(item_of(o)->0, defs, (k - 1) as nat)
            }
        },
    }
}

/// What is ordinary at a depth is so at any greater one.
pub proof fn lemma_ordinary_deeper(s: Schema, defs: Defs, k: nat, m: nat)
    requires
        ordinary(s, defs, k),
        k <= m,
    ensures
        ordinary(s, defs, m),
    decreases k,
{
    if let Schema::Object(o) = s {
        if !atom(o) {
            let a = (k - 1) as nat;
            let b = (m - 1) as nat;
            if o.reference is Some {
                lemma_ordinary_deeper(defs.at(ref_target(o.reference->0@))->0, defs, a, b);
            } else if o.subschemas is Some {
                if union_arms(o) is Some {
                    let arms = union_arms(o)->0;
                    assert forall|i: int| 0 <= i < arms.len() implies ordinary(
                        #[trigger] arms[i],
                        defs,
                        b,
                    ) by {
                        lemma_ordinary_deeper(arms[i], defs, a, b);
                    }
                } else {
                    lemma_ordinary_deeper(wrapped(o)->0, defs, a, b);
                }
            } else if o.object is Some {
                let props = o.object->0.properties.entries@;
                assert forall|i: int| 0 <= i < props.len() implies ordinary(
                    (#[trigger] props[i]).1,
                    defs,
                    b,
                ) by {
                    lemma_ordinary_deeper(props[i].1, defs, a, b);
                }
            } else {
                lemma_ordinary_deeper(item_of(o)->0, defs, a, b);
            }
        }
    }
}

/// Arms that are each worked out strictly are looked through.
proof fn lemma_viable_strictly(arms: Seq<Schema>, defs: Defs, fuel: nat)
    requires
        forall|i: int|
            0 <= i < arms.len() ==> placeholder(#[trigger] arms[i], defs, true, fuel) is Some,
    ensures
        first_viable(arms, defs, true, fuel) is Some,
    decreases arms.len(),
{
    if arms.len() > 0 {
        let init = arms.drop_last();
        assert forall|i: int| 0 <= i < init.len() implies placeholder(
            #[trigger] init[i],
            defs,
            true,
            fuel,
        ) is Some by {
            assert(arms[i] == init[i]);
        }
        lemma_viable_strictly(init, defs, fuel);
        assert(placeholder(arms[arms.len() - 1], defs, true, fuel) is Some);
    }
}

/// Members that are each worked out strictly are worked out together.
proof fn lemma_members_strictly(
    props: Seq<(String, Schema)>,
    required: Set<Seq<char>>,
    defs: Defs,
    fuel: nat,
)
    requires
        forall|i: int|
            0 <= i < props.len() ==> placeholder(
                (#[trigger] props[i]).1,
                defs,
                true,
                fuel,
            ) is Some,
    ensures
        required_members(props, required, defs, true, fuel) is Some,
    decreases props.len(),
{
    if props.len() > 0 {
        let init = props.drop_last();
        assert forall|i: int| 0 <= i < init.len() implies placeholder(
            (#[trigger] init[i]).1,
            defs,
            true,
            fuel,
        ) is Some by {
            assert(props[i] == init[i]);
        }
        lemma_members_strictly(init, required, defs, fuel);
        assert(placeholder(props[props.len() - 1].1, defs, true, fuel) is Some);
    }
}

/// An ordinary schema has a placeholder that can be worked out strictly.
proof fn lemma_ordinary_strictly(s: Schema, defs: Defs, k: nat)
    requires
        ordinary(s, defs, k),
    ensures
        placeholder(s, defs, true, k) is Some,
    decreases k,
{
    if let Schema::Object(o) = s {
        assert(placeholder(s, defs, true, k) == object_placeholder(o, defs, true, k));
        if atom(o) {
            lemma_atom_strictly(o, defs, k);
        } else {
            let below = (k - 1) as nat;
            if o.reference is Some {
                let name = ref_target(o.reference->0@);
                lemma_ref_target(o.reference->0@);
                lemma_pointer_leads_to_definition(defs, name);
                lemma_ordinary_strictly(defs.at(name)->0, defs, below);
            } else if o.subschemas is Some {
                if union_arms(o) is Some {
                    let arms = union_arms(o)->0;
                    assert forall|i: int| 0 <= i < arms.len() implies placeholder(
                        #[trigger] arms[i],
                        defs,
                        true,
                        k,
                    ) is Some by {
                        lemma_ordinary_strictly(arms[i], defs, below);
                        lemma_more_placeholder(arms[i], defs, true, below);
                    }
                    lemma_viable_strictly(arms, defs, k);
                    assert(own_placeholder(o, defs, true, k) == Some(JsonView::Null));
                } else {
                    lemma_ordinary_strictly(wrapped(o)->0, defs, below);
                    lemma_more_placeholder(wrapped(o)->0, defs, true, below);
                }
            } else if o.object is Some {
                let ov = o.object->0;
                let props = ov.properties.entries@;
                assert forall|i: int| 0 <= i < props.len() implies placeholder(
                    (#[trigger] props[i]).1,
                    defs,
                    true,
                    k,
                ) is Some by {
                    lemma_ordinary_strictly(props[i].1, defs, below);
                    lemma_more_placeholder(props[i].1, defs, true, below);
                }
                lemma_members_strictly(props, ov.required@, defs, k);
                assert(own_placeholder(o, defs, true, k) is Some);
            } else {
                let item = item_of(o)->0;
                lemma_ordinary_strictly(item, defs, below);
                lemma_more_placeholder(item, defs, true, below);
                if let Some(SingleOrVec::Vec(v)) = o.array->0.items {
                    assert(v@.drop_last() =~= Seq::<Schema>::empty());
                    reveal_with_fuel(all_placeholders, 2);
                    assert(v@.last() == item);
                }
                assert(array_placeholder(o, defs, true, k) is Some);
                assert(own_placeholder(o, defs, true, k) is Some);
            }
        }
    }
}

/// A schema without parts has a placeholder.
proof fn lemma_atom_strictly(o: SchemaObject, defs: Defs, k: nat)
    requires
        atom(o),
    ensures
        object_placeholder(o, defs, true, k) is Some,
{
    assert(object_placeholder(o, defs, true, k) == own_placeholder(o, defs, true, k));
    if o.array is Some {
        if let Some(SingleOrVec::Vec(v)) = o.array->0.items {
            assert(all_placeholders(v@, defs, true, k) is Some);
        }
    }
    assert(array_placeholder(o, defs, true, k) is Some);
}

/// An ordinary schema has a placeholder.
pub proof fn lemma_ordinary_generates(s: Schema, defs: Defs, k: nat)
    requires
        ordinary(s, defs, k),
    ensures
        settles(s, defs),
        generates(s, defs),
{
    lemma_ordinary_strictly(s, defs, k);
    lemma_settled_is_generated(s, defs);
}

/// References and wrappers are seen through alike in an ordinary schema, and what is left
/// is ordinary, and neither.
proof fn lemma_ordinary_resolves(o: SchemaObject, defs: Defs, k: nat, steps: nat)
    requires
        ordinary(Schema::Object(o), defs, k),
        k <= steps,
    ensures
        resolves_cleanly(o, defs, steps),
        ordinary(Schema::Object(resolved(o, defs, steps)), defs, k),
        resolved(o, defs, steps).reference is None,
        wrapped(resolved(o, defs, steps)) is None,
    decreases k,
{
    if !atom(o) {
        let below = (k - 1) as nat;
        if o.reference is Some {
            let name = ref_target(o.reference->0@);
            lemma_ref_target(o.reference->0@);
            lemma_pointer_leads_to_definition(defs, name);
            let inner = defs.at(name)->0->Object_0;
            lemma_ordinary_resolves(inner, defs, below, (steps - 1) as nat);
            lemma_ordinary_deeper(
                Schema::Object(resolved(inner, defs, (steps - 1) as nat)),
                defs,
                below,
                k,
            );
        } else if let Some(s) = wrapped(o) {
            if let Some(arms) = union_arms(o) {
                let j = lemma_real_arm(arms, 0);
                assert(ordinary(arms[j], defs, below));
            }
            assert(s is Object && ordinary(s, defs, below));
            let inner = s->Object_0;
            lemma_ordinary_generates(s, defs, below);
            assert(lone_wrapper(o, defs));
            lemma_ordinary_resolves(inner, defs, below, (steps - 1) as nat);
            lemma_ordinary_deeper(
                Schema::Object(resolved(inner, defs, (steps - 1) as nat)),
                defs,
                below,
                k,
            );
        }
    } else if steps > 0 {
        reveal_with_fuel(resolved, 2);
    }
}

/// The builder and the template read an ordinary schema alike.
pub proof fn lemma_ordinary_reads_alike(o: SchemaObject, defs: Defs, k: nat)
    requires
        ordinary(Schema::Object(o), defs, k),
        k <= 32,
    ensures
        content_alike(o, defs, k),
    decreases k,
{
    let r = resolved(o, defs, 32);
    lemma_ordinary_resolves(o, defs, k, 32);
    if !atom(r) {
        let below = (k - 1) as nat;
        if union_arms(r) is Some {
            let arms = union_arms(r)->0;
            let j = lemma_real_arm(arms, 0);
            let first = arms[j];
            assert(ordinary(first, defs, below));
            lemma_ordinary_reads_alike(first->Object_0, defs, below);
            lemma_ordinary_generates(first, defs, below);
            lemma_only_value_is_generated(first, defs, below);
        } else if r.object is Some {
            let props = r.object->0.properties.entries@;
            assert forall|i: int|
                0 <= i < props.len() && r.object->0.required@.contains(
                    (#[trigger] props[i]).0@,
                ) implies builds_alike(props[i].1, defs, below) by {
                assert(ordinary(props[i].1, defs, below));
                if let Schema::Object(p) = props[i].1 {
                    lemma_ordinary_reads_alike(p, defs, below);
                }
            }
        } else {
            assert(ordinary(item_of(r)->0, defs, below));
            if let Schema::Object(item) = item_of(r)->0 {
                lemma_ordinary_reads_alike(item, defs, below);
            }
            assert(builds_alike(item_of(r)->0, defs, below));
        }
    }
}

/// The only value that an ordinary schema allows is its placeholder.
proof fn lemma_only_value_is_generated(s: Schema, defs: Defs, k: nat)
    requires
        ordinary(s, defs, k),
    ensures
        only_value(s) matches Some(v) ==> v == generated(s, defs),
{
    if only_value(s) is Some {
        let o = s->Object_0;
        let fuel = defs.entries@.len();
        assert(atom(o));
        assert(placeholder(s, defs, false, fuel) == object_placeholder(o, defs, false, fuel));
        assert(object_placeholder(o, defs, false, fuel) == own_placeholder(o, defs, false, fuel));
    }
}

/// What an ordinary schema gains when it is populated can be worked out.
proof fn lemma_ordinary_gain(o: SchemaObject, defs: Defs, depth: nat, k: nat)
    requires
        ordinary(Schema::Object(o), defs, k),
        k <= 32,
    ensures
        gain(o, defs, depth) is Some,
    decreases k, 0int, 0int,
{
    let r = resolved(o, defs, 32);
    lemma_ordinary_resolves(o, defs, k, 32);
    if atom(r) {
        assert(property_requests(r) =~= Seq::empty());
        assert(children(property_requests(r), defs, depth) is Some);
    } else {
        let below = (k - 1) as nat;
        if union_arms(r) is Some {
            let all = union_arms(r)->0;
            let arms = non_null(all);
            let requests = arm_requests(arms, defs);
            assert forall|i: int| 0 <= i < requests.len() implies ordinary(
                (#[trigger] requests[i]).schema,
                defs,
                below,
            ) by {
                let j = lemma_real_arm(all, i);
                assert(ordinary(all[j], defs, below));
            }
            lemma_ordinary_children(requests, defs, depth, below);
        } else if r.object is Some {
            let ov = r.object->0;
            let props = ov.properties.entries@;
            let requests = property_requests(r);
            let order = property_order(props, ov.required@, Seq::empty());
            lemma_order_bounds(props, ov.required@, Seq::empty());
            assert forall|i: int| 0 <= i < requests.len() implies ordinary(
                (#[trigger] requests[i]).schema,
                defs,
                below,
            ) by {
                assert(0 <= order[i] < props.len());
                assert(ordinary(props[order[i]].1, defs, below));
            }
            lemma_ordinary_children(requests, defs, depth, below);
        } else {
            let requests = item_request(item_of(r)->0);
            assert forall|i: int| 0 <= i < requests.len() implies ordinary(
                (#[trigger] requests[i]).schema,
                defs,
                below,
            ) by {
                assert(ordinary(item_of(r)->0, defs, below));
            }
            lemma_ordinary_children(requests, defs, depth, below);
        }
    }
}

/// Children of ordinary schemas can be worked out.
proof fn lemma_ordinary_children(requests: Seq<Request>, defs: Defs, depth: nat, k: nat)
    requires
        forall|i: int|
            0 <= i < requests.len() ==> ordinary((#[trigger] requests[i]).schema, defs, k),
        k <= 32,
    ensures
        children(requests, defs, depth) is Some,
    decreases k, 2int, requests.len(),
{
    if requests.len() > 0 {
        let init = requests.drop_last();
        assert forall|i: int| 0 <= i < init.len() implies ordinary(
            (#[trigger] init[i]).schema,
            defs,
            k,
        ) by {
            assert(requests[i] == init[i]);
        }
        lemma_ordinary_children(init, defs, depth, k);
        lemma_ordinary_child(requests[requests.len() - 1], defs, depth, k);
    }
}

/// A child of an ordinary schema can be worked out.
proof fn lemma_ordinary_child(request: Request, defs: Defs, depth: nat, k: nat)
    requires
        ordinary(request.schema, defs, k),
        k <= 32,
    ensures
        child(request, defs, depth) is Some,
    decreases k, 1int, 0int,
{
    match request.schema {
        Schema::Object(o) => {
            lemma_ordinary_generates(request.schema, defs, k);
            if depth < 64 {
                lemma_ordinary_gain(o, defs, depth + 1, k);
            }
        },
        Schema::Bool(_) => {
            let anything = Schema::Object(blank_object());
            lemma_blank_is_leaf(defs);
            assert(placeholder(anything, defs, false, 0) == object_placeholder(
                blank_object(),
                defs,
                false,
                0,
            ));
            assert(placeholder(anything, defs, false, 0) is Some);
        },
    }
}

/// The builder and the template agree on ordinary schemas: a session on an object or a
/// union of several real arms starts, and before any key is pressed exports the value that
/// `generate_value` gives for the schema.
pub proof fn lemma_ordinary_export_is_template(root: RootSchema, k: nat)
    requires
        ordinary(Schema::Object(root.schema), root.definitions, k),
        k <= 32,
        shape(root.schema, root.definitions) == NodeKind::Object || shape(
            root.schema,
            root.definitions,
        ) == NodeKind::OneOf,
    ensures
        generates(Schema::Object(root.schema), root.definitions),
        root_tree(root) matches Some(n) && exported(n) == generated(
            Schema::Object(root.schema),
            root.definitions,
        ),
{
    lemma_ordinary_reads_alike(root.schema, root.definitions, k);
    lemma_ordinary_generates(Schema::Object(root.schema), root.definitions, k);
    lemma_ordinary_gain(root.schema, root.definitions, 0, k);
    lemma_builder_agrees_with_template(root, k);
}

} // verus!
