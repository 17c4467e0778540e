//! What the tree of a schema holds.

use crate::agree::lemma_after_slash;
use crate::generate::generated;
use crate::json::JsonView;
use crate::laws::{lemma_children_are, lemma_children_match, lemma_included_value};
use crate::names::{ascending, keys, lemma_find, lemma_find_at, name_lt};
use crate::naming::ref_target;
use crate::node::{exported, lemma_included_members, NodeKind, NodeView};
use crate::present::{arm_label, classified, described, real_default, resolved, shape};
use crate::properties::{
    lemma_order_bounds, lemma_order_lists_each_once, lemma_required_before_optional, priority_hits,
    property_order, rest_of, tag_of,
};
use crate::schema::{
    blank_object, item_of, multi_variant, non_null, root_name, union_arms, wrapped, Defs,
    RootSchema, Schema, SchemaObject, SingleOrVec,
};
use crate::session_laws::lemma_populating;
use crate::tree::{
    arm_requests, as_arms, bare_root, child, children, fresh, item_request, lemma_blank_is_leaf,
    own_object, populated, property_requests, root_tree, Request,
};
use crate::value_laws::lemma_scalars_are_empty;
use vstd::prelude::*;

verus! {

/// A default that a schema gives wins: the field made from it keeps the default, and
/// exports it, whatever value it is, unless it is an array, which exports its element.
pub proof fn lemma_default_wins(request: Request, defs: Defs, depth: nat)
    requires
        request.schema matches Schema::Object(o) && (o.metadata matches Some(m) && (
        m.default matches Some(d) && d@ != JsonView::Null)),
    ensures
        child(request, defs, depth) matches Some(n) ==> {
            let d = request.schema->Object_0.metadata->0.default->0@;
            &&& n.default == Some(d)
            &&& n.kind != NodeKind::Array ==> exported(n) == d
        },
{
    let o = own_object(request.schema);
    if let Some(class) = classified(o, defs) {
        lemma_populating(
            fresh(request.label, o, request.is_required, class),
            defs,
            depth + 1,
        );
    }
}

/// A field has no default where its schema gives none, or gives `null`; it then exports
/// its placeholder, where it cannot be drilled into.
pub proof fn lemma_no_default(request: Request, defs: Defs, depth: nat)
    requires
        request.schema matches Schema::Object(o) ==> (o.metadata matches Some(m) ==> (
        m.default matches Some(d) ==> d@ == JsonView::Null)),
    ensures
        child(request, defs, depth) matches Some(n) ==> {
            &&& n.default is None
            &&& n.kind == NodeKind::Leaf ==> (n.leaf_value matches Some(v) && exported(n) == v)
            &&& n.kind == NodeKind::Leaf && request.schema is Object ==> exported(n) == generated(
                request.schema,
                defs,
            )
        },
{
    let o = own_object(request.schema);
    if let Some(class) = classified(o, defs) {
        lemma_populating(
            fresh(request.label, o, request.is_required, class),
            defs,
            depth + 1,
        );
    }
}

/// A field starts out with the label and the requirement it was asked for with, included
/// exactly where it is required, collapsed, and with its first variant selected. It can be
/// expanded unless it is a leaf. A required one is populated at once; an optional one
/// that can be expanded only when it is asked for.
pub proof fn lemma_field_starts_out(request: Request, defs: Defs, depth: nat)
    ensures
        child(request, defs, depth) matches Some(n) ==> {
            &&& n.label == request.label
            &&& n.is_required == request.is_required
            &&& n.included == request.is_required
            &&& !n.expanded
            &&& n.selected_variant == 0
            &&& n.expandable <==> n.kind != NodeKind::Leaf
            &&& request.is_required ==> n.populated
            &&& !request.is_required && n.expandable ==> !n.populated && n.children.len() == 0
            &&& n.leaf_value is Some <==> n.kind == NodeKind::Leaf
            &&& request.schema matches Schema::Object(o) ==> n.type_desc == described(o)
                && n.kind == shape(o, defs)
        },
{
    let o = own_object(request.schema);
    if let Some(class) = classified(o, defs) {
        let n = fresh(request.label, o, request.is_required, class);
        lemma_populating(n, defs, depth + 1);
        if request.is_required && class.1 && depth < 64 {
            assert(populated(n, defs, depth + 1) matches Some(m) ==> m.kind == n.kind) by {
                lemma_kind_stays(n, o, defs, depth + 1);
            }
        }
    }
}

/// `true` and `false` are leaves that export `null`.
pub proof fn lemma_bool_field(request: Request, defs: Defs, depth: nat)
    requires
        request.schema is Bool,
    ensures
        child(request, defs, depth) matches Some(n) && n.kind == NodeKind::Leaf && exported(n)
            == JsonView::Null && n.type_desc == "any"@,
{
    lemma_blank_is_leaf(defs);
    lemma_scalars_are_empty(blank_object(), defs);
}

/// A required field that can be expanded is populated one level below, as a node that keeps
/// its schema until then; at a depth of 64 it has no children. An optional one keeps its
/// schema for when it is asked for.
pub proof fn lemma_field_is_populated(request: Request, o: SchemaObject, defs: Defs, depth: nat)
    requires
        request.schema == Schema::Object(o),
        shape(o, defs) != NodeKind::Leaf,
    ensures
        ({
            let n = NodeView {
                label: request.label,
                type_desc: described(o),
                is_required: request.is_required,
                included: request.is_required,
                default: real_default(o),
                leaf_value: None,
                annotations: Seq::empty(),
                expandable: true,
                expanded: false,
                children: Seq::empty(),
                populated: false,
                kind: shape(o, defs),
                selected_variant: 0,
                schema_snapshot: Some(o),
            };
            &&& !request.is_required ==> child(request, defs, depth) == Some(n)
            &&& request.is_required && depth < 64 ==> child(request, defs, depth) == populated(
                n,
                defs,
                depth + 1,
            )
            &&& request.is_required && depth >= 64 ==> child(request, defs, depth) == Some(
                NodeView { populated: true, ..n },
            )
        }),
{
}

/// Populating a node leaves it of its kind, where that is what its schema is presented as.
proof fn lemma_kind_stays(n: NodeView, o: SchemaObject, defs: Defs, depth: nat)
    requires
        n.schema_snapshot == Some(o),
        n.kind == shape(o, defs),
    ensures
        populated(n, defs, depth) matches Some(m) ==> m.kind == n.kind,
{
}

/// The tree starts from the root: called by the name of the schema, included, expanded and
/// populated, without a default.
pub proof fn lemma_root_starts_out(root: RootSchema)
    ensures
        root_tree(root) matches Some(n) ==> {
            &&& n.label == root_name(root)
            &&& n.type_desc == "(root)"@
            &&& n.is_required && n.included && n.expanded && n.expandable && n.populated
            &&& n.default is None && n.leaf_value is None
            &&& n.selected_variant == 0
            &&& n.kind == if multi_variant(resolved(root.schema, root.definitions, 32)) {
                NodeKind::OneOf
            } else {
                NodeKind::Object
            }
        },
{
    lemma_populating(bare_root(root), root.definitions, 0);
}

/// The tree is the root, populated from the schema.
pub proof fn lemma_root_is_populated(root: RootSchema)
    ensures
        root_tree(root) == populated(
            NodeView {
                label: root_name(root),
                type_desc: "(root)"@,
                is_required: true,
                included: true,
                default: None,
                leaf_value: None,
                annotations: Seq::empty(),
                expandable: true,
                expanded: true,
                children: Seq::empty(),
                populated: false,
                kind: NodeKind::Object,
                selected_variant: 0,
                schema_snapshot: Some(root.schema),
            },
            root.definitions,
            0,
        ),
{
}

/// What a schema is presented as, once references and wrappers are seen through: a union
/// with several real arms as such, else an object with properties as such, else an array
/// whose items are one of these as an array, and anything else as a leaf.
pub proof fn lemma_presented_as(o: SchemaObject, defs: Defs)
    ensures
        ({
            let r = resolved(o, defs, 32);
            let arms = if r.subschemas is None {
                Seq::empty()
            } else if r.subschemas->0.one_of is Some {
                non_null(r.subschemas->0.one_of->0@)
            } else if r.subschemas->0.any_of is Some {
                non_null(r.subschemas->0.any_of->0@)
            } else {
                Seq::empty()
            };
            &&& shape(o, defs) == NodeKind::OneOf <==> arms.len() > 1
            &&& shape(o, defs) == NodeKind::Object <==> arms.len() <= 1 && r.object is Some
            &&& shape(o, defs) == NodeKind::Array ==> arms.len() <= 1 && r.object is None
                && r.array is Some
            &&& shape(o, defs) != NodeKind::Variant
        }),
{
}

/// An array can be drilled into exactly where its items are objects or unions.
pub proof fn lemma_array_can_be_drilled_into(o: SchemaObject, item: SchemaObject, defs: Defs)
    requires
        o.reference is None,
        o.subschemas is None,
        o.object is None,
        o.array matches Some(av) && match av.items {
            Some(SingleOrVec::Single(s)) => *s == Schema::Object(item),
            Some(SingleOrVec::Vec(v)) => v@.len() > 0 && v@[0] == Schema::Object(item),
            None => false,
        },
    ensures
        shape(o, defs) == if shape(item, defs) == NodeKind::Object || shape(item, defs)
            == NodeKind::OneOf {
            NodeKind::Array
        } else {
            NodeKind::Leaf
        },
{
    assert(resolved(o, defs, 32) == o);
}

/// A reference is seen through to the definition that it names, where that is an object.
pub proof fn lemma_reference_is_seen_through(
    o: SchemaObject,
    defs: Defs,
    start: Seq<char>,
    i: int,
    steps: nat,
)
    requires
        defs.wf(),
        0 <= i < defs.entries@.len(),
        !defs.entries@[i].0@.contains('/'),
        o.reference matches Some(r) && r@ == start + seq!['/'] + defs.entries@[i].0@,
        steps > 0,
    ensures
        defs.entries@[i].1 matches Schema::Object(d) ==> resolved(o, defs, steps) == resolved(
            d,
            defs,
            (steps - 1) as nat,
        ),
        defs.entries@[i].1 is Bool ==> resolved(o, defs, steps) == o,
{
    let name = defs.entries@[i].0@;
    lemma_after_slash(start + seq!['/'], name);
    lemma_find_at(defs.entries@, i);
}

/// A wrapper of an object is seen through, at every step.
pub proof fn lemma_wrapper_at_every_step(
    o: SchemaObject,
    inner: SchemaObject,
    defs: Defs,
    steps: nat,
)
    requires
        o.reference is None,
        wrapped(o) == Some(Schema::Object(inner)),
        steps > 0,
    ensures
        resolved(o, defs, steps) == resolved(inner, defs, (steps - 1) as nat),
        described(o) == described(inner),
{
}

/// A reference to what is not defined is left as it is, and so is a schema that is
/// neither a reference nor a wrapper of an object.
pub proof fn lemma_left_as_it_is(o: SchemaObject, defs: Defs, steps: nat)
    requires
        match o.reference {
            Some(r) => forall|i: int|
                0 <= i < defs.entries@.len() ==> (#[trigger] defs.entries@[i]).0@ != ref_target(
                    r@,
                ),
            None => wrapped(o) is None || wrapped(o)->0 is Bool,
        },
    ensures
        resolved(o, defs, steps) == o,
        forall|p: SchemaObject| #[trigger] resolved(p, defs, 0) == p,
{
    if o.reference is Some {
        lemma_find(defs.entries@, ref_target(o.reference->0@));
    }
}

/// A schema wraps another where it is an `allOf` of that alone, or else a union of which
/// that is the one arm that is not `null`.
pub proof fn lemma_what_is_wrapped(o: SchemaObject)
    ensures
        o.subschemas is None ==> wrapped(o) is None,
        o.subschemas matches Some(sub) ==> {
            let one = sub.all_of matches Some(v) && v@.len() == 1;
            let arms = if sub.one_of is Some {
                sub.one_of->0@
            } else {
                sub.any_of->0@
            };
            let is_union = sub.one_of is Some || sub.any_of is Some;
            &&& one ==> wrapped(o) == Some(sub.all_of->0@[0])
            &&& !one && is_union ==> (wrapped(o) is Some <==> non_null(arms).len() == 1)
            &&& !one && is_union && non_null(arms).len() == 1 ==> wrapped(o) == Some(
                non_null(arms)[0],
            )
            &&& !one && !is_union ==> wrapped(o) is None
        },
{
}

/// The positions of properties that are listed: required ones before the others, each in
/// the order of their names.
pub proof fn lemma_order_within(
    props: Seq<(String, Schema)>,
    required: Set<Seq<char>>,
    priority: Seq<Seq<char>>,
    wanted: bool,
)
    ensures
        ({
            let rest = rest_of(props, required, priority, wanted);
            &&& forall|j: int|
                0 <= j < rest.len() ==> 0 <= #[trigger] rest[j] < props.len() && required.contains(
                    props[rest[j]].0@,
                ) == wanted && !priority.contains(props[rest[j]].0@)
            &&& forall|j: int, k: int| 0 <= j < k < rest.len() ==> rest[j] < rest[k]
        }),
    decreases props.len(),
{
    if props.len() > 0 {
        let init = props.drop_last();
        lemma_order_within(init, required, priority, wanted);
        let some = rest_of(init, required, priority, wanted);
        let rest = rest_of(props, required, priority, wanted);
        assert forall|j: int| 0 <= j < rest.len() implies 0 <= #[trigger] rest[j] < props.len()
            && required.contains(props[rest[j]].0@) == wanted && !priority.contains(
            props[rest[j]].0@,
        ) by {
            if j < some.len() {
                assert(rest[j] == some[j]);
                assert(init[some[j]] == props[some[j]]);
            }
        }
        assert forall|j: int, k: int| 0 <= j < k < rest.len() implies rest[j] < rest[k] by {
            assert(rest[j] == some[j]);
            if k < some.len() {
                assert(rest[k] == some[k]);
            }
        }
    }
}

/// Properties that are named are listed first, in the order in which they are named; a name
/// that no property has counts for nothing. The required ones of the others follow, and
/// then the optional ones.
pub proof fn lemma_named_in_order(
    props: Seq<(String, Schema)>,
    required: Set<Seq<char>>,
    priority: Seq<Seq<char>>,
    name: Seq<char>,
    i: int,
)
    requires
        ascending(keys(props)),
    ensures
        priority_hits(props, Seq::empty()) == Seq::<int>::empty(),
        0 <= i < props.len() && props[i].0@ == name ==> priority_hits(props, priority.push(name))
            == priority_hits(props, priority).push(i),
        (forall|k: int| 0 <= k < props.len() ==> (#[trigger] props[k]).0@ != name)
            ==> priority_hits(props, priority.push(name)) == priority_hits(props, priority),
        property_order(props, required, priority) == priority_hits(props, priority) + rest_of(
            props,
            required,
            priority,
            true,
        ) + rest_of(props, required, priority, false),
{
    assert(priority.push(name).drop_last() =~= priority);
    lemma_find(props, name);
    if 0 <= i < props.len() && props[i].0@ == name {
        lemma_find_at(props, i);
    }
}

/// A property that is named first is listed first, and each of the others once, required
/// ones before optional ones, and each of the two in the order of their names.
pub proof fn lemma_named_first(
    props: Seq<(String, Schema)>,
    required: Set<Seq<char>>,
    name: Seq<char>,
    i: int,
    j: int,
    k: int,
)
    requires
        ascending(keys(props)),
        0 <= i < props.len(),
        props[i].0@ == name,
    ensures
        property_order(props, required, seq![name]).len() == props.len(),
        property_order(props, required, seq![name])[0] == i,
        property_order(props, required, seq![name]).no_duplicates(),
        0 < j < k < props.len() ==> {
            let order = property_order(props, required, seq![name]);
            let a = props[order[j]].0@;
            let b = props[order[k]].0@;
            &&& required.contains(a) || !required.contains(b)
            &&& required.contains(a) == required.contains(b) ==> order[j] < order[k]
        },
{
    let priority = seq![name];
    let order = property_order(props, required, priority);
    assert(priority.drop_last() =~= Seq::<Seq<char>>::empty());
    reveal_with_fuel(priority_hits, 2);
    lemma_find_at(props, i);
    assert(priority_hits(props, priority) =~= seq![i]);
    lemma_order_lists_each_once(props, required, priority);
    lemma_order_bounds(props, required, priority);
    lemma_each_once_len(order, props.len());
    lemma_order_within(props, required, priority, true);
    lemma_order_within(props, required, priority, false);
    let first = rest_of(props, required, priority, true);
    let second = rest_of(props, required, priority, false);
    if 0 < j < k < props.len() {
        if k - 1 < first.len() {
            assert(order[j] == first[j - 1] && order[k] == first[k - 1]);
        } else if j - 1 >= first.len() {
            assert(order[j] == second[j - 1 - first.len()]);
            assert(order[k] == second[k - 1 - first.len()]);
        } else {
            assert(order[j] == first[j - 1] && order[k] == second[k - 1 - first.len()]);
        }
    }
}

/// A list of all positions, each once, is as long as there are positions.
pub proof fn lemma_each_once_len(order: Seq<int>, n: nat)
    requires
        order.no_duplicates(),
        forall|j: int| 0 <= j < order.len() ==> 0 <= #[trigger] order[j] < n,
        forall|i: int| 0 <= i < n ==> #[trigger] order.contains(i),
    ensures
        order.len() == n,
{
    order.unique_seq_to_set();
    vstd::set_lib::lemma_int_range(0, n as int);
    assert(order.to_set() =~= vstd::set_lib::set_int_range(0, n as int)) by {
        assert forall|i: int| order.to_set().contains(i) == vstd::set_lib::set_int_range(
            0,
            n as int,
        ).contains(i) by {
            if 0 <= i < n {
                assert(order.contains(i));
            }
        }
    }
}

/// An object that is populated has one child for each property: with its name, its schema,
/// and required exactly where the object requires it.
pub proof fn lemma_object_children(n: NodeView, o: SchemaObject, defs: Defs, depth: nat, i: int)
    requires
        !n.populated,
        depth <= 64,
        n.children.len() == 0,
        n.schema_snapshot == Some(o),
        o.reference is None,
        wrapped(o) is None,
        union_arms(o) is None,
        item_of(o) is None,
        o.object matches Some(ov) && ov.properties.wf() && 0 <= i < ov.properties.entries@.len(),
    ensures
        populated(n, defs, depth) matches Some(m) ==> {
            let prop = o.object->0.properties.entries@[i];
            &&& m.children.len() == o.object->0.properties.entries@.len()
            &&& m.kind == n.kind
            &&& m.annotations == n.annotations
            &&& exists|j: int|
                {
                    &&& 0 <= j < m.children.len()
                    &&& (#[trigger] m.children[j]).label == prop.0@
                    &&& Some(m.children[j]) == child(
                        Request {
                            label: prop.0@,
                            schema: prop.1,
                            is_required: o.object->0.required@.contains(prop.0@),
                        },
                        defs,
                        depth,
                    )
                }
        },
{
    let ov = o.object->0;
    let props = ov.properties.entries@;
    let none = Seq::<Seq<char>>::empty();
    let order = property_order(props, ov.required@, none);
    let requests = property_requests(o);
    assert(resolved(o, defs, 32) == o);
    lemma_order_lists_each_once(props, ov.required@, none);
    lemma_order_bounds(props, ov.required@, none);
    lemma_each_once_len(order, props.len());
    if let Some(m) = populated(n, defs, depth) {
        let nodes = children(requests, defs, depth)->0;
        assert(m.children =~= nodes);
        assert(m.annotations =~= n.annotations);
        assert(order.contains(i));
        let j = choose|j: int| 0 <= j < order.len() && order[j] == i;
        lemma_children_are(requests, defs, depth, j);
        lemma_children_match(requests, defs, depth);
        assert(m.children[j].label == props[i].0@);
    }
}

/// The children of an object that is populated come required ones first, and in the order
/// of their names.
pub proof fn lemma_object_children_in_order(
    n: NodeView,
    o: SchemaObject,
    defs: Defs,
    depth: nat,
    j: int,
    k: int,
)
    requires
        !n.populated,
        depth <= 64,
        n.children.len() == 0,
        n.schema_snapshot == Some(o),
        o.reference is None,
        wrapped(o) is None,
        union_arms(o) is None,
        item_of(o) is None,
        o.object matches Some(ov) && ov.properties.wf(),
        0 <= j < k < o.object->0.properties.entries@.len(),
    ensures
        populated(n, defs, depth) matches Some(m) ==> {
            let a = m.children[j];
            let b = m.children[k];
            &&& a.is_required || !b.is_required
            &&& a.is_required == b.is_required ==> name_lt(a.label, b.label)
        },
{
    let ov = o.object->0;
    let props = ov.properties.entries@;
    let none = Seq::<Seq<char>>::empty();
    let order = property_order(props, ov.required@, none);
    let requests = property_requests(o);
    assert(resolved(o, defs, 32) == o);
    lemma_order_lists_each_once(props, ov.required@, none);
    lemma_order_bounds(props, ov.required@, none);
    lemma_each_once_len(order, props.len());
    lemma_required_before_optional(props, ov.required@, j, k);
    if let Some(m) = populated(n, defs, depth) {
        let nodes = children(requests, defs, depth)->0;
        assert(m.children =~= nodes);
        lemma_children_are(requests, defs, depth, j);
        lemma_children_are(requests, defs, depth, k);
        lemma_field_starts_out(requests[j], defs, depth);
        lemma_field_starts_out(requests[k], defs, depth);
        let ks = keys(props);
        assert(ks[order[j]] == m.children[j].label);
        assert(ks[order[k]] == m.children[k].label);
    }
}

/// A union that is populated has one child for each real arm, in order: included, made
/// from the arm, a variant unless it is a union itself, with the only value that it allows
/// as its default, and without a type where it can be drilled into.
pub proof fn lemma_union_children(
    n: NodeView,
    o: SchemaObject,
    arms: Seq<Schema>,
    defs: Defs,
    depth: nat,
    i: int,
)
    requires
        !n.populated,
        depth <= 64,
        n.children.len() == 0,
        n.schema_snapshot == Some(o),
        o.reference is None,
        o.subschemas matches Some(sub) && !(sub.all_of matches Some(v) && v@.len() == 1) && match
            sub.one_of {
            Some(v) => arms == non_null(v@),
            None => sub.any_of matches Some(v) && arms == non_null(v@),
        },
        arms.len() > 1,
        0 <= i < arms.len(),
    ensures
        populated(n, defs, depth) matches Some(m) ==> {
            &&& m.kind == NodeKind::OneOf
            &&& m.children.len() == arms.len()
            &&& child(
                Request { label: arm_label(arms[i], defs), schema: arms[i], is_required: true },
                defs,
                depth,
            ) matches Some(c) && {
                let v = m.children[i];
                &&& v.label == arm_label(arms[i], defs)
                &&& v.is_required && v.included
                &&& v.kind == if c.kind == NodeKind::OneOf {
                    NodeKind::OneOf
                } else {
                    NodeKind::Variant
                }
                &&& v.default == match arms[i] {
                    Schema::Object(a) => match a.enum_values {
                        Some(values) => if values@.len() == 1 {
                            Some(values@[0]@)
                        } else {
                            None
                        },
                        None => None,
                    },
                    Schema::Bool(_) => None,
                }
                &&& v.type_desc == if v.expandable {
                    Seq::empty()
                } else {
                    c.type_desc
                }
                &&& v.children == c.children && v.leaf_value == c.leaf_value && v.expandable
                    == c.expandable && v.populated == c.populated
            }
            &&& match tag_of(arms) {
                Some(t) => m.annotations == n.annotations.push("(tagged on `"@ + t + "`)"@),
                None => m.annotations == n.annotations,
            }
        },
{
    let requests = arm_requests(arms, defs);
    assert(resolved(o, defs, 32) == o);
    if let Some(m) = populated(n, defs, depth) {
        let nodes = children(requests, defs, depth)->0;
        lemma_children_are(requests, defs, depth, i);
        lemma_children_match(requests, defs, depth);
        assert(m.children =~= as_arms(nodes, arms));
        lemma_field_starts_out(requests[i], defs, depth);
        assert(m.annotations =~= match tag_of(arms) {
            Some(t) => n.annotations.push("(tagged on `"@ + t + "`)"@),
            None => n.annotations,
        });
    }
}

/// An array that is populated has one child, which stands for its items.
pub proof fn lemma_array_child(
    n: NodeView,
    o: SchemaObject,
    item: Schema,
    defs: Defs,
    depth: nat,
)
    requires
        !n.populated,
        depth <= 64,
        n.children.len() == 0,
        n.schema_snapshot == Some(o),
        o.reference is None,
        wrapped(o) is None,
        union_arms(o) is None,
        o.array matches Some(av) && match av.items {
            Some(SingleOrVec::Single(s)) => *s == item,
            Some(SingleOrVec::Vec(v)) => v@.len() > 0 && v@[0] == item,
            None => false,
        },
    ensures
        populated(n, defs, depth) matches Some(m) ==> {
            &&& m.kind == n.kind
            &&& m.children.len() == 1
            &&& m.children[0].label == "[item]"@
            &&& Some(m.children[0]) == child(
                Request { label: "[item]"@, schema: item, is_required: true },
                defs,
                depth,
            )
        },
{
    let requests = item_request(item);
    assert(resolved(o, defs, 32) == o);
    if let Some(m) = populated(n, defs, depth) {
        lemma_children_are(requests, defs, depth, 0);
        lemma_children_match(requests, defs, depth);
        assert(m.children =~= children(requests, defs, depth)->0);
    }
}

/// A node that is made from a reference or a wrapper has the children of what that is.
pub proof fn lemma_children_of_resolved(
    n: NodeView,
    m: NodeView,
    o: SchemaObject,
    p: SchemaObject,
    defs: Defs,
    depth: nat,
)
    requires
        n.schema_snapshot == Some(o),
        m == (NodeView { schema_snapshot: Some(p), ..n }),
        resolved(o, defs, 32) == resolved(p, defs, 32),
        !n.populated,
        depth <= 64,
    ensures
        populated(n, defs, depth) == populated(m, defs, depth),
{
}

/// A tree is populated ahead to a depth of 64 and no further: what is asked for below has
/// no children.
pub proof fn lemma_populated_ahead(n: NodeView, defs: Defs, depth: nat)
    requires
        !n.populated,
    ensures
        depth > 64 ==> populated(n, defs, depth) == Some(NodeView { populated: true, ..n }),
{
}

/// An array exports a list of its representative element, whatever default it has; an
/// array without one the empty list.
pub proof fn lemma_array_exports_element(n: NodeView)
    requires
        n.kind == NodeKind::Array,
    ensures
        n.children.len() > 0 ==> exported(n) == JsonView::Array(seq![exported(n.children[0])]),
        n.children.len() == 0 ==> exported(n) == JsonView::Array(Seq::empty()),
{
}

/// Any other node exports its default, where it has one.
pub proof fn lemma_node_exports_default(n: NodeView)
    requires
        n.kind != NodeKind::Array,
        n.default is Some,
    ensures
        exported(n) == n.default->0,
{
}

/// Without a default, a union exports what its selected variant exports, and `null` where
/// it selects none; a leaf and a scalar variant export their placeholder; an object, and a
/// variant that is one, export exactly the fields that are included, by their labels.
pub proof fn lemma_node_exports_content(n: NodeView, name: Seq<char>)
    requires
        n.default is None,
    ensures
        n.kind == NodeKind::OneOf ==> exported(n) == if n.selected_variant < n.children.len() {
            exported(n.children[n.selected_variant as int])
        } else {
            JsonView::Null
        },
        n.kind == NodeKind::Leaf && n.leaf_value is Some ==> exported(n) == n.leaf_value->0,
        n.kind == NodeKind::Variant && n.leaf_value is Some ==> exported(n) == n.leaf_value->0,
        n.kind == NodeKind::Object || (n.kind == NodeKind::Variant && n.leaf_value is None) ==> (
        exported(n) matches JsonView::Object(members) && (members.dom().contains(name)
            <==> exists|i: int|
            0 <= i < n.children.len() && (#[trigger] n.children[i]).included && n.children[i].label
                == name)),
{
    lemma_included_members(n.children, name);
}

/// A field that an object includes, and no later one has the label of, is exported under
/// its label with its own value.
pub proof fn lemma_object_exports_field(n: NodeView, j: int)
    requires
        n.default is None,
        n.kind == NodeKind::Object || (n.kind == NodeKind::Variant && n.leaf_value is None),
        0 <= j < n.children.len(),
        n.children[j].included,
        forall|k: int|
            j < k < n.children.len() ==> (#[trigger] n.children[k]).label != n.children[j].label,
    ensures
        exported(n) matches JsonView::Object(members) && members.dom().contains(
            n.children[j].label,
        ) && members[n.children[j].label] == exported(n.children[j]),
{
    lemma_included_value(n.children, j);
}

} // verus!
