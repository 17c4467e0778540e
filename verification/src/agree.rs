//! The builder and the template agree: what a session exports before any key is pressed
//! is the placeholder value of the schema.

use crate::generate::{definition, generated, generates, object_placeholder, placeholder};
use crate::generate_laws::{
    comes_to, lemma_array_holds_item, lemma_bare_null, lemma_first_real_arm, lemma_object_generates,
    lemma_object_holds_placeholders, lemma_object_holds_required, lemma_reference_resolves,
    lemma_union_takes_first_viable, lemma_wrapper_template, lone_wrapper, nulls_bare, plain_array,
    plain_object, same_template, union_of,
};
use crate::json::JsonView;
use crate::laws::{lemma_children_are, lemma_children_match, lemma_included_value};
use crate::names::{keys, lemma_lt_asymmetric};
use crate::naming::ref_target;
use crate::node::{exported, included_members, lemma_included_members, NodeKind, NodeView};
use crate::present::{only_value, real_default, resolved, shape};
use crate::properties::{lemma_order_bounds, lemma_order_lists_each_once, property_order};
use crate::schema::{
    blank_object, item_of, multi_variant, non_null, union_arms, wrapped, Defs, RootSchema, Schema,
    SchemaObject,
};
use crate::tree::{
    arm_requests, child, children, gain, item_request, lemma_blank_is_leaf, property_requests,
    root_tree, Request,
};
use vstd::prelude::*;

verus! {

/// References and wrappers are seen through alike, `steps` of them at most, by the builder
/// and by the template: each reference leads to the definition it names, each wrapper has
/// nothing beside what it wraps, and what is left is neither.
pub open spec fn resolves_cleanly(o: SchemaObject, defs: Defs, steps: nat) -> bool
    decreases steps,
{
    if o.reference is Some {
        let name = ref_target(o.reference->0@);
        steps > 0 && definition(defs, o.reference->0@) == defs.at(name) && match defs.at(name) {
            Some(Schema::Object(inner)) => resolves_cleanly(inner, defs, (steps - 1) as nat),
            _ => false,
        }
    } else {
        match wrapped(o) {
            Some(Schema::Object(inner)) => steps > 0 && lone_wrapper(o, defs) && resolves_cleanly(
                inner,
                defs,
                (steps - 1) as nat,
            ),
            _ => true,
        }
    }
}

/// What stands behind the last slash of a text whose end has none.
pub proof fn lemma_after_slash(start: Seq<char>, name: Seq<char>)
    requires
        start.len() > 0,
        start.last() == '/',
        !name.contains('/'),
    ensures
        ref_target(start + name) == name,
    decreases name.len(),
{
    let all = start + name;
    if name.len() == 0 {
        assert(all =~= start);
        assert(ref_target(all) =~= name);
    } else {
        let init = name.drop_last();
        assert forall|i: int| 0 <= i < init.len() implies init[i] != '/' by {
            assert(name.contains(name[i]));
        }
        lemma_after_slash(start, init);
        assert(all.drop_last() =~= start + init);
        assert(name.contains(name.last()));
        assert(init.push(name.last()) =~= name);
    }
}

/// A pointer to a definition leads the builder and the template to the same one, where
/// there is no slash in its name.
pub proof fn lemma_pointer_leads_to_definition(defs: Defs, name: Seq<char>)
    requires
        !name.contains('/'),
    ensures
        ref_target("#/definitions/"@ + name) == name,
        definition(defs, "#/definitions/"@ + name) == defs.at(name),
{
    reveal_strlit("#/definitions/");
    let start = "#/definitions/"@;
    lemma_after_slash(start, name);
    assert((start + name).take(start.len() as int) =~= start);
    assert((start + name).skip(start.len() as int) =~= name);
}

/// A schema has the placeholder of what it is once references and wrappers are seen
/// through.
pub proof fn lemma_resolved_template(o: SchemaObject, defs: Defs, steps: nat)
    requires
        resolves_cleanly(o, defs, steps),
    ensures
        same_template(Schema::Object(o), Schema::Object(resolved(o, defs, steps)), defs),
    decreases steps,
{
    if o.reference is Some {
        lemma_reference_resolves(o, defs);
        let inner = defs.at(ref_target(o.reference->0@))->0->Object_0;
        lemma_resolved_template(inner, defs, (steps - 1) as nat);
    } else if let Some(Schema::Object(inner)) = wrapped(o) {
        lemma_wrapper_template(o, defs);
        lemma_resolved_template(inner, defs, (steps - 1) as nat);
    }
}

/// The builder and the template read `s` alike, nested at most `k` deep: where it gives a
/// default, that is the placeholder, or goes unused, and they read its content alike.
pub open spec fn builds_alike(s: Schema, defs: Defs, k: nat) -> bool
    decreases k, 1int,
{
    match s {
        Schema::Bool(_) => true,
        Schema::Object(o) => {
            &&& real_default(o) matches Some(d) ==> shape(o, defs) == NodeKind::Array || d
                == generated(s, defs)
            &&& content_alike(o, defs, k)
        },
    }
}

/// The builder and the template read what `o` holds alike, nested at most `k` deep: it
/// cannot be drilled into; or it is an object, an array with one schema for its items, or
/// a union, with no other keyword that has a placeholder; and they read alike the required
/// properties, the items, or the first real arm of the union. That arm is no array and has
/// a placeholder other than `null`, its only value where it allows one only.
pub open spec fn content_alike(o: SchemaObject, defs: Defs, k: nat) -> bool
    decreases k, 0int,
{
    let r = resolved(o, defs, 32);
    match shape(o, defs) {
        NodeKind::Leaf => true,
        NodeKind::Object => {
            &&& k > 0
            &&& resolves_cleanly(o, defs, 32)
            &&& plain_object(r)
            &&& item_of(r) is None
            &&& r.object->0.properties.wf()
            &&& forall|i: int|
                0 <= i < r.object->0.properties.entries@.len() && r.object->0.required@.contains(
                    (#[trigger] r.object->0.properties.entries@[i]).0@,
                ) ==> builds_alike(r.object->0.properties.entries@[i].1, defs, (k - 1) as nat)
        },
        NodeKind::Array => {
            &&& k > 0
            &&& resolves_cleanly(o, defs, 32)
            &&& plain_array(r)
            &&& builds_alike(item_of(r)->0, defs, (k - 1) as nat)
        },
        _ => {
            let arms = union_arms(r)->0;
            let first = non_null(arms)[0];
            &&& k > 0
            &&& resolves_cleanly(o, defs, 32)
            &&& union_of(r, arms)
            &&& nulls_bare(arms)
            &&& comes_to(r, first, defs)
            &&& generated(first, defs) != JsonView::Null
            &&& only_value(first) matches Some(v) ==> v == generated(first, defs)
            &&& first matches Schema::Object(a) && shape(a, defs) != NodeKind::Array
                && content_alike(a, defs, (k - 1) as nat)
        },
    }
}

/// A union has the placeholder of its first real arm, where that is not `null`.
proof fn lemma_union_template(r: SchemaObject, defs: Defs)
    requires
        multi_variant(r),
        union_of(r, union_arms(r)->0),
        nulls_bare(union_arms(r)->0),
        comes_to(r, non_null(union_arms(r)->0)[0], defs),
        generates(non_null(union_arms(r)->0)[0], defs),
        generated(non_null(union_arms(r)->0)[0], defs) != JsonView::Null,
    ensures
        generates(Schema::Object(r), defs),
        generated(Schema::Object(r), defs) == generated(non_null(union_arms(r)->0)[0], defs),
{
    let arms = union_arms(r)->0;
    let j = lemma_first_real_arm(arms);
    assert forall|i: int| 0 <= i < j implies generates(#[trigger] arms[i], defs) && generated(
        arms[i],
        defs,
    ) == JsonView::Null by {
        lemma_bare_null(arms[i], defs, 0);
    }
    lemma_union_takes_first_viable(r, arms, defs, j);
}

/// A required property that the builder and the template read alike is exported with the
/// placeholder of its schema.
proof fn lemma_property_agrees(r: SchemaObject, defs: Defs, depth: nat, k: nat, i: int)
    requires
        r.object is Some,
        r.object->0.properties.wf(),
        0 <= i < r.object->0.properties.entries@.len(),
        r.object->0.required@.contains(r.object->0.properties.entries@[i].0@),
        builds_alike(r.object->0.properties.entries@[i].1, defs, k),
        depth + k <= 64,
    ensures
        children(property_requests(r), defs, depth) matches Some(nodes) ==> {
            let prop = r.object->0.properties.entries@[i];
            &&& generates(prop.1, defs)
            &&& included_members(nodes).dom().contains(prop.0@)
            &&& included_members(nodes)[prop.0@] == generated(prop.1, defs)
        },
    decreases k, 3int,
{
    let ov = r.object->0;
    let props = ov.properties.entries@;
    let none = Seq::<Seq<char>>::empty();
    let order = property_order(props, ov.required@, none);
    let requests = property_requests(r);
    lemma_order_bounds(props, ov.required@, none);
    lemma_order_lists_each_once(props, ov.required@, none);
    assert(order.contains(i));
    let j = choose|j: int| 0 <= j < order.len() && order[j] == i;
    if let Some(nodes) = children(requests, defs, depth) {
        lemma_children_are(requests, defs, depth, j);
        lemma_children_match(requests, defs, depth);
        lemma_child_agrees(requests[j], defs, depth, k);
        assert forall|m: int| j < m < nodes.len() implies (#[trigger] nodes[m]).label
            != nodes[j].label by {
            assert(order[m] != order[j]);
            assert(0 <= order[m] < props.len());
            let ks = keys(props);
            if order[m] < i {
                lemma_lt_asymmetric(ks[order[m]], ks[i]);
            } else {
                lemma_lt_asymmetric(ks[i], ks[order[m]]);
            }
        }
        lemma_included_value(nodes, j);
    }
}

/// The children of an object are exported as its placeholder.
proof fn lemma_properties_agree(r: SchemaObject, defs: Defs, depth: nat, k: nat)
    requires
        plain_object(r),
        r.object->0.properties.wf(),
        forall|i: int|
            0 <= i < r.object->0.properties.entries@.len() && r.object->0.required@.contains(
                (#[trigger] r.object->0.properties.entries@[i]).0@,
            ) ==> builds_alike(r.object->0.properties.entries@[i].1, defs, k),
        depth + k <= 64,
    ensures
        children(property_requests(r), defs, depth) matches Some(nodes) ==> generates(
            Schema::Object(r),
            defs,
        ) && JsonView::Object(included_members(nodes)) == generated(Schema::Object(r), defs),
    decreases k, 4int,
{
    let whole = Schema::Object(r);
    let ov = r.object->0;
    let props = ov.properties.entries@;
    let order = property_order(props, ov.required@, Seq::empty());
    let requests = property_requests(r);
    if let Some(nodes) = children(requests, defs, depth) {
        let built = included_members(nodes);
        assert forall|i: int|
            0 <= i < props.len() && ov.required@.contains((#[trigger] props[i]).0@) implies {
            &&& generates(props[i].1, defs)
            &&& built.dom().contains(props[i].0@)
            &&& built[props[i].0@] == generated(props[i].1, defs)
        } by {
            lemma_property_agrees(r, defs, depth, k, i);
        }
        lemma_object_generates(r, defs);
        lemma_children_match(requests, defs, depth);
        lemma_order_bounds(props, ov.required@, Seq::empty());
        let template = generated(whole, defs)->Object_0;
        lemma_object_holds_required(r, defs, Seq::empty());
        assert forall|name: Seq<char>|
            built.dom().contains(name) == #[trigger] template.dom().contains(name) by {
            lemma_object_holds_required(r, defs, name);
            lemma_included_members(nodes, name);
            if built.dom().contains(name) {
                let j = choose|j: int|
                    0 <= j < nodes.len() && (#[trigger] nodes[j]).included && nodes[j].label
                        == name;
                assert(requests[j].label == name);
                assert(0 <= order[j] < props.len());
                assert(props[order[j]].0@ == name);
            }
        }
        assert forall|name: Seq<char>| #[trigger] template.dom().contains(name) implies built[name]
            == template[name] by {
            lemma_object_holds_required(r, defs, name);
            let i = choose|i: int| 0 <= i < props.len() && (#[trigger] props[i]).0@ == name;
            assert(props[i].0@ == name);
            lemma_object_holds_placeholders(r, defs, i);
        }
        assert(built =~= template);
    }
}

/// What a node gains when it is populated is exported as the placeholder of its schema.
proof fn lemma_gain_agrees(o: SchemaObject, defs: Defs, depth: nat, k: nat)
    requires
        content_alike(o, defs, k),
        shape(o, defs) != NodeKind::Leaf,
        depth + k <= 65,
    ensures
        gain(o, defs, depth) matches Some(g) ==> {
            let template = generated(Schema::Object(o), defs);
            &&& generates(Schema::Object(o), defs)
            &&& g.is_union == (shape(o, defs) == NodeKind::OneOf)
            &&& match shape(o, defs) {
                NodeKind::Object => JsonView::Object(included_members(g.children)) == template,
                NodeKind::Array => g.children.len() == 1 && JsonView::Array(
                    seq![exported(g.children[0])],
                ) == template,
                _ => g.children.len() > 0 && exported(g.children[0]) == template,
            }
        },
    decreases k, 0int,
{
    let r = resolved(o, defs, 32);
    let below = (k - 1) as nat;
    lemma_resolved_template(o, defs, 32);
    if let Some(g) = gain(o, defs, depth) {
        if shape(o, defs) == NodeKind::OneOf {
            let arms = non_null(union_arms(r)->0);
            let requests = arm_requests(arms, defs);
            lemma_children_are(requests, defs, depth, 0);
            lemma_content_agrees(requests[0], defs, depth, below);
            lemma_union_template(r, defs);
        } else if shape(o, defs) == NodeKind::Array {
            let requests = item_request(item_of(r)->0);
            lemma_children_are(requests, defs, depth, 0);
            lemma_child_agrees(requests[0], defs, depth, below);
            lemma_array_holds_item(r, defs);
        } else {
            lemma_properties_agree(r, defs, depth, below);
        }
    }
}

/// A required child, its default left aside, is exported as the placeholder of its schema.
proof fn lemma_content_agrees(request: Request, defs: Defs, depth: nat, k: nat)
    requires
        request.is_required,
        request.schema matches Schema::Object(o) && content_alike(o, defs, k),
        depth + k <= 64,
    ensures
        child(request, defs, depth) matches Some(n) ==> {
            let o = request.schema->Object_0;
            &&& generates(request.schema, defs)
            &&& n.kind == shape(o, defs)
            &&& n.default == real_default(o)
            &&& n.leaf_value is Some <==> n.kind == NodeKind::Leaf
            &&& n.selected_variant == 0
            &&& exported(NodeView { default: None, ..n }) == generated(request.schema, defs)
        },
    decreases k, 1int,
{
    let o = request.schema->Object_0;
    if shape(o, defs) != NodeKind::Leaf {
        lemma_gain_agrees(o, defs, depth + 1, k);
        if let Some(n) = child(request, defs, depth) {
            let g = gain(o, defs, depth + 1)->0;
            assert(n.children =~= g.children);
        }
    }
}

/// A required child is exported as the placeholder of its schema.
proof fn lemma_child_agrees(request: Request, defs: Defs, depth: nat, k: nat)
    requires
        request.is_required,
        builds_alike(request.schema, defs, k),
        depth + k <= 64,
    ensures
        child(request, defs, depth) matches Some(n) ==> generates(request.schema, defs) && exported(
            n,
        ) == generated(request.schema, defs),
    decreases k, 2int,
{
    match request.schema {
        Schema::Object(_) => {
            lemma_content_agrees(request, defs, depth, k);
            if let Some(n) = child(request, defs, depth) {
                let bare = NodeView { default: None, ..n };
                if n.default is None {
                    assert(bare == n);
                }
            }
        },
        Schema::Bool(_) => {
            let anything = Schema::Object(blank_object());
            lemma_blank_is_leaf(defs);
            assert forall|fuel: nat| #[trigger]
                placeholder(anything, defs, false, fuel) == Some(JsonView::Null) by {
                assert(placeholder(anything, defs, false, fuel) == object_placeholder(
                    blank_object(),
                    defs,
                    false,
                    fuel,
                ));
            }
            assert(placeholder(anything, defs, false, defs.entries@.len()) == Some(JsonView::Null));
            assert(placeholder(request.schema, defs, false, 0) == Some(JsonView::Null));
        },
    }
}

/// The builder and the template agree: before any key is pressed, a session exports the
/// value that `generate_value` gives for the schema, wherever the two read it alike. The
/// default of the schema as a whole is used by neither.
pub proof fn lemma_builder_agrees_with_template(root: RootSchema, k: nat)
    requires
        content_alike(root.schema, root.definitions, k),
        shape(root.schema, root.definitions) == NodeKind::Object || shape(
            root.schema,
            root.definitions,
        ) == NodeKind::OneOf,
        k <= 65,
    ensures
        root_tree(root) matches Some(n) ==> {
            &&& generates(Schema::Object(root.schema), root.definitions)
            &&& exported(n) == generated(Schema::Object(root.schema), root.definitions)
        },
{
    lemma_gain_agrees(root.schema, root.definitions, 0, k);
    if let Some(n) = root_tree(root) {
        let g = gain(root.schema, root.definitions, 0)->0;
        assert(n.children =~= g.children);
    }
}

/// The builder and the template agree field for field: before any key is pressed, a
/// required field that the two read alike is exported with the value that `generate_value`
/// gives it in the whole object, whatever the other fields are.
pub proof fn lemma_field_agrees_with_template(root: RootSchema, i: int, k: nat)
    requires
        resolves_cleanly(root.schema, root.definitions, 32),
        k <= 64,
        ({
            let r = resolved(root.schema, root.definitions, 32);
            &&& plain_object(r)
            &&& item_of(r) is None
            &&& r.object->0.properties.wf()
            &&& 0 <= i < r.object->0.properties.entries@.len()
            &&& r.object->0.required@.contains(r.object->0.properties.entries@[i].0@)
            &&& builds_alike(r.object->0.properties.entries@[i].1, root.definitions, k)
        }),
        generates(Schema::Object(root.schema), root.definitions),
    ensures
        root_tree(root) matches Some(n) ==> {
            let r = resolved(root.schema, root.definitions, 32);
            let name = r.object->0.properties.entries@[i].0@;
            let built = exported(n);
            let template = generated(Schema::Object(root.schema), root.definitions);
            &&& built is Object && template is Object
            &&& built->Object_0.dom().contains(name) && template->Object_0.dom().contains(name)
            &&& built->Object_0[name] == template->Object_0[name]
        },
{
    let defs = root.definitions;
    let r = resolved(root.schema, defs, 32);
    lemma_resolved_template(root.schema, defs, 32);
    lemma_property_agrees(r, defs, 0, k, i);
    lemma_object_holds_placeholders(r, defs, i);
    lemma_object_holds_required(r, defs, r.object->0.properties.entries@[i].0@);
    if let Some(n) = root_tree(root) {
        assert(n.children =~= children(property_requests(r), defs, 0)->0);
    }
}

} // verus!
