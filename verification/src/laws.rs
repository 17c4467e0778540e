//! What can be relied on in a session: what the keys leave alone, what they bring into
//! the export, and where the exported values come from.

use crate::generate::{generated, generates};
use crate::json::JsonView;
use crate::node::{exported, included_members, lemma_included_members, NodeKind, NodeView};
use crate::present::{
    classified, described, first_four, only_value, real_default, resolved, shape, shown_values,
};
use crate::properties::{lemma_order_bounds, lemma_order_covers, property_order};
use crate::render::{arm_texts, bar, enum_texts, item_text, object_type_text, type_text};
use crate::rows::{
    at, child_rows, included_along, lemma_at_parent, lemma_at_put, put, rows_of, selection,
    with_child, RowView,
};
use crate::schema::{
    item_of, lemma_item_smaller, lemma_wrapped_smaller, non_null, one_type, scalar_name, union_arms,
    wrapped, Defs, InstanceType, RootSchema, Schema, SchemaObject,
};
use crate::session::{
    after, after_collapse, cursor, flipped, folded, lemma_cursor_leads, picked, row_at, shown_rows,
    swapped, Action, State,
};
use crate::sound::{fits, lemma_at_sound, lemma_populated_sound, lemma_rows_lead, sound};
use crate::tree::{
    as_arm, child, children, fresh, own_object, populated, property_requests, root_tree, Request,
};
use vstd::prelude::*;

verus! {

/// Changing a child that is left out, or in a way that its value does not show, changes
/// no member of the object.
proof fn lemma_members_update(nodes: Seq<NodeView>, i: int, c: NodeView)
    requires
        0 <= i < nodes.len(),
        c.label == nodes[i].label,
        c.included == nodes[i].included,
        c.included ==> exported(c) == exported(nodes[i]),
    ensures
        included_members(nodes.update(i, c)) == included_members(nodes),
    decreases nodes.len(),
{
    let changed = nodes.update(i, c);
    if i < nodes.len() - 1 {
        lemma_members_update(nodes.drop_last(), i, c);
        assert(changed.drop_last() =~= nodes.drop_last().update(i, c));
    } else {
        assert(changed.drop_last() =~= nodes.drop_last());
    }
}

/// Changing a node in a way that its own value does not show leaves the export as it is.
proof fn lemma_export_put(root: NodeView, path: Seq<usize>, m: NodeView)
    requires
        at(root, path) matches Some(n) && m.label == n.label && m.included == n.included
            && exported(m) == exported(n),
    ensures
        exported(put(root, path, m)) == exported(root),
        put(root, path, m).label == root.label || path.len() == 0,
        put(root, path, m).included == root.included,
    decreases path.len(),
{
    if path.len() > 0 {
        let i = path[0] as int;
        let c = root.children[i];
        lemma_export_put(c, path.skip(1), m);
        let d = put(c, path.skip(1), m);
        if path.len() == 1 {
            assert(path.skip(1) =~= Seq::<usize>::empty());
        }
        lemma_members_update(root.children, i, d);
        let after = with_child(root, i, d);
        assert(after.children.len() == root.children.len());
        assert(forall|k: int|
            0 <= k < after.children.len() ==> exported(#[trigger] after.children[k]) == exported(
                root.children[k],
            ));
    }
}

/// The node at `path` is an optional child that stands for the items of an array, and is
/// yet to be populated. That takes a schema that wraps others deeper than wrappers are
/// seen through.
pub open spec fn stray(root: NodeView, path: Seq<usize>) -> bool {
    &&& path.len() > 0
    &&& path.last() == 0
    &&& at(root, path.drop_last()) matches Some(p) && p.kind == NodeKind::Array
    &&& at(root, path) matches Some(n) && !n.is_required && !n.populated
}

/// Changing a node that is left out leaves the export as it is.
proof fn lemma_export_hidden(root: NodeView, path: Seq<usize>, m: NodeView, defs: Defs)
    requires
        sound(root, defs),
        path.len() > 0,
        !stray(root, path),
        at(root, path) matches Some(n) && m.label == n.label && !n.included && !m.included
            && !n.populated,
    ensures
        exported(put(root, path, m)) == exported(root),
{
    lemma_at_parent(root, path);
    let parent = path.drop_last();
    let p = at(root, parent)->0;
    let i = path.last() as int;
    lemma_at_sound(root, parent, defs);
    assert(sound(p.children[i], defs));
    let q = with_child(p, i, m);
    lemma_members_update(p.children, i, m);
    assert(p.kind != NodeKind::OneOf) by {
        if p.kind == NodeKind::OneOf {
            assert(p.children[i].is_required);
        }
    }
    assert(exported(q) == exported(p));
    lemma_export_put(root, parent, q);
    assert(put(root, path, m) == put(root, parent, q));
}

/// Peeking commits to nothing: expanding or collapsing a node leaves the export as it is.
pub proof fn lemma_peeking_keeps_export(root: NodeView, path: Seq<usize>, defs: Defs)
    requires
        sound(root, defs),
        root.included,
        !stray(root, path),
    ensures
        flipped(root, path, defs) matches Some(t) ==> exported(t) == exported(root),
        exported(folded(root, path)) == exported(root),
{
    if let Some(n) = at(root, path) {
        let y = NodeView { expanded: false, ..n };
        lemma_same_export(n, y);
        lemma_export_put(root, path, y);
        lemma_at_sound(root, path, defs);
        lemma_populated_sound(n, defs, 0);
        if let Some(m) = populated(n, defs, 0) {
            let x = NodeView { expanded: !n.expanded, ..m };
            if n.populated {
                lemma_same_export(n, x);
                lemma_export_put(root, path, x);
            } else {
                assert(path.len() > 0);
                lemma_export_hidden(root, path, x, defs);
            }
        }
    }
}

/// Whether a node is expanded does not show in its value.
proof fn lemma_same_export(n: NodeView, m: NodeView)
    requires
        m == (NodeView { expanded: m.expanded, ..n }),
    ensures
        exported(m) == exported(n),
{
    assert(m.children == n.children);
}

/// Looking around leaves the export as it is: moving the cursor, collapsing, and
/// expanding what is not a variant.
pub proof fn lemma_looking_keeps_export(s: State, action: Action, defs: Defs)
    requires
        fits(s.root),
        sound(s.root, defs),
        s.root.included,
        action != Action::Toggle,
        action == Action::Activate ==> (cursor(s) matches Some(row) ==> !row.is_variant_child
            && !stray(s.root, row.path)),
    ensures
        after(s, action, defs) matches Some(t) ==> exported(t.root) == exported(s.root),
{
    lemma_cursor_leads(s);
    if let Some(row) = cursor(s) {
        if action == Action::Activate {
            lemma_peeking_keeps_export(s.root, row.path, defs);
        } else if action == Action::CollapseOrUp {
            let n = at(s.root, row.path)->0;
            let y = NodeView { expanded: false, ..n };
            lemma_same_export(n, y);
            lemma_export_put(s.root, row.path, y);
        }
    }
}

/// Every node along the way is included, itself first.
pub proof fn lemma_included_along(n: NodeView, path: Seq<usize>, k: int)
    requires
        at(n, path) is Some,
        0 <= k <= path.len(),
    ensures
        at(included_along(n, path), path.take(k)) matches Some(a) && a.included,
        at(included_along(n, path), path) matches Some(a) && at(n, path) matches Some(b) && a == (
        NodeView { included: true, ..b }),
    decreases path.len(),
{
    if path.len() > 0 {
        let c = n.children[path[0] as int];
        let j = if k > 0 {
            k - 1
        } else {
            0
        };
        lemma_included_along(c, path.skip(1), j);
        if k > 0 {
            assert(path.take(k).skip(1) =~= path.skip(1).take(k - 1));
        } else {
            assert(path.take(k) =~= Seq::<usize>::empty());
        }
    } else {
        assert(path.take(k) =~= path);
    }
}

/// A choice is never dropped for want of an ancestor: picking a variant selects it in
/// its parent, and includes the parent and every ancestor.
pub proof fn lemma_picking_includes_ancestors(
    root: NodeView,
    path: Seq<usize>,
    defs: Defs,
    k: int,
)
    requires
        at(root, path) is Some,
        0 <= k < path.len(),
    ensures
        picked(root, path, defs) matches Some(t) ==> {
            &&& at(t, path.take(k)) matches Some(a) && a.included
            &&& at(t, path.drop_last()) matches Some(p) && p.selected_variant == path.last()
        },
{
    let n = at(root, path)->0;
    if let Some(m) = populated(n, defs, 0) {
        let parent = path.drop_last();
        let x = NodeView { expanded: true, ..m };
        let r = put(root, path, x);
        lemma_at_put(root, path, x);
        lemma_at_parent(r, path);
        let p = at(r, parent)->0;
        let q = NodeView { selected_variant: path.last(), ..p };
        lemma_at_put(r, parent, q);
        lemma_included_along(put(r, parent, q), parent, k);
        assert(parent.take(k) =~= path.take(k));
    }
}

/// Including a field includes every ancestor with it; excluding one leaves everything
/// else as it is.
pub proof fn lemma_toggling_field(root: NodeView, path: Seq<usize>, defs: Defs, k: int)
    requires
        at(root, path) is Some,
        0 <= k <= path.len(),
    ensures
        swapped(root, path, defs) matches Some(t) ==> {
            let n = at(root, path)->0;
            &&& at(t, path) matches Some(m) && m.included == !n.included
            &&& !n.included ==> (at(t, path.take(k)) matches Some(a) && a.included)
            &&& n.included ==> t == put(root, path, (NodeView { included: false, ..n }))
        },
{
    let n = at(root, path)->0;
    if n.included {
        lemma_at_put(root, path, NodeView { included: false, ..n });
    } else if n.expandable {
        if let Some(m) = populated(n, defs, 0) {
            let x = NodeView { included: true, expanded: true, ..m };
            lemma_at_put(root, path, x);
            lemma_included_along(put(root, path, x), path, k);
        }
    } else {
        let x = NodeView { included: true, ..n };
        lemma_at_put(root, path, x);
        lemma_included_along(put(root, path, x), path, k);
    }
}

/// A field that cannot be drilled into exports its default, else the placeholder that
/// `generate_value` gives; a variant the only value that it allows, else that placeholder.
pub proof fn lemma_leaf_exports_placeholder(request: Request, defs: Defs, depth: nat)
    requires
        request.schema matches Schema::Object(o) && shape(o, defs) == NodeKind::Leaf,
    ensures
        child(request, defs, depth) is Some <==> generates(request.schema, defs),
        child(request, defs, depth) matches Some(n) ==> {
            &&& exported(n) == match real_default(request.schema->Object_0) {
                Some(d) => d,
                None => generated(request.schema, defs),
            }
            &&& exported(as_arm(n, request.schema)) == match only_value(request.schema) {
                Some(v) => v,
                None => generated(request.schema, defs),
            }
        },
{
}

/// `root` is shown by its properties, rather than as a union or an array.
pub open spec fn shows_properties(root: RootSchema) -> bool {
    let r = resolved(root.schema, root.definitions, 32);
    &&& r.object is Some
    &&& union_arms(r) matches Some(arms) ==> non_null(arms).len() == 0 || (non_null(arms).len() == 1
        && non_null(arms)[0] is Bool)
    &&& item_of(r) is None
}

/// A session starts out with the required fields: before any key is pressed, the export
/// has exactly the required properties of the schema.
pub proof fn lemma_first_export_is_required(root: RootSchema, name: Seq<char>)
    requires
        shows_properties(root),
    ensures
        root_tree(root) matches Some(n) ==> (exported(n) matches JsonView::Object(members) && (
        members.dom().contains(name) <==> {
            let ov = resolved(root.schema, root.definitions, 32).object->0;
            ov.required@.contains(name) && exists|i: int|
                0 <= i < ov.properties.entries@.len() && (#[trigger] ov.properties.entries@[i]).0@
                    == name
        })),
{
    let r = resolved(root.schema, root.definitions, 32);
    let ov = r.object->0;
    let props = ov.properties.entries@;
    let order = property_order(props, ov.required@, Seq::empty());
    let requests = property_requests(r);
    if let Some(n) = root_tree(root) {
        let nodes = children(requests, root.definitions, 0)->0;
        assert(n.children =~= nodes);
        lemma_children_match(requests, root.definitions, 0);
        lemma_included_members(nodes, name);
        lemma_order_bounds(props, ov.required@, Seq::empty());
        if exists|j: int| 0 <= j < nodes.len() && (#[trigger] nodes[j]).included && nodes[j].label
            == name {
            let j = choose|j: int|
                0 <= j < nodes.len() && (#[trigger] nodes[j]).included && nodes[j].label == name;
            assert(requests[j].label == name);
            assert(0 <= order[j] < props.len());
            assert(props[order[j]].0@ == name);
        }
        if ov.required@.contains(name) && exists|i: int|
            0 <= i < props.len() && (#[trigger] props[i]).0@ == name {
            let i = choose|i: int| 0 <= i < props.len() && (#[trigger] props[i]).0@ == name;
            lemma_order_covers(props, ov.required@, i);
            let j = choose|j: int| 0 <= j < order.len() && order[j] == i;
            assert(requests[j].label == name);
            assert(nodes[j].included);
        }
    }
}

/// Populating a node changes neither its label nor whether it is included.
proof fn lemma_populated_match(n: NodeView, defs: Defs, depth: nat)
    ensures
        populated(n, defs, depth) matches Some(m) ==> m.label == n.label && m.included
            == n.included,
{
}

/// Each child has the label it was asked for with, and is included where it is required.
pub proof fn lemma_children_match(requests: Seq<Request>, defs: Defs, depth: nat)
    ensures
        children(requests, defs, depth) matches Some(nodes) ==> {
            &&& nodes.len() == requests.len()
            &&& forall|i: int|
                0 <= i < nodes.len() ==> (#[trigger] nodes[i]).label == requests[i].label
                    && nodes[i].included == requests[i].is_required
        },
    decreases requests.len(),
{
    if requests.len() > 0 {
        let init = requests.drop_last();
        lemma_children_match(init, defs, depth);
        if let Some(nodes) = children(requests, defs, depth) {
            let some = children(init, defs, depth)->0;
            assert forall|i: int| 0 <= i < nodes.len() implies (#[trigger] nodes[i]).label
                == requests[i].label && nodes[i].included == requests[i].is_required by {
                if i < some.len() {
                    assert(nodes[i] == some[i]);
                    assert(init[i] == requests[i]);
                } else {
                    let request = requests.last();
                    assert(child(request, defs, depth) == Some(nodes[i]));
                    let o = own_object(request.schema);
                    let n = fresh(
                        request.label,
                        o,
                        request.is_required,
                        classified(o, defs)->0,
                    );
                    lemma_populated_match(n, defs, depth + 1);
                }
            }
        }
    }
}

/// Each child is the one that was asked for.
pub proof fn lemma_children_are(requests: Seq<Request>, defs: Defs, depth: nat, j: int)
    requires
        0 <= j < requests.len(),
    ensures
        children(requests, defs, depth) matches Some(nodes) ==> nodes.len() == requests.len()
            && child(requests[j], defs, depth) == Some(nodes[j]),
    decreases requests.len(),
{
    let init = requests.drop_last();
    lemma_children_match(requests, defs, depth);
    lemma_children_match(init, defs, depth);
    if j < init.len() {
        lemma_children_are(init, defs, depth, j);
    }
}

/// An included child whose label no later child has is exported under its label.
pub proof fn lemma_included_value(nodes: Seq<NodeView>, j: int)
    requires
        0 <= j < nodes.len(),
        nodes[j].included,
        forall|k: int| j < k < nodes.len() ==> (#[trigger] nodes[k]).label != nodes[j].label,
    ensures
        included_members(nodes).dom().contains(nodes[j].label),
        included_members(nodes)[nodes[j].label] == exported(nodes[j]),
    decreases nodes.len(),
{
    let init = nodes.drop_last();
    if j < init.len() {
        assert forall|k: int| j < k < init.len() implies (#[trigger] init[k]).label
            != init[j].label by {
            assert(nodes[k].label != nodes[j].label);
        }
        lemma_included_value(init, j);
        assert(nodes[nodes.len() - 1].label != nodes[j].label);
    }
}

/// The grammar reference and the builder have the same text for the type that `o` is: it
/// is a reference; a wrapper of such; an `enum` of at most four values; an array whose
/// items are such, or anything; or a scalar. Objects and unions with several real arms,
/// which the builder only names as such, are not.
pub open spec fn named_alike(o: SchemaObject) -> bool
    decreases o,
{
    if o.reference is Some {
        true
    } else if wrapped(o) is Some && wrapped(o)->0 is Object {
        proof {
            lemma_wrapped_smaller(o);
            assert(decreases_to!(wrapped(o)->0 => wrapped(o)->0->Object_0));
        }
        named_alike(wrapped(o)->0->Object_0)
    } else if wrapped(o) is Some || union_arms(o) is Some {
        false
    } else if o.enum_values is Some && o.enum_values->0@.len() > 0 {
        o.enum_values->0@.len() <= 4
    } else if o.array is Some {
        proof {
            lemma_item_smaller(o);
            assert(item_of(o) is Some && item_of(o)->0 is Object ==> decreases_to!(
                item_of(o)->0 => item_of(o)->0->Object_0));
        }
        one_type(o.instance_type) == Some(InstanceType::Array) && match item_of(o) {
            None => true,
            Some(Schema::Bool(any)) => any,
            Some(Schema::Object(item)) => named_alike(item),
        }
    } else {
        scalar_name(o) is Some
    }
}

/// The real arms of a union have a text each.
pub proof fn lemma_arm_texts(arms: Seq<Schema>, indent: nat, on: bool)
    ensures
        arm_texts(arms, indent, on).len() == non_null(arms).len(),
        forall|i: int|
            0 <= i < non_null(arms).len() ==> arm_texts(arms, indent, on)[i] == type_text(
                #[trigger] non_null(arms)[i],
                indent,
                on,
            ),
    decreases arms.len(),
{
    if arms.len() > 0 {
        let init = arms.drop_last();
        lemma_arm_texts(init, indent, on);
        let texts = arm_texts(init, indent, on);
        let real_arms = non_null(init);
        assert forall|i: int| 0 <= i < non_null(arms).len() implies arm_texts(
            arms,
            indent,
            on,
        )[i] == type_text(#[trigger] non_null(arms)[i], indent, on) by {
            if i < real_arms.len() {
                assert(non_null(arms)[i] == real_arms[i]);
                assert(arm_texts(arms, indent, on)[i] == texts[i]);
            }
        }
    }
}

/// The grammar reference and the builder name types alike: a reference by the name it
/// refers to, a wrapper as what it wraps, an `enum` by its values, an array by its items,
/// and a scalar by the name of its type.
pub proof fn lemma_types_named_alike(o: SchemaObject, indent: nat)
    requires
        named_alike(o),
    ensures
        described(o) == object_type_text(o, indent, false),
    decreases o,
{
    if o.reference is Some {
    } else if wrapped(o) is Some {
        let inner = wrapped(o)->0->Object_0;
        lemma_wrapped_smaller(o);
        assert(decreases_to!(wrapped(o)->0 => inner));
        lemma_types_named_alike(inner, indent);
        assert(type_text(wrapped(o)->0, indent, false) == object_type_text(inner, indent, false));
        if let Some(arms) = union_arms(o) {
            lemma_arm_texts(arms, indent, false);
        }
    } else if o.enum_values is Some && o.enum_values->0@.len() > 0 {
        let values = o.enum_values->0@;
        assert(enum_texts(values, false) =~= shown_values(first_four(values)));
        reveal_strlit(" ");
        reveal_strlit("|");
        reveal_strlit(" | ");
        assert(bar(false) =~= " | "@);
    } else if o.array is Some {
        lemma_item_smaller(o);
        assert(type_text(Schema::Bool(true), indent, false) == "any"@);
        assert(item_text(o, indent, false) == match item_of(o) {
            Some(item) => type_text(item, indent, false),
            None => "any"@,
        });
        if let Some(Schema::Object(item)) = item_of(o) {
            assert(decreases_to!(item_of(o)->0 => item));
            lemma_types_named_alike(item, indent);
            assert(type_text(item_of(o)->0, indent, false) == object_type_text(
                item,
                indent,
                false,
            ));
        }
    }
}

/// A wrapper is seen through: it is described as what it wraps, and presented as that.
pub proof fn lemma_wrapper_is_seen_through(o: SchemaObject, defs: Defs)
    requires
        o.reference is None,
        wrapped(o) matches Some(s) && s is Object,
    ensures
        described(o) == described(wrapped(o)->0->Object_0),
        resolved(o, defs, 32) == resolved(wrapped(o)->0->Object_0, defs, 31),
{
}

/// The row of a node's parent comes before its own.
proof fn lemma_parent_listed(n: NodeView, path: Seq<usize>, chosen: bool, i: int) -> (j: int)
    requires
        0 < i < rows_of(n, path, chosen).len(),
    ensures
        0 <= j < i,
        rows_of(n, path, chosen)[j].path == rows_of(n, path, chosen)[i].path.drop_last(),
        rows_of(n, path, chosen)[i].path.len() > path.len(),
    decreases n, 0int,
{
    let rows = rows_of(n, path, chosen);
    let below = child_rows(n.children, path, selection(n));
    assert(rows[i] == below[i - 1]);
    let k = lemma_child_parent_listed(n.children, path, selection(n), i - 1);
    if k >= 0 {
        assert(rows[k + 1] == below[k]);
    }
    k + 1
}

/// The row of the parent comes before, or the parent is the one whose children are
/// listed (`-1`).
proof fn lemma_child_parent_listed(
    nodes: Seq<NodeView>,
    path: Seq<usize>,
    selected: Option<usize>,
    i: int,
) -> (j: int)
    requires
        0 <= i < child_rows(nodes, path, selected).len(),
    ensures
        -1 <= j < i,
        child_rows(nodes, path, selected)[i].path.len() > path.len(),
        j >= 0 ==> child_rows(nodes, path, selected)[j].path == child_rows(
            nodes,
            path,
            selected,
        )[i].path.drop_last(),
        j < 0 ==> child_rows(nodes, path, selected)[i].path.drop_last() == path,
    decreases nodes, 1int,
{
    let init = nodes.drop_last();
    let last = (nodes.len() - 1) as usize;
    let before = child_rows(init, path, selected);
    let all = child_rows(nodes, path, selected);
    if i < before.len() {
        let j = lemma_child_parent_listed(init, path, selected, i);
        assert(all[i] == before[i]);
        if j >= 0 {
            assert(all[j] == before[j]);
        }
        j
    } else {
        let own = rows_of(nodes.last(), path.push(last), selected == Some(last));
        let k = i - before.len();
        assert(all[i] == own[k]);
        if k == 0 {
            assert(path.push(last).drop_last() =~= path);
            -1
        } else {
            let j = lemma_parent_listed(nodes.last(), path.push(last), selected == Some(last), k);
            assert(all[before.len() + j] == own[j]);
            before.len() + j
        }
    }
}

/// Where a row has the path, one is found.
proof fn lemma_row_found(rows: Seq<RowView>, path: Seq<usize>, j: int)
    requires
        0 <= j < rows.len(),
        rows[j].path == path,
    ensures
        row_at(rows, path) matches Some(i) && 0 <= i <= j && rows[i].path == path,
    decreases rows.len(),
{
    if j < rows.len() - 1 {
        lemma_row_found(rows.drop_last(), path, j);
    } else if row_at(rows.drop_last(), path) is Some {
        lemma_row_at_bounds(rows.drop_last(), path);
    }
}

proof fn lemma_row_at_bounds(rows: Seq<RowView>, path: Seq<usize>)
    ensures
        row_at(rows, path) matches Some(i) ==> 0 <= i < rows.len() && rows[i].path == path,
    decreases rows.len(),
{
    if rows.len() > 0 {
        lemma_row_at_bounds(rows.drop_last(), path);
    }
}

/// Where there is nothing to collapse below the root, the cursor moves up to the row of
/// the parent.
pub proof fn lemma_up_reaches_parent(s: State)
    requires
        fits(s.root),
        cursor(s) matches Some(row) && !(row.expandable && row.expanded) && row.path.len() > 0,
    ensures
        cursor(after_collapse(s)) matches Some(up) && cursor(s) matches Some(row) && up.path
            == row.path.drop_last(),
        after_collapse(s).root == s.root,
{
    let i = s.selected->0 as int;
    let rows = shown_rows(s.root);
    let row = rows[i];
    assert(i > 0) by {
        let rest = lemma_rows_lead(s.root, Seq::empty(), false, i);
        assert(Seq::<usize>::empty() + rest =~= rest);
    }
    let j = lemma_parent_listed(s.root, Seq::empty(), false, i);
    lemma_row_found(rows, row.path.drop_last(), j);
}

} // verus!
