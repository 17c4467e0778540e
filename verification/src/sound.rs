//! What holds of every tree that a session shows, from its start and after each key.

use crate::node::{lemma_node_children, Node, NodeKind, NodeView};
use crate::present::{classified, resolved};
use crate::rows::{at, child_rows, included_along, put, row_of, rows_of, selection, with_child};
use crate::schema::{item_of, multi_variant, non_null, union_arms, Defs, RootSchema, SchemaObject};
use crate::tree::{
    arm_requests, as_arm, as_arms, bare_root, child, children, fresh, gain, item_request, marked,
    own_object, populated, property_requests, root_tree, with_gain, Request,
};
use vstd::prelude::*;

verus! {

/// `n` is not populated yet: it has no children, and the schema that they will be made
/// from. Where it stands for a union, that schema is one.
pub open spec fn pending(n: NodeView, defs: Defs) -> bool {
    &&& n.children.len() == 0
    &&& n.expandable
    &&& n.schema_snapshot matches Some(o) && (n.kind == NodeKind::OneOf ==> multi_variant(
        resolved(o, defs, 32),
    ))
}

/// What holds of `n` apart from its being populated, given that it holds of its
/// children: a required node is included, and the arms of a union are required.
pub open spec fn budding(n: NodeView, defs: Defs) -> bool {
    &&& n.is_required ==> n.included
    &&& !n.populated ==> pending(n, defs)
    &&& n.kind == NodeKind::OneOf ==> forall|i: int|
        0 <= i < n.children.len() ==> (#[trigger] n.children[i]).is_required
}

/// What holds of every tree in a session: required nodes are included; included nodes
/// are populated, so that the export leaves nothing out; the arms of a union are
/// required.
pub open spec fn sound(n: NodeView, defs: Defs) -> bool
    decreases n,
{
    &&& budding(n, defs)
    &&& n.included ==> n.populated
    &&& forall|i: int| 0 <= i < n.children.len() ==> sound(#[trigger] n.children[i], defs)
}

/// The positions of all nodes of the tree are machine integers.
pub open spec fn fits(n: NodeView) -> bool
    decreases n,
{
    &&& n.children.len() <= usize::MAX
    &&& forall|i: int| 0 <= i < n.children.len() ==> fits(#[trigger] n.children[i])
}

/// The positions of the nodes of a tree in memory are machine integers.
pub proof fn lemma_node_fits(n: Node<'_>)
    ensures
        fits(n@),
    decreases n,
{
    broadcast use lemma_node_children;

    let nodes = n.children@;
    assert(n.children.len() == nodes.len());
    assert forall|i: int| 0 <= i < n@.children.len() implies fits(#[trigger] n@.children[i]) by {
        assert(decreases_to!(n => nodes[i]));
        lemma_node_fits(nodes[i]);
    }
}

/// Populating a node makes it sound.
pub proof fn lemma_populated_sound(n: NodeView, defs: Defs, depth: nat)
    requires
        budding(n, defs),
        forall|i: int| 0 <= i < n.children.len() ==> sound(#[trigger] n.children[i], defs),
    ensures
        populated(n, defs, depth) matches Some(m) ==> {
            &&& sound(m, defs)
            &&& m.populated
            &&& m.is_required == n.is_required
            &&& m.included == n.included
            &&& m.expandable == n.expandable
            &&& m.expanded == n.expanded
            &&& m.label == n.label
            &&& n.populated ==> m == n
        },
    decreases 65 - depth, 3int, 0int,
{
    if n.populated || depth > 64 || n.schema_snapshot is None {
        assert(marked(n).children == n.children);
    } else {
        let o = n.schema_snapshot->0;
        lemma_gain_sound(o, defs, depth);
        if let Some(g) = gain(o, defs, depth) {
            let m = with_gain(n, g);
            assert(m.children =~= g.children);
        }
    }
}

/// The children that a node gains are sound, and those of a union required.
proof fn lemma_gain_sound(o: SchemaObject, defs: Defs, depth: nat)
    requires
        depth <= 64,
    ensures
        gain(o, defs, depth) matches Some(g) ==> {
            &&& g.is_union == multi_variant(resolved(o, defs, 32))
            &&& forall|i: int| 0 <= i < g.children.len() ==> sound(#[trigger] g.children[i], defs)
            &&& g.is_union ==> forall|i: int|
                0 <= i < g.children.len() ==> (#[trigger] g.children[i]).is_required
        },
    decreases 65 - depth, 2int, 0int,
{
    let r = resolved(o, defs, 32);
    if multi_variant(r) {
        let arms = non_null(union_arms(r)->0);
        let requests = arm_requests(arms, defs);
        lemma_children_sound(requests, defs, depth);
        if let Some(nodes) = children(requests, defs, depth) {
            let all = as_arms(nodes, arms);
            assert forall|i: int| 0 <= i < all.len() implies sound(#[trigger] all[i], defs)
                && all[i].is_required by {
                assert(requests[i].is_required);
                assert(sound(nodes[i], defs));
                assert(all[i] == as_arm(nodes[i], arms[i]));
                assert(all[i].children == nodes[i].children);
            }
            assert forall|i: int| 0 <= i < all.len() implies (#[trigger] all[i]).is_required by {
                assert(sound(all[i], defs));
            }
        }
    } else {
        let requests = if union_arms(r) matches Some(arms) && non_null(arms).len() == 1
            && non_null(arms)[0] is Object {
            property_requests(non_null(union_arms(r)->0)[0]->Object_0)
        } else {
            match item_of(r) {
                Some(item) => item_request(item),
                None => property_requests(r),
            }
        };
        lemma_children_sound(requests, defs, depth);
    }
}

/// The children that are asked for are sound, and required as they are asked for.
proof fn lemma_children_sound(requests: Seq<Request>, defs: Defs, depth: nat)
    requires
        depth <= 64,
    ensures
        children(requests, defs, depth) matches Some(nodes) ==> {
            &&& nodes.len() == requests.len()
            &&& forall|i: int|
                0 <= i < nodes.len() ==> sound(#[trigger] nodes[i], defs) && nodes[i].is_required
                    == requests[i].is_required && (requests[i].is_required ==> nodes[i].populated)
        },
    decreases 65 - depth, 1int, requests.len(),
{
    if requests.len() > 0 {
        let init = requests.drop_last();
        lemma_children_sound(init, defs, depth);
        lemma_child_sound(requests.last(), defs, depth);
        if let Some(nodes) = children(requests, defs, depth) {
            let some = children(init, defs, depth)->0;
            assert forall|i: int| 0 <= i < nodes.len() implies sound(#[trigger] nodes[i], defs)
                && nodes[i].is_required == requests[i].is_required && (requests[i].is_required
                ==> nodes[i].populated) by {
                if i < some.len() {
                    assert(nodes[i] == some[i]);
                    assert(sound(some[i], defs));
                    assert(init[i] == requests[i]);
                }
            }
        }
    }
}

/// A child that is asked for is sound, and required as it is asked for.
proof fn lemma_child_sound(request: Request, defs: Defs, depth: nat)
    requires
        depth <= 64,
    ensures
        child(request, defs, depth) matches Some(n) ==> {
            &&& sound(n, defs)
            &&& n.is_required == request.is_required
            &&& request.is_required ==> n.populated
        },
    decreases 65 - depth, 0int, 0int,
{
    let o = own_object(request.schema);
    if let Some(class) = classified(o, defs) {
        let n = fresh(request.label, o, request.is_required, class);
        assert(budding(n, defs));
        if class.1 && request.is_required && depth < 64 {
            lemma_populated_sound(n, defs, depth + 1);
        }
    }
}

/// The tree of a schema is sound.
pub proof fn lemma_root_sound(root: RootSchema)
    ensures
        root_tree(root) matches Some(n) ==> sound(n, root.definitions),
{
    lemma_populated_sound(bare_root(root), root.definitions, 0);
}

/// A part of a sound tree is sound.
pub proof fn lemma_at_sound(root: NodeView, path: Seq<usize>, defs: Defs)
    requires
        sound(root, defs),
    ensures
        at(root, path) matches Some(n) ==> sound(n, defs),
    decreases path.len(),
{
    if path.len() > 0 && path[0] < root.children.len() {
        assert(sound(root.children[path[0] as int], defs));
        lemma_at_sound(root.children[path[0] as int], path.skip(1), defs);
    }
}

/// A tree stays sound when a node of it is replaced by a sound one that is required as
/// the other was.
pub proof fn lemma_put_sound(root: NodeView, path: Seq<usize>, m: NodeView, defs: Defs)
    requires
        sound(root, defs),
        sound(m, defs),
        at(root, path) matches Some(n) && n.is_required == m.is_required,
    ensures
        sound(put(root, path, m), defs),
        put(root, path, m).is_required == root.is_required,
    decreases path.len(),
{
    if path.len() > 0 {
        let i = path[0] as int;
        let c = root.children[i];
        assert(sound(c, defs));
        lemma_put_sound(c, path.skip(1), m, defs);
        let d = put(c, path.skip(1), m);
        let after = with_child(root, i, d);
        assert(after.children =~= root.children.update(i, d));
        assert forall|k: int| 0 <= k < after.children.len() implies sound(
            #[trigger] after.children[k],
            defs,
        ) by {
            if k != i {
                assert(sound(root.children[k], defs));
            }
        }
        if after.kind == NodeKind::OneOf {
            assert forall|k: int| 0 <= k < after.children.len() implies (
            #[trigger] after.children[k]).is_required by {
                assert(root.children[k].is_required);
            }
        }
    }
}

/// A tree stays sound when the nodes along the way to a populated node are included.
pub proof fn lemma_included_sound(n: NodeView, path: Seq<usize>, defs: Defs)
    requires
        sound(n, defs),
        at(n, path) matches Some(m) && m.populated,
    ensures
        sound(included_along(n, path), defs),
        included_along(n, path).is_required == n.is_required,
    decreases path.len(),
{
    let m = included_along(n, path);
    if path.len() > 0 {
        let i = path[0] as int;
        let c = n.children[i];
        assert(sound(c, defs));
        lemma_included_sound(c, path.skip(1), defs);
        let d = included_along(c, path.skip(1));
        assert(m.children =~= n.children.update(i, d));
        assert forall|k: int| 0 <= k < m.children.len() implies sound(
            #[trigger] m.children[k],
            defs,
        ) by {
            if k != i {
                assert(sound(n.children[k], defs));
            }
        }
        if m.kind == NodeKind::OneOf {
            assert forall|k: int| 0 <= k < m.children.len() implies (
            #[trigger] m.children[k]).is_required by {
                assert(n.children[k].is_required);
            }
        }
    } else {
        assert(m.children == n.children);
    }
}

/// Each row shows the node that its path leads to.
pub proof fn lemma_rows_lead(n: NodeView, path: Seq<usize>, chosen: bool, i: int) -> (rest: Seq<
    usize,
>)
    requires
        fits(n),
        0 <= i < rows_of(n, path, chosen).len(),
    ensures
        ({
            let row = rows_of(n, path, chosen)[i];
            &&& row.path == path + rest
            &&& at(n, rest) matches Some(m) && row == row_of(m, row.path, row.is_selected_variant)
            &&& rest.len() == 0 <==> i == 0
        }),
    decreases n, 0int,
{
    if i == 0 {
        let rest = Seq::<usize>::empty();
        assert(path + rest =~= path);
        rest
    } else {
        let rest = lemma_child_rows_lead(n.children, path, selection(n), i - 1);
        assert(rows_of(n, path, chosen)[i] == child_rows(n.children, path, selection(n))[i - 1]);
        rest
    }
}

proof fn lemma_child_rows_lead(
    nodes: Seq<NodeView>,
    path: Seq<usize>,
    selected: Option<usize>,
    i: int,
) -> (rest: Seq<usize>)
    requires
        nodes.len() <= usize::MAX,
        forall|k: int| 0 <= k < nodes.len() ==> fits(#[trigger] nodes[k]),
        0 <= i < child_rows(nodes, path, selected).len(),
    ensures
        ({
            let row = child_rows(nodes, path, selected)[i];
            &&& row.path == path + rest
            &&& rest.len() > 0
            &&& rest[0] < nodes.len()
            &&& at(nodes[rest[0] as int], rest.skip(1)) matches Some(m) && row == row_of(
                m,
                row.path,
                row.is_selected_variant,
            )
        }),
    decreases nodes, 1int,
{
    let init = nodes.drop_last();
    let last = (nodes.len() - 1) as usize;
    let before = child_rows(init, path, selected);
    if i < before.len() {
        assert forall|k: int| 0 <= k < init.len() implies fits(#[trigger] init[k]) by {
            assert(fits(nodes[k]));
        }
        let rest = lemma_child_rows_lead(init, path, selected, i);
        assert(init[rest[0] as int] == nodes[rest[0] as int]);
        rest
    } else {
        let chosen = selected == Some(last);
        assert(fits(nodes[last as int]));
        let sub = lemma_rows_lead(nodes.last(), path.push(last), chosen, i - before.len());
        let rest = seq![last] + sub;
        assert(path.push(last) + sub =~= path + rest);
        assert(rest.skip(1) =~= sub);
        rest
    }
}

} // verus!
