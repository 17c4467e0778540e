//! What is chosen deep in the tree reaches the export.

use crate::json::JsonView;
use crate::laws::{lemma_included_along, lemma_included_value};
use crate::node::{exported, NodeKind, NodeView};
use crate::rows::{at, included_along, lemma_at_parent, lemma_at_put, put, with_child};
use crate::schema::Defs;
use crate::session::{picked, swapped};
use crate::tree::populated;
use vstd::prelude::*;

verus! {

/// `n` is exported as an object made of its children.
pub open spec fn assembles(n: NodeView) -> bool {
    n.default is None && (n.kind == NodeKind::Object || (n.kind == NodeKind::Variant
        && n.leaf_value is None))
}

/// The export of `n` is made from its child at position `i`, where that is included: the
/// element of an array, the selected variant of a union, or a field of an object with a
/// label of its own.
pub open spec fn uses(n: NodeView, i: int) -> bool {
    &&& 0 <= i < n.children.len()
    &&& {
        ||| n.kind == NodeKind::Array && i == 0
        ||| n.kind == NodeKind::OneOf && n.default is None && n.selected_variant == i
        ||| assembles(n) && forall|k: int|
            i < k < n.children.len() ==> (#[trigger] n.children[k]).label != n.children[i].label
    }
}

/// The export of `n` is made from each node along `path`, where these are included.
pub open spec fn passable(n: NodeView, path: Seq<usize>) -> bool
    decreases path.len(),
{
    path.len() > 0 ==> uses(n, path[0] as int) && passable(
        n.children[path[0] as int],
        path.skip(1),
    )
}

/// The nodes along `path` are included, but for `n` itself.
pub open spec fn all_included(n: NodeView, path: Seq<usize>) -> bool
    decreases path.len(),
{
    path.len() > 0 ==> path[0] < n.children.len() && n.children[path[0] as int].included
        && all_included(n.children[path[0] as int], path.skip(1))
}

/// The part of the export `v` of `n` that the node at `path` stands for.
pub open spec fn part(v: JsonView, n: NodeView, path: Seq<usize>) -> JsonView
    decreases path.len(),
{
    if path.len() == 0 {
        v
    } else {
        let c = n.children[path[0] as int];
        let inner = if n.kind == NodeKind::Array {
            v->Array_0[0]
        } else if n.kind == NodeKind::OneOf {
            v
        } else {
            v->Object_0[c.label]
        };
        part(inner, c, path.skip(1))
    }
}

/// Where the way to a node is one that the export takes, the export has the node's value
/// in its place.
pub proof fn lemma_export_has_part(n: NodeView, path: Seq<usize>)
    requires
        passable(n, path),
        all_included(n, path),
    ensures
        at(n, path) matches Some(m) && part(exported(n), n, path) == exported(m),
    decreases path.len(),
{
    if path.len() > 0 {
        let i = path[0] as int;
        let c = n.children[i];
        lemma_export_has_part(c, path.skip(1));
        if n.kind != NodeKind::Array && n.kind != NodeKind::OneOf {
            lemma_included_value(n.children, i);
        }
    }
}

/// `a` and `b` differ, on the way along `path`, at most in what is included and expanded.
spec fn alike(a: NodeView, b: NodeView, path: Seq<usize>) -> bool
    decreases path.len(),
{
    path.len() > 0 ==> {
        &&& a.kind == b.kind
        &&& a.default == b.default
        &&& a.leaf_value == b.leaf_value
        &&& a.selected_variant == b.selected_variant
        &&& a.children.len() == b.children.len()
        &&& forall|k: int|
            0 <= k < a.children.len() ==> (#[trigger] a.children[k]).label == b.children[k].label
        &&& path[0] < a.children.len() ==> alike(
            a.children[path[0] as int],
            b.children[path[0] as int],
            path.skip(1),
        )
    }
}

proof fn lemma_alike_passable(a: NodeView, b: NodeView, path: Seq<usize>)
    requires
        alike(a, b, path),
        passable(a, path),
    ensures
        passable(b, path),
    decreases path.len(),
{
    if path.len() > 0 {
        let i = path[0] as int;
        lemma_alike_passable(a.children[i], b.children[i], path.skip(1));
        if assembles(a) {
            assert forall|k: int| i < k < b.children.len() implies (#[trigger] b.children[k]).label
                != b.children[i].label by {
                assert(a.children[k].label == b.children[k].label);
                assert(a.children[i].label == b.children[i].label);
            }
        }
    }
}

/// Replacing the node at `path` by one with the same label changes nothing on the way.
proof fn lemma_alike_put(root: NodeView, path: Seq<usize>, m: NodeView, k: int)
    requires
        at(root, path) matches Some(n) && m.label == n.label,
        0 <= k <= path.len(),
    ensures
        alike(root, put(root, path, m), path.take(k)),
        put(root, path, m).label == root.label,
    decreases path.len(),
{
    if path.len() > 0 {
        let i = path[0] as int;
        let c = root.children[i];
        let rest = path.skip(1);
        let d = put(c, rest, m);
        let j = if k > 0 {
            k - 1
        } else {
            0
        };
        lemma_alike_put(c, rest, m, j);
        if k > 0 {
            assert(path.take(k).skip(1) =~= rest.take(k - 1));
            let after = with_child(root, i, d);
            assert(after.children =~= root.children.update(i, d));
        }
    }
}

/// Including the nodes along the way changes nothing else on it.
proof fn lemma_alike_included(n: NodeView, path: Seq<usize>)
    requires
        at(n, path) is Some,
    ensures
        alike(n, included_along(n, path), path),
        all_included(included_along(n, path), path),
        included_along(n, path).label == n.label,
        included_along(n, path).included,
    decreases path.len(),
{
    if path.len() > 0 {
        let i = path[0] as int;
        let c = n.children[i];
        lemma_alike_included(c, path.skip(1));
        let d = included_along(c, path.skip(1));
        assert(included_along(n, path).children =~= n.children.update(i, d));
    }
}

/// A way can be continued by a child that its end uses.
proof fn lemma_passable_push(n: NodeView, path: Seq<usize>)
    requires
        path.len() > 0,
        passable(n, path.drop_last()),
        at(n, path.drop_last()) matches Some(p) && uses(p, path.last() as int),
    ensures
        passable(n, path),
    decreases path.len(),
{
    let before = path.drop_last();
    if path.len() == 1 {
        assert(before =~= Seq::<usize>::empty());
        assert(path.skip(1) =~= Seq::<usize>::empty());
        reveal_with_fuel(passable, 2);
    } else {
        let c = n.children[path[0] as int];
        assert(before.skip(1) =~= path.skip(1).drop_last());
        lemma_passable_push(c, path.skip(1));
    }
}

proof fn lemma_all_included_push(n: NodeView, path: Seq<usize>)
    requires
        path.len() > 0,
        all_included(n, path.drop_last()),
        at(n, path) matches Some(m) && m.included,
    ensures
        all_included(n, path),
    decreases path.len(),
{
    let before = path.drop_last();
    if path.len() == 1 {
        assert(path.skip(1) =~= Seq::<usize>::empty());
        reveal_with_fuel(all_included, 2);
        reveal_with_fuel(at, 2);
    } else {
        let c = n.children[path[0] as int];
        assert(before.skip(1) =~= path.skip(1).drop_last());
        lemma_all_included_push(c, path.skip(1));
    }
}

/// Including the nodes along a way leaves what hangs below its end as it is.
proof fn lemma_below_included(n: NodeView, path: Seq<usize>)
    requires
        path.len() > 0,
        at(n, path) is Some,
    ensures
        at(included_along(n, path.drop_last()), path) == at(n, path),
    decreases path.len(),
{
    let before = path.drop_last();
    let m = included_along(n, before);
    if path.len() == 1 {
        assert(before =~= Seq::<usize>::empty());
        assert(m.children == n.children);
    } else {
        let i = path[0] as int;
        let c = n.children[i];
        assert(before.skip(1) =~= path.skip(1).drop_last());
        lemma_below_included(c, path.skip(1));
    }
}

/// A field that is included deep in the tree is in the export, whatever of its ancestors
/// was left out before.
pub proof fn lemma_included_field_is_exported(root: NodeView, path: Seq<usize>, defs: Defs)
    requires
        at(root, path) matches Some(n) && !n.included,
        passable(root, path),
    ensures
        swapped(root, path, defs) matches Some(t) ==> (at(t, path) matches Some(m) && part(
            exported(t),
            t,
            path,
        ) == exported(m)),
{
    let n = at(root, path)->0;
    if let Some(t) = swapped(root, path, defs) {
        let x = if n.expandable {
            NodeView { included: true, expanded: true, ..populated(n, defs, 0)->0 }
        } else {
            NodeView { included: true, ..n }
        };
        let r = put(root, path, x);
        lemma_alike_put(root, path, x, path.len() as int);
        assert(path.take(path.len() as int) =~= path);
        lemma_alike_passable(root, r, path);
        lemma_at_put(root, path, x);
        lemma_alike_included(r, path);
        lemma_alike_passable(r, t, path);
        lemma_export_has_part(t, path);
    }
}

/// A variant that is picked deep in the tree is in the export, whatever of its ancestors
/// was left out before.
pub proof fn lemma_picked_variant_is_exported(root: NodeView, path: Seq<usize>, defs: Defs)
    requires
        path.len() > 0,
        at(root, path) matches Some(n) && n.included,
        at(root, path.drop_last()) matches Some(p) && p.kind == NodeKind::OneOf
            && p.default is None,
        passable(root, path.drop_last()),
    ensures
        picked(root, path, defs) matches Some(t) ==> (at(t, path) matches Some(m) && part(
            exported(t),
            t,
            path,
        ) == exported(m)),
{
    let n = at(root, path)->0;
    let parent = path.drop_last();
    if let Some(t) = picked(root, path, defs) {
        let x = NodeView { expanded: true, ..populated(n, defs, 0)->0 };
        let r = put(root, path, x);
        lemma_at_put(root, path, x);
        lemma_at_parent(root, path);
        lemma_at_parent(r, path);
        lemma_alike_put(root, path, x, parent.len() as int);
        assert(path.take(parent.len() as int) =~= parent);
        lemma_alike_passable(root, r, parent);
        let o = at(root, parent)->0;
        lemma_at_put(root, parent, with_child(o, path.last() as int, x));
        let p = at(r, parent)->0;
        assert(p == with_child(o, path.last() as int, x));
        let q = NodeView { selected_variant: path.last(), ..p };
        let s = put(r, parent, q);
        lemma_alike_put(r, parent, q, parent.len() as int);
        assert(parent.take(parent.len() as int) =~= parent);
        lemma_alike_passable(r, s, parent);
        lemma_at_put(r, parent, q);
        lemma_alike_included(s, parent);
        lemma_alike_passable(s, t, parent);
        lemma_included_along(s, parent, parent.len() as int);
        let e = at(t, parent)->0;
        assert(e == (NodeView { included: true, ..q }));
        assert(e.children == p.children);
        lemma_passable_push(t, path);
        lemma_child_at(s, path);
        lemma_below_included(s, path);
        lemma_all_included_push(t, path);
        lemma_export_has_part(t, path);
    }
}

/// A child of the node at the parent's path is at the path.
pub proof fn lemma_child_at(n: NodeView, path: Seq<usize>)
    requires
        path.len() > 0,
        at(n, path.drop_last()) matches Some(p) && path.last() < p.children.len(),
    ensures
        at(n, path) == Some(at(n, path.drop_last())->0.children[path.last() as int]),
    decreases path.len(),
{
    let before = path.drop_last();
    if path.len() == 1 {
        assert(before =~= Seq::<usize>::empty());
        assert(path.skip(1) =~= Seq::<usize>::empty());
        reveal_with_fuel(at, 2);
    } else {
        assert(before.skip(1) =~= path.skip(1).drop_last());
        lemma_child_at(n.children[path[0] as int], path.skip(1));
    }
}

} // verus!
