//! The rows that show a tree, and the nodes that paths lead to.

use crate::json::{display_value, shown};
use crate::node::{lemma_node_children, node_view, nodes_view, Node, NodeKind, NodeView};
use crate::text::{copy_texts, texts};
use vstd::prelude::*;

verus! {

/// A row: one node as it is shown, and the path that leads to it.
#[derive(Debug)]
pub struct Row {
    pub depth: usize,
    pub label: String,
    pub type_desc: String,
    pub default: Option<String>,
    pub annotations: Vec<String>,
    pub is_required: bool,
    pub included: bool,
    pub expandable: bool,
    pub expanded: bool,
    pub is_variant_child: bool,
    pub is_selected_variant: bool,
    pub path: Vec<usize>,
}

/// What a row is.
#[verifier::ext_equal]
pub struct RowView {
    pub depth: nat,
    pub label: Seq<char>,
    pub type_desc: Seq<char>,
    pub default: Option<Seq<char>>,
    pub annotations: Seq<Seq<char>>,
    pub is_required: bool,
    pub included: bool,
    pub expandable: bool,
    pub expanded: bool,
    pub is_variant_child: bool,
    pub is_selected_variant: bool,
    pub path: Seq<usize>,
}

impl View for Row {
    type V = RowView;

    open spec fn view(&self) -> RowView {
        RowView {
            depth: self.depth as nat,
            label: self.label@,
            type_desc: self.type_desc@,
            default: match self.default {
                Some(t) => Some(t@),
                None => None,
            },
            annotations: texts(self.annotations@),
            is_required: self.is_required,
            included: self.included,
            expandable: self.expandable,
            expanded: self.expanded,
            is_variant_child: self.is_variant_child,
            is_selected_variant: self.is_selected_variant,
            path: self.path@,
        }
    }
}

/// What the rows of `rows` are, in order.
pub open spec fn rows_view(rows: Seq<Row>) -> Seq<RowView> {
    Seq::new(rows.len(), |i: int| rows[i]@)
}

/// The row of the node `n` at the path `path`; `chosen` says whether it is the selected
/// variant of its parent.
pub open spec fn row_of(n: NodeView, path: Seq<usize>, chosen: bool) -> RowView {
    RowView {
        depth: path.len(),
        label: n.label,
        type_desc: n.type_desc,
        default: match n.default {
            Some(d) => Some(shown(d)),
            None => None,
        },
        annotations: n.annotations,
        is_required: n.is_required,
        included: n.included,
        expandable: n.expandable,
        expanded: n.expanded,
        is_variant_child: n.kind == NodeKind::Variant,
        is_selected_variant: chosen,
        path,
    }
}

/// The child that is selected in `n`, where it is a union.
pub open spec fn selection(n: NodeView) -> Option<usize> {
    if n.kind == NodeKind::OneOf {
        Some(n.selected_variant)
    } else {
        None
    }
}

/// The rows of the tree below `n`: its own, then those of its children where it is
/// expanded.
pub open spec fn rows_of(n: NodeView, path: Seq<usize>, chosen: bool) -> Seq<RowView>
    decreases n, 0int,
{
    seq![row_of(n, path, chosen)] + if n.expanded {
        child_rows(n.children, path, selection(n))
    } else {
        Seq::empty()
    }
}

/// The rows of the trees below `children`, the children of a node at the path `path`.
pub open spec fn child_rows(
    children: Seq<NodeView>,
    path: Seq<usize>,
    selected: Option<usize>,
) -> Seq<RowView>
    decreases children, 0int,
{
    if children.len() == 0 {
        Seq::empty()
    } else {
        let last = (children.len() - 1) as usize;
        child_rows(children.drop_last(), path, selected) + rows_of(
            children.last(),
            path.push(last),
            selected == Some(last),
        )
    }
}

/// What rows are after one more was added.
proof fn lemma_rows_push(rows: Seq<Row>, r: Row)
    ensures
        rows_view(rows.push(r)) == rows_view(rows).push(r@),
{
    assert(rows_view(rows.push(r)) =~= rows_view(rows).push(r@));
}

/// Adds to `out` the rows of the tree below `node`, which is at the path `path`.
pub fn flatten(node: &Node<'_>, chosen: bool, path: &mut Vec<usize>, out: &mut Vec<Row>)
    ensures
        final(path)@ == old(path)@,
        rows_view(final(out)@) == rows_view(old(out)@) + rows_of(node@, old(path)@, chosen),
    decreases *node,
{
    broadcast use lemma_node_children;

    let row = Row {
        depth: path.len(),
        label: node.label.clone(),
        type_desc: node.type_desc.clone(),
        default: match &node.default {
            Some(d) => Some(display_value(d)),
            None => None,
        },
        annotations: copy_texts(&node.annotations),
        is_required: node.is_required,
        included: node.included,
        expandable: node.expandable,
        expanded: node.expanded,
        is_variant_child: matches!(node.kind, NodeKind::Variant),
        is_selected_variant: chosen,
        path: path.clone(),
    };
    proof {
        assert(row.path@ =~= path@);
        assert(row@ =~= row_of(node@, path@, chosen));
        lemma_rows_push(out@, row);
    }
    out.push(row);
    let ghost head = rows_view(old(out)@) + seq![row_of(node@, path@, chosen)];
    assert(rows_view(out@) =~= head);
    if node.expanded {
        let is_oneof_parent = matches!(node.kind, NodeKind::OneOf);
        let ghost all = node@.children;
        let ghost selected = selection(node@);
        let mut i: usize = 0;
        assert(rows_view(out@) =~= head + child_rows(all.take(0), old(path)@, selected));
        while i < node.children.len()
            invariant
                all == nodes_view(node.children@),
                selected == selection(node@),
                is_oneof_parent == (node.kind == NodeKind::OneOf),
                i <= node.children.len(),
                path@ == old(path)@,
                rows_view(out@) == head + child_rows(all.take(i as int), old(path)@, selected),
            decreases node.children.len() - i,
        {
            assert(all.take(i + 1).drop_last() =~= all.take(i as int));
            assert(all[i as int] == node_view(node.children@[i as int]));
            assert(decreases_to!(*node => node.children@[i as int]));
            path.push(i);
            flatten(
                &node.children[i],
                is_oneof_parent && i == node.selected_variant,
                path,
                out,
            );
            let _ = path.pop();
            assert(path@ =~= old(path)@);
            assert(rows_view(out@) =~= head + child_rows(
                all.take(i + 1),
                old(path)@,
                selected,
            ));
            i += 1;
        }
        assert(all.take(all.len() as int) =~= all);
    }
    assert(rows_view(out@) =~= rows_view(old(out)@) + rows_of(node@, old(path)@, chosen));
}

/// The node that `path` leads to from `n`.
pub open spec fn at(n: NodeView, path: Seq<usize>) -> Option<NodeView>
    decreases path.len(),
{
    if path.len() == 0 {
        Some(n)
    } else if path[0] < n.children.len() {
        at(n.children[path[0] as int], path.skip(1))
    } else {
        None
    }
}

/// `n` with `c` in the place of its child at position `i`.
pub open spec fn with_child(n: NodeView, i: int, c: NodeView) -> NodeView {
    NodeView { children: n.children.update(i, c), ..n }
}

/// `n` with `m` in the place that `path` leads to.
pub open spec fn put(n: NodeView, path: Seq<usize>, m: NodeView) -> NodeView
    decreases path.len(),
{
    if path.len() == 0 {
        m
    } else if path[0] < n.children.len() {
        with_child(n, path[0] as int, put(n.children[path[0] as int], path.skip(1), m))
    } else {
        n
    }
}

/// `n` with each node along `path` included, itself first.
pub open spec fn included_along(n: NodeView, path: Seq<usize>) -> NodeView
    decreases path.len(),
{
    let m = NodeView { included: true, ..n };
    if path.len() > 0 && path[0] < n.children.len() {
        with_child(m, path[0] as int, included_along(n.children[path[0] as int], path.skip(1)))
    } else {
        m
    }
}

/// Putting a node where it is changes nothing.
pub proof fn lemma_put_same(root: NodeView, path: Seq<usize>)
    ensures
        at(root, path) matches Some(n) ==> put(root, path, n) == root,
    decreases path.len(),
{
    if path.len() > 0 && path[0] < root.children.len() {
        let i = path[0] as int;
        lemma_put_same(root.children[i], path.skip(1));
        lemma_child_same(root, i);
    }
}

/// What was put into a place stands there.
pub proof fn lemma_at_put(root: NodeView, path: Seq<usize>, m: NodeView)
    requires
        at(root, path) is Some,
    ensures
        at(put(root, path, m), path) == Some(m),
    decreases path.len(),
{
    if path.len() > 0 {
        lemma_at_put(root.children[path[0] as int], path.skip(1), m);
    }
}

/// A node is a child of its parent, and changes with it.
pub proof fn lemma_at_parent(root: NodeView, path: Seq<usize>)
    requires
        at(root, path) is Some,
        path.len() > 0,
    ensures
        at(root, path.drop_last()) matches Some(p) && {
            &&& path.last() < p.children.len()
            &&& at(root, path) == Some(p.children[path.last() as int])
            &&& forall|m: NodeView| #[trigger]
                put(root, path, m) == put(
                    root,
                    path.drop_last(),
                    with_child(p, path.last() as int, m),
                )
        },
    decreases path.len(),
{
    if path.len() > 1 {
        let i = path[0] as int;
        lemma_at_parent(root.children[i], path.skip(1));
        assert(path.drop_last().skip(1) =~= path.skip(1).drop_last());
        assert forall|m: NodeView| #[trigger]
            put(root, path, m) == put(
                root,
                path.drop_last(),
                with_child(at(root, path.drop_last())->0, path.last() as int, m),
            ) by {
            assert(put(root.children[i], path.skip(1), m) == put(
                root.children[i],
                path.skip(1).drop_last(),
                with_child(at(root, path.drop_last())->0, path.last() as int, m),
            ));
        }
    } else {
        reveal_with_fuel(at, 2);
        assert(path.drop_last() =~= Seq::<usize>::empty());
        assert(path.skip(1) =~= Seq::<usize>::empty());
        assert forall|m: NodeView| #[trigger]
            put(root, path, m) == put(
                root,
                path.drop_last(),
                with_child(root, path.last() as int, m),
            ) by {
            reveal_with_fuel(put, 2);
        }
    }
}

/// Putting a child where it is changes nothing.
proof fn lemma_child_same(n: NodeView, i: int)
    requires
        0 <= i < n.children.len(),
    ensures
        with_child(n, i, n.children[i]) == n,
{
    assert(n.children.update(i, n.children[i]) =~= n.children);
}

/// `m` is `n` but for its children.
spec fn same_but_children(m: Node<'_>, n: Node<'_>) -> bool {
    &&& m.label == n.label
    &&& m.type_desc == n.type_desc
    &&& m.is_required == n.is_required
    &&& m.included == n.included
    &&& m.default == n.default
    &&& m.leaf_value == n.leaf_value
    &&& m.annotations == n.annotations
    &&& m.expandable == n.expandable
    &&& m.expanded == n.expanded
    &&& m.populated == n.populated
    &&& m.kind == n.kind
    &&& m.selected_variant == n.selected_variant
    &&& m.schema_snapshot == n.schema_snapshot
}

/// What a node is after one of its children has changed.
proof fn lemma_child_changed(n: Node<'_>, i: int)
    requires
        0 <= i < n.children@.len(),
    ensures
        n@.children.len() == n.children@.len(),
        n@.children[i] == n.children@[i]@,
        forall|m: Node<'_>, c: Node<'_>|
            #[trigger] same_but_children(m, n) && m.children@ == #[trigger] n.children@.update(i, c)
                ==> node_view(m) == with_child(n@, i, node_view(c)),
{
    broadcast use lemma_node_children;

    assert forall|m: Node<'_>, c: Node<'_>|
        #[trigger] same_but_children(m, n) && m.children@ == #[trigger] n.children@.update(
            i,
            c,
        ) implies node_view(m) == with_child(n@, i, node_view(c)) by {
        assert(nodes_view(m.children@) =~= nodes_view(n.children@).update(i, node_view(c)));
    }
}

/// A reference to the child of `n` at position `i`.
fn child_ref<'b, 'a>(n: &'b mut Node<'a>, i: usize) -> (c: &'b mut Node<'a>)
    requires
        i < old(n).children@.len(),
    ensures
        *c == old(n).children@[i as int],
        same_but_children(*final(n), *old(n)),
        final(n).children@ == old(n).children@.update(i as int, *final(c)),
{
    &mut n.children[i]
}

/// The child of `n` at position `i`.
fn child_mut<'b, 'a>(n: &'b mut Node<'a>, i: usize) -> (c: &'b mut Node<'a>)
    requires
        i < old(n)@.children.len(),
    ensures
        c@ == old(n)@.children[i as int],
        final(n)@ == with_child(old(n)@, i as int, final(c)@),
{
    proof {
        lemma_node_children(*n);
        lemma_child_changed(*n, i as int);
    }
    child_ref(n, i)
}

/// The node that `path[from..]` leads to from `n`.
fn descend<'b, 'a>(n: &'b mut Node<'a>, path: &[usize], from: usize) -> (r: Option<
    &'b mut Node<'a>,
>)
    requires
        from <= path@.len(),
    ensures
        match r {
            Some(m) => {
                &&& at(old(n)@, path@.skip(from as int)) == Some(m@)
                &&& final(n)@ == put(old(n)@, path@.skip(from as int), final(m)@)
            },
            None => at(old(n)@, path@.skip(from as int)) is None && final(n)@ == old(n)@,
        },
    decreases path@.len() - from,
{
    if from == path.len() {
        return Some(n);
    }
    let i = path[from];
    proof {
        lemma_node_children(*n);
    }
    if i < n.children.len() {
        proof {
            assert(path@.skip(from as int).skip(1) =~= path@.skip(from + 1));
            lemma_child_same(n@, i as int);
        }
        descend(child_mut(n, i), path, from + 1)
    } else {
        None
    }
}

/// The node that `path` leads to.
pub fn node_at_mut<'b, 'a>(root: &'b mut Node<'a>, path: &[usize]) -> (r: Option<
    &'b mut Node<'a>,
>)
    ensures
        match r {
            Some(m) => {
                &&& at(old(root)@, path@) == Some(m@)
                &&& final(root)@ == put(old(root)@, path@, final(m)@)
            },
            None => at(old(root)@, path@) is None && final(root)@ == old(root)@,
        },
{
    assert(path@.skip(0) =~= path@);
    descend(root, path, 0)
}

/// Marks `n` and every node along `path[from..]` as included.
fn include_from(n: &mut Node<'_>, path: &[usize], from: usize)
    requires
        from <= path@.len(),
    ensures
        final(n)@ == included_along(old(n)@, path@.skip(from as int)),
    decreases path@.len() - from,
{
    let ghost before = n@;
    let ghost rest = path@.skip(from as int);
    proof {
        lemma_node_children(*n);
    }
    n.included = true;
    proof {
        lemma_node_children(*n);
    }
    if from < path.len() {
        let i = path[from];
        if i < n.children.len() {
            proof {
                assert(rest.skip(1) =~= path@.skip(from + 1));
            }
            include_from(child_mut(n, i), path, from + 1);
        }
    }
    assert(n@ =~= included_along(before, rest));
}

/// Mark every node along `path`, and each of its ancestors up to the root, as
/// `included`. Without this, a deep choice (picking a variant, or choosing a nested
/// field) would be dropped from the export because some ancestor optional container
/// was never itself included.
pub fn include_path(root: &mut Node<'_>, path: &[usize])
    ensures
        final(root)@ == included_along(old(root)@, path@),
{
    assert(path@.skip(0) =~= path@);
    include_from(root, path, 0)
}

/// A path as the path of the parent and the position in it.
pub fn split_path(path: &[usize]) -> (r: Option<(&[usize], usize)>)
    ensures
        match r {
            Some((rest, last)) => path@.len() > 0 && rest@ == path@.drop_last() && last
                == path@.last(),
            None => path@.len() == 0,
        },
{
    let n = path.len();
    if n == 0 {
        return None;
    }
    let rest = vstd::slice::slice_subrange(path, 0, n - 1);
    assert(rest@ =~= path@.drop_last());
    Some((rest, path[n - 1]))
}

impl Clone for Row {
    /// A copy of the row.
    fn clone(&self) -> (r: Row)
        ensures
            r@ == self@,
    {
        let r = Row {
            depth: self.depth,
            label: self.label.clone(),
            type_desc: self.type_desc.clone(),
            default: match &self.default {
                Some(t) => Some(t.clone()),
                None => None,
            },
            annotations: copy_texts(&self.annotations),
            is_required: self.is_required,
            included: self.included,
            expandable: self.expandable,
            expanded: self.expanded,
            is_variant_child: self.is_variant_child,
            is_selected_variant: self.is_selected_variant,
            path: self.path.clone(),
        };
        assert(r.path@ =~= self.path@);
        r
    }
}

} // verus!
