//! Which nodes have rows, what their rows say, and in what order they come.

use crate::json::{shown, JsonView};
use crate::node::{NodeKind, NodeView};
use crate::rows::{at, child_rows, included_along, lemma_at_parent, put, rows_of, selection};
use crate::session::shown_rows;
use crate::sound::fits;
use vstd::prelude::*;

verus! {

/// A row says of its node what it is called, its type, its default as it is shown, its
/// annotations, and whether it is required, included, expandable, expanded and a variant;
/// its depth is the length of its path.
pub proof fn lemma_row_tells_of_node(n: NodeView, path: Seq<usize>, chosen: bool)
    ensures
        ({
            let row = rows_of(n, path, chosen)[0];
            &&& rows_of(n, path, chosen).len() > 0
            &&& row.path == path && row.depth == path.len()
            &&& row.label == n.label && row.type_desc == n.type_desc
            &&& row.annotations == n.annotations
            &&& row.is_required == n.is_required && row.included == n.included
            &&& row.expandable == n.expandable && row.expanded == n.expanded
            &&& row.is_variant_child == (n.kind == NodeKind::Variant)
            &&& row.is_selected_variant == chosen
            &&& match n.default {
                None => row.default is None,
                Some(JsonView::String(s)) => row.default == Some(seq!['"'] + s + seq!['"']),
                Some(d) => row.default == Some(shown(d)),
            }
        }),
{
    reveal_strlit("\"");
    assert("\""@ =~= seq!['"']);
}

/// The number of rows of the tree below `n`.
pub open spec fn lines(n: NodeView) -> nat
    decreases n, 0int,
{
    1 + if n.expanded {
        lines_of(n.children)
    } else {
        0
    }
}

/// The number of rows of the trees below `nodes`.
pub open spec fn lines_of(nodes: Seq<NodeView>) -> nat
    decreases nodes, 0int,
{
    if nodes.len() == 0 {
        0
    } else {
        lines_of(nodes.drop_last()) + lines(nodes.last())
    }
}

/// All nodes above the one that `path` leads to from `n` are expanded.
pub open spec fn visible_at(n: NodeView, path: Seq<usize>) -> bool
    decreases path.len(),
{
    path.len() > 0 ==> n.expanded && path[0] < n.children.len() && visible_at(
        n.children[path[0] as int],
        path.skip(1),
    )
}

/// The number of rows before that of the node that `path` leads to from `n`.
pub open spec fn place(n: NodeView, path: Seq<usize>) -> nat
    decreases path.len(),
{
    if path.len() == 0 {
        0
    } else {
        1 + lines_of(n.children.take(path[0] as int)) + place(
            n.children[path[0] as int],
            path.skip(1),
        )
    }
}

pub proof fn lemma_lines(n: NodeView, path: Seq<usize>, chosen: bool)
    ensures
        rows_of(n, path, chosen).len() == lines(n),
    decreases n, 0int,
{
    lemma_lines_of(n.children, path, selection(n));
}

proof fn lemma_lines_of(nodes: Seq<NodeView>, path: Seq<usize>, selected: Option<usize>)
    ensures
        child_rows(nodes, path, selected).len() == lines_of(nodes),
    decreases nodes, 1int,
{
    if nodes.len() > 0 {
        let last = (nodes.len() - 1) as usize;
        lemma_lines_of(nodes.drop_last(), path, selected);
        lemma_lines(nodes.last(), path.push(last), selected == Some(last));
    }
}

/// The rows of a child follow those of the children before it.
proof fn lemma_child_rows_at(
    nodes: Seq<NodeView>,
    path: Seq<usize>,
    selected: Option<usize>,
    i: int,
    j: int,
)
    requires
        nodes.len() <= usize::MAX,
        0 <= i < nodes.len(),
        0 <= j < lines(nodes[i]),
    ensures
        lines_of(nodes.take(i)) + j < child_rows(nodes, path, selected).len(),
        child_rows(nodes, path, selected)[lines_of(nodes.take(i)) + j] == rows_of(
            nodes[i],
            path.push(i as usize),
            selected == Some(i as usize),
        )[j],
    decreases nodes.len(),
{
    let init = nodes.drop_last();
    let last = (nodes.len() - 1) as usize;
    lemma_lines_of(nodes, path, selected);
    lemma_lines_of(init, path, selected);
    lemma_lines(nodes.last(), path.push(last), selected == Some(last));
    if i < init.len() {
        lemma_child_rows_at(init, path, selected, i, j);
        assert(init.take(i) =~= nodes.take(i));
        assert(init[i] == nodes[i]);
    } else {
        assert(nodes.take(i) =~= init);
    }
}

/// Every node whose ancestors are all expanded has a row, which shows it. It is marked as
/// the selected variant exactly where its parent is a union that selects it.
pub proof fn lemma_visible_node_has_row(
    n: NodeView,
    path: Seq<usize>,
    chosen: bool,
    rest: Seq<usize>,
)
    requires
        fits(n),
        visible_at(n, rest),
    ensures
        place(n, rest) < rows_of(n, path, chosen).len(),
        at(n, rest) is Some,
        ({
            let row = rows_of(n, path, chosen)[place(n, rest) as int];
            &&& row == rows_of(at(n, rest)->0, path + rest, row.is_selected_variant)[0]
            &&& row.path == path + rest
            &&& rest.len() == 0 ==> row.is_selected_variant == chosen
            &&& rest.len() > 0 ==> (at(n, rest.drop_last()) matches Some(p)
                && row.is_selected_variant == (p.kind == NodeKind::OneOf && p.selected_variant
                == rest.last()))
        }),
    decreases rest.len(),
{
    if rest.len() == 0 {
        assert(path + rest =~= path);
    } else {
        let i = rest[0] as int;
        let c = n.children[i];
        let sub = rest.skip(1);
        let picked = selection(n) == Some(rest[0]);
        assert(fits(c));
        lemma_visible_node_has_row(c, path.push(rest[0]), picked, sub);
        lemma_lines(c, path.push(rest[0]), picked);
        lemma_child_rows_at(n.children, path, selection(n), i, place(c, sub) as int);
        assert(path.push(rest[0]) + sub =~= path + rest);
        let before = (lines_of(n.children.take(i)) + place(c, sub)) as int;
        assert(rows_of(n, path, chosen)[before + 1] == child_rows(
            n.children,
            path,
            selection(n),
        )[before]);
        if rest.len() == 1 {
            assert(rest.drop_last() =~= Seq::<usize>::empty());
        } else {
            assert(rest.drop_last().skip(1) =~= sub.drop_last());
        }
    }
}

/// Every row is that of a node whose ancestors are all expanded, and stands in its place.
pub proof fn lemma_row_has_visible_node(
    n: NodeView,
    path: Seq<usize>,
    chosen: bool,
    i: int,
) -> (rest: Seq<usize>)
    requires
        fits(n),
        0 <= i < rows_of(n, path, chosen).len(),
    ensures
        rows_of(n, path, chosen)[i].path == path + rest,
        visible_at(n, rest),
        place(n, rest) == i,
    decreases n, 0int,
{
    if i == 0 {
        let rest = Seq::<usize>::empty();
        assert(path + rest =~= path);
        rest
    } else {
        let rest = lemma_child_row_visible(n.children, path, selection(n), i - 1);
        assert(rows_of(n, path, chosen)[i] == child_rows(n.children, path, selection(n))[i - 1]);
        rest
    }
}

proof fn lemma_child_row_visible(
    nodes: Seq<NodeView>,
    path: Seq<usize>,
    selected: Option<usize>,
    i: int,
) -> (rest: Seq<usize>)
    requires
        nodes.len() <= usize::MAX,
        forall|k: int| 0 <= k < nodes.len() ==> fits(#[trigger] nodes[k]),
        0 <= i < child_rows(nodes, path, selected).len(),
    ensures
        child_rows(nodes, path, selected)[i].path == path + rest,
        rest.len() > 0,
        rest[0] < nodes.len(),
        visible_at(nodes[rest[0] as int], rest.skip(1)),
        lines_of(nodes.take(rest[0] as int)) + place(nodes[rest[0] as int], rest.skip(1)) == i,
    decreases nodes, 1int,
{
    let init = nodes.drop_last();
    let last = (nodes.len() - 1) as usize;
    let before = child_rows(init, path, selected);
    if i < before.len() {
        assert forall|k: int| 0 <= k < init.len() implies fits(#[trigger] init[k]) by {
            assert(fits(nodes[k]));
        }
        let rest = lemma_child_row_visible(init, path, selected, i);
        assert(init[rest[0] as int] == nodes[rest[0] as int]);
        assert(init.take(rest[0] as int) =~= nodes.take(rest[0] as int));
        rest
    } else {
        assert(fits(nodes[last as int]));
        let chosen = selected == Some(last);
        let sub = lemma_row_has_visible_node(
            nodes.last(),
            path.push(last),
            chosen,
            i - before.len(),
        );
        let rest = seq![last] + sub;
        assert(path.push(last) + sub =~= path + rest);
        assert(rest.skip(1) =~= sub);
        lemma_lines_of(init, path, selected);
        assert(nodes.take(last as int) =~= init);
        rest
    }
}

/// No two rows have the same path.
pub proof fn lemma_rows_are_distinct(n: NodeView, i: int, j: int)
    requires
        fits(n),
        0 <= i < j < shown_rows(n).len(),
    ensures
        shown_rows(n)[i].path != shown_rows(n)[j].path,
{
    let a = lemma_row_has_visible_node(n, Seq::empty(), false, i);
    let b = lemma_row_has_visible_node(n, Seq::empty(), false, j);
    assert(Seq::<usize>::empty() + a =~= a);
    assert(Seq::<usize>::empty() + b =~= b);
}

/// Where the row of a child is, seen from that of its parent.
proof fn lemma_place_below(n: NodeView, path: Seq<usize>, i: usize)
    requires
        at(n, path) matches Some(p) && i < p.children.len(),
    ensures
        place(n, path.push(i)) == place(n, path) + 1 + lines_of(
            at(n, path)->0.children.take(i as int),
        ),
    decreases path.len(),
{
    let whole = path.push(i);
    if path.len() == 0 {
        assert(whole.skip(1) =~= Seq::<usize>::empty());
        assert(place(n.children[i as int], whole.skip(1)) == 0);
    } else {
        assert(whole.skip(1) =~= path.skip(1).push(i));
        lemma_place_below(n.children[path[0] as int], path.skip(1), i);
    }
}

proof fn lemma_lines_grow(nodes: Seq<NodeView>, i: int, j: int)
    requires
        0 <= i < j <= nodes.len(),
    ensures
        lines_of(nodes.take(i)) < lines_of(nodes.take(j)),
    decreases j,
{
    assert(nodes.take(j).drop_last() =~= nodes.take(j - 1));
    assert(lines(nodes.take(j).last()) >= 1);
    if i < j - 1 {
        lemma_lines_grow(nodes, i, j - 1);
    }
}

/// Rows come in the order of the tree: a node before its children, and these in their
/// order.
pub proof fn lemma_rows_in_order(n: NodeView, path: Seq<usize>, a: usize, b: usize, i: int, j: int)
    requires
        fits(n),
        0 <= i < shown_rows(n).len(),
        0 <= j < shown_rows(n).len(),
        shown_rows(n)[j].path == path.push(b),
        shown_rows(n)[i].path == path || (a < b && shown_rows(n)[i].path == path.push(a)),
    ensures
        i < j,
{
    let p = lemma_row_has_visible_node(n, Seq::empty(), false, i);
    let q = lemma_row_has_visible_node(n, Seq::empty(), false, j);
    assert(Seq::<usize>::empty() + p =~= p);
    assert(Seq::<usize>::empty() + q =~= q);
    lemma_visible_node_has_row(n, Seq::empty(), false, q);
    lemma_at_parent(n, q);
    assert(q.drop_last() =~= path);
    lemma_place_below(n, path, b);
    if p != path {
        lemma_visible_node_has_row(n, Seq::empty(), false, p);
        lemma_at_parent(n, p);
        assert(p.drop_last() =~= path);
        lemma_place_below(n, path, a);
        lemma_lines_grow(at(n, path)->0.children, a as int, b as int);
    }
}

/// A collapsed tree shows one row; an expanded one shows the rows of each child as well.
pub proof fn lemma_collapsed_shows_one_row(n: NodeView)
    ensures
        !n.expanded ==> shown_rows(n).len() == 1,
        n.expanded ==> shown_rows(n).len() >= 1 + n.children.len(),
{
    lemma_lines(n, Seq::empty(), false);
    lemma_at_least_one_line(n.children);
}

proof fn lemma_at_least_one_line(nodes: Seq<NodeView>)
    ensures
        lines_of(nodes) >= nodes.len(),
    decreases nodes.len(),
{
    if nodes.len() > 0 {
        lemma_at_least_one_line(nodes.drop_last());
        assert(lines(nodes.last()) >= 1);
    }
}

/// `a` and `b` have the same rows before that of the node at `path`.
pub open spec fn same_before(a: NodeView, b: NodeView, path: Seq<usize>) -> bool
    decreases path.len(),
{
    path.len() > 0 ==> {
        &&& a.expanded == b.expanded
        &&& a.children.len() == b.children.len()
        &&& path[0] < a.children.len()
        &&& forall|k: int|
            0 <= k < a.children.len() && k != path[0] ==> #[trigger] a.children[k]
                == b.children[k]
        &&& same_before(a.children[path[0] as int], b.children[path[0] as int], path.skip(1))
    }
}

/// Trees with the same rows before that of a node have that row in the same place.
pub proof fn lemma_same_place(a: NodeView, b: NodeView, path: Seq<usize>)
    requires
        same_before(a, b, path),
        visible_at(a, path),
    ensures
        visible_at(b, path),
        place(a, path) == place(b, path),
    decreases path.len(),
{
    if path.len() > 0 {
        let i = path[0] as int;
        lemma_same_place(a.children[i], b.children[i], path.skip(1));
        assert(a.children.take(i) =~= b.children.take(i));
    }
}

/// A tree has the same rows before a node that is put into it.
pub proof fn lemma_put_same_before(n: NodeView, path: Seq<usize>, m: NodeView)
    requires
        at(n, path) is Some,
    ensures
        same_before(n, put(n, path, m), path),
    decreases path.len(),
{
    if path.len() > 0 {
        lemma_put_same_before(n.children[path[0] as int], path.skip(1), m);
    }
}

/// A tree has the same rows before a node that is included in it with its ancestors.
pub proof fn lemma_included_same_before(n: NodeView, path: Seq<usize>)
    requires
        at(n, path) is Some,
    ensures
        same_before(n, included_along(n, path), path),
    decreases path.len(),
{
    if path.len() > 0 {
        lemma_included_same_before(n.children[path[0] as int], path.skip(1));
    }
}

} // verus!
