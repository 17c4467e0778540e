//! What each key does to a session.

use crate::laws::{lemma_included_along, lemma_up_reaches_parent};
use crate::node::{NodeKind, NodeView};
use crate::reach::lemma_child_at;
use crate::row_laws::{
    lemma_collapsed_shows_one_row, lemma_included_same_before, lemma_lines, lemma_put_same_before,
    lemma_row_has_visible_node, lemma_same_place, lemma_visible_node_has_row, lines, lines_of,
    place, same_before, visible_at,
};
use crate::rows::{at, included_along, lemma_at_parent, lemma_at_put, lemma_put_same, put};
use crate::schema::Defs;
use crate::session::{
    after, asked, cursor, lemma_cursor_leads, settled, shown_rows, Action, Key, KeyCode, State,
};
use crate::sound::fits;
use crate::tree::{marked, populated};
use vstd::prelude::*;

verus! {

/// Which key asks for what: `Esc` and Control with `c` cancel, `q` exports, the arrows and
/// `j`, `k` move by one row, the page keys by ten, `g` and `G` go to the ends, Enter and
/// the right arrow activate, the space bar toggles, and the left arrow collapses.
pub proof fn lemma_keys(key: Key)
    ensures
        asked(key) == Action::Cancel <==> key.code == KeyCode::Esc || (key.code == KeyCode::Char(
            'c',
        ) && key.control),
        asked(key) == Action::Export <==> key.code == KeyCode::Char('q'),
        asked(key) == Action::Move(1) <==> key.code == KeyCode::Down || key.code
            == KeyCode::Char('j'),
        asked(key) == Action::Move((-1) as isize) <==> key.code == KeyCode::Up || key.code
            == KeyCode::Char('k'),
        asked(key) == Action::Move(10) <==> key.code == KeyCode::PageDown,
        asked(key) == Action::Move((-10) as isize) <==> key.code == KeyCode::PageUp,
        asked(key) matches Action::Move(d) ==> d == 1 || d == -1 || d == 10 || d == -10,
        asked(key) == Action::Top <==> key.code == KeyCode::Char('g'),
        asked(key) == Action::Bottom <==> key.code == KeyCode::Char('G'),
        asked(key) == Action::Activate <==> key.code == KeyCode::Enter || key.code
            == KeyCode::Right,
        asked(key) == Action::Toggle <==> key.code == KeyCode::Char(' '),
        asked(key) == Action::CollapseOrUp <==> key.code == KeyCode::Left,
{
}

/// Cancelling, exporting and other keys leave the session as it is.
pub proof fn lemma_idle_actions(s: State, action: Action, defs: Defs)
    requires
        action == Action::Cancel || action == Action::Export || action == Action::Nothing,
    ensures
        after(s, action, defs) == Some(s),
{
}

/// Without a row under the cursor, nothing is activated, toggled or collapsed.
pub proof fn lemma_no_row_no_change(s: State, action: Action, defs: Defs)
    requires
        s.selected is None,
        action == Action::Activate || action == Action::Toggle || action == Action::CollapseOrUp,
    ensures
        after(s, action, defs) == Some(s),
{
}

/// Moving changes the cursor alone: by so many rows, up to the first and the last row. A
/// cursor that is nowhere starts from the first row.
pub proof fn lemma_moving(s: State, delta: isize, defs: Defs)
    requires
        shown_rows(s.root).len() <= usize::MAX,
        s.selected matches Some(i) ==> i < shown_rows(s.root).len(),
    ensures
        after(s, Action::Move(delta), defs) matches Some(t) && {
            let from = match s.selected {
                Some(i) => i as int,
                None => 0,
            };
            let n = shown_rows(s.root).len();
            &&& t.root == s.root
            &&& t.selected matches Some(to) && {
                &&& to < n
                &&& 0 <= from + delta < n ==> to == from + delta
                &&& from + delta < 0 ==> to == 0
                &&& from + delta >= n ==> to == n - 1
            }
        },
{
    lemma_collapsed_shows_one_row(s.root);
}

/// Moving there and back brings the cursor back, where no end is in the way.
pub proof fn lemma_moving_back(s: State, delta: isize, back: isize, defs: Defs)
    requires
        shown_rows(s.root).len() <= usize::MAX,
        s.selected matches Some(i) && i < shown_rows(s.root).len() && 0 <= i + delta
            < shown_rows(s.root).len(),
        back == -delta,
    ensures
        after(s, Action::Move(delta), defs) matches Some(t) && after(t, Action::Move(back), defs)
            == Some(s),
{
    lemma_moving(s, delta, defs);
    let t = after(s, Action::Move(delta), defs)->0;
    lemma_moving(t, back, defs);
    let u = after(t, Action::Move(back), defs)->0;
    assert(u.selected == s.selected);
}

/// Where the tree has changed, the cursor stays in its position, or moves to the last row
/// where there are not so many rows any more.
pub proof fn lemma_cursor_after_change(root: NodeView, selected: Option<usize>)
    requires
        shown_rows(root).len() <= usize::MAX,
    ensures
        settled(root, selected).root == root,
        selected is None ==> settled(root, selected).selected is None,
        selected matches Some(i) ==> (settled(root, selected).selected matches Some(j) && j
            < shown_rows(root).len() && (i < shown_rows(root).len() ==> j == i) && (i
            >= shown_rows(root).len() ==> j + 1 == shown_rows(root).len())),
{
    lemma_collapsed_shows_one_row(root);
}

/// `g` goes to the first row and `G` to the last one, and neither changes the tree.
pub proof fn lemma_jumping(s: State, defs: Defs)
    requires
        shown_rows(s.root).len() <= usize::MAX,
    ensures
        after(s, Action::Top, defs) matches Some(t) && t.root == s.root && t.selected
            == Some(0usize),
        after(s, Action::Bottom, defs) matches Some(t) && t.root == s.root && (
        t.selected matches Some(i) && i + 1 == shown_rows(s.root).len()),
{
    lemma_collapsed_shows_one_row(s.root);
}

/// `q` leads to the node at `path`, or to one below it.
pub open spec fn at_or_below(path: Seq<usize>, q: Seq<usize>) -> bool {
    path.len() <= q.len() && forall|k: int| 0 <= k < path.len() ==> path[k] == q[k]
}

/// `b` is `a` but for its children.
pub open spec fn same_itself(a: NodeView, b: NodeView) -> bool {
    b == (NodeView { children: b.children, ..a })
}

/// Putting a node into its place changes no other node, but for the children of those
/// above it.
pub proof fn lemma_put_elsewhere(root: NodeView, path: Seq<usize>, m: NodeView, q: Seq<usize>)
    requires
        at(root, path) is Some,
        !at_or_below(path, q),
    ensures
        match at(root, q) {
            Some(a) => at(put(root, path, m), q) matches Some(b) && same_itself(a, b) && (
            !at_or_below(q, path) ==> b == a),
            None => at(put(root, path, m), q) is None,
        },
    decreases path.len(),
{
    if path.len() > 0 && q.len() > 0 && q[0] == path[0] {
        let i = path[0] as int;
        let below = path.skip(1);
        let rest = q.skip(1);
        assert(!at_or_below(below, rest)) by {
            if at_or_below(below, rest) {
                assert forall|k: int| 0 <= k < path.len() implies path[k] == q[k] by {
                    if k > 0 {
                        assert(below[k - 1] == rest[k - 1]);
                    }
                }
            }
        }
        lemma_put_elsewhere(root.children[i], below, m, rest);
        if at_or_below(rest, below) {
            assert forall|k: int| 0 <= k < q.len() implies q[k] == path[k] by {
                if k > 0 {
                    assert(rest[k - 1] == below[k - 1]);
                }
            }
        }
    }
}

/// Including a node with its ancestors changes nothing but that these are included.
pub proof fn lemma_included_elsewhere(root: NodeView, path: Seq<usize>, q: Seq<usize>)
    requires
        at(root, path) is Some,
    ensures
        match at(root, q) {
            Some(a) => at(included_along(root, path), q) matches Some(b) && b == (NodeView {
                children: b.children,
                included: a.included || at_or_below(q, path),
                ..a
            }) && (!at_or_below(q, path) ==> b == a),
            None => at(included_along(root, path), q) is None,
        },
    decreases path.len(),
{
    if path.len() > 0 && q.len() > 0 && q[0] == path[0] {
        let i = path[0] as int;
        let below = path.skip(1);
        let rest = q.skip(1);
        lemma_included_elsewhere(root.children[i], below, rest);
        if at_or_below(rest, below) {
            assert forall|k: int| 0 <= k < q.len() implies q[k] == path[k] by {
                if k > 0 {
                    assert(rest[k - 1] == below[k - 1]);
                }
            }
        }
        if at_or_below(q, path) {
            assert forall|k: int| 0 <= k < rest.len() implies rest[k] == below[k] by {
                assert(q[k + 1] == path[k + 1]);
            }
        }
    } else if q.len() > 0 && at_or_below(q, path) {
        assert(q[0] == path[0]);
    }
}

/// The cursor stays on its node where the rows before that stay as they are.
proof fn lemma_cursor_stays(s: State, root: NodeView)
    requires
        fits(s.root),
        fits(root),
        cursor(s) matches Some(row) && same_before(s.root, root, row.path),
    ensures
        cursor(settled(root, s.selected)) matches Some(row) && row.path == cursor(s)->0.path,
        settled(root, s.selected).selected == s.selected,
        settled(root, s.selected).root == root,
        at(s.root, cursor(s)->0.path) is Some,
{
    let i = s.selected->0 as int;
    let none = Seq::<usize>::empty();
    let path = lemma_row_has_visible_node(s.root, none, false, i);
    assert(none + path =~= path);
    lemma_visible_node_has_row(s.root, none, false, path);
    lemma_same_place(s.root, root, path);
    lemma_visible_node_has_row(root, none, false, path);
}

/// The cursor is on the row of the node that its path leads to.
proof fn lemma_cursor_node(s: State)
    requires
        fits(s.root),
        cursor(s) is Some,
    ensures
        at(s.root, cursor(s)->0.path) matches Some(n) && {
            let row = cursor(s)->0;
            &&& row.expandable == n.expandable && row.expanded == n.expanded
            &&& row.is_required == n.is_required && row.included == n.included
            &&& row.is_variant_child == (n.kind == NodeKind::Variant)
        },
{
    lemma_cursor_leads(s);
}

/// Populating a node gives it children and annotations, and may make it a union; the rest
/// of it stays. A node that was populated before stays as it is.
pub proof fn lemma_populating(n: NodeView, defs: Defs, depth: nat)
    ensures
        populated(n, defs, depth) matches Some(m) ==> {
            &&& m.populated
            &&& m.label == n.label && m.type_desc == n.type_desc && m.default == n.default
            &&& m.leaf_value == n.leaf_value && m.is_required == n.is_required
            &&& m.included == n.included && m.expandable == n.expandable
            &&& m.expanded == n.expanded && m.selected_variant == n.selected_variant
            &&& m.kind == n.kind || m.kind == NodeKind::OneOf
            &&& n.populated ==> m == n
        },
{
    if n.populated {
        assert(marked(n) == n);
    }
}

/// Activating a row that can be expanded, and is no variant, expands it where it was
/// collapsed and collapses it where it was expanded. The node stays as it is otherwise, but
/// for being populated, and so does every other node; the cursor stays on the row.
pub proof fn lemma_activating(s: State, defs: Defs, q: Seq<usize>)
    requires
        fits(s.root),
        cursor(s) matches Some(row) && row.expandable && !row.is_variant_child,
    ensures
        after(s, Action::Activate, defs) matches Some(t) ==> {
            let row = cursor(s)->0;
            let n = at(s.root, row.path)->0;
            &&& at(t.root, row.path) matches Some(m) && {
                &&& m.expanded == !row.expanded
                &&& m.populated
                &&& n.populated ==> m == (NodeView { expanded: !row.expanded, ..n })
                &&& populated(n, defs, 0) == Some(NodeView { expanded: row.expanded, ..m })
                &&& m.included == row.included && m.label == n.label && m.default == n.default
                &&& m.selected_variant == n.selected_variant
            }
            &&& t.selected == s.selected
            &&& fits(t.root) ==> (cursor(t) matches Some(r) && r.path == row.path && r.expanded
                == !row.expanded)
            &&& !at_or_below(row.path, q) ==> match at(s.root, q) {
                Some(a) => at(t.root, q) matches Some(b) && same_itself(a, b),
                None => at(t.root, q) is None,
            }
        },
{
    lemma_cursor_node(s);
    let path = cursor(s)->0.path;
    let n = at(s.root, path)->0;
    lemma_populating(n, defs, 0);
    if let Some(m) = populated(n, defs, 0) {
        let x = NodeView { expanded: !n.expanded, ..m };
        let root = put(s.root, path, x);
        lemma_at_put(s.root, path, x);
        lemma_put_same_before(s.root, path, x);
        if !at_or_below(path, q) {
            lemma_put_elsewhere(s.root, path, x, q);
        }
        lemma_selection_stays(s, root);
        if fits(root) {
            lemma_cursor_stays(s, root);
            lemma_cursor_node(settled(root, s.selected));
        }
    }
}

/// The position of the cursor stays where the rows before it stay as they are.
proof fn lemma_selection_stays(s: State, root: NodeView)
    requires
        fits(s.root),
        cursor(s) matches Some(row) && same_before(s.root, root, row.path),
    ensures
        settled(root, s.selected).selected == s.selected,
        settled(root, s.selected).root == root,
{
    let i = s.selected->0 as int;
    let none = Seq::<usize>::empty();
    let path = lemma_row_has_visible_node(s.root, none, false, i);
    assert(none + path =~= path);
    lemma_same_place(s.root, root, path);
    lemma_place_in_lines(root, path);
    lemma_lines(root, none, false);
}

/// The row of a visible node is one of the rows.
proof fn lemma_place_in_lines(n: NodeView, path: Seq<usize>)
    requires
        visible_at(n, path),
    ensures
        place(n, path) < lines(n),
    decreases path.len(),
{
    if path.len() > 0 {
        let i = path[0] as int;
        lemma_place_in_lines(n.children[i], path.skip(1));
        lemma_lines_up_to(n.children, i);
    }
}

proof fn lemma_lines_up_to(nodes: Seq<NodeView>, i: int)
    requires
        0 <= i < nodes.len(),
    ensures
        lines_of(nodes.take(i)) + lines(nodes[i]) <= lines_of(nodes),
    decreases nodes.len(),
{
    let init = nodes.drop_last();
    if i < init.len() {
        lemma_lines_up_to(init, i);
        assert(init.take(i) =~= nodes.take(i));
        assert(init[i] == nodes[i]);
    } else {
        assert(nodes.take(i) =~= init);
    }
}

/// Activating twice a row that can be expanded, is no variant, and has been populated
/// brings the session back: the same tree, the same rows and the same cursor.
pub proof fn lemma_activating_twice(s: State, defs: Defs)
    requires
        fits(s.root),
        cursor(s) matches Some(row) && row.expandable && !row.is_variant_child && (at(
            s.root,
            row.path,
        ) matches Some(n) && n.populated),
    ensures
        after(s, Action::Activate, defs) matches Some(t) && (fits(t.root) ==> after(
            t,
            Action::Activate,
            defs,
        ) == Some(s)),
{
    lemma_cursor_node(s);
    let path = cursor(s)->0.path;
    let n = at(s.root, path)->0;
    lemma_populating(n, defs, 0);
    lemma_activating(s, defs, path);
    let t = after(s, Action::Activate, defs)->0;
    let m = NodeView { expanded: !n.expanded, ..n };
    assert(t.root == put(s.root, path, m));
    if fits(t.root) {
        lemma_cursor_node(t);
        lemma_populating(m, defs, 0);
        lemma_activating(t, defs, path);
        lemma_put_twice(s.root, path, m, n);
        lemma_put_same(s.root, path);
        assert(NodeView { expanded: !m.expanded, ..m } == n);
    }
}

/// Of two nodes that are put into a place the second stays.
proof fn lemma_put_twice(root: NodeView, path: Seq<usize>, m: NodeView, x: NodeView)
    requires
        at(root, path) is Some,
    ensures
        put(put(root, path, m), path, x) == put(root, path, x),
    decreases path.len(),
{
    if path.len() > 0 {
        let i = path[0] as int;
        lemma_put_twice(root.children[i], path.skip(1), m, x);
        let once = put(root, path, m);
        assert(once.children.update(i, put(once.children[i], path.skip(1), x))
            =~= root.children.update(i, put(root.children[i], path.skip(1), x)));
    }
}

/// A row that is no variant and cannot be expanded stays as it is when it is activated,
/// and so does a required field when it is toggled.
pub proof fn lemma_nothing_to_do(s: State, defs: Defs)
    requires
        cursor(s) matches Some(row) && !row.is_variant_child,
    ensures
        !cursor(s)->0.expandable ==> after(s, Action::Activate, defs) == Some(s),
        cursor(s)->0.is_required ==> after(s, Action::Toggle, defs) == Some(s),
{
}

/// Space and Enter do the same to a variant: they pick it. The union selects it, and is
/// included with all its ancestors; the variant is expanded and populated. No other node
/// changes, and the cursor stays where it is.
pub proof fn lemma_picking(s: State, defs: Defs, q: Seq<usize>, k: int)
    requires
        fits(s.root),
        cursor(s) matches Some(row) && row.is_variant_child && row.path.len() > 0,
        0 <= k < cursor(s)->0.path.len(),
    ensures
        after(s, Action::Activate, defs) == after(s, Action::Toggle, defs),
        after(s, Action::Activate, defs) matches Some(t) ==> {
            let path = cursor(s)->0.path;
            let n = at(s.root, path)->0;
            &&& at(t.root, path.drop_last()) matches Some(p) && p.selected_variant == path.last()
            &&& at(t.root, path.take(k)) matches Some(a) && a.included
            &&& at(t.root, path) matches Some(m) && m.expanded && m.populated && m.included
                == n.included && m.label == n.label && (n.populated ==> m == (NodeView {
                expanded: true,
                ..n
            }))
            &&& at(t.root, path) matches Some(m) && populated(n, defs, 0) == Some(
                NodeView { expanded: n.expanded, ..m },
            )
            &&& t.selected == s.selected
            &&& !at_or_below(q, path) && !at_or_below(path, q) ==> at(t.root, q) == at(s.root, q)
            &&& at_or_below(q, path) && q.len() + 1 < path.len() ==> (at(
                s.root,
                q,
            ) matches Some(a) && at(t.root, q) matches Some(b) && b == (NodeView {
                children: b.children,
                included: true,
                ..a
            }))
        },
{
    lemma_cursor_node(s);
    let path = cursor(s)->0.path;
    let n = at(s.root, path)->0;
    lemma_populating(n, defs, 0);
    if let Some(m) = populated(n, defs, 0) {
        let parent = path.drop_last();
        let x = NodeView { expanded: true, ..m };
        let r = put(s.root, path, x);
        lemma_at_put(s.root, path, x);
        lemma_at_parent(s.root, path);
        lemma_at_parent(r, path);
        let p = at(r, parent)->0;
        let y = NodeView { selected_variant: path.last(), ..p };
        lemma_at_put(r, parent, y);
        let u = put(r, parent, y);
        lemma_included_along(u, parent, k);
        assert(parent.take(k) =~= path.take(k));
        lemma_included_along(u, parent, parent.len() as int);
        assert(parent.take(parent.len() as int) =~= parent);
        let t = included_along(u, parent);
        // The variant itself.
        assert(!at_or_below(path, parent));
        assert(at(u, path) == Some(x)) by {
            lemma_child_at(u, path);
        }
        lemma_included_elsewhere(u, parent, path);
        assert(!at_or_below(path, parent));
        // The cursor.
        lemma_put_same_before(s.root, path, x);
        lemma_parent_same_before(r, path, y);
        lemma_same_before_twice(s.root, r, u, path);
        lemma_at_put(r, parent, y);
        lemma_included_above(u, path);
        lemma_same_before_twice(s.root, u, t, path);
        lemma_selection_stays(s, t);
        // Other nodes.
        if !at_or_below(q, path) && !at_or_below(path, q) {
            lemma_put_elsewhere(s.root, path, x, q);
            assert(!at_or_below(q, parent)) by {
                if at_or_below(q, parent) {
                    assert forall|i: int| 0 <= i < q.len() implies q[i] == path[i] by {
                        assert(q[i] == parent[i]);
                    }
                }
            }
            lemma_selecting_elsewhere(r, parent, path.last(), q, path);
            lemma_included_elsewhere(u, parent, q);
        }
        if at_or_below(q, path) && q.len() + 1 < path.len() {
            assert(!at_or_below(path, q));
            assert(!at_or_below(parent, q));
            assert(at_or_below(q, parent)) by {
                assert forall|i: int| 0 <= i < q.len() implies q[i] == parent[i] by {
                    assert(q[i] == path[i]);
                }
            }
            lemma_put_elsewhere(s.root, path, x, q);
            lemma_put_elsewhere(r, parent, y, q);
            lemma_included_elsewhere(u, parent, q);
            lemma_ancestor(s.root, path, q);
        }
    }
}

/// A change to the parent alone leaves the rows before a node as they are.
proof fn lemma_parent_same_before(n: NodeView, path: Seq<usize>, y: NodeView)
    requires
        path.len() > 0,
        at(n, path) is Some,
        at(n, path.drop_last()) matches Some(p) && y.expanded == p.expanded && y.children
            == p.children,
    ensures
        same_before(n, put(n, path.drop_last(), y), path),
    decreases path.len(),
{
    let parent = path.drop_last();
    let i = path[0] as int;
    if path.len() == 1 {
        assert(parent =~= Seq::<usize>::empty());
        lemma_same_before_itself(n.children[i], path.skip(1));
    } else {
        assert(parent.skip(1) =~= path.skip(1).drop_last());
        lemma_parent_same_before(n.children[i], path.skip(1), y);
    }
}

proof fn lemma_same_before_itself(n: NodeView, path: Seq<usize>)
    requires
        at(n, path) is Some,
    ensures
        same_before(n, n, path),
    decreases path.len(),
{
    if path.len() > 0 {
        lemma_same_before_itself(n.children[path[0] as int], path.skip(1));
    }
}

/// Including the nodes above one leaves the rows before it as they are.
proof fn lemma_included_above(n: NodeView, path: Seq<usize>)
    requires
        path.len() > 0,
        at(n, path) is Some,
    ensures
        same_before(n, included_along(n, path.drop_last()), path),
    decreases path.len(),
{
    let parent = path.drop_last();
    let i = path[0] as int;
    if path.len() == 1 {
        assert(parent =~= Seq::<usize>::empty());
        lemma_same_before_itself(n.children[i], path.skip(1));
    } else {
        assert(parent.skip(1) =~= path.skip(1).drop_last());
        lemma_included_above(n.children[i], path.skip(1));
    }
}

/// What stands above a node is there.
proof fn lemma_ancestor(n: NodeView, path: Seq<usize>, q: Seq<usize>)
    requires
        at(n, path) is Some,
        at_or_below(q, path),
    ensures
        at(n, q) is Some,
    decreases q.len(),
{
    if q.len() > 0 {
        assert(q[0] == path[0]);
        assert forall|i: int| 0 <= i < q.skip(1).len() implies q.skip(1)[i] == path.skip(1)[i] by {
            assert(q[i + 1] == path[i + 1]);
        }
        lemma_ancestor(n.children[path[0] as int], path.skip(1), q.skip(1));
    }
}

/// Selecting a variant changes no node but the union.
proof fn lemma_selecting_elsewhere(
    r: NodeView,
    parent: Seq<usize>,
    i: usize,
    q: Seq<usize>,
    path: Seq<usize>,
)
    requires
        at(r, parent) is Some,
        !at_or_below(q, parent),
    ensures
        at(put(r, parent, NodeView { selected_variant: i, ..at(r, parent)->0 }), q) == at(r, q),
    decreases parent.len(),
{
    let p = at(r, parent)->0;
    let y = NodeView { selected_variant: i, ..p };
    if parent.len() == 0 {
        assert(q.len() > 0);
        assert(y.children == p.children);
    } else if q.len() > 0 && q[0] == parent[0] {
        let below = parent.skip(1);
        let rest = q.skip(1);
        assert(!at_or_below(rest, below)) by {
            if at_or_below(rest, below) {
                assert forall|k: int| 0 <= k < q.len() implies q[k] == parent[k] by {
                    if k > 0 {
                        assert(rest[k - 1] == below[k - 1]);
                    }
                }
            }
        }
        lemma_selecting_elsewhere(r.children[parent[0] as int], below, i, rest, path);
    }
}

/// Toggling an optional field includes it where it was left out, and leaves it out where
/// it was included. One that is included is expanded, where it can be, and so are all its
/// ancestors included; one that is left out stays as it is otherwise. No other node
/// changes.
pub proof fn lemma_toggling(s: State, defs: Defs, q: Seq<usize>)
    requires
        fits(s.root),
        cursor(s) matches Some(row) && !row.is_variant_child && !row.is_required,
    ensures
        after(s, Action::Toggle, defs) matches Some(t) ==> {
            let row = cursor(s)->0;
            let n = at(s.root, row.path)->0;
            &&& at(t.root, row.path) matches Some(m) && {
                &&& m.included == !row.included
                &&& row.included ==> m == (NodeView { included: false, ..n })
                &&& !row.included && row.expandable ==> m.expanded && m.populated && populated(
                    n,
                    defs,
                    0,
                ) == Some(NodeView { included: false, expanded: n.expanded, ..m })
                &&& !row.included && !row.expandable ==> m == (NodeView { included: true, ..n })
                &&& m.label == n.label && m.default == n.default && m.leaf_value == n.leaf_value
                &&& n.populated ==> m.children == n.children
            }
            &&& !at_or_below(row.path, q) ==> match at(s.root, q) {
                Some(a) => at(t.root, q) matches Some(b) && b == (NodeView {
                    children: b.children,
                    included: a.included || (!row.included && at_or_below(q, row.path)),
                    ..a
                }),
                None => at(t.root, q) is None,
            }
            &&& t.selected == s.selected
        },
{
    lemma_cursor_node(s);
    let row = cursor(s)->0;
    let path = row.path;
    let n = at(s.root, path)->0;
    lemma_populating(n, defs, 0);
    if n.included {
        let x = NodeView { included: false, ..n };
        lemma_at_put(s.root, path, x);
        lemma_put_same_before(s.root, path, x);
        lemma_selection_stays(s, put(s.root, path, x));
        if !at_or_below(path, q) {
            lemma_put_elsewhere(s.root, path, x, q);
        }
    } else if after(s, Action::Toggle, defs) is Some {
        let x = if n.expandable {
            NodeView { included: true, expanded: true, ..populated(n, defs, 0)->0 }
        } else {
            NodeView { included: true, ..n }
        };
        let r = put(s.root, path, x);
        lemma_at_put(s.root, path, x);
        lemma_put_same_before(s.root, path, x);
        lemma_included_along(r, path, 0);
        lemma_included_same_before(r, path);
        lemma_same_before_twice(s.root, r, included_along(r, path), path);
        lemma_selection_stays(s, included_along(r, path));
        if !at_or_below(path, q) {
            lemma_put_elsewhere(s.root, path, x, q);
            lemma_included_elsewhere(r, path, q);
        }
    }
}

/// What keeps the rows before a node twice keeps them.
proof fn lemma_same_before_twice(a: NodeView, b: NodeView, c: NodeView, path: Seq<usize>)
    requires
        same_before(a, b, path),
        same_before(b, c, path),
    ensures
        same_before(a, c, path),
    decreases path.len(),
{
    if path.len() > 0 {
        let i = path[0] as int;
        lemma_same_before_twice(a.children[i], b.children[i], c.children[i], path.skip(1));
        assert forall|k: int| 0 <= k < a.children.len() && k != path[0] implies #[trigger]
            a.children[k] == c.children[k] by {
            assert(b.children[k] == c.children[k]);
        }
    }
}

/// The left arrow collapses a row that is expanded, and changes nothing else; on the root,
/// where there is nothing to collapse, it does nothing.
pub proof fn lemma_collapsing(s: State, defs: Defs, q: Seq<usize>)
    requires
        fits(s.root),
        cursor(s) is Some,
    ensures
        after(s, Action::CollapseOrUp, defs) matches Some(t) && {
            let row = cursor(s)->0;
            let n = at(s.root, row.path)->0;
            &&& row.expandable && row.expanded ==> {
                &&& at(t.root, row.path) == Some(NodeView { expanded: false, ..n })
                &&& t.selected == s.selected
                &&& !at_or_below(row.path, q) ==> match at(s.root, q) {
                    Some(a) => at(t.root, q) matches Some(b) && same_itself(a, b),
                    None => at(t.root, q) is None,
                }
            }
            &&& !(row.expandable && row.expanded) ==> t.root == s.root
            &&& !(row.expandable && row.expanded) && row.path.len() == 0 ==> t == s
            &&& !(row.expandable && row.expanded) && row.path.len() > 0 ==> (
            cursor(t) matches Some(up) && up.path == row.path.drop_last())
        },
{
    lemma_cursor_node(s);
    let row = cursor(s)->0;
    let path = row.path;
    let n = at(s.root, path)->0;
    if row.expandable && row.expanded {
        let x = NodeView { expanded: false, ..n };
        lemma_at_put(s.root, path, x);
        lemma_put_same_before(s.root, path, x);
        lemma_selection_stays(s, put(s.root, path, x));
        if !at_or_below(path, q) {
            lemma_put_elsewhere(s.root, path, x, q);
        }
    } else if path.len() > 0 {
        lemma_up_reaches_parent(s);
    }
}

/// A session cannot go on only where a node that is to be shown or included cannot be
/// populated.
pub proof fn lemma_stuck_only_by_populating(s: State, action: Action, defs: Defs)
    requires
        fits(s.root),
        after(s, action, defs) is None,
    ensures
        cursor(s) matches Some(row) && (at(s.root, row.path) matches Some(n) && !n.populated
            && populated(n, defs, 0) is None),
{
    lemma_cursor_leads(s);
}

} // verus!
