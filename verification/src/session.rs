//! An interactive session: the tree, the rows that show it, the row under the cursor,
//! and what each key does.

use crate::json::Json;
use crate::node::{exported, lemma_node_children, Node, NodeView};
use crate::rows::{
    at, flatten, include_path, included_along, lemma_at_parent, lemma_at_put, lemma_put_same,
    node_at_mut, put, row_of, rows_of, rows_view, split_path, Row, RowView,
};
use crate::schema::{Defs, RootSchema};
use crate::sound::{
    fits, lemma_at_sound, lemma_included_sound, lemma_node_fits, lemma_populated_sound,
    lemma_put_sound, lemma_root_sound, lemma_rows_lead, sound,
};
use crate::tree::{build_root, populate, populated, root_tree};
use vstd::prelude::*;

verus! {

/// Outcome of an interactive session.
#[derive(Debug, PartialEq)]
pub enum Outcome {
    Export(Json),
    Cancel,
}

/// A key of the keyboard.
#[derive(Debug, Clone, Copy, PartialEq, Eq, Structural)]
pub enum KeyCode {
    Char(char),
    Up,
    Down,
    Left,
    Right,
    PageUp,
    PageDown,
    Enter,
    Esc,
    Other,
}

/// A key that was pressed; `control` says whether Control, and no other modifier, was
/// held down.
#[derive(Debug, Clone, Copy, PartialEq, Eq, Structural)]
pub struct Key {
    pub code: KeyCode,
    pub control: bool,
}

/// What follows from a key: the session goes on, ends, or cannot go on because the
/// schema's references never come to an end.
#[derive(Debug, PartialEq)]
pub enum Step {
    Continue,
    Done(Outcome),
    Stuck,
}

/// What a key asks for.
#[derive(Debug, Clone, Copy, PartialEq, Eq, Structural)]
pub enum Action {
    Cancel,
    Export,
    Move(isize),
    Top,
    Bottom,
    Activate,
    Toggle,
    CollapseOrUp,
    Nothing,
}

/// The state of a session: the tree and the position of the cursor.
#[verifier::ext_equal]
pub struct State {
    pub root: NodeView,
    pub selected: Option<usize>,
}

/// The rows that show the tree `root`.
pub open spec fn shown_rows(root: NodeView) -> Seq<RowView> {
    rows_of(root, Seq::empty(), false)
}

/// The row under the cursor.
pub open spec fn cursor(s: State) -> Option<RowView> {
    match s.selected {
        Some(i) => if i < shown_rows(s.root).len() {
            Some(shown_rows(s.root)[i as int])
        } else {
            None
        },
        None => None,
    }
}

/// The state after the tree has changed to `root`: a cursor behind the last row moves
/// to it.
pub open spec fn settled(root: NodeView, selected: Option<usize>) -> State {
    let n = shown_rows(root).len();
    State {
        root,
        selected: match selected {
            Some(i) => if i >= n {
                Some((n - 1) as usize)
            } else {
                Some(i)
            },
            None => None,
        },
    }
}

/// The state after the cursor has moved by `delta` rows, as far as there are rows.
pub open spec fn moved(s: State, delta: int) -> State {
    let last = shown_rows(s.root).len() - 1;
    let from = match s.selected {
        Some(i) => i as int,
        None => 0,
    };
    let to = from + delta;
    State {
        selected: Some(
            if to < 0 {
                0usize
            } else if to > last {
                last as usize
            } else {
                to as usize
            },
        ),
        ..s
    }
}

/// The state with the cursor on the first row.
pub open spec fn at_top(s: State) -> State {
    State { selected: Some(0), ..s }
}

/// The state with the cursor on the last row.
pub open spec fn at_bottom(s: State) -> State {
    State { selected: Some((shown_rows(s.root).len() - 1) as usize), ..s }
}

/// The tree with the node at `path` populated and expanded.
pub open spec fn opened(root: NodeView, path: Seq<usize>, defs: Defs) -> Option<NodeView> {
    match at(root, path) {
        None => Some(root),
        Some(n) => match populated(n, defs, 0) {
            None => None,
            Some(m) => Some(put(root, path, NodeView { expanded: true, ..m })),
        },
    }
}

/// The tree with child `i` selected in the node at `path`.
pub open spec fn with_selection(root: NodeView, path: Seq<usize>, i: usize) -> NodeView {
    match at(root, path) {
        Some(p) => put(root, path, NodeView { selected_variant: i, ..p }),
        None => root,
    }
}

/// The tree after the variant at `path` was picked: it is opened, its parent selects
/// it, and the parent and all its ancestors are included.
pub open spec fn picked(root: NodeView, path: Seq<usize>, defs: Defs) -> Option<NodeView> {
    match opened(root, path, defs) {
        None => None,
        Some(r) => if path.len() == 0 {
            Some(r)
        } else {
            let parent = path.drop_last();
            Some(included_along(with_selection(r, parent, path.last()), parent))
        },
    }
}

/// The tree with the node at `path` populated, and expanded if it was not, else
/// collapsed.
pub open spec fn flipped(root: NodeView, path: Seq<usize>, defs: Defs) -> Option<NodeView> {
    match at(root, path) {
        None => Some(root),
        Some(n) => match populated(n, defs, 0) {
            None => None,
            Some(m) => Some(put(root, path, NodeView { expanded: !n.expanded, ..m })),
        },
    }
}

/// The tree with the node at `path` excluded if it was included; else included, with
/// all its ancestors, and opened where that is possible.
pub open spec fn swapped(root: NodeView, path: Seq<usize>, defs: Defs) -> Option<NodeView> {
    match at(root, path) {
        None => Some(root),
        Some(n) => if n.included {
            Some(put(root, path, NodeView { included: false, ..n }))
        } else if n.expandable {
            match populated(n, defs, 0) {
                None => None,
                Some(m) => Some(
                    included_along(
                        put(root, path, NodeView { included: true, expanded: true, ..m }),
                        path,
                    ),
                ),
            }
        } else {
            Some(included_along(put(root, path, NodeView { included: true, ..n }), path))
        },
    }
}

/// The tree with the node at `path` collapsed.
pub open spec fn folded(root: NodeView, path: Seq<usize>) -> NodeView {
    match at(root, path) {
        None => root,
        Some(n) => put(root, path, NodeView { expanded: false, ..n }),
    }
}

/// The position of the first row with the path `path`.
pub open spec fn row_at(rows: Seq<RowView>, path: Seq<usize>) -> Option<int>
    decreases rows.len(),
{
    if rows.len() == 0 {
        None
    } else {
        match row_at(rows.drop_last(), path) {
            Some(i) => Some(i),
            None => if rows.last().path == path {
                Some(rows.len() - 1)
            } else {
                None
            },
        }
    }
}

/// The state after the row under the cursor was activated: a variant is picked,
/// anything else that can be expanded is expanded or collapsed.
pub open spec fn after_activate(s: State, defs: Defs) -> Option<State> {
    match cursor(s) {
        None => Some(s),
        Some(row) => {
            let tree = if row.is_variant_child {
                picked(s.root, row.path, defs)
            } else if !row.expandable {
                Some(s.root)
            } else {
                flipped(s.root, row.path, defs)
            };
            match tree {
                None => None,
                Some(root) => Some(settled(root, s.selected)),
            }
        },
    }
}

/// The state after inclusion was toggled on the row under the cursor: a variant is
/// picked, an optional field is included or excluded, a required field stays.
pub open spec fn after_toggle(s: State, defs: Defs) -> Option<State> {
    match cursor(s) {
        None => Some(s),
        Some(row) => {
            let tree = if row.is_variant_child {
                picked(s.root, row.path, defs)
            } else if row.is_required {
                Some(s.root)
            } else {
                swapped(s.root, row.path, defs)
            };
            match tree {
                None => None,
                Some(root) => Some(settled(root, s.selected)),
            }
        },
    }
}

/// The state after the row under the cursor was collapsed, or, where there is nothing
/// to collapse, the cursor has moved to the parent's row.
pub open spec fn after_collapse(s: State) -> State {
    match cursor(s) {
        None => s,
        Some(row) => if row.expandable && row.expanded {
            settled(folded(s.root, row.path), s.selected)
        } else if row.path.len() > 0 {
            match row_at(shown_rows(s.root), row.path.drop_last()) {
                Some(i) => State { selected: Some(i as usize), ..s },
                None => s,
            }
        } else {
            s
        },
    }
}

/// What `key` asks for.
pub open spec fn asked(key: Key) -> Action {
    match key.code {
        KeyCode::Esc => Action::Cancel,
        KeyCode::Char('c') => if key.control {
            Action::Cancel
        } else {
            Action::Nothing
        },
        KeyCode::Char('q') => Action::Export,
        KeyCode::Down => Action::Move(1),
        KeyCode::Char('j') => Action::Move(1),
        KeyCode::Up => Action::Move((-1) as isize),
        KeyCode::Char('k') => Action::Move((-1) as isize),
        KeyCode::PageDown => Action::Move(10),
        KeyCode::PageUp => Action::Move((-10) as isize),
        KeyCode::Char('g') => Action::Top,
        KeyCode::Char('G') => Action::Bottom,
        KeyCode::Enter => Action::Activate,
        KeyCode::Right => Action::Activate,
        KeyCode::Char(' ') => Action::Toggle,
        KeyCode::Left => Action::CollapseOrUp,
        _ => Action::Nothing,
    }
}

/// The state after `action`. `None` where some placeholder cannot be worked out.
pub open spec fn after(s: State, action: Action, defs: Defs) -> Option<State> {
    match action {
        Action::Move(delta) => Some(moved(s, delta as int)),
        Action::Top => Some(at_top(s)),
        Action::Bottom => Some(at_bottom(s)),
        Action::Activate => after_activate(s, defs),
        Action::Toggle => after_toggle(s, defs),
        Action::CollapseOrUp => Some(after_collapse(s)),
        _ => Some(s),
    }
}

/// The row under the cursor shows the node that its path leads to.
pub proof fn lemma_cursor_leads(s: State)
    requires
        fits(s.root),
    ensures
        cursor(s) matches Some(row) ==> (at(s.root, row.path) matches Some(n) && row == row_of(
            n,
            row.path,
            row.is_selected_variant,
        )),
{
    if cursor(s) is Some {
        let i = s.selected->0 as int;
        let rest = lemma_rows_lead(s.root, Seq::empty(), false, i);
        assert(Seq::<usize>::empty() + rest =~= rest);
    }
}

/// A tree stays sound when a variant of it is picked.
proof fn lemma_picked_sound(root: NodeView, path: Seq<usize>, defs: Defs)
    requires
        sound(root, defs),
        at(root, path) is Some,
    ensures
        picked(root, path, defs) matches Some(t) ==> sound(t, defs) && t.is_required
            == root.is_required,
{
    let n = at(root, path)->0;
    lemma_at_sound(root, path, defs);
    lemma_populated_sound(n, defs, 0);
    if let Some(m) = populated(n, defs, 0) {
        let x = NodeView { expanded: true, ..m };
        assert(x.children == m.children);
        lemma_put_sound(root, path, x, defs);
        lemma_at_put(root, path, x);
        let r = put(root, path, x);
        if path.len() > 0 {
            let parent = path.drop_last();
            lemma_at_parent(r, path);
            lemma_at_sound(r, parent, defs);
            let p = at(r, parent)->0;
            let q = NodeView { selected_variant: path.last(), ..p };
            assert(q.children == p.children);
            lemma_put_sound(r, parent, q, defs);
            lemma_at_put(r, parent, q);
            lemma_included_sound(put(r, parent, q), parent, defs);
        }
    }
}

/// A tree stays sound when a node of it is expanded or collapsed.
proof fn lemma_flipped_sound(root: NodeView, path: Seq<usize>, defs: Defs)
    requires
        sound(root, defs),
    ensures
        flipped(root, path, defs) matches Some(t) ==> sound(t, defs) && t.is_required
            == root.is_required,
        sound(folded(root, path), defs),
        folded(root, path).is_required == root.is_required,
{
    if let Some(n) = at(root, path) {
        lemma_at_sound(root, path, defs);
        lemma_populated_sound(n, defs, 0);
        if let Some(m) = populated(n, defs, 0) {
            let x = NodeView { expanded: !n.expanded, ..m };
            assert(x.children == m.children);
            lemma_put_sound(root, path, x, defs);
        }
        let y = NodeView { expanded: false, ..n };
        assert(y.children == n.children);
        lemma_put_sound(root, path, y, defs);
    }
}

/// A tree stays sound when an optional field of it is included or excluded.
proof fn lemma_swapped_sound(root: NodeView, path: Seq<usize>, defs: Defs)
    requires
        sound(root, defs),
        at(root, path) matches Some(n) ==> !n.is_required,
    ensures
        swapped(root, path, defs) matches Some(t) ==> sound(t, defs) && t.is_required
            == root.is_required,
{
    if let Some(n) = at(root, path) {
        lemma_at_sound(root, path, defs);
        if n.included {
            let x = NodeView { included: false, ..n };
            assert(x.children == n.children);
            lemma_put_sound(root, path, x, defs);
        } else if n.expandable {
            lemma_populated_sound(n, defs, 0);
            if let Some(m) = populated(n, defs, 0) {
                let x = NodeView { included: true, expanded: true, ..m };
                assert(x.children == m.children);
                lemma_put_sound(root, path, x, defs);
                lemma_at_put(root, path, x);
                lemma_included_sound(put(root, path, x), path, defs);
            }
        } else {
            let x = NodeView { included: true, ..n };
            assert(x.children == n.children);
            lemma_put_sound(root, path, x, defs);
            lemma_at_put(root, path, x);
            lemma_included_sound(put(root, path, x), path, defs);
        }
    }
}

/// Whatever is asked for, the tree stays sound: required fields stay included, and all
/// that is included is there to be exported.
pub proof fn lemma_after_sound(s: State, action: Action, defs: Defs)
    requires
        fits(s.root),
        sound(s.root, defs),
    ensures
        after(s, action, defs) matches Some(t) ==> sound(t.root, defs) && t.root.is_required
            == s.root.is_required,
{
    lemma_cursor_leads(s);
    if let Some(row) = cursor(s) {
        lemma_flipped_sound(s.root, row.path, defs);
        if row.is_variant_child {
            lemma_picked_sound(s.root, row.path, defs);
        } else if !row.is_required {
            lemma_swapped_sound(s.root, row.path, defs);
        }
    }
}

/// A session.
pub struct App<'a> {
    pub root: Node<'a>,
    pub defs: &'a Defs,
    pub rows: Vec<Row>,
    /// The position of the row under the cursor.
    pub selected: Option<usize>,
    pub title: String,
}

impl<'a> App<'a> {
    /// The state of the session.
    pub open spec fn state(self) -> State {
        State { root: self.root@, selected: self.selected }
    }

    /// The rows show the tree, and the cursor is on one of them.
    pub open spec fn in_step(self) -> bool {
        &&& rows_view(self.rows@) == shown_rows(self.root@)
        &&& self.selected matches Some(i) ==> i < self.rows@.len()
    }

    /// The tree is sound and its root required, the rows show it, and the cursor is on
    /// one of them.
    pub open spec fn wf(self) -> bool {
        &&& sound(self.root@, *self.defs)
        &&& self.root@.is_required
        &&& self.in_step()
    }

    /// The session is one on the same schema, under the same title.
    pub open spec fn continues(self, before: App<'a>) -> bool {
        self.defs == before.defs && self.title@ == before.title@
    }

    /// A session on `schema`, with the cursor on the root. `None` where following the
    /// schema's references never comes to an end.
    pub fn new(schema: &'a RootSchema, title: String) -> (r: Option<App<'a>>)
        ensures
            match r {
                Some(app) => {
                    &&& app.wf()
                    &&& root_tree(*schema) == Some(app.root@)
                    &&& app.selected == Some(0usize)
                    &&& *app.defs == schema.definitions
                    &&& app.title@ == title@
                },
                None => root_tree(*schema) is None,
            },
    {
        match build_root(schema) {
            None => None,
            Some(root) => {
                let mut app = App {
                    root,
                    defs: &schema.definitions,
                    rows: Vec::new(),
                    selected: Some(0),
                    title,
                };
                proof {
                    lemma_root_sound(*schema);
                }
                app.refresh();
                Some(app)
            },
        }
    }

    /// Shows the tree as it is now.
    pub fn refresh(&mut self)
        ensures
            final(self).in_step(),
            final(self).state() == settled(old(self).root@, old(self).selected),
            final(self).continues(*old(self)),
    {
        let mut path: Vec<usize> = Vec::new();
        let mut rows: Vec<Row> = Vec::new();
        flatten(&self.root, false, &mut path, &mut rows);
        proof {
            assert(rows_view(Seq::<Row>::empty()) =~= Seq::<RowView>::empty());
            assert(rows_view(rows@) =~= shown_rows(self.root@));
            assert(rows_view(rows@).len() == rows@.len());
        }
        self.rows = rows;
        if let Some(i) = self.selected {
            if i >= self.rows.len() {
                self.selected = Some(self.rows.len() - 1);
            }
        }
    }

    /// Moves the cursor by `delta` rows, as far as there are rows.
    pub fn move_by(&mut self, delta: isize)
        requires
            old(self).wf(),
        ensures
            final(self).wf(),
            final(self).state() == moved(old(self).state(), delta as int),
            final(self).continues(*old(self)),
    {
        proof {
            assert(rows_view(self.rows@).len() == self.rows@.len());
        }
        let last = self.rows.len() - 1;
        let cur = match self.selected {
            Some(i) => i,
            None => 0,
        };
        let next = if delta >= 0 {
            let ahead = delta as usize;
            if ahead > last - cur {
                last
            } else {
                cur + ahead
            }
        } else {
            let back = (-(delta + 1)) as usize;
            if back >= cur {
                0
            } else {
                cur - back - 1
            }
        };
        self.selected = Some(next);
    }

    /// Moves the cursor to the first row.
    pub fn jump_top(&mut self)
        requires
            old(self).wf(),
        ensures
            final(self).wf(),
            final(self).state() == at_top(old(self).state()),
            final(self).continues(*old(self)),
    {
        proof {
            assert(rows_view(self.rows@).len() == self.rows@.len());
        }
        self.selected = Some(0);
    }

    /// Moves the cursor to the last row.
    pub fn jump_bottom(&mut self)
        requires
            old(self).wf(),
        ensures
            final(self).wf(),
            final(self).state() == at_bottom(old(self).state()),
            final(self).continues(*old(self)),
    {
        proof {
            assert(rows_view(self.rows@).len() == self.rows@.len());
        }
        self.selected = Some(self.rows.len() - 1);
    }

    /// The row under the cursor, cloned so handlers can change the tree.
    pub fn selected_row(&self) -> (r: Option<Row>)
        requires
            self.wf(),
        ensures
            match r {
                Some(row) => cursor(self.state()) == Some(row@),
                None => cursor(self.state()) is None,
            },
    {
        match self.selected {
            Some(i) => {
                proof {
                    assert(rows_view(self.rows@).len() == self.rows@.len());
                    assert(rows_view(self.rows@)[i as int] == self.rows@[i as int]@);
                }
                Some(self.rows[i].clone())
            },
            None => None,
        }
    }

    /// Pick a oneOf variant: open it, update the parent's `selected_variant`, and
    /// include the parent *and* every ancestor, so the choice survives to the export
    /// even when nested in optional containers. Returns `false`, and leaves the session
    /// as it is, where following the schema's references never comes to an end. A row
    /// whose path leads to no node opens nothing, and its position is still noted in the
    /// parent, where there is one.
    pub fn select_variant(&mut self, row: &Row) -> (done: bool)
        requires
            old(self).wf(),
        ensures
            at(old(self).root@, row@.path) is Some ==> final(self).wf(),
            final(self).in_step(),
            final(self).continues(*old(self)),
            match picked(old(self).root@, row@.path, *old(self).defs) {
                Some(root) => done && final(self).state() == settled(root, old(self).selected),
                None => !done && final(self).state() == old(self).state(),
            },
    {
        broadcast use lemma_node_children;

        let defs = self.defs;
        let path = row.path.as_slice();
        if let Some(node) = node_at_mut(&mut self.root, path) {
            if !populate(node, defs, 0) {
                proof {
                    lemma_put_same(old(self).root@, path@);
                }
                return false;
            }
            node.expanded = true;
        }
        let ghost open = self.root@;
        assert(opened(old(self).root@, path@, *defs) == Some(open));
        if let Some((parent_path, child_idx)) = split_path(path) {
            if let Some(parent) = node_at_mut(&mut self.root, parent_path) {
                parent.selected_variant = child_idx;
            }
            assert(self.root@ == with_selection(open, parent_path@, child_idx));
            include_path(&mut self.root, parent_path);
        }
        proof {
            if at(old(self).root@, path@) is Some {
                lemma_picked_sound(old(self).root@, path@, *defs);
            }
        }
        self.refresh();
        true
    }

    /// Enter: on a oneOf variant child, pick this variant; on anything else that can be
    /// expanded, expand or collapse it (peek without committing). Returns `false`, and
    /// leaves the session as it is, where following the schema's references never comes
    /// to an end.
    pub fn activate(&mut self) -> (done: bool)
        requires
            old(self).wf(),
        ensures
            final(self).wf(),
            final(self).continues(*old(self)),
            match after_activate(old(self).state(), *old(self).defs) {
                Some(s) => done && final(self).state() == s,
                None => !done && final(self).state() == old(self).state(),
            },
    {
        broadcast use lemma_node_children;

        let row = match self.selected_row() {
            Some(row) => row,
            None => return true,
        };
        proof {
            lemma_node_fits(self.root);
            lemma_cursor_leads(self.state());
        }
        if row.is_variant_child {
            return self.select_variant(&row);
        }
        if !row.expandable {
            proof {
                assert(rows_view(self.rows@).len() == self.rows@.len());
            }
            return true;
        }
        let defs = self.defs;
        let path = row.path.as_slice();
        if let Some(node) = node_at_mut(&mut self.root, path) {
            let was = node.expanded;
            if !populate(node, defs, 0) {
                proof {
                    lemma_put_same(old(self).root@, path@);
                }
                return false;
            }
            node.expanded = !was;
        }
        proof {
            lemma_flipped_sound(old(self).root@, path@, *defs);
        }
        self.refresh();
        true
    }

    /// Space, the "commit" key: on a oneOf variant child, pick this variant; on an
    /// optional field, include or exclude it; on a required field, nothing (already in).
    /// Returns `false`, and leaves the session as it is, where following the schema's
    /// references never comes to an end.
    pub fn toggle_include(&mut self) -> (done: bool)
        requires
            old(self).wf(),
        ensures
            final(self).wf(),
            final(self).continues(*old(self)),
            match after_toggle(old(self).state(), *old(self).defs) {
                Some(s) => done && final(self).state() == s,
                None => !done && final(self).state() == old(self).state(),
            },
    {
        broadcast use lemma_node_children;

        let row = match self.selected_row() {
            Some(row) => row,
            None => return true,
        };
        proof {
            lemma_node_fits(self.root);
            lemma_cursor_leads(self.state());
        }
        if row.is_variant_child {
            return self.select_variant(&row);
        }
        if row.is_required {
            proof {
                assert(rows_view(self.rows@).len() == self.rows@.len());
            }
            return true;
        }
        let defs = self.defs;
        let path = row.path.as_slice();
        let mut now_included = false;
        if let Some(node) = node_at_mut(&mut self.root, path) {
            if node.included {
                node.included = false;
            } else {
                if node.expandable {
                    if !populate(node, defs, 0) {
                        proof {
                            lemma_put_same(old(self).root@, path@);
                        }
                        return false;
                    }
                    node.expanded = true;
                }
                node.included = true;
                now_included = true;
            }
        }
        // Including a nested field must also pull in its ancestors, or the export drops
        // the whole subtree. Excluding leaves ancestors alone.
        if now_included {
            include_path(&mut self.root, path);
        }
        proof {
            lemma_swapped_sound(old(self).root@, path@, *defs);
        }
        self.refresh();
        true
    }

    /// Collapses the row under the cursor, or, where there is nothing to collapse, moves
    /// the cursor to the parent's row.
    pub fn collapse_or_up(&mut self)
        requires
            old(self).wf(),
        ensures
            final(self).wf(),
            final(self).continues(*old(self)),
            final(self).state() == after_collapse(old(self).state()),
    {
        broadcast use lemma_node_children;

        let row = match self.selected_row() {
            Some(row) => row,
            None => return ,
        };
        if row.expandable && row.expanded {
            if let Some(node) = node_at_mut(&mut self.root, row.path.as_slice()) {
                node.expanded = false;
                // Inclusion stays as-is; this is just "collapse the view".
            }
            proof {
                lemma_flipped_sound(old(self).root@, row.path@, *old(self).defs);
            }
            self.refresh();
        } else if let Some((parent_path, _)) = split_path(row.path.as_slice()) {
            if let Some(i) = self.position_of(parent_path) {
                self.selected = Some(i);
            }
        }
    }

    /// The position of the first row with the path `path`.
    fn position_of(&self, path: &[usize]) -> (r: Option<usize>)
        ensures
            match r {
                Some(i) => row_at(rows_view(self.rows@), path@) == Some(i as int) && i
                    < self.rows@.len(),
                None => row_at(rows_view(self.rows@), path@) is None,
            },
    {
        let ghost all = rows_view(self.rows@);
        let mut i: usize = 0;
        while i < self.rows.len()
            invariant
                all == rows_view(self.rows@),
                i <= self.rows.len(),
                row_at(all.take(i as int), path@) is None,
            decreases self.rows.len() - i,
        {
            assert(all.take(i + 1).drop_last() =~= all.take(i as int));
            assert(all[i as int] == self.rows@[i as int]@);
            if same_path(&self.rows[i].path, path) {
                proof {
                    lemma_row_at(all, i + 1, path@);
                }
                return Some(i);
            }
            i += 1;
        }
        assert(all.take(all.len() as int) =~= all);
        None
    }

    /// Does what `key` asks for.
    pub fn handle_key(&mut self, key: Key) -> (r: Step)
        requires
            old(self).wf(),
        ensures
            final(self).wf(),
            final(self).continues(*old(self)),
            match after(old(self).state(), asked(key), *old(self).defs) {
                Some(s) => final(self).state() == s,
                None => final(self).state() == old(self).state(),
            },
            match asked(key) {
                Action::Cancel => r == Step::Done(Outcome::Cancel),
                Action::Export => r matches Step::Done(Outcome::Export(v)) && v@ == exported(
                    old(self).root@,
                ),
                action => if after(old(self).state(), action, *old(self).defs) is Some {
                    r is Continue
                } else {
                    r is Stuck
                },
            },
    {
        match action_of(key) {
            Action::Cancel => Step::Done(Outcome::Cancel),
            Action::Export => Step::Done(Outcome::Export(self.root.placeholder_value())),
            Action::Move(delta) => {
                self.move_by(delta);
                Step::Continue
            },
            Action::Top => {
                self.jump_top();
                Step::Continue
            },
            Action::Bottom => {
                self.jump_bottom();
                Step::Continue
            },
            Action::Activate => if self.activate() {
                Step::Continue
            } else {
                Step::Stuck
            },
            Action::Toggle => if self.toggle_include() {
                Step::Continue
            } else {
                Step::Stuck
            },
            Action::CollapseOrUp => {
                self.collapse_or_up();
                Step::Continue
            },
            Action::Nothing => Step::Continue,
        }
    }
}

/// The first row with a path among the first `n` rows is the first among all.
proof fn lemma_row_at(rows: Seq<RowView>, n: int, path: Seq<usize>)
    requires
        0 <= n <= rows.len(),
        row_at(rows.take(n), path) is Some,
    ensures
        row_at(rows, path) == row_at(rows.take(n), path),
    decreases rows.len(),
{
    if n < rows.len() {
        assert(rows.drop_last().take(n) =~= rows.take(n));
        lemma_row_at(rows.drop_last(), n, path);
    } else {
        assert(rows.take(n) =~= rows);
    }
}

/// Whether two paths are the same.
fn same_path(a: &Vec<usize>, b: &[usize]) -> (r: bool)
    ensures
        r == (a@ == b@),
{
    if a.len() != b.len() {
        return false;
    }
    let mut i: usize = 0;
    while i < a.len()
        invariant
            a@.len() == b@.len(),
            i <= a.len(),
            forall|k: int| 0 <= k < i ==> a@[k] == b@[k],
        decreases a.len() - i,
    {
        if a[i] != b[i] {
            assert(a@[i as int] != b@[i as int]);
            return false;
        }
        i += 1;
    }
    assert(a@ =~= b@);
    true
}

/// What `key` asks for.
pub fn action_of(key: Key) -> (r: Action)
    ensures
        r == asked(key),
{
    match key.code {
        KeyCode::Esc => Action::Cancel,
        KeyCode::Char(c) => if c == 'c' {
            if key.control {
                Action::Cancel
            } else {
                Action::Nothing
            }
        } else if c == 'q' {
            Action::Export
        } else if c == 'j' {
            Action::Move(1)
        } else if c == 'k' {
            Action::Move(-1)
        } else if c == 'g' {
            Action::Top
        } else if c == 'G' {
            Action::Bottom
        } else if c == ' ' {
            Action::Toggle
        } else {
            Action::Nothing
        },
        KeyCode::Down => Action::Move(1),
        KeyCode::Up => Action::Move(-1),
        KeyCode::PageDown => Action::Move(10),
        KeyCode::PageUp => Action::Move(-10),
        KeyCode::Enter => Action::Activate,
        KeyCode::Right => Action::Activate,
        KeyCode::Left => Action::CollapseOrUp,
        KeyCode::Other => Action::Nothing,
    }
}

} // verus!
