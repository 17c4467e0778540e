//! The tree that a request body is built from, and the body that it exports.
//!
//! The tree mirrors the schema's structure. `kind` distinguishes:
//!   - Object: an object; its children are property nodes
//!   - OneOf: a union at this position; its children are variant nodes, one of
//!     which is selected
//!   - Variant: a child of a union; the selected one contributes to the output
//!   - Array: a list whose single child is a representative element
//!   - Leaf: a scalar, enum or scalar-array field with no further drill-down
//!
//! `included` controls whether a node contributes to the output. Required nodes
//! start included and can't be turned off. Optional nodes start excluded.

use crate::json::{items_view, lemma_json_view, members_view, set_member, Json, JsonView};
use crate::names::NameMap;
use crate::schema::SchemaObject;
use crate::text::texts;
use vstd::prelude::*;

verus! {

/// What a node stands for.
#[derive(Debug, Clone, Copy, PartialEq, Eq, Structural)]
pub enum NodeKind {
    Object,
    OneOf,
    Variant,
    Array,
    Leaf,
}

/// A node of the tree.
#[derive(Debug)]
pub struct Node<'a> {
    pub label: String,
    pub type_desc: String,
    pub is_required: bool,
    pub included: bool,
    pub default: Option<Json>,
    /// Placeholder for a `Leaf` node. A schema `default` (when present) still takes
    /// precedence in `placeholder_value`.
    pub leaf_value: Option<Json>,
    pub annotations: Vec<String>,
    pub expandable: bool,
    pub expanded: bool,
    pub children: Vec<Node<'a>>,
    pub populated: bool,
    pub kind: NodeKind,
    /// Only meaningful when `kind` is `OneOf`.
    pub selected_variant: usize,
    /// What the children are made from, until the node is populated.
    pub schema_snapshot: Option<&'a SchemaObject>,
}

/// What a node is.
#[verifier::ext_equal]
pub struct NodeView {
    pub label: Seq<char>,
    pub type_desc: Seq<char>,
    pub is_required: bool,
    pub included: bool,
    pub default: Option<JsonView>,
    pub leaf_value: Option<JsonView>,
    pub annotations: Seq<Seq<char>>,
    pub expandable: bool,
    pub expanded: bool,
    pub children: Seq<NodeView>,
    pub populated: bool,
    pub kind: NodeKind,
    pub selected_variant: usize,
    pub schema_snapshot: Option<SchemaObject>,
}

/// What an optional value holds.
pub open spec fn value_of(v: Option<Json>) -> Option<JsonView> {
    match v {
        Some(j) => Some(j@),
        None => None,
    }
}

/// What `n` is.
pub open spec fn node_view(n: Node<'_>) -> NodeView
    decreases n,
{
    NodeView {
        label: n.label@,
        type_desc: n.type_desc@,
        is_required: n.is_required,
        included: n.included,
        default: value_of(n.default),
        leaf_value: value_of(n.leaf_value),
        annotations: texts(n.annotations@),
        expandable: n.expandable,
        expanded: n.expanded,
        children: nodes_view(n.children@),
        populated: n.populated,
        kind: n.kind,
        selected_variant: n.selected_variant,
        schema_snapshot: match n.schema_snapshot {
            Some(o) => Some(*o),
            None => None,
        },
    }
}

/// What the nodes of `nodes` are, in order.
pub open spec fn nodes_view(nodes: Seq<Node<'_>>) -> Seq<NodeView>
    decreases nodes,
{
    Seq::new(
        nodes.len(),
        |i: int|
            if 0 <= i < nodes.len() {
                node_view(nodes[i])
            } else {
                arbitrary()
            },
    )
}

impl<'a> View for Node<'a> {
    type V = NodeView;

    open spec fn view(&self) -> NodeView {
        node_view(*self)
    }
}

/// The children of a node.
pub broadcast proof fn lemma_node_children(n: Node<'_>)
    ensures
        (#[trigger] node_view(n)).children == nodes_view(n.children@),
{
}

/// The value that a node contributes to the output. An array gives a list of its
/// representative element. Otherwise a default wins; else a leaf gives its
/// placeholder, a union what its selected variant gives, and an object its included
/// children.
pub open spec fn exported(n: NodeView) -> JsonView
    decreases n, 0int,
{
    if n.kind == NodeKind::Array {
        if n.children.len() > 0 {
            JsonView::Array(seq![exported(n.children[0])])
        } else {
            JsonView::Array(Seq::empty())
        }
    } else if n.default is Some {
        n.default->0
    } else if n.kind == NodeKind::OneOf {
        if n.selected_variant < n.children.len() {
            exported(n.children[n.selected_variant as int])
        } else {
            JsonView::Null
        }
    } else if n.kind == NodeKind::Leaf {
        match n.leaf_value {
            Some(v) => v,
            None => JsonView::Null,
        }
    } else if n.kind == NodeKind::Variant && n.leaf_value is Some {
        n.leaf_value->0
    } else {
        JsonView::Object(included_members(n.children))
    }
}

/// The values of those of `children` that are included, by label.
pub open spec fn included_members(children: Seq<NodeView>) -> Map<Seq<char>, JsonView>
    decreases children, 0int,
{
    if children.len() == 0 {
        Map::empty()
    } else {
        let init = included_members(children.drop_last());
        let last = children.last();
        if last.included {
            init.insert(last.label, exported(last))
        } else {
            init
        }
    }
}

/// The object that a node exports has exactly the fields that are included: required
/// ones and chosen ones; excluded fields are omitted.
pub proof fn lemma_included_members(children: Seq<NodeView>, name: Seq<char>)
    ensures
        included_members(children).dom().contains(name) <==> exists|i: int|
            0 <= i < children.len() && (#[trigger] children[i]).included && children[i].label
                == name,
    decreases children.len(),
{
    if children.len() > 0 {
        let init = children.drop_last();
        lemma_included_members(init, name);
        if exists|i: int|
            0 <= i < init.len() && (#[trigger] init[i]).included && init[i].label == name {
            let i = choose|i: int|
                0 <= i < init.len() && (#[trigger] init[i]).included && init[i].label == name;
            assert(children[i].included && children[i].label == name);
        }
        if exists|i: int|
            0 <= i < children.len() && (#[trigger] children[i]).included && children[i].label
                == name {
            let i = choose|i: int|
                0 <= i < children.len() && (#[trigger] children[i]).included && children[i].label
                    == name;
            if i < init.len() {
                assert(init[i].included && init[i].label == name);
            }
        }
    }
}

impl<'a> Node<'a> {
    /// The value that the node contributes to the output.
    pub fn placeholder_value(&self) -> (r: Json)
        ensures
            r@ == exported(self@),
        decreases *self, 1int,
    {
        broadcast use {lemma_json_view, lemma_node_children};
        // An array emits `[element]` from its representative child. This wins over
        // any schema `default` (e.g. `[]`): if the user drilled into the array, they
        // want a populated element, not the empty default.

        if self.kind == NodeKind::Array {
            let mut items: Vec<Json> = Vec::new();
            if self.children.len() > 0 {
                assert(decreases_to!(*self => self.children@[0]));
                items.push(self.children[0].placeholder_value());
                assert(items_view(items@) =~= seq![exported(self@.children[0])]);
            } else {
                assert(items_view(items@) =~= Seq::<JsonView>::empty());
            }
            return Json::Array(items);
        }
        if let Some(d) = &self.default {
            return d.clone();
        }
        match self.kind {
            NodeKind::OneOf => {
                if self.selected_variant < self.children.len() {
                    assert(decreases_to!(*self => self.children@[self.selected_variant as int]));
                    self.children[self.selected_variant].placeholder_value()
                } else {
                    Json::Null
                }
            },
            NodeKind::Leaf => match &self.leaf_value {
                Some(v) => v.clone(),
                None => Json::Null,
            },
            // A scalar variant carries its placeholder in `leaf_value` and emits
            // that, not an empty `{}`. Tagged-object variants assemble normally.
            NodeKind::Variant => match &self.leaf_value {
                Some(v) => v.clone(),
                None => self.object_value(),
            },
            _ => self.object_value(),
        }
    }

    /// The object made of the children that are `included`.
    pub fn object_value(&self) -> (r: Json)
        ensures
            r@ == JsonView::Object(included_members(self@.children)),
        decreases *self, 0int,
    {
        broadcast use {lemma_json_view, lemma_node_children};

        let ghost all = self@.children;
        let mut map: NameMap<Json> = NameMap::new();
        let mut i: usize = 0;
        while i < self.children.len()
            invariant
                all == nodes_view(self.children@),
                i <= self.children.len(),
                map.wf(),
                members_view(map.entries@) == included_members(all.take(i as int)),
            decreases self.children.len() - i,
        {
            assert(all.take(i + 1).drop_last() =~= all.take(i as int));
            assert(all[i as int] == node_view(self.children@[i as int]));
            let child = &self.children[i];
            if child.included {
                assert(decreases_to!(*self => self.children@[i as int]));
                let value = child.placeholder_value();
                set_member(&mut map, child.label.clone(), value);
            }
            i += 1;
        }
        assert(all.take(self.children.len() as int) =~= all);
        Json::Object(map)
    }
}

} // verus!
