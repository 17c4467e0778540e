//! Building the tree from a schema: the children that a node has, and when they are
//! made.

use crate::json::JsonView;
use crate::node::{lemma_node_children, nodes_view, Node, NodeKind, NodeView};
use crate::present::{
    arm_label, classified, classify, default_value, describe_type, described, only_value,
    real_default, resolve_object, resolved, scalar_variant_value, shape, variant_label,
};
use crate::properties::{detect_tag, lists, order_properties, property_order, tag_of};
use crate::schema::{
    blank_object, item_of, item_schema, multi_variant, non_null, non_null_variants, root_name,
    root_title, targets, union_arms, Defs, RootSchema, Schema, SchemaObject,
};
use crate::text::{cat3, copy_text, texts};
use vstd::prelude::*;

verus! {

/// How deep children are populated ahead of being asked for.
pub const MAX_POPULATE_DEPTH: usize = 64;

/// The keywords of `s`; those of none where `s` is `true` or `false`.
pub open spec fn own_object(s: Schema) -> SchemaObject {
    match s {
        Schema::Object(o) => o,
        Schema::Bool(_) => blank_object(),
    }
}

/// A child as it starts out, before it is populated.
pub open spec fn fresh(
    label: Seq<char>,
    o: SchemaObject,
    is_required: bool,
    class: (NodeKind, bool, Option<JsonView>),
) -> NodeView {
    NodeView {
        label,
        type_desc: described(o),
        is_required,
        included: is_required,
        default: real_default(o),
        leaf_value: class.2,
        annotations: Seq::empty(),
        expandable: class.1,
        expanded: false,
        children: Seq::empty(),
        populated: !class.1,
        kind: class.0,
        selected_variant: 0,
        schema_snapshot: if class.1 {
            Some(o)
        } else {
            None
        },
    }
}

/// `n`, marked as populated.
pub open spec fn marked(n: NodeView) -> NodeView {
    NodeView { populated: true, ..n }
}

/// A child that is asked for: its label, its schema and whether it is required.
pub struct Request {
    pub label: Seq<char>,
    pub schema: Schema,
    pub is_required: bool,
}

/// What a node gains when it is populated.
#[verifier::ext_equal]
pub struct GainView {
    pub is_union: bool,
    pub annotations: Seq<Seq<char>>,
    pub children: Seq<NodeView>,
}

/// The children for the properties of `o`, required ones first.
pub open spec fn property_requests(o: SchemaObject) -> Seq<Request> {
    match o.object {
        None => Seq::empty(),
        Some(ov) => {
            let props = ov.properties.entries@;
            let order = property_order(props, ov.required@, Seq::empty());
            Seq::new(
                order.len(),
                |j: int|
                    Request {
                        label: props[order[j]].0@,
                        schema: props[order[j]].1,
                        is_required: ov.required@.contains(props[order[j]].0@),
                    },
            )
        },
    }
}

/// The children for the arms of a union.
pub open spec fn arm_requests(arms: Seq<Schema>, defs: Defs) -> Seq<Request> {
    Seq::new(
        arms.len(),
        |i: int| Request { label: arm_label(arms[i], defs), schema: arms[i], is_required: true },
    )
}

/// The child that stands for the items of an array.
pub open spec fn item_request(item: Schema) -> Seq<Request> {
    seq![Request { label: "[item]"@, schema: item, is_required: true }]
}

/// The child `n`, made from `s`, as an arm of a union: it is a variant, unless it is
/// a union itself; it hides its type where it can be drilled into; and it shows the
/// only value it allows.
pub open spec fn as_arm(n: NodeView, s: Schema) -> NodeView {
    NodeView {
        kind: if n.kind == NodeKind::OneOf {
            NodeKind::OneOf
        } else {
            NodeKind::Variant
        },
        type_desc: if n.expandable {
            Seq::empty()
        } else {
            n.type_desc
        },
        default: only_value(s),
        ..n
    }
}

/// The children `nodes`, made from `arms`, as arms of a union.
pub open spec fn as_arms(nodes: Seq<NodeView>, arms: Seq<Schema>) -> Seq<NodeView> {
    Seq::new(nodes.len(), |i: int| as_arm(nodes[i], arms[i]))
}

/// The remark on the tag of a union.
pub open spec fn tag_note(tag: Option<Seq<char>>) -> Seq<Seq<char>> {
    match tag {
        Some(t) => seq!["(tagged on `"@ + t + "`)"@],
        None => Seq::empty(),
    }
}

/// The child that `request` asks for, of a node at depth `depth`: a required child is
/// populated at once. `None` where some placeholder cannot be worked out.
pub open spec fn child(request: Request, defs: Defs, depth: nat) -> Option<NodeView>
    decreases 65 - depth, 0int, 0int,
{
    let o = own_object(request.schema);
    match classified(o, defs) {
        None => None,
        Some(class) => {
            let n = fresh(request.label, o, request.is_required, class);
            if !class.1 || !request.is_required {
                Some(n)
            } else if depth >= 64 {
                Some(marked(n))
            } else {
                populated(n, defs, depth + 1)
            }
        },
    }
}

/// The children that `requests` ask for.
pub open spec fn children(requests: Seq<Request>, defs: Defs, depth: nat) -> Option<Seq<NodeView>>
    decreases 65 - depth, 1int, requests.len(),
{
    if requests.len() == 0 {
        Some(Seq::empty())
    } else {
        match children(requests.drop_last(), defs, depth) {
            None => None,
            Some(init) => match child(requests.last(), defs, depth) {
                None => None,
                Some(n) => Some(init.push(n)),
            },
        }
    }
}

/// What a node made from `o` gains when it is populated: the arms of a union with
/// several real arms; a representative item of an array; else its properties.
pub open spec fn gain(o: SchemaObject, defs: Defs, depth: nat) -> Option<GainView>
    decreases 65 - depth, 2int, 0int,
{
    let r = resolved(o, defs, 32);
    if multi_variant(r) {
        let arms = non_null(union_arms(r)->0);
        match children(arm_requests(arms, defs), defs, depth) {
            None => None,
            Some(nodes) => Some(
                GainView {
                    is_union: true,
                    annotations: tag_note(tag_of(arms)),
                    children: as_arms(nodes, arms),
                },
            ),
        }
    } else {
        let requests = if union_arms(r) matches Some(arms) && non_null(arms).len() == 1
            && non_null(arms)[0] is Object {
            property_requests(non_null(union_arms(r)->0)[0]->Object_0)
        } else {
            match item_of(r) {
                Some(item) => item_request(item),
                None => property_requests(r),
            }
        };
        match children(requests, defs, depth) {
            None => None,
            Some(nodes) => Some(
                GainView { is_union: false, annotations: Seq::empty(), children: nodes },
            ),
        }
    }
}

/// `n` with what it gains.
pub open spec fn with_gain(n: NodeView, g: GainView) -> NodeView {
    NodeView {
        kind: if g.is_union {
            NodeKind::OneOf
        } else {
            n.kind
        },
        annotations: n.annotations + g.annotations,
        children: n.children + g.children,
        populated: true,
        schema_snapshot: None,
        ..n
    }
}

/// `n`, populated at depth `depth`. `None` where some placeholder cannot be worked
/// out.
pub open spec fn populated(n: NodeView, defs: Defs, depth: nat) -> Option<NodeView>
    decreases 65 - depth, 3int, 0int,
{
    if n.populated || depth > 64 || n.schema_snapshot is None {
        Some(marked(n))
    } else {
        match gain(n.schema_snapshot->0, defs, depth) {
            None => None,
            Some(g) => Some(with_gain(n, g)),
        }
    }
}

/// The root of the tree, before it is populated.
pub open spec fn bare_root(root: RootSchema) -> NodeView {
    NodeView {
        label: root_name(root),
        type_desc: "(root)"@,
        is_required: true,
        included: true,
        default: None,
        leaf_value: None,
        annotations: Seq::empty(),
        expandable: true,
        expanded: true,
        children: Seq::empty(),
        populated: false,
        kind: NodeKind::Object,
        selected_variant: 0,
        schema_snapshot: Some(root.schema),
    }
}

/// The tree for `root`. `None` where some placeholder cannot be worked out.
pub open spec fn root_tree(root: RootSchema) -> Option<NodeView> {
    populated(bare_root(root), root.definitions, 0)
}

/// What a node gains when it is populated.
pub struct Gain<'a> {
    pub is_union: bool,
    pub annotations: Vec<String>,
    pub children: Vec<Node<'a>>,
}

/// What `g` is.
pub open spec fn gain_view(g: Gain<'_>) -> GainView {
    GainView {
        is_union: g.is_union,
        annotations: texts(g.annotations@),
        children: nodes_view(g.children@),
    }
}

/// A list of children that breaks off has no children.
proof fn lemma_children_prefix(requests: Seq<Request>, n: int, defs: Defs, depth: nat)
    requires
        0 <= n <= requests.len(),
        children(requests.take(n), defs, depth) is None,
    ensures
        children(requests, defs, depth) is None,
    decreases requests.len(),
{
    if n < requests.len() {
        assert(requests.drop_last().take(n) =~= requests.take(n));
        lemma_children_prefix(requests.drop_last(), n, defs, depth);
    } else {
        assert(requests.take(n) =~= requests);
    }
}

/// What nodes are after one more was added.
proof fn lemma_nodes_push(nodes: Seq<Node<'_>>, n: Node<'_>)
    ensures
        nodes_view(nodes.push(n)) == nodes_view(nodes).push(n@),
{
    assert(nodes_view(nodes.push(n)) =~= nodes_view(nodes).push(n@));
}

/// Construct a child node from a schema: classify it, wire up its placeholder value,
/// and, for a required, expandable child, populate it eagerly so its own required
/// descendants are present in the export. `None` where following the schema's
/// references never comes to an end.
pub fn child_node<'a>(
    label: String,
    schema: &'a Schema,
    is_required: bool,
    defs: &'a Defs,
    depth: usize,
) -> (r: Option<Node<'a>>)
    ensures
        ({
            let request = Request { label: label@, schema: *schema, is_required };
            match r {
                Some(n) => child(request, *defs, depth as nat) == Some(n@),
                None => child(request, *defs, depth as nat) is None,
            }
        }),
    decreases 65 - depth, 0int, 0int,
{
    broadcast use lemma_node_children;

    let blank = SchemaObject::blank();
    let (class, type_desc, default) = match schema {
        Schema::Object(o) => (classify(o, defs), describe_type(o), default_value(o)),
        Schema::Bool(_) => (
            classify(&blank, defs),
            describe_type(&blank),
            default_value(&blank),
        ),
    };
    let snapshot: Option<&'a SchemaObject> = match schema {
        Schema::Object(o) => Some(o),
        Schema::Bool(_) => None,
    };
    let (kind, expandable, leaf_value) = match class {
        None => return None,
        Some(c) => c,
    };
    proof {
        if schema is Bool {
            lemma_blank_is_leaf(*defs);
        }
    }
    let mut node = Node {
        label,
        type_desc,
        is_required,
        included: is_required,
        default,
        leaf_value,
        annotations: Vec::new(),
        expandable,
        expanded: false,
        children: Vec::new(),
        populated: !expandable,
        kind,
        selected_variant: 0,
        schema_snapshot: if expandable {
            snapshot
        } else {
            None
        },
    };
    proof {
        assert(texts(node.annotations@) =~= Seq::<Seq<char>>::empty());
        assert(nodes_view(node.children@) =~= Seq::<NodeView>::empty());
    }
    if expandable && is_required {
        if depth >= MAX_POPULATE_DEPTH {
            node.populated = true;
        } else if !populate(&mut node, defs, depth + 1) {
            return None;
        }
    }
    Some(node)
}

/// A schema without keywords is a leaf.
pub proof fn lemma_blank_is_leaf(defs: Defs)
    ensures
        shape(blank_object(), defs) == NodeKind::Leaf,
{
    reveal_with_fuel(resolved, 2);
}

/// The children for the properties of `o`.
fn property_children<'a>(o: &'a SchemaObject, defs: &'a Defs, depth: usize) -> (r: Option<
    Vec<Node<'a>>,
>)
    requires
        depth <= 64,
    ensures
        match r {
            Some(nodes) => children(property_requests(*o), *defs, depth as nat) == Some(
                nodes_view(nodes@),
            ),
            None => children(property_requests(*o), *defs, depth as nat) is None,
        },
    decreases 65 - depth, 1int, 0int,
{
    let ghost requests = property_requests(*o);
    let mut nodes: Vec<Node<'a>> = Vec::new();
    assert(nodes_view(nodes@) =~= Seq::<NodeView>::empty());
    if let Some(ov) = &o.object {
        let none: Vec<String> = Vec::new();
        assert(texts(none@) =~= Seq::<Seq<char>>::empty());
        let listed = order_properties(ov, &none);
        let mut j: usize = 0;
        assert(requests.take(0) =~= Seq::<Request>::empty());
        while j < listed.len()
            invariant
                depth <= 64,
                o.object == Some(*ov),
                requests == property_requests(*o),
                lists(
                    listed@,
                    **ov,
                    property_order(ov.properties.entries@, ov.required@, Seq::empty()),
                ),
                j <= listed.len(),
                children(requests.take(j as int), *defs, depth as nat) == Some(
                    nodes_view(nodes@),
                ),
            decreases listed.len() - j,
        {
            let (k, v, is_required) = listed[j];
            assert(requests.take(j + 1).drop_last() =~= requests.take(j as int));
            assert(requests[j as int] == Request { label: k@, schema: *v, is_required });
            match child_node(k.clone(), v, is_required, defs, depth) {
                None => {
                    proof {
                        lemma_children_prefix(requests, j + 1, *defs, depth as nat);
                    }
                    return None;
                },
                Some(n) => {
                    proof {
                        lemma_nodes_push(nodes@, n);
                    }
                    nodes.push(n);
                },
            }
            j += 1;
        }
        assert(requests.take(listed.len() as int) =~= requests);
    }
    Some(nodes)
}

/// The children for the arms of a union.
fn arm_children<'a>(variants: &Vec<&'a Schema>, defs: &'a Defs, depth: usize) -> (r: Option<
    Vec<Node<'a>>,
>)
    requires
        depth <= 64,
    ensures
        ({
            let arms = targets(variants@);
            match r {
                Some(nodes) => {
                    let all = children(arm_requests(arms, *defs), *defs, depth as nat);
                    all is Some && nodes_view(nodes@) == as_arms(all->0, arms)
                },
                None => children(arm_requests(arms, *defs), *defs, depth as nat) is None,
            }
        }),
    decreases 65 - depth, 1int, 0int,
{
    broadcast use lemma_node_children;

    let ghost arms = targets(variants@);
    let ghost requests = arm_requests(arms, *defs);
    let mut nodes: Vec<Node<'a>> = Vec::new();
    let ghost mut plain: Seq<NodeView> = Seq::empty();
    let mut i: usize = 0;
    assert(nodes_view(nodes@) =~= as_arms(plain, arms));
    assert(requests.take(0) =~= Seq::<Request>::empty());
    while i < variants.len()
        invariant
            depth <= 64,
            arms == targets(variants@),
            requests == arm_requests(arms, *defs),
            i <= variants.len(),
            children(requests.take(i as int), *defs, depth as nat) == Some(plain),
            plain.len() == i,
            nodes_view(nodes@) == as_arms(plain, arms),
        decreases variants.len() - i,
    {
        let variant = variants[i];
        assert(requests.take(i + 1).drop_last() =~= requests.take(i as int));
        assert(arms[i as int] == *variant);
        let label = variant_label(variant, defs);
        assert(requests[i as int] == Request {
            label: label@,
            schema: *variant,
            is_required: true,
        });
        match child_node(label, variant, true, defs, depth) {
            None => {
                proof {
                    lemma_children_prefix(requests, i + 1, *defs, depth as nat);
                }
                return None;
            },
            Some(built) => {
                let ghost made = built@;
                let mut arm = built;
                if !matches!(arm.kind, NodeKind::OneOf) {
                    arm.kind = NodeKind::Variant;
                }
                if arm.expandable {
                    arm.type_desc = String::new();
                }
                arm.default = scalar_variant_value(variant);
                proof {
                    assert(arm@ =~= as_arm(made, *variant));
                    lemma_nodes_push(nodes@, arm);
                    assert(as_arms(plain.push(made), arms) =~= as_arms(plain, arms).push(
                        as_arm(made, arms[i as int]),
                    ));
                    plain = plain.push(made);
                }
                nodes.push(arm);
            },
        }
        i += 1;
    }
    assert(requests.take(variants.len() as int) =~= requests);
    Some(nodes)
}

/// What a node made from `o` gains when it is populated.
fn gain_of<'a>(o: &'a SchemaObject, defs: &'a Defs, depth: usize) -> (r: Option<Gain<'a>>)
    requires
        depth <= 64,
    ensures
        match r {
            Some(g) => gain(*o, *defs, depth as nat) == Some(gain_view(g)),
            None => gain(*o, *defs, depth as nat) is None,
        },
    decreases 65 - depth, 2int, 0int,
{
    let r = resolve_object(o, defs);
    let mut annotations: Vec<String> = Vec::new();
    assert(texts(annotations@) =~= Seq::<Seq<char>>::empty());
    // oneOf / anyOf with multiple non-null variants: variant children.
    if let Some(non_null) = non_null_variants(r) {
        let ghost arms = targets(non_null@);
        assert(arms.len() == non_null.len());
        if non_null.len() > 1 {
            if let Some(tag) = detect_tag(non_null.as_slice()) {
                annotations.push(cat3("(tagged on `", &tag, "`)"));
                assert(texts(annotations@) =~= tag_note(tag_of(arms)));
            }
            assert(texts(annotations@) =~= tag_note(tag_of(arms)));
            return match arm_children(&non_null, defs, depth) {
                None => None,
                Some(children) => Some(Gain { is_union: true, annotations, children }),
            };
        }
        if non_null.len() == 1 {
            assert(arms[0] == *non_null[0]);
            // Single variant; treat as a transparent wrapper.
            if let Schema::Object(inner) = non_null[0] {
                return match property_children(inner, defs, depth) {
                    None => None,
                    Some(children) => Some(Gain { is_union: false, annotations, children }),
                };
            }
        }
    }
    // array: one representative element child the user drills into. The element is
    // always "in", so it populates eagerly.
    if let Some(item) = item_schema(r) {
        let ghost requests = item_request(*item);
        assert(requests.drop_last() =~= Seq::<Request>::empty());
        reveal_with_fuel(children, 2);
        return match child_node(copy_text("[item]"), item, true, defs, depth) {
            None => None,
            Some(n) => {
                let mut children: Vec<Node<'a>> = Vec::new();
                proof {
                    lemma_nodes_push(children@, n);
                    assert(nodes_view(children@) =~= Seq::<NodeView>::empty());
                }
                children.push(n);
                Some(Gain { is_union: false, annotations, children })
            },
        };
    }
    match property_children(r, defs, depth) {
        None => None,
        Some(children) => Some(Gain { is_union: false, annotations, children }),
    }
}

/// Gives a node its children. Returns `false`, and leaves the node as it is, where
/// following the schema's references never comes to an end.
pub fn populate<'a>(node: &mut Node<'a>, defs: &'a Defs, depth: usize) -> (done: bool)
    ensures
        match populated(old(node)@, *defs, depth as nat) {
            Some(v) => done && final(node)@ == v,
            None => !done && final(node)@ == old(node)@,
        },
    decreases 65 - depth, 3int, 0int,
{
    broadcast use lemma_node_children;

    if node.populated || depth > MAX_POPULATE_DEPTH {
        node.populated = true;
        return true;
    }
    match node.schema_snapshot {
        None => {
            node.populated = true;
            true
        },
        Some(o) => match gain_of(o, defs, depth) {
            None => false,
            Some(gained) => {
                let ghost before = *node;
                let ghost more = gained;
                let mut g = gained;
                node.schema_snapshot = None;
                if g.is_union {
                    node.kind = NodeKind::OneOf;
                }
                node.annotations.append(&mut g.annotations);
                node.children.append(&mut g.children);
                node.populated = true;
                proof {
                    assert(texts(node.annotations@) =~= texts(before.annotations@) + texts(
                        more.annotations@,
                    ));
                    assert(nodes_view(node.children@) =~= nodes_view(before.children@)
                        + nodes_view(more.children@));
                    assert(node@ =~= with_gain(before@, gain_view(more)));
                }
                true
            },
        },
    }
}

/// The tree for `schema`, populated with every required field. `None` where following
/// the schema's references never comes to an end.
pub fn build_root(schema: &RootSchema) -> (r: Option<Node<'_>>)
    ensures
        match r {
            Some(n) => root_tree(*schema) == Some(n@),
            None => root_tree(*schema) is None,
        },
{
    let mut root = Node {
        label: root_title(schema),
        type_desc: copy_text("(root)"),
        is_required: true,
        included: true,
        default: None,
        leaf_value: None,
        annotations: Vec::new(),
        expandable: true,
        expanded: true,
        children: Vec::new(),
        populated: false,
        kind: NodeKind::Object,
        selected_variant: 0,
        schema_snapshot: Some(&schema.schema),
    };
    proof {
        assert(texts(root.annotations@) =~= Seq::<Seq<char>>::empty());
        assert(nodes_view(root.children@) =~= Seq::<NodeView>::empty());
        assert(root@ =~= bare_root(*schema));
    }
    if populate(&mut root, &schema.definitions, 0) {
        Some(root)
    } else {
        None
    }
}

} // verus!
