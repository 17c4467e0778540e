//! Building a body interactively.

use json_schema_tools::generate::generate_value;
use json_schema_tools::json::Json;
use json_schema_tools::names::{NameMap, NameSet};
use json_schema_tools::node::NodeKind;
use json_schema_tools::present::{classify, describe_type, resolve_to_object, variant_label};
use json_schema_tools::render::render_schema;
use json_schema_tools::rows::split_path;
use json_schema_tools::schema::{
    ArrayValidation, InstanceType, Metadata, ObjectValidation, RootSchema, Schema, SchemaObject,
    SingleOrVec, SubschemaValidation,
};
use json_schema_tools::screen::{build_marker, footer, header, row_to_item, Color, Look, Span};
use json_schema_tools::session::{action_of, Action, App, Key, KeyCode, Outcome, Step};
use json_schema_tools::style::Style;
use json_schema_tools::tree::build_root;

fn json_of(v: &serde_json::Value) -> Json {
    match v {
        serde_json::Value::Null => Json::Null,
        serde_json::Value::Bool(b) => Json::Bool(*b),
        serde_json::Value::Number(n) => Json::Number(n.clone()),
        serde_json::Value::String(s) => Json::String(s.clone()),
        serde_json::Value::Array(items) => Json::Array(items.iter().map(json_of).collect()),
        serde_json::Value::Object(members) => {
            let mut map: NameMap<Json> = NameMap::new();
            for (name, value) in members {
                map.insert(name.clone(), json_of(value));
            }
            Json::Object(map)
        }
    }
}

fn type_of(t: &schemars::schema::InstanceType) -> InstanceType {
    match t {
        schemars::schema::InstanceType::Null => InstanceType::Null,
        schemars::schema::InstanceType::Boolean => InstanceType::Boolean,
        schemars::schema::InstanceType::Object => InstanceType::Object,
        schemars::schema::InstanceType::Array => InstanceType::Array,
        schemars::schema::InstanceType::Number => InstanceType::Number,
        schemars::schema::InstanceType::String => InstanceType::String,
        schemars::schema::InstanceType::Integer => InstanceType::Integer,
    }
}

fn either<A, B>(
    v: &schemars::schema::SingleOrVec<A>,
    f: fn(&A) -> B,
) -> SingleOrVec<B> {
    match v {
        schemars::schema::SingleOrVec::Single(x) => SingleOrVec::Single(Box::new(f(x))),
        schemars::schema::SingleOrVec::Vec(xs) => SingleOrVec::Vec(xs.iter().map(f).collect()),
    }
}

fn schemas_of(v: &Option<Vec<schemars::schema::Schema>>) -> Option<Vec<Schema>> {
    v.as_ref().map(|list| list.iter().map(schema_of).collect())
}

fn schema_map(
    entries: &std::collections::BTreeMap<String, schemars::schema::Schema>,
) -> NameMap<Schema> {
    let mut map: NameMap<Schema> = NameMap::new();
    for (name, value) in entries {
        map.insert(name.clone(), schema_of(value));
    }
    map
}

fn object_of(o: &schemars::schema::SchemaObject) -> SchemaObject {
    SchemaObject {
        metadata: o.metadata.as_ref().map(|m| Metadata {
            title: m.title.clone(),
            default: m.default.as_ref().map(json_of),
        }),
        instance_type: o.instance_type.as_ref().map(|t| either(t, type_of)),
        format: o.format.clone(),
        enum_values: o.enum_values.as_ref().map(|v| v.iter().map(json_of).collect()),
        subschemas: o.subschemas.as_ref().map(|s| {
            Box::new(SubschemaValidation {
                all_of: schemas_of(&s.all_of),
                any_of: schemas_of(&s.any_of),
                one_of: schemas_of(&s.one_of),
            })
        }),
        array: o.array.as_ref().map(|a| {
            Box::new(ArrayValidation { items: a.items.as_ref().map(|i| either(i, schema_of)) })
        }),
        object: o.object.as_ref().map(|ov| {
            let mut required = NameSet::new();
            for name in &ov.required {
                required.insert(name.clone());
            }
            Box::new(ObjectValidation { properties: schema_map(&ov.properties), required })
        }),
        reference: o.reference.clone(),
    }
}

fn schema_of(s: &schemars::schema::Schema) -> Schema {
    match s {
        schemars::schema::Schema::Bool(b) => Schema::Bool(*b),
        schemars::schema::Schema::Object(o) => Schema::Object(object_of(o)),
    }
}

fn json(text: &str) -> Json {
    json_of(&serde_json::from_str(text).expect("valid JSON"))
}

fn object(text: &str) -> SchemaObject {
    object_of(&serde_json::from_str(text).expect("valid schema object"))
}

fn schema(text: &str) -> Schema {
    schema_of(&serde_json::from_str(text).expect("valid schema"))
}

fn root(text: &str) -> RootSchema {
    let parsed: schemars::schema::RootSchema = serde_json::from_str(text).expect("valid schema");
    RootSchema { schema: object_of(&parsed.schema), definitions: schema_map(&parsed.definitions) }
}

fn select(app: &mut App, label: &str) {
    let i = app.rows.iter().position(|r| r.label == label).unwrap();
    app.selected = Some(i);
}

fn press(app: &mut App, code: KeyCode) -> Step {
    app.handle_key(Key { code, control: false })
}

// The default export (every required field, first `oneOf` variant) must match the
// placeholder values produced by `generate_value`: empty string for strings, 0 for
// integers, the leading enum value for the discriminator, and the first variant assembled
// for nested `oneOf`s.
#[test]
fn template_export_uses_progenitor_values() {
    let schema = root(
        r##"{
            "title": "DiskCreate", "type": "object",
            "required": ["description", "disk_backend", "name", "size"],
            "properties": {
                "description": { "type": "string" },
                "disk_backend": { "allOf": [{ "$ref": "#/definitions/DiskBackend" }] },
                "name": { "$ref": "#/definitions/Name" },
                "size": { "$ref": "#/definitions/ByteCount" }
            },
            "definitions": {
                "ByteCount": { "type": "integer", "format": "uint64" },
                "DiskBackend": { "oneOf": [
                    { "type": "object", "required": ["type"],
                      "properties": { "type": { "type": "string", "enum": ["local"] } } },
                    { "type": "object", "required": ["disk_source", "type"],
                      "properties": {
                        "disk_source": { "$ref": "#/definitions/DiskSource" },
                        "type": { "type": "string", "enum": ["distributed"] } } }
                ] },
                "DiskSource": { "oneOf": [
                    { "type": "object", "required": ["block_size", "type"],
                      "properties": { "block_size": { "type": "integer" },
                                      "type": { "type": "string", "enum": ["blank"] } } },
                    { "type": "object", "required": ["snapshot_id", "type"],
                      "properties": { "snapshot_id": { "type": "string", "format": "uuid" },
                                      "type": { "type": "string", "enum": ["snapshot"] } } }
                ] },
                "Name": { "type": "string" }
            }
        }"##,
    );
    let root = build_root(&schema).unwrap();
    assert_eq!(
        root.placeholder_value(),
        json(
            r#"{
                "description": "",
                "name": "",
                "size": 0,
                "disk_backend": { "type": "local" }
            }"#
        )
    );
}

// schemars encodes `Option<T>` as `anyOf: [T, null]`. Such a field must be seen through to
// its real type: classified as expandable and described as the inner type, not rendered as
// an opaque "(variants)" leaf.
#[test]
fn nullable_wrapper_is_seen_through() {
    let schema = root(
        r##"{
            "title": "Demo",
            "type": "object",
            "required": [],
            "properties": {
                "boot_disk": {
                    "anyOf": [
                        { "$ref": "#/definitions/DiskAttach" },
                        { "type": "null" }
                    ]
                }
            },
            "definitions": {
                "DiskAttach": {
                    "oneOf": [
                        { "type": "object", "required": ["type"],
                          "properties": { "type": { "type": "string", "enum": ["a"] } } },
                        { "type": "object", "required": ["type"],
                          "properties": { "type": { "type": "string", "enum": ["b"] } } }
                    ]
                }
            }
        }"##,
    );

    let defs = &schema.definitions;
    let props = &schema.schema.object.as_ref().unwrap().properties;
    let Schema::Object(boot_disk) = props.get("boot_disk").unwrap() else {
        panic!("boot_disk should be a schema object");
    };

    let (kind, expandable, _) = classify(boot_disk, defs).unwrap();
    assert!(matches!(kind, NodeKind::OneOf), "should classify as OneOf");
    assert!(expandable, "nullable oneOf must be expandable");
    assert_eq!(describe_type(boot_disk), "<DiskAttach>");
}

// An array of objects is a drillable `Array` node: the user customizes one representative
// element, and the export is `[element]` with the element's required fields. A scalar array
// stays a flat leaf.
#[test]
fn array_of_objects_drills_into_element() {
    let schema = root(
        r##"{
            "title": "Demo",
            "type": "object",
            "required": ["disks"],
            "properties": {
                "disks": { "type": "array", "items": { "$ref": "#/definitions/Disk" } }
            },
            "definitions": {
                "Disk": {
                    "type": "object",
                    "required": ["name"],
                    "properties": {
                        "name": { "type": "string" },
                        "size": { "type": "integer", "format": "uint64" }
                    }
                }
            }
        }"##,
    );

    let defs = &schema.definitions;
    let props = &schema.schema.object.as_ref().unwrap().properties;
    let Schema::Object(disks) = props.get("disks").unwrap() else {
        panic!("disks should be a schema object");
    };
    let (kind, expandable, _) = classify(disks, defs).unwrap();
    assert!(matches!(kind, NodeKind::Array), "array of objects → Array");
    assert!(expandable);

    let root = build_root(&schema).unwrap();
    assert_eq!(root.placeholder_value(), json(r#"{ "disks": [ { "name": "" } ] }"#));

    // A scalar array is NOT drillable: it stays a leaf with `[<scalar>]`.
    let scalar_arr = object(r#"{ "type": "array", "items": { "type": "string" } }"#);
    let (kind, expandable, val) = classify(&scalar_arr, defs).unwrap();
    assert!(matches!(kind, NodeKind::Leaf), "scalar array → Leaf");
    assert!(!expandable);
    assert_eq!(val, Some(json(r#"[""]"#)));
}

const NAME_OR_ID: &str = r#"{ "oneOf": [
    { "title": "id", "allOf": [{ "type": "string", "format": "uuid" }] },
    { "title": "name", "allOf": [{ "type": "string" }] }
]}"#;

// A `NameOrId`-shaped oneOf: arms are `{title, allOf:[scalar]}`, not tagged objects or
// single-enum scalars. The arms must (a) be labeled by their title (`id` / `name`), not
// "variant", and (b) export the scalar placeholder, not an empty `{}`.
#[test]
fn scalar_oneof_arms_get_real_labels_and_values() {
    let schema = root(&format!(
        r##"{{
            "title": "Demo", "type": "object", "required": ["who"],
            "properties": {{ "who": {{ "$ref": "#/definitions/NameOrId" }} }},
            "definitions": {{ "NameOrId": {NAME_OR_ID} }}
        }}"##
    ));

    let mut app = App::new(&schema, "t".into()).unwrap();
    // Expand the oneOf so its arms become visible rows.
    let who = app.rows.iter().position(|r| r.label == "who").unwrap();
    app.selected = Some(who);
    assert!(app.activate());
    let labels: Vec<&str> =
        app.rows.iter().filter(|r| r.is_variant_child).map(|r| r.label.as_str()).collect();
    assert_eq!(labels, vec!["id", "name"], "arms labeled by title");

    // The default export picks the first arm and emits its scalar value (empty string for a
    // string leaf), never `{}`.
    assert_eq!(app.root.placeholder_value(), json(r#"{ "who": "" }"#));
}

// Picking a variant nested inside an *optional* container must pull every ancestor into the
// export. Otherwise the choice is silently dropped because the outer optional array was
// never itself included.
#[test]
fn picking_nested_variant_includes_optional_ancestors() {
    let schema = root(&format!(
        r##"{{
            "title": "Demo", "type": "object", "required": [],
            "properties": {{
                "anti_affinity_groups": {{
                    "type": "array", "items": {{ "$ref": "#/definitions/NameOrId" }}
                }}
            }},
            "definitions": {{ "NameOrId": {NAME_OR_ID} }}
        }}"##
    ));

    let mut app = App::new(&schema, "t".into()).unwrap();

    // Drill in without ever pressing Space on the array: expand the array, expand its
    // `[item]` element, then pick the `name` arm.
    select(&mut app, "anti_affinity_groups");
    assert!(app.activate());
    select(&mut app, "[item]");
    assert!(app.activate());
    // Peeking has committed to nothing yet.
    assert_eq!(app.root.placeholder_value(), json("{}"));
    select(&mut app, "name");
    assert!(app.activate());

    // The optional array was never Space-included, yet the deep pick must carry it (and a
    // real scalar value) into the output.
    assert_eq!(app.root.placeholder_value(), json(r#"{ "anti_affinity_groups": [""] }"#));
    let picked: Vec<&str> =
        app.rows.iter().filter(|r| r.is_selected_variant).map(|r| r.label.as_str()).collect();
    assert_eq!(picked, vec!["name"]);
}

// Selecting (including) an optional array should pull in the required fields of its element
// automatically.
#[test]
fn including_optional_array_pulls_in_required_element_fields() {
    let schema = root(
        r##"{
            "title": "Demo", "type": "object", "required": [],
            "properties": {
                "groups": { "type": "array", "items": { "$ref": "#/definitions/Spec" } }
            },
            "definitions": {
                "Spec": { "type": "object", "required": ["group"], "properties": {
                    "group": { "type": "string" },
                    "ip_version": { "type": "string" }
                }}
            }
        }"##,
    );

    let mut app = App::new(&schema, "t".into()).unwrap();
    let groups_idx = app.rows.iter().position(|r| r.label == "groups").unwrap();
    app.selected = Some(groups_idx);
    assert!(app.toggle_include());

    assert_eq!(app.root.placeholder_value(), json(r#"{ "groups": [ { "group": "" } ] }"#));
}

const DEMO: &str = r##"{
    "title": "Demo", "type": "object", "required": ["name", "mode"],
    "properties": {
        "name": { "type": "string" },
        "mode": { "oneOf": [
            { "type": "object", "required": ["kind"],
              "properties": { "kind": { "enum": ["fast"] }, "level": { "type": "integer" } } },
            { "type": "object", "required": ["kind", "why"],
              "properties": { "kind": { "enum": ["slow"] }, "why": { "type": "string" } } }
        ] },
        "note": { "type": "string", "default": "n/a" },
        "size": { "type": "integer", "default": null },
        "spec": { "type": "object", "required": ["id"],
                  "properties": { "id": { "type": "string", "format": "uuid" },
                                  "tags": { "type": "array", "items": { "type": "string" } } } }
    }
}"##;

#[test]
fn rows_show_the_tree() {
    let schema = root(DEMO);
    let app = App::new(&schema, "t".into()).unwrap();
    let labels: Vec<&str> = app.rows.iter().map(|r| r.label.as_str()).collect();
    assert_eq!(labels, vec!["demo", "mode", "name", "note", "size", "spec"]);
    let types: Vec<&str> = app.rows.iter().map(|r| r.type_desc.as_str()).collect();
    assert_eq!(types, vec!["(root)", "(variants)", "String", "String", "Integer", "object"]);
    let depths: Vec<usize> = app.rows.iter().map(|r| r.depth).collect();
    assert_eq!(depths, vec![0, 1, 1, 1, 1, 1]);
    assert_eq!(app.rows[3].default.as_deref(), Some("\"n/a\""));
    assert_eq!(app.rows[4].default, None);
    assert_eq!(app.rows[1].annotations, vec!["(tagged on `kind`)"]);
    assert_eq!(app.rows[5].path, vec![4]);
    assert_eq!(app.selected, Some(0));
    assert_eq!(app.title, "t");
}

#[test]
fn only_included_fields_are_exported() {
    let schema = root(DEMO);
    let mut app = App::new(&schema, "t".into()).unwrap();
    let first = json(r#"{ "mode": { "kind": "fast" }, "name": "" }"#);
    assert_eq!(app.root.placeholder_value(), first);

    // A required field cannot be excluded.
    select(&mut app, "name");
    assert_eq!(press(&mut app, KeyCode::Char(' ')), Step::Continue);
    assert_eq!(app.root.placeholder_value(), first);

    // An optional field with a default exports it; `default: null` is no default.
    select(&mut app, "note");
    press(&mut app, KeyCode::Char(' '));
    select(&mut app, "size");
    press(&mut app, KeyCode::Char(' '));
    select(&mut app, "spec");
    press(&mut app, KeyCode::Char(' '));
    assert_eq!(
        app.root.placeholder_value(),
        json(
            r#"{ "mode": { "kind": "fast" }, "name": "", "note": "n/a", "size": 0,
                 "spec": { "id": "" } }"#
        )
    );

    // Excluding takes it out again, and it stays open to look at.
    select(&mut app, "spec");
    press(&mut app, KeyCode::Char(' '));
    assert!(app.rows.iter().any(|r| r.label == "tags"));
    assert_eq!(
        app.root.placeholder_value(),
        json(r#"{ "mode": { "kind": "fast" }, "name": "", "note": "n/a", "size": 0 }"#)
    );

    // Including a field of what is left out brings it back.
    select(&mut app, "tags");
    press(&mut app, KeyCode::Char(' '));
    assert_eq!(
        app.root.placeholder_value(),
        json(
            r#"{ "mode": { "kind": "fast" }, "name": "", "note": "n/a", "size": 0,
                 "spec": { "id": "", "tags": [""] } }"#
        )
    );
}

#[test]
fn the_selected_variant_is_exported() {
    let schema = root(DEMO);
    let mut app = App::new(&schema, "t".into()).unwrap();
    select(&mut app, "mode");
    press(&mut app, KeyCode::Enter);
    let arms: Vec<&str> =
        app.rows.iter().filter(|r| r.is_variant_child).map(|r| r.label.as_str()).collect();
    assert_eq!(arms, vec!["\"fast\"  (kind)", "\"slow\"  (kind)"]);
    select(&mut app, "\"slow\"  (kind)");
    press(&mut app, KeyCode::Char(' '));
    assert_eq!(
        press(&mut app, KeyCode::Char('q')),
        Step::Done(Outcome::Export(json(
            r#"{ "mode": { "kind": "slow", "why": "" }, "name": "" }"#
        )))
    );
}

#[test]
fn looking_around_changes_no_export() {
    let schema = root(DEMO);
    let mut app = App::new(&schema, "t".into()).unwrap();
    let first = app.root.placeholder_value();
    for code in [
        KeyCode::Char('G'), KeyCode::Enter, KeyCode::Down, KeyCode::Down, KeyCode::Left,
        KeyCode::Left, KeyCode::Char('g'), KeyCode::Down, KeyCode::Right, KeyCode::PageDown,
        KeyCode::PageUp, KeyCode::Char('j'), KeyCode::Char('k'), KeyCode::Up, KeyCode::Other,
    ] {
        assert_eq!(press(&mut app, code), Step::Continue);
        assert_eq!(app.root.placeholder_value(), first);
    }
}

#[test]
fn the_cursor_stays_on_the_rows() {
    let schema = root(DEMO);
    let mut app = App::new(&schema, "t".into()).unwrap();
    press(&mut app, KeyCode::Up);
    assert_eq!(app.selected, Some(0));
    press(&mut app, KeyCode::PageDown);
    assert_eq!(app.selected, Some(5));
    press(&mut app, KeyCode::Char('j'));
    assert_eq!(app.selected, Some(5));
    app.move_by(isize::MIN);
    assert_eq!(app.selected, Some(0));
    app.move_by(isize::MAX);
    assert_eq!(app.selected, Some(5));
    press(&mut app, KeyCode::Char('k'));
    assert_eq!(app.selected, Some(4));
    press(&mut app, KeyCode::Char('g'));
    assert_eq!(app.selected, Some(0));
    press(&mut app, KeyCode::Char('G'));
    assert_eq!(app.selected, Some(5));
    // Collapsing the root leaves one row.
    press(&mut app, KeyCode::Left);
    assert_eq!(app.selected, Some(0));
    press(&mut app, KeyCode::Left);
    assert_eq!(app.rows.len(), 1);
    press(&mut app, KeyCode::Left);
    assert_eq!(app.selected, Some(0));
}

#[test]
fn left_moves_up_to_the_parent() {
    let schema = root(DEMO);
    let mut app = App::new(&schema, "t".into()).unwrap();
    select(&mut app, "spec");
    press(&mut app, KeyCode::Enter);
    select(&mut app, "tags");
    press(&mut app, KeyCode::Left);
    assert_eq!(app.selected_row().unwrap().label, "spec");
    press(&mut app, KeyCode::Left);
    assert!(!app.selected_row().unwrap().expanded);
    app.selected = None;
    assert!(app.selected_row().is_none());
    press(&mut app, KeyCode::Left);
    press(&mut app, KeyCode::Enter);
    press(&mut app, KeyCode::Char(' '));
    assert_eq!(app.selected, None);
    press(&mut app, KeyCode::Down);
    assert_eq!(app.selected, Some(1));
}

#[test]
fn keys_ask_for_actions() {
    let plain = |code| action_of(Key { code, control: false });
    assert_eq!(plain(KeyCode::Esc), Action::Cancel);
    assert_eq!(plain(KeyCode::Char('c')), Action::Nothing);
    assert_eq!(action_of(Key { code: KeyCode::Char('c'), control: true }), Action::Cancel);
    assert_eq!(action_of(Key { code: KeyCode::Char('q'), control: true }), Action::Export);
    assert_eq!(plain(KeyCode::Char('q')), Action::Export);
    assert_eq!(plain(KeyCode::Char(' ')), Action::Toggle);
    assert_eq!(plain(KeyCode::Enter), Action::Activate);
    assert_eq!(plain(KeyCode::Right), Action::Activate);
    assert_eq!(plain(KeyCode::Left), Action::CollapseOrUp);
    assert_eq!(plain(KeyCode::PageDown), Action::Move(10));
    assert_eq!(plain(KeyCode::PageUp), Action::Move(-10));
    assert_eq!(plain(KeyCode::Char('x')), Action::Nothing);
    assert_eq!(plain(KeyCode::Other), Action::Nothing);

    let schema = root(DEMO);
    let mut app = App::new(&schema, "t".into()).unwrap();
    assert_eq!(press(&mut app, KeyCode::Esc), Step::Done(Outcome::Cancel));
    let ctrl_c = Key { code: KeyCode::Char('c'), control: true };
    assert_eq!(app.handle_key(ctrl_c), Step::Done(Outcome::Cancel));
}

#[test]
fn endless_references_stop_the_session() {
    let text = |required: &str| {
        format!(
            r##"{{ "type": "object", "required": [{required}],
                  "properties": {{ "x": {{ "type": "object", "required": ["y"],
                      "properties": {{ "y": {{ "$ref": "#/definitions/Loop" }} }} }} }},
                  "definitions": {{ "Loop": {{ "$ref": "#/definitions/Loop" }} }} }}"##
        )
    };
    let eager = root(&text("\"x\""));
    assert!(App::new(&eager, "t".into()).is_none());
    assert!(build_root(&eager).is_none());

    let lazy = root(&text(""));
    let mut app = App::new(&lazy, "t".into()).unwrap();
    select(&mut app, "x");
    assert_eq!(press(&mut app, KeyCode::Enter), Step::Stuck);
    assert_eq!(press(&mut app, KeyCode::Char(' ')), Step::Stuck);
    assert_eq!(app.root.placeholder_value(), json("{}"));
}

// A field that may hold the whole again, behind a `null`, does not stop a session.
#[test]
fn endless_variants_do_not_stop_the_session() {
    let schema = root(
        r##"{ "type": "object", "required": ["list", "name"], "properties": {
            "list": { "type": "array", "items": { "oneOf": [{ "type": "null" },
                { "type": "array", "items": { "$ref": "#/definitions/Tree" } }] } },
            "name": { "type": "string" } },
            "definitions": { "Tree": { "type": "array", "items": {
                "oneOf": [{ "type": "null" }, { "$ref": "#/definitions/Tree" }] } } } }"##,
    );
    let app = App::new(&schema, "t".into()).unwrap();
    assert_eq!(app.root.placeholder_value(), json(r#"{ "list": [null], "name": "" }"#));
}

// A schema that contains itself is populated ahead only so far.
#[test]
fn deep_schemas_are_populated_in_part() {
    let schema = root(
        r##"{ "$ref": "#/definitions/Deep",
              "definitions": { "Deep": { "type": "object", "required": ["in"],
                  "properties": { "in": { "$ref": "#/definitions/Deep" } } } } }"##,
    );
    let tree = build_root(&schema).unwrap();
    let mut depth = 0;
    let mut node = &tree;
    while let Some(next) = node.children.first() {
        node = next;
        depth += 1;
    }
    assert_eq!(depth, 65);
    assert!(node.populated);
}

#[test]
fn types_are_described() {
    let text = |s: &str| describe_type(&object(s));
    assert_eq!(text(r##"{ "$ref": "#/definitions/Foo" }"##), "<Foo>");
    assert_eq!(text(r#"{ "enum": ["a", "b", 3, null, "e"] }"#), "\"a\" | \"b\" | 3 | null");
    assert_eq!(text(r#"{ "type": "array", "items": { "type": "number" } }"#), "[Number, ...]");
    assert_eq!(text(r#"{ "type": "array", "items": true }"#), "[any, ...]");
    assert_eq!(text(r#"{ "type": "array" }"#), "[...]");
    assert_eq!(text(r#"{ "type": "object" }"#), "object");
    assert_eq!(text("{}"), "any");
    assert_eq!(text(r#"{ "type": "string", "format": "date-time" }"#), "DateTime");
    assert_eq!(text(r#"{ "oneOf": [{ "type": "string" }, { "type": "integer" }] }"#), "(variants)");
}

#[test]
fn arms_have_labels() {
    let defs: NameMap<Schema> = NameMap::new();
    let text = |s: &str| variant_label(&schema(s), &defs);
    assert_eq!(text(r#"{ "properties": { "a": {}, "t": { "enum": ["x"] } } }"#), "\"x\"  (t)");
    assert_eq!(text(r#"{ "enum": ["never"], "title": "t" }"#), "\"never\"");
    assert_eq!(text(r#"{ "title": "id", "type": "string" }"#), "id");
    assert_eq!(text(r#"{ "type": "string", "format": "uuid" }"#), "Uuid");
    assert_eq!(text("{}"), "variant");
    assert_eq!(text("true"), "variant");
}

#[test]
fn scalar_arms_export_their_only_value() {
    let schema = root(
        r#"{ "type": "object", "required": ["policy"], "properties": { "policy": { "oneOf": [
            { "type": "string", "enum": ["never"] }, { "type": "string", "enum": ["best_effort"] }
        ] } } }"#,
    );
    let mut app = App::new(&schema, "t".into()).unwrap();
    assert_eq!(app.root.placeholder_value(), json(r#"{ "policy": "never" }"#));
    select(&mut app, "policy");
    app.activate();
    select(&mut app, "\"best_effort\"");
    app.activate();
    assert_eq!(app.root.placeholder_value(), json(r#"{ "policy": "best_effort" }"#));
}

#[test]
fn references_are_seen_through() {
    let mut defs: NameMap<Schema> = NameMap::new();
    defs.insert("A".to_string(), schema(r##"{ "allOf": [{ "$ref": "#/definitions/B" }] }"##));
    defs.insert("B".to_string(), schema(r#"{ "type": "integer" }"#));
    defs.insert("T".to_string(), schema("true"));
    let via = schema(r##"{ "anyOf": [{ "$ref": "#/definitions/A" }, { "type": "null" }] }"##);
    assert_eq!(resolve_to_object(&via, &defs), Some(&object(r#"{ "type": "integer" }"#)));
    let gone = schema(r##"{ "$ref": "#/definitions/Gone" }"##);
    assert_eq!(
        resolve_to_object(&gone, &defs),
        Some(&object(r##"{ "$ref": "#/definitions/Gone" }"##))
    );
    let bare = schema(r##"{ "$ref": "#/definitions/T" }"##);
    assert_eq!(
        resolve_to_object(&bare, &defs),
        Some(&object(r##"{ "$ref": "#/definitions/T" }"##))
    );
    assert_eq!(resolve_to_object(&schema("true"), &defs), None);
}

#[test]
fn rows_look_as_they_are() {
    let schema = root(DEMO);
    let mut app = App::new(&schema, "t".into()).unwrap();
    select(&mut app, "note");
    app.toggle_include();
    select(&mut app, "mode");
    app.activate();

    let raw = Look { color: None, bold: false, dim: false };
    let gray = Look { color: Some(Color::DarkGray), bold: false, dim: false };
    let span = |text: &str, look| Span { text: text.to_string(), look };
    let row = |app: &App, label: &str| {
        row_to_item(app.rows.iter().find(|r| r.label == label).unwrap())
    };
    assert_eq!(
        row(&app, "mode"),
        vec![
            span("  ", raw),
            span("▼  ", gray),
            span("mode", Look { color: None, bold: true, dim: false }),
            span(": ", raw),
            span("(variants)", raw),
            span("  ", raw),
            span("(tagged on `kind`)", gray),
        ]
    );
    let green = Look { color: Some(Color::Green), bold: false, dim: false };
    assert_eq!(
        row(&app, "note"),
        vec![
            span("  ", raw),
            span(" + ", green),
            span("[note]", raw),
            span(": ", raw),
            span("String", raw),
            span("  ", raw),
            span("(default: \"n/a\")", gray),
        ]
    );
    let chosen = Look { color: Some(Color::Green), bold: true, dim: false };
    assert_eq!(
        row(&app, "\"fast\"  (kind)"),
        vec![span("    ", raw), span("●  ", chosen), span("\"fast\"  (kind)", chosen)]
    );
    let dim = Look { color: None, bold: false, dim: true };
    assert_eq!(
        row(&app, "\"slow\"  (kind)"),
        vec![span("    ", raw), span("○  ", gray), span("\"slow\"  (kind)", dim)]
    );
    let spec = app.rows.iter().find(|r| r.label == "spec").unwrap();
    assert_eq!(build_marker(spec), ("▶  ".to_string(), gray));
}

#[test]
fn paths_split_at_the_end() {
    assert_eq!(split_path(&[]), None);
    assert_eq!(split_path(&[3]), Some((&[][..], 3)));
    assert_eq!(split_path(&[1, 2, 3]), Some((&[1, 2][..], 3)));
}

// The builder and the template agree field for field.
#[test]
fn builder_agrees_with_template() {
    let text = r##"{ "type": "object", "required": ["a", "b", "c", "d", "e"], "properties": {
        "a": { "type": "string" }, "b": { "$ref": "#/definitions/N" },
        "c": { "enum": ["x", "y"] }, "d": { "type": "array", "items": { "type": "boolean" } },
        "e": { "type": ["string", "null"] }, "f": { "type": "string" } },
        "definitions": { "N": { "type": "integer" } } }"##;
    let schema = root(text);
    let app = App::new(&schema, "t".into()).unwrap();
    let template = generate_value(&Schema::Object(root(text).schema), &schema.definitions);
    assert_eq!(app.root.placeholder_value(), template);
    assert_eq!(template, json(r#"{ "a": "", "b": 0, "c": "x", "d": [false], "e": null }"#));
}

// The builder and the template agree on the whole value: nested objects, arrays, unions,
// references and wrappers.
#[test]
fn builder_agrees_with_template_throughout() {
    for (text, value) in [
        // Objects, references and a one-element `allOf`, nested.
        (
            r##"{ "allOf": [{ "$ref": "#/definitions/Disk" }], "definitions": {
                "Disk": { "type": "object", "required": ["id", "owner"], "properties": {
                    "id": { "type": "integer" }, "note": { "type": "string" },
                    "owner": { "allOf": [{ "$ref": "#/definitions/Owner" }] } } },
                "Owner": { "type": "object", "required": ["name", "gone"], "properties": {
                    "name": { "type": "string" } } } } }"##,
            r#"{ "id": 0, "owner": { "name": "" } }"#,
        ),
        // An array of objects, whose default goes unused, and one that may be left out.
        (
            r##"{ "type": "object", "required": ["disks", "maybe"], "properties": {
                "disks": { "type": "array", "default": [], "items": {
                    "type": "object", "required": ["tags"], "properties": {
                        "tags": { "type": "array", "items": { "type": "string" } } } } },
                "maybe": { "anyOf": [{ "$ref": "#/definitions/List" }, { "type": "null" }] } },
                "definitions": { "List": { "type": "array", "items": [
                    { "type": "object", "required": ["n"], "properties": {
                        "n": { "type": "number" } } }] } } }"##,
            r#"{ "disks": [{ "tags": [""] }], "maybe": [{ "n": 0 }] }"#,
        ),
        // Unions: of objects, behind a `null`, of single values, and of unions.
        (
            r##"{ "type": "object", "required": ["a", "b", "c"], "properties": {
                "a": { "oneOf": [{ "type": "null", "enum": [null] },
                    { "type": "object", "required": ["k"], "properties": {
                        "k": { "type": "string", "enum": ["x"] } } },
                    { "type": "object", "required": ["k", "m"], "properties": {
                        "k": { "type": "string", "enum": ["y"] },
                        "m": { "type": "boolean" } } }] },
                "b": { "oneOf": [{ "type": "string", "enum": ["never"] },
                    { "type": "string", "enum": ["always"] }] },
                "c": { "anyOf": [{ "$ref": "#/definitions/U" }, { "type": "string" }] } },
                "definitions": { "U": { "oneOf": [{ "type": "integer" },
                    { "type": "boolean" }] } } }"##,
            r#"{ "a": { "k": "x" }, "b": "never", "c": 0 }"#,
        ),
        // The whole is a union.
        (
            r##"{ "oneOf": [{ "$ref": "#/definitions/A" }, { "type": "string" }],
                "definitions": { "A": { "type": "object", "required": ["x"], "properties": {
                    "x": { "default": "", "type": "string" }, "y": true } } } }"##,
            r#"{ "x": "" }"#,
        ),
    ] {
        let schema = root(text);
        let app = App::new(&schema, "t".into()).unwrap();
        let template = generate_value(&Schema::Object(root(text).schema), &schema.definitions);
        assert_eq!(template, json(value));
        assert_eq!(app.root.placeholder_value(), template);
    }
}

// Where the two do not read a schema alike, each gives its own value: by a default, by an
// array among the variants, and by a first variant without a value.
#[test]
fn builder_and_template_differ_by_defaults_and_variants() {
    for (text, built, template) in [
        (
            r#"{ "type": "object", "required": ["a"], "properties": {
                "a": { "type": "string", "default": "x" } } }"#,
            r#"{ "a": "x" }"#,
            r#"{ "a": "" }"#,
        ),
        (
            r#"{ "type": "object", "required": ["a"], "properties": { "a": { "oneOf": [
                { "type": "array", "items": { "type": "object", "required": ["n"],
                    "properties": { "n": { "type": "integer" } } } },
                { "type": "string" }] } } }"#,
            r#"{ "a": { "[item]": { "n": 0 } } }"#,
            r#"{ "a": [{ "n": 0 }] }"#,
        ),
        (
            r#"{ "type": "object", "required": ["a"], "properties": { "a": { "oneOf": [
                { "enum": [null] }, { "type": "string" }] } } }"#,
            r#"{ "a": null }"#,
            r#"{ "a": "" }"#,
        ),
    ] {
        let schema = root(text);
        let app = App::new(&schema, "t".into()).unwrap();
        assert_eq!(app.root.placeholder_value(), json(built));
        assert_eq!(
            generate_value(&Schema::Object(root(text).schema), &schema.definitions),
            json(template)
        );
    }
}

// Picking a variant by a row that is gone opens nothing, and the rows stay in step.
#[test]
fn picking_by_a_stale_row_opens_nothing() {
    let schema = root(DEMO);
    let mut app = App::new(&schema, "t".into()).unwrap();
    let before = app.rows.clone();
    let mut stale = app.rows[0].clone();
    stale.path = vec![7, 7];
    assert!(app.select_variant(&stale));
    assert_eq!(format!("{:?}", app.rows), format!("{:?}", before));
    // The parent is there: it notes the position, and has nothing to export for it.
    let mode = before.iter().find(|r| r.label == "mode").unwrap().path.clone();
    stale.path = mode.clone();
    stale.path.push(9);
    assert!(app.select_variant(&stale));
    assert_eq!(app.root.children[mode[0]].selected_variant, 9);
    assert_eq!(app.root.placeholder_value(), json(r#"{ "mode": null, "name": "" }"#));
    assert_eq!(app.rows.len(), before.len());
}

// The grammar reference and the builder name types alike.
#[test]
fn types_are_named_alike() {
    for text in [
        r##"{ "$ref": "#/definitions/Foo" }"##,
        r#"{ "type": "string" }"#,
        r#"{ "type": "string", "format": "ipv6" }"#,
        r#"{ "type": "integer", "format": "int8" }"#,
        r#"{ "type": "number" }"#,
        r#"{ "type": ["null", "boolean"] }"#,
        r#"{ "enum": ["x", 1, null] }"#,
        r##"{ "type": "array", "items": { "$ref": "#/definitions/Foo" } }"##,
        r#"{ "type": "array", "items": { "type": "array", "items": true } }"#,
        r#"{ "type": "array", "uniqueItems": true }"#,
        r##"{ "allOf": [{ "$ref": "#/definitions/Foo" }] }"##,
        r#"{ "anyOf": [{ "type": "null" }, { "enum": ["a", "b", "c", "d"] }] }"#,
    ] {
        let mut refs = NameSet::new();
        let grammar = render_schema(&schema(text), &mut refs, "", &Style::new(false));
        assert_eq!(describe_type(&object(text)), grammar);
    }
}

// Where every definition has a placeholder, no key brings a session to a stop.
#[test]
fn recursive_definitions_can_be_explored() {
    let schema = root(
        r##"{ "type": "object", "properties": { "tree": { "$ref": "#/definitions/Tree" } },
              "definitions": { "Tree": { "type": "object", "required": ["id"], "properties": {
                  "id": { "type": "string" },
                  "left": { "$ref": "#/definitions/Tree" } } } } }"##,
    );
    let mut app = App::new(&schema, "t".into()).unwrap();
    for _ in 0..5 {
        app.jump_bottom();
        assert_eq!(press(&mut app, KeyCode::Enter), Step::Continue);
    }
    // Including the innermost field brings in all of its ancestors.
    app.jump_bottom();
    assert_eq!(press(&mut app, KeyCode::Char(' ')), Step::Continue);
    let mut depth = 0;
    let mut value = app.root.placeholder_value();
    loop {
        let Json::Object(members) = value else { break };
        let Some(next) = members.get("tree").or(members.get("left")) else { break };
        depth += 1;
        value = next.clone();
    }
    assert_eq!(depth, 6);
}

#[test]
fn head_and_foot_lines() {
    let text = |spans: Vec<Span>| spans.iter().map(|s| s.text.as_str()).collect::<String>();
    assert_eq!(text(header("disk create")), "schema-tui  · disk create");
    assert!(header("x")[0].look.bold);
    assert_eq!(
        text(footer()),
        "↑↓ move   Enter peek / pick variant   space include in output   ← collapse   \
         q export   Esc cancel"
    );
    assert_eq!(footer()[0].look.color, Some(Color::Yellow));
    assert_eq!(footer()[1].look.color, None);
}
