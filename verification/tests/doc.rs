//! Rendering schemas and placeholder values.

use json_schema_tools::document::render_body_schema;
use json_schema_tools::generate::{generate_value, try_generate_value};
use json_schema_tools::json::{display_value, Json};
use json_schema_tools::names::{NameMap, NameSet};
use json_schema_tools::naming::{ref_name, snake_case, snake_case_with, string_format_name};
use json_schema_tools::properties::{detect_tag, order_properties};
use json_schema_tools::render::{join_variants, render_schema};
use json_schema_tools::schema::{
    instance_type, is_multi_variant, is_null_schema, item_schema, non_null_variants, root_title,
    scalar_type_name, transparent_inner, ArrayValidation, Defs, InstanceType, Metadata,
    ObjectValidation, RootSchema, Schema, SchemaObject, SingleOrVec, SubschemaValidation,
};
use json_schema_tools::style::{plain_len, should_colorize, Style};
use json_schema_tools::usage::build_usage_map;

fn json_of(v: &serde_json::Value) -> Json {
    match v {
        serde_json::Value::Null => Json::Null,
        serde_json::Value::Bool(b) => Json::Bool(*b),
        serde_json::Value::Number(n) => Json::Number(n.clone()),
        serde_json::Value::String(s) => Json::String(s.clone()),
        serde_json::Value::Array(items) => Json::Array(items.iter().map(json_of).collect()),
        serde_json::Value::Object(members) => {
            let mut map: NameMap<Json> = NameMap::new();
            for (name, value) in members {
                map.insert(name.clone(), json_of(value));
            }
            Json::Object(map)
        }
    }
}

fn type_of(t: &schemars::schema::InstanceType) -> InstanceType {
    match t {
        schemars::schema::InstanceType::Null => InstanceType::Null,
        schemars::schema::InstanceType::Boolean => InstanceType::Boolean,
        schemars::schema::InstanceType::Object => InstanceType::Object,
        schemars::schema::InstanceType::Array => InstanceType::Array,
        schemars::schema::InstanceType::Number => InstanceType::Number,
        schemars::schema::InstanceType::String => InstanceType::String,
        schemars::schema::InstanceType::Integer => InstanceType::Integer,
    }
}

fn either<A, B>(
    v: &schemars::schema::SingleOrVec<A>,
    f: fn(&A) -> B,
) -> SingleOrVec<B> {
    match v {
        schemars::schema::SingleOrVec::Single(x) => SingleOrVec::Single(Box::new(f(x))),
        schemars::schema::SingleOrVec::Vec(xs) => SingleOrVec::Vec(xs.iter().map(f).collect()),
    }
}

fn schemas_of(v: &Option<Vec<schemars::schema::Schema>>) -> Option<Vec<Schema>> {
    v.as_ref().map(|list| list.iter().map(schema_of).collect())
}

fn schema_map(
    entries: &std::collections::BTreeMap<String, schemars::schema::Schema>,
) -> NameMap<Schema> {
    let mut map: NameMap<Schema> = NameMap::new();
    for (name, value) in entries {
        map.insert(name.clone(), schema_of(value));
    }
    map
}

fn object_of(o: &schemars::schema::SchemaObject) -> SchemaObject {
    SchemaObject {
        metadata: o.metadata.as_ref().map(|m| Metadata {
            title: m.title.clone(),
            default: m.default.as_ref().map(json_of),
        }),
        instance_type: o.instance_type.as_ref().map(|t| either(t, type_of)),
        format: o.format.clone(),
        enum_values: o.enum_values.as_ref().map(|v| v.iter().map(json_of).collect()),
        subschemas: o.subschemas.as_ref().map(|s| {
            Box::new(SubschemaValidation {
                all_of: schemas_of(&s.all_of),
                any_of: schemas_of(&s.any_of),
                one_of: schemas_of(&s.one_of),
            })
        }),
        array: o.array.as_ref().map(|a| {
            Box::new(ArrayValidation { items: a.items.as_ref().map(|i| either(i, schema_of)) })
        }),
        object: o.object.as_ref().map(|ov| {
            let mut required = NameSet::new();
            for name in &ov.required {
                required.insert(name.clone());
            }
            Box::new(ObjectValidation { properties: schema_map(&ov.properties), required })
        }),
        reference: o.reference.clone(),
    }
}

fn schema_of(s: &schemars::schema::Schema) -> Schema {
    match s {
        schemars::schema::Schema::Bool(b) => Schema::Bool(*b),
        schemars::schema::Schema::Object(o) => Schema::Object(object_of(o)),
    }
}

fn json(text: &str) -> Json {
    json_of(&serde_json::from_str(text).expect("valid JSON"))
}

fn object(text: &str) -> SchemaObject {
    object_of(&serde_json::from_str(text).expect("valid schema object"))
}

fn schema(text: &str) -> Schema {
    schema_of(&serde_json::from_str(text).expect("valid schema"))
}

fn root(text: &str) -> RootSchema {
    let parsed: schemars::schema::RootSchema = serde_json::from_str(text).expect("valid schema");
    RootSchema { schema: object_of(&parsed.schema), definitions: schema_map(&parsed.definitions) }
}

#[test]
fn non_null_variants_keeps_real_arms() {
    let o = object(
        r#"{
            "oneOf": [
                { "type": "object", "properties": { "type": { "enum": ["local"] } } },
                { "type": "object", "properties": { "type": { "enum": ["remote"] } } }
            ]
        }"#,
    );
    let arms = non_null_variants(&o).expect("has a union");
    assert_eq!(arms.len(), 2);
    assert!(is_multi_variant(&o));
}

// schemars encodes `Option<T>` as `anyOf: [T, null]`. The `null` arm is dropped, leaving
// a single real arm: that's a nullable wrapper, NOT a multi-variant picker.
#[test]
fn non_null_variants_drops_null_arm() {
    let o = object(r##"{ "anyOf": [{ "$ref": "#/definitions/Thing" }, { "type": "null" }] }"##);
    let arms = non_null_variants(&o).expect("has a union");
    assert_eq!(arms.len(), 1);
    assert!(!is_multi_variant(&o), "one real arm is not a picker");
}

// A plain type has no union at all.
#[test]
fn non_null_variants_none_without_union() {
    let o = object(r#"{ "type": "string" }"#);
    assert!(non_null_variants(&o).is_none());
    assert!(!is_multi_variant(&o));
}

#[test]
fn root_title_snake_cases_title_else_request() {
    let titled = root(r#"{ "title": "DiskCreate", "type": "object" }"#);
    assert_eq!(root_title(&titled), "disk_create");

    let untitled = root(r#"{ "type": "object" }"#);
    assert_eq!(root_title(&untitled), "request");
}

#[test]
fn is_null_schema_only_for_null_type() {
    assert!(is_null_schema(&schema(r#"{ "type": "null" }"#)));
    assert!(!is_null_schema(&schema(r#"{ "type": "string" }"#)));
}

// The discriminator of a tagged union is the property that is a single-value enum across
// every arm.
#[test]
fn detect_tag_finds_discriminator() {
    let o = object(
        r#"{
            "oneOf": [
                { "type": "object", "required": ["type"],
                  "properties": { "type": { "enum": ["local"] } } },
                { "type": "object", "required": ["type"],
                  "properties": { "type": { "enum": ["remote"] }, "host": { "type": "string" } } }
            ]
        }"#,
    );
    let arms = non_null_variants(&o).unwrap();
    assert_eq!(detect_tag(&arms).as_deref(), Some("type"));
}

// `generate_value` resolves a single schema node to the placeholder the interactive
// builder shows per-field.
#[test]
fn generate_value_resolves_leaf_placeholders() {
    let defs: Defs = NameMap::new();
    let val = |s: &str| generate_value(&schema(s), &defs);

    assert_eq!(val(r#"{ "type": "string" }"#), json(r#""""#));
    assert_eq!(val(r#"{ "type": "integer" }"#), json("0"));
    assert_eq!(val(r#"{ "type": "boolean" }"#), json("false"));
    // An enum resolves to its first value (the discriminator placeholder).
    assert_eq!(val(r#"{ "enum": ["first", "second"] }"#), json(r#""first""#));
    // A scalar array resolves to a one-element list of the item placeholder.
    assert_eq!(
        val(r#"{ "type": "array", "items": { "type": "string" } }"#),
        json(r#"[""]"#)
    );
}

// `$ref`s resolve against `definitions` before producing a value.
#[test]
fn generate_value_resolves_refs() {
    let mut defs: Defs = NameMap::new();
    defs.insert("Name".to_string(), schema(r#"{ "type": "string" }"#));

    let s = schema(r##"{ "$ref": "#/definitions/Name" }"##);
    assert_eq!(generate_value(&s, &defs), json(r#""""#));
}

#[test]
fn ref_name_and_snake_case() {
    assert_eq!(ref_name("#/definitions/NameOrId"), "NameOrId");
    assert_eq!(ref_name("#/components/schemas/DiskCreate"), "DiskCreate");
    assert_eq!(snake_case("NameOrId"), "name_or_id");
}

#[test]
fn names_without_slash_or_capitals_stay() {
    assert_eq!(ref_name("Plain"), "Plain");
    assert_eq!(ref_name("#/definitions/"), "");
    assert_eq!(ref_name(""), "");
    assert_eq!(snake_case("disk_create"), "disk_create");
    assert_eq!(snake_case(""), "");
    // A capital that is no ASCII letter is marked and kept.
    assert_eq!(snake_case("aÉb"), "a_Éb");
    assert_eq!(snake_case("ABC"), "a_b_c");
    assert_eq!(snake_case_with("aBc", &vec![false, false, true]), "ab_c");
}

#[test]
fn string_formats_have_names() {
    assert_eq!(string_format_name(None), "String");
    assert_eq!(string_format_name(Some("uuid")), "Uuid");
    assert_eq!(string_format_name(Some("date-time")), "DateTime");
    assert_eq!(string_format_name(Some("ip")), "IpAddr");
    assert_eq!(string_format_name(Some("ipv4")), "Ipv4Addr");
    assert_eq!(string_format_name(Some("ipv6")), "Ipv6Addr");
    assert_eq!(string_format_name(Some("byte")), "Base64");
    assert_eq!(string_format_name(Some("email")), "String (email)");
}

#[test]
fn instance_type_picks_first_non_null() {
    let o = object(r#"{ "type": ["null", "integer", "string"] }"#);
    assert_eq!(instance_type(&o.instance_type), Some(InstanceType::Integer));
    let only_null = object(r#"{ "type": ["null"] }"#);
    assert_eq!(instance_type(&only_null.instance_type), None);
    assert_eq!(instance_type(&None), None);
}

#[test]
fn wrappers_items_and_scalars() {
    let wrapper = object(r#"{ "title": "x", "allOf": [{ "type": "string" }] }"#);
    assert_eq!(transparent_inner(&wrapper), Some(&schema(r#"{ "type": "string" }"#)));
    let union = object(r#"{ "oneOf": [{ "type": "string" }, { "type": "integer" }] }"#);
    assert_eq!(transparent_inner(&union), None);

    let list = object(r#"{ "type": "array", "items": [{ "type": "boolean" }, true] }"#);
    assert_eq!(item_schema(&list), Some(&schema(r#"{ "type": "boolean" }"#)));
    assert_eq!(item_schema(&object(r#"{ "type": "array" }"#)), None);

    let int = object(r#"{ "type": "integer", "format": "uint16" }"#);
    assert_eq!(scalar_type_name(&int).as_deref(), Some("uint16"));
    assert_eq!(scalar_type_name(&object(r#"{ "type": "integer" }"#)).as_deref(), Some("Integer"));
    assert_eq!(scalar_type_name(&object(r#"{ "type": "number" }"#)).as_deref(), Some("Number"));
    assert_eq!(scalar_type_name(&object(r#"{ "type": "boolean" }"#)).as_deref(), Some("bool"));
    assert_eq!(scalar_type_name(&object(r#"{ "type": "null" }"#)).as_deref(), Some("null"));
    assert_eq!(scalar_type_name(&object(r#"{ "type": "object" }"#)), None);
}

#[test]
fn no_single_tag_no_discriminator() {
    let defs = |text: &str| {
        let o = object(text);
        let arms = non_null_variants(&o).unwrap();
        detect_tag(&arms)
    };
    // Two shared fixed fields: neither is the tag.
    assert_eq!(
        defs(
            r#"{ "oneOf": [
                { "properties": { "a": { "enum": ["x"] }, "b": { "enum": ["y"] } } },
                { "properties": { "a": { "enum": ["z"] }, "b": { "enum": ["w"] } } }
            ] }"#
        ),
        None
    );
    // A fixed field that one arm lacks.
    assert_eq!(
        defs(r#"{ "oneOf": [{ "properties": { "a": { "enum": ["x"] } } }, { "type": "string" }] }"#),
        None
    );
    // A fixed value that is no string.
    assert_eq!(defs(r#"{ "oneOf": [{ "properties": { "a": { "enum": [1] } } }] }"#), None);
    assert_eq!(defs(r#"{ "oneOf": [] }"#), None);
}

#[test]
fn properties_come_required_first() {
    let o = object(
        r#"{ "type": "object", "required": ["b", "d"],
             "properties": { "a": true, "b": true, "c": true, "d": true } }"#,
    );
    let ov = o.object.as_ref().unwrap();
    let names = |priority: Vec<String>| -> Vec<String> {
        order_properties(ov, &priority).iter().map(|p| p.0.clone()).collect()
    };
    assert_eq!(names(vec![]), vec!["b", "d", "a", "c"]);
    assert_eq!(names(vec!["c".to_string()]), vec!["c", "b", "d", "a"]);
    assert_eq!(names(vec!["nope".to_string()]), vec!["b", "d", "a", "c"]);
    let flags: Vec<bool> = order_properties(ov, &vec![]).iter().map(|p| p.2).collect();
    assert_eq!(flags, vec![true, true, false, false]);
}

#[test]
fn objects_hold_required_properties_only() {
    let defs: Defs = NameMap::new();
    let s = schema(
        r#"{ "type": "object", "required": ["name", "count", "missing"],
             "properties": {
                "name": { "type": "string" },
                "count": { "type": "number" },
                "note": { "type": "string" }
             } }"#,
    );
    assert_eq!(generate_value(&s, &defs), json(r#"{ "count": 0, "name": "" }"#));
}

#[test]
fn unions_take_first_viable_variant() {
    let defs: Defs = NameMap::new();
    let val = |s: &str| generate_value(&schema(s), &defs);
    assert_eq!(val(r#"{ "anyOf": [{ "type": "null" }, { "type": "boolean" }] }"#), json("false"));
    assert_eq!(val(r#"{ "oneOf": [{ "type": "null" }, { "type": "string" }] }"#), json(r#""""#));
    assert_eq!(val(r#"{ "oneOf": [{ "type": "null" }] }"#), json("null"));
    assert_eq!(val(r#"{ "allOf": [{ "type": "integer" }, { "type": "string" }] }"#), json("0"));
    // An `anyOf` without a viable variant leaves the choice to what follows.
    assert_eq!(
        val(r#"{ "anyOf": [{ "type": "null" }], "oneOf": [{ "type": "string" }] }"#),
        json(r#""""#)
    );
    assert_eq!(val(r#"{ "oneOf": [], "type": "string" }"#), json(r#""""#));
}

#[test]
fn other_placeholders() {
    let defs: Defs = NameMap::new();
    let val = |s: &str| generate_value(&schema(s), &defs);
    assert_eq!(val("true"), json("null"));
    assert_eq!(val("{}"), json("null"));
    assert_eq!(val(r#"{ "type": ["string", "null"] }"#), json("null"));
    assert_eq!(val(r#"{ "type": "array" }"#), json("[]"));
    assert_eq!(val(r#"{ "type": "object" }"#), json("{}"));
    assert_eq!(
        val(r#"{ "type": "array", "items": [{ "type": "string" }, { "type": "integer" }] }"#),
        json(r#"["", 0]"#)
    );
    assert_eq!(val(r#"{ "enum": [], "type": "boolean" }"#), json("false"));
    // A reference to what is not defined, or outside the definitions.
    assert_eq!(val(r##"{ "$ref": "#/definitions/Nope" }"##), json("null"));
    assert_eq!(val(r##"{ "$ref": "#/components/schemas/Nope" }"##), json("null"));
}

#[test]
fn endless_references_are_told() {
    let mut defs: Defs = NameMap::new();
    defs.insert("A".to_string(), schema(r##"{ "$ref": "#/definitions/B" }"##));
    defs.insert("B".to_string(), schema(r##"{ "$ref": "#/definitions/A" }"##));
    defs.insert("C".to_string(), schema(r##"{ "$ref": "#/definitions/D" }"##));
    defs.insert("D".to_string(), schema(r#"{ "type": "integer" }"#));
    assert_eq!(try_generate_value(&schema(r##"{ "$ref": "#/definitions/A" }"##), &defs), None);
    assert_eq!(
        try_generate_value(&schema(r##"{ "$ref": "#/definitions/C" }"##), &defs),
        Some(json("0"))
    );
    // A list that may end in a reference to itself, but need not be followed.
    defs.insert(
        "List".to_string(),
        schema(
            r##"{ "type": "object", "required": ["head"],
                  "properties": { "head": { "type": "string" },
                                  "tail": { "$ref": "#/definitions/List" } } }"##,
        ),
    );
    assert_eq!(
        try_generate_value(&schema(r##"{ "$ref": "#/definitions/List" }"##), &defs),
        Some(json(r#"{ "head": "" }"#))
    );
}

// A variant of a `oneOf` whose references never come to an end is not viable.
#[test]
fn endless_variants_are_passed_over() {
    let mut defs: Defs = NameMap::new();
    defs.insert(
        "Node".to_string(),
        schema(
            r##"{ "type": "object", "required": ["next"], "properties": { "next": {
                  "oneOf": [{ "type": "null" }, { "$ref": "#/definitions/Node" }] } } }"##,
        ),
    );
    defs.insert("Loop".to_string(), schema(r##"{ "$ref": "#/definitions/Loop" }"##));
    let val = |s: &str| try_generate_value(&schema(s), &defs);
    let node = json(r#"{ "next": null }"#);
    assert_eq!(val(r##"{ "$ref": "#/definitions/Node" }"##), Some(node));
    assert_eq!(
        val(r##"{ "oneOf": [{ "type": "null" }, { "$ref": "#/definitions/Node" }] }"##),
        Some(json("null"))
    );
    // What stands behind it is tried, and what stands first is taken.
    assert_eq!(
        val(
            r##"{ "oneOf": [{ "type": "null" }, { "$ref": "#/definitions/Loop" },
                { "type": "string" }] }"##
        ),
        Some(json(r#""""#))
    );
    assert_eq!(
        val(r##"{ "oneOf": [{ "$ref": "#/definitions/Node" }, { "type": "string" }] }"##),
        Some(json(r#"{ "next": null }"#))
    );
    assert_eq!(
        val(r##"{ "anyOf": [{ "type": "null" }, { "$ref": "#/definitions/Node" }] }"##),
        Some(json(r#"{ "next": null }"#))
    );
    // A `oneOf` has no value where its first variant has none.
    assert_eq!(
        val(r##"{ "oneOf": [{ "$ref": "#/definitions/Loop" }, { "type": "string" }] }"##),
        None
    );
}

#[test]
fn values_are_shown_compactly() {
    assert_eq!(display_value(&json(r#""a \"b\"""#)), "\"a \"b\"\"");
    assert_eq!(display_value(&json("null")), "null");
    assert_eq!(display_value(&json("true")), "true");
    assert_eq!(display_value(&json("false")), "false");
    assert_eq!(display_value(&json("-12")), "-12");
    assert_eq!(
        display_value(&json(r#"{ "b": [1, "x", null], "a": {} }"#)),
        r#"{"a":{},"b":[1,"x",null]}"#
    );
    // Control characters are escaped, but for those of a string that is shown as it is.
    assert_eq!(display_value(&json("[\"a\\u001b\\n\"]")), "[\"a\\u001b\\n\"]");
    assert_eq!(display_value(&json("\"a\\u001b\"")), "\"a\u{1b}\"");
}

#[test]
fn values_copy() {
    let v = json(r#"{ "b": [1, "x", null, true], "a": { "c": {} } }"#);
    assert_eq!(v.clone(), v);
}

#[test]
fn escapes_have_no_width() {
    assert_eq!(plain_len("abc"), 3);
    assert_eq!(plain_len("\u{1b}[1;33m|\u{1b}[0m"), 1);
    assert_eq!(plain_len("é\u{1b}[2mx"), 2);
    let on = Style::new(true);
    assert_eq!(on.dim("x"), "\u{1b}[2mx\u{1b}[0m");
    assert_eq!(on.bold("x"), "\u{1b}[1mx\u{1b}[0m");
    assert_eq!(on.cyan("x"), "\u{1b}[36mx\u{1b}[0m");
    assert_eq!(on.green("x"), "\u{1b}[32mx\u{1b}[0m");
    assert_eq!(on.bold_yellow("x"), "\u{1b}[1;33mx\u{1b}[0m");
    assert_eq!(Style::new(false).bold_yellow("x"), "x");
}

#[test]
fn colour_is_decided_by_environment() {
    assert!(!should_colorize(true, true, true));
    assert!(should_colorize(false, true, false));
    assert!(should_colorize(false, false, true));
    assert!(!should_colorize(false, false, false));
}

#[test]
fn types_as_text() {
    let plain = Style::new(false);
    let text = |s: &str| {
        let mut refs = NameSet::new();
        render_schema(&schema(s), &mut refs, "", &plain)
    };
    assert_eq!(text("true"), "any");
    assert_eq!(text("false"), "never");
    assert_eq!(text(r##"{ "$ref": "#/definitions/Foo" }"##), "<Foo>");
    assert_eq!(text(r#"{ "type": "array", "items": { "type": "string" } }"#), "[String, ...]");
    assert_eq!(text(r#"{ "type": "array" }"#), "[any, ...]");
    assert_eq!(text(r#"{ "enum": ["a", 1, null] }"#), "\"a\" | 1 | null");
    assert_eq!(
        text(r#"{ "anyOf": [{ "type": "string" }, { "type": "null" }, { "type": "integer" }] }"#),
        "String | Integer"
    );
    assert_eq!(text(r#"{ "anyOf": [{ "type": "string" }, { "type": "null" }] }"#), "String");
    assert_eq!(text(r#"{ "allOf": [{ "type": "boolean" }] }"#), "bool");
    assert_eq!(text(r#"{ "type": "object" }"#), "{}");
    assert_eq!(text("{}"), "{}");
    assert_eq!(
        text(
            r#"{ "type": "object", "required": ["b"], "properties": {
                "b": { "type": "object", "properties": { "x": { "type": "number" } } },
                "aa": { "type": "string", "default": "hi" } } }"#
        ),
        "{\n  b:     {\n    [x]:  Number\n  }\n  [aa]:  String   (default: \"hi\")\n}"
    );
}

#[test]
fn long_unions_break_into_lines() {
    let plain = Style::new(false);
    let long = "x".repeat(50);
    let parts = vec![long.clone(), long.clone()];
    assert_eq!(join_variants(&parts, "", &plain), format!("{long}\n| {long}"));
    assert_eq!(join_variants(&parts, "  ", &plain), format!("{long}\n  | {long}"));
    let short = vec!["a".to_string(), "b".to_string()];
    assert_eq!(join_variants(&short, "", &plain), "a | b");
    assert_eq!(join_variants(&vec![], "", &plain), "");
    // 80 columns just fit.
    let half = vec!["x".repeat(38), "y".repeat(39)];
    assert_eq!(join_variants(&half, "", &plain), format!("{} | {}", half[0], half[1]));
    assert!(join_variants(&half, "  ", &plain).contains('\n'));
}

#[test]
fn usage_is_gathered_by_name() {
    let r = root(
        r##"{ "title": "Top", "type": "object",
              "properties": { "a": { "$ref": "#/definitions/A" } },
              "definitions": {
                "A": { "type": "array", "items": { "$ref": "#/definitions/B" } },
                "B": { "oneOf": [{ "$ref": "#/definitions/B" }, { "$ref": "#/definitions/A" }] }
              } }"##,
    );
    let map = build_usage_map(&r, "top");
    assert_eq!(map.get("A").unwrap().names, vec!["B", "top"]);
    assert_eq!(map.get("B").unwrap().names, vec!["A", "B"]);
    assert!(map.get("C").is_none());
}

const LEGEND: &str = "# [foo] = optional   <Type> = named ref   | = alternative\n\
    # (default: X) = default value   (tagged on `f`) = discriminator field\n\n";

const DISK: &str = r##"{
    "title": "DiskCreate", "type": "object", "required": ["description", "name", "size"],
    "properties": {
        "description": { "type": "string" },
        "name": { "$ref": "#/definitions/Name" },
        "size": { "allOf": [{ "$ref": "#/definitions/ByteCount" }] },
        "disk_source": { "anyOf": [{ "$ref": "#/definitions/DiskSource" }, { "type": "null" }] }
    },
    "definitions": {
        "Name": { "type": "string" },
        "Unused": { "type": "string" },
        "ByteCount": { "type": "integer", "format": "uint64" },
        "BlockSize": { "type": "integer", "default": 512 },
        "DiskSource": { "oneOf": [
            { "type": "object", "required": ["block_size", "type"],
              "properties": { "block_size": { "$ref": "#/definitions/BlockSize" },
                              "type": { "type": "string", "enum": ["blank"] } } },
            { "type": "object", "required": ["snapshot_id", "type"],
              "properties": { "snapshot_id": { "type": "string", "format": "uuid" },
                              "type": { "type": "string", "enum": ["snapshot"] } } }
        ] }
    }
}"##;

#[test]
fn grammar_of_a_disk() {
    let expected = String::from(LEGEND)
        + "disk_create ::=  (root)\n\
           {\n\
           \x20 description:    String\n\
           \x20 name:           <Name>\n\
           \x20 size:           <ByteCount>\n\
           \x20 [disk_source]:  <DiskSource>\n\
           }\n\
           \nByteCount ::=  (used by: disk_create)\nuint64\n\
           \nDiskSource ::=  (used by: disk_create)  (tagged on `type`)\n\
           \x20 { type: \"blank\", block_size: <BlockSize> }\n\
           | { type: \"snapshot\", snapshot_id: Uuid }\n\
           \nBlockSize ::=  (used by: DiskSource)\nInteger\n\
           \nName ::=  (used by: disk_create)\nString\n";
    assert_eq!(render_body_schema(&root(DISK), false), expected);
}

// Colours only decorate: without the escapes, the text is the plain one.
#[test]
fn grammar_in_colour_reads_the_same() {
    let r = root(DISK);
    let coloured = render_body_schema(&r, true);
    let mut bare = String::new();
    let mut inside = false;
    for c in coloured.chars() {
        if inside {
            inside = !c.is_ascii_alphabetic();
        } else if c == '\u{1b}' {
            inside = true;
        } else {
            bare.push(c);
        }
    }
    assert_ne!(coloured, bare);
    assert_eq!(bare, render_body_schema(&r, false));
    assert!(coloured.contains("\u{1b}[1mdisk_create\u{1b}[0m \u{1b}[2m::=\u{1b}[0m"));
}

// Values other than strings never bring an escape into the grammar.
#[test]
fn values_bring_no_escape() {
    let r = root(
        r#"{ "title": "T", "type": "object", "properties": {
            "a": { "type": "array", "default": ["\u001b[1m"] },
            "b": { "enum": [["\u001b"], { "\u001b": 1 }] } } }"#,
    );
    let plain = render_body_schema(&r, false);
    assert!(!plain.contains('\u{1b}'));
    assert!(plain.contains(r#"(default: ["\u001b[1m"])"#));
    assert!(plain.contains(r#"["\u001b"] | {"\u001b":1}"#));
}

#[test]
fn grammar_without_title_or_definitions() {
    let expected = String::from(LEGEND) + "request ::=  (root)\nString | Integer\n";
    let r = root(r#"{ "anyOf": [{ "type": "string" }, { "type": "integer" }] }"#);
    assert_eq!(render_body_schema(&r, false), expected);

    let missing = root(r##"{ "$ref": "#/definitions/Gone" }"##);
    let expected = String::from(LEGEND) + "request ::=  (root)\n<Gone>\n";
    assert_eq!(render_body_schema(&missing, false), expected);

    let anything = root(r##"{ "$ref": "#/definitions/Any", "definitions": { "Any": true } }"##);
    let expected = String::from(LEGEND) + "request ::=  (root)\n<Any>\n\nAny ::= any\n";
    assert_eq!(render_body_schema(&anything, false), expected);
}

#[test]
fn grammar_counts_further_users() {
    let r = root(
        r##"{ "type": "object",
              "properties": { "a": { "$ref": "#/definitions/A" }, "b": { "$ref": "#/definitions/B" },
                              "c": { "$ref": "#/definitions/C" }, "d": { "$ref": "#/definitions/D" } },
              "definitions": {
                "A": { "$ref": "#/definitions/D" }, "B": { "$ref": "#/definitions/D" },
                "C": { "$ref": "#/definitions/D" },
                "D": { "type": "array", "items": { "$ref": "#/definitions/D" } }
              } }"##,
    );
    let text = render_body_schema(&r, false);
    assert!(text.contains("\nD ::=  (used by: A, B, C, +1 more)\n[<D>, ...]\n"));
    assert_eq!(text.matches("\nD ::=").count(), 1);
}

// Arms that do not fit on a line each are shown as blocks, the tag first.
#[test]
fn grammar_falls_back_to_blocks() {
    let wide = "w".repeat(80);
    let text = format!(
        r#"{{ "title": "U", "oneOf": [
            {{ "type": "object", "required": ["{wide}", "z"], "properties": {{
                "{wide}": {{ "type": "string" }}, "z": {{ "enum": ["one"] }} }} }},
            {{ "type": "object", "required": ["z"], "properties": {{ "z": {{ "enum": ["two"] }} }} }}
        ] }}"#
    );
    let pad = " ".repeat(79);
    let expected = String::from(LEGEND)
        + "u ::=  (root)  (tagged on `z`)\n{\n"
        + &format!("  z:{pad}  \"one\"\n  {wide}:  String\n}}\n| {{\n  z:  \"two\"\n}}\n");
    assert_eq!(render_body_schema(&root(&text), false), expected);
}

#[test]
fn names_stay_in_order() {
    let mut set = NameSet::new();
    for name in ["b", "a", "c", "a", "ab", ""] {
        set.insert(name.to_string());
    }
    assert_eq!(set.names, vec!["", "a", "ab", "b", "c"]);
    assert!(set.contains("ab"));
    assert!(!set.contains("d"));
    let mut map: NameMap<u8> = NameMap::new();
    map.insert("b".to_string(), 1);
    map.insert("a".to_string(), 2);
    map.insert("b".to_string(), 3);
    assert_eq!(map.entries, vec![("a".to_string(), 2), ("b".to_string(), 3)]);
    assert_eq!(map.get("b"), Some(&3));
    assert_eq!(map.get("c"), None);
}
