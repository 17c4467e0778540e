//! JSON Schemas and the helpers by which they are traversed.

use crate::json::Json;
use crate::names::{NameMap, NameSet};
use crate::naming::{format_name, snake, snake_case, string_format_name};
use crate::text::copy_text;
use vstd::prelude::*;

verus! {

/// The JSON type that a schema asks for.
#[derive(Debug, Clone, Copy, PartialEq, Eq, Structural)]
pub enum InstanceType {
    Null,
    Boolean,
    Object,
    Array,
    Number,
    String,
    Integer,
}

/// One value, or a list of values.
#[derive(Debug, PartialEq)]
pub enum SingleOrVec<T> {
    Single(Box<T>),
    Vec(Vec<T>),
}

/// A JSON Schema: `true`, `false` or an object.
#[derive(Debug, PartialEq)]
pub enum Schema {
    Bool(bool),
    Object(SchemaObject),
}

/// A JSON Schema object, with the keywords that are read here.
#[derive(Debug, PartialEq)]
pub struct SchemaObject {
    pub metadata: Option<Metadata>,
    pub instance_type: Option<SingleOrVec<InstanceType>>,
    pub format: Option<String>,
    pub enum_values: Option<Vec<Json>>,
    pub subschemas: Option<Box<SubschemaValidation>>,
    pub array: Option<Box<ArrayValidation>>,
    pub object: Option<Box<ObjectValidation>>,
    pub reference: Option<String>,
}

/// Annotations of a schema.
#[derive(Debug, PartialEq)]
pub struct Metadata {
    pub title: Option<String>,
    pub default: Option<Json>,
}

/// `allOf`, `anyOf` and `oneOf`.
#[derive(Debug, PartialEq)]
pub struct SubschemaValidation {
    pub all_of: Option<Vec<Schema>>,
    pub any_of: Option<Vec<Schema>>,
    pub one_of: Option<Vec<Schema>>,
}

/// The schemas of an array's items.
#[derive(Debug, PartialEq)]
pub struct ArrayValidation {
    pub items: Option<SingleOrVec<Schema>>,
}

/// The properties of an object, and which of them are required.
#[derive(Debug, PartialEq)]
pub struct ObjectValidation {
    pub properties: NameMap<Schema>,
    pub required: NameSet,
}

/// A schema definitions map (`definitions`), used to resolve `$ref`s.
pub type Defs = NameMap<Schema>;

/// A schema together with the definitions that it refers to.
#[derive(Debug, PartialEq)]
pub struct RootSchema {
    pub schema: SchemaObject,
    pub definitions: Defs,
}

/// The schema object without any keyword.
pub open spec fn blank_object() -> SchemaObject {
    SchemaObject {
        metadata: None,
        instance_type: None,
        format: None,
        enum_values: None,
        subschemas: None,
        array: None,
        object: None,
        reference: None,
    }
}

impl SchemaObject {
    /// The schema object without any keyword.
    pub fn blank() -> (r: SchemaObject)
        ensures
            r == blank_object(),
    {
        SchemaObject {
            metadata: None,
            instance_type: None,
            format: None,
            enum_values: None,
            subschemas: None,
            array: None,
            object: None,
            reference: None,
        }
    }
}

/// The values that `refs` refer to.
pub open spec fn targets<T>(refs: Seq<&T>) -> Seq<T> {
    Seq::new(refs.len(), |i: int| *refs[i])
}

/// The first type of `types` that is not `null`.
pub open spec fn first_non_null(types: Seq<InstanceType>) -> Option<InstanceType>
    decreases types.len(),
{
    if types.len() == 0 {
        None
    } else if types[0] != InstanceType::Null {
        Some(types[0])
    } else {
        first_non_null(types.skip(1))
    }
}

/// The one type that a schema's instance type stands for.
pub open spec fn one_type(t: Option<SingleOrVec<InstanceType>>) -> Option<InstanceType> {
    match t {
        Some(SingleOrVec::Single(t)) => Some(*t),
        Some(SingleOrVec::Vec(v)) => first_non_null(v@),
        None => None,
    }
}

/// Collapse a schema's instance type to a single `InstanceType`, picking the
/// first non-null entry when the schema lists several.
pub fn instance_type(t: &Option<SingleOrVec<InstanceType>>) -> (r: Option<InstanceType>)
    ensures
        r == one_type(*t),
{
    match t {
        Some(SingleOrVec::Single(t)) => Some(**t),
        Some(SingleOrVec::Vec(v)) => {
            let mut i: usize = 0;
            assert(v@.skip(0) =~= v@);
            while i < v.len()
                invariant
                    one_type(*t) == first_non_null(v@),
                    i <= v.len(),
                    first_non_null(v@) == first_non_null(v@.skip(i as int)),
                decreases v.len() - i,
            {
                assert(v@.skip(i as int).skip(1) =~= v@.skip(i + 1));
                if v[i] != InstanceType::Null {
                    return Some(v[i]);
                }
                i += 1;
            }
            None
        },
        None => None,
    }
}

/// `s` is the `null` schema.
pub open spec fn null_schema(s: Schema) -> bool {
    s matches Schema::Object(o) && one_type(o.instance_type) == Some(InstanceType::Null)
}

/// True if `s` is the `null` schema (its instance type is `null`). Used to
/// filter the nullable arm out of `oneOf`/`anyOf` unions.
pub fn is_null_schema(s: &Schema) -> (r: bool)
    ensures
        r == null_schema(*s),
{
    match s {
        Schema::Object(o) => matches!(instance_type(&o.instance_type), Some(InstanceType::Null)),
        _ => false,
    }
}

/// The arms of the union that a schema object is: those of `oneOf`, else those
/// of `anyOf`.
pub open spec fn union_arms(o: SchemaObject) -> Option<Seq<Schema>> {
    match o.subschemas {
        None => None,
        Some(sub) => match sub.one_of {
            Some(arms) => Some(arms@),
            None => match sub.any_of {
                Some(arms) => Some(arms@),
                None => None,
            },
        },
    }
}

/// The schemas of `arms` that are not the `null` schema, in order.
pub open spec fn non_null(arms: Seq<Schema>) -> Seq<Schema>
    decreases arms.len(),
{
    if arms.len() == 0 {
        Seq::empty()
    } else if null_schema(arms.last()) {
        non_null(arms.drop_last())
    } else {
        non_null(arms.drop_last()).push(arms.last())
    }
}

/// All arms but the `null` schemas are kept, in order.
pub proof fn lemma_non_null_is_filter(arms: Seq<Schema>)
    ensures
        non_null(arms) == arms.filter(|s: Schema| !null_schema(s)),
    decreases arms.len(),
{
    reveal(Seq::filter);
    if arms.len() > 0 {
        lemma_non_null_is_filter(arms.drop_last());
    }
}

/// The arms of the union that `o` is.
fn union_of(o: &SchemaObject) -> (r: Option<&Vec<Schema>>)
    ensures
        match r {
            Some(arms) => union_arms(*o) == Some(arms@) && decreases_to!(*o => arms@),
            None => union_arms(*o) is None,
        },
{
    match &o.subschemas {
        None => None,
        Some(sub) => match &sub.one_of {
            Some(arms) => Some(arms),
            None => match &sub.any_of {
                Some(arms) => Some(arms),
                None => None,
            },
        },
    }
}

/// The `oneOf`/`anyOf` arms of a schema object, with `null` arms removed.
/// Returns `None` when there's no such union.
pub fn non_null_variants(o: &SchemaObject) -> (r: Option<Vec<&Schema>>)
    ensures
        match r {
            Some(v) => union_arms(*o) matches Some(arms) && targets(v@) == non_null(arms),
            None => union_arms(*o) is None,
        },
        r matches Some(v) ==> forall|i: int|
            0 <= i < v.len() ==> decreases_to!(*o => *#[trigger] v[i]),
{
    match union_of(o) {
        None => None,
        Some(arms) => {
            let mut v: Vec<&Schema> = Vec::new();
            let mut i: usize = 0;
            while i < arms.len()
                invariant
                    decreases_to!(*o => arms@),
                    i <= arms.len(),
                    targets(v@) == non_null(arms@.take(i as int)),
                    forall|k: int| 0 <= k < v.len() ==> decreases_to!(*o => *#[trigger] v[k]),
                decreases arms.len() - i,
            {
                assert(arms@.take(i + 1).drop_last() =~= arms@.take(i as int));
                if !is_null_schema(&arms[i]) {
                    let ghost before = v@;
                    assert(decreases_to!(arms@ => arms@[i as int]));
                    v.push(&arms[i]);
                    assert(targets(v@) =~= targets(before).push(arms@[i as int]));
                }
                i += 1;
            }
            assert(arms@.take(arms.len() as int) =~= arms@);
            Some(v)
        },
    }
}

/// `o` is a union with more than one real arm.
pub open spec fn multi_variant(o: SchemaObject) -> bool {
    union_arms(o) matches Some(arms) && non_null(arms).len() > 1
}

/// True when `o` is a union with more than one real arm.
pub fn is_multi_variant(o: &SchemaObject) -> (r: bool)
    ensures
        r == multi_variant(*o),
{
    match non_null_variants(o) {
        Some(v) => {
            assert(targets(v@).len() == v.len());
            v.len() > 1
        },
        None => false,
    }
}

/// The title that `o` has.
pub open spec fn title_of(o: SchemaObject) -> Option<Seq<char>> {
    match o.metadata {
        Some(m) => match m.title {
            Some(t) => Some(t@),
            None => None,
        },
        None => None,
    }
}

/// The display name for a root schema.
pub open spec fn root_name(root: RootSchema) -> Seq<char> {
    match title_of(root.schema) {
        Some(t) => snake(t),
        None => "request"@,
    }
}

/// The title that `o` has.
pub fn title(o: &SchemaObject) -> (r: Option<&String>)
    ensures
        match r {
            Some(t) => title_of(*o) == Some(t@),
            None => title_of(*o) is None,
        },
{
    match &o.metadata {
        Some(m) => match &m.title {
            Some(t) => Some(t),
            None => None,
        },
        None => None,
    }
}

/// The display name for a root schema: its `title` in `snake_case`, falling
/// back to `"request"`.
pub fn root_title(root: &RootSchema) -> (r: String)
    ensures
        r@ == root_name(*root),
{
    match title(&root.schema) {
        Some(t) => snake_case(t),
        None => copy_text("request"),
    }
}

/// The schema that `o` only wraps: the single arm of its `allOf`, else the single
/// real arm of its union.
pub open spec fn wrapped(o: SchemaObject) -> Option<Schema> {
    if o.subschemas matches Some(sub) && sub.all_of matches Some(all) && all@.len() == 1 {
        Some(o.subschemas->0.all_of->0@[0])
    } else if union_arms(o) matches Some(arms) && non_null(arms).len() == 1 {
        Some(non_null(union_arms(o)->0)[0])
    } else {
        None
    }
}

/// A schema that is not the `null` schema, among `arms`, is one of them.
pub proof fn lemma_real_arm(arms: Seq<Schema>, i: int) -> (j: int)
    requires
        0 <= i < non_null(arms).len(),
    ensures
        0 <= j < arms.len(),
        arms[j] == non_null(arms)[i],
    decreases arms.len(),
{
    let init = arms.drop_last();
    if i < non_null(init).len() {
        lemma_real_arm(init, i)
    } else {
        arms.len() - 1
    }
}

/// The schema that `o` only wraps is a part of it.
pub proof fn lemma_wrapped_smaller(o: SchemaObject)
    ensures
        wrapped(o) matches Some(s) ==> decreases_to!(o => s),
{
    if wrapped(o) is Some {
        let sub = o.subschemas->0;
        if sub.all_of is Some && sub.all_of->0@.len() == 1 {
            assert(decreases_to!(o => sub.all_of->0@));
            assert(decreases_to!(sub.all_of->0@ => sub.all_of->0@[0]));
        } else {
            let arms = union_arms(o)->0;
            let j = lemma_real_arm(arms, 0);
            if sub.one_of is Some {
                assert(decreases_to!(o => sub.one_of->0@));
            } else {
                assert(decreases_to!(o => sub.any_of->0@));
            }
            assert(decreases_to!(arms => arms[j]));
        }
    }
}

/// The schema that `o` only wraps: a single-element `allOf` (a carrier of a
/// description) or a union with a single real arm (an optional value).
pub fn transparent_inner(o: &SchemaObject) -> (r: Option<&Schema>)
    ensures
        match r {
            Some(s) => wrapped(*o) == Some(*s) && decreases_to!(*o => *s),
            None => wrapped(*o) is None,
        },
{
    if let Some(sub) = &o.subschemas {
        if let Some(all) = &sub.all_of {
            if all.len() == 1 {
                assert(decreases_to!(*o => all@));
                assert(decreases_to!(all@ => all@[0]));
                return Some(&all[0]);
            }
        }
    }
    match non_null_variants(o) {
        Some(v) => {
            assert(targets(v@).len() == v.len());
            if v.len() == 1 {
                assert(targets(v@)[0] == *v[0]);
                Some(v[0])
            } else {
                None
            }
        },
        None => None,
    }
}

/// The schema that stands for the items of the array `o`.
pub open spec fn item_of(o: SchemaObject) -> Option<Schema> {
    match o.array {
        None => None,
        Some(av) => match av.items {
            Some(SingleOrVec::Single(s)) => Some(*s),
            Some(SingleOrVec::Vec(v)) => if v@.len() > 0 {
                Some(v@[0])
            } else {
                None
            },
            None => None,
        },
    }
}

/// The schema that stands for the items of an array is a part of it.
pub proof fn lemma_item_smaller(o: SchemaObject)
    ensures
        item_of(o) matches Some(s) ==> decreases_to!(o => s),
{
    if item_of(o) is Some {
        if let Some(SingleOrVec::Vec(v)) = o.array->0.items {
            assert(decreases_to!(o => v@));
            assert(decreases_to!(v@ => v@[0]));
        }
    }
}

/// The schema that stands for the items of an array: the items' schema, or the
/// first where the items have one each.
pub fn item_schema(o: &SchemaObject) -> (r: Option<&Schema>)
    ensures
        match r {
            Some(s) => item_of(*o) == Some(*s) && decreases_to!(*o => *s),
            None => item_of(*o) is None,
        },
{
    match &o.array {
        None => None,
        Some(av) => match &av.items {
            Some(SingleOrVec::Single(s)) => Some(&**s),
            Some(SingleOrVec::Vec(v)) => if v.len() > 0 {
                assert(decreases_to!(*o => v@));
                assert(decreases_to!(v@ => v@[0]));
                Some(&v[0])
            } else {
                None
            },
            None => None,
        },
    }
}

/// The format that `o` has.
pub open spec fn format_of(o: SchemaObject) -> Option<Seq<char>> {
    match o.format {
        Some(f) => Some(f@),
        None => None,
    }
}

/// The display name of the scalar type that `o` asks for.
pub open spec fn scalar_name(o: SchemaObject) -> Option<Seq<char>> {
    match one_type(o.instance_type) {
        Some(InstanceType::String) => Some(format_name(format_of(o))),
        Some(InstanceType::Integer) => Some(
            match format_of(o) {
                Some(f) => f,
                None => "Integer"@,
            },
        ),
        Some(InstanceType::Number) => Some("Number"@),
        Some(InstanceType::Boolean) => Some("bool"@),
        Some(InstanceType::Null) => Some("null"@),
        _ => None,
    }
}

/// The display name of a scalar schema's type; `None` for an array, an object or
/// a schema without a type.
pub fn scalar_type_name(o: &SchemaObject) -> (r: Option<String>)
    ensures
        match r {
            Some(t) => scalar_name(*o) == Some(t@),
            None => scalar_name(*o) is None,
        },
{
    match instance_type(&o.instance_type) {
        Some(InstanceType::String) => Some(render_string(o)),
        Some(InstanceType::Integer) => Some(render_integer(o)),
        Some(InstanceType::Number) => Some(copy_text("Number")),
        Some(InstanceType::Boolean) => Some(copy_text("bool")),
        Some(InstanceType::Null) => Some(copy_text("null")),
        _ => None,
    }
}

/// The display name of a string schema.
pub fn render_string(o: &SchemaObject) -> (r: String)
    ensures
        r@ == format_name(format_of(*o)),
{
    match &o.format {
        Some(f) => string_format_name(Some(f.as_str())),
        None => string_format_name(None),
    }
}

/// The display name of an integer schema: its format, else `Integer`.
pub fn render_integer(o: &SchemaObject) -> (r: String)
    ensures
        r@ == match format_of(*o) {
            Some(f) => f,
            None => "Integer"@,
        },
{
    match &o.format {
        Some(f) => f.clone(),
        None => copy_text("Integer"),
    }
}

} // verus!
