//! JSON values.

use crate::names::{ascending, find, keys, lemma_find, lemma_find_at, NameMap};
use crate::text::cat3;
use vstd::prelude::*;

verus! {

/// `serde_json::Number`, carried through unread.
#[verifier::external_type_specification]
#[verifier::external_body]
pub struct ExNumber(serde_json::Number);

/// `serde_json::Value`, to which a `Json` is turned where its text is needed.
#[verifier::external_type_specification]
#[verifier::external_body]
pub struct ExValue(serde_json::Value);

/// `serde_json::Map`, in which the members of an object are handed over.
#[verifier::external_type_specification]
#[verifier::external_body]
#[verifier::reject_recursive_types(K)]
#[verifier::reject_recursive_types(V)]
pub struct ExMembers<K, V>(serde_json::Map<K, V>);

/// The derived `clone` of `serde_json::Number` gives the same number.
pub assume_specification[ <serde_json::Number as std::clone::Clone>::clone ](
    n: &serde_json::Number,
) -> (r: serde_json::Number)
    ensures
        r == *n,
;

/// The number that `serde_json::Number::from` makes of the integer `n`.
pub uninterp spec fn json_integer(n: i32) -> serde_json::Number;

/// What a `serde_json::Value` holds.
pub uninterp spec fn json_holds(j: serde_json::Value) -> JsonView;

/// The members of an object, as they are handed over.
pub type Members = serde_json::Map<String, serde_json::Value>;

/// What a `serde_json::Map` holds, by name.
pub uninterp spec fn members_hold(m: Members) -> Map<Seq<char>, JsonView>;

/// The compact text that `serde_json::Value::to_string` gives a value.
pub uninterp spec fn json_text(j: JsonView) -> Seq<char>;

/// A JSON value. An object keeps its members in ascending order of their names.
#[derive(Debug, PartialEq)]
pub enum Json {
    Null,
    Bool(bool),
    Number(serde_json::Number),
    String(String),
    Array(Vec<Json>),
    Object(NameMap<Json>),
}

/// What a JSON value is: an object is a map from names to values.
#[verifier::ext_equal]
pub enum JsonView {
    Null,
    Bool(bool),
    Number(serde_json::Number),
    String(Seq<char>),
    Array(Seq<JsonView>),
    Object(Map<Seq<char>, JsonView>),
}

/// What `v` holds.
pub open spec fn json_view(v: Json) -> JsonView
    decreases v,
{
    match v {
        Json::Null => JsonView::Null,
        Json::Bool(b) => JsonView::Bool(b),
        Json::Number(n) => JsonView::Number(n),
        Json::String(s) => JsonView::String(s@),
        Json::Array(items) => JsonView::Array(items_view(items@)),
        Json::Object(members) => JsonView::Object(members_view(members.entries@)),
    }
}

/// What the values of `items` hold, in order.
pub open spec fn items_view(items: Seq<Json>) -> Seq<JsonView>
    decreases items,
{
    Seq::new(
        items.len(),
        |i: int|
            if 0 <= i < items.len() {
                json_view(items[i])
            } else {
                JsonView::Null
            },
    )
}

/// The members of an object, as a map.
pub open spec fn members_view(members: Seq<(String, Json)>) -> Map<Seq<char>, JsonView>
    decreases members,
{
    if members.len() == 0 {
        Map::empty()
    } else {
        members_view(members.drop_last()).insert(
            members.last().0@,
            json_view(members.last().1),
        )
    }
}

impl View for Json {
    type V = JsonView;

    open spec fn view(&self) -> JsonView {
        json_view(*self)
    }
}

/// What the parts of a value hold.
pub broadcast proof fn lemma_json_view(v: Json)
    ensures
        (#[trigger] json_view(v)) == match v {
            Json::Null => JsonView::Null,
            Json::Bool(b) => JsonView::Bool(b),
            Json::Number(n) => JsonView::Number(n),
            Json::String(s) => JsonView::String(s@),
            Json::Array(items) => JsonView::Array(items_view(items@)),
            Json::Object(members) => JsonView::Object(members_view(members.entries@)),
        },
{
}

/// An object with distinct names holds, under each name, what its member holds.
pub proof fn lemma_members(members: Seq<(String, Json)>, name: Seq<char>)
    requires
        ascending(keys(members)),
    ensures
        members_view(members).dom().contains(name) <==> find(members, name) is Some,
        find(members, name) matches Some(i) ==> members_view(members)[name] == json_view(
            members[i].1,
        ),
    decreases members.len(),
{
    if members.len() > 0 {
        let init = members.drop_last();
        assert(keys(init) =~= keys(members).drop_last());
        lemma_members(init, name);
        lemma_find(members, name);
        lemma_find(init, name);
        lemma_find_at(members, members.len() - 1);
    }
}

/// Putting a member into an object, over the one with its name where there is one.
pub fn set_member(members: &mut NameMap<Json>, name: String, value: Json)
    requires
        old(members).wf(),
    ensures
        final(members).wf(),
        members_view(final(members).entries@) == members_view(old(members).entries@).insert(
            name@,
            value@,
        ),
{
    let ghost text = name@;
    let ghost held = value@;
    members.insert(name, value);
    proof {
        let before = old(members).entries@;
        let after = members.entries@;
        let a = members_view(after);
        let b = members_view(before).insert(text, held);
        assert forall|n: Seq<char>| #[trigger] a.dom().contains(n) == b.dom().contains(n) by {
            lemma_members(after, n);
            lemma_members(before, n);
            assert(members.at(n) == if n == text {
                Some(value)
            } else {
                old(members).at(n)
            });
        }
        assert forall|n: Seq<char>| #[trigger] a.dom().contains(n) implies a[n] == b[n] by {
            lemma_members(after, n);
            lemma_members(before, n);
            assert(members.at(n) == if n == text {
                Some(value)
            } else {
                old(members).at(n)
            });
        }
        assert(a =~= b);
    }
}

impl Clone for Json {
    /// A copy of the value.
    fn clone(&self) -> (r: Json)
        ensures
            r@ == self@,
        decreases *self,
    {
        broadcast use lemma_json_view;

        match self {
            Json::Null => Json::Null,
            Json::Bool(b) => Json::Bool(*b),
            Json::Number(n) => Json::Number(n.clone()),
            Json::String(s) => Json::String(s.clone()),
            Json::Array(items) => {
                let mut copies: Vec<Json> = Vec::new();
                let mut i: usize = 0;
                while i < items.len()
                    invariant
                        self matches Json::Array(all) && all == items,
                        i <= items.len(),
                        copies.len() == i,
                        forall|k: int| 0 <= k < i ==> json_view(copies@[k]) == json_view(items@[k]),
                    decreases items.len() - i,
                {
                    assert(decreases_to!(*self => items@[i as int]));
                    copies.push(items[i].clone());
                    i += 1;
                }
                assert(items_view(copies@) =~= items_view(items@));
                Json::Array(copies)
            },
            Json::Object(members) => {
                let mut copies: Vec<(String, Json)> = Vec::new();
                let mut i: usize = 0;
                while i < members.entries.len()
                    invariant
                        self matches Json::Object(all) && all == members,
                        i <= members.entries.len(),
                        copies.len() == i,
                        members_view(copies@) == members_view(members.entries@.take(i as int)),
                    decreases members.entries.len() - i,
                {
                    assert(decreases_to!(*self => members.entries@[i as int].1));
                    let ghost before = copies@;
                    let ghost upto = members.entries@.take(i + 1);
                    copies.push((members.entries[i].0.clone(), members.entries[i].1.clone()));
                    assert(copies@.drop_last() =~= before);
                    assert(upto.drop_last() =~= members.entries@.take(i as int));
                    i += 1;
                }
                assert(members.entries@.take(members.entries.len() as int) =~= members.entries@);
                Json::Object(NameMap { entries: copies })
            },
        }
    }
}

impl Json {
    /// Whether the value is `null`.
    pub fn is_null(&self) -> (r: bool)
        ensures
            r == (self@ is Null),
    {
        matches!(self, Json::Null)
    }
}

/// `serde_json::Number::from` on an integer: the number that stands for it.
#[verifier::external_body]
fn number_from(n: i32) -> (r: serde_json::Number)
    ensures
        r == json_integer(n),
{
    serde_json::Number::from(n)
}

/// What the values of `items` hold, in order.
pub open spec fn items_hold(items: Seq<serde_json::Value>) -> Seq<JsonView> {
    Seq::new(items.len(), |i: int| json_holds(items[i]))
}

/// `serde_json::Value::Null` holds `null`.
#[verifier::external_body]
fn serde_null() -> (r: serde_json::Value)
    ensures
        json_holds(r) == JsonView::Null,
{
    serde_json::Value::Null
}

/// `serde_json::Value::Bool` holds its boolean.
#[verifier::external_body]
fn serde_bool(b: bool) -> (r: serde_json::Value)
    ensures
        json_holds(r) == JsonView::Bool(b),
{
    serde_json::Value::Bool(b)
}

/// `serde_json::Value::Number` holds its number.
#[verifier::external_body]
fn serde_number(n: serde_json::Number) -> (r: serde_json::Value)
    ensures
        json_holds(r) == JsonView::Number(n),
{
    serde_json::Value::Number(n)
}

/// `serde_json::Value::String` holds its string.
#[verifier::external_body]
fn serde_string(s: String) -> (r: serde_json::Value)
    ensures
        json_holds(r) == JsonView::String(s@),
{
    serde_json::Value::String(s)
}

/// `serde_json::Value::Array` holds its items in order.
#[verifier::external_body]
fn serde_array(items: Vec<serde_json::Value>) -> (r: serde_json::Value)
    ensures
        json_holds(r) == JsonView::Array(items_hold(items@)),
{
    serde_json::Value::Array(items)
}

/// `serde_json::Value::Object` holds its members.
#[verifier::external_body]
fn serde_object(members: Members) -> (r: serde_json::Value)
    ensures
        json_holds(r) == JsonView::Object(members_hold(members)),
{
    serde_json::Value::Object(members)
}

/// An object without members.
pub open spec fn no_members() -> Map<Seq<char>, JsonView> {
    Map::empty()
}

/// `serde_json::Map::new` makes a map that holds nothing.
#[verifier::external_body]
fn members_new() -> (r: Members)
    ensures
        members_hold(r) == no_members(),
{
    serde_json::Map::new()
}

/// `serde_json::Map::insert` puts a value under a name, over the one that was there.
#[verifier::external_body]
fn members_insert(members: &mut Members, name: String, value: serde_json::Value)
    ensures
        members_hold(*final(members)) == members_hold(*old(members)).insert(
            name@,
            json_holds(value),
        ),
{
    members.insert(name, value);
}

/// Turns a value into the `serde_json::Value` that holds the same.
pub fn to_serde(v: &Json) -> (r: serde_json::Value)
    ensures
        json_holds(r) == v@,
    decreases *v,
{
    broadcast use lemma_json_view;

    match v {
        Json::Null => serde_null(),
        Json::Bool(b) => serde_bool(*b),
        Json::Number(n) => serde_number(n.clone()),
        Json::String(s) => serde_string(s.clone()),
        Json::Array(items) => {
            let mut out: Vec<serde_json::Value> = Vec::new();
            let mut i: usize = 0;
            while i < items.len()
                invariant
                    v matches Json::Array(all) && all == items,
                    i <= items.len(),
                    out.len() == i,
                    forall|k: int| 0 <= k < i ==> json_holds(out@[k]) == json_view(items@[k]),
                decreases items.len() - i,
            {
                assert(decreases_to!(*v => items@[i as int]));
                out.push(to_serde(&items[i]));
                i += 1;
            }
            assert(items_hold(out@) =~= items_view(items@));
            serde_array(out)
        },
        Json::Object(members) => {
            let mut out = members_new();
            let mut i: usize = 0;
            while i < members.entries.len()
                invariant
                    v matches Json::Object(all) && all == members,
                    i <= members.entries.len(),
                    members_hold(out) == members_view(members.entries@.take(i as int)),
                decreases members.entries.len() - i,
            {
                assert(decreases_to!(*v => members.entries@[i as int].1));
                assert(members.entries@.take(i + 1).drop_last() =~= members.entries@.take(
                    i as int,
                ));
                members_insert(
                    &mut out,
                    members.entries[i].0.clone(),
                    to_serde(&members.entries[i].1),
                );
                i += 1;
            }
            assert(members.entries@.take(members.entries.len() as int) =~= members.entries@);
            serde_object(out)
        },
    }
}

/// `serde_json::Value::to_string`: the compact JSON text of the value, which
/// depends on what the value holds alone (the members of an object are written in the
/// order of their names). `null`, `true` and `false` are written as these words, and no
/// character below the blank is written: the strings and names escape them, and nothing
/// stands between the parts but commas and colons.
#[verifier::external_body]
fn serde_text(j: &serde_json::Value) -> (r: String)
    ensures
        r@ == json_text(json_holds(*j)),
        json_holds(*j) is Null ==> r@ == "null"@,
        json_holds(*j) == JsonView::Bool(true) ==> r@ == "true"@,
        json_holds(*j) == JsonView::Bool(false) ==> r@ == "false"@,
        forall|i: int| 0 <= i < r@.len() ==> r@[i] >= ' ',
{
    j.to_string()
}

/// The number zero.
pub open spec fn zero() -> JsonView {
    JsonView::Number(json_integer(0))
}

/// The number zero.
pub fn zero_value() -> (r: Json)
    ensures
        r@ == zero(),
{
    Json::Number(number_from(0))
}

/// What is left of `s` without the control characters below the blank.
pub open spec fn printable(s: Seq<char>) -> Seq<char>
    decreases s.len(),
{
    if s.len() == 0 {
        Seq::empty()
    } else if s.last() >= ' ' {
        printable(s.drop_last()).push(s.last())
    } else {
        printable(s.drop_last())
    }
}

/// No control character is left, and a text without any stays as it is.
pub proof fn lemma_printable(s: Seq<char>)
    ensures
        forall|i: int| 0 <= i < printable(s).len() ==> printable(s)[i] >= ' ',
        (forall|i: int| 0 <= i < s.len() ==> s[i] >= ' ') ==> printable(s) == s,
    decreases s.len(),
{
    if s.len() > 0 {
        let init = s.drop_last();
        let rest = printable(init);
        lemma_printable(init);
        assert forall|i: int| 0 <= i < printable(s).len() implies printable(s)[i] >= ' ' by {
            if i < rest.len() {
                assert(rest[i] >= ' ');
                assert(printable(s)[i] == rest[i]);
            }
        }
        if forall|i: int| 0 <= i < s.len() ==> s[i] >= ' ' {
            assert forall|i: int| 0 <= i < init.len() implies init[i] >= ' ' by {
                assert(init[i] == s[i]);
            }
            assert(s[s.len() - 1] == s.last());
            assert(init.push(s.last()) =~= s);
        }
    }
}

/// How a value is shown: a string between double quotes as it is, any other value by
/// its compact JSON text, which has no control characters to leave out.
pub open spec fn shown(v: JsonView) -> Seq<char> {
    match v {
        JsonView::String(s) => "\""@ + s + "\""@,
        _ => printable(json_text(v)),
    }
}

/// The text by which a value is shown: a string between double quotes as it is,
/// any other value by its compact JSON text.
pub fn display_value(v: &Json) -> (r: String)
    ensures
        r@ == shown(v@),
        !(v@ is String) ==> r@ == json_text(v@),
        v@ is Null ==> r@ == "null"@,
        v@ == JsonView::Bool(true) ==> r@ == "true"@,
        v@ == JsonView::Bool(false) ==> r@ == "false"@,
{
    match v {
        Json::String(s) => cat3("\"", s, "\""),
        _ => {
            let text = serde_text(&to_serde(v));
            proof {
                lemma_printable(text@);
            }
            text
        },
    }
}

} // verus!
