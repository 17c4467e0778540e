//! The properties of object schemas: the order in which they are listed, and the
//! field that tells the arms of a tagged union apart.

use crate::json::Json;
use crate::names::{ascending, find, keys, lemma_find, lemma_find_at};
use crate::schema::{targets, ObjectValidation, Schema};
use crate::text::{same, texts};
use vstd::prelude::*;

verus! {

/// The positions of the properties that `priority` names, in its order.
pub open spec fn priority_hits(props: Seq<(String, Schema)>, priority: Seq<Seq<char>>) -> Seq<int>
    decreases priority.len(),
{
    if priority.len() == 0 {
        Seq::empty()
    } else {
        let init = priority_hits(props, priority.drop_last());
        match find(props, priority.last()) {
            Some(i) => init.push(i),
            None => init,
        }
    }
}

/// The positions of the properties that `priority` does not name and that are
/// required or not as `wanted` says, in order.
pub open spec fn rest_of(
    props: Seq<(String, Schema)>,
    required: Set<Seq<char>>,
    priority: Seq<Seq<char>>,
    wanted: bool,
) -> Seq<int>
    decreases props.len(),
{
    if props.len() == 0 {
        Seq::empty()
    } else {
        let init = rest_of(props.drop_last(), required, priority, wanted);
        let name = props.last().0@;
        if !priority.contains(name) && required.contains(name) == wanted {
            init.push(props.len() - 1)
        } else {
            init
        }
    }
}

/// The positions of an object's properties in the order in which they are
/// listed: those that `priority` names, then the required ones, then the others.
pub open spec fn property_order(
    props: Seq<(String, Schema)>,
    required: Set<Seq<char>>,
    priority: Seq<Seq<char>>,
) -> Seq<int> {
    priority_hits(props, priority) + rest_of(props, required, priority, true) + rest_of(
        props,
        required,
        priority,
        false,
    )
}

/// The listed positions are those of properties.
pub proof fn lemma_order_bounds(
    props: Seq<(String, Schema)>,
    required: Set<Seq<char>>,
    priority: Seq<Seq<char>>,
)
    ensures
        forall|j: int|
            0 <= j < property_order(props, required, priority).len() ==> 0
                <= #[trigger] property_order(props, required, priority)[j] < props.len(),
{
    lemma_hits_bounds(props, priority);
    lemma_rest_bounds(props, required, priority, true);
    lemma_rest_bounds(props, required, priority, false);
}

proof fn lemma_hits_bounds(props: Seq<(String, Schema)>, priority: Seq<Seq<char>>)
    ensures
        forall|j: int|
            0 <= j < priority_hits(props, priority).len() ==> 0 <= #[trigger] priority_hits(
                props,
                priority,
            )[j] < props.len(),
    decreases priority.len(),
{
    if priority.len() > 0 {
        lemma_hits_bounds(props, priority.drop_last());
        lemma_find(props, priority.last());
        let all = priority_hits(props, priority);
        let init = priority_hits(props, priority.drop_last());
        assert forall|j: int| 0 <= j < all.len() implies 0 <= #[trigger] all[j] < props.len() by {
            if j < init.len() {
                assert(all[j] == init[j]);
            }
        }
    }
}

proof fn lemma_rest_bounds(
    props: Seq<(String, Schema)>,
    required: Set<Seq<char>>,
    priority: Seq<Seq<char>>,
    wanted: bool,
)
    ensures
        forall|j: int|
            0 <= j < rest_of(props, required, priority, wanted).len() ==> 0
                <= #[trigger] rest_of(props, required, priority, wanted)[j] < props.len(),
    decreases props.len(),
{
    if props.len() > 0 {
        lemma_rest_bounds(props.drop_last(), required, priority, wanted);
        let all = rest_of(props, required, priority, wanted);
        let init = rest_of(props.drop_last(), required, priority, wanted);
        assert forall|j: int| 0 <= j < all.len() implies 0 <= #[trigger] all[j] < props.len() by {
            if j < init.len() {
                assert(all[j] == init[j]);
            }
        }
    }
}

/// The properties that are required, or not, as `wanted` says are among those listed.
proof fn lemma_rest_covers(
    props: Seq<(String, Schema)>,
    required: Set<Seq<char>>,
    priority: Seq<Seq<char>>,
    wanted: bool,
    i: int,
)
    requires
        0 <= i < props.len(),
        !priority.contains(props[i].0@),
        required.contains(props[i].0@) == wanted,
    ensures
        rest_of(props, required, priority, wanted).contains(i),
    decreases props.len(),
{
    let all = rest_of(props, required, priority, wanted);
    let init = rest_of(props.drop_last(), required, priority, wanted);
    if i < props.len() - 1 {
        lemma_rest_covers(props.drop_last(), required, priority, wanted, i);
        let j = choose|j: int| 0 <= j < init.len() && init[j] == i;
        assert(all[j] == i);
    } else {
        assert(all[init.len() as int] == i);
    }
}

/// Without a priority, every property is listed.
pub proof fn lemma_order_covers(
    props: Seq<(String, Schema)>,
    required: Set<Seq<char>>,
    i: int,
)
    requires
        0 <= i < props.len(),
    ensures
        property_order(props, required, Seq::empty()).contains(i),
{
    let none = Seq::<Seq<char>>::empty();
    let wanted = required.contains(props[i].0@);
    lemma_rest_covers(props, required, none, wanted, i);
    let part = rest_of(props, required, none, wanted);
    let j = choose|j: int| 0 <= j < part.len() && part[j] == i;
    let all = property_order(props, required, none);
    if wanted {
        assert(all[j] == i);
    } else {
        assert(all[rest_of(props, required, none, true).len() + j] == i);
    }
}

/// The properties that `priority` names are listed once each.
proof fn lemma_hits_once(props: Seq<(String, Schema)>, priority: Seq<Seq<char>>)
    requires
        priority.no_duplicates(),
    ensures
        priority_hits(props, priority).no_duplicates(),
        forall|j: int|
            0 <= j < priority_hits(props, priority).len() ==> priority.contains(
                props[#[trigger] priority_hits(props, priority)[j]].0@,
            ),
    decreases priority.len(),
{
    if priority.len() > 0 {
        let less = priority.drop_last();
        let init = priority_hits(props, less);
        let all = priority_hits(props, priority);
        let name = priority.last();
        lemma_hits_once(props, less);
        lemma_find(props, name);
        assert forall|j: int| 0 <= j < all.len() implies priority.contains(
            props[#[trigger] all[j]].0@,
        ) by {
            if j < init.len() {
                assert(all[j] == init[j]);
                let k = choose|k: int| 0 <= k < less.len() && less[k] == props[init[j]].0@;
                assert(priority[k] == props[all[j]].0@);
            } else {
                assert(priority[priority.len() - 1] == props[all[j]].0@);
            }
        }
        assert forall|i: int, j: int| 0 <= i < j < all.len() implies all[i] != all[j] by {
            if j < init.len() {
                assert(init[i] != init[j]);
            } else if all[i] == all[j] {
                assert(all[i] == init[i]);
                let k = choose|k: int| 0 <= k < less.len() && less[k] == props[init[i]].0@;
                assert(priority[k] == priority[priority.len() - 1]);
            }
        }
    }
}

/// The rest is listed in ascending order, and holds what `priority` does not name and
/// what is required or not as `wanted` says.
proof fn lemma_rest_once(
    props: Seq<(String, Schema)>,
    required: Set<Seq<char>>,
    priority: Seq<Seq<char>>,
    wanted: bool,
)
    ensures
        forall|i: int, j: int|
            0 <= i < j < rest_of(props, required, priority, wanted).len() ==> (
            #[trigger] rest_of(props, required, priority, wanted)[i]) < (#[trigger] rest_of(
                props,
                required,
                priority,
                wanted,
            )[j]),
        forall|j: int|
            0 <= j < rest_of(props, required, priority, wanted).len() ==> {
                let name = props[#[trigger] rest_of(props, required, priority, wanted)[j]].0@;
                !priority.contains(name) && required.contains(name) == wanted
            },
    decreases props.len(),
{
    if props.len() > 0 {
        let less = props.drop_last();
        let init = rest_of(less, required, priority, wanted);
        let all = rest_of(props, required, priority, wanted);
        lemma_rest_once(less, required, priority, wanted);
        lemma_rest_bounds(less, required, priority, wanted);
        assert forall|i: int, j: int| 0 <= i < j < all.len() implies (#[trigger] all[i]) < (
        #[trigger] all[j]) by {
            assert(all[i] == init[i]);
            if j < init.len() {
                assert(all[j] == init[j]);
            }
        }
        assert forall|j: int| 0 <= j < all.len() implies ({
            let name = props[#[trigger] all[j]].0@;
            !priority.contains(name) && required.contains(name) == wanted
        }) by {
            if j < init.len() {
                assert(all[j] == init[j]);
                assert(less[init[j]] == props[init[j]]);
            }
        }
    }
}

/// Every property is listed, and none twice.
pub proof fn lemma_order_lists_each_once(
    props: Seq<(String, Schema)>,
    required: Set<Seq<char>>,
    priority: Seq<Seq<char>>,
)
    requires
        ascending(keys(props)),
        priority.no_duplicates(),
    ensures
        property_order(props, required, priority).no_duplicates(),
        forall|i: int|
            0 <= i < props.len() ==> #[trigger] property_order(props, required, priority).contains(
                i,
            ),
{
    let hits = priority_hits(props, priority);
    let req = rest_of(props, required, priority, true);
    let opt = rest_of(props, required, priority, false);
    let all = property_order(props, required, priority);
    lemma_hits_once(props, priority);
    lemma_rest_once(props, required, priority, true);
    lemma_rest_once(props, required, priority, false);
    assert forall|i: int, j: int| 0 <= i < j < all.len() implies all[i] != all[j] by {
        let a = hits.len() as int;
        let b = a + req.len();
        if j < a {
            assert(hits[i] != hits[j]);
        } else if j < b {
            assert(all[j] == req[j - a]);
            if i < a {
                assert(all[i] == hits[i]);
            } else {
                assert(req[i - a] < req[j - a]);
            }
        } else {
            assert(all[j] == opt[j - b]);
            if i < a {
                assert(all[i] == hits[i]);
            } else if i < b {
                assert(all[i] == req[i - a]);
            } else {
                assert(opt[i - b] < opt[j - b]);
            }
        }
    }
    assert forall|i: int| 0 <= i < props.len() implies #[trigger] all.contains(i) by {
        let name = props[i].0@;
        if priority.contains(name) {
            lemma_find_at(props, i);
            let k = choose|k: int| 0 <= k < priority.len() && priority[k] == name;
            lemma_hits_cover(props, priority, k);
            let j = choose|j: int| 0 <= j < hits.len() && hits[j] == i;
            assert(all[j] == i);
        } else {
            let wanted = required.contains(name);
            lemma_rest_covers(props, required, priority, wanted, i);
            if wanted {
                let j = choose|j: int| 0 <= j < req.len() && req[j] == i;
                assert(all[hits.len() + j] == i);
            } else {
                let j = choose|j: int| 0 <= j < opt.len() && opt[j] == i;
                assert(all[hits.len() + req.len() + j] == i);
            }
        }
    }
}

/// A property that `priority` names is listed.
proof fn lemma_hits_cover(props: Seq<(String, Schema)>, priority: Seq<Seq<char>>, k: int)
    requires
        0 <= k < priority.len(),
    ensures
        find(props, priority[k]) matches Some(i) ==> priority_hits(props, priority).contains(i),
    decreases priority.len(),
{
    let init = priority_hits(props, priority.drop_last());
    let all = priority_hits(props, priority);
    if let Some(i) = find(props, priority[k]) {
        if k < priority.len() - 1 {
            lemma_hits_cover(props, priority.drop_last(), k);
            let j = choose|j: int| 0 <= j < init.len() && init[j] == i;
            assert(all[j] == i);
        } else {
            assert(all[init.len() as int] == i);
        }
    }
}

/// Without a priority, required properties come before optional ones, and each kind in
/// the order of the names.
pub proof fn lemma_required_before_optional(
    props: Seq<(String, Schema)>,
    required: Set<Seq<char>>,
    i: int,
    j: int,
)
    requires
        0 <= i < j < property_order(props, required, Seq::empty()).len(),
    ensures
        ({
            let order = property_order(props, required, Seq::empty());
            let first = required.contains(props[order[i]].0@);
            let second = required.contains(props[order[j]].0@);
            (second ==> first) && (first == second ==> order[i] < order[j])
        }),
{
    let none = Seq::<Seq<char>>::empty();
    let order = property_order(props, required, none);
    let req = rest_of(props, required, none, true);
    let opt = rest_of(props, required, none, false);
    lemma_rest_once(props, required, none, true);
    lemma_rest_once(props, required, none, false);
    assert(order =~= req + opt);
    if j < req.len() {
        assert(order[i] == req[i] && order[j] == req[j]);
    } else if i < req.len() {
        assert(order[i] == req[i] && order[j] == opt[j - req.len()]);
    } else {
        assert(order[i] == opt[i - req.len()] && order[j] == opt[j - req.len()]);
    }
}

/// `r` lists the properties of `ov` at the positions `order`, each with whether
/// it is required.
pub open spec fn lists(
    r: Seq<(&String, &Schema, bool)>,
    ov: ObjectValidation,
    order: Seq<int>,
) -> bool {
    &&& r.len() == order.len()
    &&& forall|j: int|
        #![trigger r[j]]
        0 <= j < r.len() ==> {
            &&& *r[j].0 == ov.properties.entries@[order[j]].0
            &&& *r[j].1 == ov.properties.entries@[order[j]].1
            &&& r[j].2 == ov.required@.contains(r[j].0@)
        }
}

/// Lists the properties of an object: those that `priority` names first, in its
/// order; then the required ones; then the others.
pub fn order_properties<'a>(ov: &'a ObjectValidation, priority: &Vec<String>) -> (r: Vec<
    (&'a String, &'a Schema, bool),
>)
    ensures
        lists(
            r@,
            *ov,
            property_order(ov.properties.entries@, ov.required@, texts(priority@)),
        ),
{
    let props = &ov.properties.entries;
    let ghost entries = ov.properties.entries@;
    let ghost first = texts(priority@);
    let mut out: Vec<(&'a String, &'a Schema, bool)> = Vec::new();
    let mut p: usize = 0;
    while p < priority.len()
        invariant
            p <= priority.len(),
            first == texts(priority@),
            entries == ov.properties.entries@,
            props == ov.properties.entries,
            lists(out@, *ov, priority_hits(entries, first.take(p as int))),
        decreases priority.len() - p,
    {
        assert(first.take(p + 1).drop_last() =~= first.take(p as int));
        assert(first.take(p + 1).last() == priority@[p as int]@);
        if let Some(i) = ov.properties.position(&priority[p]) {
            let is_required = ov.required.contains(&props[i].0);
            out.push((&props[i].0, &props[i].1, is_required));
        }
        p += 1;
    }
    assert(first.take(priority.len() as int) =~= first);
    let mut optional: Vec<(&'a String, &'a Schema, bool)> = Vec::new();
    let ghost hits = priority_hits(entries, first);
    let mut k: usize = 0;
    while k < props.len()
        invariant
            k <= props.len(),
            first == texts(priority@),
            entries == ov.properties.entries@,
            props == ov.properties.entries,
            lists(
                out@,
                *ov,
                hits + rest_of(entries.take(k as int), ov.required@, first, true),
            ),
            lists(
                optional@,
                *ov,
                rest_of(entries.take(k as int), ov.required@, first, false),
            ),
        decreases props.len() - k,
    {
        assert(entries.take(k + 1).drop_last() =~= entries.take(k as int));
        let ghost req = rest_of(entries.take(k as int), ov.required@, first, true);
        assert(hits + req.push(k as int) =~= (hits + req).push(k as int));
        let used = is_among(priority, &props[k].0);
        if !used {
            if ov.required.contains(&props[k].0) {
                out.push((&props[k].0, &props[k].1, true));
            } else {
                optional.push((&props[k].0, &props[k].1, false));
            }
        }
        k += 1;
    }
    assert(entries.take(props.len() as int) =~= entries);
    out.append(&mut optional);
    out
}

/// Whether `name` is one of `names`.
fn is_among(names: &Vec<String>, name: &str) -> (r: bool)
    ensures
        r == texts(names@).contains(name@),
{
    let mut i: usize = 0;
    while i < names.len()
        invariant
            i <= names.len(),
            forall|k: int| 0 <= k < i ==> names@[k]@ != name@,
        decreases names.len() - i,
    {
        if same(&names[i], name) {
            assert(texts(names@)[i as int] == name@);
            return true;
        }
        i += 1;
    }
    false
}

/// `s` allows a single value only, which is a string.
pub open spec fn single_string(s: Schema) -> bool {
    s matches Schema::Object(o) && o.enum_values matches Some(values) && values@.len() == 1
        && values@[0]@ is String
}

/// `name` is a field of the object schema `s` that allows a single string only.
pub open spec fn fixed_field(s: Schema, name: Seq<char>) -> bool {
    s matches Schema::Object(o) && o.object matches Some(ov) && exists|i: int|
        #![trigger ov.properties.entries@[i]]
        0 <= i < ov.properties.entries@.len() && ov.properties.entries@[i].0@ == name
            && single_string(ov.properties.entries@[i].1)
}

/// `name` is such a field in every one of `variants`.
pub open spec fn shared_field(variants: Seq<Schema>, name: Seq<char>) -> bool {
    forall|i: int| 0 <= i < variants.len() ==> #[trigger] fixed_field(variants[i], name)
}

/// `name` is the tag of the union of `variants`: the one field that they share as
/// a fixed string.
pub open spec fn is_tag(variants: Seq<Schema>, name: Seq<char>) -> bool {
    &&& variants.len() > 0
    &&& shared_field(variants, name)
    &&& forall|other: Seq<char>| #[trigger] shared_field(variants, other) ==> other == name
}

/// The tag of the union of `variants`, where it has one.
pub open spec fn tag_of(variants: Seq<Schema>) -> Option<Seq<char>> {
    if exists|name: Seq<char>| is_tag(variants, name) {
        Some(choose|name: Seq<char>| is_tag(variants, name))
    } else {
        None
    }
}

/// Whether `s` allows a single value only, which is a string.
fn is_single_string(s: &Schema) -> (r: bool)
    ensures
        r == single_string(*s),
{
    match s {
        Schema::Object(o) => match &o.enum_values {
            Some(values) => values.len() == 1 && matches!(&values[0], Json::String(_)),
            None => false,
        },
        _ => false,
    }
}

/// Whether `name` is a field of `s` that allows a single string only.
fn has_fixed_field(s: &Schema, name: &str) -> (r: bool)
    ensures
        r == fixed_field(*s, name@),
{
    match s {
        Schema::Object(o) => match &o.object {
            Some(ov) => {
                let props = &ov.properties.entries;
                let mut i: usize = 0;
                while i < props.len()
                    invariant
                        s matches Schema::Object(x) && x.object matches Some(y)
                            && y.properties.entries == props,
                        i <= props.len(),
                        forall|k: int|
                            0 <= k < i ==> !(#[trigger] props@[k].0@ == name@ && single_string(
                                props@[k].1,
                            )),
                    decreases props.len() - i,
                {
                    if same(&props[i].0, name) && is_single_string(&props[i].1) {
                        assert(props@[i as int].0@ == name@);
                        return true;
                    }
                    i += 1;
                }
                false
            },
            None => false,
        },
        _ => false,
    }
}

/// Whether `name` is a fixed field of every one of `variants`.
fn is_shared_field(variants: &[&Schema], name: &str) -> (r: bool)
    ensures
        r == shared_field(targets(variants@), name@),
{
    let mut i: usize = 0;
    while i < variants.len()
        invariant
            i <= variants.len(),
            forall|k: int| 0 <= k < i ==> #[trigger] fixed_field(targets(variants@)[k], name@),
        decreases variants.len() - i,
    {
        if !has_fixed_field(variants[i], name) {
            assert(!fixed_field(targets(variants@)[i as int], name@));
            return false;
        }
        i += 1;
    }
    true
}

/// Detect the discriminator (tag) field of a tagged union: the single field
/// that appears, as a single-value string enum, in every variant. Returns
/// `None` if the variants don't share exactly one such field.
pub fn detect_tag(variants: &[&Schema]) -> (r: Option<String>)
    ensures
        match r {
            Some(t) => is_tag(targets(variants@), t@),
            None => forall|name: Seq<char>| !is_tag(targets(variants@), name),
        },
        tag_of(targets(variants@)) == match r {
            Some(t) => Some(t@),
            None => None,
        },
{
    let ghost all = targets(variants@);
    if variants.len() == 0 {
        return None;
    }
    let first = variants[0];
    assert(all[0] == *first);
    let mut found: Option<String> = None;
    if let Schema::Object(o) = first {
        if let Some(ov) = &o.object {
            let props = &ov.properties.entries;
            let mut i: usize = 0;
            while i < props.len()
                invariant
                    all == targets(variants@),
                    all.len() > 0,
                    all[0] matches Schema::Object(x) && x.object matches Some(y)
                        && y.properties.entries == props,
                    i <= props.len(),
                    found matches Some(f) ==> shared_field(all, f@),
                    forall|k: int|
                        0 <= k < i && #[trigger] shared_field(all, props@[k].0@) && single_string(
                            props@[k].1,
                        ) ==> (found matches Some(f) && f@ == props@[k].0@),
                decreases props.len() - i,
            {
                if is_single_string(&props[i].1) && is_shared_field(variants, &props[i].0) {
                    let name = props[i].0.clone();
                    match &found {
                        Some(f) => {
                            if !same(f, &name) {
                                assert(shared_field(all, f@));
                                assert(shared_field(all, name@));
                                assert(f@ != name@);
                                proof {
                                    assert forall|n: Seq<char>| !is_tag(all, n) by {}
                                }
                                return None;
                            }
                        },
                        None => {
                            found = Some(name);
                        },
                    }
                }
                i += 1;
            }
        }
    }
    proof {
        assert forall|other: Seq<char>| #[trigger]
            shared_field(all, other) implies (found matches Some(f) && f@ == other) by {
            assert(fixed_field(all[0], other));
            let o = all[0]->Object_0;
            let props = o.object->0.properties.entries@;
            let i = choose|i: int|
                #![trigger props[i]]
                0 <= i < props.len() && props[i].0@ == other && single_string(props[i].1);
            assert(shared_field(all, props[i].0@));
        }
        if found is Some {
            assert(is_tag(all, found->0@));
        }
    }
    found
}

} // verus!
