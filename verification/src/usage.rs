//! Which types use which: the names that each schema mentions, gathered by the
//! name that is mentioned.

use crate::names::{find, keys, lemma_find, lemma_find_at, lemma_find_by_keys, NameMap, NameSet};
use crate::naming::{ref_name, ref_target};
use crate::schema::{RootSchema, Schema, SchemaObject, SingleOrVec};
use crate::text::texts;
use vstd::prelude::*;

verus! {

/// The names that `s` mentions in its references, at any depth.
pub open spec fn mentioned(s: Schema) -> Set<Seq<char>>
    decreases s, 0int,
{
    match s {
        Schema::Bool(_) => Set::empty(),
        Schema::Object(o) => mentioned_by(o),
    }
}

/// The names that a schema object mentions: the one it refers to, else those that
/// its arms, properties and items mention.
pub open spec fn mentioned_by(o: SchemaObject) -> Set<Seq<char>>
    decreases o, 0int,
{
    if o.reference is Some {
        Set::empty().insert(ref_target(o.reference->0@))
    } else {
        let arms = match o.subschemas {
            None => Set::empty(),
            Some(sub) => mentioned_in(sub.one_of).union(mentioned_in(sub.any_of)).union(
                mentioned_in(sub.all_of),
            ),
        };
        let members = match o.object {
            None => Set::empty(),
            Some(ov) => mentioned_by_members(ov.properties.entries@),
        };
        let items = match o.array {
            None => Set::empty(),
            Some(av) => match av.items {
                Some(SingleOrVec::Single(s)) => mentioned(*s),
                Some(SingleOrVec::Vec(v)) => mentioned_by_all(v@),
                None => Set::empty(),
            },
        };
        arms.union(members).union(items)
    }
}

/// The names that the schemas of a list mention, where there is one.
pub open spec fn mentioned_in(list: Option<Vec<Schema>>) -> Set<Seq<char>>
    decreases list, 0int,
{
    match list {
        Some(v) => mentioned_by_all(v@),
        None => Set::empty(),
    }
}

/// The names that the schemas of `list` mention.
pub open spec fn mentioned_by_all(list: Seq<Schema>) -> Set<Seq<char>>
    decreases list, 0int,
{
    if list.len() == 0 {
        Set::empty()
    } else {
        mentioned_by_all(list.drop_last()).union(mentioned(list.last()))
    }
}

/// The names that the properties `props` mention.
pub open spec fn mentioned_by_members(props: Seq<(String, Schema)>) -> Set<Seq<char>>
    decreases props, 0int,
{
    if props.len() == 0 {
        Set::empty()
    } else {
        mentioned_by_members(props.drop_last()).union(mentioned(props.last().1))
    }
}

/// The names of those of `defs` that mention `name`, and those in `others`.
pub open spec fn users_among(
    defs: Seq<(String, Schema)>,
    name: Seq<char>,
    others: Set<Seq<char>>,
) -> Set<Seq<char>>
    decreases defs.len(),
{
    if defs.len() == 0 {
        others
    } else {
        let init = users_among(defs.drop_last(), name, others);
        if mentioned(defs.last().1).contains(name) {
            init.insert(defs.last().0@)
        } else {
            init
        }
    }
}

/// The types that use `name`: the root, called `top`, and the definitions that
/// mention it.
pub open spec fn users(root: RootSchema, top: Seq<char>, name: Seq<char>) -> Set<Seq<char>> {
    users_among(
        root.definitions.entries@,
        name,
        if mentioned_by(root.schema).contains(name) {
            Set::empty().insert(top)
        } else {
            Set::empty()
        },
    )
}

/// The names that `map` keeps under `name`.
pub open spec fn kept(map: NameMap<NameSet>, name: Seq<char>) -> Set<Seq<char>> {
    match map.at(name) {
        Some(set) => set@,
        None => Set::empty(),
    }
}

/// The map and its sets are in order, and no set is empty.
pub open spec fn in_order(map: NameMap<NameSet>) -> bool {
    &&& map.wf()
    &&& forall|i: int|
        0 <= i < map.entries@.len() ==> (#[trigger] map.entries@[i]).1.wf()
            && map.entries@[i].1.names@.len() > 0
}

/// A set that has a name in it lists one.
proof fn lemma_not_empty(set: NameSet, name: Seq<char>)
    ensures
        set@.contains(name) ==> set.names@.len() > 0,
{
}

/// `after` keeps what `before` keeps, and `user` under each of `names`.
pub open spec fn noted(
    before: NameMap<NameSet>,
    after: NameMap<NameSet>,
    names: Set<Seq<char>>,
    user: Seq<char>,
) -> bool {
    forall|n: Seq<char>| #[trigger]
        kept(after, n) == if names.contains(n) {
            kept(before, n).insert(user)
        } else {
            kept(before, n)
        }
}

proof fn lemma_noted_both(
    a: NameMap<NameSet>,
    b: NameMap<NameSet>,
    c: NameMap<NameSet>,
    first: Set<Seq<char>>,
    second: Set<Seq<char>>,
    user: Seq<char>,
)
    requires
        noted(a, b, first, user),
        noted(b, c, second, user),
    ensures
        noted(a, c, first.union(second), user),
{
    assert forall|n: Seq<char>| #[trigger]
        kept(c, n) == if first.union(second).contains(n) {
            kept(a, n).insert(user)
        } else {
            kept(a, n)
        } by {
        assert(kept(b, n) == kept(b, n));
        assert(kept(a, n).insert(user).insert(user) =~= kept(a, n).insert(user));
    }
}

/// Keeps `user` under `name`.
fn note(map: &mut NameMap<NameSet>, name: String, user: &str)
    requires
        in_order(*old(map)),
    ensures
        in_order(*final(map)),
        noted(*old(map), *final(map), Set::empty().insert(name@), user@),
{
    match map.position(&name) {
        Some(i) => {
            let ghost before = map.entries@;
            let entry = &mut map.entries[i];
            entry.1.insert(user.to_owned());
            proof {
                let after = map.entries@;
                assert(keys(after) =~= keys(before));
                lemma_not_empty(after[i as int].1, user@);
                assert forall|n: Seq<char>| #[trigger]
                    kept(*map, n) == if n == name@ {
                        kept(*old(map), n).insert(user@)
                    } else {
                        kept(*old(map), n)
                    } by {
                    lemma_find(before, n);
                    lemma_find(before, name@);
                    lemma_find_by_keys(before, after, n);
                }
            }
        },
        None => {
            let mut set = NameSet::new();
            set.insert(user.to_owned());
            let ghost text = name@;
            let ghost before = map.entries@;
            map.insert(name, set);
            proof {
                let after = map.entries@;
                lemma_not_empty(set, user@);
                assert forall|i: int| 0 <= i < after.len() implies (#[trigger] after[i]).1.wf()
                    && after[i].1.names@.len() > 0 by {
                    let n = after[i].0@;
                    lemma_find_at(after, i);
                    lemma_find(before, n);
                    assert(map.at(n) == Some(after[i].1));
                }
                assert forall|n: Seq<char>| #[trigger]
                    kept(*map, n) == if n == text {
                        kept(*old(map), n).insert(user@)
                    } else {
                        kept(*old(map), n)
                    } by {
                    assert(map.at(n) == if n == text {
                        Some(set)
                    } else {
                        old(map).at(n)
                    });
                }
            }
        },
    }
}

/// Notes `parent` as a user of each name that `schema` mentions.
pub fn walk_for_refs(schema: &Schema, parent: &str, map: &mut NameMap<NameSet>)
    requires
        in_order(*old(map)),
    ensures
        in_order(*final(map)),
        noted(*old(map), *final(map), mentioned(*schema), parent@),
    decreases *schema, 0int,
{
    match schema {
        Schema::Bool(_) => {},
        Schema::Object(o) => walk_object(o, parent, map),
    }
}

/// Notes `parent` as a user of each name that a schema object mentions.
fn walk_object(o: &SchemaObject, parent: &str, map: &mut NameMap<NameSet>)
    requires
        in_order(*old(map)),
    ensures
        in_order(*final(map)),
        noted(*old(map), *final(map), mentioned_by(*o), parent@),
    decreases *o, 0int,
{
    if let Some(r) = &o.reference {
        note(map, ref_name(r), parent);
        return ;
    }
    let ghost mut names: Set<Seq<char>> = Set::empty();
    assert(noted(*old(map), *map, names, parent@));
    if let Some(sub) = &o.subschemas {
        walk_list(&sub.one_of, parent, map);
        let ghost one = *map;
        walk_list(&sub.any_of, parent, map);
        let ghost any = *map;
        walk_list(&sub.all_of, parent, map);
        proof {
            let a = mentioned_in(sub.one_of);
            let b = mentioned_in(sub.any_of);
            let c = mentioned_in(sub.all_of);
            lemma_noted_both(*old(map), one, any, a, b, parent@);
            lemma_noted_both(*old(map), any, *map, a.union(b), c, parent@);
            names = a.union(b).union(c);
        }
    }
    let ghost arms = *map;
    let ghost mut members: Set<Seq<char>> = Set::empty();
    if let Some(ov) = &o.object {
        let props = &ov.properties.entries;
        let mut i: usize = 0;
        assert(noted(arms, *map, mentioned_by_members(props@.take(0)), parent@));
        while i < props.len()
            invariant
                o.object matches Some(x) && x.properties.entries == props,
                i <= props.len(),
                in_order(*map),
                noted(arms, *map, mentioned_by_members(props@.take(i as int)), parent@),
            decreases props.len() - i,
        {
            let ghost before = *map;
            assert(props@.take(i + 1).drop_last() =~= props@.take(i as int));
            assert(decreases_to!(*o => o.object->0.properties.entries@));
            assert(decreases_to!(props@ => props@[i as int].1));
            walk_for_refs(&props[i].1, parent, map);
            proof {
                lemma_noted_both(
                    arms,
                    before,
                    *map,
                    mentioned_by_members(props@.take(i as int)),
                    mentioned(props@[i as int].1),
                    parent@,
                );
            }
            i += 1;
        }
        proof {
            assert(props@.take(props.len() as int) =~= props@);
            members = mentioned_by_members(props@);
        }
    }
    let ghost both = *map;
    proof {
        lemma_noted_both(*old(map), arms, both, names, members, parent@);
    }
    let ghost mut items: Set<Seq<char>> = Set::empty();
    if let Some(av) = &o.array {
        match &av.items {
            Some(SingleOrVec::Single(s)) => {
                walk_for_refs(s, parent, map);
                proof {
                    items = mentioned(**s);
                }
            },
            Some(SingleOrVec::Vec(v)) => {
                walk_all(v, parent, map);
                proof {
                    items = mentioned_by_all(v@);
                }
            },
            None => {},
        }
    }
    proof {
        lemma_noted_both(*old(map), both, *map, names.union(members), items, parent@);
    }
}

fn walk_list(list: &Option<Vec<Schema>>, parent: &str, map: &mut NameMap<NameSet>)
    requires
        in_order(*old(map)),
    ensures
        in_order(*final(map)),
        noted(*old(map), *final(map), mentioned_in(*list), parent@),
    decreases *list, 0int,
{
    if let Some(v) = list {
        walk_all(v, parent, map);
    }
}

fn walk_all(list: &Vec<Schema>, parent: &str, map: &mut NameMap<NameSet>)
    requires
        in_order(*old(map)),
    ensures
        in_order(*final(map)),
        noted(*old(map), *final(map), mentioned_by_all(list@), parent@),
    decreases list@, 0int,
{
    let mut i: usize = 0;
    assert(noted(*old(map), *map, mentioned_by_all(list@.take(0)), parent@));
    while i < list.len()
        invariant
            i <= list.len(),
            in_order(*map),
            noted(*old(map), *map, mentioned_by_all(list@.take(i as int)), parent@),
        decreases list.len() - i,
    {
        let ghost before = *map;
        assert(list@.take(i + 1).drop_last() =~= list@.take(i as int));
        assert(decreases_to!(list@ => list@[i as int]));
        walk_for_refs(&list[i], parent, map);
        proof {
            lemma_noted_both(
                *old(map),
                before,
                *map,
                mentioned_by_all(list@.take(i as int)),
                mentioned(list@[i as int]),
                parent@,
            );
        }
        i += 1;
    }
    assert(list@.take(list.len() as int) =~= list@);
}

/// For each name that is mentioned, the names of the types that mention it: the
/// root's, `top_name`, and those of the definitions. There is no entry for any other name.
pub fn build_usage_map(root: &RootSchema, top_name: &str) -> (map: NameMap<NameSet>)
    ensures
        in_order(map),
        forall|n: Seq<char>| #[trigger] kept(map, n) == users(*root, top_name@, n),
        forall|n: Seq<char>|
            (#[trigger] map.at(n) is Some) <==> users(*root, top_name@, n)
                != Set::<Seq<char>>::empty(),
{
    let mut map: NameMap<NameSet> = NameMap::new();
    let ghost start = map;
    walk_object(&root.schema, top_name, &mut map);
    let defs = &root.definitions.entries;
    let mut i: usize = 0;
    assert forall|n: Seq<char>| #[trigger]
        kept(map, n) == users_among(
            defs@.take(0),
            n,
            if mentioned_by(root.schema).contains(n) {
                Set::empty().insert(top_name@)
            } else {
                Set::empty()
            },
        ) by {
        lemma_find(start.entries@, n);
        assert(kept(start, n) =~= Set::<Seq<char>>::empty());
    }
    while i < defs.len()
        invariant
            defs == root.definitions.entries,
            i <= defs.len(),
            in_order(map),
            forall|n: Seq<char>| #[trigger]
                kept(map, n) == users_among(
                    defs@.take(i as int),
                    n,
                    if mentioned_by(root.schema).contains(n) {
                        Set::empty().insert(top_name@)
                    } else {
                        Set::empty()
                    },
                ),
        decreases defs.len() - i,
    {
        let ghost before = map;
        assert(defs@.take(i + 1).drop_last() =~= defs@.take(i as int));
        walk_for_refs(&defs[i].1, &defs[i].0, &mut map);
        assert forall|n: Seq<char>| #[trigger]
            kept(map, n) == users_among(
                defs@.take(i + 1),
                n,
                if mentioned_by(root.schema).contains(n) {
                    Set::empty().insert(top_name@)
                } else {
                    Set::empty()
                },
            ) by {
            assert(kept(before, n) == kept(before, n));
        }
        i += 1;
    }
    assert(defs@.take(defs.len() as int) =~= defs@);
    assert forall|n: Seq<char>| (#[trigger] map.at(n) is Some) <==> users(*root, top_name@, n)
        != Set::<Seq<char>>::empty() by {
        assert(kept(map, n) == users(*root, top_name@, n));
        lemma_find(map.entries@, n);
        if let Some(i) = find(map.entries@, n) {
            let set = map.entries@[i].1;
            assert(set.wf() && set.names@.len() > 0);
            assert(texts(set.names@)[0] == set.names@[0]@);
            assert(set@.contains(set.names@[0]@));
        }
    }
    map
}

} // verus!
