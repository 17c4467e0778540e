//! The grammar reference of a schema: one production for the root and one for each
//! definition that the productions refer to.

use crate::names::{ascending, find, is_least, lemma_least, lemma_lt_asymmetric, name_lt, NameSet};
use crate::production::{
    body_refs, object_production, production, production_refs, render_object_production,
    render_production,
};
use crate::schema::{root_name, root_title, Defs, RootSchema, Schema};
use crate::style::{dimmed, Style};
use crate::text::texts;
use crate::usage::{build_usage_map, in_order, kept, users};
use vstd::prelude::*;
use vstd::string::*;

verus! {

/// The names that the definitions called `names` refer to.
pub open spec fn refs_of_names(defs: Defs, names: Seq<Seq<char>>, on: bool) -> Set<Seq<char>>
    decreases names.len(),
{
    if names.len() == 0 {
        Set::empty()
    } else {
        let init = refs_of_names(defs, names.drop_last(), on);
        match defs.at(names.last()) {
            Some(s) => init.union(production_refs(s, on)),
            None => init,
        }
    }
}

/// The names that the root's production refers to, or one of the productions for
/// `names`.
pub open spec fn referenced(root: RootSchema, names: Seq<Seq<char>>, on: bool) -> Set<Seq<char>> {
    body_refs(root.schema, on).union(refs_of_names(root.definitions, names, on))
}

/// The names that are referred to once the root and `names` are shown, but not
/// among `names`.
pub open spec fn owing(root: RootSchema, names: Seq<Seq<char>>, on: bool) -> Set<Seq<char>> {
    referenced(root, names, on).difference(names.to_set())
}

/// `names` are in the order in which productions follow the root's: next comes
/// always the first name, alphabetically, that is referred to and not yet shown.
pub open spec fn in_turn(root: RootSchema, names: Seq<Seq<char>>, on: bool) -> bool {
    forall|k: int|
        0 <= k < names.len() ==> is_least(#[trigger] owing(root, names.take(k), on), names[k])
}

/// `names` are all the names that productions are due for, in their order.
pub open spec fn is_agenda(root: RootSchema, names: Seq<Seq<char>>, on: bool) -> bool {
    in_turn(root, names, on) && owing(root, names, on) =~= Set::<Seq<char>>::empty()
}

/// The names that productions are due for, in the order in which they follow the
/// root's.
pub open spec fn agenda(root: RootSchema, on: bool) -> Seq<Seq<char>> {
    choose|names: Seq<Seq<char>>| is_agenda(root, names, on)
}

/// The productions for those of `names` that are defined, each after an empty
/// line.
pub open spec fn productions(root: RootSchema, names: Seq<Seq<char>>, on: bool) -> Seq<char>
    decreases names.len(),
{
    if names.len() == 0 {
        Seq::empty()
    } else {
        let init = productions(root, names.drop_last(), on);
        let name = names.last();
        match root.definitions.at(name) {
            Some(s) => init + "\n"@ + production(name, s, users(root, root_name(root), name), on),
            None => init,
        }
    }
}

/// The legend of the notation.
pub open spec fn legend(on: bool) -> Seq<char> {
    dimmed(on, "# [foo] = optional   <Type> = named ref   | = alternative"@) + "\n"@ + dimmed(
        on,
        "# (default: X) = default value   (tagged on `f`) = discriminator field"@,
    ) + "\n\n"@
}

/// The grammar reference of `root`: the legend, the root's production, and those
/// of the definitions that are referred to.
pub open spec fn grammar(root: RootSchema, on: bool) -> Seq<char> {
    let top = root_name(root);
    legend(on) + object_production(top, root.schema, true, users(root, top, top), on)
        + productions(root, agenda(root, on), on)
}

/// Two beginnings of the order of productions agree as far as both go.
proof fn lemma_in_turn_agree(
    root: RootSchema,
    a: Seq<Seq<char>>,
    b: Seq<Seq<char>>,
    on: bool,
    k: int,
)
    requires
        in_turn(root, a, on),
        in_turn(root, b, on),
        0 <= k <= a.len(),
        k <= b.len(),
    ensures
        a.take(k) == b.take(k),
    decreases k,
{
    if k > 0 {
        lemma_in_turn_agree(root, a, b, on, k - 1);
        let due = owing(root, a.take(k - 1), on);
        assert(is_least(due, a[k - 1]));
        assert(is_least(owing(root, b.take(k - 1), on), b[k - 1]));
        lemma_least(due, a[k - 1]);
        lemma_least(due, b[k - 1]);
        assert(a.take(k) =~= a.take(k - 1).push(a[k - 1]));
        assert(b.take(k) =~= b.take(k - 1).push(b[k - 1]));
    } else {
        assert(a.take(k) =~= b.take(k));
    }
}

/// The order of the productions is determined by the schema.
pub proof fn lemma_agenda_unique(root: RootSchema, names: Seq<Seq<char>>, on: bool)
    requires
        is_agenda(root, names, on),
    ensures
        agenda(root, on) == names,
{
    let other = agenda(root, on);
    assert(is_agenda(root, other, on));
    let k = if names.len() <= other.len() {
        names.len() as int
    } else {
        other.len() as int
    };
    lemma_in_turn_agree(root, names, other, on, k);
    if names.len() < other.len() {
        assert(names.take(k) =~= names);
        assert(is_least(owing(root, other.take(k), on), other[k]));
        assert(owing(root, names, on).contains(other[k]));
    } else if other.len() < names.len() {
        assert(other.take(k) =~= other);
        assert(is_least(owing(root, names.take(k), on), names[k]));
        assert(owing(root, other, on).contains(names[k]));
    }
    assert(names.take(k) =~= names);
    assert(other.take(k) =~= other);
}

/// The names that an earlier part of the order refers to, the whole refers to.
proof fn lemma_refs_grow(defs: Defs, names: Seq<Seq<char>>, on: bool, k: int)
    requires
        0 <= k <= names.len(),
    ensures
        refs_of_names(defs, names.take(k), on).subset_of(refs_of_names(defs, names, on)),
    decreases names.len(),
{
    if k < names.len() {
        lemma_refs_grow(defs, names.drop_last(), on, k);
        assert(names.drop_last().take(k) =~= names.take(k));
    } else {
        assert(names.take(k) =~= names);
    }
}

/// Each name that a shown production refers to has a turn of its own, and only one:
/// exactly the names that are referred to come up, and none comes up twice.
pub proof fn lemma_each_reference_once(root: RootSchema, names: Seq<Seq<char>>, on: bool)
    requires
        is_agenda(root, names, on),
    ensures
        names.no_duplicates(),
        forall|n: Seq<char>| #[trigger]
            names.contains(n) <==> referenced(root, names, on).contains(n),
{
    assert forall|i: int, j: int| 0 <= i < j < names.len() implies names[i] != names[j] by {
        let due = owing(root, names.take(j), on);
        assert(is_least(due, names[j]));
        assert(names.take(j)[i] == names[i]);
        assert(names.take(j).to_set().contains(names[i]));
    }
    assert forall|n: Seq<char>| #[trigger]
        names.contains(n) <==> referenced(root, names, on).contains(n) by {
        if names.contains(n) {
            let k = choose|k: int| 0 <= k < names.len() && names[k] == n;
            assert(is_least(owing(root, names.take(k), on), names[k]));
            lemma_refs_grow(root.definitions, names, on, k);
        }
        if referenced(root, names, on).contains(n) {
            assert(!owing(root, names, on).contains(n));
            assert(names.to_set().contains(n));
        }
    }
}

/// How many of `defs` have a name that is not in `names`.
spec fn unmet(defs: Seq<(String, Schema)>, names: Set<Seq<char>>) -> nat
    decreases defs.len(),
{
    if defs.len() == 0 {
        0
    } else {
        unmet(defs.drop_last(), names) + if names.contains(defs.last().0@) {
            0nat
        } else {
            1nat
        }
    }
}

/// Meeting one more definition leaves fewer.
proof fn lemma_unmet(defs: Seq<(String, Schema)>, names: Set<Seq<char>>, name: Seq<char>)
    ensures
        unmet(defs, names.insert(name)) <= unmet(defs, names),
        !names.contains(name) && find(defs, name) is Some ==> unmet(defs, names.insert(name))
            < unmet(defs, names),
    decreases defs.len(),
{
    if defs.len() > 0 {
        lemma_unmet(defs.drop_last(), names, name);
    }
}

/// The first name of `referenced`, in alphabetical order, that is not in `emitted`.
fn next_name(referenced: &NameSet, emitted: &NameSet) -> (r: Option<String>)
    requires
        referenced.wf(),
    ensures
        match r {
            Some(n) => is_least(referenced@.difference(emitted@), n@),
            None => referenced@.subset_of(emitted@),
        },
{
    let ghost all = texts(referenced.names@);
    let mut i: usize = 0;
    while i < referenced.names.len()
        invariant
            all == texts(referenced.names@),
            ascending(all),
            i <= all.len(),
            forall|j: int| 0 <= j < i ==> emitted@.contains(#[trigger] all[j]),
        decreases referenced.names.len() - i,
    {
        let name = &referenced.names[i];
        if !emitted.contains(name) {
            proof {
                let due = referenced@.difference(emitted@);
                assert(all[i as int] == name@);
                assert forall|m: Seq<char>| due.contains(m) implies m == name@ || name_lt(
                    name@,
                    m,
                ) by {
                    let j = choose|j: int| 0 <= j < all.len() && all[j] == m;
                    assert(j >= i);
                    if j > i {
                        assert(name_lt(all[i as int], all[j]));
                    }
                }
            }
            return Some(name.clone());
        }
        assert(emitted@.contains(all[i as int]));
        i += 1;
    }
    assert forall|m: Seq<char>| referenced@.contains(m) implies emitted@.contains(m) by {
        let j = choose|j: int| 0 <= j < all.len() && all[j] == m;
        assert(emitted@.contains(all[j]));
    }
    None
}

/// An ascending set lists each of its names once.
proof fn lemma_set_len(set: NameSet)
    requires
        set.wf(),
    ensures
        set@.finite(),
        set@.len() == set.names.len(),
{
    let all = texts(set.names@);
    assert forall|i: int, j: int| 0 <= i < all.len() && 0 <= j < all.len() && i != j implies all[i]
        != all[j] by {
        if i < j {
            lemma_lt_asymmetric(all[i], all[j]);
        } else {
            lemma_lt_asymmetric(all[j], all[i]);
        }
    }
    all.unique_seq_to_set();
}

/// Render a request body schema as a structured grammar reference, with ANSI colours
/// where `colorize` says so.
pub fn render_body_schema(root_schema: &RootSchema, colorize: bool) -> (out: String)
    ensures
        out@ == grammar(*root_schema, colorize),
{
    let style = Style::new(colorize);
    let ghost on = colorize;
    let top_name = root_title(root_schema);
    let usage_map = build_usage_map(root_schema, &top_name);
    let mut referenced = NameSet::new();

    // Brief legend so first-time readers know what the conventions mean.
    let mut out = style.dim("# [foo] = optional   <Type> = named ref   | = alternative");
    out.append("\n");
    out.append(
        &style.dim("# (default: X) = default value   (tagged on `f`) = discriminator field"),
    );
    out.append("\n\n");
    assert(kept(usage_map, top_name@) == users(*root_schema, top_name@, top_name@));
    out.append(
        &render_object_production(
            &top_name,
            &root_schema.schema,
            true,
            &usage_map,
            &mut referenced,
            &style,
        ),
    );
    let ghost front = out@;
    let ghost mut names: Seq<Seq<char>> = Seq::empty();
    let mut emitted = NameSet::new();
    proof {
        assert(out@ =~= front + productions(*root_schema, names, on));
        assert(referenced@ =~= self::referenced(*root_schema, names, on));
        assert(emitted@ =~= names.to_set());
        lemma_set_len(emitted);
        lemma_set_len(referenced);
    }
    loop
        invariant
            on == style.enabled,
            in_order(usage_map),
            forall|n: Seq<char>| #[trigger]
                kept(usage_map, n) == users(*root_schema, root_name(*root_schema), n),
            referenced.wf(),
            emitted.wf(),
            referenced@ == self::referenced(*root_schema, names, on),
            emitted@ == names.to_set(),
            emitted@.subset_of(referenced@),
            in_turn(*root_schema, names, on),
            out@ == front + productions(*root_schema, names, on),
        ensures
            is_agenda(*root_schema, names, on),
            out@ == front + productions(*root_schema, names, on),
        decreases
            unmet(root_schema.definitions.entries@, emitted@),
            referenced.names.len() - emitted.names.len(),
    {
        let name = match next_name(&referenced, &emitted) {
            Some(name) => name,
            None => {
                assert(owing(*root_schema, names, on) =~= Set::<Seq<char>>::empty());
                break ;
            },
        };
        let ghost before = names;
        let ghost met = emitted@;
        proof {
            lemma_unmet(root_schema.definitions.entries@, met, name@);
            names = names.push(name@);
            assert(names.drop_last() =~= before);
            assert(names.to_set() =~= before.to_set().insert(name@)) by {
                assert forall|x: Seq<char>| names.contains(x) <==> before.contains(x) || x
                    == name@ by {
                    assert(names[before.len() as int] == name@);
                    if before.contains(x) {
                        let k = choose|k: int| 0 <= k < before.len() && before[k] == x;
                        assert(names[k] == x);
                    }
                }
            }
            assert forall|k: int| 0 <= k < names.len() implies is_least(
                #[trigger] owing(*root_schema, names.take(k), on),
                names[k],
            ) by {
                if k < before.len() {
                    assert(names.take(k) =~= before.take(k));
                    assert(is_least(owing(*root_schema, before.take(k), on), before[k]));
                } else {
                    assert(names.take(k) =~= before);
                }
            }
            lemma_set_len(emitted);
            lemma_set_len(referenced);
            vstd::set_lib::lemma_len_subset(met.insert(name@), referenced@);
        }
        emitted.insert(name.clone());
        proof {
            lemma_set_len(emitted);
        }
        assert(kept(usage_map, name@) == users(*root_schema, root_name(*root_schema), name@));
        if let Some(def) = root_schema.definitions.get(&name) {
            out.append("\n");
            out.append(&render_production(&name, def, &usage_map, &mut referenced, &style));
        }
        proof {
            assert(referenced@ =~= self::referenced(*root_schema, names, on));
            assert(out@ =~= front + productions(*root_schema, names, on));
        }
    }
    proof {
        lemma_agenda_unique(*root_schema, names, on);
    }
    out
}

} // verus!
