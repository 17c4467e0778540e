//! Names in alphabetical order: sets of names and maps keyed by name.

use crate::text::{chars_of, same, texts};
use vstd::prelude::*;

verus! {

/// `a` and `b` agree before position `i`, and from there on `a` comes first: it
/// ends there, or has the smaller character.
pub open spec fn parts_at(a: Seq<char>, b: Seq<char>, i: int) -> bool {
    &&& 0 <= i <= a.len()
    &&& i < b.len()
    &&& forall|k: int| 0 <= k < i ==> a[k] == b[k]
    &&& i == a.len() || a[i] < b[i]
}

/// `a` comes before `b` in the order of their characters.
pub open spec fn name_lt(a: Seq<char>, b: Seq<char>) -> bool {
    exists|i: int| parts_at(a, b, i)
}

/// The names are in strictly ascending order, so that none occurs twice.
pub open spec fn ascending(names: Seq<Seq<char>>) -> bool {
    forall|i: int, j: int| 0 <= i < j < names.len() ==> name_lt(names[i], names[j])
}

/// `n` is the first of the names in `names`.
pub open spec fn is_least(names: Set<Seq<char>>, n: Seq<char>) -> bool {
    names.contains(n) && forall|m: Seq<char>|
        names.contains(m) ==> m == n || name_lt(n, m)
}

/// The first of the names in `names`.
pub open spec fn least(names: Set<Seq<char>>) -> Seq<char> {
    choose|n: Seq<char>| is_least(names, n)
}

/// The names in `names`, in ascending order.
pub open spec fn listed(names: Set<Seq<char>>) -> Seq<Seq<char>> {
    choose|s: Seq<Seq<char>>| ascending(s) && s.to_set() == names
}

/// No name comes before itself.
pub proof fn lemma_lt_irreflexive(a: Seq<char>)
    ensures
        !name_lt(a, a),
{
}

/// The order of names is transitive.
pub proof fn lemma_lt_transitive(a: Seq<char>, b: Seq<char>, c: Seq<char>)
    requires
        name_lt(a, b),
        name_lt(b, c),
    ensures
        name_lt(a, c),
{
    let i = choose|i: int| parts_at(a, b, i);
    let j = choose|j: int| parts_at(b, c, j);
    let k = if i <= j {
        i
    } else {
        j
    };
    assert(parts_at(a, c, k));
}

/// Of two names at most one comes before the other.
pub proof fn lemma_lt_asymmetric(a: Seq<char>, b: Seq<char>)
    requires
        name_lt(a, b),
    ensures
        !name_lt(b, a),
        a != b,
{
    if name_lt(b, a) {
        lemma_lt_transitive(a, b, a);
    }
}

/// Of two different names one comes before the other.
pub proof fn lemma_lt_total(a: Seq<char>, b: Seq<char>)
    ensures
        a == b || name_lt(a, b) || name_lt(b, a),
{
    let i = lemma_first_difference(a, b, 0);
    if i == a.len() && i == b.len() {
        assert(a =~= b);
    } else if i == a.len() || (i < b.len() && a[i] < b[i]) {
        assert(parts_at(a, b, i));
    } else {
        assert(parts_at(b, a, i));
    }
}

/// The first position, from `from` on, at which two names differ or one of them ends.
proof fn lemma_first_difference(a: Seq<char>, b: Seq<char>, from: int) -> (i: int)
    requires
        0 <= from <= a.len(),
        from <= b.len(),
        forall|k: int| 0 <= k < from ==> a[k] == b[k],
    ensures
        from <= i <= a.len(),
        i <= b.len(),
        forall|k: int| 0 <= k < i ==> a[k] == b[k],
        i == a.len() || i == b.len() || a[i] != b[i],
    decreases a.len() - from,
{
    if from == a.len() || from == b.len() || a[from] != b[from] {
        from
    } else {
        lemma_first_difference(a, b, from + 1)
    }
}

/// The names of a finite set can be listed in ascending order.
pub proof fn lemma_listed(names: Set<Seq<char>>)
    requires
        names.finite(),
    ensures
        ascending(listed(names)),
        listed(names).to_set() == names,
    decreases names.len(),
{
    if names.len() == 0 {
        let none = Seq::<Seq<char>>::empty();
        assert(none.to_set() =~= names);
        assert(ascending(none));
    } else {
        let x = names.choose();
        let rest = names.remove(x);
        lemma_listed(rest);
        let s = listed(rest);
        assert forall|k: int| 0 <= k < s.len() implies #[trigger] s[k] != x by {
            assert(s.to_set().contains(s[k]));
        }
        let i = lemma_place(s, x, 0);
        lemma_insert_ascending(s, i, x);
        let t = s.insert(i, x);
        assert forall|y: Seq<char>| t.to_set().contains(y) <==> names.contains(y) by {
            if t.contains(y) {
                let k = choose|k: int| 0 <= k < t.len() && t[k] == y;
                if k < i {
                    assert(s.to_set().contains(s[k]));
                } else if k > i {
                    assert(s.to_set().contains(s[k - 1]));
                }
            }
            if names.contains(y) {
                assert(t[i] == x);
                if y != x {
                    assert(s.to_set().contains(y));
                    let k = choose|k: int| 0 <= k < s.len() && s[k] == y;
                    if k < i {
                        assert(t[k] == y);
                    } else {
                        assert(t[k + 1] == y);
                    }
                }
            }
        }
        assert(t.to_set() =~= names);
    }
}

/// The place of a name in an ascending list that does not hold it, from `from` on.
proof fn lemma_place(s: Seq<Seq<char>>, x: Seq<char>, from: int) -> (i: int)
    requires
        ascending(s),
        0 <= from <= s.len(),
        forall|k: int| 0 <= k < s.len() ==> #[trigger] s[k] != x,
        forall|k: int| 0 <= k < from ==> name_lt(#[trigger] s[k], x),
    ensures
        from <= i <= s.len(),
        forall|k: int| 0 <= k < i ==> name_lt(#[trigger] s[k], x),
        i < s.len() ==> name_lt(x, s[i]),
    decreases s.len() - from,
{
    if from == s.len() {
        from
    } else {
        lemma_lt_total(s[from], x);
        if name_lt(x, s[from]) {
            from
        } else {
            lemma_place(s, x, from + 1)
        }
    }
}

/// A finite set of names that is not empty has a first name.
pub proof fn lemma_least_exists(names: Set<Seq<char>>)
    requires
        names.finite(),
        names.len() > 0,
    ensures
        is_least(names, least(names)),
{
    lemma_listed(names);
    let s = listed(names);
    let x = names.choose();
    assert(s.to_set().contains(x));
    assert(s.len() > 0);
    assert(s.to_set().contains(s[0]));
    assert forall|m: Seq<char>| names.contains(m) implies m == s[0] || name_lt(s[0], m) by {
        assert(s.to_set().contains(m));
        let k = choose|k: int| 0 <= k < s.len() && s[k] == m;
        if k > 0 {
            assert(name_lt(s[0], s[k]));
        }
    }
    assert(is_least(names, s[0]));
}

/// The first of a set of names is unique.
pub proof fn lemma_least(names: Set<Seq<char>>, n: Seq<char>)
    requires
        is_least(names, n),
    ensures
        least(names) == n,
{
    let m = least(names);
    assert(is_least(names, m));
    if m != n {
        lemma_lt_asymmetric(m, n);
    }
}

/// A set of names has one ascending list only.
pub proof fn lemma_ascending_unique(s: Seq<Seq<char>>, t: Seq<Seq<char>>)
    requires
        ascending(s),
        ascending(t),
        s.to_set() == t.to_set(),
    ensures
        s == t,
    decreases s.len(),
{
    if s.len() == 0 {
        if t.len() > 0 {
            assert(t.to_set().contains(t[0]));
            assert(s.contains(t[0]));
        }
        assert(s =~= t);
    } else {
        assert(s.to_set().contains(s.last()));
        assert(t.contains(s.last()));
        let j = choose|j: int| 0 <= j < t.len() && t[j] == s.last();
        assert(t.to_set().contains(t.last()));
        assert(s.contains(t.last()));
        let i = choose|i: int| 0 <= i < s.len() && s[i] == t.last();
        if j < t.len() - 1 {
            assert(name_lt(t[j], t.last()));
            if i < s.len() - 1 {
                assert(name_lt(s[i], s.last()));
                lemma_lt_asymmetric(s.last(), t.last());
            } else {
                lemma_lt_irreflexive(s.last());
            }
        }
        assert(s.last() == t.last());
        let s1 = s.drop_last();
        let t1 = t.drop_last();
        assert forall|x: Seq<char>| s1.to_set().contains(x) implies t1.to_set().contains(x) by {
            let a = choose|a: int| 0 <= a < s1.len() && s1[a] == x;
            assert(name_lt(s[a], s.last()));
            lemma_lt_asymmetric(x, s.last());
            assert(s.to_set().contains(s[a]));
            assert(t.contains(x));
            let b = choose|b: int| 0 <= b < t.len() && t[b] == x;
            assert(t1[b] == x);
        }
        assert forall|x: Seq<char>| t1.to_set().contains(x) implies s1.to_set().contains(x) by {
            let a = choose|a: int| 0 <= a < t1.len() && t1[a] == x;
            assert(name_lt(t[a], t.last()));
            lemma_lt_asymmetric(x, t.last());
            assert(t.to_set().contains(t[a]));
            assert(s.contains(x));
            let b = choose|b: int| 0 <= b < s.len() && s[b] == x;
            assert(s1[b] == x);
        }
        assert(s1.to_set() =~= t1.to_set());
        lemma_ascending_unique(s1, t1);
        assert(s =~= s1.push(s.last()));
        assert(t =~= t1.push(t.last()));
    }
}

/// Whether `a` comes before `b`; if not, the two are the same or `b` comes
/// before `a`.
pub fn less(a: &str, b: &str) -> (r: bool)
    ensures
        r == name_lt(a@, b@),
        !r ==> a@ == b@ || name_lt(b@, a@),
{
    let x = chars_of(a);
    let y = chars_of(b);
    let mut i: usize = 0;
    while i < x.len() && i < y.len() && x[i] == y[i]
        invariant
            i <= x.len(),
            i <= y.len(),
            forall|k: int| 0 <= k < i ==> x@[k] == y@[k],
        decreases x.len() - i,
    {
        i += 1;
    }
    if i < y.len() && (i == x.len() || x[i] < y[i]) {
        assert(parts_at(a@, b@, i as int));
        true
    } else {
        proof {
            if i == y.len() && i == x.len() {
                assert(a@ =~= b@);
                lemma_lt_irreflexive(a@);
            } else {
                assert(parts_at(b@, a@, i as int));
                lemma_lt_asymmetric(b@, a@);
            }
        }
        false
    }
}

/// A set of names, kept in ascending order.
#[derive(Debug, PartialEq, Eq)]
pub struct NameSet {
    pub names: Vec<String>,
}

impl View for NameSet {
    type V = Set<Seq<char>>;

    open spec fn view(&self) -> Set<Seq<char>> {
        texts(self.names@).to_set()
    }
}

impl NameSet {
    /// The names are in ascending order, and none occurs twice.
    pub open spec fn wf(self) -> bool {
        ascending(texts(self.names@))
    }

    /// The empty set.
    pub fn new() -> (r: NameSet)
        ensures
            r.wf(),
            r@ == Set::<Seq<char>>::empty(),
    {
        let r = NameSet { names: Vec::new() };
        assert(r@ =~= Set::<Seq<char>>::empty());
        r
    }

    /// Whether `name` is in the set.
    pub fn contains(&self, name: &str) -> (r: bool)
        ensures
            r == self@.contains(name@),
    {
        let mut i: usize = 0;
        while i < self.names.len()
            invariant
                i <= self.names.len(),
                forall|k: int| 0 <= k < i ==> self.names@[k]@ != name@,
            decreases self.names.len() - i,
        {
            if same(&self.names[i], name) {
                assert(texts(self.names@)[i as int] == name@);
                return true;
            }
            i += 1;
        }
        false
    }

    /// Adds `name` to the set.
    pub fn insert(&mut self, name: String)
        requires
            old(self).wf(),
        ensures
            final(self).wf(),
            final(self)@ == old(self)@.insert(name@),
    {
        let ghost before = texts(self.names@);
        let mut i: usize = 0;
        while i < self.names.len() && less(&self.names[i], &name)
            invariant
                i <= self.names.len(),
                self.names@ == old(self).names@,
                forall|k: int| 0 <= k < i ==> name_lt(self.names@[k]@, name@),
            decreases self.names.len() - i,
        {
            i += 1;
        }
        if i < self.names.len() && same(&self.names[i], &name) {
            assert(before[i as int] == name@);
            assert(self@ =~= old(self)@.insert(name@));
            return ;
        }
        let ghost text = name@;
        self.names.insert(i, name);
        proof {
            let after = texts(self.names@);
            assert(after =~= before.insert(i as int, text));
            lemma_insert_ascending(before, i as int, text);
            assert(self@ =~= old(self)@.insert(text)) by {
                assert forall|x: Seq<char>| after.contains(x) <==> before.contains(x) || x
                    == text by {
                    if before.contains(x) {
                        let k = choose|k: int| 0 <= k < before.len() && before[k] == x;
                        if k < i {
                            assert(after[k] == x);
                        } else {
                            assert(after[k + 1] == x);
                        }
                    }
                    assert(after[i as int] == text);
                }
            }
        }
    }
}

/// Putting a name into an ascending list, behind those before it and in front of
/// those behind it, gives an ascending list.
proof fn lemma_insert_ascending(s: Seq<Seq<char>>, i: int, x: Seq<char>)
    requires
        ascending(s),
        0 <= i <= s.len(),
        forall|k: int| 0 <= k < i ==> name_lt(s[k], x),
        i < s.len() ==> name_lt(x, s[i]),
    ensures
        ascending(s.insert(i, x)),
{
    let t = s.insert(i, x);
    assert forall|a: int, b: int| 0 <= a < b < t.len() implies name_lt(t[a], t[b]) by {
        if a == i && b > i + 1 {
            lemma_lt_transitive(x, s[i], s[b - 1]);
        }
    }
}

/// The names by which `entries` are keyed, in order.
pub open spec fn keys<V>(entries: Seq<(String, V)>) -> Seq<Seq<char>> {
    Seq::new(entries.len(), |i: int| entries[i].0@)
}

/// The position of the first entry that has the name `name`.
pub open spec fn find<V>(entries: Seq<(String, V)>, name: Seq<char>) -> Option<int>
    decreases entries.len(),
{
    if entries.len() == 0 {
        None
    } else {
        match find(entries.drop_last(), name) {
            Some(i) => Some(i),
            None => if entries.last().0@ == name {
                Some(entries.len() - 1)
            } else {
                None
            },
        }
    }
}

/// `find` gives the first entry with the name, and gives none only where there
/// is none.
pub proof fn lemma_find<V>(entries: Seq<(String, V)>, name: Seq<char>)
    ensures
        match find(entries, name) {
            Some(i) => {
                &&& 0 <= i < entries.len()
                &&& entries[i].0@ == name
                &&& forall|k: int| 0 <= k < i ==> entries[k].0@ != name
            },
            None => forall|k: int| 0 <= k < entries.len() ==> entries[k].0@ != name,
        },
    decreases entries.len(),
{
    if entries.len() > 0 {
        let init = entries.drop_last();
        lemma_find(init, name);
        assert(forall|k: int| 0 <= k < init.len() ==> init[k] == entries[k]);
    }
}

/// Where a name is found depends on the names alone.
pub proof fn lemma_find_by_keys<V>(
    a: Seq<(String, V)>,
    b: Seq<(String, V)>,
    name: Seq<char>,
)
    requires
        keys(a) == keys(b),
    ensures
        find(a, name) == find(b, name),
    decreases a.len(),
{
    assert(keys(a).len() == a.len() && keys(b).len() == b.len());
    if a.len() > 0 {
        assert(keys(a.drop_last()) =~= keys(a).drop_last());
        assert(keys(b.drop_last()) =~= keys(b).drop_last());
        assert(keys(a).last() == a.last().0@ && keys(b).last() == b.last().0@);
        lemma_find_by_keys(a.drop_last(), b.drop_last(), name);
    }
}

/// In ascending entries each entry is the one that its name finds.
pub proof fn lemma_find_at<V>(entries: Seq<(String, V)>, i: int)
    requires
        ascending(keys(entries)),
        0 <= i < entries.len(),
    ensures
        find(entries, entries[i].0@) == Some(i),
{
    let name = entries[i].0@;
    lemma_find(entries, name);
    let ks = keys(entries);
    if let Some(j) = find(entries, name) {
        if j < i {
            assert(name_lt(ks[j], ks[i]));
            lemma_lt_irreflexive(name);
        } else if i < j {
            assert(name_lt(ks[i], ks[j]));
            lemma_lt_irreflexive(name);
        }
    }
}

/// A map keyed by name, kept in ascending order of its names.
#[derive(Debug, PartialEq)]
pub struct NameMap<V> {
    pub entries: Vec<(String, V)>,
}

impl<V> NameMap<V> {
    /// The names are in ascending order, and none occurs twice.
    pub open spec fn wf(self) -> bool {
        ascending(keys(self.entries@))
    }

    /// The value kept under `name`.
    pub open spec fn at(self, name: Seq<char>) -> Option<V> {
        match find(self.entries@, name) {
            Some(i) => Some(self.entries@[i].1),
            None => None,
        }
    }

    /// The empty map.
    pub fn new() -> (r: NameMap<V>)
        ensures
            r.wf(),
            r.entries@.len() == 0,
    {
        NameMap { entries: Vec::new() }
    }

    /// The position of the entry that has the name `name`.
    pub fn position(&self, name: &str) -> (r: Option<usize>)
        ensures
            match r {
                Some(i) => find(self.entries@, name@) == Some(i as int) && i < self.entries.len(),
                None => find(self.entries@, name@) is None,
            },
    {
        let mut i: usize = 0;
        while i < self.entries.len()
            invariant
                i <= self.entries.len(),
                forall|k: int| 0 <= k < i ==> self.entries@[k].0@ != name@,
            decreases self.entries.len() - i,
        {
            if same(&self.entries[i].0, name) {
                proof {
                    lemma_find(self.entries@, name@);
                }
                return Some(i);
            }
            i += 1;
        }
        proof {
            lemma_find(self.entries@, name@);
        }
        None
    }

    /// The value kept under `name`.
    pub fn get(&self, name: &str) -> (r: Option<&V>)
        ensures
            match r {
                Some(v) => self.at(name@) == Some(*v),
                None => self.at(name@) is None,
            },
    {
        match self.position(name) {
            Some(i) => Some(&self.entries[i].1),
            None => None,
        }
    }

    /// Keeps `value` under `name`, in place of what was kept there.
    pub fn insert(&mut self, name: String, value: V)
        requires
            old(self).wf(),
        ensures
            final(self).wf(),
            forall|n: Seq<char>| #[trigger]
                final(self).at(n) == if n == name@ {
                    Some(value)
                } else {
                    old(self).at(n)
                },
    {
        let ghost before = self.entries@;
        let ghost text = name@;
        let mut i: usize = 0;
        while i < self.entries.len() && less(&self.entries[i].0, &name)
            invariant
                i <= self.entries.len(),
                self.entries@ == before,
                forall|k: int| 0 <= k < i ==> name_lt(before[k].0@, name@),
            decreases self.entries.len() - i,
        {
            i += 1;
        }
        if i < self.entries.len() && same(&self.entries[i].0, &name) {
            let _ = self.entries.remove(i);
            self.entries.insert(i, (name, value));
            proof {
                let after = self.entries@;
                assert(after =~= before.update(i as int, after[i as int]));
                assert(keys(after) =~= keys(before));
                lemma_insert_at(before, after, text, value, i as int, true);
            }
        } else {
            self.entries.insert(i, (name, value));
            proof {
                let after = self.entries@;
                assert(keys(after) =~= keys(before).insert(i as int, text));
                lemma_insert_ascending(keys(before), i as int, text);
                lemma_insert_at(before, after, text, value, i as int, false);
            }
        }
    }
}

/// What the names find after an entry was put in place at position `i`, over the
/// entry with the same name (`replaced`) or between its neighbours.
proof fn lemma_insert_at<V>(
    before: Seq<(String, V)>,
    after: Seq<(String, V)>,
    name: Seq<char>,
    value: V,
    i: int,
    replaced: bool,
)
    requires
        ascending(keys(before)),
        ascending(keys(after)),
        0 <= i < after.len(),
        after[i].0@ == name,
        after[i].1 == value,
        replaced ==> i < before.len() && before[i].0@ == name && after == before.update(
            i,
            after[i],
        ),
        !replaced ==> i <= before.len() && after == before.insert(i, after[i]),
    ensures
        forall|n: Seq<char>|
            #![trigger find(after, n)]
            (match find(after, n) {
                Some(j) => Some(after[j].1),
                None => None,
            }) == if n == name {
                Some(value)
            } else {
                match find(before, n) {
                    Some(j) => Some(before[j].1),
                    None => None,
                }
            },
{
    assert forall|n: Seq<char>|
        #![trigger find(after, n)]
        (match find(after, n) {
            Some(j) => Some(after[j].1),
            None => None,
        }) == if n == name {
            Some(value)
        } else {
            match find(before, n) {
                Some(j) => Some(before[j].1),
                None => None,
            }
        } by {
        lemma_find(after, n);
        lemma_find(before, n);
        if n == name {
            lemma_find_at(after, i);
        } else {
            match find(before, n) {
                Some(j) => {
                    let k = if replaced || j < i {
                        j
                    } else {
                        j + 1
                    };
                    assert(after[k] == before[j]);
                    lemma_find_at(after, k);
                },
                None => {
                    if let Some(k) = find(after, n) {
                        let j = if replaced || k < i {
                            k
                        } else {
                            k - 1
                        };
                        assert(before[j] == after[k]);
                    }
                },
            }
        }
    }
}

} // verus!
