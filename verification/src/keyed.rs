//! A map from names to values that keeps its entries in name order.
use crate::text::{lemma_lex_irreflexive, lemma_lex_total, lemma_lex_transitive, lex_lt, str_eq, str_lt};
use vstd::prelude::*;

verus! {

/// Entries sort strictly ascending by name (so no name occurs twice).
pub open spec fn keys_ascending<V>(s: Seq<(Seq<char>, V)>) -> bool {
    forall|i: int, j: int| 0 <= i < j < s.len() ==> lex_lt(#[trigger] s[i].0, #[trigger] s[j].0)
}

/// The value of the first entry from `i` on named `k`.
pub open spec fn lookup_from<V>(s: Seq<(Seq<char>, V)>, k: Seq<char>, i: int) -> Option<V>
    decreases s.len() - i,
{
    if i < 0 || i >= s.len() {
        None
    } else if s[i].0 == k {
        Some(s[i].1)
    } else {
        lookup_from(s, k, i + 1)
    }
}

/// The value named `k`.
pub open spec fn lookup<V>(s: Seq<(Seq<char>, V)>, k: Seq<char>) -> Option<V> {
    lookup_from(s, k, 0)
}

/// The entries as a map from name to value.
pub open spec fn as_map<V>(s: Seq<(Seq<char>, V)>) -> Map<Seq<char>, V> {
    Map::new(|k: Seq<char>| lookup(s, k) is Some, |k: Seq<char>| lookup(s, k)->0)
}

/// In ascending entries, looking up an entry's name finds that entry.
pub proof fn lemma_lookup_at<V>(s: Seq<(Seq<char>, V)>, i: int)
    requires
        keys_ascending(s),
        0 <= i < s.len(),
    ensures
        lookup(s, s[i].0) == Some(s[i].1),
{
    lemma_lookup_from_at(s, i, 0);
}

proof fn lemma_lookup_from_at<V>(s: Seq<(Seq<char>, V)>, i: int, j: int)
    requires
        keys_ascending(s),
        0 <= j <= i < s.len(),
    ensures
        lookup_from(s, s[i].0, j) == Some(s[i].1),
    decreases i - j,
{
    if j < i {
        assert(lex_lt(s[j].0, s[i].0));
        lemma_lex_irreflexive(s[i].0);
        lemma_lookup_from_at(s, i, j + 1);
    }
}

/// A name no entry carries is not found.
pub proof fn lemma_lookup_absent<V>(s: Seq<(Seq<char>, V)>, k: Seq<char>, j: int)
    requires
        0 <= j,
        forall|i: int| 0 <= i < s.len() ==> s[i].0 != k,
    ensures
        lookup_from(s, k, j) is None,
    decreases s.len() - j,
{
    if j < s.len() {
        lemma_lookup_absent(s, k, j + 1);
    }
}

/// Lookup in ascending entries: `Some` exactly for a name some entry carries,
/// with that entry's value.
proof fn lemma_lookup_exact<V>(s: Seq<(Seq<char>, V)>, k: Seq<char>)
    requires
        keys_ascending(s),
    ensures
        (exists|i: int| 0 <= i < s.len() && s[i].0 == k) ==> (exists|i: int|
            0 <= i < s.len() && s[i].0 == k && lookup(s, k) == Some(s[i].1)),
        !(exists|i: int| 0 <= i < s.len() && s[i].0 == k) ==> lookup(s, k) is None,
{
    if exists|i: int| 0 <= i < s.len() && s[i].0 == k {
        let i = choose|i: int| 0 <= i < s.len() && s[i].0 == k;
        lemma_lookup_at(s, i);
    } else {
        lemma_lookup_absent(s, k, 0);
    }
}

/// Replacing the value of an existing name keeps the order and changes the
/// lookup of that name only.
proof fn lemma_after_update<V>(before: Seq<(Seq<char>, V)>, i: int, k: Seq<char>, v: V)
    requires
        keys_ascending(before),
        0 <= i < before.len(),
        before[i].0 == k,
    ensures
        keys_ascending(before.update(i, (k, v))),
        lookup(before.update(i, (k, v)), k) == Some(v),
        forall|k2: Seq<char>| k2 != k ==> lookup(before.update(i, (k, v)), k2) == lookup(before, k2),
{
    let after = before.update(i, (k, v));
    assert forall|a: int, b: int| 0 <= a < b < after.len() implies lex_lt(
        #[trigger] after[a].0,
        #[trigger] after[b].0,
    ) by {
        assert(after[a].0 == before[a].0);
        assert(after[b].0 == before[b].0);
    }
    lemma_lookup_at(after, i);
    assert forall|k2: Seq<char>| k2 != k implies lookup(after, k2) == lookup(before, k2) by {
        if exists|j: int| 0 <= j < before.len() && before[j].0 == k2 {
            let j = choose|j: int| 0 <= j < before.len() && before[j].0 == k2;
            assert(after[j] == before[j]);
            lemma_lookup_at(before, j);
            lemma_lookup_at(after, j);
        } else {
            lemma_lookup_absent(before, k2, 0);
            assert forall|j: int| 0 <= j < after.len() implies after[j].0 != k2 by {
                if j != i {
                    assert(after[j] == before[j]);
                }
            }
            lemma_lookup_absent(after, k2, 0);
        }
    }
}

/// Inserting a new name at its place in the order keeps the order and changes
/// the lookup of that name only.
proof fn lemma_after_insert<V>(before: Seq<(Seq<char>, V)>, i: int, k: Seq<char>, v: V)
    requires
        keys_ascending(before),
        0 <= i <= before.len(),
        forall|j: int| 0 <= j < i ==> lex_lt(#[trigger] before[j].0, k),
        forall|j: int| i <= j < before.len() ==> lex_lt(k, #[trigger] before[j].0),
    ensures
        keys_ascending(before.insert(i, (k, v))),
        lookup(before.insert(i, (k, v)), k) == Some(v),
        forall|k2: Seq<char>| k2 != k ==> lookup(before.insert(i, (k, v)), k2) == lookup(before, k2),
{
    let after = before.insert(i, (k, v));
    assert forall|a: int, b: int| 0 <= a < b < after.len() implies lex_lt(
        #[trigger] after[a].0,
        #[trigger] after[b].0,
    ) by {
        if b < i {
            assert(after[a] == before[a] && after[b] == before[b]);
        } else if b == i {
            assert(after[a] == before[a]);
        } else if a < i {
            assert(after[a] == before[a] && after[b] == before[b - 1]);
            lemma_lex_transitive(before[a].0, k, before[b - 1].0);
        } else if a == i {
            assert(after[b] == before[b - 1]);
        } else {
            assert(after[a] == before[a - 1] && after[b] == before[b - 1]);
        }
    }
    lemma_lookup_at(after, i);
    assert forall|k2: Seq<char>| k2 != k implies lookup(after, k2) == lookup(before, k2) by {
        if exists|j: int| 0 <= j < before.len() && before[j].0 == k2 {
            let j = choose|j: int| 0 <= j < before.len() && before[j].0 == k2;
            lemma_lookup_at(before, j);
            if j < i {
                assert(after[j] == before[j]);
                lemma_lookup_at(after, j);
            } else {
                assert(after[j + 1] == before[j]);
                lemma_lookup_at(after, j + 1);
            }
        } else {
            lemma_lookup_absent(before, k2, 0);
            assert forall|j: int| 0 <= j < after.len() implies after[j].0 != k2 by {
                if j < i {
                    assert(after[j] == before[j]);
                } else if j > i {
                    assert(after[j] == before[j - 1]);
                }
            }
            lemma_lookup_absent(after, k2, 0);
        }
    }
}

/// Taking an entry out of ascending entries keeps the order, loses that
/// entry's name, and changes the lookup of no other name.
proof fn lemma_after_remove<V>(before: Seq<(Seq<char>, V)>, i: int)
    requires
        keys_ascending(before),
        0 <= i < before.len(),
    ensures
        keys_ascending(before.remove(i)),
        lookup(before.remove(i), before[i].0) is None,
        forall|k2: Seq<char>| k2 != before[i].0 ==> lookup(before.remove(i), k2) == lookup(before, k2),
{
    let k = before[i].0;
    let after = before.remove(i);
    assert forall|a: int, b: int| 0 <= a < b < after.len() implies lex_lt(
        #[trigger] after[a].0,
        #[trigger] after[b].0,
    ) by {
        let a0 = if a < i { a } else { a + 1 };
        let b0 = if b < i { b } else { b + 1 };
        assert(after[a] == before[a0] && after[b] == before[b0]);
    }
    assert forall|j: int| 0 <= j < after.len() implies after[j].0 != k by {
        let j0 = if j < i { j } else { j + 1 };
        assert(after[j] == before[j0]);
        lemma_lex_irreflexive(k);
    }
    lemma_lookup_absent(after, k, 0);
    assert forall|k2: Seq<char>| k2 != k implies lookup(after, k2) == lookup(before, k2) by {
        if exists|j: int| 0 <= j < before.len() && before[j].0 == k2 {
            let j = choose|j: int| 0 <= j < before.len() && before[j].0 == k2;
            lemma_lookup_at(before, j);
            if j < i {
                assert(after[j] == before[j]);
                lemma_lookup_at(after, j);
            } else {
                assert(after[j - 1] == before[j]);
                lemma_lookup_at(after, j - 1);
            }
        } else {
            lemma_lookup_absent(before, k2, 0);
            assert forall|j: int| 0 <= j < after.len() implies after[j].0 != k2 by {
                let j0 = if j < i { j } else { j + 1 };
                assert(after[j] == before[j0]);
            }
            lemma_lookup_absent(after, k2, 0);
        }
    }
}

/// Role entries with each name taken as its characters.
spec fn entries_view<V>(v: Seq<(String, V)>) -> Seq<(Seq<char>, V)> {
    Seq::new(v.len(), |i: int| (v[i].0@, v[i].1))
}

/// Values keyed by name and kept in name order, so that they are visited in
/// the same order on every run.
#[derive(Debug)]
pub struct NameMap<V> {
    entries: Vec<(String, V)>,
}

impl<V> View for NameMap<V> {
    type V = Seq<(Seq<char>, V)>;

    closed spec fn view(&self) -> Seq<(Seq<char>, V)> {
        entries_view(self.entries@)
    }
}

impl<V> NameMap<V> {
    #[verifier::type_invariant]
    spec fn wf(self) -> bool {
        keys_ascending(self@)
    }

    /// An empty map.
    pub fn new() -> (r: Self)
        ensures
            r@ == Seq::<(Seq<char>, V)>::empty(),
    {
        let r = NameMap { entries: Vec::new() };
        assert(r@ =~= Seq::<(Seq<char>, V)>::empty());
        r
    }

    /// How many entries the map holds.
    pub fn len(&self) -> (r: usize)
        ensures
            r == self@.len(),
    {
        self.entries.len()
    }

    /// Whether the map holds no entry.
    pub fn is_empty(&self) -> (r: bool)
        ensures
            r == (self@.len() == 0),
    {
        self.entries.len() == 0
    }

    /// Removes every entry.
    pub fn clear(&mut self)
        ensures
            final(self)@ == Seq::<(Seq<char>, V)>::empty(),
    {
        let mut empty: Vec<(String, V)> = Vec::new();
        std::mem::swap(&mut empty, &mut self.entries);
        assert(self@ =~= Seq::<(Seq<char>, V)>::empty());
    }

    /// The entries, in ascending name order.
    pub fn entries(&self) -> (r: &[(String, V)])
        ensures
            r@.len() == self@.len(),
            forall|i: int|
                0 <= i < r@.len() ==> (#[trigger] r@[i]).0@ == self@[i].0 && r@[i].1 == self@[i].1,
            keys_ascending(self@),
    {
        proof {
            use_type_invariant(self);
        }
        self.entries.as_slice()
    }

    /// The value named `name`.
    pub fn get(&self, name: &str) -> (r: Option<&V>)
        ensures
            r is None <==> lookup(self@, name@) is None,
            r matches Some(x) ==> lookup(self@, name@) == Some(*x),
            keys_ascending(self@),
    {
        proof {
            use_type_invariant(self);
        }
        let mut i: usize = 0;
        while i < self.entries.len()
            invariant
                0 <= i <= self@.len(),
                self@.len() == self.entries@.len(),
                self@ == entries_view(self.entries@),
                keys_ascending(self@),
                lookup(self@, name@) == lookup_from(self@, name@, i as int),
            decreases self@.len() - i,
        {
            let e = &self.entries[i];
            assert(self@[i as int].0 == e.0@);
            if str_eq(e.0.as_str(), name) {
                return Some(&e.1);
            }
            i = i + 1;
        }
        None
    }

    /// Whether a value named `name` is present.
    pub fn contains_key(&self, name: &str) -> (r: bool)
        ensures
            r == lookup(self@, name@) is Some,
    {
        self.get(name).is_some()
    }

    /// Sets the value named `name`, replacing any it had.
    pub fn insert(&mut self, name: String, value: V)
        ensures
            lookup(final(self)@, name@) == Some(value),
            forall|k: Seq<char>| k != name@ ==> lookup(final(self)@, k) == lookup(old(self)@, k),
            final(self)@.len() == old(self)@.len() + if lookup(old(self)@, name@) is Some {
                0int
            } else {
                1int
            },
            keys_ascending(final(self)@),
            as_map(final(self)@) == as_map(old(self)@).insert(name@, value),
    {
        proof {
            use_type_invariant(&*self);
        }
        let ghost before = self@;
        let ghost k = name@;
        let n = self.entries.len();
        let mut i: usize = 0;
        while i < n
            invariant
                0 <= i <= n,
                n == before.len(),
                n == self.entries@.len(),
                before == entries_view(self.entries@),
                k == name@,
                forall|j: int| 0 <= j < i ==> lex_lt(#[trigger] before[j].0, k),
            ensures
                0 <= i <= n,
                forall|j: int| 0 <= j < i ==> lex_lt(#[trigger] before[j].0, k),
                i < n ==> !lex_lt(before[i as int].0, k),
            decreases n - i,
        {
            assert(before[i as int].0 == self.entries@[i as int].0@);
            if !str_lt(self.entries[i].0.as_str(), name.as_str()) {
                break;
            }
            i = i + 1;
        }
        proof {
            lemma_lookup_exact(before, k);
        }
        let mut entries: Vec<(String, V)> = Vec::new();
        std::mem::swap(&mut entries, &mut self.entries);
        if i < n && str_eq(entries[i].0.as_str(), name.as_str()) {
            assert(before[i as int].0 == k);
            entries.set(i, (name, value));
            proof {
                assert(entries_view(entries@) =~= before.update(i as int, (k, value)));
                lemma_after_update(before, i as int, k, value);
            }
            self.entries = entries;
        } else {
            proof {
                if i < n {
                    assert(before[i as int].0 == entries@[i as int].0@);
                    lemma_lex_total(before[i as int].0, k);
                }
                assert forall|j: int| i <= j < before.len() implies lex_lt(k, #[trigger] before[j].0) by {
                    if j > i {
                        lemma_lex_transitive(k, before[i as int].0, before[j].0);
                    }
                }
                assert forall|j: int| 0 <= j < before.len() implies before[j].0 != k by {
                    lemma_lex_irreflexive(k);
                }
            }
            entries.insert(i, (name, value));
            proof {
                assert(entries_view(entries@) =~= before.insert(i as int, (k, value)));
                lemma_after_insert(before, i as int, k, value);
            }
            self.entries = entries;
        }
        assert(as_map(self@) =~= as_map(before).insert(k, value));
    }

    /// Takes out the value named `name`, if there is one.
    pub fn remove(&mut self, name: &str) -> (r: Option<V>)
        ensures
            r == lookup(old(self)@, name@),
            lookup(final(self)@, name@) is None,
            forall|k: Seq<char>| k != name@ ==> lookup(final(self)@, k) == lookup(old(self)@, k),
            final(self)@.len() == old(self)@.len() - if r is Some {
                1int
            } else {
                0int
            },
            keys_ascending(final(self)@),
            as_map(final(self)@) == as_map(old(self)@).remove(name@),
    {
        proof {
            use_type_invariant(&*self);
        }
        let ghost before = self@;
        let n = self.entries.len();
        let mut i: usize = 0;
        while i < n
            invariant
                0 <= i <= n,
                n == before.len(),
                n == self.entries@.len(),
                before == entries_view(self.entries@),
                keys_ascending(before),
                before == old(self)@,
                lookup(before, name@) == lookup_from(before, name@, i as int),
            decreases n - i,
        {
            assert(before[i as int].0 == self.entries@[i as int].0@);
            if str_eq(self.entries[i].0.as_str(), name) {
                let mut entries: Vec<(String, V)> = Vec::new();
                std::mem::swap(&mut entries, &mut self.entries);
                let (_, value) = entries.remove(i);
                proof {
                    lemma_lookup_at(before, i as int);
                    assert(entries_view(entries@) =~= before.remove(i as int));
                    lemma_after_remove(before, i as int);
                }
                self.entries = entries;
                assert(as_map(self@) =~= as_map(before).remove(name@));
                return Some(value);
            }
            i = i + 1;
        }
        assert(as_map(self@) =~= as_map(before).remove(name@));
        None
    }
    /// Replaces the value named `name`, if there is one, keeping every entry
    /// in its place; gives whether there was one.
    pub fn set_existing(&mut self, name: &str, value: V) -> (r: bool)
        ensures
            keys_ascending(old(self)@),
            r == (lookup(old(self)@, name@) is Some),
            final(self)@ == old(self)@.map_values(
                |e: (Seq<char>, V)|
                    if e.0 == name@ {
                        (e.0, value)
                    } else {
                        e
                    },
            ),
    {
        proof {
            use_type_invariant(&*self);
        }
        let ghost before = self@;
        let n = self.entries.len();
        let mut i: usize = 0;
        while i < n
            invariant
                0 <= i <= n,
                n == before.len(),
                n == self.entries@.len(),
                before == entries_view(self.entries@),
                keys_ascending(before),
                before == old(self)@,
                lookup(before, name@) == lookup_from(before, name@, i as int),
                forall|j: int| 0 <= j < i ==> before[j].0 != name@,
            decreases n - i,
        {
            assert(before[i as int].0 == self.entries@[i as int].0@);
            if str_eq(self.entries[i].0.as_str(), name) {
                let mut entries: Vec<(String, V)> = Vec::new();
                std::mem::swap(&mut entries, &mut self.entries);
                let key = entries[i].0.clone();
                entries.set(i, (key, value));
                proof {
                    lemma_lookup_at(before, i as int);
                    assert forall|j: int| 0 <= j < n && j != i implies before[j].0 != name@ by {
                        if j > i {
                            lemma_lex_irreflexive(name@);
                        }
                    }
                    assert(entries_view(entries@) =~= before.map_values(
                        |e: (Seq<char>, V)|
                            if e.0 == name@ {
                                (e.0, value)
                            } else {
                                e
                            },
                    ));
                    lemma_after_update(before, i as int, name@, value);
                }
                self.entries = entries;
                return true;
            }
            i = i + 1;
        }
        assert(self@ =~= before.map_values(
            |e: (Seq<char>, V)|
                if e.0 == name@ {
                    (e.0, value)
                } else {
                    e
                },
        ));
        false
    }
}


} // verus!
