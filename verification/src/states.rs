//! Snapshots: finite maps from names to values, kept in name order.
//!
//! A snapshot of the coils or of the signals maps each declared name to its
//! boolean value; the difference between two snapshots maps each changed
//! coil to its old and new value. Both are a `NameMap`. Its entries are held
//! in ascending name order, so that walking a map visits the names in an
//! order that depends on nothing but the names themselves.

use vstd::prelude::*;
use crate::names::{
    compare_names, lemma_name_order_asymmetric, lemma_name_order_total,
    lemma_name_order_transitive, name_precedes, NameOrder,
};

verus! {

/// The names of `s` are strictly ascending in the name order.
pub open spec fn ascending<T>(s: Seq<(Seq<char>, T)>) -> bool {
    forall|i: int, j: int| 0 <= i < j < s.len() ==> name_precedes(#[trigger] s[i].0, #[trigger] s[j].0)
}

/// Some entry of `s` has the name `name`.
pub open spec fn has_name<T>(s: Seq<(Seq<char>, T)>, name: Seq<char>) -> bool {
    exists|i: int| 0 <= i < s.len() && (#[trigger] s[i]).0 == name
}

/// The position of an entry of `s` named `name`, if there is one.
pub open spec fn index_of<T>(s: Seq<(Seq<char>, T)>, name: Seq<char>) -> int {
    choose|i: int| 0 <= i < s.len() && (#[trigger] s[i]).0 == name
}

/// The map that a sequence of entries stands for.
pub open spec fn entries_map<T>(s: Seq<(Seq<char>, T)>) -> Map<Seq<char>, T> {
    Map::new(|name: Seq<char>| has_name(s, name), |name: Seq<char>| s[index_of(s, name)].1)
}

/// In an ascending sequence every name occurs at one position only.
pub proof fn lemma_index_of_entry<T>(s: Seq<(Seq<char>, T)>, i: int)
    requires
        ascending(s),
        0 <= i < s.len(),
    ensures
        has_name(s, s[i].0),
        index_of(s, s[i].0) == i,
        entries_map(s).contains_key(s[i].0),
        entries_map(s)[s[i].0] == s[i].1,
{
    let j = index_of(s, s[i].0);
    if j < i {
        lemma_name_order_asymmetric(s[j].0, s[i].0);
    } else if i < j {
        lemma_name_order_asymmetric(s[i].0, s[j].0);
    }
}

/// Putting a name that is not yet present at its place in an ascending
/// sequence keeps the sequence ascending and adds the name to the map.
pub proof fn lemma_insert_entry<T>(s: Seq<(Seq<char>, T)>, p: int, name: Seq<char>, value: T)
    requires
        ascending(s),
        0 <= p <= s.len(),
        forall|i: int| 0 <= i < p ==> name_precedes((#[trigger] s[i]).0, name),
        forall|i: int| p <= i < s.len() ==> name_precedes(name, (#[trigger] s[i]).0),
    ensures
        ascending(s.insert(p, (name, value))),
        entries_map(s.insert(p, (name, value))) == entries_map(s).insert(name, value),
{
    let t = s.insert(p, (name, value));
    assert(ascending(t)) by {
        assert forall|i: int, j: int| 0 <= i < j < t.len() implies name_precedes(
            #[trigger] t[i].0,
            #[trigger] t[j].0,
        ) by {
            if j < p {
                assert(t[i] == s[i] && t[j] == s[j]);
            } else if j == p {
                assert(t[i] == s[i]);
            } else if i < p {
                assert(t[i] == s[i] && t[j] == s[j - 1]);
            } else if i == p {
                assert(t[j] == s[j - 1]);
            } else {
                assert(t[i] == s[i - 1] && t[j] == s[j - 1]);
            }
        }
    }
    assert forall|n: Seq<char>| has_name(t, n) <==> (n == name || has_name(s, n)) by {
        if has_name(t, n) {
            let i = index_of(t, n);
            if i < p {
                assert(s[i].0 == n);
            } else if i > p {
                assert(s[i - 1].0 == n);
            }
        }
        if n == name {
            assert(t[p].0 == n);
        }
        if has_name(s, n) {
            let i = index_of(s, n);
            if i < p {
                assert(t[i].0 == n);
            } else {
                assert(t[i + 1].0 == n);
            }
        }
    }
    assert forall|n: Seq<char>| has_name(t, n) implies #[trigger] entries_map(t)[n] == entries_map(
        s,
    ).insert(name, value)[n] by {
        if n == name {
            lemma_index_of_entry(t, p);
        } else {
            let i = index_of(s, n);
            lemma_index_of_entry(s, i);
            if i < p {
                assert(t[i] == s[i]);
                lemma_index_of_entry(t, i);
            } else {
                assert(t[i + 1] == s[i]);
                lemma_index_of_entry(t, i + 1);
            }
        }
    }
    assert(entries_map(t) =~= entries_map(s).insert(name, value));
}

/// Giving the entry at `p` a new value keeps the sequence ascending and
/// rebinds its name in the map.
pub proof fn lemma_replace_entry<T>(s: Seq<(Seq<char>, T)>, p: int, value: T)
    requires
        ascending(s),
        0 <= p < s.len(),
    ensures
        ascending(s.update(p, (s[p].0, value))),
        entries_map(s.update(p, (s[p].0, value))) == entries_map(s).insert(s[p].0, value),
{
    let name = s[p].0;
    let t = s.update(p, (name, value));
    assert(ascending(t)) by {
        assert forall|i: int, j: int| 0 <= i < j < t.len() implies name_precedes(
            #[trigger] t[i].0,
            #[trigger] t[j].0,
        ) by {
            assert(t[i].0 == s[i].0 && t[j].0 == s[j].0);
        }
    }
    assert forall|n: Seq<char>| has_name(t, n) <==> (n == name || has_name(s, n)) by {
        if has_name(t, n) {
            let i = index_of(t, n);
            assert(s[i].0 == n);
        }
        if n == name {
            assert(t[p].0 == n);
        }
        if has_name(s, n) {
            let i = index_of(s, n);
            assert(t[i].0 == n);
        }
    }
    assert forall|n: Seq<char>| has_name(t, n) implies #[trigger] entries_map(t)[n] == entries_map(
        s,
    ).insert(name, value)[n] by {
        if n == name {
            lemma_index_of_entry(t, p);
        } else {
            let i = index_of(s, n);
            lemma_index_of_entry(s, i);
            assert(t[i] == s[i]);
            lemma_index_of_entry(t, i);
        }
    }
    assert(entries_map(t) =~= entries_map(s).insert(name, value));
}

/// Without its last entry an ascending sequence is still ascending, and
/// stands for the map without the last name.
pub proof fn lemma_drop_last_entry<T>(s: Seq<(Seq<char>, T)>)
    requires
        ascending(s),
        s.len() > 0,
    ensures
        ascending(s.drop_last()),
        !entries_map(s.drop_last()).contains_key(s.last().0),
        entries_map(s.drop_last()) == entries_map(s).remove(s.last().0),
        entries_map(s) == entries_map(s.drop_last()).insert(s.last().0, s.last().1),
{
    let d = s.drop_last();
    let name = s.last().0;
    assert(ascending(d)) by {
        assert forall|i: int, j: int| 0 <= i < j < d.len() implies name_precedes(
            #[trigger] d[i].0,
            #[trigger] d[j].0,
        ) by {
            assert(d[i] == s[i] && d[j] == s[j]);
        }
    }
    assert forall|i: int| 0 <= i < d.len() implies name_precedes((#[trigger] d[i]).0, name) by {
        assert(d[i] == s[i]);
    }
    lemma_insert_entry(d, d.len() as int, name, s.last().1);
    assert(d.insert(d.len() as int, s.last()) =~= s);
    if has_name(d, name) {
        let i = index_of(d, name);
        lemma_name_order_asymmetric(d[i].0, name);
    }
    assert(entries_map(d) =~= entries_map(s).remove(name));
}

/// A map has one ascending sequence of entries only.
pub proof fn lemma_ascending_unique<T>(s1: Seq<(Seq<char>, T)>, s2: Seq<(Seq<char>, T)>)
    requires
        ascending(s1),
        ascending(s2),
        entries_map(s1) == entries_map(s2),
    ensures
        s1 == s2,
    decreases s1.len(),
{
    if s1.len() == 0 {
        if s2.len() > 0 {
            lemma_index_of_entry(s2, 0);
            assert(entries_map(s1).contains_key(s2[0].0));
        }
        assert(s1 =~= s2);
    } else if s2.len() == 0 {
        lemma_index_of_entry(s1, 0);
        assert(entries_map(s2).contains_key(s1[0].0));
    } else {
        let a = s1.last();
        let b = s2.last();
        lemma_index_of_entry(s1, s1.len() - 1);
        lemma_index_of_entry(s2, s2.len() - 1);
        assert(entries_map(s2).contains_key(a.0));
        assert(entries_map(s1).contains_key(b.0));
        let j = index_of(s2, a.0);
        let k = index_of(s1, b.0);
        if j < s2.len() - 1 {
            assert(name_precedes(s2[j].0, s2[s2.len() - 1].0));
            if k < s1.len() - 1 {
                assert(name_precedes(s1[k].0, s1[s1.len() - 1].0));
            }
            lemma_name_order_asymmetric(a.0, b.0);
        }
        assert(a.0 == b.0);
        assert(a == b);
        lemma_drop_last_entry(s1);
        lemma_drop_last_entry(s2);
        lemma_ascending_unique(s1.drop_last(), s2.drop_last());
        assert(s1 =~= s1.drop_last().push(a));
        assert(s2 =~= s2.drop_last().push(b));
    }
}

/// The entries of a map in ascending name order.
pub open spec fn sorted_entries<T>(m: Map<Seq<char>, T>) -> Seq<(Seq<char>, T)> {
    choose|s: Seq<(Seq<char>, T)>| ascending(s) && entries_map(s) == m
}

/// The map that a sequence of entries stands for binds finitely many names.
pub proof fn lemma_entries_map_finite<T>(s: Seq<(Seq<char>, T)>)
    ensures
        entries_map(s).dom().finite(),
    decreases s.len(),
{
    if s.len() == 0 {
        assert(entries_map(s).dom() =~= Set::<Seq<char>>::empty());
    } else {
        let d = s.drop_last();
        lemma_entries_map_finite(d);
        assert forall|n: Seq<char>| has_name(s, n) <==> (has_name(d, n) || n == s.last().0) by {
            if has_name(s, n) {
                let i = index_of(s, n);
                if i < d.len() {
                    assert(d[i].0 == n);
                }
            }
            if has_name(d, n) {
                let i = index_of(d, n);
                assert(s[i].0 == n);
            }
            if n == s.last().0 {
                assert(s[s.len() - 1].0 == n);
            }
        }
        assert(entries_map(s).dom() =~= entries_map(d).dom().insert(s.last().0));
    }
}

/// An ascending sequence has as many entries as its map binds names.
pub proof fn lemma_entries_count<T>(s: Seq<(Seq<char>, T)>)
    requires
        ascending(s),
    ensures
        entries_map(s).dom().finite(),
        entries_map(s).dom().len() == s.len(),
    decreases s.len(),
{
    lemma_entries_map_finite(s);
    if s.len() == 0 {
        assert(entries_map(s).dom() =~= Set::<Seq<char>>::empty());
    } else {
        let d = s.drop_last();
        lemma_drop_last_entry(s);
        lemma_entries_count(d);
        assert(entries_map(s).dom() =~= entries_map(d).dom().insert(s.last().0));
    }
}

/// The number of entries at the head of `s` whose name precedes `name`.
spec fn rank<T>(s: Seq<(Seq<char>, T)>, name: Seq<char>) -> int
    decreases s.len(),
{
    if s.len() == 0 {
        0
    } else if name_precedes(s.last().0, name) {
        s.len() as int
    } else {
        rank(s.drop_last(), name)
    }
}

/// In an ascending sequence the entries whose name precedes `name` are the
/// first `rank(s, name)` ones.
proof fn lemma_rank<T>(s: Seq<(Seq<char>, T)>, name: Seq<char>)
    requires
        ascending(s),
    ensures
        0 <= rank(s, name) <= s.len(),
        forall|i: int| 0 <= i < rank(s, name) ==> name_precedes((#[trigger] s[i]).0, name),
        forall|i: int| rank(s, name) <= i < s.len() ==> !name_precedes((#[trigger] s[i]).0, name),
    decreases s.len(),
{
    if s.len() > 0 {
        let d = s.drop_last();
        lemma_drop_last_entry(s);
        lemma_rank(d, name);
        if name_precedes(s.last().0, name) {
            assert forall|i: int| 0 <= i < s.len() implies name_precedes(
                (#[trigger] s[i]).0,
                name,
            ) by {
                if i < s.len() - 1 {
                    assert(name_precedes(s[i].0, s[s.len() - 1].0));
                    lemma_name_order_transitive(s[i].0, s.last().0, name);
                }
            }
        } else {
            assert forall|i: int| 0 <= i < rank(s, name) implies name_precedes(
                (#[trigger] s[i]).0,
                name,
            ) by {
                assert(s[i] == d[i]);
            }
            assert forall|i: int| rank(s, name) <= i < s.len() implies !name_precedes(
                (#[trigger] s[i]).0,
                name,
            ) by {
                if i < s.len() - 1 {
                    assert(s[i] == d[i]);
                }
            }
        }
    }
}

/// Every map that binds finitely many names has an ascending sequence of
/// entries.
pub proof fn lemma_sorted_exists<T>(m: Map<Seq<char>, T>)
    requires
        m.dom().finite(),
    ensures
        ascending(sorted_entries(m)),
        entries_map(sorted_entries(m)) == m,
    decreases m.dom().len(),
{
    if m.dom().len() == 0 {
        let none = Seq::<(Seq<char>, T)>::empty();
        assert(m.dom() =~= Set::<Seq<char>>::empty());
        assert(entries_map(none) =~= m);
        assert(ascending(none) && entries_map(none) == m);
    } else {
        let name = m.dom().choose();
        let rest = m.remove(name);
        lemma_sorted_exists(rest);
        let s = sorted_entries(rest);
        let p = rank(s, name);
        lemma_rank(s, name);
        assert forall|i: int| p <= i < s.len() implies name_precedes(name, (#[trigger] s[i]).0) by {
            lemma_index_of_entry(s, i);
            lemma_name_order_total(name, s[i].0);
        }
        lemma_insert_entry(s, p, name, m[name]);
        let t = s.insert(p, (name, m[name]));
        assert(entries_map(t) =~= m);
        assert(ascending(t) && entries_map(t) == m);
    }
}

/// An ascending sequence is the sorted entries of the map it stands for.
pub proof fn lemma_sorted_entries<T>(s: Seq<(Seq<char>, T)>)
    requires
        ascending(s),
    ensures
        sorted_entries(entries_map(s)) == s,
{
    lemma_ascending_unique(sorted_entries(entries_map(s)), s);
}

/// A finite map from names to values of type `T`, held in ascending name
/// order.
#[derive(Debug, PartialEq, Eq)]
pub struct NameMap<T> {
    entries: Vec<(String, T)>,
}

/// The value of every coil, or of every signal, at one moment.
pub type StateMap = NameMap<bool>;

/// The coils whose value changed over one cycle, each with its value before
/// and after.
pub type ChangeMap = NameMap<(bool, bool)>;

impl<T> View for NameMap<T> {
    type V = Map<Seq<char>, T>;

    closed spec fn view(&self) -> Map<Seq<char>, T> {
        entries_map(self.entries())
    }
}

impl<T> NameMap<T> {
    /// The entries in the order in which the map is walked: ascending by
    /// name.
    pub closed spec fn entries(&self) -> Seq<(Seq<char>, T)> {
        self.entries@.map_values(|e: (String, T)| (e.0@, e.1))
    }

    /// What every map keeps to: its entries ascend by name.
    #[verifier::type_invariant]
    pub open spec fn ordered(&self) -> bool {
        ascending(self.entries())
    }

    /// A map binds finitely many names.
    pub proof fn lemma_finite(&self)
        ensures
            self@.dom().finite(),
    {
        lemma_entries_map_finite(self.entries());
    }

    /// The view of a map is made of its entries: every entry binds its name
    /// to its value, and every bound name is the name of an entry.
    pub proof fn lemma_entries(&self)
        requires
            ascending(self.entries()),
        ensures
            self@ == entries_map(self.entries()),
            self.entries() == sorted_entries(self@),
            forall|i: int|
                0 <= i < self.entries().len() ==> self@.contains_key(
                    (#[trigger] self.entries()[i]).0,
                ) && self@[self.entries()[i].0] == self.entries()[i].1,
            forall|name: Seq<char>|
                self@.contains_key(name) ==> has_name(self.entries(), name),
    {
        assert forall|i: int| 0 <= i < self.entries().len() implies self@.contains_key(
            (#[trigger] self.entries()[i]).0,
        ) && self@[self.entries()[i].0] == self.entries()[i].1 by {
            lemma_index_of_entry(self.entries(), i);
        }
        lemma_sorted_entries(self.entries());
    }
}

impl<T: Copy> NameMap<T> {
    /// The empty map.
    pub fn new() -> (r: Self)
        ensures
            r@ == Map::<Seq<char>, T>::empty(),
            r.entries() == Seq::<(Seq<char>, T)>::empty(),
    {
        let r = NameMap { entries: Vec::new() };
        proof {
            assert(r.entries() =~= Seq::<(Seq<char>, T)>::empty());
            assert(r@ =~= Map::<Seq<char>, T>::empty());
        }
        r
    }

    /// The number of names in the map.
    pub fn len(&self) -> (r: usize)
        ensures
            r == self.entries().len(),
            r == self@.len(),
    {
        proof {
            use_type_invariant(self);
            lemma_entries_count(self.entries());
        }
        self.entries.len()
    }

    /// Whether the map holds no name.
    pub fn is_empty(&self) -> (r: bool)
        ensures
            r == (self.entries().len() == 0),
            r == (self@ == Map::<Seq<char>, T>::empty()),
    {
        proof {
            use_type_invariant(self);
            self.lemma_entries();
            if self.entries().len() == 0 {
                assert(self@ =~= Map::<Seq<char>, T>::empty());
            } else {
                assert(self@.contains_key(self.entries()[0].0));
            }
        }
        self.entries.len() == 0
    }

    /// Where `name` stands among the entries: the number of entries whose
    /// name precedes it, and whether the entry at that place bears it.
    fn position(&self, name: &str) -> (r: (usize, bool))
        ensures
            r.0 <= self.entries().len(),
            forall|i: int| 0 <= i < r.0 ==> name_precedes((#[trigger] self.entries()[i]).0, name@),
            r.1 ==> r.0 < self.entries().len() && self.entries()[r.0 as int].0 == name@,
            !r.1 ==> forall|i: int|
                r.0 <= i < self.entries().len() ==> name_precedes(
                    name@,
                    (#[trigger] self.entries()[i]).0,
                ),
            r.1 == self@.contains_key(name@),
            r.1 ==> self@[name@] == self.entries()[r.0 as int].1,
    {
        proof {
            use_type_invariant(self);
        }
        let mut p: usize = 0;
        let mut found = false;
        while p < self.entries.len()
            invariant_except_break
                !found,
            invariant
                ascending(self.entries()),
                p <= self.entries().len(),
                forall|i: int| 0 <= i < p ==> name_precedes((#[trigger] self.entries()[i]).0, name@),
            ensures
                p <= self.entries().len(),
                forall|i: int| 0 <= i < p ==> name_precedes((#[trigger] self.entries()[i]).0, name@),
                found ==> p < self.entries().len() && self.entries()[p as int].0 == name@,
                !found ==> forall|i: int|
                    p <= i < self.entries().len() ==> name_precedes(
                        name@,
                        (#[trigger] self.entries()[i]).0,
                    ),
            decreases self.entries().len() - p,
        {
            match compare_names(self.entries[p].0.as_str(), name) {
                NameOrder::Before => {
                    p += 1;
                },
                NameOrder::Same => {
                    found = true;
                    break ;
                },
                NameOrder::After => {
                    proof {
                        assert forall|i: int| p <= i < self.entries().len() implies name_precedes(
                            name@,
                            (#[trigger] self.entries()[i]).0,
                        ) by {
                            if p < i {
                                lemma_name_order_transitive(
                                    name@,
                                    self.entries()[p as int].0,
                                    self.entries()[i].0,
                                );
                            }
                        }
                    }
                    break ;
                },
            }
        }
        proof {
            if found {
                lemma_index_of_entry(self.entries(), p as int);
            } else {
                if has_name(self.entries(), name@) {
                    let i = index_of(self.entries(), name@);
                    if i < p {
                        lemma_name_order_asymmetric(self.entries()[i].0, name@);
                    } else {
                        lemma_name_order_asymmetric(name@, self.entries()[i].0);
                    }
                }
            }
        }
        (p, found)
    }

    /// The value that `name` is bound to, if it is bound.
    pub fn get(&self, name: &str) -> (r: Option<&T>)
        ensures
            match r {
                Some(value) => self@.contains_key(name@) && *value == self@[name@],
                None => !self@.contains_key(name@),
            },
    {
        let (p, found) = self.position(name);
        if found {
            Some(&self.entries[p].1)
        } else {
            None
        }
    }

    /// Whether `name` is bound.
    pub fn contains_key(&self, name: &str) -> (r: bool)
        ensures
            r == self@.contains_key(name@),
    {
        let (_, found) = self.position(name);
        found
    }

    /// Binds `name` to `value`, and returns the value it was bound to
    /// before, if any. Every other name keeps its value.
    pub fn insert(&mut self, name: String, value: T) -> (previous: Option<T>)
        ensures
            final(self)@ == old(self)@.insert(name@, value),
            match previous {
                Some(before) => old(self)@.contains_key(name@) && before == old(self)@[name@],
                None => !old(self)@.contains_key(name@),
            },
    {
        proof {
            use_type_invariant(&*self);
        }
        let (p, found) = self.position(name.as_str());
        let ghost before = self.entries();
        let mut entries: Vec<(String, T)> = Vec::new();
        proof {
            assert(entries@.map_values(|e: (String, T)| (e.0@, e.1)) =~= Seq::<
                (Seq<char>, T),
            >::empty());
        }
        core::mem::swap(&mut self.entries, &mut entries);
        let previous = if found {
            let previous = entries[p].1;
            proof {
                lemma_replace_entry(before, p as int, value);
                assert(entries@.update(p as int, (name, value)).map_values(
                    |e: (String, T)| (e.0@, e.1),
                ) =~= before.update(p as int, (name@, value)));
            }
            entries.set(p, (name, value));
            Some(previous)
        } else {
            proof {
                lemma_insert_entry(before, p as int, name@, value);
                assert(entries@.insert(p as int, (name, value)).map_values(
                    |e: (String, T)| (e.0@, e.1),
                ) =~= before.insert(p as int, (name@, value)));
            }
            entries.insert(p, (name, value));
            None
        };
        core::mem::swap(&mut self.entries, &mut entries);
        previous
    }

    /// The name of the entry at place `i`, counting in ascending name order.
    pub fn name_at(&self, i: usize) -> (r: &str)
        requires
            i < self.entries().len(),
        ensures
            r@ == self.entries()[i as int].0,
    {
        self.entries[i].0.as_str()
    }

    /// The value of the entry at place `i`, counting in ascending name order.
    pub fn value_at(&self, i: usize) -> (r: T)
        requires
            i < self.entries().len(),
        ensures
            r == self.entries()[i as int].1,
    {
        self.entries[i].1
    }
}

impl<T: Copy> Clone for NameMap<T> {
    /// A map with the same entries.
    fn clone(&self) -> (r: Self)
        ensures
            r.entries() == self.entries(),
            r@ == self@,
    {
        proof {
            use_type_invariant(self);
        }
        let mut entries: Vec<(String, T)> = Vec::new();
        let mut i: usize = 0;
        while i < self.entries.len()
            invariant
                i <= self.entries@.len(),
                entries@.len() == i,
                forall|j: int| 0 <= j < i ==> entries@[j] == self.entries@[j],
            decreases self.entries@.len() - i,
        {
            entries.push((self.entries[i].0.clone(), self.entries[i].1));
            i += 1;
        }
        assert(entries@ =~= self.entries@);
        NameMap { entries }
    }
}

} // verus!
