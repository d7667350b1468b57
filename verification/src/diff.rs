//! The difference between two coil snapshots.

use vstd::prelude::*;
use crate::states::{sorted_entries, ChangeMap, NameMap, StateMap};

verus! {

/// The value that a coil counts as having had before a cycle: its value in
/// the earlier snapshot, and `false` where that snapshot does not hold it.
pub open spec fn baseline(before: Map<Seq<char>, bool>, name: Seq<char>) -> bool {
    if before.contains_key(name) {
        before[name]
    } else {
        false
    }
}

/// The later snapshot holds the coil, with another value than its baseline.
pub open spec fn changed(
    before: Map<Seq<char>, bool>,
    after: Map<Seq<char>, bool>,
    name: Seq<char>,
) -> bool {
    after.contains_key(name) && baseline(before, name) != after[name]
}

/// The difference between two snapshots: each changed coil of the later
/// one, with its baseline and its new value.
pub open spec fn diff_of(before: Map<Seq<char>, bool>, after: Map<Seq<char>, bool>) -> Map<
    Seq<char>,
    (bool, bool),
> {
    Map::new(
        |name: Seq<char>| changed(before, after, name),
        |name: Seq<char>| (baseline(before, name), after[name]),
    )
}

/// One of the first `i` entries of `s` has the name `name`.
spec fn among_first<T>(s: Seq<(Seq<char>, T)>, i: int, name: Seq<char>) -> bool {
    exists|j: int| 0 <= j < i && (#[trigger] s[j]).0 == name
}

/// Computes the difference between the coil snapshot taken before a cycle
/// and the one that the cycle produced.
///
/// A coil of `after` is reported if and only if its value differs from its
/// baseline; a coil that only `before` holds is never reported.
pub fn compute_diff(before: &StateMap, after: &StateMap) -> (changes: ChangeMap)
    ensures
        changes@ == diff_of(before@, after@),
        forall|name: Seq<char>|
            changes@.contains_key(name) <==> after@.contains_key(name) && baseline(before@, name)
                != after@[name],
        forall|name: Seq<char>|
            changes@.contains_key(name) ==> changes@[name] == (baseline(before@, name), after@[name]),
        changes.entries() == sorted_entries(diff_of(before@, after@)),
{
    let mut changes: ChangeMap = NameMap::new();
    let n = after.len();
    let mut i: usize = 0;
    proof {
        use_type_invariant(after);
        after.lemma_entries();
    }
    while i < n
        invariant
            n == after.entries().len(),
            i <= n,
            forall|k: int|
                0 <= k < after.entries().len() ==> after@.contains_key(
                    (#[trigger] after.entries()[k]).0,
                ) && after@[after.entries()[k].0] == after.entries()[k].1,
            forall|name: Seq<char>|
                changes@.contains_key(name) <==> changed(before@, after@, name) && among_first(
                    after.entries(),
                    i as int,
                    name,
                ),
            forall|name: Seq<char>|
                changes@.contains_key(name) ==> changes@[name] == (
                    baseline(before@, name),
                    after@[name],
                ),
        decreases n - i,
    {
        let name = after.name_at(i);
        let value = after.value_at(i);
        let earlier = match before.get(name) {
            Some(v) => *v,
            None => false,
        };
        let ghost seen = changes@;
        if earlier != value {
            changes.insert(name.to_owned(), (earlier, value));
        }
        proof {
            let s = after.entries();
            assert(s[i as int].0 == name@);
            assert forall|other: Seq<char>|
                changes@.contains_key(other) <==> changed(before@, after@, other) && among_first(
                    s,
                    i + 1,
                    other,
                ) by {
                if among_first(s, i + 1, other) {
                    let j = choose|j: int| 0 <= j < i + 1 && (#[trigger] s[j]).0 == other;
                    if j < i {
                        assert(among_first(s, i as int, other));
                    }
                }
                if among_first(s, i as int, other) {
                    let j = choose|j: int| 0 <= j < i && (#[trigger] s[j]).0 == other;
                    assert(0 <= j < i + 1 && s[j].0 == other);
                }
            }
        }
        i += 1;
    }
    proof {
        let s = after.entries();
        assert forall|name: Seq<char>| changed(before@, after@, name) implies among_first(
            s,
            n as int,
            name,
        ) by {
            let j = crate::states::index_of(s, name);
            assert(0 <= j < n && s[j].0 == name);
        }
        assert(changes@ =~= diff_of(before@, after@));
        use_type_invariant(&changes);
        changes.lemma_entries();
    }
    changes
}

} // verus!
