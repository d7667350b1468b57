//! What holds of every dispatch: who is called, how often, and in which
//! order.

use vstd::prelude::*;
use crate::callbacks::{
    calls_of, deliveries_for, dispatch_plan, lemma_registered_for_places, registered_for,
    DeliveryView, Selector,
};
use crate::cycle::cycle_plan;
use crate::diff::{changed, diff_of};
use crate::names::name_precedes;
use crate::states::{
    ascending, entries_map, lemma_entries_count, lemma_sorted_entries, lemma_sorted_exists,
    sorted_entries, StateMap,
};

verus! {

/// A registration with this target is told when the coil `name` changes.
pub open spec fn listens_to(target: Selector, name: Seq<char>) -> bool {
    target == Selector::Any || target == Selector::Coil(name)
}

/// The number of elements of `s` of which `pred` holds.
pub open spec fn count<A>(s: Seq<A>, pred: spec_fn(A) -> bool) -> nat
    decreases s.len(),
{
    if s.len() == 0 {
        0
    } else {
        count(s.drop_last(), pred) + if pred(s.last()) {
            1nat
        } else {
            0nat
        }
    }
}

/// The calls that go to the registration at `place`.
pub open spec fn to_place(place: int) -> spec_fn(DeliveryView) -> bool {
    |call: DeliveryView| call.handler == place
}

/// The changes of which a registration with target `target` is told.
pub open spec fn heard_by(target: Selector) -> spec_fn((Seq<char>, (bool, bool))) -> bool {
    |change: (Seq<char>, (bool, bool))| listens_to(target, change.0)
}

/// Counting over two sequences put together.
pub proof fn lemma_count_add<A>(a: Seq<A>, b: Seq<A>, pred: spec_fn(A) -> bool)
    ensures
        count(a + b, pred) == count(a, pred) + count(b, pred),
    decreases b.len(),
{
    if b.len() == 0 {
        assert(a + b =~= a);
    } else {
        assert((a + b).drop_last() =~= a + b.drop_last());
        lemma_count_add(a, b.drop_last(), pred);
    }
}

/// Among the calls for the registrations with one target, a registration
/// with that target is called once, and no other is called.
proof fn lemma_calls_per_target(
    targets: Seq<Selector>,
    wanted: Selector,
    name: Seq<char>,
    old_value: bool,
    new_value: bool,
    place: int,
)
    ensures
        count(
            calls_of(registered_for(targets, wanted), name, old_value, new_value),
            to_place(place),
        ) == if 0 <= place < targets.len() && targets[place] == wanted {
            1nat
        } else {
            0nat
        },
    decreases targets.len(),
{
    if targets.len() > 0 {
        let earlier = targets.drop_last();
        let places = registered_for(earlier, wanted);
        lemma_calls_per_target(earlier, wanted, name, old_value, new_value, place);
        if targets.last() == wanted {
            let last = targets.len() - 1;
            assert(calls_of(places.push(last), name, old_value, new_value).drop_last() =~= calls_of(
                places,
                name,
                old_value,
                new_value,
            ));
        }
    }
}

/// When a coil changes, every registration that listens to it is called
/// exactly once for that change, and no other registration is called.
pub proof fn law_called_once_for_a_change(
    targets: Seq<Selector>,
    change: (Seq<char>, (bool, bool)),
    place: int,
)
    requires
        0 <= place < targets.len(),
    ensures
        count(deliveries_for(targets, change), to_place(place)) == if listens_to(
            targets[place],
            change.0,
        ) {
            1nat
        } else {
            0nat
        },
{
    let named = calls_of(
        registered_for(targets, Selector::Coil(change.0)),
        change.0,
        change.1.0,
        change.1.1,
    );
    let any = calls_of(registered_for(targets, Selector::Any), change.0, change.1.0, change.1.1);
    lemma_calls_per_target(
        targets,
        Selector::Coil(change.0),
        change.0,
        change.1.0,
        change.1.1,
        place,
    );
    lemma_calls_per_target(targets, Selector::Any, change.0, change.1.0, change.1.1, place);
    lemma_count_add(named, any, to_place(place));
}

/// Over a whole dispatch a registration is called as many times as there
/// are changes that it listens to.
pub proof fn law_called_once_per_change(
    targets: Seq<Selector>,
    changes: Seq<(Seq<char>, (bool, bool))>,
    place: int,
)
    requires
        0 <= place < targets.len(),
    ensures
        count(dispatch_plan(targets, changes), to_place(place)) == count(
            changes,
            heard_by(targets[place]),
        ),
    decreases changes.len(),
{
    if changes.len() > 0 {
        law_called_once_per_change(targets, changes.drop_last(), place);
        law_called_once_for_a_change(targets, changes.last(), place);
        lemma_count_add(
            dispatch_plan(targets, changes.drop_last()),
            deliveries_for(targets, changes.last()),
            to_place(place),
        );
    }
}

/// A handler registered for every coil is called once for each changed
/// coil: as many times as the difference has entries.
pub proof fn law_wildcard_called_for_every_change(
    targets: Seq<Selector>,
    changes: Seq<(Seq<char>, (bool, bool))>,
    place: int,
)
    requires
        0 <= place < targets.len(),
        targets[place] == Selector::Any,
    ensures
        count(dispatch_plan(targets, changes), to_place(place)) == changes.len(),
{
    law_called_once_per_change(targets, changes, place);
    lemma_all_heard_by_any(changes);
}

/// A registration for every coil hears every change.
proof fn lemma_all_heard_by_any(changes: Seq<(Seq<char>, (bool, bool))>)
    ensures
        count(changes, heard_by(Selector::Any)) == changes.len(),
    decreases changes.len(),
{
    if changes.len() > 0 {
        lemma_all_heard_by_any(changes.drop_last());
    }
}

/// The places that `registered_for` lists ascend.
proof fn lemma_registered_for_ascends(targets: Seq<Selector>, wanted: Selector)
    ensures
        forall|i: int, j: int|
            0 <= i < j < registered_for(targets, wanted).len() ==> registered_for(targets, wanted)[i]
                < registered_for(targets, wanted)[j],
    decreases targets.len(),
{
    if targets.len() > 0 {
        lemma_registered_for_ascends(targets.drop_last(), wanted);
        lemma_registered_for_places(targets.drop_last(), wanted);
    }
}

/// Among the calls for one changed coil, the handlers registered for that
/// coil are called before the handlers registered for every coil, and
/// handlers with the same target are called in the order in which they
/// were registered.
pub proof fn law_order_within_a_change(
    targets: Seq<Selector>,
    change: (Seq<char>, (bool, bool)),
    first: int,
    second: int,
)
    requires
        0 <= first < second < deliveries_for(targets, change).len(),
    ensures
        ({
            let a = deliveries_for(targets, change)[first].handler;
            let b = deliveries_for(targets, change)[second].handler;
            &&& 0 <= a < targets.len()
            &&& 0 <= b < targets.len()
            &&& listens_to(targets[a], change.0)
            &&& listens_to(targets[b], change.0)
            &&& targets[a] == targets[b] ==> a < b
            &&& targets[a] == Selector::Any ==> targets[b] == Selector::Any
        }),
{
    let named = registered_for(targets, Selector::Coil(change.0));
    let any = registered_for(targets, Selector::Any);
    lemma_registered_for_places(targets, Selector::Coil(change.0));
    lemma_registered_for_places(targets, Selector::Any);
    lemma_registered_for_ascends(targets, Selector::Coil(change.0));
    lemma_registered_for_ascends(targets, Selector::Any);
    let calls = deliveries_for(targets, change);
    if first < named.len() {
        assert(calls[first].handler == named[first]);
    } else {
        assert(calls[first].handler == any[first - named.len()]);
    }
    if second < named.len() {
        assert(calls[second].handler == named[second]);
    } else {
        assert(calls[second].handler == any[second - named.len()]);
    }
}

/// Every call of a dispatch names one of the changed coils.
proof fn lemma_plan_names(targets: Seq<Selector>, changes: Seq<(Seq<char>, (bool, bool))>, k: int)
    requires
        0 <= k < dispatch_plan(targets, changes).len(),
    ensures
        exists|i: int|
            0 <= i < changes.len() && (#[trigger] changes[i]).0 == dispatch_plan(
                targets,
                changes,
            )[k].name,
    decreases changes.len(),
{
    let earlier = dispatch_plan(targets, changes.drop_last());
    if k < earlier.len() {
        lemma_plan_names(targets, changes.drop_last(), k);
        let i = choose|i: int|
            0 <= i < changes.drop_last().len() && (#[trigger] changes.drop_last()[i]).0
                == earlier[k].name;
        assert(changes[i].0 == dispatch_plan(targets, changes)[k].name);
    } else {
        assert(changes[changes.len() - 1].0 == dispatch_plan(targets, changes)[k].name);
    }
}

/// The changed coils are dispatched in ascending name order: of two calls
/// of a dispatch, the later one names the same coil as the earlier one or
/// a coil that comes after it.
pub proof fn law_changes_in_name_order(
    targets: Seq<Selector>,
    changes: Seq<(Seq<char>, (bool, bool))>,
    first: int,
    second: int,
)
    requires
        ascending(changes),
        0 <= first < second < dispatch_plan(targets, changes).len(),
    ensures
        dispatch_plan(targets, changes)[first].name == dispatch_plan(targets, changes)[second].name
            || name_precedes(
            dispatch_plan(targets, changes)[first].name,
            dispatch_plan(targets, changes)[second].name,
        ),
    decreases changes.len(),
{
    let earlier = dispatch_plan(targets, changes.drop_last());
    let last = changes.last();
    assert(ascending(changes.drop_last())) by {
        assert forall|i: int, j: int| 0 <= i < j < changes.drop_last().len() implies name_precedes(
            #[trigger] changes.drop_last()[i].0,
            #[trigger] changes.drop_last()[j].0,
        ) by {
            assert(changes.drop_last()[i] == changes[i] && changes.drop_last()[j] == changes[j]);
        }
    }
    if second < earlier.len() {
        law_changes_in_name_order(targets, changes.drop_last(), first, second);
    } else if first < earlier.len() {
        lemma_plan_names(targets, changes.drop_last(), first);
        let i = choose|i: int|
            0 <= i < changes.drop_last().len() && (#[trigger] changes.drop_last()[i]).0
                == earlier[first].name;
        assert(changes[i].0 == earlier[first].name);
        assert(name_precedes(changes[i].0, changes[changes.len() - 1].0));
    }
}

/// Two handlers registered for a coil, and after them a handler registered
/// for every coil, are called in that order, once each, when that coil
/// alone changes.
pub proof fn law_two_handlers_then_wildcard(coil: Seq<char>, old_value: bool, new_value: bool)
    ensures
        dispatch_plan(
            seq![Selector::Coil(coil), Selector::Coil(coil), Selector::Any],
            seq![(coil, (old_value, new_value))],
        ) == seq![
            DeliveryView { handler: 0, name: coil, old_value, new_value },
            DeliveryView { handler: 1, name: coil, old_value, new_value },
            DeliveryView { handler: 2, name: coil, old_value, new_value },
        ],
{
    let targets = seq![Selector::Coil(coil), Selector::Coil(coil), Selector::Any];
    let change = (coil, (old_value, new_value));
    let changes = seq![change];
    assert(registered_for(targets, Selector::Coil(coil)) =~= seq![0int, 1int]) by {
        reveal_with_fuel(registered_for, 4);
    }
    assert(registered_for(targets, Selector::Any) =~= seq![2int]) by {
        reveal_with_fuel(registered_for, 4);
    }
    assert(changes.drop_last() =~= Seq::<(Seq<char>, (bool, bool))>::empty());
    assert(dispatch_plan(targets, changes) =~= deliveries_for(targets, change)) by {
        reveal_with_fuel(dispatch_plan, 2);
    }
    assert(deliveries_for(targets, change) =~= seq![
        DeliveryView { handler: 0, name: coil, old_value, new_value },
        DeliveryView { handler: 1, name: coil, old_value, new_value },
        DeliveryView { handler: 2, name: coil, old_value, new_value },
    ]);
}

/// A cycle whose step leaves every coil at its baseline gives rise to no
/// coil-change call.
pub proof fn law_unchanged_cycle_calls_nothing(
    targets: Seq<Selector>,
    before: Map<Seq<char>, bool>,
    outputs: StateMap,
)
    requires
        forall|name: Seq<char>| !changed(before, outputs@, name),
    ensures
        diff_of(before, outputs@) == Map::<Seq<char>, (bool, bool)>::empty(),
        cycle_plan(targets, before, Ok(outputs)) == Seq::<DeliveryView>::empty(),
{
    let none = Seq::<(Seq<char>, (bool, bool))>::empty();
    assert(diff_of(before, outputs@) =~= Map::<Seq<char>, (bool, bool)>::empty());
    assert(entries_map(none) =~= Map::<Seq<char>, (bool, bool)>::empty());
    lemma_sorted_entries(none);
}

/// In a cycle whose step succeeds, a handler registered for every coil is
/// called once for each coil that changed: as many times as the difference
/// between the coils before the step and its outputs binds names.
pub proof fn law_wildcard_called_once_per_changed_coil(
    targets: Seq<Selector>,
    before: Map<Seq<char>, bool>,
    outputs: StateMap,
    place: int,
)
    requires
        0 <= place < targets.len(),
        targets[place] == Selector::Any,
    ensures
        diff_of(before, outputs@).dom().finite(),
        count(cycle_plan(targets, before, Ok(outputs)), to_place(place)) == diff_of(
            before,
            outputs@,
        ).dom().len(),
{
    let changes = diff_of(before, outputs@);
    outputs.lemma_finite();
    assert(changes.dom().subset_of(outputs@.dom()));
    vstd::set_lib::lemma_set_subset_finite(outputs@.dom(), changes.dom());
    lemma_sorted_exists(changes);
    lemma_entries_count(sorted_entries(changes));
    law_wildcard_called_for_every_change(targets, sorted_entries(changes), place);
}

/// A cycle whose step fails gives rise to no coil-change call.
pub proof fn law_failed_cycle_calls_nothing(
    targets: Seq<Selector>,
    before: Map<Seq<char>, bool>,
    message: String,
)
    ensures
        cycle_plan(targets, before, Err(message)) == Seq::<DeliveryView>::empty(),
{
}

} // verus!
