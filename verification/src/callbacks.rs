//! Handlers for coil transitions and for the end of a cycle.
//!
//! A handler is registered either for one coil, by its name, or for every
//! coil. When the coils of a cycle's difference are dispatched, they are
//! taken in ascending name order; for each of them the handlers registered
//! for its name are called first, in the order in which they were
//! registered, and then the handlers registered for every coil, in the
//! order in which they were registered. What is to be called, and in which
//! order, is the dispatch plan; it depends on the targets of the
//! registrations and on the difference alone.

use vstd::prelude::*;
use crate::names::same_name;
use crate::states::{ChangeMap, StateMap};

verus! {

/// What a registration listens to.
pub enum Selector {
    /// The coil of this name.
    Coil(Seq<char>),
    /// Every coil.
    Any,
}

/// One call of a coil-change handler: which registration is called, counted
/// from zero in registration order, and with which arguments.
pub struct DeliveryView {
    /// The place of the registration that is called.
    pub handler: int,
    /// The coil that changed.
    pub name: Seq<char>,
    /// Its value before the cycle.
    pub old_value: bool,
    /// Its value after the cycle.
    pub new_value: bool,
}

/// The places of the registrations whose target is `wanted`, in ascending
/// order: the order in which they were registered.
pub open spec fn registered_for(targets: Seq<Selector>, wanted: Selector) -> Seq<int>
    decreases targets.len(),
{
    if targets.len() == 0 {
        Seq::empty()
    } else {
        let earlier = registered_for(targets.drop_last(), wanted);
        if targets.last() == wanted {
            earlier.push(targets.len() - 1)
        } else {
            earlier
        }
    }
}

/// The calls that `places` stand for when the coil `name` went from
/// `old_value` to `new_value`.
pub open spec fn calls_of(places: Seq<int>, name: Seq<char>, old_value: bool, new_value: bool) -> Seq<
    DeliveryView,
> {
    places.map_values(|place: int| DeliveryView { handler: place, name, old_value, new_value })
}

/// The calls that one changed coil gives rise to: the handlers registered
/// for its name, then the handlers registered for every coil.
pub open spec fn deliveries_for(targets: Seq<Selector>, change: (Seq<char>, (bool, bool))) -> Seq<
    DeliveryView,
> {
    calls_of(registered_for(targets, Selector::Coil(change.0)), change.0, change.1.0, change.1.1)
        + calls_of(registered_for(targets, Selector::Any), change.0, change.1.0, change.1.1)
}

/// The dispatch plan: the calls that the changes give rise to, the changes
/// taken in the order in which they stand.
pub open spec fn dispatch_plan(targets: Seq<Selector>, changes: Seq<(Seq<char>, (bool, bool))>) -> Seq<
    DeliveryView,
>
    decreases changes.len(),
{
    if changes.len() == 0 {
        Seq::empty()
    } else {
        dispatch_plan(targets, changes.drop_last()) + deliveries_for(targets, changes.last())
    }
}

/// Every place that `registered_for` lists is the place of a registration
/// with the wanted target.
pub proof fn lemma_registered_for_places(targets: Seq<Selector>, wanted: Selector)
    ensures
        forall|k: int|
            0 <= k < registered_for(targets, wanted).len() ==> 0 <= (#[trigger] registered_for(
                targets,
                wanted,
            )[k]) < targets.len() && targets[registered_for(targets, wanted)[k]] == wanted,
    decreases targets.len(),
{
    if targets.len() > 0 {
        lemma_registered_for_places(targets.drop_last(), wanted);
    }
}

/// Every call of a dispatch plan goes to a registration that there is, and
/// whose target is the coil that the call names or every coil.
pub proof fn lemma_plan_handlers(targets: Seq<Selector>, changes: Seq<(Seq<char>, (bool, bool))>)
    ensures
        forall|k: int|
            0 <= k < dispatch_plan(targets, changes).len() ==> {
                let call = #[trigger] dispatch_plan(targets, changes)[k];
                &&& 0 <= call.handler < targets.len()
                &&& (targets[call.handler] == Selector::Coil(call.name) || targets[call.handler]
                    == Selector::Any)
            },
    decreases changes.len(),
{
    if changes.len() > 0 {
        lemma_plan_handlers(targets, changes.drop_last());
        let change = changes.last();
        lemma_registered_for_places(targets, Selector::Coil(change.0));
        lemma_registered_for_places(targets, Selector::Any);
    }
}

/// One call of a coil-change handler, as the dispatch plan lists it.
#[derive(Debug, PartialEq, Eq)]
pub struct Delivery {
    /// The place of the registration, counted from zero in registration
    /// order.
    pub handler: usize,
    /// The coil that changed.
    pub name: String,
    /// Its value before the cycle.
    pub old_value: bool,
    /// Its value after the cycle.
    pub new_value: bool,
}

impl DeepView for Delivery {
    type V = DeliveryView;

    open spec fn deep_view(&self) -> DeliveryView {
        DeliveryView {
            handler: self.handler as int,
            name: self.name@,
            old_value: self.old_value,
            new_value: self.new_value,
        }
    }
}

/// The target of a registration as it is stored.
enum CoilTarget {
    Coil(String),
    Any,
}

impl CoilTarget {
    spec fn selector(&self) -> Selector {
        match self {
            CoilTarget::Coil(name) => Selector::Coil(name@),
            CoilTarget::Any => Selector::Any,
        }
    }

    /// Whether this is the target that `wanted` names: the coil of that
    /// name, or every coil where no name is given.
    fn is(&self, wanted: Option<&str>) -> (r: bool)
        ensures
            r == (self.selector() == selector_of(wanted)),
    {
        match self {
            CoilTarget::Coil(name) => match wanted {
                Some(other) => same_name(name.as_str(), other),
                None => false,
            },
            CoilTarget::Any => wanted.is_none(),
        }
    }
}

/// The selector that an optional coil name stands for.
spec fn selector_of(wanted: Option<&str>) -> Selector {
    match wanted {
        Some(name) => Selector::Coil(name@),
        None => Selector::Any,
    }
}

/// The registrations that a stored sequence stands for.
spec fn stored<H>(registered: Seq<(CoilTarget, H)>) -> Seq<(Selector, H)> {
    registered.map_values(|r: (CoilTarget, H)| (r.0.selector(), r.1))
}

/// The targets of a sequence of registrations.
pub open spec fn targets_of<H>(registrations: Seq<(Selector, H)>) -> Seq<Selector> {
    registrations.map_values(|r: (Selector, H)| r.0)
}

/// The handlers of a sequence of registrations.
pub open spec fn handlers_of<H>(registrations: Seq<(Selector, H)>) -> Seq<H> {
    registrations.map_values(|r: (Selector, H)| r.1)
}

/// The registrations with another target than `target`.
pub open spec fn not_for<H>(target: Selector) -> spec_fn((Selector, H)) -> bool {
    |r: (Selector, H)| r.0 != target
}

/// The registrations that are left when those for `target` are taken out:
/// the others, in their order.
pub open spec fn without<H>(registrations: Seq<(Selector, H)>, target: Selector) -> Seq<
    (Selector, H),
> {
    registrations.filter(not_for(target))
}

/// `handler` may be called for every change: with any coil name, old value
/// and new value.
pub open spec fn takes_every_change<H: Fn(&str, bool, bool)>(handler: H) -> bool {
    forall|name: &str, old_value: bool, new_value: bool|
        call_requires(handler, (name, old_value, new_value))
}

/// `handler` may be called at the end of every cycle: with any outputs.
pub open spec fn takes_every_cycle<C: Fn(&StateMap)>(handler: C) -> bool {
    forall|outputs: &StateMap| call_requires(handler, (outputs,))
}

/// Every handler of `registrations` may be called for every change.
pub open spec fn all_take_every_change<H: Fn(&str, bool, bool)>(
    registrations: Seq<(Selector, H)>,
) -> bool {
    forall|i: int|
        0 <= i < registrations.len() ==> takes_every_change((#[trigger] registrations[i]).1)
}

/// Taking the registrations for `target` out of a sequence with one more
/// registration at its end.
proof fn lemma_without_push<H>(registrations: Seq<(Selector, H)>, last: (Selector, H), target: Selector)
    ensures
        without(registrations.push(last), target) == if last.0 != target {
            without(registrations, target).push(last)
        } else {
            without(registrations, target)
        },
{
    reveal(Seq::filter);
    assert(registrations.push(last).drop_last() =~= registrations);
}

/// Handlers that may be called for every change may still be called so
/// when some registrations are taken out.
proof fn lemma_without_takes<H: Fn(&str, bool, bool)>(
    registrations: Seq<(Selector, H)>,
    target: Selector,
)
    requires
        all_take_every_change(registrations),
    ensures
        all_take_every_change(without(registrations, target)),
{
    let kept = without(registrations, target);
    assert forall|i: int| 0 <= i < kept.len() implies takes_every_change((#[trigger] kept[i]).1) by {
        assert(kept.contains(kept[i]));
        registrations.lemma_filter_contains_rev(not_for(target), kept[i]);
        let j = choose|j: int| 0 <= j < registrations.len() && registrations[j] == kept[i];
        assert(takes_every_change(registrations[j].1));
    }
}

/// A coil-change handler of any kind, for a registry that holds handlers of
/// many kinds. It receives the coil's name, its old value and its new
/// value.
pub type CoilChangeCallback = Box<dyn Fn(&str, bool, bool) + Send + Sync>;

/// A cycle-complete handler of any kind. It receives the outputs of the
/// cycle.
pub type CycleCompleteCallback = Box<dyn Fn(&StateMap) + Send + Sync>;

/// The registry of handlers: coil-change handlers of type `H`, in
/// registration order, and at most one cycle-complete handler of type `C`.
pub struct CallbackManager<H: Fn(&str, bool, bool), C: Fn(&StateMap)> {
    coil_callbacks: Vec<(CoilTarget, H)>,
    cycle_complete_callback: Option<C>,
}

impl<H: Fn(&str, bool, bool), C: Fn(&StateMap)> CallbackManager<H, C> {
    /// The coil-change registrations, in registration order: the target and
    /// the handler of each.
    pub closed spec fn registrations(&self) -> Seq<(Selector, H)> {
        stored(self.coil_callbacks@)
    }

    /// The targets of the coil-change registrations, in registration order.
    pub open spec fn targets(&self) -> Seq<Selector> {
        targets_of(self.registrations())
    }

    /// The coil-change handlers, in registration order.
    pub open spec fn coil_handlers(&self) -> Seq<H> {
        handlers_of(self.registrations())
    }

    /// The cycle-complete handler, if one is registered.
    pub closed spec fn cycle_handler(&self) -> Option<C> {
        self.cycle_complete_callback
    }

    /// What every registry keeps to: each of its handlers may be called
    /// whenever there is something to tell it.
    #[verifier::type_invariant]
    pub open spec fn accepting(&self) -> bool {
        &&& all_take_every_change(self.registrations())
        &&& self.cycle_handler() matches Some(handler) ==> takes_every_cycle(handler)
    }

    /// The calls of `plan` have been made: each of its handlers has
    /// returned from a call with the name and the values that the plan
    /// gives.
    pub open spec fn delivered(&self, plan: Seq<DeliveryView>) -> bool {
        forall|k: int|
            0 <= k < plan.len() ==> 0 <= (#[trigger] plan[k]).handler < self.coil_handlers().len()
                && exists|name: &str|
                name@ == plan[k].name && #[trigger] call_ensures(
                    self.coil_handlers()[plan[k].handler],
                    (name, plan[k].old_value, plan[k].new_value),
                    (),
                )
    }

    /// A registry without handlers.
    pub fn new() -> (r: Self)
        ensures
            r.registrations() == Seq::<(Selector, H)>::empty(),
            r.cycle_handler() == None::<C>,
    {
        let r = CallbackManager { coil_callbacks: Vec::new(), cycle_complete_callback: None };
        proof {
            assert(r.registrations() =~= Seq::<(Selector, H)>::empty());
        }
        r
    }

    /// Appends a registration.
    fn register(&mut self, target: CoilTarget, callback: H)
        requires
            takes_every_change(callback),
        ensures
            final(self).registrations() == old(self).registrations().push(
                (target.selector(), callback),
            ),
            final(self).cycle_handler() == old(self).cycle_handler(),
    {
        proof {
            use_type_invariant(&*self);
        }
        let ghost before = self.registrations();
        let mut registered: Vec<(CoilTarget, H)> = Vec::new();
        proof {
            assert(stored(registered@) =~= Seq::<(Selector, H)>::empty());
        }
        core::mem::swap(&mut self.coil_callbacks, &mut registered);
        proof {
            let after = before.push((target.selector(), callback));
            assert(stored(registered@.push((target, callback))) =~= after);
            assert forall|i: int| 0 <= i < after.len() implies takes_every_change(
                (#[trigger] after[i]).1,
            ) by {
                if i < before.len() {
                    assert(after[i] == before[i]);
                }
            }
        }
        registered.push((target, callback));
        core::mem::swap(&mut self.coil_callbacks, &mut registered);
    }

    /// Registers `callback` for the changes of the coil `coil_name`. It is
    /// called after the handlers registered for that coil before it.
    pub fn on_coil_change(&mut self, coil_name: &str, callback: H)
        requires
            takes_every_change(callback),
        ensures
            final(self).registrations() == old(self).registrations().push(
                (Selector::Coil(coil_name@), callback),
            ),
            final(self).cycle_handler() == old(self).cycle_handler(),
    {
        self.register(CoilTarget::Coil(coil_name.to_owned()), callback);
    }

    /// Registers `callback` for the changes of every coil. It is called
    /// after the handlers registered for every coil before it.
    pub fn on_any_coil_change(&mut self, callback: H)
        requires
            takes_every_change(callback),
        ensures
            final(self).registrations() == old(self).registrations().push((Selector::Any, callback)),
            final(self).cycle_handler() == old(self).cycle_handler(),
    {
        self.register(CoilTarget::Any, callback);
    }

    /// Registers `callback` for the end of every cycle, in place of the
    /// handler registered for it before, if any.
    pub fn on_cycle_complete(&mut self, callback: C)
        requires
            takes_every_cycle(callback),
        ensures
            final(self).cycle_handler() == Some(callback),
            final(self).registrations() == old(self).registrations(),
    {
        proof {
            use_type_invariant(&*self);
        }
        let mut slot = Some(callback);
        core::mem::swap(&mut self.cycle_complete_callback, &mut slot);
    }

    /// Appends to `plan` the calls that one changed coil gives rise to
    /// among the handlers whose target `wanted` names.
    fn plan_calls(
        &self,
        wanted: Option<&str>,
        name: &str,
        old_value: bool,
        new_value: bool,
        plan: &mut Vec<Delivery>,
    )
        ensures
            final(plan).deep_view() == old(plan).deep_view() + calls_of(
                registered_for(self.targets(), selector_of(wanted)),
                name@,
                old_value,
                new_value,
            ),
    {
        let ghost targets = self.targets();
        let ghost target = selector_of(wanted);
        let ghost earlier = plan.deep_view();
        let mut k: usize = 0;
        proof {
            assert(targets.take(0) =~= Seq::<Selector>::empty());
            assert(plan.deep_view() =~= earlier + calls_of(
                registered_for(targets.take(0), target),
                name@,
                old_value,
                new_value,
            ));
        }
        while k < self.coil_callbacks.len()
            invariant
                targets == self.targets(),
                target == selector_of(wanted),
                k <= self.coil_callbacks@.len(),
                self.coil_callbacks@.len() == targets.len(),
                plan.deep_view() == earlier + calls_of(
                    registered_for(targets.take(k as int), target),
                    name@,
                    old_value,
                    new_value,
                ),
            decreases self.coil_callbacks@.len() - k,
        {
            let ghost planned = plan.deep_view();
            let ghost places = registered_for(targets.take(k as int), target);
            proof {
                assert(targets.take(k + 1).drop_last() =~= targets.take(k as int));
                assert(targets.take(k + 1).last() == self.coil_callbacks@[k as int].0.selector());
            }
            if self.coil_callbacks[k].0.is(wanted) {
                let call = Delivery { handler: k, name: name.to_owned(), old_value, new_value };
                plan.push(call);
                proof {
                    assert(plan.deep_view() =~= planned.push(call.deep_view()));
                    assert(calls_of(places.push(k as int), name@, old_value, new_value) =~= calls_of(
                        places,
                        name@,
                        old_value,
                        new_value,
                    ).push(call.deep_view()));
                    assert(plan.deep_view() =~= earlier + calls_of(
                        places.push(k as int),
                        name@,
                        old_value,
                        new_value,
                    ));
                }
            }
            k += 1;
        }
        proof {
            assert(targets.take(k as int) =~= targets);
        }
    }

    /// The dispatch plan for `changes`: the calls that
    /// `trigger_coil_changes` makes, in the order in which it makes them.
    pub fn plan_coil_changes(&self, changes: &ChangeMap) -> (plan: Vec<Delivery>)
        ensures
            plan.deep_view() == dispatch_plan(self.targets(), changes.entries()),
    {
        let ghost targets = self.targets();
        let ghost entries = changes.entries();
        let mut plan: Vec<Delivery> = Vec::new();
        let n = changes.len();
        let mut i: usize = 0;
        proof {
            assert(entries.take(0) =~= Seq::<(Seq<char>, (bool, bool))>::empty());
            assert(plan.deep_view() =~= dispatch_plan(targets, entries.take(0)));
        }
        while i < n
            invariant
                targets == self.targets(),
                entries == changes.entries(),
                n == entries.len(),
                i <= n,
                plan.deep_view() == dispatch_plan(targets, entries.take(i as int)),
            decreases n - i,
        {
            let name = changes.name_at(i);
            let values = changes.value_at(i);
            let ghost planned = plan.deep_view();
            self.plan_calls(Some(name), name, values.0, values.1, &mut plan);
            self.plan_calls(None, name, values.0, values.1, &mut plan);
            proof {
                assert(entries.take(i + 1).drop_last() =~= entries.take(i as int));
                assert(entries.take(i + 1).last() == entries[i as int]);
                assert(plan.deep_view() =~= planned + deliveries_for(targets, entries[i as int]));
            }
            i += 1;
        }
        proof {
            assert(entries.take(n as int) =~= entries);
        }
        plan
    }

    /// Tells the handlers of the changes: makes the calls of the dispatch
    /// plan for `changes`, in the order of the plan.
    pub fn trigger_coil_changes(&self, changes: &ChangeMap)
        ensures
            self.delivered(dispatch_plan(self.targets(), changes.entries())),
    {
        let plan = self.plan_coil_changes(changes);
        let ghost calls = plan.deep_view();
        proof {
            use_type_invariant(self);
            lemma_plan_handlers(self.targets(), changes.entries());
        }
        let mut k: usize = 0;
        while k < plan.len()
            invariant
                self.accepting(),
                calls == plan.deep_view(),
                forall|j: int|
                    0 <= j < calls.len() ==> 0 <= (#[trigger] calls[j]).handler
                        < self.coil_callbacks@.len(),
                k <= plan@.len(),
                self.delivered(calls.take(k as int)),
            decreases plan@.len() - k,
        {
            let call = &plan[k];
            proof {
                assert(calls[k as int] == call.deep_view());
                assert(self.coil_handlers()[call.handler as int] == self.registrations()[call.handler as int].1);
            }
            let handler = &self.coil_callbacks[call.handler].1;
            let name = call.name.as_str();
            handler(name, call.old_value, call.new_value);
            proof {
                let done = calls.take(k + 1);
                assert forall|j: int| 0 <= j < done.len() implies 0 <= (#[trigger] done[j]).handler
                    < self.coil_handlers().len() && exists|name: &str|
                    name@ == done[j].name && #[trigger] call_ensures(
                        self.coil_handlers()[done[j].handler],
                        (name, done[j].old_value, done[j].new_value),
                        (),
                    ) by {
                    if j < k {
                        assert(done[j] == calls.take(k as int)[j]);
                    } else {
                        assert(call_ensures(
                            self.coil_handlers()[done[j].handler],
                            (name, done[j].old_value, done[j].new_value),
                            (),
                        ));
                    }
                }
            }
            k += 1;
        }
        proof {
            assert(calls.take(k as int) =~= calls);
        }
    }

    /// Tells the cycle-complete handler, if one is registered, of the
    /// outputs of a cycle.
    pub fn trigger_cycle_complete(&self, outputs: &StateMap)
        ensures
            self.cycle_handler() matches Some(handler) ==> call_ensures(handler, (outputs,), ()),
    {
        proof {
            use_type_invariant(self);
        }
        match &self.cycle_complete_callback {
            Some(handler) => {
                handler(outputs);
            },
            None => {},
        }
    }

    /// Takes out the registrations whose target `wanted` names.
    fn remove_target(&mut self, wanted: Option<&str>)
        ensures
            final(self).registrations() == without(old(self).registrations(), selector_of(wanted)),
            final(self).cycle_handler() == old(self).cycle_handler(),
    {
        proof {
            use_type_invariant(&*self);
        }
        let ghost before = self.registrations();
        let ghost target = selector_of(wanted);
        let mut registered: Vec<(CoilTarget, H)> = Vec::new();
        proof {
            assert(stored(registered@) =~= Seq::<(Selector, H)>::empty());
        }
        core::mem::swap(&mut self.coil_callbacks, &mut registered);
        // The first `i` registrations are those that stay of the first
        // `seen` ones; the others are still to be looked at.
        let mut i: usize = 0;
        let ghost mut seen: int = 0;
        proof {
            reveal(Seq::filter);
            assert(before.take(0) =~= Seq::<(Selector, H)>::empty());
            assert(before.skip(0) =~= before);
        }
        while i < registered.len()
            invariant
                target == selector_of(wanted),
                0 <= seen <= before.len(),
                i == without(before.take(seen), target).len(),
                registered@.len() - i == before.len() - seen,
                stored(registered@) == without(before.take(seen), target) + before.skip(seen),
            decreases registered@.len() - i,
        {
            let ghost held = stored(registered@);
            proof {
                assert(held[i as int] == before.skip(seen)[0]);
                assert(before.take(seen + 1) =~= before.take(seen).push(before[seen]));
                lemma_without_push(before.take(seen), before[seen], target);
            }
            if registered[i].0.is(wanted) {
                registered.remove(i);
                proof {
                    assert(stored(registered@) =~= held.remove(i as int));
                    assert(held.remove(i as int) =~= without(before.take(seen + 1), target)
                        + before.skip(seen + 1));
                }
            } else {
                proof {
                    assert(held =~= without(before.take(seen + 1), target) + before.skip(seen + 1));
                }
                i += 1;
            }
            proof {
                seen = seen + 1;
            }
        }
        proof {
            assert(before.take(seen) =~= before);
            assert(stored(registered@) =~= without(before, target));
            lemma_without_takes(before, target);
        }
        core::mem::swap(&mut self.coil_callbacks, &mut registered);
    }

    /// Takes out the handlers registered for the coil `coil_name`. The
    /// handlers registered for other coils and for every coil stay, in
    /// their order, and so does the cycle-complete handler.
    pub fn remove_coil_callbacks(&mut self, coil_name: &str)
        ensures
            final(self).registrations() == without(
                old(self).registrations(),
                Selector::Coil(coil_name@),
            ),
            final(self).cycle_handler() == old(self).cycle_handler(),
    {
        self.remove_target(Some(coil_name));
    }

    /// Takes out the handlers registered for every coil. The handlers
    /// registered for one coil stay, in their order, and so does the
    /// cycle-complete handler.
    pub fn remove_any_coil_callbacks(&mut self)
        ensures
            final(self).registrations() == without(old(self).registrations(), Selector::Any),
            final(self).cycle_handler() == old(self).cycle_handler(),
    {
        self.remove_target(None);
    }

    /// Takes out every handler.
    pub fn clear(&mut self)
        ensures
            final(self).registrations() == Seq::<(Selector, H)>::empty(),
            final(self).cycle_handler() == None::<C>,
    {
        let mut registered: Vec<(CoilTarget, H)> = Vec::new();
        let mut slot: Option<C> = None;
        proof {
            use_type_invariant(&*self);
            assert(stored(registered@) =~= Seq::<(Selector, H)>::empty());
        }
        core::mem::swap(&mut self.coil_callbacks, &mut registered);
        core::mem::swap(&mut self.cycle_complete_callback, &mut slot);
    }
}

impl<H: Fn(&str, bool, bool), C: Fn(&StateMap)> Default for CallbackManager<H, C> {
    /// A registry without handlers.
    fn default() -> (r: Self)
        ensures
            r.registrations() == Seq::<(Selector, H)>::empty(),
            r.cycle_handler() == None::<C>,
    {
        CallbackManager::new()
    }
}

} // verus!
