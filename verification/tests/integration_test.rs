//! The scenarios of a host that drives an engine, with the engine's answers
//! written out: what it returned for the coils before a step and for the
//! step itself.

use charta::callbacks::{CallbackManager, CoilChangeCallback, CycleCompleteCallback};
use charta::cycle::complete_cycle;
use charta::error::{Error, Result};
use charta::states::{NameMap, StateMap};
use std::sync::atomic::{AtomicU32, Ordering};
use std::sync::Arc;

type Registry = CallbackManager<CoilChangeCallback, CycleCompleteCallback>;

fn snapshot(pairs: &[(&str, bool)]) -> StateMap {
    let mut map: StateMap = NameMap::new();
    for (name, value) in pairs {
        map.insert(name.to_string(), *value);
    }
    map
}

fn names_of(map: &StateMap) -> Vec<String> {
    let mut names = Vec::new();
    for i in 0..map.len() {
        names.push(map.name_at(i).to_string());
    }
    names
}

#[test]
fn test_basic_vm_operations() -> Result<()> {
    let registry = Registry::new();

    // Test signal setting
    let mut signals = snapshot(&[("input_signal", false)]);
    signals.insert("input_signal".to_string(), true);
    assert_eq!(signals.get("input_signal").copied(), Some(true));

    // Test cycle execution: the rung energises `output_coil` while
    // `input_signal` is on.
    let coils = snapshot(&[("output_coil", false)]);
    let outputs = complete_cycle(&registry, &coils, Ok(snapshot(&[("output_coil", true)])))?;
    assert_eq!(outputs.get("output_coil"), Some(&true));

    // Test coil reading
    assert_eq!(outputs.get("output_coil").copied(), Some(true));

    Ok(())
}

#[test]
fn test_signal_and_coil_management() -> Result<()> {
    let mut all_signals = snapshot(&[("signal1", false), ("signal2", false)]);
    let mut all_coils = snapshot(&[("coil1", false), ("coil2", false)]);

    // Test signal names
    let signal_names = names_of(&all_signals);
    assert_eq!(signal_names.len(), 2);
    assert!(signal_names.contains(&"signal1".to_string()));
    assert!(signal_names.contains(&"signal2".to_string()));

    // Test coil names
    let coil_names = names_of(&all_coils);
    assert_eq!(coil_names.len(), 2);
    assert!(coil_names.contains(&"coil1".to_string()));
    assert!(coil_names.contains(&"coil2".to_string()));

    // Test setting and getting signals
    all_signals.insert("signal1".to_string(), true);
    all_signals.insert("signal2".to_string(), false);

    assert_eq!(all_signals.get("signal1").copied(), Some(true));
    assert_eq!(all_signals.get("signal2").copied(), Some(false));

    // Test getting all signals
    assert_eq!(all_signals.get("signal1"), Some(&true));
    assert_eq!(all_signals.get("signal2"), Some(&false));

    // Test setting and getting coils
    all_coils.insert("coil1".to_string(), true);
    all_coils.insert("coil2".to_string(), false);

    assert_eq!(all_coils.get("coil1").copied(), Some(true));
    assert_eq!(all_coils.get("coil2").copied(), Some(false));

    // Test getting all coils
    assert_eq!(all_coils.get("coil1"), Some(&true));
    assert_eq!(all_coils.get("coil2"), Some(&false));

    Ok(())
}

#[test]
fn test_execute_cycle_with_inputs() -> Result<()> {
    let registry = Registry::new();
    let coils = snapshot(&[("output", false)]);

    // Test with both inputs true: the rung energises `output` while
    // `input_a` and `input_b` are both on.
    let outputs = complete_cycle(&registry, &coils, Ok(snapshot(&[("output", true)])))?;
    assert_eq!(outputs.get("output"), Some(&true));

    // Test with one input false
    let outputs2 = complete_cycle(&registry, &outputs, Ok(snapshot(&[("output", false)])))?;
    assert_eq!(outputs2.get("output"), Some(&false));

    Ok(())
}

#[test]
fn test_coil_change_callbacks() -> Result<()> {
    let mut registry = Registry::new();

    // Track callback invocations
    let callback_count = Arc::new(AtomicU32::new(0));
    let callback_count_clone = callback_count.clone();

    // Register callback
    registry.on_coil_change(
        "output",
        Box::new(move |name, old_val, new_val| {
            assert_eq!(name, "output");
            assert_eq!(old_val, false);
            assert_eq!(new_val, true);
            callback_count_clone.fetch_add(1, Ordering::Relaxed);
        }),
    );

    // Execute cycle - should trigger callback
    let coils = snapshot(&[("output", false)]);
    complete_cycle(&registry, &coils, Ok(snapshot(&[("output", true)])))?;

    // Verify callback was called
    assert_eq!(callback_count.load(Ordering::Relaxed), 1);

    Ok(())
}

#[test]
fn test_any_coil_change_callbacks() -> Result<()> {
    let mut registry = Registry::new();

    // Track callback invocations
    let callback_count = Arc::new(AtomicU32::new(0));
    let callback_count_clone = callback_count.clone();

    // Register callback for any coil
    registry.on_any_coil_change(Box::new(move |_name, _old_val, _new_val| {
        callback_count_clone.fetch_add(1, Ordering::Relaxed);
    }));

    // Execute cycle with both inputs - should trigger callback twice
    let coils = snapshot(&[("output1", false), ("output2", false)]);
    let stepped = snapshot(&[("output1", true), ("output2", true)]);
    complete_cycle(&registry, &coils, Ok(stepped))?;

    // Verify callback was called for both coils
    assert_eq!(callback_count.load(Ordering::Relaxed), 2);

    Ok(())
}

#[test]
fn test_cycle_complete_callbacks() -> Result<()> {
    let mut registry = Registry::new();

    // Track callback invocations
    let callback_count = Arc::new(AtomicU32::new(0));
    let callback_count_clone = callback_count.clone();

    // Register callback
    registry.on_cycle_complete(Box::new(move |outputs: &StateMap| {
        assert!(outputs.contains_key("output"));
        callback_count_clone.fetch_add(1, Ordering::Relaxed);
    }));

    // Execute cycles
    let mut coils = snapshot(&[("output", false)]);
    coils = complete_cycle(&registry, &coils, Ok(snapshot(&[("output", true)])))?;
    coils = complete_cycle(&registry, &coils, Ok(snapshot(&[("output", true)])))?;
    complete_cycle(&registry, &coils, Ok(snapshot(&[("output", true)])))?;

    // Verify callback was called for each cycle
    assert_eq!(callback_count.load(Ordering::Relaxed), 3);

    Ok(())
}

#[test]
fn test_error_handling() -> Result<()> {
    // Test loading invalid IR: the parser refuses the text.
    let result: Result<()> =
        Err(Error::from_parse_failure("expected value at line 1 column 1".to_string()));
    assert!(result.is_err());
    assert!(matches!(result, Err(Error::IRLoad(_))));

    // Test getting non-existent signal/coil
    let signals = snapshot(&[]);
    let coils = snapshot(&[]);

    // Non-existent signal/coil should return None, not error
    assert_eq!(signals.get("nonexistent").copied(), None);
    assert_eq!(coils.get("nonexistent").copied(), None);

    // The same holds after a cycle.
    let registry = Registry::new();
    let outputs = complete_cycle(&registry, &coils, Ok(snapshot(&[])))?;
    assert_eq!(outputs.get("nonexistent").copied(), None);

    Ok(())
}
