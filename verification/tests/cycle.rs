use charta::callbacks::CallbackManager;
use charta::cycle::complete_cycle;
use charta::error::{EngineStage, Error};
use charta::states::{NameMap, StateMap};
use std::sync::{Arc, Mutex};

type Handler = Box<dyn Fn(&str, bool, bool) + Send + Sync>;
type CycleHandler = Box<dyn Fn(&StateMap) + Send + Sync>;
type Registry = CallbackManager<Handler, CycleHandler>;
type Log = Arc<Mutex<Vec<String>>>;

fn snapshot(pairs: &[(&str, bool)]) -> StateMap {
    let mut map: StateMap = NameMap::new();
    for (name, value) in pairs {
        map.insert(name.to_string(), *value);
    }
    map
}

fn listening(log: &Log) -> Registry {
    let mut registry = Registry::new();
    let coil_log = log.clone();
    registry.on_any_coil_change(Box::new(move |name, old_value, new_value| {
        coil_log.lock().unwrap().push(format!("coil:{}:{}:{}", name, old_value, new_value));
    }));
    let cycle_log = log.clone();
    registry.on_cycle_complete(Box::new(move |outputs: &StateMap| {
        let mut line = String::from("cycle");
        for i in 0..outputs.len() {
            line.push_str(&format!(":{}={}", outputs.name_at(i), outputs.value_at(i)));
        }
        cycle_log.lock().unwrap().push(line);
    }));
    registry
}

#[test]
fn successful_cycle_returns_the_outputs_of_the_step() {
    let registry = Registry::new();
    let before = snapshot(&[("a", false), ("b", true)]);
    let outputs = snapshot(&[("a", true), ("b", true)]);
    let result = complete_cycle(&registry, &before, Ok(outputs.clone()));
    assert_eq!(result.unwrap(), outputs);
}

#[test]
fn successful_cycle_dispatches_the_changes_and_then_the_cycle_end() {
    let log: Log = Arc::new(Mutex::new(Vec::new()));
    let registry = listening(&log);
    let before = snapshot(&[("a", false), ("b", true), ("c", false)]);
    let outputs = snapshot(&[("a", true), ("b", false), ("c", false)]);
    complete_cycle(&registry, &before, Ok(outputs)).unwrap();
    assert_eq!(
        *log.lock().unwrap(),
        vec!["coil:a:false:true", "coil:b:true:false", "cycle:a=true:b=false:c=false"]
    );
}

#[test]
fn cycle_without_changes_calls_the_cycle_handler_only() {
    let log: Log = Arc::new(Mutex::new(Vec::new()));
    let registry = listening(&log);
    let before = snapshot(&[("a", true), ("b", false)]);
    let outputs = snapshot(&[("a", true), ("b", false)]);
    let result = complete_cycle(&registry, &before, Ok(outputs.clone()));
    assert_eq!(result.unwrap(), outputs);
    assert_eq!(*log.lock().unwrap(), vec!["cycle:a=true:b=false"]);
}

#[test]
fn failed_step_is_reported_and_calls_no_handler() {
    let log: Log = Arc::new(Mutex::new(Vec::new()));
    let registry = listening(&log);
    let before = snapshot(&[("a", false)]);
    let result = complete_cycle(&registry, &before, Err("scan overrun".to_string()));
    match result {
        Err(Error::VM(failure)) => {
            assert_eq!(failure.stage, EngineStage::Step);
            assert_eq!(failure.message, "scan overrun");
        }
        other => panic!("unexpected result: {:?}", other),
    }
    assert!(log.lock().unwrap().is_empty());
}

#[test]
fn first_cycle_counts_missing_coils_as_false() {
    let log: Log = Arc::new(Mutex::new(Vec::new()));
    let registry = listening(&log);
    let before = snapshot(&[]);
    let outputs = snapshot(&[("on", true), ("off", false)]);
    complete_cycle(&registry, &before, Ok(outputs)).unwrap();
    assert_eq!(*log.lock().unwrap(), vec!["coil:on:false:true", "cycle:off=false:on=true"]);
}

#[test]
fn contact_driven_coil_is_reported_once() {
    // The rule energises `output_coil` when `input_signal` is on; the
    // signal was set, and the step returned the coil as energised.
    let received: Arc<Mutex<Vec<(String, bool, bool)>>> = Arc::new(Mutex::new(Vec::new()));
    let sink = received.clone();
    let mut registry = Registry::new();
    registry.on_coil_change(
        "output_coil",
        Box::new(move |name, old_value, new_value| {
            sink.lock().unwrap().push((name.to_string(), old_value, new_value));
        }),
    );
    let before = snapshot(&[("output_coil", false)]);
    let stepped = snapshot(&[("output_coil", true)]);
    let outputs = complete_cycle(&registry, &before, Ok(stepped)).unwrap();
    assert_eq!(outputs.get("output_coil"), Some(&true));
    assert_eq!(*received.lock().unwrap(), vec![("output_coil".to_string(), false, true)]);
}

#[test]
fn latched_coil_stays_on_and_is_not_reported_again() {
    // `running` is latching. The first step sets it; the second step, with
    // `start` and `stop` both off, returns it still set.
    let log: Log = Arc::new(Mutex::new(Vec::new()));
    let registry = listening(&log);
    let idle = snapshot(&[("running", false)]);
    let first = complete_cycle(&registry, &idle, Ok(snapshot(&[("running", true)]))).unwrap();
    assert_eq!(first.get("running"), Some(&true));
    let second = complete_cycle(&registry, &first, Ok(snapshot(&[("running", true)]))).unwrap();
    assert_eq!(second.get("running"), Some(&true));
    assert_eq!(
        *log.lock().unwrap(),
        vec!["coil:running:false:true", "cycle:running=true", "cycle:running=true"]
    );
}
