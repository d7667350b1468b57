use charta::coils::CoilManager;
use charta::error::{EngineStage, Error};
use charta::signals::SignalManager;

#[test]
fn coil_name_must_not_be_empty() {
    match CoilManager::validate_name("") {
        Err(Error::InvalidOperation(message)) => assert_eq!(message, "Coil name cannot be empty"),
        other => panic!("unexpected result: {:?}", other),
    }
}

#[test]
fn signal_name_must_not_be_empty() {
    match SignalManager::validate_name("") {
        Err(Error::InvalidOperation(message)) => {
            assert_eq!(message, "Signal name cannot be empty")
        }
        other => panic!("unexpected result: {:?}", other),
    }
}

#[test]
fn every_other_name_is_accepted() {
    for name in ["a", "output_coil", "*", " ", "日本"] {
        assert!(CoilManager::validate_name(name).is_ok());
        assert!(SignalManager::validate_name(name).is_ok());
    }
}

#[test]
fn managers_can_be_made() {
    let _coils = CoilManager::new();
    let _signals = SignalManager::new();
    let _default_coils = CoilManager::default();
    let _default_signals = SignalManager::default();
}

#[test]
fn parse_failure_becomes_an_ir_load_error() {
    match Error::from_parse_failure("expected value at line 1 column 1".to_string()) {
        Error::IRLoad(message) => assert_eq!(message, "expected value at line 1 column 1"),
        other => panic!("unexpected error: {:?}", other),
    }
}

#[test]
fn engine_failure_becomes_a_vm_error_of_its_stage() {
    match Error::from_engine_failure(EngineStage::Load, "unknown coil `x`".to_string()) {
        Error::VM(failure) => {
            assert_eq!(failure.stage, EngineStage::Load);
            assert_eq!(failure.message, "unknown coil `x`");
        }
        other => panic!("unexpected error: {:?}", other),
    }
    match Error::from_engine_failure(EngineStage::Step, "overrun".to_string()) {
        Error::VM(failure) => {
            assert_eq!(failure.stage, EngineStage::Step);
            assert_eq!(failure.message, "overrun");
        }
        other => panic!("unexpected error: {:?}", other),
    }
}

#[test]
fn io_failure_becomes_an_io_error() {
    let failure = std::io::Error::new(std::io::ErrorKind::NotFound, "program.ir.json");
    match Error::from(failure) {
        Error::IO(inner) => {
            assert_eq!(inner.kind(), std::io::ErrorKind::NotFound);
            assert_eq!(inner.to_string(), "program.ir.json");
        }
        other => panic!("unexpected error: {:?}", other),
    }
}

#[test]
fn question_mark_turns_an_io_failure_into_an_error() {
    fn read() -> Result<(), Error> {
        Err(std::io::Error::new(std::io::ErrorKind::PermissionDenied, "denied"))?;
        Ok(())
    }
    assert!(matches!(read(), Err(Error::IO(_))));
}

#[test]
fn every_kind_of_error_is_told_apart() {
    let errors = vec![
        Error::from_engine_failure(EngineStage::Step, "step".to_string()),
        Error::from_parse_failure("parse".to_string()),
        Error::from(std::io::Error::new(std::io::ErrorKind::Other, "io")),
        Error::JSON("json".to_string()),
        Error::NotFound("coil".to_string()),
        Error::InvalidOperation("operation".to_string()),
    ];
    let kinds: Vec<&str> = errors
        .iter()
        .map(|error| match error {
            Error::VM(_) => "VM",
            Error::IRLoad(_) => "IRLoad",
            Error::IO(_) => "IO",
            Error::JSON(_) => "JSON",
            Error::NotFound(_) => "NotFound",
            Error::InvalidOperation(_) => "InvalidOperation",
        })
        .collect();
    assert_eq!(kinds, vec!["VM", "IRLoad", "IO", "JSON", "NotFound", "InvalidOperation"]);
}
