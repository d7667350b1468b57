//! Signal names.

use vstd::prelude::*;
use crate::error::{Error, Result};

verus! {

/// The rules that signal names keep to.
#[derive(Clone, Copy, Debug, Default)]
pub struct SignalManager;

impl SignalManager {
    /// A signal manager.
    pub fn new() -> (r: Self) {
        SignalManager
    }

    /// Accepts every name but the empty one.
    pub fn validate_name(name: &str) -> (r: Result<()>)
        ensures
            r is Ok <==> name@.len() > 0,
            r matches Err(e) ==> e matches Error::InvalidOperation(message) && message@
                == "Signal name cannot be empty"@,
    {
        if name.is_empty() {
            return Err(Error::InvalidOperation("Signal name cannot be empty".to_owned()));
        }
        Ok(())
    }
}

} // verus!
