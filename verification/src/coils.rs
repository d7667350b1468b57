//! Coil names.

use vstd::prelude::*;
use crate::error::{Error, Result};

verus! {

/// The rules that coil names keep to.
#[derive(Clone, Copy, Debug, Default)]
pub struct CoilManager;

impl CoilManager {
    /// A coil manager.
    pub fn new() -> (r: Self) {
        CoilManager
    }

    /// Accepts every name but the empty one.
    pub fn validate_name(name: &str) -> (r: Result<()>)
        ensures
            r is Ok <==> name@.len() > 0,
            r matches Err(e) ==> e matches Error::InvalidOperation(message) && message@
                == "Coil name cannot be empty"@,
    {
        if name.is_empty() {
            return Err(Error::InvalidOperation("Coil name cannot be empty".to_owned()));
        }
        Ok(())
    }
}

} // verus!
