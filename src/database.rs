//! The state that the server's connections share.
use vstd::prelude::*;

verus! {

/// Shared server state; it holds nothing yet.
pub struct DataBase;

impl DataBase {
    /// A fresh, empty state.
    pub fn new() -> (r: DataBase)
        ensures
            r == DataBase,
    {
        DataBase
    }
}

} // verus!
