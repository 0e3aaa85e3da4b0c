//! Small items that generated harness code relies on.
use vstd::prelude::*;

verus! {

/// Where a new statement goes relative to an existing one.
#[derive(Debug, Clone, Copy, PartialEq, Eq, Structural)]
pub enum InsertPosition {
    Before,
    After,
}

/// An error type with a single value.
#[derive(Debug, Clone, Copy, PartialEq, Eq, Structural)]
pub enum Unit {
    Unit,
}

/// Keeps `free` in scope for contract checking; does nothing.
pub fn init_contracts() {
}

/// The configuration of a test runner; the runner keeps none of it.
#[derive(Debug, Clone, Copy, PartialEq, Eq, Structural)]
pub struct Config {}

/// A test runner that runs each test once, on symbolic inputs, and keeps no
/// state.
#[derive(Debug, Clone, Copy, PartialEq, Eq, Structural)]
pub struct TestRunner {}

impl TestRunner {
    /// A runner for the configuration `config`.
    pub fn new(config: Config) -> (r: Self)
        ensures
            r == (TestRunner {}),
    {
        TestRunner {}
    }

    /// The default runner.
    pub fn default() -> (r: Self)
        ensures
            r == (TestRunner {}),
    {
        TestRunner {}
    }
}

} // verus!
