//! Formatting options for the duration formatter.

use vstd::prelude::*;

verus! {

/// Options for the `duration` function.
#[derive(Debug, Clone)]
pub struct DurationOptions {
    /// If true, use the compact format, such as `2h 30m`.
    pub compact: bool,
    /// Maximum number of units to display; two when absent.
    pub max_units: Option<usize>,
}

impl DurationOptions {
    pub fn new() -> (r: Self)
        ensures
            r.compact == false,
            r.max_units is None,
    {
        DurationOptions { compact: false, max_units: None }
    }

    pub fn compact(self, compact: bool) -> (r: Self)
        ensures
            r.compact == compact,
            r.max_units == self.max_units,
    {
        DurationOptions { compact, max_units: self.max_units }
    }

    pub fn max_units(self, max_units: usize) -> (r: Self)
        ensures
            r.compact == self.compact,
            r.max_units == Some(max_units),
    {
        DurationOptions { compact: self.compact, max_units: Some(max_units) }
    }
}

impl Default for DurationOptions {
    fn default() -> (r: Self)
        ensures
            r.compact == false,
            r.max_units is None,
    {
        DurationOptions { compact: false, max_units: None }
    }
}

} // verus!
