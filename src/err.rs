//! Source positions carried along for error reporting.

use std::ops::Range;

use vstd::prelude::*;

verus! {

/// A range bounded by distances from the end of the source file.
/// This is used for error reporting.
#[derive(Debug, Clone, Copy)]
pub struct Bounds {
    pub start: u32,
    pub end: u32,
}

impl From<Range<u32>> for Bounds {
    fn from(item: Range<u32>) -> (r: Self) {
        Bounds { start: item.start, end: item.end }
    }
}

impl vstd::std_specs::convert::FromSpecImpl<Range<u32>> for Bounds {
    open spec fn obeys_from_spec() -> bool {
        true
    }

    open spec fn from_spec(item: Range<u32>) -> Bounds {
        Bounds { start: item.start, end: item.end }
    }
}

/// Positions never tell two items apart: all bounds compare equal.
impl PartialEq for Bounds {
    fn eq(&self, other: &Self) -> (r: bool) {
        true
    }
}

impl vstd::std_specs::cmp::PartialEqSpecImpl for Bounds {
    open spec fn obeys_eq_spec() -> bool {
        true
    }

    open spec fn eq_spec(&self, other: &Self) -> bool {
        true
    }
}

impl Eq for Bounds {
}

/// An item with the source range it came from.
#[derive(Debug, Clone, Copy)]
pub struct Bounded<T> {
    pub bounds: Bounds,
    pub item: T,
}

} // verus!
