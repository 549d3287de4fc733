//! Data filters: reversible transforms that make a member compress better.

use vstd::prelude::*;

verus! {

#[derive(Debug, Clone, Copy, PartialEq, Eq, Structural)]
pub enum FilterKind {
    /// Differences between bytes `channels` apart.
    Delta { channels: usize },
    /// Branch targets of ARM code.
    Arm,
    /// Call targets of x86 code.
    E8,
}

/// A filter and the bytes of a member that it covers; no range means all.
#[derive(Debug, Clone, Copy, PartialEq, Eq, Structural)]
pub struct FilterSpec {
    pub kind: FilterKind,
    pub start: usize,
    pub end: Option<usize>,
}

impl FilterSpec {
    /// The filter over a whole member.
    pub fn whole(kind: FilterKind) -> (spec_: FilterSpec)
        ensures
            spec_ == (FilterSpec { kind, start: 0, end: None }),
    {
        FilterSpec { kind, start: 0, end: None }
    }

    /// The filter over the bytes from `range.start` up to `range.end`.
    pub fn range(kind: FilterKind, range: std::ops::Range<usize>) -> (spec_: FilterSpec)
        ensures
            spec_ == (FilterSpec { kind, start: range.start, end: Some(range.end) }),
    {
        FilterSpec { kind, start: range.start, end: Some(range.end) }
    }
}

/// Which filter a writer applies to its members.
#[derive(Debug, Clone, Copy, PartialEq, Eq, Structural)]
pub enum FilterPolicy {
    Off,
    /// Search for the filter that makes the member smallest.
    Auto,
    /// The one that the caller named.
    Explicit(FilterSpec),
}

impl Default for FilterPolicy {
    fn default() -> (policy: FilterPolicy)
        ensures
            policy == FilterPolicy::Off,
    {
        FilterPolicy::Off
    }
}

} // verus!
