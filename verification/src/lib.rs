//! A reference-counted heap with cycle collection.

pub mod binarytree;
pub mod collect;
pub mod collections;
pub mod collector;
pub mod draw;
pub mod explore;
pub mod flags;
pub mod gc;
pub mod graph;
pub mod heap;
pub mod laws;
pub mod leaks;
pub mod list;
pub mod marks;
pub mod model;
pub mod mutators;
pub mod release;
pub mod runtime;
pub mod scan;
pub mod sweep;
pub mod trace;
pub mod tracker;

use vstd::prelude::*;

verus! {

/// The sum of two numbers.
pub fn add(left: usize, right: usize) -> (r: usize)
    requires
        left + right <= usize::MAX,
    ensures
        r == left + right,
{
    left + right
}

} // verus!
