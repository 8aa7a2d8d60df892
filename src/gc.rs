//! Garbage-collection policies for column histories.
use vstd::prelude::*;

use vstd::math::min;

use crate::storage::{keep_last, total_excess, NodeModel};
use crate::table::{gc_depth, CrrTable};

verus! {

/// How much history GC keeps per column.
#[derive(Debug, Clone, Copy, PartialEq, Eq, Structural)]
pub enum GcPolicy {
    /// Keep the newest `n` nodes of each column (0 is taken as 1).
    KeepLast(usize),
    /// Keep everything.
    KeepAll,
}

impl Default for GcPolicy {
    fn default() -> (r: GcPolicy)
        ensures
            r == GcPolicy::KeepLast(10),
    {
        GcPolicy::KeepLast(10)
    }
}

/// Applies `policy` to every column of `table`; returns how many nodes were
/// dropped (saturating). Cells never change.
pub fn run_gc(table: &mut CrrTable, policy: GcPolicy) -> (r: usize)
    requires
        old(table).wf(),
    ensures
        final(table).wf(),
        final(table).cells() == old(table).cells(),
        policy == GcPolicy::KeepAll ==> r == 0 && final(table).histories() == old(table).histories(),
        policy matches GcPolicy::KeepLast(n) ==> {
            &&& final(table).histories() == old(table).histories().map_values(
                |h: Seq<NodeModel>| keep_last(h, gc_depth(n)),
            )
            &&& r as int == min(
                total_excess(old(table).histories(), gc_depth(n)) as int,
                usize::MAX as int,
            )
        },
{
    match policy {
        GcPolicy::KeepAll => 0,
        GcPolicy::KeepLast(n) => table.gc(n),
    }
}

} // verus!
