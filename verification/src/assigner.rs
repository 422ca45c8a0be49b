//! Which cluster each pair was last taken into.

use vstd::prelude::*;
use crate::consts::{Config, MAX_NUMBER_OF_PAIRS};

verus! {

/// Marks a pair that left a cluster too small to keep, in strict mode.
pub const MARKER_UNASSIGNED: u32 = 0xffff_ffff;

/// The cluster that a slot stands for: none for zero, and otherwise the slot
/// less one, which for the marker is no cluster that exists.
pub open spec fn cluster_of(slots: Seq<u32>, pair_index: int) -> Option<u32> {
    if slots[pair_index] == 0 {
        None
    } else {
        Some((slots[pair_index] - 1) as u32)
    }
}

/// The slots after the pair left its cluster: marked in strict mode, empty
/// otherwise.
pub open spec fn unassigned(slots: Seq<u32>, strict: bool, pair_index: int) -> Seq<u32> {
    slots.update(
        pair_index,
        if strict {
            MARKER_UNASSIGNED
        } else {
            0u32
        },
    )
}

/// How many slots hold something else than `value`.
pub open spec fn count_other(slots: Seq<u32>, value: u32) -> nat
    decreases slots.len(),
{
    if slots.len() == 0 {
        0
    } else {
        count_other(slots.drop_last(), value) + if slots.last() != value {
            1nat
        } else {
            0nat
        }
    }
}

/// Writing to one slot changes the count by what that slot held and holds.
pub proof fn lemma_count_other_update(slots: Seq<u32>, value: u32, i: int, written: u32)
    requires
        0 <= i < slots.len(),
    ensures
        count_other(slots.update(i, written), value) + (if slots[i] != value { 1int } else { 0int })
            == count_other(slots, value) + (if written != value { 1int } else { 0int }),
    decreases slots.len(),
{
    let updated = slots.update(i, written);
    if i == slots.len() - 1 {
        assert(updated.drop_last() =~= slots.drop_last());
    } else {
        assert(updated.drop_last() =~= slots.drop_last().update(i, written));
        lemma_count_other_update(slots.drop_last(), value, i, written);
    }
}

/// Keeps for each pair the cluster it belongs to. A slot holds zero for no
/// cluster and the cluster's number plus one otherwise.
pub struct ClusterAssigner {
    cluster_by_pair: Vec<u32>,
}

impl View for ClusterAssigner {
    type V = Seq<u32>;

    closed spec fn view(&self) -> Seq<u32> {
        self.cluster_by_pair@
    }
}

impl ClusterAssigner {
    /// There is a slot for every pair that a holder can hold.
    pub open spec fn wf(&self) -> bool {
        self@.len() == MAX_NUMBER_OF_PAIRS
    }

    /// The slots in which no pair has a cluster.
    pub open spec fn spec_empty() -> Seq<u32> {
        Seq::new(MAX_NUMBER_OF_PAIRS as nat, |i: int| 0u32)
    }

    /// An assigner in which no pair has a cluster.
    pub fn new() -> (assigner: ClusterAssigner)
        ensures
            assigner@ == Self::spec_empty(),
            assigner.wf(),
    {
        let assigner = ClusterAssigner { cluster_by_pair: vec![0u32; MAX_NUMBER_OF_PAIRS] };
        assert(assigner.cluster_by_pair@ =~= Self::spec_empty());
        assigner
    }

    /// Takes every pair out of its cluster.
    pub fn clear(&mut self)
        requires
            old(self).wf(),
        ensures
            final(self)@ == Self::spec_empty(),
            final(self).wf(),
    {
        let mut i: usize = 0;
        while i < MAX_NUMBER_OF_PAIRS
            invariant
                i <= MAX_NUMBER_OF_PAIRS,
                self.cluster_by_pair.len() == MAX_NUMBER_OF_PAIRS,
                forall|j: int| 0 <= j < i ==> self.cluster_by_pair[j] == 0,
            decreases MAX_NUMBER_OF_PAIRS - i,
        {
            self.cluster_by_pair.set(i, 0);
            i = i + 1;
        }
        assert(self.cluster_by_pair@ =~= Self::spec_empty());
    }

    /// Gets cluster assigned to given pair of edges.
    pub fn get_cluster(&self, pair_index: u32) -> (cluster: Option<u32>)
        requires
            self.wf(),
            pair_index < MAX_NUMBER_OF_PAIRS,
        ensures
            cluster == cluster_of(self@, pair_index as int),
    {
        let cluster: u32 = self.cluster_by_pair[pair_index as usize];
        if cluster == 0 {
            None
        } else {
            Some(cluster - 1)
        }
    }

    /// Puts the pair into the cluster.
    pub fn assign(&mut self, pair_index: u32, cluster: u32)
        requires
            old(self).wf(),
            pair_index < MAX_NUMBER_OF_PAIRS,
            cluster < MARKER_UNASSIGNED,
        ensures
            final(self)@ == old(self)@.update(pair_index as int, (cluster + 1) as u32),
            final(self).wf(),
    {
        self.cluster_by_pair.set(pair_index as usize, cluster + 1);
    }

    /// Takes the pair out of its cluster: in strict mode the pair is marked, so that
    /// it is no seed any more; otherwise its slot is emptied.
    pub fn unassign(&mut self, config: &Config, pair_index: u32)
        requires
            old(self).wf(),
            pair_index < MAX_NUMBER_OF_PAIRS,
        ensures
            final(self)@ == unassigned(old(self)@, config.strict_mode, pair_index as int),
            final(self).wf(),
    {
        if config.strict_mode {
            self.cluster_by_pair.set(pair_index as usize, MARKER_UNASSIGNED);
        } else {
            self.cluster_by_pair.set(pair_index as usize, 0);
        }
    }
}

} // verus!
