//! The table of provisional links between probe and gallery minutiae.

use vstd::prelude::*;
use crate::consts::MAX_NUMBER_OF_MINUTIAE;
use crate::types::Endpoint;

verus! {

/// How a probe endpoint and a gallery endpoint stand to each other.
#[derive(Clone, Copy, Debug, PartialEq, Eq, Structural)]
pub enum EndpointRelation {
    /// Neither has a partner.
    Unassociated,
    /// Each is the other's partner.
    MutuallyAssociated,
    /// At least one has a partner, and they are not each other's.
    AssociatedToOther,
}

/// The two directions of the table as they are stored: slot `i` holds zero
/// where endpoint `i` has no partner, and the partner's index plus one
/// otherwise. The two directions are written together but cleared apart, so
/// neither need mirror the other.
pub struct AssociationTable {
    pub probe_by_gallery: Seq<u8>,
    pub gallery_by_probe: Seq<u8>,
}

impl AssociationTable {
    /// Both directions have a slot for every endpoint, and every slot holds zero or
    /// an endpoint plus one.
    pub open spec fn wf(self) -> bool {
        &&& self.probe_by_gallery.len() == MAX_NUMBER_OF_MINUTIAE
        &&& self.gallery_by_probe.len() == MAX_NUMBER_OF_MINUTIAE
        &&& forall|i: int|
            0 <= i < MAX_NUMBER_OF_MINUTIAE ==> #[trigger] self.probe_by_gallery[i]
                <= MAX_NUMBER_OF_MINUTIAE
        &&& forall|i: int|
            0 <= i < MAX_NUMBER_OF_MINUTIAE ==> #[trigger] self.gallery_by_probe[i]
                <= MAX_NUMBER_OF_MINUTIAE
    }

    /// The table in which nothing is linked.
    pub open spec fn empty() -> AssociationTable {
        AssociationTable {
            probe_by_gallery: Seq::new(MAX_NUMBER_OF_MINUTIAE as nat, |i: int| 0u8),
            gallery_by_probe: Seq::new(MAX_NUMBER_OF_MINUTIAE as nat, |i: int| 0u8),
        }
    }

    /// The endpoint that a slot stands for.
    pub open spec fn decode(slot: u8) -> Option<Endpoint> {
        if slot == 0 {
            None
        } else {
            Some(Endpoint((slot - 1) as u32))
        }
    }

    /// The gallery endpoint that the probe endpoint is linked to.
    pub open spec fn get_by_probe(self, probe: Endpoint) -> Option<Endpoint> {
        Self::decode(self.gallery_by_probe[probe.index()])
    }

    /// The probe endpoint that the gallery endpoint is linked to.
    pub open spec fn get_by_gallery(self, gallery: Endpoint) -> Option<Endpoint> {
        Self::decode(self.probe_by_gallery[gallery.index()])
    }

    /// Links `probe` and `gallery` in both directions, whatever either was
    /// linked to before.
    pub open spec fn associate(self, probe: Endpoint, gallery: Endpoint) -> AssociationTable {
        AssociationTable {
            probe_by_gallery: self.probe_by_gallery.update(
                gallery.index(),
                (probe.0 + 1) as u8,
            ),
            gallery_by_probe: self.gallery_by_probe.update(
                probe.index(),
                (gallery.0 + 1) as u8,
            ),
        }
    }

    /// Where `probe` has a partner, empties the partner's slot and its own.
    pub open spec fn clear_by_probe(self, probe: Endpoint) -> AssociationTable {
        let slot = self.gallery_by_probe[probe.index()];
        if slot != 0 {
            AssociationTable {
                probe_by_gallery: self.probe_by_gallery.update(slot - 1, 0u8),
                gallery_by_probe: self.gallery_by_probe.update(probe.index(), 0u8),
            }
        } else {
            self
        }
    }

    /// How the two endpoints stand to each other.
    pub open spec fn status(self, probe: Endpoint, gallery: Endpoint) -> EndpointRelation {
        let associated_gallery = self.gallery_by_probe[probe.index()];
        let associated_probe = self.probe_by_gallery[gallery.index()];
        if associated_gallery == 0 && associated_probe == 0 {
            EndpointRelation::Unassociated
        } else if associated_gallery == gallery.0 + 1 && associated_probe == probe.0 + 1 {
            EndpointRelation::MutuallyAssociated
        } else {
            EndpointRelation::AssociatedToOther
        }
    }

    /// How many probe endpoints have no partner.
    pub open spec fn free_probes(self) -> nat {
        count_zero(self.gallery_by_probe)
    }
}

/// How many slots of `slots` are empty.
pub open spec fn count_zero(slots: Seq<u8>) -> nat
    decreases slots.len(),
{
    if slots.len() == 0 {
        0
    } else {
        count_zero(slots.drop_last()) + if slots.last() == 0 {
            1nat
        } else {
            0nat
        }
    }
}

/// Filling an empty slot leaves one empty slot fewer; writing to a slot
/// changes the count by at most one.
pub proof fn lemma_count_zero_update(slots: Seq<u8>, i: int, value: u8)
    requires
        0 <= i < slots.len(),
    ensures
        count_zero(slots.update(i, value)) + (if slots[i] == 0 { 1int } else { 0int })
            == count_zero(slots) + (if value == 0 { 1int } else { 0int }),
    decreases slots.len(),
{
    let updated = slots.update(i, value);
    if i == slots.len() - 1 {
        assert(updated.drop_last() =~= slots.drop_last());
    } else {
        assert(updated.drop_last() =~= slots.drop_last().update(i, value));
        lemma_count_zero_update(slots.drop_last(), i, value);
    }
}

/// Bidirectional mapping between the minutiae of the probe and of the
/// gallery.
pub struct EndpointAssociations {
    probe_by_gallery: Vec<u8>,
    gallery_by_probe: Vec<u8>,
}

impl View for EndpointAssociations {
    type V = AssociationTable;

    closed spec fn view(&self) -> AssociationTable {
        AssociationTable {
            probe_by_gallery: self.probe_by_gallery@,
            gallery_by_probe: self.gallery_by_probe@,
        }
    }
}

impl EndpointAssociations {
    /// The table is well formed where what it stands for is.
    pub open spec fn wf(&self) -> bool {
        self@.wf()
    }

    /// A table that links nothing.
    pub fn new() -> (table: EndpointAssociations)
        ensures
            table@ == AssociationTable::empty(),
            table.wf(),
    {
        let table = EndpointAssociations {
            probe_by_gallery: vec![0u8; MAX_NUMBER_OF_MINUTIAE],
            gallery_by_probe: vec![0u8; MAX_NUMBER_OF_MINUTIAE],
        };
        assert(table.probe_by_gallery@ =~= AssociationTable::empty().probe_by_gallery);
        assert(table.gallery_by_probe@ =~= AssociationTable::empty().gallery_by_probe);
        table
    }

    /// Unlinks everything.
    pub fn clear(&mut self)
        requires
            old(self).wf(),
        ensures
            final(self)@ == AssociationTable::empty(),
            final(self).wf(),
    {
        let mut i: usize = 0;
        while i < MAX_NUMBER_OF_MINUTIAE
            invariant
                i <= MAX_NUMBER_OF_MINUTIAE,
                self.probe_by_gallery.len() == MAX_NUMBER_OF_MINUTIAE,
                self.gallery_by_probe.len() == MAX_NUMBER_OF_MINUTIAE,
                forall|j: int| 0 <= j < i ==> self.probe_by_gallery[j] == 0,
                forall|j: int| 0 <= j < i ==> self.gallery_by_probe[j] == 0,
            decreases MAX_NUMBER_OF_MINUTIAE - i,
        {
            self.probe_by_gallery.set(i, 0);
            self.gallery_by_probe.set(i, 0);
            i = i + 1;
        }
        assert(self.probe_by_gallery@ =~= AssociationTable::empty().probe_by_gallery);
        assert(self.gallery_by_probe@ =~= AssociationTable::empty().gallery_by_probe);
    }

    /// Links the two endpoints in both directions.
    pub fn associate(&mut self, probe_endpoint: Endpoint, gallery_endpoint: Endpoint)
        requires
            old(self).wf(),
            probe_endpoint.wf(),
            gallery_endpoint.wf(),
        ensures
            final(self)@ == old(self)@.associate(probe_endpoint, gallery_endpoint),
            final(self).wf(),
    {
        self.probe_by_gallery.set(gallery_endpoint.as_usize(), (probe_endpoint.0 + 1) as u8);
        self.gallery_by_probe.set(probe_endpoint.as_usize(), (gallery_endpoint.0 + 1) as u8);
    }

    /// Unlinks the probe endpoint and the gallery endpoint that it is linked to.
    pub fn clear_by_probe(&mut self, probe_endpoint: Endpoint)
        requires
            old(self).wf(),
            probe_endpoint.wf(),
        ensures
            final(self)@ == old(self)@.clear_by_probe(probe_endpoint),
            final(self).wf(),
    {
        let value: u8 = self.gallery_by_probe[probe_endpoint.as_usize()];
        if value != 0 {
            self.probe_by_gallery.set((value - 1) as usize, 0);
            self.gallery_by_probe.set(probe_endpoint.as_usize(), 0);
        }
    }

    /// The probe endpoint that the gallery endpoint is linked to, if any.
    pub fn get_associated_by_gallery(&self, gallery_endpoint: Endpoint) -> (partner: Option<
        Endpoint,
    >)
        requires
            self.wf(),
            gallery_endpoint.wf(),
        ensures
            partner == self@.get_by_gallery(gallery_endpoint),
            partner matches Some(probe) ==> probe.wf(),
    {
        let endpoint: u8 = self.probe_by_gallery[gallery_endpoint.as_usize()];
        if endpoint != 0 {
            Some(Endpoint((endpoint - 1) as u32))
        } else {
            None
        }
    }

    /// The gallery endpoint that the probe endpoint is linked to, if any.
    pub fn get_associated_by_probe(&self, probe_endpoint: Endpoint) -> (partner: Option<Endpoint>)
        requires
            self.wf(),
            probe_endpoint.wf(),
        ensures
            partner == self@.get_by_probe(probe_endpoint),
            partner matches Some(gallery) ==> gallery.wf(),
    {
        let endpoint: u8 = self.gallery_by_probe[probe_endpoint.as_usize()];
        if endpoint != 0 {
            Some(Endpoint((endpoint - 1) as u32))
        } else {
            None
        }
    }

    /// Tells how the two endpoints stand to each other.
    pub fn get_status(&self, probe_endpoint: Endpoint, gallery_endpoint: Endpoint) -> (relation:
        EndpointRelation)
        requires
            self.wf(),
            probe_endpoint.wf(),
            gallery_endpoint.wf(),
        ensures
            relation == self@.status(probe_endpoint, gallery_endpoint),
    {
        let associated_gallery: u8 = self.gallery_by_probe[probe_endpoint.as_usize()];
        let associated_probe: u8 = self.probe_by_gallery[gallery_endpoint.as_usize()];
        if associated_gallery == 0 && associated_probe == 0 {
            return EndpointRelation::Unassociated;
        }
        if associated_gallery as u32 == gallery_endpoint.0 + 1 && associated_probe as u32
            == probe_endpoint.0 + 1 {
            return EndpointRelation::MutuallyAssociated;
        }
        EndpointRelation::AssociatedToOther
    }
}

} // verus!
