//! Groups of rival partners: a minutia of one print with the minutiae of the
//! other print that cluster growth tried to link it to.

use vstd::prelude::*;
use crate::associations::{AssociationTable, EndpointAssociations, EndpointRelation};
use crate::consts::{Config, MAX_NUMBER_OF_MINUTIAE};
use crate::types::{Endpoint, FingerprintKind};

verus! {

/// Represents a minutia from one fingerprint and collection of
/// possible corresponding ones from another fingerprint.
pub struct EndpointGroup {
    /// Minutia from the first fingerprint.
    pub endpoint: Endpoint,
    /// Kind of fingerprint that contains this minutia.
    pub endpoint_source: FingerprintKind,
    /// Collection of endpoints from another fingerprint
    /// that may match one from first fingerprint.
    pub matching_endpoints: Vec<Endpoint>,
    /// Index of the currently selected endpoint in the list of potential corresponding minutiae.
    pub endpoint_index: usize,
    /// Probe minutia of the link that this group made last, kept to undo it.
    pub last_associated_from_probe: Option<Endpoint>,
}

/// What a group stands for.
pub struct GroupView {
    pub endpoint: Endpoint,
    pub endpoint_source: FingerprintKind,
    pub matching_endpoints: Seq<Endpoint>,
    pub endpoint_index: int,
    pub last_associated_from_probe: Option<Endpoint>,
}

impl View for EndpointGroup {
    type V = GroupView;

    open spec fn view(&self) -> GroupView {
        GroupView {
            endpoint: self.endpoint,
            endpoint_source: self.endpoint_source,
            matching_endpoints: self.matching_endpoints@,
            endpoint_index: self.endpoint_index as int,
            last_associated_from_probe: self.last_associated_from_probe,
        }
    }
}

/// What a list of groups stands for.
pub open spec fn group_views(groups: Seq<EndpointGroup>) -> Seq<GroupView> {
    Seq::new(groups.len(), |i: int| groups[i]@)
}

/// Most candidates of one group: the first one, and after it no endpoint
/// twice.
pub const MAX_CANDIDATES: usize = MAX_NUMBER_OF_MINUTIAE + 1;

impl GroupView {
    /// The group's endpoints are indices, one candidate is selected, and no
    /// candidate but the first occurs twice.
    pub open spec fn wf(self) -> bool {
        &&& self.endpoint.wf()
        &&& forall|k: int|
            0 <= k < self.matching_endpoints.len() ==> (#[trigger] self.matching_endpoints[k]).wf()
        &&& 0 <= self.endpoint_index < self.matching_endpoints.len()
        &&& forall|j: int, k: int|
            1 <= j < k < self.matching_endpoints.len() ==> #[trigger] self.matching_endpoints[j]
                != #[trigger] self.matching_endpoints[k]
        &&& self.last_associated_from_probe matches Some(probe) ==> probe.wf()
    }

    /// The probe and the gallery endpoint that the group links at present.
    pub open spec fn current(self) -> (Endpoint, Endpoint) {
        match self.endpoint_source {
            FingerprintKind::Probe => (self.endpoint, self.matching_endpoints[self.endpoint_index]),
            FingerprintKind::Gallery => (
                self.matching_endpoints[self.endpoint_index],
                self.endpoint,
            ),
        }
    }

    /// The group with the given link remembered.
    pub open spec fn with_last(self, last: Option<Endpoint>) -> GroupView {
        GroupView { last_associated_from_probe: last, ..self }
    }

    /// The group with the candidate at `index` selected.
    pub open spec fn with_index(self, index: int) -> GroupView {
        GroupView { endpoint_index: index, ..self }
    }
}

/// Every group of the list is well formed.
pub open spec fn groups_wf(groups: Seq<GroupView>) -> bool {
    forall|i: int| 0 <= i < groups.len() ==> (#[trigger] groups[i]).wf()
}

/// A well-formed group has at most `MAX_CANDIDATES` candidates.
pub proof fn lemma_candidates_bounded(group: GroupView)
    requires
        group.wf(),
    ensures
        group.matching_endpoints.len() <= MAX_CANDIDATES,
{
    let tail = group.matching_endpoints.subrange(1, group.matching_endpoints.len() as int);
    let numbers = Seq::new(tail.len(), |i: int| tail[i].0 as int);
    assert forall|i: int, j: int| 0 <= i < numbers.len() && 0 <= j < numbers.len() && i != j
        implies numbers[i] != numbers[j] by {
        assert(tail[i] == group.matching_endpoints[i + 1]);
        assert(tail[j] == group.matching_endpoints[j + 1]);
        if i < j {
            assert(group.matching_endpoints[i + 1] != group.matching_endpoints[j + 1]);
        } else {
            assert(group.matching_endpoints[j + 1] != group.matching_endpoints[i + 1]);
        }
    }
    assert(numbers.no_duplicates());
    numbers.unique_seq_to_set();
    let range = vstd::set_lib::set_int_range(0, MAX_NUMBER_OF_MINUTIAE as int);
    vstd::set_lib::lemma_int_range(0, MAX_NUMBER_OF_MINUTIAE as int);
    assert forall|x: int| numbers.to_set().contains(x) implies range.contains(x) by {
        let i = choose|i: int| 0 <= i < numbers.len() && numbers[i] == x;
        assert(tail[i] == group.matching_endpoints[i + 1]);
        assert(group.matching_endpoints[i + 1].wf());
    }
    vstd::set_lib::lemma_len_subset(numbers.to_set(), range);
}

/// The place of the first group from `from` on that stands for `endpoint` of
/// the print `source`, or the number of groups where there is none.
pub open spec fn find_group(
    groups: Seq<GroupView>,
    source: FingerprintKind,
    endpoint: Endpoint,
    from: int,
) -> int
    decreases groups.len() - from,
{
    if from >= groups.len() {
        groups.len() as int
    } else if groups[from].endpoint_source == source && groups[from].endpoint == endpoint {
        from
    } else {
        find_group(groups, source, endpoint, from + 1)
    }
}

/// The place found lies at the start of the search or behind, within the list
/// or at its end.
pub(crate) proof fn lemma_find_group(
    groups: Seq<GroupView>,
    source: FingerprintKind,
    endpoint: Endpoint,
    from: int,
)
    requires
        0 <= from <= groups.len(),
    ensures
        from <= find_group(groups, source, endpoint, from) <= groups.len(),
    decreases groups.len() - from,
{
    if from < groups.len() {
        lemma_find_group(groups, source, endpoint, from + 1);
    }
}

/// The groups after `new_endpoint` was found to rival `existing_endpoint` as
/// the partner of `endpoint`.
///
/// In relaxed mode nothing changes once the most groups allowed exist. A
/// group that stands for `endpoint` already takes `new_endpoint` as one more
/// candidate unless it has it. Otherwise a new group with the two candidates
/// is appended, the first of them selected; in relaxed mode it remembers the
/// existing link as its last.
pub open spec fn merge_model(
    config: Config,
    groups: Seq<GroupView>,
    source: FingerprintKind,
    endpoint: Endpoint,
    existing_endpoint: Endpoint,
    new_endpoint: Endpoint,
) -> Seq<GroupView> {
    if !config.strict_mode && groups.len() == config.max_number_of_groups {
        groups
    } else {
        let place = find_group(groups, source, endpoint, 0);
        if place < groups.len() {
            if groups[place].matching_endpoints.contains(new_endpoint) {
                groups
            } else {
                groups.update(
                    place,
                    GroupView {
                        matching_endpoints: groups[place].matching_endpoints.push(new_endpoint),
                        ..groups[place]
                    },
                )
            }
        } else {
            groups.push(
                GroupView {
                    endpoint,
                    endpoint_source: source,
                    matching_endpoints: seq![existing_endpoint, new_endpoint],
                    endpoint_index: 0,
                    last_associated_from_probe: if config.strict_mode {
                        None
                    } else {
                        Some(existing_endpoint)
                    },
                },
            )
        }
    }
}

/// Merges given endpoints into a group.
/// If endpoint is already in a group, it takes that one and adds `new_endpoint` into it.
/// Otherwise, it creates a new group.
pub fn merge_endpoints_into_group(
    config: &Config,
    groups: &mut Vec<EndpointGroup>,
    endpoint_source: FingerprintKind,
    endpoint: Endpoint,
    existing_endpoint: Endpoint,
    new_endpoint: Endpoint,
)
    requires
        groups_wf(group_views(old(groups)@)),
        endpoint.wf(),
        existing_endpoint.wf(),
        new_endpoint.wf(),
    ensures
        group_views(final(groups)@) == merge_model(
            *config,
            group_views(old(groups)@),
            endpoint_source,
            endpoint,
            existing_endpoint,
            new_endpoint,
        ),
        groups_wf(group_views(final(groups)@)),
{
    let ghost before = group_views(groups@);
    if !config.strict_mode {
        if groups.len() == config.max_number_of_groups {
            return ;
        }
    }
    let mut place: usize = 0;
    while place < groups.len() && !(groups[place].endpoint_source == endpoint_source
        && groups[place].endpoint == endpoint)
        invariant
            place <= groups.len(),
            before == group_views(groups@),
            find_group(before, endpoint_source, endpoint, 0) == find_group(
                before,
                endpoint_source,
                endpoint,
                place as int,
            ),
        decreases groups.len() - place,
    {
        assert(before[place as int] == groups@[place as int]@);
        place = place + 1;
    }
    if place < groups.len() {
        assert(before[place as int] == groups@[place as int]@);
        assert(before[place as int].wf());
        let mut found: bool = false;
        let mut k: usize = 0;
        while k < groups[place].matching_endpoints.len()
            invariant
                place < groups.len(),
                k <= groups@[place as int].matching_endpoints@.len(),
                found == exists|j: int|
                    0 <= j < k && groups@[place as int].matching_endpoints@[j] == new_endpoint,
            decreases groups@[place as int].matching_endpoints@.len() - k,
        {
            if groups[place].matching_endpoints[k] == new_endpoint {
                found = true;
            }
            k = k + 1;
        }
        if !found {
            groups[place].matching_endpoints.push(new_endpoint);
            proof {
                let after = group_views(groups@);
                let expected = before.update(
                    place as int,
                    GroupView {
                        matching_endpoints: before[place as int].matching_endpoints.push(
                            new_endpoint,
                        ),
                        ..before[place as int]
                    },
                );
                assert(after =~= expected);
                assert(!before[place as int].matching_endpoints.contains(new_endpoint));
                assert forall|i: int| 0 <= i < after.len() implies (#[trigger] after[i]).wf() by {
                    assert(before[i].wf());
                }
            }
        } else {
            assert(before[place as int].matching_endpoints.contains(new_endpoint));
        }
    } else {
        let last_associated_from_probe: Option<Endpoint> = if config.strict_mode {
            None
        } else {
            Some(existing_endpoint)
        };
        let mut matching_endpoints: Vec<Endpoint> = Vec::new();
        matching_endpoints.push(existing_endpoint);
        matching_endpoints.push(new_endpoint);
        groups.push(
            EndpointGroup {
                endpoint,
                endpoint_source,
                matching_endpoints,
                endpoint_index: 0,
                last_associated_from_probe,
            },
        );
        proof {
            let after = group_views(groups@);
            assert(matching_endpoints@ =~= seq![existing_endpoint, new_endpoint]);
            assert(after =~= merge_model(
                *config,
                before,
                endpoint_source,
                endpoint,
                existing_endpoint,
                new_endpoint,
            ));
            assert forall|i: int| 0 <= i < after.len() implies (#[trigger] after[i]).wf() by {
                if i < before.len() {
                    assert(before[i].wf());
                }
            }
        }
    }
}

/// Two lists of groups that differ at most in the links remembered.
pub open spec fn same_digits(a: Seq<GroupView>, b: Seq<GroupView>) -> bool {
    &&& a.len() == b.len()
    &&& forall|i: int|
        0 <= i < a.len() ==> (#[trigger] a[i]).with_last(None) == b[i].with_last(None)
}

/// The groups with no link remembered.
pub open spec fn forgetful(groups: Seq<GroupView>) -> Seq<GroupView> {
    Seq::new(groups.len(), |i: int| groups[i].with_last(None))
}

/// The table after the links remembered by the first `n` groups were undone,
/// one after the other.
pub open spec fn cleared_table(groups: Seq<GroupView>, table: AssociationTable, n: int) -> AssociationTable
    decreases n,
{
    if n <= 0 {
        table
    } else {
        let earlier = cleared_table(groups, table, n - 1);
        match groups[n - 1].last_associated_from_probe {
            Some(probe) => earlier.clear_by_probe(probe),
            None => earlier,
        }
    }
}

/// Unlinking an endpoint keeps the table well formed.
pub(crate) proof fn lemma_clear_by_probe_wf(table: AssociationTable, probe: Endpoint)
    requires
        table.wf(),
        probe.wf(),
    ensures
        table.clear_by_probe(probe).wf(),
{
}

/// Linking two endpoints keeps the table well formed.
pub(crate) proof fn lemma_associate_wf(table: AssociationTable, probe: Endpoint, gallery: Endpoint)
    requires
        table.wf(),
        probe.wf(),
        gallery.wf(),
    ensures
        table.associate(probe, gallery).wf(),
{
}

/// Undoing the links that well-formed groups remember keeps the table well
/// formed.
pub proof fn lemma_cleared_table_wf(groups: Seq<GroupView>, table: AssociationTable, n: int)
    requires
        groups_wf(groups),
        table.wf(),
        0 <= n <= groups.len(),
    ensures
        cleared_table(groups, table, n).wf(),
    decreases n,
{
    if n > 0 {
        lemma_cleared_table_wf(groups, table, n - 1);
        assert(groups[n - 1].wf());
        match groups[n - 1].last_associated_from_probe {
            Some(probe) => lemma_clear_by_probe_wf(cleared_table(groups, table, n - 1), probe),
            None => {},
        }
    }
}

/// Undoes the link that each group remembers and makes the groups forget.
pub fn cleanup_associations(groups: &mut Vec<EndpointGroup>, associator: &mut EndpointAssociations)
    requires
        groups_wf(group_views(old(groups)@)),
        old(associator).wf(),
    ensures
        group_views(final(groups)@) == forgetful(group_views(old(groups)@)),
        final(associator)@ == cleared_table(
            group_views(old(groups)@),
            old(associator)@,
            old(groups)@.len() as int,
        ),
        groups_wf(group_views(final(groups)@)),
        final(associator).wf(),
{
    let ghost before = group_views(groups@);
    let ghost table = associator@;
    let n: usize = groups.len();
    let mut i: usize = 0;
    while i < n
        invariant
            i <= n,
            n == groups@.len(),
            n == before.len(),
            groups_wf(before),
            associator.wf(),
            associator@ == cleared_table(before, table, i as int),
            forall|j: int|
                0 <= j < n ==> (#[trigger] groups@[j])@ == if j < i {
                    before[j].with_last(None)
                } else {
                    before[j]
                },
        decreases n - i,
    {
        assert(groups@[i as int]@ == before[i as int]);
        assert(before[i as int].wf());
        let last: Option<Endpoint> = groups[i].last_associated_from_probe;
        let ghost previous = groups@;
        groups[i].last_associated_from_probe = None;
        assert forall|j: int| 0 <= j < n implies (#[trigger] groups@[j])@ == if j < i + 1 {
            before[j].with_last(None)
        } else {
            before[j]
        } by {
            if j != i {
                assert(groups@[j] == previous[j]);
            }
        }
        if let Some(probe) = last {
            associator.clear_by_probe(probe);
        }
        i = i + 1;
    }
    proof {
        assert(group_views(groups@) =~= forgetful(before));
        assert forall|j: int| 0 <= j < forgetful(before).len() implies (#[trigger] forgetful(
            before,
        )[j]).wf() by {
            assert(before[j].wf());
        }
    }
}

/// Links the endpoints that the groups select at present, from the last
/// group back to the first, `remaining` groups still to come: whether no
/// group met a link to another endpoint, and the groups and the table as
/// they then are.
///
/// A group whose two endpoints are free links them and remembers the link.
/// One whose endpoints are linked to each other already leaves the link and,
/// in strict mode only, remembers it. At the first group with an endpoint
/// linked elsewhere the attempt stops, and what was linked so far stays.
pub open spec fn try_model(
    config: Config,
    groups: Seq<GroupView>,
    table: AssociationTable,
    remaining: int,
) -> (bool, Seq<GroupView>, AssociationTable)
    decreases remaining,
{
    if remaining <= 0 {
        (true, groups, table)
    } else {
        let place = remaining - 1;
        let (probe, gallery) = groups[place].current();
        match table.status(probe, gallery) {
            EndpointRelation::Unassociated => try_model(
                config,
                groups.update(place, groups[place].with_last(Some(probe))),
                table.associate(probe, gallery),
                place,
            ),
            EndpointRelation::MutuallyAssociated => try_model(
                config,
                if config.strict_mode {
                    groups.update(place, groups[place].with_last(Some(probe)))
                } else {
                    groups
                },
                table,
                place,
            ),
            EndpointRelation::AssociatedToOther => (false, groups, table),
        }
    }
}

/// Links what the groups select at present, from the last group back to the
/// first; `false` at the first clash with a link that exists.
pub fn try_associate_current_endpoints(
    config: &Config,
    groups: &mut Vec<EndpointGroup>,
    associator: &mut EndpointAssociations,
) -> (linked: bool)
    requires
        groups_wf(group_views(old(groups)@)),
        old(associator).wf(),
    ensures
        (linked, group_views(final(groups)@), final(associator)@) == try_model(
            *config,
            group_views(old(groups)@),
            old(associator)@,
            old(groups)@.len() as int,
        ),
        same_digits(group_views(old(groups)@), group_views(final(groups)@)),
        groups_wf(group_views(final(groups)@)),
        final(associator).wf(),
{
    let ghost before = group_views(groups@);
    let ghost table = associator@;
    let n: usize = groups.len();
    let mut remaining: usize = n;
    while remaining > 0
        invariant
            remaining <= n,
            n == groups@.len(),
            n == before.len(),
            before == group_views(old(groups)@),
            table == old(associator)@,
            groups_wf(group_views(groups@)),
            same_digits(before, group_views(groups@)),
            associator.wf(),
            try_model(*config, before, table, n as int) == try_model(
                *config,
                group_views(groups@),
                associator@,
                remaining as int,
            ),
        decreases remaining,
    {
        let place: usize = remaining - 1;
        let ghost current = group_views(groups@);
        assert(current[place as int] == groups@[place as int]@);
        assert(current[place as int].wf());
        let selected: Endpoint = groups[place].matching_endpoints[groups[place].endpoint_index];
        assert(selected == current[place as int].matching_endpoints[current[place as int].endpoint_index]);
        assert(selected.wf());
        let (probe_endpoint, gallery_endpoint): (Endpoint, Endpoint) =
            match groups[place].endpoint_source {
            FingerprintKind::Probe => (groups[place].endpoint, selected),
            FingerprintKind::Gallery => (selected, groups[place].endpoint),
        };
        assert((probe_endpoint, gallery_endpoint) == current[place as int].current());
        match associator.get_status(probe_endpoint, gallery_endpoint) {
            EndpointRelation::Unassociated => {
                associator.associate(probe_endpoint, gallery_endpoint);
                groups[place].last_associated_from_probe = Some(probe_endpoint);
                proof {
                    let after = group_views(groups@);
                    assert(after =~= current.update(
                        place as int,
                        current[place as int].with_last(Some(probe_endpoint)),
                    ));
                    assert forall|i: int| 0 <= i < after.len() implies (#[trigger] after[i]).wf()
                        && before[i].with_last(None) == after[i].with_last(None) by {
                        assert(current[i].wf());
                        assert(before[i].with_last(None) == current[i].with_last(None));
                    }
                }
            },
            EndpointRelation::MutuallyAssociated => {
                if config.strict_mode {
                    // The link was not made here, yet the next cleanup undoes it:
                    // the legacy matcher does so, and strict mode does as it did.
                    groups[place].last_associated_from_probe = Some(probe_endpoint);
                    proof {
                        let after = group_views(groups@);
                        assert(after =~= current.update(
                            place as int,
                            current[place as int].with_last(Some(probe_endpoint)),
                        ));
                        assert forall|i: int| 0 <= i < after.len() implies (
                        #[trigger] after[i]).wf() && before[i].with_last(None)
                            == after[i].with_last(None) by {
                            assert(current[i].wf());
                            assert(before[i].with_last(None) == current[i].with_last(None));
                        }
                    }
                }
            },
            EndpointRelation::AssociatedToOther => {
                return false;
            },
        }
        remaining = place;
    }
    true
}

/// Groups that forget their links stay well formed and select what they did.
pub proof fn lemma_forgetful(groups: Seq<GroupView>)
    requires
        groups_wf(groups),
    ensures
        groups_wf(forgetful(groups)),
        same_digits(groups, forgetful(groups)),
{
    assert forall|i: int| 0 <= i < groups.len() implies (#[trigger] forgetful(groups)[i]).wf() by {
        assert(groups[i].wf());
    }
}

/// An attempt to link changes no group but in the link it remembers, and
/// keeps groups and table well formed.
pub proof fn lemma_try_model(
    config: Config,
    groups: Seq<GroupView>,
    table: AssociationTable,
    remaining: int,
)
    requires
        groups_wf(groups),
        table.wf(),
        0 <= remaining <= groups.len(),
    ensures
        groups_wf(try_model(config, groups, table, remaining).1),
        same_digits(groups, try_model(config, groups, table, remaining).1),
        try_model(config, groups, table, remaining).2.wf(),
    decreases remaining,
{
    if remaining > 0 {
        let place = remaining - 1;
        assert(groups[place].wf());
        let (probe, gallery) = groups[place].current();
        let marked = groups.update(place, groups[place].with_last(Some(probe)));
        assert forall|i: int| 0 <= i < marked.len() implies (#[trigger] marked[i]).wf()
            && groups[i].with_last(None) == marked[i].with_last(None) by {
            assert(groups[i].wf());
        }
        match table.status(probe, gallery) {
            EndpointRelation::Unassociated => {
                lemma_associate_wf(table, probe, gallery);
                lemma_try_model(config, marked, table.associate(probe, gallery), place);
                let result = try_model(config, marked, table.associate(probe, gallery), place).1;
                assert forall|i: int| 0 <= i < groups.len() implies (
                #[trigger] groups[i]).with_last(None) == result[i].with_last(None) by {
                    assert(marked[i].with_last(None) == result[i].with_last(None));
                }
            },
            EndpointRelation::MutuallyAssociated => {
                if config.strict_mode {
                    lemma_try_model(config, marked, table, place);
                    let result = try_model(config, marked, table, place).1;
                    assert forall|i: int| 0 <= i < groups.len() implies (
                    #[trigger] groups[i]).with_last(None) == result[i].with_last(None) by {
                        assert(marked[i].with_last(None) == result[i].with_last(None));
                    }
                } else {
                    lemma_try_model(config, groups, table, place);
                }
            },
            EndpointRelation::AssociatedToOther => {},
        }
    }
}

/// `MAX_CANDIDATES` to the power of `k`.
pub open spec fn pow_radix(k: int) -> int
    decreases k,
{
    if k <= 0 {
        1
    } else {
        MAX_CANDIDATES * pow_radix(k - 1)
    }
}

/// The number that the selections of the first `i` groups spell, the first
/// group giving the leading digit, in the base `MAX_CANDIDATES`.
pub open spec fn odometer(groups: Seq<GroupView>, i: int) -> int
    decreases i,
{
    if i <= 0 {
        0
    } else {
        odometer(groups, i - 1) * MAX_CANDIDATES + groups[i - 1].endpoint_index
    }
}

/// How far the search for the next selection is from its end, at the least,
/// once the selection of one of the first `position` groups has advanced.
pub open spec fn pending(groups: Seq<GroupView>, position: int) -> int {
    pow_radix(groups.len() as int) - (odometer(groups, position) + 1) * pow_radix(
        groups.len() - position,
    )
}

/// Every power is at least one.
pub(crate) proof fn lemma_pow_radix_positive(k: int)
    ensures
        pow_radix(k) >= 1,
    decreases k,
{
    if k > 0 {
        lemma_pow_radix_positive(k - 1);
        assert(MAX_CANDIDATES * pow_radix(k - 1) >= 1) by (nonlinear_arith)
            requires
                MAX_CANDIDATES >= 1,
                pow_radix(k - 1) >= 1,
        ;
    }
}

/// The power of a sum is the product of the powers.
pub(crate) proof fn lemma_pow_radix_add(a: int, b: int)
    requires
        0 <= a,
        0 <= b,
    ensures
        pow_radix(a + b) == pow_radix(a) * pow_radix(b),
    decreases a,
{
    if a > 0 {
        lemma_pow_radix_add(a - 1, b);
        let x = pow_radix(a - 1);
        let y = pow_radix(b);
        assert(MAX_CANDIDATES * (x * y) == (MAX_CANDIDATES * x) * y) by (nonlinear_arith);
    } else {
        assert(pow_radix(a) * pow_radix(b) == pow_radix(b)) by (nonlinear_arith)
            requires
                pow_radix(a) == 1,
        ;
    }
}

/// Groups that select the same candidates spell the same number.
pub(crate) proof fn lemma_odometer_same(a: Seq<GroupView>, b: Seq<GroupView>, i: int)
    requires
        0 <= i <= a.len(),
        i <= b.len(),
        forall|j: int| 0 <= j < i ==> (#[trigger] a[j]).endpoint_index == b[j].endpoint_index,
    ensures
        odometer(a, i) == odometer(b, i),
    decreases i,
{
    if i > 0 {
        lemma_odometer_same(a, b, i - 1);
        assert(a[i - 1].endpoint_index == b[i - 1].endpoint_index);
    }
}

/// The first groups spell a number of as many digits.
pub(crate) proof fn lemma_odometer_bounds(groups: Seq<GroupView>, i: int)
    requires
        groups_wf(groups),
        0 <= i <= groups.len(),
    ensures
        0 <= odometer(groups, i) <= pow_radix(i) - 1,
    decreases i,
{
    if i > 0 {
        lemma_odometer_bounds(groups, i - 1);
        assert(groups[i - 1].wf());
        lemma_candidates_bounded(groups[i - 1]);
        let earlier = odometer(groups, i - 1);
        let top = pow_radix(i - 1);
        assert(0 <= earlier * MAX_CANDIDATES <= (top - 1) * MAX_CANDIDATES) by (nonlinear_arith)
            requires
                0 <= earlier <= top - 1,
        ;
        assert((top - 1) * MAX_CANDIDATES == MAX_CANDIDATES * top - MAX_CANDIDATES)
            by (nonlinear_arith);
    }
}

/// Further groups spell a number that is no smaller than what the first groups
/// spell, followed by zeros.
proof fn lemma_odometer_suffix(groups: Seq<GroupView>, i: int, n: int)
    requires
        groups_wf(groups),
        0 <= i <= n <= groups.len(),
    ensures
        odometer(groups, n) >= odometer(groups, i) * pow_radix(n - i),
    decreases n - i,
{
    if n > i {
        lemma_odometer_suffix(groups, i, n - 1);
        lemma_odometer_bounds(groups, i);
        assert(groups[n - 1].wf());
        let a = odometer(groups, i);
        let x = pow_radix(n - 1 - i);
        let earlier = odometer(groups, n - 1);
        assert(earlier * MAX_CANDIDATES >= a * (MAX_CANDIDATES * x)) by (nonlinear_arith)
            requires
                earlier >= a * x,
        ;
    } else {
        assert(odometer(groups, i) * pow_radix(0) == odometer(groups, i)) by (nonlinear_arith)
            requires
                pow_radix(0) == 1,
        ;
    }
}

/// Passing over a group that has no further candidate brings the search no
/// farther from its end.
pub proof fn lemma_walk(groups: Seq<GroupView>, position: int, next: Seq<GroupView>)
    requires
        groups_wf(groups),
        1 <= position <= groups.len(),
        next.len() == groups.len(),
        forall|j: int|
            0 <= j < position - 1 ==> (#[trigger] groups[j]).endpoint_index
                == next[j].endpoint_index,
    ensures
        0 <= pending(next, position - 1) <= pending(groups, position),
        (odometer(next, position - 1) + 1) * pow_radix(groups.len() - position + 1) >= (odometer(
            groups,
            position,
        ) + 1) * pow_radix(groups.len() - position),
{
    let len = groups.len() as int;
    lemma_odometer_same(groups, next, position - 1);
    lemma_odometer_bounds(groups, position - 1);
    assert(groups[position - 1].wf());
    lemma_candidates_bounded(groups[position - 1]);
    lemma_pow_radix_positive(len - position);
    lemma_pow_radix_add(position - 1, len - position + 1);
    let a = odometer(groups, position - 1);
    let d = groups[position - 1].endpoint_index;
    let x = pow_radix(len - position);
    let top = pow_radix(position - 1);
    assert((a * MAX_CANDIDATES + d + 1) * x <= (a + 1) * (MAX_CANDIDATES * x))
        by (nonlinear_arith)
        requires
            0 <= a,
            0 <= d <= MAX_CANDIDATES - 1,
            x >= 1,
    ;
    assert((a + 1) * (MAX_CANDIDATES * x) <= top * (MAX_CANDIDATES * x)) by (nonlinear_arith)
        requires
            a + 1 <= top,
            x >= 1,
    ;
}

/// Advancing the selection of a group brings the search nearer to its end,
/// whatever the groups behind it select.
pub proof fn lemma_restart(groups: Seq<GroupView>, position: int, next: Seq<GroupView>)
    requires
        groups_wf(groups),
        groups_wf(next),
        1 <= position <= groups.len(),
        next.len() == groups.len(),
        forall|j: int|
            0 <= j < position - 1 ==> (#[trigger] groups[j]).endpoint_index
                == next[j].endpoint_index,
        next[position - 1].endpoint_index == groups[position - 1].endpoint_index + 1,
    ensures
        0 <= pending(next, groups.len() as int) < pending(groups, position),
        odometer(next, groups.len() as int) >= (odometer(groups, position) + 1) * pow_radix(
            groups.len() - position,
        ),
{
    let len = groups.len() as int;
    lemma_odometer_same(groups, next, position - 1);
    lemma_odometer_suffix(next, position, len);
    lemma_odometer_bounds(next, len);
    assert(pow_radix(0) == 1);
    assert((odometer(next, len) + 1) * pow_radix(0) == odometer(next, len) + 1)
        by (nonlinear_arith)
        requires
            pow_radix(0) == 1,
    ;
}

/// The same where the groups were handled in between without a change to
/// what they select.
pub proof fn lemma_restart_after(
    groups: Seq<GroupView>,
    position: int,
    attempted: Seq<GroupView>,
    next: Seq<GroupView>,
)
    requires
        groups_wf(groups),
        groups_wf(next),
        1 <= position <= groups.len(),
        same_digits(
            groups.update(
                position - 1,
                groups[position - 1].with_index(groups[position - 1].endpoint_index + 1),
            ),
            attempted,
        ),
        same_digits(attempted, next),
    ensures
        0 <= pending(next, groups.len() as int) < pending(groups, position),
        odometer(next, groups.len() as int) >= (odometer(groups, position) + 1) * pow_radix(
            groups.len() - position,
        ),
{
    let advanced = groups.update(
        position - 1,
        groups[position - 1].with_index(groups[position - 1].endpoint_index + 1),
    );
    assert forall|j: int| 0 <= j < groups.len() implies (#[trigger] advanced[j]).endpoint_index
        == next[j].endpoint_index by {
        assert(advanced[j].with_last(None) == attempted[j].with_last(None));
        assert(attempted[j].with_last(None) == next[j].with_last(None));
    }
    assert forall|j: int| 0 <= j < position - 1 implies (#[trigger] groups[j]).endpoint_index
        == next[j].endpoint_index by {
        assert(advanced[j].endpoint_index == next[j].endpoint_index);
    }
    assert(advanced[position - 1].endpoint_index == next[position - 1].endpoint_index);
    lemma_restart(groups, position, next);
}

/// The search for the next selection of candidates that links without a
/// clash, `position` groups still to pass: whether there is one, and the
/// groups and the table as they then are.
///
/// The groups are passed from the last to the first. A group that has a
/// further candidate selects it; then all groups try to link what they
/// select. Where that succeeds the search ends. Where it fails the links
/// made are undone and the search starts again from the last group. A
/// group without a further candidate selects its first one again and is
/// passed. When all groups were passed there is no further selection.
pub open spec fn next_model(
    config: Config,
    groups: Seq<GroupView>,
    table: AssociationTable,
    position: int,
) -> (bool, Seq<GroupView>, AssociationTable)
    decreases pending(groups, position), position,
    when groups_wf(groups) && table.wf() && 0 <= position <= groups.len()
{
    if position <= 0 {
        (false, groups, table)
    } else {
        let place = position - 1;
        let group = groups[place];
        if group.endpoint_index + 1 < group.matching_endpoints.len() {
            let advanced = groups.update(place, group.with_index(group.endpoint_index + 1));
            let attempt = try_model(config, advanced, table, advanced.len() as int);
            if attempt.0 {
                attempt
            } else {
                let forgotten = forgetful(attempt.1);
                let cleared = cleared_table(attempt.1, attempt.2, attempt.1.len() as int);
                proof {
                    lemma_advanced(groups, position);
                    lemma_try_model(config, advanced, table, advanced.len() as int);
                    lemma_forgetful(attempt.1);
                    lemma_cleared_table_wf(attempt.1, attempt.2, attempt.1.len() as int);
                    lemma_restart_after(groups, position, attempt.1, forgotten);
                }
                next_model(config, forgotten, cleared, forgotten.len() as int)
            }
        } else {
            proof {
                lemma_walk(groups, position, groups.update(place, group.with_index(0)));
            }
            next_model(config, groups.update(place, group.with_index(0)), table, place)
        }
    }
}

/// The groups stay well formed when one with a further candidate selects it.
pub proof fn lemma_advanced(groups: Seq<GroupView>, position: int)
    requires
        groups_wf(groups),
        1 <= position <= groups.len(),
        groups[position - 1].endpoint_index + 1 < groups[position - 1].matching_endpoints.len(),
    ensures
        groups_wf(
            groups.update(
                position - 1,
                groups[position - 1].with_index(groups[position - 1].endpoint_index + 1),
            ),
        ),
{
    let advanced = groups.update(
        position - 1,
        groups[position - 1].with_index(groups[position - 1].endpoint_index + 1),
    );
    assert forall|i: int| 0 <= i < advanced.len() implies (#[trigger] advanced[i]).wf() by {
        assert(groups[i].wf());
    }
}

/// The next selection of candidates that links without a clash, after the
/// links that the groups remember were undone.
pub open spec fn find_next_model(config: Config, groups: Seq<GroupView>, table: AssociationTable) -> (
    bool,
    Seq<GroupView>,
    AssociationTable,
) {
    next_model(
        config,
        forgetful(groups),
        cleared_table(groups, table, groups.len() as int),
        groups.len() as int,
    )
}

/// Two lists of groups that stand for the same endpoints with the same
/// candidates.
pub open spec fn same_candidates(a: Seq<GroupView>, b: Seq<GroupView>) -> bool {
    &&& a.len() == b.len()
    &&& forall|i: int|
        0 <= i < a.len() ==> (#[trigger] a[i]).with_last(None).with_index(0) == b[i].with_last(
            None,
        ).with_index(0)
}

/// Groups that differ only in the links remembered have the same candidates.
proof fn lemma_same_digits_candidates(a: Seq<GroupView>, b: Seq<GroupView>, c: Seq<GroupView>)
    requires
        same_candidates(a, b),
        same_digits(b, c),
    ensures
        same_candidates(a, c),
{
    assert forall|i: int| 0 <= i < a.len() implies (#[trigger] a[i]).with_last(None).with_index(0)
        == c[i].with_last(None).with_index(0) by {
        assert(b[i].with_last(None) == c[i].with_last(None));
    }
}

/// Having the same candidates carries over from list to list.
proof fn lemma_candidates_chain(a: Seq<GroupView>, b: Seq<GroupView>, c: Seq<GroupView>)
    requires
        same_candidates(a, b),
        same_candidates(b, c),
    ensures
        same_candidates(a, c),
{
    assert forall|i: int| 0 <= i < a.len() implies (#[trigger] a[i]).with_last(None).with_index(0)
        == c[i].with_last(None).with_index(0) by {
        assert(a[i].with_last(None).with_index(0) == b[i].with_last(None).with_index(0));
        assert(b[i].with_last(None).with_index(0) == c[i].with_last(None).with_index(0));
    }
}

/// Groups that differ only in the links remembered have the same candidates.
proof fn lemma_digits_are_candidates(a: Seq<GroupView>, b: Seq<GroupView>)
    requires
        same_digits(a, b),
    ensures
        same_candidates(a, b),
{
    assert forall|i: int| 0 <= i < a.len() implies (#[trigger] a[i]).with_last(None).with_index(0)
        == b[i].with_last(None).with_index(0) by {
        assert(a[i].with_last(None) == b[i].with_last(None));
    }
}

/// The search for the next selection keeps groups and table well formed and
/// the candidates as they are, and where it finds a selection, the
/// selections spell a greater number than before.
pub proof fn lemma_next_model(
    config: Config,
    groups: Seq<GroupView>,
    table: AssociationTable,
    position: int,
)
    requires
        groups_wf(groups),
        table.wf(),
        0 <= position <= groups.len(),
    ensures
        groups_wf(next_model(config, groups, table, position).1),
        next_model(config, groups, table, position).2.wf(),
        same_candidates(groups, next_model(config, groups, table, position).1),
        next_model(config, groups, table, position).0 ==> odometer(
            next_model(config, groups, table, position).1,
            groups.len() as int,
        ) >= (odometer(groups, position) + 1) * pow_radix(groups.len() - position),
    decreases pending(groups, position), position,
{
    let len = groups.len() as int;
    if position > 0 {
        let place = position - 1;
        let group = groups[place];
        assert(group.wf());
        if group.endpoint_index + 1 < group.matching_endpoints.len() {
            let advanced = groups.update(place, group.with_index(group.endpoint_index + 1));
            let attempt = try_model(config, advanced, table, advanced.len() as int);
            lemma_advanced(groups, position);
            lemma_try_model(config, advanced, table, advanced.len() as int);
            assert(same_candidates(groups, advanced));
            lemma_digits_are_candidates(advanced, attempt.1);
            lemma_candidates_chain(groups, advanced, attempt.1);
            if attempt.0 {
                lemma_restart_after(groups, position, attempt.1, attempt.1);
            } else {
                let forgotten = forgetful(attempt.1);
                let cleared = cleared_table(attempt.1, attempt.2, attempt.1.len() as int);
                lemma_forgetful(attempt.1);
                lemma_cleared_table_wf(attempt.1, attempt.2, attempt.1.len() as int);
                lemma_restart_after(groups, position, attempt.1, forgotten);
                lemma_next_model(config, forgotten, cleared, len);
                lemma_digits_are_candidates(attempt.1, forgotten);
                lemma_candidates_chain(groups, attempt.1, forgotten);
                lemma_candidates_chain(
                    groups,
                    forgotten,
                    next_model(config, forgotten, cleared, len).1,
                );
                assert((odometer(forgotten, len) + 1) * pow_radix(0) == odometer(forgotten, len)
                    + 1) by (nonlinear_arith)
                    requires
                        pow_radix(0) == 1,
                ;
            }
        } else {
            let reset = groups.update(place, group.with_index(0));
            lemma_walk(groups, position, reset);
            assert forall|i: int| 0 <= i < reset.len() implies (#[trigger] reset[i]).wf() by {
                assert(groups[i].wf());
            }
            assert(same_candidates(groups, reset));
            lemma_next_model(config, reset, table, place);
            lemma_candidates_chain(groups, reset, next_model(config, reset, table, place).1);
        }
    } else {
        assert(same_candidates(groups, groups));
    }
}

/// The same of the search that starts after the links remembered were
/// undone.
pub proof fn lemma_find_next_model(config: Config, groups: Seq<GroupView>, table: AssociationTable)
    requires
        groups_wf(groups),
        table.wf(),
    ensures
        groups_wf(find_next_model(config, groups, table).1),
        find_next_model(config, groups, table).2.wf(),
        same_candidates(groups, find_next_model(config, groups, table).1),
        find_next_model(config, groups, table).0 ==> odometer(
            find_next_model(config, groups, table).1,
            groups.len() as int,
        ) > odometer(groups, groups.len() as int),
{
    let len = groups.len() as int;
    let forgotten = forgetful(groups);
    lemma_forgetful(groups);
    lemma_cleared_table_wf(groups, table, len);
    lemma_next_model(config, forgotten, cleared_table(groups, table, len), len);
    lemma_digits_are_candidates(groups, forgotten);
    lemma_candidates_chain(groups, forgotten, find_next_model(config, groups, table).1);
    lemma_odometer_same(groups, forgotten, len);
    assert((odometer(forgotten, len) + 1) * pow_radix(0) == odometer(forgotten, len) + 1)
        by (nonlinear_arith)
        requires
            pow_radix(0) == 1,
    ;
}

/// Moves the groups on to their next selection of candidates that links
/// without a clash, and links it; `false` where there is none.
pub fn find_next_not_conflicting_associations(
    config: &Config,
    groups: &mut Vec<EndpointGroup>,
    associator: &mut EndpointAssociations,
) -> (found: bool)
    requires
        groups_wf(group_views(old(groups)@)),
        old(associator).wf(),
    ensures
        (found, group_views(final(groups)@), final(associator)@) == find_next_model(
            *config,
            group_views(old(groups)@),
            old(associator)@,
        ),
        groups_wf(group_views(final(groups)@)),
        final(associator).wf(),
        same_candidates(group_views(old(groups)@), group_views(final(groups)@)),
        found ==> odometer(group_views(final(groups)@), old(groups)@.len() as int) > odometer(
            group_views(old(groups)@),
            old(groups)@.len() as int,
        ),
{
    let ghost before = group_views(groups@);
    let ghost table = associator@;
    cleanup_associations(groups, associator);
    let n: usize = groups.len();
    let mut position: usize = n;
    proof {
        lemma_forgetful(before);
        lemma_odometer_same(before, group_views(groups@), n as int);
        assert((odometer(group_views(groups@), n as int) + 1) * pow_radix(0) == odometer(
            before,
            n as int,
        ) + 1) by (nonlinear_arith)
            requires
                odometer(group_views(groups@), n as int) == odometer(before, n as int),
                pow_radix(0) == 1,
        ;
        assert forall|i: int| 0 <= i < before.len() implies (#[trigger] before[i]).with_last(
            None,
        ).with_index(0) == group_views(groups@)[i].with_last(None).with_index(0) by {}
    }
    while position > 0
        invariant
            position <= n,
            n == groups@.len(),
            n == before.len(),
            before == group_views(old(groups)@),
            table == old(associator)@,
            groups_wf(before),
            groups_wf(group_views(groups@)),
            associator.wf(),
            same_candidates(before, group_views(groups@)),
            find_next_model(*config, before, table) == next_model(
                *config,
                group_views(groups@),
                associator@,
                position as int,
            ),
            (odometer(group_views(groups@), position as int) + 1) * pow_radix(n - position)
                >= odometer(before, n as int) + 1,
        decreases pending(group_views(groups@), position as int), position,
    {
        let place: usize = position - 1;
        let ghost current = group_views(groups@);
        let ghost linked_table = associator@;
        assert(current[place as int] == groups@[place as int]@);
        assert(current[place as int].wf());
        let selected: usize = groups[place].endpoint_index;
        let candidates: usize = groups[place].matching_endpoints.len();
        assert(selected == current[place as int].endpoint_index);
        assert(candidates == current[place as int].matching_endpoints.len());
        if selected + 1 < candidates {
            groups[place].endpoint_index = selected + 1;
            let ghost advanced = group_views(groups@);
            proof {
                assert(advanced =~= current.update(
                    place as int,
                    current[place as int].with_index(current[place as int].endpoint_index + 1),
                ));
                lemma_advanced(current, position as int);
            }
            // Try to associate currently selected endpoint for all the groups.
            if try_associate_current_endpoints(config, groups, associator) {
                proof {
                    let linked = group_views(groups@);
                    lemma_same_digits_candidates(before, current, current);
                    assert forall|i: int| 0 <= i < before.len() implies (
                    #[trigger] before[i]).with_last(None).with_index(0) == linked[i].with_last(
                        None,
                    ).with_index(0) by {
                        assert(before[i].with_last(None).with_index(0) == current[i].with_last(
                            None,
                        ).with_index(0));
                        assert(advanced[i].with_last(None) == linked[i].with_last(None));
                    }
                    lemma_restart_after(current, position as int, linked, linked);
                }
                return true;
            }
            // There is a conflict, so clear all made associations
            // and start from the beginning...
            let ghost attempted = group_views(groups@);
            cleanup_associations(groups, associator);
            proof {
                let forgotten = group_views(groups@);
                lemma_forgetful(attempted);
                lemma_restart_after(current, position as int, attempted, forgotten);
                assert forall|i: int| 0 <= i < before.len() implies (
                #[trigger] before[i]).with_last(None).with_index(0) == forgotten[i].with_last(
                    None,
                ).with_index(0) by {
                    assert(before[i].with_last(None).with_index(0) == current[i].with_last(
                        None,
                    ).with_index(0));
                    assert(advanced[i].with_last(None) == attempted[i].with_last(None));
                    assert(attempted[i].with_last(None) == forgotten[i].with_last(None));
                }
                assert((odometer(forgotten, n as int) + 1) * pow_radix(0) == odometer(
                    forgotten,
                    n as int,
                ) + 1) by (nonlinear_arith)
                    requires
                        pow_radix(0) == 1,
                ;
            }
            position = n;
        } else {
            groups[place].endpoint_index = 0;
            proof {
                let reset = group_views(groups@);
                assert(reset =~= current.update(
                    place as int,
                    current[place as int].with_index(0),
                ));
                lemma_walk(current, position as int, reset);
                assert forall|i: int| 0 <= i < reset.len() implies (#[trigger] reset[i]).wf()
                    && before[i].with_last(None).with_index(0) == reset[i].with_last(
                    None,
                ).with_index(0) by {
                    assert(current[i].wf());
                    assert(before[i].with_last(None).with_index(0) == current[i].with_last(
                        None,
                    ).with_index(0));
                }
            }
            position = place;
        }
    }
    false
}

} // verus!
