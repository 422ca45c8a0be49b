//! The pairs of one comparison, with lookup by first and by second endpoints.

use vstd::prelude::*;
use crate::consts::{MAX_NUMBER_OF_MINUTIAE, MAX_NUMBER_OF_PAIRS};
use crate::sorting::{
    is_sorted_by, is_stable_sort, key_le, pair_key, second_key, sort_pairs, sort_places,
};
use crate::types::{Endpoint, Pair};

verus! {

/// Number of slots of a range table: one for each probe endpoint with each
/// gallery endpoint.
pub const RANGE_SLOTS: usize = MAX_NUMBER_OF_MINUTIAE * MAX_NUMBER_OF_MINUTIAE;

/// Start and end of the range that stands for no range.
pub const MARKER_EMPTY: u32 = 0xffff_ffff;

/// A half-open range of places, or none.
#[derive(Clone, Copy, Debug)]
pub struct SmallOptionalRange {
    start: u32,
    end: u32,
}

impl SmallOptionalRange {
    /// The start and the end of the range, or `None` for the marker of no range.
    pub closed spec fn spec_as_range(&self) -> Option<(int, int)> {
        if !(self.start == MARKER_EMPTY && self.end == MARKER_EMPTY) {
            Some((self.start as int, self.end as int))
        } else {
            None
        }
    }

    /// A range from `start` to before `end`.
    pub fn new(start: u32, end: u32) -> (range: SmallOptionalRange)
        requires
            start < MARKER_EMPTY,
        ensures
            range.spec_as_range() == Some((start as int, end as int)),
    {
        SmallOptionalRange { start, end }
    }

    /// The marker of no range.
    pub fn empty() -> (range: SmallOptionalRange)
        ensures
            range.spec_as_range().is_none(),
    {
        SmallOptionalRange { start: MARKER_EMPTY, end: MARKER_EMPTY }
    }

    /// The start and the end of the range, if it is one.
    pub fn as_range(&self) -> (range: Option<(usize, usize)>)
        ensures
            match range {
                Some((start, end)) => self.spec_as_range() == Some((start as int, end as int)),
                None => self.spec_as_range().is_none(),
            },
    {
        if !(self.start == MARKER_EMPTY && self.end == MARKER_EMPTY) {
            Some((self.start as usize, self.end as usize))
        } else {
            None
        }
    }
}

/// The slot of the range tables that stands for a probe endpoint with a
/// gallery endpoint.
pub open spec fn slot_of(probe: Endpoint, gallery: Endpoint) -> int {
    probe.0 * MAX_NUMBER_OF_MINUTIAE + gallery.0
}

/// What a lookup hands out for one pair: the pair's place and the two
/// endpoints that were not asked for.
pub type Found = (usize, Endpoint, Endpoint);

/// The items `item(i)` of the places `lo <= i < hi` of which `keep` holds, in
/// the order of the places.
pub open spec fn collect_run<T>(
    lo: int,
    hi: int,
    keep: spec_fn(int) -> bool,
    item: spec_fn(int) -> T,
) -> Seq<T>
    decreases hi - lo,
{
    if hi <= lo {
        Seq::empty()
    } else {
        let rest = collect_run(lo, hi - 1, keep, item);
        if keep(hi - 1) {
            rest.push(item(hi - 1))
        } else {
            rest
        }
    }
}

/// Where `keep` holds of no place, nothing is collected.
proof fn lemma_collect_none<T>(
    lo: int,
    hi: int,
    keep: spec_fn(int) -> bool,
    item: spec_fn(int) -> T,
)
    requires
        forall|i: int| lo <= i < hi ==> !#[trigger] keep(i),
    ensures
        collect_run(lo, hi, keep, item) == Seq::<T>::empty(),
    decreases hi - lo,
{
    if hi > lo {
        lemma_collect_none(lo, hi - 1, keep, item);
    }
}

/// What is collected from a run is what is collected from its two parts.
proof fn lemma_collect_split<T>(
    lo: int,
    mid: int,
    hi: int,
    keep: spec_fn(int) -> bool,
    item: spec_fn(int) -> T,
)
    requires
        lo <= mid <= hi,
    ensures
        collect_run(lo, hi, keep, item) == collect_run(lo, mid, keep, item) + collect_run(
            mid,
            hi,
            keep,
            item,
        ),
    decreases hi - mid,
{
    if hi > mid {
        lemma_collect_split(lo, mid, hi - 1, keep, item);
        let left = collect_run(lo, mid, keep, item);
        let right = collect_run(mid, hi - 1, keep, item);
        if keep(hi - 1) {
            assert((left + right).push(item(hi - 1)) =~= left + right.push(item(hi - 1)));
        }
    } else {
        assert(collect_run(lo, mid, keep, item) + Seq::<T>::empty() =~= collect_run(
            lo,
            mid,
            keep,
            item,
        ));
    }
}

/// Whether `value` is the item of a place of the run that `keep` holds of.
pub open spec fn is_kept_item<T>(
    lo: int,
    hi: int,
    keep: spec_fn(int) -> bool,
    item: spec_fn(int) -> T,
    value: T,
) -> bool {
    exists|i: int| lo <= i < hi && #[trigger] keep(i) && value == item(i)
}

/// Every item collected is the item of a place of the run that `keep` holds
/// of.
pub proof fn lemma_collect_members<T>(
    lo: int,
    hi: int,
    keep: spec_fn(int) -> bool,
    item: spec_fn(int) -> T,
)
    ensures
        forall|t: int|
            0 <= t < collect_run(lo, hi, keep, item).len() ==> is_kept_item(
                lo,
                hi,
                keep,
                item,
                #[trigger] collect_run(lo, hi, keep, item)[t],
            ),
    decreases hi - lo,
{
    if hi > lo {
        lemma_collect_members(lo, hi - 1, keep, item);
        let rest = collect_run(lo, hi - 1, keep, item);
        let all = collect_run(lo, hi, keep, item);
        assert forall|t: int| 0 <= t < all.len() implies is_kept_item(
            lo,
            hi,
            keep,
            item,
            #[trigger] all[t],
        ) by {
            if t < rest.len() {
                assert(is_kept_item(lo, hi - 1, keep, item, rest[t]));
                let i = choose|i: int| lo <= i < hi - 1 && #[trigger] keep(i) && rest[t] == item(i);
                assert(lo <= i < hi && keep(i) && all[t] == item(i));
            } else {
                assert(keep(hi - 1) && all[t] == item(hi - 1));
            }
        }
    }
}

/// One more than the last place of `slots` that holds `slot`, or zero where
/// none does.
pub open spec fn last_end(slots: Seq<int>, slot: int) -> int
    decreases slots.len(),
{
    if slots.len() == 0 {
        0
    } else if slots.last() == slot {
        slots.len() as int
    } else {
        last_end(slots.drop_last(), slot)
    }
}

/// The end found lies within the slots.
pub(crate) proof fn lemma_last_end_bounds(slots: Seq<int>, slot: int)
    ensures
        0 <= last_end(slots, slot) <= slots.len(),
    decreases slots.len(),
{
    if slots.len() > 0 && slots.last() != slot {
        lemma_last_end_bounds(slots.drop_last(), slot);
    }
}

/// The end of the range of the places that hold `slot` is the end found.
proof fn lemma_last_end(slots: Seq<int>, slot: int, end: int)
    requires
        0 <= end <= slots.len(),
        end > 0 ==> slots[end - 1] == slot,
        forall|i: int| end <= i < slots.len() ==> slots[i] != slot,
    ensures
        last_end(slots, slot) == end,
    decreases slots.len(),
{
    if slots.len() > 0 && end < slots.len() {
        lemma_last_end(slots.drop_last(), slot, end);
    }
}

/// What a pair holder stands for: the pairs in their order, the places of the
/// pairs in the order of the lookup by second endpoints, and whether both
/// orders are up to date.
pub struct PairIndex {
    pub pairs: Seq<Pair>,
    pub backward: Seq<u32>,
    pub prepared: bool,
}

impl PairIndex {
    /// The slot of the first endpoints of the pair at each place.
    pub open spec fn first_slots(self) -> Seq<int> {
        Seq::new(self.pairs.len(), |i: int| slot_of(self.pairs[i].probe_k, self.pairs[i].gallery_k))
    }

    /// The slot of the second endpoints of each pair, in the backward order.
    pub open spec fn second_slots(self) -> Seq<int> {
        Seq::new(
            self.backward.len(),
            |q: int|
                slot_of(
                    self.pairs[self.backward[q] as int].probe_j,
                    self.pairs[self.backward[q] as int].gallery_j,
                ),
        )
    }

    /// The backward order holds every place once, sorted by the second
    /// endpoints of the pairs, places of equal endpoints in rising order.
    pub open spec fn backward_ordered(self) -> bool {
        &&& self.backward.len() == self.pairs.len()
        &&& forall|q: int|
            0 <= q < self.backward.len() ==> #[trigger] self.backward[q] < self.pairs.len()
        &&& forall|q: int, r: int|
            0 <= q < r < self.backward.len() ==> #[trigger] self.backward[q]
                != #[trigger] self.backward[r]
        &&& forall|i: int|
            0 <= i < self.pairs.len() ==> #[trigger] self.backward.contains(i as u32)
        &&& is_sorted_by(self.backward, second_key(self.pairs))
        &&& forall|q: int, r: int|
            0 <= q < r < self.backward.len() && second_key(self.pairs)(self.backward[q])
                == second_key(self.pairs)(self.backward[r]) ==> #[trigger] self.backward[q]
                < #[trigger] self.backward[r]
    }

    /// Both orders are in place.
    pub open spec fn indexed(self) -> bool {
        &&& is_sorted_by(self.pairs, pair_key())
        &&& self.backward_ordered()
    }

    /// The pairs are well formed and no more than a holder can hold, and where the
    /// index is prepared, both orders are in place.
    pub open spec fn wf(self) -> bool {
        &&& self.pairs.len() <= MAX_NUMBER_OF_PAIRS
        &&& forall|i: int| 0 <= i < self.pairs.len() ==> (#[trigger] self.pairs[i]).wf()
        &&& self.prepared ==> self.indexed()
    }

    /// Whether the pair at a place has the first endpoints of `slot`.
    pub open spec fn first_keep(self, slot: int) -> spec_fn(int) -> bool {
        |i: int| slot_of(self.pairs[i].probe_k, self.pairs[i].gallery_k) == slot
    }

    /// What the lookup by first endpoints hands out for the pair at a place.
    pub open spec fn first_item(self) -> spec_fn(int) -> Found {
        |i: int| (i as usize, self.pairs[i].probe_j, self.pairs[i].gallery_j)
    }

    /// Whether the pair at a position of the backward order has the second
    /// endpoints of `slot` and stands at place `offset` or behind.
    pub open spec fn second_keep(self, slot: int, offset: int) -> spec_fn(int) -> bool {
        |q: int|
            slot_of(
                self.pairs[self.backward[q] as int].probe_j,
                self.pairs[self.backward[q] as int].gallery_j,
            ) == slot && self.backward[q] >= offset
    }

    /// What the lookup by second endpoints hands out for the pair at a position of
    /// the backward order.
    pub open spec fn second_item(self) -> spec_fn(int) -> Found {
        |q: int|
            (
                self.backward[q] as usize,
                self.pairs[self.backward[q] as int].probe_k,
                self.pairs[self.backward[q] as int].gallery_k,
            )
    }

    /// The pairs from place `offset` on whose first endpoints are `probe` and
    /// `gallery`, in the order of the places: each with its place and its
    /// second endpoints.
    pub open spec fn find_by_first(self, offset: int, probe: Endpoint, gallery: Endpoint) -> Seq<
        Found,
    > {
        collect_run(
            offset,
            self.pairs.len() as int,
            self.first_keep(slot_of(probe, gallery)),
            self.first_item(),
        )
    }

    /// One more than the last place whose pair has the first endpoints
    /// `probe` and `gallery`; `offset` where there is no such pair.
    pub open spec fn end_by_first(self, offset: int, probe: Endpoint, gallery: Endpoint) -> int {
        let end = last_end(self.first_slots(), slot_of(probe, gallery));
        if end == 0 {
            offset
        } else {
            end
        }
    }

    /// The pairs at places from `offset` on whose second endpoints are
    /// `probe` and `gallery`, in the backward order: each with its place and
    /// its first endpoints.
    pub open spec fn find_by_second(self, offset: int, probe: Endpoint, gallery: Endpoint) -> Seq<
        Found,
    > {
        collect_run(
            0,
            self.backward.len() as int,
            self.second_keep(slot_of(probe, gallery), offset),
            self.second_item(),
        )
    }

    /// One more than the last position of the backward order whose pair has
    /// the second endpoints `probe` and `gallery`; `offset` where there is no
    /// such pair.
    pub open spec fn end_by_second(self, offset: int, probe: Endpoint, gallery: Endpoint) -> int {
        let end = last_end(self.second_slots(), slot_of(probe, gallery));
        if end == 0 {
            offset
        } else {
            end
        }
    }
}

/// Whether every item found holds the place of a pair and two endpoints that
/// are indices.
pub open spec fn found_valid(index: PairIndex, items: Seq<Found>) -> bool {
    forall|t: int|
        0 <= t < items.len() ==> (#[trigger] items[t]).0 < index.pairs.len() && items[t].1.wf()
            && items[t].2.wf()
}

/// The lookup by first endpoints finds places of pairs and endpoints that are
/// indices.
pub proof fn lemma_find_by_first_valid(
    index: PairIndex,
    offset: int,
    probe: Endpoint,
    gallery: Endpoint,
)
    requires
        index.wf(),
        0 <= offset,
    ensures
        found_valid(index, index.find_by_first(offset, probe, gallery)),
{
    let keep = index.first_keep(slot_of(probe, gallery));
    let item = index.first_item();
    let items = index.find_by_first(offset, probe, gallery);
    lemma_collect_members(offset, index.pairs.len() as int, keep, item);
    assert forall|t: int| 0 <= t < items.len() implies (#[trigger] items[t]).0 < index.pairs.len()
        && items[t].1.wf() && items[t].2.wf() by {
        assert(is_kept_item(offset, index.pairs.len() as int, keep, item, items[t]));
        let i = choose|i: int|
            offset <= i < index.pairs.len() && #[trigger] keep(i) && items[t] == item(i);
        assert(index.pairs[i].wf());
    }
}

/// The lookup by second endpoints finds places of pairs and endpoints that are
/// indices.
pub proof fn lemma_find_by_second_valid(
    index: PairIndex,
    offset: int,
    probe: Endpoint,
    gallery: Endpoint,
)
    requires
        index.wf(),
        index.prepared,
    ensures
        found_valid(index, index.find_by_second(offset, probe, gallery)),
{
    let keep = index.second_keep(slot_of(probe, gallery), offset);
    let item = index.second_item();
    let items = index.find_by_second(offset, probe, gallery);
    lemma_collect_members(0, index.backward.len() as int, keep, item);
    assert forall|t: int| 0 <= t < items.len() implies (#[trigger] items[t]).0 < index.pairs.len()
        && items[t].1.wf() && items[t].2.wf() by {
        assert(is_kept_item(0, index.backward.len() as int, keep, item, items[t]));
        let q = choose|q: int|
            0 <= q < index.backward.len() && #[trigger] keep(q) && items[t] == item(q);
        assert(index.backward[q] < index.pairs.len());
        assert(index.pairs[index.backward[q] as int].wf());
    }
}

/// The item of every place of the run that `keep` holds of is collected.
proof fn lemma_collect_contains<T>(
    lo: int,
    hi: int,
    keep: spec_fn(int) -> bool,
    item: spec_fn(int) -> T,
    place: int,
)
    requires
        lo <= place < hi,
        keep(place),
    ensures
        collect_run(lo, hi, keep, item).contains(item(place)),
    decreases hi - lo,
{
    let all = collect_run(lo, hi, keep, item);
    let rest = collect_run(lo, hi - 1, keep, item);
    if place == hi - 1 {
        assert(all[rest.len() as int] == item(place));
    } else {
        lemma_collect_contains(lo, hi - 1, keep, item, place);
        let t = choose|t: int| 0 <= t < rest.len() && rest[t] == item(place);
        assert(all[t] == item(place));
    }
}

/// Where the items of later places rank higher, what is collected rises in
/// rank.
proof fn lemma_collect_rising<T>(
    lo: int,
    hi: int,
    keep: spec_fn(int) -> bool,
    item: spec_fn(int) -> T,
    rank: spec_fn(T) -> int,
)
    requires
        forall|i: int, j: int|
            lo <= i < j < hi && #[trigger] keep(i) && #[trigger] keep(j) ==> rank(item(i)) < rank(
                item(j),
            ),
    ensures
        forall|s: int, t: int|
            0 <= s < t < collect_run(lo, hi, keep, item).len() ==> rank(
                #[trigger] collect_run(lo, hi, keep, item)[s],
            ) < rank(#[trigger] collect_run(lo, hi, keep, item)[t]),
    decreases hi - lo,
{
    if hi > lo {
        let all = collect_run(lo, hi, keep, item);
        let rest = collect_run(lo, hi - 1, keep, item);
        lemma_collect_rising(lo, hi - 1, keep, item, rank);
        lemma_collect_members(lo, hi - 1, keep, item);
        assert forall|s: int, t: int| 0 <= s < t < all.len() implies rank(#[trigger] all[s])
            < rank(#[trigger] all[t]) by {
            if t < rest.len() {
                assert(rank(rest[s]) < rank(rest[t]));
            } else {
                assert(is_kept_item(lo, hi - 1, keep, item, rest[s]));
                let i = choose|i: int| lo <= i < hi - 1 && #[trigger] keep(i) && rest[s] == item(i);
                assert(keep(hi - 1));
            }
        }
    }
}

/// Two lists that rise in rank and hold the same items are the same list.
proof fn lemma_rising_lists_equal<T>(first: Seq<T>, second: Seq<T>, rank: spec_fn(T) -> int)
    requires
        forall|s: int, t: int|
            0 <= s < t < first.len() ==> rank(#[trigger] first[s]) < rank(#[trigger] first[t]),
        forall|s: int, t: int|
            0 <= s < t < second.len() ==> rank(#[trigger] second[s]) < rank(#[trigger] second[t]),
        forall|t: int| 0 <= t < first.len() ==> second.contains(#[trigger] first[t]),
        forall|t: int| 0 <= t < second.len() ==> first.contains(#[trigger] second[t]),
    ensures
        first == second,
    decreases first.len(),
{
    if first.len() == 0 {
        if second.len() > 0 {
            assert(first.contains(second[0]));
        }
        assert(first =~= second);
    } else if second.len() == 0 {
        assert(second.contains(first[0]));
    } else {
        let a = first.len() - 1;
        let b = second.len() - 1;
        assert(second.contains(first[a]));
        let k = choose|k: int| 0 <= k < second.len() && second[k] == first[a];
        assert(first.contains(second[b]));
        let m = choose|m: int| 0 <= m < first.len() && first[m] == second[b];
        if k < b {
            assert(rank(second[k]) < rank(second[b]));
            if m < a {
                assert(rank(first[m]) < rank(first[a]));
            }
            assert(false);
        }
        assert(first[a] == second[b]);
        let head = first.drop_last();
        let other = second.drop_last();
        assert forall|t: int| 0 <= t < head.len() implies other.contains(#[trigger] head[t]) by {
            assert(second.contains(first[t]));
            let at = choose|at: int| 0 <= at < second.len() && second[at] == first[t];
            if at == b {
                assert(rank(first[t]) < rank(first[a]));
            }
            assert(other[at] == head[t]);
        }
        assert forall|t: int| 0 <= t < other.len() implies head.contains(#[trigger] other[t]) by {
            assert(first.contains(second[t]));
            let at = choose|at: int| 0 <= at < first.len() && first[at] == second[t];
            if at == a {
                assert(rank(second[t]) < rank(second[b]));
            }
            assert(head[at] == other[t]);
        }
        assert forall|s: int, t: int| 0 <= s < t < head.len() implies rank(#[trigger] head[s])
            < rank(#[trigger] head[t]) by {
            assert(rank(first[s]) < rank(first[t]));
        }
        assert forall|s: int, t: int| 0 <= s < t < other.len() implies rank(#[trigger] other[s])
            < rank(#[trigger] other[t]) by {
            assert(rank(second[s]) < rank(second[t]));
        }
        lemma_rising_lists_equal(head, other, rank);
        assert(first =~= head.push(first[a]));
        assert(second =~= other.push(second[b]));
    }
}

impl PairIndex {
    /// Whether the pair at a place has the second endpoints of `slot`.
    pub open spec fn ending_keep(self, slot: int) -> spec_fn(int) -> bool {
        |i: int| slot_of(self.pairs[i].probe_j, self.pairs[i].gallery_j) == slot
    }

    /// What the lookup by second endpoints hands out for the pair at a place.
    pub open spec fn ending_item(self) -> spec_fn(int) -> Found {
        |i: int| (i as usize, self.pairs[i].probe_k, self.pairs[i].gallery_k)
    }

    /// The pairs from place `offset` on whose second endpoints are `probe`
    /// and `gallery`, in the order of the places: each with its place and
    /// its first endpoints.
    pub open spec fn ending_in(self, offset: int, probe: Endpoint, gallery: Endpoint) -> Seq<
        Found,
    > {
        collect_run(
            offset,
            self.pairs.len() as int,
            self.ending_keep(slot_of(probe, gallery)),
            self.ending_item(),
        )
    }
}

/// The place that a lookup hands out with a pair.
pub open spec fn place_of() -> spec_fn(Found) -> int {
    |found: Found| found.0 as int
}

/// In a prepared index the lookup by second endpoints hands out the pairs
/// with these endpoints in the order of their places: the backward order
/// holds them in that order.
pub proof fn lemma_find_by_second_in_place_order(
    index: PairIndex,
    offset: int,
    probe: Endpoint,
    gallery: Endpoint,
)
    requires
        index.wf(),
        index.prepared,
        probe.wf(),
        gallery.wf(),
        0 <= offset,
    ensures
        index.find_by_second(offset, probe, gallery) == index.ending_in(offset, probe, gallery),
{
    let n = index.pairs.len() as int;
    let slot = slot_of(probe, gallery);
    let keep = index.second_keep(slot, offset);
    let item = index.second_item();
    let direct_keep = index.ending_keep(slot);
    let direct_item = index.ending_item();
    let via = index.find_by_second(offset, probe, gallery);
    let direct = index.ending_in(offset, probe, gallery);
    let rank = place_of();
    assert forall|q: int, r: int| 0 <= q < r < n && #[trigger] keep(q) && #[trigger] keep(
        r,
    ) implies rank(item(q)) < rank(item(r)) by {
        let x = index.pairs[index.backward[q] as int];
        let y = index.pairs[index.backward[r] as int];
        assert(index.backward[q] < n && index.backward[r] < n);
        assert(x.wf() && y.wf());
        assert(second_key(index.pairs)(index.backward[q]) == second_key(index.pairs)(
            index.backward[r],
        ));
        assert(index.backward[q] < index.backward[r]);
    }
    lemma_collect_rising(0, n, keep, item, rank);
    assert forall|i: int, j: int| offset <= i < j < n && #[trigger] direct_keep(i)
        && #[trigger] direct_keep(j) implies rank(direct_item(i)) < rank(direct_item(j)) by {}
    lemma_collect_rising(offset, n, direct_keep, direct_item, rank);
    lemma_collect_members(0, n, keep, item);
    lemma_collect_members(offset, n, direct_keep, direct_item);
    assert forall|t: int| 0 <= t < via.len() implies direct.contains(#[trigger] via[t]) by {
        assert(is_kept_item(0, n, keep, item, via[t]));
        let q = choose|q: int| 0 <= q < n && #[trigger] keep(q) && via[t] == item(q);
        let place = index.backward[q] as int;
        assert(index.backward[q] < n);
        assert(direct_keep(place));
        lemma_collect_contains(offset, n, direct_keep, direct_item, place);
        assert(direct_item(place) == item(q));
    }
    assert forall|t: int| 0 <= t < direct.len() implies via.contains(#[trigger] direct[t]) by {
        assert(is_kept_item(offset, n, direct_keep, direct_item, direct[t]));
        let i = choose|i: int|
            offset <= i < n && #[trigger] direct_keep(i) && direct[t] == direct_item(i);
        assert(index.backward.contains(i as u32));
        let q = choose|q: int| 0 <= q < index.backward.len() && index.backward[q] == i as u32;
        assert(keep(q));
        lemma_collect_contains(0, n, keep, item, q);
        assert(item(q) == direct_item(i));
    }
    lemma_rising_lists_equal(via, direct, rank);
}

/// Whether `range` is what the table holds for `slot`: no range where no
/// place of `slots` holds `slot`, and otherwise the range of exactly the
/// places that hold it.
pub open spec fn range_fits(slots: Seq<int>, slot: int, range: SmallOptionalRange) -> bool {
    match range.spec_as_range() {
        None => forall|i: int| 0 <= i < slots.len() ==> slots[i] != slot,
        Some((start, end)) => {
            &&& 0 <= start < end <= slots.len()
            &&& forall|i: int| 0 <= i < slots.len() ==> ((start <= i < end) <==> slots[i] == slot)
        },
    }
}

/// Whether the table holds the right range for every slot.
pub open spec fn cache_fits(slots: Seq<int>, ranges: Seq<SmallOptionalRange>) -> bool {
    &&& ranges.len() == RANGE_SLOTS
    &&& forall|slot: int|
        0 <= slot < RANGE_SLOTS ==> range_fits(slots, slot, #[trigger] ranges[slot])
}

/// Whether the table holds a range for no slot but those of `slots`.
pub open spec fn cache_within(slots: Seq<int>, ranges: Seq<SmallOptionalRange>) -> bool {
    &&& ranges.len() == RANGE_SLOTS
    &&& forall|slot: int|
        0 <= slot < RANGE_SLOTS && (#[trigger] ranges[slot]).spec_as_range().is_some()
            ==> slots.contains(slot)
}

/// Enters the range of every slot that `keys` holds into `ranges`.
fn make_range_cache(
    keys: &Vec<usize>,
    ranges: &mut Vec<SmallOptionalRange>,
    Ghost(slots): Ghost<Seq<int>>,
)
    requires
        keys.len() <= MAX_NUMBER_OF_PAIRS,
        old(ranges).len() == RANGE_SLOTS,
        slots.len() == keys.len(),
        forall|i: int|
            0 <= i < keys.len() ==> #[trigger] slots[i] == keys[i] && keys[i] < RANGE_SLOTS,
        forall|i: int, j: int| 0 <= i < j < slots.len() ==> slots[i] <= slots[j],
    ensures
        final(ranges).len() == RANGE_SLOTS,
        forall|slot: int|
            0 <= slot < RANGE_SLOTS ==> if slots.contains(slot) {
                range_fits(slots, slot, #[trigger] final(ranges)[slot])
            } else {
                final(ranges)[slot] == old(ranges)[slot]
            },
{
    let n: usize = keys.len();
    if n == 0 {
        return ;
    }
    let mut range_start: usize = 0;
    let mut i: usize = 1;
    while i < n
        invariant
            n == keys.len(),
            n <= MAX_NUMBER_OF_PAIRS,
            1 <= i <= n,
            range_start < i,
            ranges.len() == RANGE_SLOTS,
            old(ranges).len() == RANGE_SLOTS,
            slots.len() == keys.len(),
            forall|t: int|
                0 <= t < keys.len() ==> #[trigger] slots[t] == keys[t] && keys[t] < RANGE_SLOTS,
            forall|a: int, b: int| 0 <= a < b < slots.len() ==> slots[a] <= slots[b],
            forall|t: int| range_start <= t < i ==> slots[t] == slots[range_start as int],
            range_start > 0 ==> slots[range_start - 1] < slots[range_start as int],
            forall|slot: int|
                0 <= slot < RANGE_SLOTS ==> if slot < slots[range_start as int] && slots.contains(
                    slot,
                ) {
                    range_fits(slots, slot, #[trigger] ranges[slot])
                } else {
                    ranges[slot] == old(ranges)[slot]
                },
        decreases n - i,
    {
        let previous: usize = keys[range_start];
        let current: usize = keys[i];
        assert(slots[range_start as int] == previous);
        if previous != current {
            let ghost before = ranges@;
            ranges.set(previous, SmallOptionalRange::new(range_start as u32, i as u32));
            proof {
                assert(slots[i as int] == current);
                assert(slots[range_start as int] == previous);
                assert(previous < current);
                assert forall|slot: int| 0 <= slot < RANGE_SLOTS implies if slot < slots[i as int]
                    && slots.contains(slot) {
                    range_fits(slots, slot, #[trigger] ranges[slot])
                } else {
                    ranges[slot] == old(ranges)[slot]
                } by {
                    if slot == previous {
                        assert(slots.contains(slot));
                        assert forall|t: int| 0 <= t < slots.len() implies ((range_start <= t < i)
                            <==> slots[t] == slot) by {
                            if t < range_start {
                                assert(slots[t] <= slots[range_start - 1]);
                            }
                            if t >= i {
                                assert(slots[i as int] <= slots[t]);
                            }
                        }
                    } else {
                        assert(ranges[slot] == before[slot]);
                        if slot < slots[i as int] && slots.contains(slot) {
                            let t = choose|t: int| 0 <= t < slots.len() && slots[t] == slot;
                            if t >= i {
                                assert(slots[i as int] <= slots[t]);
                            }
                            if t >= range_start {
                                assert(false);
                            }
                            assert(slot < slots[range_start as int]);
                        }
                    }
                }
            }
            range_start = i;
        }
        i = i + 1;
    }
    let previous: usize = keys[range_start];
    let ghost before = ranges@;
    assert(slots[range_start as int] == previous);
    ranges.set(previous, SmallOptionalRange::new(range_start as u32, n as u32));
    proof {
        assert forall|slot: int| 0 <= slot < RANGE_SLOTS implies if slots.contains(slot) {
            range_fits(slots, slot, #[trigger] ranges[slot])
        } else {
            ranges[slot] == old(ranges)[slot]
        } by {
            if slot == previous {
                assert(slots[range_start as int] == slot);
                assert forall|t: int| 0 <= t < slots.len() implies ((range_start <= t < n)
                    <==> slots[t] == slot) by {
                    if t < range_start {
                        assert(slots[t] <= slots[range_start - 1]);
                    }
                }
            } else {
                assert(ranges[slot] == before[slot]);
                if slots.contains(slot) {
                    let t = choose|t: int| 0 <= t < slots.len() && slots[t] == slot;
                    if t >= range_start {
                        assert(false);
                    }
                    assert(slots[t] <= slots[range_start - 1]);
                    assert(slot < slots[range_start as int]);
                }
            }
        }
    }
}

/// Keeps of the range from `start` to `end` what lies at `offset` or behind.
fn left_trim_range(start: usize, end: usize, offset: usize) -> (range: (usize, usize))
    ensures
        range.1 == end,
        range.0 == if offset >= start && offset < end {
            offset
        } else if offset >= end {
            end
        } else {
            start
        },
{
    if offset >= start && offset < end {
        (offset, end)
    } else if offset >= end {
        (end, end)
    } else {
        (start, end)
    }
}

/// Sorted keys of three numbers below the number of minutiae give slots that
/// never go down.
proof fn lemma_slots_follow_keys(a: (int, int), b: (int, int), third_a: int, third_b: int)
    requires
        0 <= a.0,
        0 <= a.1 < MAX_NUMBER_OF_MINUTIAE,
        0 <= b.0,
        0 <= b.1 < MAX_NUMBER_OF_MINUTIAE,
        key_le((a.0, a.1, third_a), (b.0, b.1, third_b)),
    ensures
        a.0 * MAX_NUMBER_OF_MINUTIAE + a.1 <= b.0 * MAX_NUMBER_OF_MINUTIAE + b.1,
{
}

/// Holds the pairs of one comparison and finds those with given first or
/// second endpoints.
pub struct PairHolder {
    forward: Vec<Pair>,
    forward_ranges: Vec<SmallOptionalRange>,
    backward: Vec<u32>,
    backward_ranges: Vec<SmallOptionalRange>,
    dirty: bool,
}

impl View for PairHolder {
    type V = PairIndex;

    closed spec fn view(&self) -> PairIndex {
        PairIndex { pairs: self.forward@, backward: self.backward@, prepared: !self.dirty }
    }
}

impl PairHolder {
    /// The slot of the second endpoints of the pair at each place.
    closed spec fn raw_second_slots(&self) -> Seq<int> {
        Seq::new(
            self.forward@.len(),
            |i: int| slot_of(self.forward@[i].probe_j, self.forward@[i].gallery_j),
        )
    }

    /// The holder's pairs are well formed and not too many, and where it is
    /// prepared, both orders and both range tables are in place.
    pub closed spec fn wf(&self) -> bool {
        &&& self@.wf()
        &&& cache_within(self@.first_slots(), self.forward_ranges@)
        &&& cache_within(self.raw_second_slots(), self.backward_ranges@)
        &&& !self.dirty ==> cache_fits(self@.first_slots(), self.forward_ranges@) && cache_fits(
            self@.second_slots(),
            self.backward_ranges@,
        )
    }

    /// A well-formed holder stands for a well-formed index.
    pub proof fn lemma_wf(&self)
        requires
            self.wf(),
        ensures
            self@.wf(),
    {
    }

    /// A holder without pairs, with room for the most pairs allowed.
    pub fn new() -> (holder: PairHolder)
        ensures
            holder.wf(),
            holder@.pairs == Seq::<Pair>::empty(),
            holder@.prepared,
    {
        let holder = PairHolder {
            forward: Vec::with_capacity(MAX_NUMBER_OF_PAIRS),
            forward_ranges: vec![SmallOptionalRange::empty(); RANGE_SLOTS],
            backward: Vec::with_capacity(MAX_NUMBER_OF_PAIRS),
            backward_ranges: vec![SmallOptionalRange::empty(); RANGE_SLOTS],
            dirty: false,
        };
        assert(holder.forward@ =~= Seq::<Pair>::empty());
        holder
    }

    /// Whether the holder has no pairs.
    pub fn is_empty(&self) -> (empty: bool)
        ensures
            empty == (self@.pairs.len() == 0),
    {
        self.forward.len() == 0
    }

    /// Number of pairs.
    pub fn len(&self) -> (len: usize)
        ensures
            len == self@.pairs.len(),
    {
        self.forward.len()
    }

    /// Drops all pairs.
    pub fn clear(&mut self)
        requires
            old(self).wf(),
        ensures
            final(self).wf(),
            final(self)@.pairs == Seq::<Pair>::empty(),
            final(self)@.prepared,
    {
        self.forward.clear();
        self.backward.clear();
        let mut slot: usize = 0;
        while slot < RANGE_SLOTS
            invariant
                slot <= RANGE_SLOTS,
                self.forward_ranges.len() == RANGE_SLOTS,
                self.backward_ranges.len() == RANGE_SLOTS,
                self.forward@.len() == 0,
                self.backward@.len() == 0,
                forall|s: int|
                    0 <= s < slot ==> (#[trigger] self.forward_ranges[s]).spec_as_range().is_none(),
                forall|s: int|
                    0 <= s < slot ==>
                        (#[trigger] self.backward_ranges[s]).spec_as_range().is_none(),
            decreases RANGE_SLOTS - slot,
        {
            self.forward_ranges.set(slot, SmallOptionalRange::empty());
            self.backward_ranges.set(slot, SmallOptionalRange::empty());
            slot = slot + 1;
        }
        self.dirty = false;
        assert(self.forward@ =~= Seq::<Pair>::empty());
    }

    /// Appends a pair; the lookups wait for the next `prepare`.
    pub fn push(&mut self, pair: Pair)
        requires
            old(self).wf(),
            old(self)@.pairs.len() < MAX_NUMBER_OF_PAIRS,
            pair.wf(),
        ensures
            final(self).wf(),
            final(self)@.pairs == old(self)@.pairs.push(pair),
            !final(self)@.prepared,
    {
        let ghost before = *self;
        self.forward.push(pair);
        self.dirty = true;
        proof {
            assert forall|slot: int|
                0 <= slot < RANGE_SLOTS && (#[trigger] self.forward_ranges@[slot]).spec_as_range().is_some()
                implies self@.first_slots().contains(slot) by {
                let i = choose|i: int|
                    0 <= i < before@.first_slots().len() && before@.first_slots()[i] == slot;
                assert(self@.first_slots()[i] == slot);
            }
            assert forall|slot: int|
                0 <= slot < RANGE_SLOTS && (#[trigger] self.backward_ranges@[slot]).spec_as_range().is_some()
                implies self.raw_second_slots().contains(slot) by {
                let i = choose|i: int|
                    0 <= i < before.raw_second_slots().len() && before.raw_second_slots()[i]
                        == slot;
                assert(self.raw_second_slots()[i] == slot);
            }
        }
    }

    /// Sorts the pairs by their first endpoints and the probe's second one,
    /// pairs of equal keys staying in their order, and brings both lookups up
    /// to date. A holder that is prepared already stays as it is.
    pub fn prepare(&mut self)
        requires
            old(self).wf(),
        ensures
            final(self).wf(),
            final(self)@.prepared,
            old(self)@.prepared ==> final(self)@ == old(self)@,
            exists|order: Seq<int>|
                is_stable_sort(final(self)@.pairs, old(self)@.pairs, order, pair_key()),
    {
        if !self.dirty {
            proof {
                let same = Seq::new(self@.pairs.len(), |i: int| i);
                assert forall|j: int| 0 <= j < self@.pairs.len() implies #[trigger] same.contains(
                    j,
                ) by {
                    assert(same[j] == j);
                }
                assert(is_stable_sort(self@.pairs, self@.pairs, same, pair_key()));
            }
            return ;
        }
        let ghost before = *self;
        sort_pairs(&mut self.forward);
        let ghost order = choose|order: Seq<int>|
            is_stable_sort(self.forward@, before.forward@, order, pair_key());
        let n: usize = self.forward.len();
        proof {
            assert forall|i: int| 0 <= i < self.forward@.len() implies (
            #[trigger] self.forward@[i]).wf() by {
                assert(self.forward@[i] == before.forward@[order[i]]);
            }
            assert forall|slot: int|
                0 <= slot < RANGE_SLOTS && (
                #[trigger] self.forward_ranges@[slot]).spec_as_range().is_some()
                implies self@.first_slots().contains(slot) by {
                let j = choose|j: int|
                    0 <= j < before@.first_slots().len() && before@.first_slots()[j] == slot;
                assert(order.contains(j));
                let i = choose|i: int| 0 <= i < order.len() && order[i] == j;
                assert(self.forward@[i] == before.forward@[order[i]]);
                assert(self@.first_slots()[i] == slot);
            }
            assert forall|slot: int|
                0 <= slot < RANGE_SLOTS && (
                #[trigger] self.backward_ranges@[slot]).spec_as_range().is_some()
                implies self.raw_second_slots().contains(slot) by {
                let j = choose|j: int|
                    0 <= j < before.raw_second_slots().len() && before.raw_second_slots()[j]
                        == slot;
                assert(order.contains(j));
                let i = choose|i: int| 0 <= i < order.len() && order[i] == j;
                assert(self.forward@[i] == before.forward@[order[i]]);
                assert(self.raw_second_slots()[i] == slot);
            }
        }
        self.backward.clear();
        let ghost sorted = *self;
        let mut index: usize = 0;
        while index < n
            invariant
                n == self.forward@.len(),
                n <= MAX_NUMBER_OF_PAIRS,
                index <= n,
                self.backward@.len() == index,
                forall|i: int| 0 <= i < index ==> #[trigger] self.backward@[i] == i,
                self.forward == sorted.forward,
                self.forward_ranges == sorted.forward_ranges,
                self.backward_ranges == sorted.backward_ranges,
                self.dirty == sorted.dirty,
            decreases n - index,
        {
            self.backward.push(index as u32);
            index = index + 1;
        }
        let ghost places = self.backward@;
        sort_places(&self.forward, &mut self.backward);
        let ghost place_order = choose|place_order: Seq<int>|
            is_stable_sort(self.backward@, places, place_order, second_key(self.forward@));
        proof {
            assert forall|q: int| 0 <= q < self.backward@.len() implies #[trigger] self.backward@[q]
                == place_order[q] by {
                assert(self.backward@[q] == places[place_order[q]]);
            }
            assert forall|i: int| 0 <= i < n implies #[trigger] self.backward@.contains(
                i as u32,
            ) by {
                assert(place_order.contains(i));
                let q = choose|q: int| 0 <= q < place_order.len() && place_order[q] == i;
                assert(self.backward@[q] == i as u32);
            }
            assert(self@.backward_ordered());
        }
        let mut keys: Vec<usize> = Vec::new();
        let mut i: usize = 0;
        while i < n
            invariant
                n == self.forward@.len(),
                i <= n,
                keys@.len() == i,
                forall|t: int| 0 <= t < self.forward@.len() ==> (#[trigger] self.forward@[t]).wf(),
                forall|t: int|
                    0 <= t < i ==> #[trigger] keys@[t] == slot_of(
                        self.forward@[t].probe_k,
                        self.forward@[t].gallery_k,
                    ),
            decreases n - i,
        {
            let pair: &Pair = &self.forward[i];
            assert(pair.wf());
            keys.push(pair.probe_k.as_usize() * MAX_NUMBER_OF_MINUTIAE + pair.gallery_k.as_usize());
            i = i + 1;
        }
        proof {
            let slots = self@.first_slots();
            assert forall|a: int, b: int| 0 <= a < b < slots.len() implies slots[a] <= slots[b] by {
                let x = self.forward@[a];
                let y = self.forward@[b];
                assert(x.wf() && y.wf());
                assert(key_le(pair_key()(x), pair_key()(y)));
                lemma_slots_follow_keys(
                    (x.probe_k.0 as int, x.gallery_k.0 as int),
                    (y.probe_k.0 as int, y.gallery_k.0 as int),
                    x.probe_j.0 as int,
                    y.probe_j.0 as int,
                );
            }
            assert forall|t: int| 0 <= t < keys.len() implies #[trigger] slots[t] == keys[t]
                && keys[t] < RANGE_SLOTS by {
                assert(self.forward@[t].wf());
            }
        }
        let ghost first_slots = self@.first_slots();
        make_range_cache(&keys, &mut self.forward_ranges, Ghost(first_slots));
        let mut back_keys: Vec<usize> = Vec::new();
        let mut q: usize = 0;
        while q < n
            invariant
                n == self.forward@.len(),
                n == self.backward@.len(),
                q <= n,
                back_keys@.len() == q,
                forall|t: int| 0 <= t < self.forward@.len() ==> (#[trigger] self.forward@[t]).wf(),
                forall|t: int| 0 <= t < self.backward@.len() ==> #[trigger] self.backward@[t] < n,
                forall|t: int|
                    0 <= t < q ==> #[trigger] back_keys@[t] == slot_of(
                        self.forward@[self.backward@[t] as int].probe_j,
                        self.forward@[self.backward@[t] as int].gallery_j,
                    ),
            decreases n - q,
        {
            let place: usize = self.backward[q] as usize;
            let pair: &Pair = &self.forward[place];
            assert(pair.wf());
            back_keys.push(
                pair.probe_j.as_usize() * MAX_NUMBER_OF_MINUTIAE + pair.gallery_j.as_usize(),
            );
            q = q + 1;
        }
        proof {
            let slots = self@.second_slots();
            assert forall|a: int, b: int| 0 <= a < b < slots.len() implies slots[a] <= slots[b] by {
                let x = self.forward@[self.backward@[a] as int];
                let y = self.forward@[self.backward@[b] as int];
                assert(x.wf() && y.wf());
                assert(key_le(
                    second_key(self.forward@)(self.backward@[a]),
                    second_key(self.forward@)(self.backward@[b]),
                ));
                lemma_slots_follow_keys(
                    (x.probe_j.0 as int, x.gallery_j.0 as int),
                    (y.probe_j.0 as int, y.gallery_j.0 as int),
                    0,
                    0,
                );
            }
            assert forall|t: int| 0 <= t < back_keys.len() implies #[trigger] slots[t]
                == back_keys[t] && back_keys[t] < RANGE_SLOTS by {
                assert(self.forward@[self.backward@[t] as int].wf());
            }
        }
        let ghost stale = self.backward_ranges@;
        let ghost second_slots = self@.second_slots();
        make_range_cache(&back_keys, &mut self.backward_ranges, Ghost(second_slots));
        self.dirty = false;
        proof {
            let slots = self@.second_slots();
            assert forall|slot: int| 0 <= slot < RANGE_SLOTS implies range_fits(
                slots,
                slot,
                #[trigger] self.backward_ranges@[slot],
            ) by {
                if !slots.contains(slot) {
                    assert(self.backward_ranges@[slot] == stale[slot]);
                    if stale[slot].spec_as_range().is_some() {
                        let i = choose|i: int|
                            0 <= i < self.raw_second_slots().len() && self.raw_second_slots()[i]
                                == slot;
                        assert(self.backward@.contains(i as u32));
                        let r = choose|r: int|
                            0 <= r < self.backward@.len() && self.backward@[r] == i as u32;
                        assert(slots[r] == slot);
                        assert(false);
                    }
                    assert forall|t: int| 0 <= t < slots.len() implies slots[t] != slot by {
                        if slots[t] == slot {
                            assert(slots.contains(slot));
                        }
                    }
                }
            }
            assert(cache_fits(self@.second_slots(), self.backward_ranges@));
            let first = self@.first_slots();
            assert forall|slot: int| 0 <= slot < RANGE_SLOTS implies range_fits(
                first,
                slot,
                #[trigger] self.forward_ranges@[slot],
            ) by {
                if !first.contains(slot) {
                    assert forall|t: int| 0 <= t < first.len() implies first[t] != slot by {
                        if first[t] == slot {
                            assert(first.contains(slot));
                        }
                    }
                }
            }
            assert(cache_fits(self@.first_slots(), self.forward_ranges@));
            assert forall|slot: int|
                0 <= slot < RANGE_SLOTS && (
                #[trigger] self.backward_ranges@[slot]).spec_as_range().is_some()
                implies self.raw_second_slots().contains(slot) by {
                let range = self.backward_ranges@[slot].spec_as_range().unwrap();
                assert(slots[range.0] == slot);
                assert(self.raw_second_slots()[self.backward@[range.0] as int] == slot);
            }
        }
    }

    /// The pairs in their order.
    pub fn pairs(&self) -> (pairs: &[Pair])
        ensures
            pairs@ == self@.pairs,
    {
        self.forward.as_slice()
    }

    /// Finds the pairs from place `offset` on whose first endpoints are the
    /// given ones. They stand side by side: the places found are
    /// consecutive. Also gives the end of the whole range of such pairs.
    pub fn find_pairs_by_first_endpoint(
        &self,
        offset: usize,
        probe_endpoint: Endpoint,
        gallery_endpoint: Endpoint,
    ) -> (found: (Vec<Found>, usize))
        requires
            self.wf(),
            self@.prepared,
            probe_endpoint.wf(),
            gallery_endpoint.wf(),
        ensures
            found.0@ == self@.find_by_first(offset as int, probe_endpoint, gallery_endpoint),
            found.1 == self@.end_by_first(offset as int, probe_endpoint, gallery_endpoint),
            forall|t: int|
                0 <= t < found.0@.len() ==> {
                    &&& (#[trigger] found.0@[t]).0 == found.1 - found.0@.len() + t
                    &&& found.0@[t].0 >= offset
                    &&& found.0@[t].0 < self@.pairs.len()
                    &&& found.0@[t].1 == self@.pairs[found.0@[t].0 as int].probe_j
                    &&& found.0@[t].2 == self@.pairs[found.0@[t].0 as int].gallery_j
                    &&& self@.pairs[found.0@[t].0 as int].probe_k == probe_endpoint
                    &&& self@.pairs[found.0@[t].0 as int].gallery_k == gallery_endpoint
                },
    {
        let slot: usize = probe_endpoint.as_usize() * MAX_NUMBER_OF_MINUTIAE
            + gallery_endpoint.as_usize();
        let ghost keep = self@.first_keep(slot as int);
        let ghost item = self@.first_item();
        let ghost slots = self@.first_slots();
        let n: usize = self.forward.len();
        let cached: Option<(usize, usize)> = self.forward_ranges[slot].as_range();
        assert(range_fits(slots, slot as int, self.forward_ranges@[slot as int]));
        let (start, end): (usize, usize) = match cached {
            Some(range) => range,
            None => (offset, offset),
        };
        let (first, end): (usize, usize) = left_trim_range(start, end, offset);
        let mut items: Vec<Found> = Vec::new();
        let mut i: usize = first;
        proof {
            assert(collect_run(first as int, first as int, keep, item) =~= Seq::<Found>::empty());
            if cached.is_some() {
                assert forall|t: int| first <= t < end implies #[trigger] keep(t) by {
                    assert(slots[t] == slot);
                }
            }
        }
        while i < end
            invariant
                first <= i,
                cached.is_some() ==> i <= end <= n,
                cached.is_none() ==> i == end,
                n == self.forward@.len(),
                n == self@.pairs.len(),
                keep == self@.first_keep(slot as int),
                item == self@.first_item(),
                self@.pairs == self.forward@,
                forall|t: int| first <= t < end ==> #[trigger] keep(t),
                items@ == collect_run(first as int, i as int, keep, item),
                items@.len() == i - first,
                forall|t: int|
                    0 <= t < items@.len() ==> {
                        &&& (#[trigger] items@[t]).0 == first + t
                        &&& items@[t].1 == self@.pairs[first + t].probe_j
                        &&& items@[t].2 == self@.pairs[first + t].gallery_j
                    },
            decreases end - i,
        {
            let pair: &Pair = &self.forward[i];
            assert(keep(i as int));
            items.push((i, pair.probe_j, pair.gallery_j));
            i = i + 1;
        }
        proof {
            let total = n as int;
            let lo = offset as int;
            match cached {
                None => {
                    assert forall|t: int| lo <= t < total implies !#[trigger] keep(t) by {
                        assert(slots[t] != slot);
                    }
                    lemma_collect_none(lo, total, keep, item);
                    lemma_last_end(slots, slot as int, 0);
                },
                Some((a, b)) => {
                    assert(slots[b - 1] == slot);
                    lemma_last_end(slots, slot as int, b as int);
                    assert forall|t: int| b <= t < total implies !#[trigger] keep(t) by {
                        assert(slots[t] != slot);
                    }
                    if lo >= b {
                        if lo < total {
                            assert forall|t: int| lo <= t < total implies !#[trigger] keep(t) by {
                                assert(slots[t] != slot);
                            }
                        }
                        lemma_collect_none(lo, total, keep, item);
                    } else {
                        assert forall|t: int| lo <= t < first implies !#[trigger] keep(t) by {
                            assert(slots[t] != slot);
                        }
                        lemma_collect_none(lo, first as int, keep, item);
                        lemma_collect_none(b as int, total, keep, item);
                        lemma_collect_split(lo, first as int, total, keep, item);
                        lemma_collect_split(first as int, b as int, total, keep, item);
                        assert(Seq::<Found>::empty() + (items@ + Seq::<Found>::empty())
                            =~= items@);
                    }
                },
            }
            assert forall|t: int| 0 <= t < items@.len() implies {
                &&& self@.pairs[(#[trigger] items@[t]).0 as int].probe_k == probe_endpoint
                &&& self@.pairs[items@[t].0 as int].gallery_k == gallery_endpoint
            } by {
                assert(keep(first + t));
                assert(self@.pairs[first + t].wf());
            }
        }
        (items, end)
    }

    /// Finds the pairs at places from `offset` on whose second endpoints are
    /// the given ones, in the backward order. Also gives the end of their
    /// range within the backward order.
    pub fn find_pairs_by_second_endpoint(
        &self,
        offset: usize,
        probe_endpoint: Endpoint,
        gallery_endpoint: Endpoint,
    ) -> (found: (Vec<Found>, usize))
        requires
            self.wf(),
            self@.prepared,
            probe_endpoint.wf(),
            gallery_endpoint.wf(),
        ensures
            found.0@ == self@.find_by_second(offset as int, probe_endpoint, gallery_endpoint),
            found.0@ == self@.ending_in(offset as int, probe_endpoint, gallery_endpoint),
            found.1 == self@.end_by_second(offset as int, probe_endpoint, gallery_endpoint),
            forall|t: int|
                0 <= t < found.0@.len() ==> {
                    &&& (#[trigger] found.0@[t]).0 >= offset
                    &&& found.0@[t].0 < self@.pairs.len()
                    &&& found.0@[t].1 == self@.pairs[found.0@[t].0 as int].probe_k
                    &&& found.0@[t].2 == self@.pairs[found.0@[t].0 as int].gallery_k
                    &&& self@.pairs[found.0@[t].0 as int].probe_j == probe_endpoint
                    &&& self@.pairs[found.0@[t].0 as int].gallery_j == gallery_endpoint
                },
    {
        proof {
            lemma_find_by_second_in_place_order(
                self@,
                offset as int,
                probe_endpoint,
                gallery_endpoint,
            );
        }
        let slot: usize = probe_endpoint.as_usize() * MAX_NUMBER_OF_MINUTIAE
            + gallery_endpoint.as_usize();
        let ghost keep = self@.second_keep(slot as int, offset as int);
        let ghost item = self@.second_item();
        let ghost slots = self@.second_slots();
        let n: usize = self.backward.len();
        let cached: Option<(usize, usize)> = self.backward_ranges[slot].as_range();
        assert(range_fits(slots, slot as int, self.backward_ranges@[slot as int]));
        let (start, end): (usize, usize) = match cached {
            Some(range) => range,
            None => (offset, offset),
        };
        let mut q: usize = start;
        while q < end && (self.backward[q] as usize) < offset
            invariant
                start <= q,
                cached.is_some() ==> q <= end <= n,
                cached.is_none() ==> q == end,
                n == self.backward@.len(),
                self@.backward == self.backward@,
                forall|t: int| start <= t < q ==> #[trigger] self.backward@[t] < offset,
            decreases end - q,
        {
            q = q + 1;
        }
        let first: usize = q;
        let mut items: Vec<Found> = Vec::new();
        proof {
            assert(collect_run(first as int, first as int, keep, item) =~= Seq::<Found>::empty());
            if cached.is_some() {
                assert forall|t: int| first <= t < end implies #[trigger] keep(t) by {
                    assert(slots[t] == slot);
                    if t > first {
                        assert(slots[first as int] == slot);
                        let x = self@.pairs[self.backward@[first as int] as int];
                        let y = self@.pairs[self.backward@[t] as int];
                        assert(x.wf() && y.wf());
                        assert(second_key(self@.pairs)(self.backward@[first as int]) == second_key(
                            self@.pairs,
                        )(self.backward@[t]));
                    }
                }
            }
        }
        while q < end
            invariant
                first <= q,
                cached.is_some() ==> q <= end <= n,
                cached.is_none() ==> q == end,
                n == self.backward@.len(),
                n == self.forward@.len(),
                keep == self@.second_keep(slot as int, offset as int),
                item == self@.second_item(),
                self@.pairs == self.forward@,
                self@.backward == self.backward@,
                forall|t: int| 0 <= t < n ==> #[trigger] self.backward@[t] < n,
                forall|t: int| first <= t < end ==> #[trigger] keep(t),
                items@ == collect_run(first as int, q as int, keep, item),
                forall|t: int| 0 <= t < items@.len() ==> {
                    &&& (#[trigger] items@[t]).0 >= offset
                    &&& items@[t].0 < n
                    &&& items@[t].1 == self@.pairs[items@[t].0 as int].probe_k
                    &&& items@[t].2 == self@.pairs[items@[t].0 as int].gallery_k
                    &&& slot_of(
                        self@.pairs[items@[t].0 as int].probe_j,
                        self@.pairs[items@[t].0 as int].gallery_j,
                    ) == slot
                },
            decreases end - q,
        {
            let place: usize = self.backward[q] as usize;
            let pair: &Pair = &self.forward[place];
            assert(keep(q as int));
            items.push((place, pair.probe_k, pair.gallery_k));
            q = q + 1;
        }
        proof {
            let total = n as int;
            match cached {
                None => {
                    assert forall|t: int| 0 <= t < total implies !#[trigger] keep(t) by {
                        assert(slots[t] != slot);
                    }
                    lemma_collect_none(0, total, keep, item);
                    lemma_last_end(slots, slot as int, 0);
                },
                Some((a, b)) => {
                    assert(slots[b - 1] == slot);
                    lemma_last_end(slots, slot as int, b as int);
                    assert forall|t: int| 0 <= t < first implies !#[trigger] keep(t) by {
                        if t < a {
                            assert(slots[t] != slot);
                        }
                    }
                    assert forall|t: int| b <= t < total implies !#[trigger] keep(t) by {
                        assert(slots[t] != slot);
                    }
                    lemma_collect_none(0, first as int, keep, item);
                    lemma_collect_none(b as int, total, keep, item);
                    lemma_collect_split(0, first as int, total, keep, item);
                    lemma_collect_split(first as int, b as int, total, keep, item);
                    assert(Seq::<Found>::empty() + (items@ + Seq::<Found>::empty()) =~= items@);
                },
            }
            assert forall|t: int| 0 <= t < items@.len() implies {
                &&& self@.pairs[(#[trigger] items@[t]).0 as int].probe_j == probe_endpoint
                &&& self@.pairs[items@[t].0 as int].gallery_j == gallery_endpoint
            } by {
                assert(self@.pairs[items@[t].0 as int].wf());
            }
        }
        (items, end)
    }

    /// The pair at the place `index`.
    pub fn get(&self, index: usize) -> (pair: &Pair)
        requires
            index < self@.pairs.len(),
        ensures
            *pair == self@.pairs[index as int],
    {
        &self.forward[index]
    }
}

} // verus!
