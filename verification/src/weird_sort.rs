//! The order of values from the greatest to the smallest, as the legacy
//! quicksort leaves it: which of two equal values comes first is decided by
//! the way this sort picks its pivots and swaps.

use vstd::prelude::*;

verus! {

/// A value with the place that it came from.
#[derive(Clone, Copy, Debug)]
pub struct Cell {
    pub index: usize,
    pub value: i32,
}

/// The pivot for the cells from `left` to `right`: the place of the median
/// of the first, the middle and the last value, ties decided by the order
/// of the comparisons.
pub open spec fn pivot_choice(cells: Seq<Cell>, left: int, right: int) -> int {
    let midpoint = left + (right - left) / 2;
    let ileft = cells[left].value;
    let imidpoint = cells[midpoint].value;
    let iright = cells[right].value;
    if ileft <= imidpoint {
        if imidpoint <= iright {
            midpoint
        } else if iright > ileft {
            right
        } else {
            left
        }
    } else if ileft < iright {
        left
    } else if iright < imidpoint {
        midpoint
    } else {
        right
    }
}

/// Picks the pivot for the cells from `left` to `right`.
pub fn select_pivot(v: &Vec<Cell>, left: usize, right: usize) -> (pivot: usize)
    requires
        left <= right < v@.len(),
    ensures
        pivot == pivot_choice(v@, left as int, right as int),
        left <= pivot <= right,
{
    let midpoint: usize = left + (right - left) / 2;
    let ileft: i32 = v[left].value;
    let imidpoint: i32 = v[midpoint].value;
    let iright: i32 = v[right].value;
    if ileft <= imidpoint {
        if imidpoint <= iright {
            midpoint
        } else if iright > ileft {
            right
        } else {
            left
        }
    } else if ileft < iright {
        left
    } else if iright < imidpoint {
        midpoint
    } else {
        right
    }
}

/// The cells with those at the places `i` and `j` exchanged.
pub open spec fn swapped(cells: Seq<Cell>, i: int, j: int) -> Seq<Cell> {
    cells.update(i, cells[j]).update(j, cells[i])
}

/// The cells and the place of the pivot after the cells from `left` to
/// `right` were parted around the pivot.
///
/// While cells are left in front of the pivot, the first of them is looked
/// at: a smaller one changes places with the pivot, another is passed.
/// After that the last cell behind the pivot is looked at: a greater one
/// changes places with the pivot and is passed, another is dropped from the
/// range.
pub open spec fn partition_model(cells: Seq<Cell>, pivot: int, left: int, right: int) -> (
    Seq<Cell>,
    int,
)
    decreases right - left, pivot - left,
    when 0 <= left <= pivot <= right < cells.len()
{
    if left < pivot {
        if cells[left].value < cells[pivot].value {
            partition_model(swapped(cells, left, pivot), left, left, right)
        } else {
            partition_model(cells, pivot, left + 1, right)
        }
    } else if right > pivot {
        if cells[right].value > cells[pivot].value {
            partition_model(swapped(cells, right, pivot), right, left + 1, right)
        } else {
            partition_model(cells, pivot, left, right - 1)
        }
    } else {
        (cells, pivot)
    }
}

/// Whether `before` holds `cell` at a place from `first` to `last`.
pub open spec fn occurs_within(before: Seq<Cell>, first: int, last: int, cell: Cell) -> bool {
    exists|j: int| first <= j <= last && 0 <= j < before.len() && #[trigger] before[j] == cell
}

/// Whether `after` holds between `first` and `last` only cells that `before`
/// holds there, and elsewhere what `before` holds.
pub open spec fn rearranged_within(before: Seq<Cell>, after: Seq<Cell>, first: int, last: int) -> bool {
    &&& after.len() == before.len()
    &&& forall|i: int|
        0 <= i < before.len() && !(first <= i <= last) ==> #[trigger] after[i] == before[i]
    &&& forall|i: int|
        first <= i <= last && 0 <= i < after.len() ==> occurs_within(
            before,
            first,
            last,
            #[trigger] after[i],
        )
}

/// Cells that stay as they are are rearranged within every range.
proof fn lemma_rearranged_same(cells: Seq<Cell>, first: int, last: int)
    ensures
        rearranged_within(cells, cells, first, last),
{
}

/// Rearranging within a range twice is rearranging within it.
proof fn lemma_rearranged_chain(
    a: Seq<Cell>,
    b: Seq<Cell>,
    c: Seq<Cell>,
    first: int,
    last: int,
)
    requires
        rearranged_within(a, b, first, last),
        rearranged_within(b, c, first, last),
    ensures
        rearranged_within(a, c, first, last),
{
    assert forall|i: int| first <= i <= last && 0 <= i < c.len() implies occurs_within(
        a,
        first,
        last,
        #[trigger] c[i],
    ) by {
        assert(occurs_within(b, first, last, c[i]));
        let m = choose|m: int| first <= m <= last && 0 <= m < b.len() && #[trigger] b[m] == c[i];
        assert(occurs_within(a, first, last, b[m]));
    }
}

/// What is rearranged within a range is rearranged within every range around
/// it.
proof fn lemma_rearranged_wider(
    a: Seq<Cell>,
    b: Seq<Cell>,
    first: int,
    last: int,
    wider_first: int,
    wider_last: int,
)
    requires
        rearranged_within(a, b, first, last),
        wider_first <= first,
        last <= wider_last,
    ensures
        rearranged_within(a, b, wider_first, wider_last),
{
    assert forall|i: int| wider_first <= i <= wider_last && 0 <= i < b.len() implies occurs_within(
        a,
        wider_first,
        wider_last,
        #[trigger] b[i],
    ) by {
        if first <= i <= last {
            assert(occurs_within(a, first, last, b[i]));
            let j = choose|j: int| first <= j <= last && 0 <= j < a.len() && #[trigger] a[j] == b[i];
            assert(wider_first <= j <= wider_last && a[j] == b[i]);
        } else {
            assert(a[i] == b[i]);
        }
    }
}

/// Exchanging two cells of a range rearranges the cells within it.
proof fn lemma_swapped_rearranged(cells: Seq<Cell>, i: int, j: int, first: int, last: int)
    requires
        0 <= first <= i <= last < cells.len(),
        first <= j <= last,
    ensures
        rearranged_within(cells, swapped(cells, i, j), first, last),
{
    let after = swapped(cells, i, j);
    assert forall|k: int| first <= k <= last && 0 <= k < after.len() implies occurs_within(
        cells,
        first,
        last,
        #[trigger] after[k],
    ) by {
        if k == j {
            assert(cells[i] == after[k]);
        } else if k == i {
            assert(cells[j] == after[k]);
        } else {
            assert(cells[k] == after[k]);
        }
    }
}

/// Parting leaves the pivot within the range, with no smaller value before
/// it and no greater value behind it there, and rearranges the cells of the
/// range only. This holds of the whole range from `first` to `last` when
/// the cells before `left` and behind `right` were looked at already.
pub proof fn lemma_partition_model(
    cells: Seq<Cell>,
    pivot: int,
    left: int,
    right: int,
    first: int,
    last: int,
)
    requires
        0 <= first <= left <= pivot <= right <= last < cells.len(),
        forall|i: int| first <= i < left ==> (#[trigger] cells[i]).value >= cells[pivot].value,
        forall|i: int| right < i <= last ==> (#[trigger] cells[i]).value <= cells[pivot].value,
    ensures
        ({
            let (after, place) = partition_model(cells, pivot, left, right);
            &&& left <= place <= right
            &&& rearranged_within(cells, after, first, last)
            &&& forall|i: int|
                first <= i < place ==> (#[trigger] after[i]).value >= after[place].value
            &&& forall|i: int|
                place < i <= last ==> (#[trigger] after[i]).value <= after[place].value
        }),
    decreases right - left, pivot - left,
{
    if left < pivot {
        if cells[left].value < cells[pivot].value {
            let moved = swapped(cells, left, pivot);
            lemma_swapped_rearranged(cells, left, pivot, first, last);
            assert forall|i: int| first <= i < left implies (#[trigger] moved[i]).value
                >= moved[left].value by {
                assert(cells[i].value >= cells[pivot].value);
            }
            assert forall|i: int| right < i <= last implies (#[trigger] moved[i]).value
                <= moved[left].value by {
                assert(cells[i].value <= cells[pivot].value);
            }
            lemma_partition_model(moved, left, left, right, first, last);
            lemma_rearranged_chain(
                cells,
                moved,
                partition_model(moved, left, left, right).0,
                first,
                last,
            );
        } else {
            lemma_partition_model(cells, pivot, left + 1, right, first, last);
        }
    } else if right > pivot {
        if cells[right].value > cells[pivot].value {
            let moved = swapped(cells, right, pivot);
            lemma_swapped_rearranged(cells, right, pivot, first, last);
            assert forall|i: int| first <= i < left + 1 implies (#[trigger] moved[i]).value
                >= moved[right].value by {
                if i < left {
                    assert(cells[i].value >= cells[pivot].value);
                }
            }
            assert forall|i: int| right < i <= last implies (#[trigger] moved[i]).value
                <= moved[right].value by {
                assert(cells[i].value <= cells[pivot].value);
            }
            lemma_partition_model(moved, right, left + 1, right, first, last);
            lemma_rearranged_chain(
                cells,
                moved,
                partition_model(moved, right, left + 1, right).0,
                first,
                last,
            );
        } else {
            lemma_partition_model(cells, pivot, left, right - 1, first, last);
        }
    } else {
        lemma_rearranged_same(cells, first, last);
    }
}

/// The two ranges that parting leaves: their ends and lengths, first those
/// of the range before the pivot, which is taken to end at place zero where
/// the pivot stands there.
pub open spec fn parted_ranges(place: int, left: int, right: int) -> (int, int, int, int, int, int) {
    let left_end = if place >= 1 {
        place - 1
    } else {
        0
    };
    (left, left_end, left_end + 1 - left, place + 1, right, right + 1 - (place + 1))
}

/// Parts the cells from `left` to `right` around the pivot.
pub fn partition_dec(cells: &mut Vec<Cell>, pivot: usize, left: usize, right: usize) -> (ranges: (
    usize,
    usize,
    usize,
    usize,
    usize,
    usize,
))
    requires
        left <= pivot <= right < old(cells)@.len(),
    ensures
        final(cells)@ == partition_model(old(cells)@, pivot as int, left as int, right as int).0,
        parted_ranges(
            partition_model(old(cells)@, pivot as int, left as int, right as int).1,
            left as int,
            right as int,
        ) == (
            ranges.0 as int,
            ranges.1 as int,
            ranges.2 as int,
            ranges.3 as int,
            ranges.4 as int,
            ranges.5 as int,
        ),
{
    let left_begin: usize = left;
    let right_end: usize = right;
    let total: usize = cells.len();
    let ghost target = partition_model(cells@, pivot as int, left as int, right as int);
    let mut place: usize = pivot;
    let mut first: usize = left;
    let mut last: usize = right;
    proof {
        lemma_partition_model(
            cells@,
            pivot as int,
            left as int,
            right as int,
            left as int,
            right as int,
        );
    }
    loop
        invariant
            left_begin == left,
            right_end == right,
            left_begin <= first <= place <= last <= right_end < total,
            total == cells@.len(),
            cells@.len() == old(cells)@.len(),
            target == partition_model(old(cells)@, pivot as int, left as int, right as int),
            target == partition_model(cells@, place as int, first as int, last as int),
        decreases last - first, place - first,
    {
        if first < place {
            if cells[first].value < cells[place].value {
                let held: Cell = cells[first];
                let other: Cell = cells[place];
                cells.set(first, other);
                cells.set(place, held);
                place = first;
            } else {
                first = first + 1;
            }
        } else if last > place {
            if cells[last].value > cells[place].value {
                let held: Cell = cells[last];
                let other: Cell = cells[place];
                cells.set(last, other);
                cells.set(place, held);
                place = last;
                first = first + 1;
            } else {
                last = last - 1;
            }
        } else {
            let left_end: usize = if place >= 1 {
                place - 1
            } else {
                0
            };
            let right_begin: usize = place + 1;
            let left_len: usize = left_end + 1 - left_begin;
            let right_len: usize = right_end + 1 - right_begin;
            return (left_begin, left_end, left_len, right_begin, right_end, right_len);
        }
    }
}

/// How much sorting a range stands for.
pub open spec fn range_weight(range: (int, int)) -> int {
    if range.1 <= range.0 {
        1
    } else {
        2 * (range.1 - range.0 + 1)
    }
}

/// How much sorting the ranges still to sort stand for.
pub open spec fn stack_weight(stack: Seq<(int, int)>) -> int
    decreases stack.len(),
{
    if stack.len() == 0 {
        0
    } else {
        stack_weight(stack.drop_last()) + range_weight(stack.last())
    }
}

/// Whether every range lies within `count` cells.
pub open spec fn ranges_within(stack: Seq<(int, int)>, count: int) -> bool {
    forall|k: int|
        0 <= k < stack.len() ==> 0 <= (#[trigger] stack[k]).0 <= count && 0 <= stack[k].1 < count
}

/// The ranges still to sort after the range from `left` to `right` was
/// parted at `place`: the longer of its two parts is put below the shorter.
pub open spec fn split_stack(rest: Seq<(int, int)>, place: int, left: int, right: int) -> Seq<
    (int, int),
> {
    let ranges = parted_ranges(place, left, right);
    if ranges.2 > ranges.5 {
        rest.push((ranges.0, ranges.1)).push((ranges.3, ranges.4))
    } else {
        rest.push((ranges.3, ranges.4)).push((ranges.0, ranges.1))
    }
}

/// Ranges never stand for less than no sorting.
pub proof fn lemma_stack_weight_nonnegative(stack: Seq<(int, int)>)
    ensures
        stack_weight(stack) >= 0,
    decreases stack.len(),
{
    if stack.len() > 0 {
        lemma_stack_weight_nonnegative(stack.drop_last());
    }
}

/// Parting a range leaves less to sort.
pub proof fn lemma_split_stack(rest: Seq<(int, int)>, place: int, left: int, right: int, count: int)
    requires
        0 <= left <= place <= right < count,
        left < right,
        ranges_within(rest, count),
    ensures
        stack_weight(split_stack(rest, place, left, right)) < stack_weight(
            rest.push((left, right)),
        ),
        ranges_within(split_stack(rest, place, left, right), count),
        stack_weight(rest.push((left, right))) == stack_weight(rest) + range_weight((left, right)),
{
    let ranges = parted_ranges(place, left, right);
    let before = (ranges.0, ranges.1);
    let behind = (ranges.3, ranges.4);
    let whole = rest.push((left, right));
    assert(whole.drop_last() =~= rest);
    let next = split_stack(rest, place, left, right);
    assert(whole.last() == (left, right));
    assert(stack_weight(whole) == stack_weight(rest) + range_weight((left, right)));
    if ranges.2 > ranges.5 {
        assert(next.drop_last() =~= rest.push(before));
        assert(rest.push(before).drop_last() =~= rest);
        assert(next.last() == behind);
        assert(rest.push(before).last() == before);
        assert(stack_weight(rest.push(before)) == stack_weight(rest) + range_weight(before));
        assert(stack_weight(next) == stack_weight(rest.push(before)) + range_weight(behind));
    } else {
        assert(next.drop_last() =~= rest.push(behind));
        assert(rest.push(behind).drop_last() =~= rest);
        assert(next.last() == before);
        assert(rest.push(behind).last() == behind);
        assert(stack_weight(rest.push(behind)) == stack_weight(rest) + range_weight(behind));
        assert(stack_weight(next) == stack_weight(rest.push(behind)) + range_weight(before));
    }
    assert(range_weight(before) + range_weight(behind) < range_weight((left, right)));
    assert forall|k: int| 0 <= k < next.len() implies 0 <= (#[trigger] next[k]).0 <= count && 0
        <= next[k].1 < count by {
        if k < rest.len() {
            assert(rest[k].1 < count);
        }
    }
}

/// The cells after the ranges of the stack were sorted, the last range
/// first: a range of more than one cell is parted around its pivot, and its
/// two parts take its place on the stack.
pub open spec fn qsort_model(cells: Seq<Cell>, stack: Seq<(int, int)>) -> Seq<Cell>
    decreases stack_weight(stack),
    when ranges_within(stack, cells.len() as int)
{
    if stack.len() == 0 {
        cells
    } else {
        let (left, right) = stack.last();
        let rest = stack.drop_last();
        if left < right {
            let parted = partition_model(cells, pivot_choice(cells, left, right), left, right);
            proof {
                lemma_parted(cells, stack);
            }
            qsort_model(parted.0, split_stack(rest, parted.1, left, right))
        } else {
            proof {
                lemma_stack_weight_nonnegative(rest);
            }
            qsort_model(cells, rest)
        }
    }
}

/// Parting the last range of the stack leaves as many cells, ranges within
/// them, and less to sort.
pub proof fn lemma_parted(cells: Seq<Cell>, stack: Seq<(int, int)>)
    requires
        ranges_within(stack, cells.len() as int),
        stack.len() > 0,
        stack.last().0 < stack.last().1,
    ensures
        ({
            let (left, right) = stack.last();
            let parted = partition_model(cells, pivot_choice(cells, left, right), left, right);
            let next = split_stack(stack.drop_last(), parted.1, left, right);
            &&& parted.0.len() == cells.len()
            &&& left <= parted.1 <= right
            &&& ranges_within(next, cells.len() as int)
            &&& 0 <= stack_weight(next) < stack_weight(stack)
        }),
{
    let (left, right) = stack.last();
    let rest = stack.drop_last();
    assert(stack[stack.len() - 1].1 < cells.len());
    let pivot = pivot_choice(cells, left, right);
    lemma_partition_model(cells, pivot, left, right, left, right);
    let parted = partition_model(cells, pivot, left, right);
    assert forall|k: int| 0 <= k < rest.len() implies 0 <= (#[trigger] rest[k]).0 <= cells.len()
        && 0 <= rest[k].1 < cells.len() by {
        assert(stack[k].1 < cells.len());
    }
    lemma_split_stack(rest, parted.1, left, right, cells.len() as int);
    assert(rest.push((left, right)) =~= stack);
    lemma_stack_weight_nonnegative(split_stack(rest, parted.1, left, right));
}

/// Sorts the cells from `left` to `right` from the greatest value to the
/// smallest.
pub fn qsort_decreasing(cells: &mut Vec<Cell>, left: usize, right: usize)
    requires
        left <= old(cells)@.len(),
        right < old(cells)@.len(),
    ensures
        final(cells)@ == qsort_model(old(cells)@, seq![(left as int, right as int)]),
{
    let ghost target = qsort_model(cells@, seq![(left as int, right as int)]);
    let mut stack: Vec<(usize, usize)> = Vec::new();
    stack.push((left, right));
    assert(stack_view(stack@) =~= seq![(left as int, right as int)]);
    while stack.len() > 0
        invariant
            cells@.len() == old(cells)@.len(),
            ranges_within(stack_view(stack@), cells@.len() as int),
            target == qsort_model(old(cells)@, seq![(left as int, right as int)]),
            target == qsort_model(cells@, stack_view(stack@)),
        decreases stack_weight(stack_view(stack@)),
    {
        let ghost ranges = stack_view(stack@);
        let ghost before = cells@;
        let (left, right): (usize, usize) = stack[stack.len() - 1];
        assert(ranges.last() == (left as int, right as int));
        assert(ranges[ranges.len() - 1].1 < cells@.len());
        stack.pop();
        assert(stack_view(stack@) =~= ranges.drop_last());
        if left < right {
            proof {
                lemma_parted(before, ranges);
            }
            let pivot: usize = select_pivot(cells, left, right);
            let (left_begin, left_end, left_len, right_begin, right_end, right_len): (
                usize,
                usize,
                usize,
                usize,
                usize,
                usize,
            ) = partition_dec(cells, pivot, left, right);
            let ghost rest = stack_view(stack@);
            if left_len > right_len {
                stack.push((left_begin, left_end));
                stack.push((right_begin, right_end));
            } else {
                stack.push((right_begin, right_end));
                stack.push((left_begin, left_end));
            }
            proof {
                let place = partition_model(before, pivot as int, left as int, right as int).1;
                assert(stack_view(stack@) =~= split_stack(rest, place, left as int, right as int));
            }
        } else {
            proof {
                lemma_stack_weight_nonnegative(ranges.drop_last());
                assert forall|k: int| 0 <= k < ranges.drop_last().len() implies 0 <= (
                #[trigger] ranges.drop_last()[k]).0 <= cells@.len() && 0 <= ranges.drop_last()[k].1
                    < cells@.len() by {
                    assert(ranges[k].1 < cells@.len());
                }
            }
        }
    }
    assert(stack_view(stack@) =~= Seq::<(int, int)>::empty());
}

/// Whether no two cells came from the same place.
pub open spec fn distinct_places(cells: Seq<Cell>) -> bool {
    forall|i: int, j: int|
        0 <= i < j < cells.len() ==> (#[trigger] cells[i]).index != (#[trigger] cells[j]).index
}

/// Exchanging two cells leaves no two cells from the same place.
proof fn lemma_swapped_distinct(cells: Seq<Cell>, i: int, j: int)
    requires
        distinct_places(cells),
        0 <= i < cells.len(),
        0 <= j < cells.len(),
    ensures
        distinct_places(swapped(cells, i, j)),
{
    let after = swapped(cells, i, j);
    assert forall|a: int, b: int| 0 <= a < b < after.len() implies (#[trigger] after[a]).index != (
    #[trigger] after[b]).index by {
        let from_a = if a == i { j } else if a == j { i } else { a };
        let from_b = if b == i { j } else if b == j { i } else { b };
        assert(after[a] == cells[from_a]);
        assert(after[b] == cells[from_b]);
        if from_a < from_b {
            assert(cells[from_a].index != cells[from_b].index);
        } else {
            assert(cells[from_b].index != cells[from_a].index);
        }
    }
}

/// Parting leaves no two cells from the same place.
proof fn lemma_partition_distinct(cells: Seq<Cell>, pivot: int, left: int, right: int)
    requires
        distinct_places(cells),
        0 <= left <= pivot <= right < cells.len(),
    ensures
        distinct_places(partition_model(cells, pivot, left, right).0),
    decreases right - left, pivot - left,
{
    if left < pivot {
        if cells[left].value < cells[pivot].value {
            lemma_swapped_distinct(cells, left, pivot);
            lemma_partition_distinct(swapped(cells, left, pivot), left, left, right);
        } else {
            lemma_partition_distinct(cells, pivot, left + 1, right);
        }
    } else if right > pivot {
        if cells[right].value > cells[pivot].value {
            lemma_swapped_distinct(cells, right, pivot);
            lemma_partition_distinct(swapped(cells, right, pivot), right, left + 1, right);
        } else {
            lemma_partition_distinct(cells, pivot, left, right - 1);
        }
    }
}

/// Whether two ranges have no place in common.
pub open spec fn apart(a: (int, int), b: (int, int)) -> bool {
    a.1 < a.0 || b.1 < b.0 || a.1 < b.0 || b.1 < a.0
}

/// Whether no two ranges of the stack have a place in common.
pub open spec fn all_apart(stack: Seq<(int, int)>) -> bool {
    forall|k: int, m: int|
        0 <= k < m < stack.len() ==> apart(#[trigger] stack[k], #[trigger] stack[m])
}

/// Whether a range of the stack holds both places.
pub open spec fn together(stack: Seq<(int, int)>, i: int, j: int) -> bool {
    exists|k: int| 0 <= k < stack.len() && (#[trigger] stack[k]).0 <= i && j <= stack[k].1
}

/// Whether every two cells are in order, the greater value first, unless a
/// range still to sort holds both.
pub open spec fn settled(cells: Seq<Cell>, stack: Seq<(int, int)>) -> bool {
    forall|i: int, j: int|
        0 <= i < j < cells.len() ==> (#[trigger] cells[i]).value >= (#[trigger] cells[j]).value
            || together(stack, i, j)
}

/// Whether the values never rise.
pub open spec fn is_falling(cells: Seq<Cell>) -> bool {
    forall|i: int, j: int|
        0 <= i < j < cells.len() ==> (#[trigger] cells[i]).value >= (#[trigger] cells[j]).value
}

/// Parting the last range of the stack keeps the ranges apart and the cells
/// settled.
proof fn lemma_parted_settled(cells: Seq<Cell>, stack: Seq<(int, int)>)
    requires
        ranges_within(stack, cells.len() as int),
        all_apart(stack),
        settled(cells, stack),
        stack.len() > 0,
        stack.last().0 < stack.last().1,
    ensures
        ({
            let (left, right) = stack.last();
            let parted = partition_model(cells, pivot_choice(cells, left, right), left, right);
            let next = split_stack(stack.drop_last(), parted.1, left, right);
            &&& all_apart(next)
            &&& settled(parted.0, next)
            &&& rearranged_within(cells, parted.0, 0, cells.len() - 1)
        }),
{
    let (left, right) = stack.last();
    let rest = stack.drop_last();
    let top = stack.len() - 1;
    assert(stack[top] == (left, right));
    assert(stack[top].1 < cells.len());
    let pivot = pivot_choice(cells, left, right);
    lemma_partition_model(cells, pivot, left, right, left, right);
    let parted = partition_model(cells, pivot, left, right);
    let after = parted.0;
    let place = parted.1;
    let next = split_stack(rest, place, left, right);
    let ranges = parted_ranges(place, left, right);
    let before = (ranges.0, ranges.1);
    let behind = (ranges.3, ranges.4);
    let swap = ranges.2 > ranges.5;
    let base = rest.len() as int;
    let before_at = if swap { base } else { base + 1 };
    let behind_at = if swap { base + 1 } else { base };
    assert(next[before_at] == before);
    assert(next[behind_at] == behind);
    assert forall|k: int| 0 <= k < rest.len() implies #[trigger] next[k] == stack[k] && apart(
        stack[k],
        before,
    ) && apart(stack[k], behind) by {
        assert(apart(stack[k], stack[top]));
    }
    assert forall|k: int, m: int| 0 <= k < m < next.len() implies apart(
        #[trigger] next[k],
        #[trigger] next[m],
    ) by {
        if m < rest.len() {
            assert(apart(stack[k], stack[m]));
        } else if k < rest.len() {
            assert(next[k] == stack[k]);
        }
    }
    lemma_rearranged_wider(cells, after, left, right, 0, cells.len() - 1);
    assert forall|i: int, j: int| 0 <= i < j < after.len() implies (#[trigger] after[i]).value >= (
    #[trigger] after[j]).value || together(next, i, j) by {
        let i_in = left <= i <= right;
        let j_in = left <= j <= right;
        if i_in && j_in {
            if j < place {
                assert(next[before_at].0 <= i && j <= next[before_at].1);
            } else if i > place {
                assert(next[behind_at].0 <= i && j <= next[behind_at].1);
            } else {
                if i < place {
                    assert(after[i].value >= after[place].value);
                }
                if j > place {
                    assert(after[j].value <= after[place].value);
                }
            }
        } else if i_in {
            assert(after[j] == cells[j]);
            assert(occurs_within(cells, left, right, after[i]));
            let from = choose|from: int|
                left <= from <= right && 0 <= from < cells.len() && #[trigger] cells[from]
                    == after[i];
            if !(cells[from].value >= cells[j].value) {
                assert(together(stack, from, j));
                let k = choose|k: int|
                    0 <= k < stack.len() && (#[trigger] stack[k]).0 <= from && j <= stack[k].1;
                if k < top {
                    assert(apart(stack[k], stack[top]));
                }
                assert(false);
            }
        } else if j_in {
            assert(after[i] == cells[i]);
            assert(occurs_within(cells, left, right, after[j]));
            let from = choose|from: int|
                left <= from <= right && 0 <= from < cells.len() && #[trigger] cells[from]
                    == after[j];
            if !(cells[i].value >= cells[from].value) {
                assert(together(stack, i, from));
                let k = choose|k: int|
                    0 <= k < stack.len() && (#[trigger] stack[k]).0 <= i && from <= stack[k].1;
                if k < top {
                    assert(apart(stack[k], stack[top]));
                }
                assert(false);
            }
        } else {
            assert(after[i] == cells[i]);
            assert(after[j] == cells[j]);
            if !(cells[i].value >= cells[j].value) {
                assert(together(stack, i, j));
                let k = choose|k: int|
                    0 <= k < stack.len() && (#[trigger] stack[k]).0 <= i && j <= stack[k].1;
                if k < top {
                    assert(next[k] == stack[k]);
                    assert(next[k].0 <= i && j <= next[k].1);
                } else {
                    assert(false);
                }
            }
        }
    }
}

/// Sorting the ranges of the stack leaves the values falling, where the
/// ranges are apart and the cells outside them are in order; and it leaves
/// the cells that there were, each once.
pub proof fn lemma_qsort_model(cells: Seq<Cell>, stack: Seq<(int, int)>)
    requires
        ranges_within(stack, cells.len() as int),
        all_apart(stack),
        settled(cells, stack),
    ensures
        is_falling(qsort_model(cells, stack)),
        rearranged_within(cells, qsort_model(cells, stack), 0, cells.len() - 1),
        distinct_places(cells) ==> distinct_places(qsort_model(cells, stack)),
    decreases stack_weight(stack),
{
    if stack.len() == 0 {
        lemma_rearranged_same(cells, 0, cells.len() - 1);
        assert forall|i: int, j: int| 0 <= i < j < cells.len() implies (#[trigger] cells[i]).value
            >= (#[trigger] cells[j]).value by {
            assert(!together(stack, i, j));
        }
    } else {
        let (left, right) = stack.last();
        let rest = stack.drop_last();
        let top = stack.len() - 1;
        assert(stack[top] == (left, right));
        assert(stack[top].1 < cells.len());
        if left < right {
            let parted = partition_model(cells, pivot_choice(cells, left, right), left, right);
            let next = split_stack(rest, parted.1, left, right);
            lemma_parted(cells, stack);
            lemma_parted_settled(cells, stack);
            lemma_qsort_model(parted.0, next);
            lemma_rearranged_chain(
                cells,
                parted.0,
                qsort_model(parted.0, next),
                0,
                cells.len() - 1,
            );
            if distinct_places(cells) {
                lemma_partition_distinct(cells, pivot_choice(cells, left, right), left, right);
            }
        } else {
            lemma_stack_weight_nonnegative(rest);
            assert forall|k: int| 0 <= k < rest.len() implies 0 <= (#[trigger] rest[k]).0
                <= cells.len() && 0 <= rest[k].1 < cells.len() by {
                assert(stack[k].1 < cells.len());
            }
            assert forall|k: int, m: int| 0 <= k < m < rest.len() implies apart(
                #[trigger] rest[k],
                #[trigger] rest[m],
            ) by {
                assert(apart(stack[k], stack[m]));
            }
            assert forall|i: int, j: int| 0 <= i < j < cells.len() implies (
            #[trigger] cells[i]).value >= (#[trigger] cells[j]).value || together(rest, i, j) by {
                if !(cells[i].value >= cells[j].value) {
                    assert(together(stack, i, j));
                    let k = choose|k: int|
                        0 <= k < stack.len() && (#[trigger] stack[k]).0 <= i && j <= stack[k].1;
                    assert(k < top);
                    assert(rest[k] == stack[k]);
                    assert(rest[k].0 <= i && j <= rest[k].1);
                }
            }
            lemma_qsort_model(cells, rest);
        }
    }
}

/// The values with their places, in the order of the places.
pub open spec fn cells_of(values: Seq<i32>) -> Seq<Cell> {
    Seq::new(values.len(), |i: int| Cell { index: i as usize, value: values[i] })
}

/// The places of the values in the order in which the sort leaves the
/// values.
pub open spec fn weird_order(values: Seq<i32>) -> Seq<usize> {
    Seq::new(
        values.len(),
        |i: int| qsort_model(cells_of(values), seq![(0int, values.len() - 1)])[i].index,
    )
}

/// The order holds every place once, and the values never rise along it.
pub proof fn lemma_weird_order(values: Seq<i32>)
    requires
        0 < values.len() <= usize::MAX,
    ensures
        qsort_model(cells_of(values), seq![(0int, values.len() - 1)]).len() == values.len(),
        forall|i: int| 0 <= i < values.len() ==> #[trigger] weird_order(values)[i] < values.len(),
        forall|i: int, j: int|
            0 <= i < j < values.len() ==> #[trigger] weird_order(values)[i]
                != #[trigger] weird_order(values)[j],
        forall|i: int, j: int|
            0 <= i < j < values.len() ==> values[#[trigger] weird_order(values)[i] as int]
                >= values[#[trigger] weird_order(values)[j] as int],
{
    let cells = cells_of(values);
    let stack = seq![(0int, values.len() - 1)];
    assert(together(stack, 0, values.len() - 1)) by {
        assert(stack[0].0 <= 0 && values.len() - 1 <= stack[0].1);
    }
    assert forall|i: int, j: int| 0 <= i < j < cells.len() implies (#[trigger] cells[i]).value >= (
    #[trigger] cells[j]).value || together(stack, i, j) by {
        assert(stack[0].0 <= i && j <= stack[0].1);
    }
    lemma_qsort_model(cells, stack);
    let sorted = qsort_model(cells, stack);
    let order = weird_order(values);
    assert forall|i: int| 0 <= i < values.len() implies #[trigger] order[i] < values.len()
        && values[order[i] as int] == sorted[i].value by {
        assert(occurs_within(cells, 0, cells.len() - 1, sorted[i]));
        let from = choose|from: int|
            0 <= from <= cells.len() - 1 && 0 <= from < cells.len() && #[trigger] cells[from]
                == sorted[i];
        assert(order[i] == from);
    }
    assert forall|i: int, j: int| 0 <= i < j < values.len() implies #[trigger] order[i]
        != #[trigger] order[j] && values[order[i] as int] >= values[order[j] as int] by {
        assert(sorted[i].index != sorted[j].index);
        assert(sorted[i].value >= sorted[j].value);
        assert(order[i] < values.len() && values[order[i] as int] == sorted[i].value);
        assert(order[j] < values.len() && values[order[j] as int] == sorted[j].value);
    }
}

/// Gives the places of the values in the order from the greatest value to
/// the smallest, as the legacy sort arranges equal values.
pub fn sort_order_decreasing(values: &[i32]) -> (order: Vec<usize>)
    requires
        values@.len() > 0,
    ensures
        order@ == weird_order(values@),
        forall|i: int| 0 <= i < order@.len() ==> #[trigger] order@[i] < values@.len(),
        forall|i: int, j: int|
            0 <= i < j < order@.len() ==> #[trigger] order@[i] != #[trigger] order@[j],
        forall|i: int, j: int|
            0 <= i < j < order@.len() ==> values@[#[trigger] order@[i] as int]
                >= values@[#[trigger] order@[j] as int],
{
    let count: usize = values.len();
    let mut cells: Vec<Cell> = Vec::new();
    let mut i: usize = 0;
    while i < count
        invariant
            i <= count,
            count == values@.len(),
            cells@.len() == i,
            forall|k: int|
                0 <= k < i ==> #[trigger] cells@[k] == (Cell {
                    index: k as usize,
                    value: values@[k],
                }),
        decreases count - i,
    {
        cells.push(Cell { index: i, value: values[i] });
        i = i + 1;
    }
    assert(cells@ =~= cells_of(values@));
    proof {
        lemma_weird_order(values@);
    }
    qsort_decreasing(&mut cells, 0, count - 1);
    let mut order: Vec<usize> = Vec::new();
    let mut k: usize = 0;
    while k < count
        invariant
            k <= count,
            count == cells@.len(),
            order@.len() == k,
            forall|m: int| 0 <= m < k ==> #[trigger] order@[m] == cells@[m].index,
        decreases count - k,
    {
        order.push(cells[k].index);
        k = k + 1;
    }
    assert(order@ =~= weird_order(values@));
    order
}

/// What a stack of ranges stands for.
pub open spec fn stack_view(stack: Seq<(usize, usize)>) -> Seq<(int, int)> {
    Seq::new(stack.len(), |k: int| (stack[k].0 as int, stack[k].1 as int))
}

} // verus!
