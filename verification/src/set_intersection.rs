//! The common members of two sorted lists, found by walking both at once.

use vstd::prelude::*;

verus! {

/// What the walk over `first` from place `i` and `second` from place `j`
/// yields: where the two members at hand are equal, that member, and both
/// lists move on; otherwise the list with the smaller member moves on. The
/// walk ends with either list.
pub open spec fn intersection_from(first: Seq<u32>, second: Seq<u32>, i: int, j: int) -> Seq<u32>
    decreases first.len() - i + second.len() - j,
{
    if i < 0 || j < 0 || i >= first.len() || j >= second.len() {
        Seq::empty()
    } else if first[i] > second[j] {
        intersection_from(first, second, i, j + 1)
    } else if first[i] == second[j] {
        seq![first[i]] + intersection_from(first, second, i + 1, j + 1)
    } else {
        intersection_from(first, second, i + 1, j)
    }
}

/// Whether the members of `list` rise strictly.
pub open spec fn is_rising(list: Seq<u32>) -> bool {
    forall|i: int, j: int| 0 <= i < j < list.len() ==> list[i] < list[j]
}

/// Every member that the walk yields is a member of `first` at place `i` or
/// behind and of `second` at place `j` or behind, and where `first` rises,
/// so does what the walk yields.
pub proof fn lemma_intersection_members(first: Seq<u32>, second: Seq<u32>, i: int, j: int)
    requires
        0 <= i,
        0 <= j,
    ensures
        forall|k: int|
            0 <= k < intersection_from(first, second, i, j).len() ==> {
                &&& exists|a: int|
                    i <= a < first.len() && first[a] == #[trigger] intersection_from(
                        first,
                        second,
                        i,
                        j,
                    )[k]
                &&& second.contains(intersection_from(first, second, i, j)[k])
            },
        is_rising(first) ==> is_rising(intersection_from(first, second, i, j)),
        intersection_from(first, second, i, j).len() <= first.len() - i || i >= first.len(),
    decreases first.len() - i + second.len() - j,
{
    let all = intersection_from(first, second, i, j);
    if i >= first.len() || j >= second.len() {
    } else if first[i] > second[j] {
        lemma_intersection_members(first, second, i, j + 1);
    } else if first[i] == second[j] {
        lemma_intersection_members(first, second, i + 1, j + 1);
        let rest = intersection_from(first, second, i + 1, j + 1);
        assert forall|k: int| 0 <= k < all.len() implies {
            &&& exists|a: int| i <= a < first.len() && first[a] == #[trigger] all[k]
            &&& second.contains(all[k])
        } by {
            if k == 0 {
                assert(first[i] == all[0]);
                assert(second[j] == all[0]);
            } else {
                assert(all[k] == rest[k - 1]);
                let a = choose|a: int| i + 1 <= a < first.len() && first[a] == rest[k - 1];
                assert(i <= a < first.len() && first[a] == all[k]);
            }
        }
        if is_rising(first) {
            assert forall|x: int, y: int| 0 <= x < y < all.len() implies all[x] < all[y] by {
                assert(all[y] == rest[y - 1]);
                if x == 0 {
                    let a = choose|a: int| i + 1 <= a < first.len() && first[a] == rest[y - 1];
                    assert(first[i] < first[a]);
                } else {
                    assert(all[x] == rest[x - 1]);
                }
            }
        }
    } else {
        lemma_intersection_members(first, second, i + 1, j);
        let rest = intersection_from(first, second, i + 1, j);
        assert forall|k: int| 0 <= k < all.len() implies {
            &&& exists|a: int| i <= a < first.len() && first[a] == #[trigger] all[k]
            &&& second.contains(all[k])
        } by {
            let a = choose|a: int| i + 1 <= a < first.len() && first[a] == rest[k];
            assert(i <= a < first.len() && first[a] == all[k]);
        }
    }
}

/// Of two rising lists the walk yields every common member.
pub proof fn lemma_intersection_complete(
    first: Seq<u32>,
    second: Seq<u32>,
    i: int,
    j: int,
    a: int,
    b: int,
)
    requires
        is_rising(first),
        is_rising(second),
        0 <= i <= a < first.len(),
        0 <= j <= b < second.len(),
        first[a] == second[b],
    ensures
        intersection_from(first, second, i, j).contains(first[a]),
    decreases first.len() - i + second.len() - j,
{
    let all = intersection_from(first, second, i, j);
    if first[i] > second[j] {
        if j == b {
            assert(first[i] <= first[a]);
        }
        lemma_intersection_complete(first, second, i, j + 1, a, b);
    } else if first[i] == second[j] {
        if i == a {
            assert(all[0] == first[a]);
        } else {
            if j == b {
                assert(first[i] < first[a]);
            }
            lemma_intersection_complete(first, second, i + 1, j + 1, a, b);
            let rest = intersection_from(first, second, i + 1, j + 1);
            let k = choose|k: int| 0 <= k < rest.len() && rest[k] == first[a];
            assert(all[k + 1] == first[a]);
        }
    } else {
        if i == a {
            assert(second[j] <= second[b]);
        }
        lemma_intersection_complete(first, second, i + 1, j, a, b);
    }
}

/// A walk over two sorted lists that hands out their common members one by
/// one.
pub struct Intersection<'a> {
    first: &'a [u32],
    second: &'a [u32],
    first_place: usize,
    second_place: usize,
}

impl<'a> Intersection<'a> {
    /// What the walk has still to hand out.
    pub closed spec fn remaining(&self) -> Seq<u32> {
        intersection_from(
            self.first@,
            self.second@,
            self.first_place as int,
            self.second_place as int,
        )
    }

    /// Hands out the next common member, or `None` when there is no more.
    pub fn next(&mut self) -> (member: Option<u32>)
        ensures
            match member {
                Some(value) => old(self).remaining() == seq![value] + final(self).remaining(),
                None => old(self).remaining() == Seq::<u32>::empty() && final(self).remaining()
                    == Seq::<u32>::empty(),
            },
    {
        while self.first_place < self.first.len() && self.second_place < self.second.len()
            invariant
                self.first == old(self).first,
                self.second == old(self).second,
                self.remaining() == old(self).remaining(),
            decreases
                    self.first@.len() - self.first_place + self.second@.len() - self.second_place,
        {
            let a: u32 = self.first[self.first_place];
            let b: u32 = self.second[self.second_place];
            if a > b {
                self.second_place = self.second_place + 1;
            } else if a == b {
                self.first_place = self.first_place + 1;
                self.second_place = self.second_place + 1;
                return Some(a);
            } else {
                self.first_place = self.first_place + 1;
            }
        }
        None
    }
}

/// Starts the walk over two sorted lists.
pub fn intersection_of_sorted<'a>(first: &'a [u32], second: &'a [u32]) -> (walk: Intersection<'a>)
    ensures
        walk.remaining() == intersection_from(first@, second@, 0, 0),
{
    Intersection { first, second, first_place: 0, second_place: 0 }
}

/// All common members of two sorted lists, as the walk yields them.
pub fn collect_intersection(first: &[u32], second: &[u32]) -> (common: Vec<u32>)
    ensures
        common@ == intersection_from(first@, second@, 0, 0),
{
    let mut walk = intersection_of_sorted(first, second);
    let mut common: Vec<u32> = Vec::new();
    let ghost all = walk.remaining();
    loop
        invariant
            all == intersection_from(first@, second@, 0, 0),
            all == common@ + walk.remaining(),
        decreases walk.remaining().len(),
    {
        let ghost before = walk.remaining();
        match walk.next() {
            Some(value) => {
                proof {
                    assert(common@.push(value) + walk.remaining() =~= common@ + before);
                }
                common.push(value);
            },
            None => {
                proof {
                    assert(common@ + Seq::<u32>::empty() =~= common@);
                }
                return common;
            },
        }
    }
}

} // verus!
