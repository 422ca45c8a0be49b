//! Sets of endpoints packed into bit arrays, so that two sets are compared
//! block by block.

use vstd::prelude::*;

verus! {

/// Number of 64-bit blocks of one set.
pub const ENDPOINT_SET_BLOCKS: usize = 4;

/// Number of endpoints that a set has room for.
pub const ENDPOINT_SET_BITS: usize = 256;

/// A set of endpoints below `ENDPOINT_SET_BITS`, one bit each, in a
/// `bit_array::BitArray` of 256 bits in blocks of 64.
#[verifier::external_body]
pub struct EndpointSet {
    bits: bit_array::BitArray<u64, typenum::U256>,
}

/// The endpoints that a set holds.
pub uninterp spec fn endpoint_set_members(set: EndpointSet) -> Set<int>;

/// Whether bit `k` of `block` is set.
pub open spec fn block_has_bit(block: u64, k: int) -> bool {
    (block >> (k as u64)) & 1 == 1
}

impl EndpointSet {
    /// Calls `BitArray::new`, which gives an array with every bit clear: the
    /// new set holds nothing.
    #[verifier::external_body]
    pub(crate) fn new() -> (set: EndpointSet)
        ensures
            endpoint_set_members(set) == Set::<int>::empty(),
    {
        EndpointSet { bits: bit_array::BitArray::new() }
    }

    /// Calls `BitArray::set` with `true`, which sets bit `index` and leaves
    /// the others; it panics from 256 on, so such an index is not accepted.
    #[verifier::external_body]
    pub(crate) fn insert(&mut self, index: usize)
        requires
            index < ENDPOINT_SET_BITS,
        ensures
            endpoint_set_members(*final(self)) == endpoint_set_members(*old(self)).insert(
                index as int,
            ),
    {
        self.bits.set(index, true);
    }

    /// Calls `BitArray::blocks` and collects the four blocks it walks. Bit
    /// `i` of the array is bit `i % 64` of block `i / 64`, counted from the
    /// least significant.
    #[verifier::external_body]
    pub(crate) fn blocks(&self) -> (blocks: Vec<u64>)
        ensures
            blocks@.len() == ENDPOINT_SET_BLOCKS,
            forall|i: int|
                0 <= i < ENDPOINT_SET_BITS ==> (endpoint_set_members(*self).contains(i)
                    <==> block_has_bit(#[trigger] blocks@[i / 64], i % 64)),
    {
        self.bits.blocks().collect()
    }
}

/// A block with something left at bit `from` or above has one of these bits
/// set.
proof fn lemma_has_bit_from(x: u64, from: u64)
    requires
        from < 64,
        x >> from != 0,
    ensures
        exists|k: int| from <= k < 64 && block_has_bit(x, k),
    decreases 64 - from,
{
    if (x >> from) & 1 == 1 {
        assert(block_has_bit(x, from as int));
    } else {
        assert(from < 63 && x >> ((from + 1) as u64) != 0) by (bit_vector)
            requires
                from < 64,
                x >> from != 0,
                (x >> from) & 1 != 1,
        ;
        lemma_has_bit_from(x, (from + 1) as u64);
    }
}

/// A block that is not zero has a bit set.
pub proof fn lemma_nonzero_block_has_bit(x: u64)
    requires
        x != 0,
    ensures
        exists|k: int| 0 <= k < 64 && block_has_bit(x, k),
{
    assert(x >> 0 == x) by (bit_vector);
    lemma_has_bit_from(x, 0);
}

/// Two blocks that share a bit do not vanish under `&`, and two blocks that
/// do not vanish under `&` share the bits of the result.
pub proof fn lemma_common_bit(a: u64, b: u64, k: int)
    requires
        0 <= k < 64,
    ensures
        block_has_bit(a & b, k) <==> block_has_bit(a, k) && block_has_bit(b, k),
        block_has_bit(a & b, k) ==> a & b != 0,
{
    let s = k as u64;
    assert(((a & b) >> s) & 1 == 1 <==> ((a >> s) & 1 == 1 && (b >> s) & 1 == 1))
        by (bit_vector)
        requires
            s < 64,
    ;
    assert(((a & b) >> s) & 1 == 1 ==> a & b != 0) by (bit_vector)
        requires
            s < 64,
    ;
}

} // verus!
