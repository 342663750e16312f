use bitvec::order::Lsb0;
use bitvec::vec::BitVec;
use vstd::prelude::*;

verus! {

/// A packed vector of bits, kept in a `bitvec::vec::BitVec`.
#[verifier::external_body]
pub struct Bits {
    inner: BitVec<usize, Lsb0>,
}

/// The bits held by a bit vector, in index order.
pub uninterp spec fn bits_of(v: Bits) -> Seq<bool>;

/// The largest number of bits that a `BitVec` can hold.
pub const MAX_BITS: usize = usize::MAX / 8;

/// Relies on `bitvec::vec::BitVec::repeat`: a vector of `len` copies of `bit`; it panics
/// when `len` exceeds `BitSlice::MAX_BITS`, which is `usize::MAX >> 3`.
#[verifier::external_body]
pub(crate) fn bits_repeat(bit: bool, len: usize) -> (r: Bits)
    requires
        len <= MAX_BITS,
    ensures
        bits_of(r) == Seq::new(len as nat, |_i: int| bit),
{
    Bits { inner: BitVec::<usize, Lsb0>::repeat(bit, len) }
}

/// Relies on indexing a `bitvec::slice::BitSlice`: the bit at `index`, which must be in
/// bounds.
#[verifier::external_body]
pub(crate) fn bit_at(v: &Bits, index: usize) -> (r: bool)
    requires
        index < bits_of(*v).len(),
    ensures
        r == bits_of(*v)[index as int],
{
    v.inner[index]
}

/// Relies on `bitvec::slice::BitSlice::set`: writes one in-bounds bit and leaves the
/// others.
#[verifier::external_body]
pub(crate) fn set_bit(v: &mut Bits, index: usize, value: bool)
    requires
        index < bits_of(*old(v)).len(),
    ensures
        bits_of(*final(v)) == bits_of(*old(v)).update(index as int, value),
{
    v.inner.set(index, value)
}

/// The number of unset bits in `s`.
pub open spec fn count_unset(s: Seq<bool>) -> nat
    decreases s.len(),
{
    if s.len() == 0 {
        0
    } else {
        count_unset(s.drop_last()) + if s.last() {
            0nat
        } else {
            1nat
        }
    }
}

/// Setting an unset bit lowers the count of unset bits by one.
pub proof fn lemma_count_unset_set(s: Seq<bool>, i: int)
    requires
        0 <= i < s.len(),
        !s[i],
    ensures
        count_unset(s.update(i, true)) + 1 == count_unset(s),
    decreases s.len(),
{
    let t = s.update(i, true);
    if i == s.len() - 1 {
        assert(t.drop_last() =~= s.drop_last());
    } else {
        lemma_count_unset_set(s.drop_last(), i);
        assert(t.drop_last() =~= s.drop_last().update(i, true));
    }
}

} // verus!
