//! Trusted interface to `bit_vec::BitVec`, the bit vector that records which
//! nodes a traversal has visited, and a verified population count over it.

use vstd::prelude::*;

verus! {

#[verifier::external_type_specification]
#[verifier::external_body]
#[verifier::reject_recursive_types(B)]
pub struct ExBitVec<B>(bit_vec::BitVec<B>);

/// The visited-set representation: a bit vector with one bit per node.
pub type Bits = bit_vec::BitVec;

/// What the bit vector holds, bit by bit.
pub uninterp spec fn bits_view(v: Bits) -> Seq<bool>;

/// Relies on bit_vec::BitVec::from_elem: `len` bits, each set to `bit`.
#[verifier::external_body]
pub fn bits_new(len: usize, bit: bool) -> (r: Bits)
    ensures
        bits_view(r) === Seq::new(len as nat, |i: int| bit),
{
    bit_vec::BitVec::from_elem(len, bit)
}

/// Relies on bit_vec::BitVec::set, which panics when the index is out of
/// bounds; the bound is required here instead.
#[verifier::external_body]
pub fn bits_set(v: &mut Bits, i: usize, x: bool)
    requires
        i < bits_view(*old(v)).len(),
    ensures
        bits_view(*final(v)) === bits_view(*old(v)).update(i as int, x),
{
    v.set(i, x);
}

/// Relies on bit_vec::BitVec::get: the bit at `i`, or None past the end.
#[verifier::external_body]
pub fn bits_get(v: &Bits, i: usize) -> (r: Option<bool>)
    ensures
        r === if i < bits_view(*v).len() {
            Some(bits_view(*v)[i as int])
        } else {
            None::<bool>
        },
{
    v.get(i)
}

/// How many of the first `upto` entries are true.
pub open spec fn count_true(s: Seq<bool>) -> nat
    decreases s.len(),
{
    if s.len() == 0 {
        0
    } else {
        count_true(s.drop_last()) + if s.last() {
            1nat
        } else {
            0nat
        }
    }
}

/// The number of set bits: how many nodes a traversal returning this bit
/// vector has visited.
pub fn count_ones(visited: &Bits) -> (cnt: usize)
    ensures
        cnt == count_true(bits_view(*visited)),
{
    let ghost s = bits_view(*visited);
    let total = bits_len(visited);
    let mut cnt: usize = 0;
    let mut i: usize = 0;
    proof {
        lemma_count_true_bound(s.take(0));
    }
    while i < total
        invariant
            s === bits_view(*visited),
            total == s.len(),
            0 <= i <= s.len(),
            cnt == count_true(s.take(i as int)),
            cnt <= i,
        decreases s.len() - i,
    {
        proof {
            assert(s.take(i + 1).drop_last() =~= s.take(i as int));
        }
        let b = bits_get(visited, i);
        if b.unwrap() {
            cnt += 1;
        }
        i += 1;
    }
    proof {
        assert(s.take(s.len() as int) =~= s);
    }
    cnt
}

/// Relies on bit_vec::BitVec::len: the number of bits.
#[verifier::external_body]
pub fn bits_len(v: &Bits) -> (r: usize)
    ensures
        r == bits_view(*v).len(),
{
    v.len()
}

/// No more entries of a sequence are true than it has entries.
proof fn lemma_count_true_bound(s: Seq<bool>)
    ensures
        count_true(s) <= s.len(),
    decreases s.len(),
{
    if s.len() > 0 {
        lemma_count_true_bound(s.drop_last());
    }
}

} // verus!
