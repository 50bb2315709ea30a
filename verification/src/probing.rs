//! Quadratic probing: the buckets that are tried, one after another, for a hash.

use vstd::arithmetic::div_mod::{
    lemma_add_mod_noop_right, lemma_mod_bound, lemma_mod_mod, lemma_mod_multiples_vanish,
    lemma_small_mod,
};
use vstd::arithmetic::power2::{lemma_pow2_adds, lemma_pow2_pos, pow2};
use vstd::bits::{lemma_usize_low_bits_mask_is_mod, lemma_usize_pow2_no_overflow, low_bits_mask};
use vstd::layout::unsigned_int_max_values;
use vstd::prelude::*;

verus! {

/// The bucket tried at step `i` for `hash` in a table of `capacity` buckets.
/// The steps count from one.
pub open spec fn probe_bucket(hash: nat, i: nat, capacity: nat) -> int {
    ((hash + i * i) % capacity) as int
}

/// Whether a table can have `capacity` buckets: a power of two that a
/// `usize` can hold.
pub open spec fn is_capacity(capacity: nat) -> bool {
    exists|num_bits: nat| num_bits < usize::BITS && capacity == #[trigger] pow2(num_bits)
}

/// Every bucket tried is one of the table.
pub proof fn lemma_probe_in_range(hash: nat, i: nat, capacity: nat)
    requires
        0 < capacity,
    ensures
        0 <= probe_bucket(hash, i, capacity) < capacity,
{
    lemma_mod_bound(hash as int + i * i, capacity as int);
}

/// The buckets tried repeat after as many steps as the table has buckets:
/// a search that has taken that many steps has seen every bucket it will
/// ever see.
pub proof fn lemma_probe_repeats(hash: nat, i: nat, capacity: nat)
    requires
        0 < capacity,
    ensures
        probe_bucket(hash, i + capacity, capacity) == probe_bucket(hash, i, capacity),
{
    let c = capacity as int;
    let factor = 2 * i + c;
    assert((i + c) * (i + c) == c * factor + i * i) by (nonlinear_arith)
        requires
            factor == 2 * i + c,
    ;
    lemma_mod_multiples_vanish(factor, hash as int + i * i, c);
}

/// The state of one search: the hash it started from, the steps taken, and
/// the table's mask.
pub struct QuadraticProbing {
    pub hash: usize,
    pub i: usize,
    pub mask: usize,
}

impl QuadraticProbing {
    /// A search for `hash` that has taken no step yet.
    pub fn compute(hash: usize, mask: usize) -> (probing: QuadraticProbing)
        ensures
            probing.hash == hash,
            probing.i == 0,
            probing.mask == mask,
    {
        QuadraticProbing { hash, i: 0, mask }
    }

    /// Takes one more step and returns the bucket to try.
    pub fn next_probe(&mut self) -> (bucket: usize)
        requires
            old(self).i < usize::MAX,
            is_capacity((old(self).mask + 1) as nat),
        ensures
            final(self).hash == old(self).hash,
            final(self).mask == old(self).mask,
            final(self).i == old(self).i + 1,
            bucket == probe_bucket(
                old(self).hash as nat,
                (old(self).i + 1) as nat,
                (old(self).mask + 1) as nat,
            ),
    {
        self.i += 1;
        let square: usize = self.i.wrapping_mul(self.i);
        let sum: usize = self.hash.wrapping_add(square);
        proof {
            lemma_wrapped_probe(self.hash, self.i, self.mask, sum);
        }
        sum & self.mask
    }
}

/// Arithmetic that wraps at the width of a `usize` does not change the
/// bucket, because the number of buckets divides what it wraps at.
proof fn lemma_wrapped_probe(hash: usize, i: usize, mask: usize, sum: usize)
    requires
        is_capacity((mask + 1) as nat),
        sum == hash.wrapping_add(i.wrapping_mul(i)),
    ensures
        sum & mask == probe_bucket(hash as nat, i as nat, (mask + 1) as nat),
{
    let num_bits = choose|num_bits: nat|
        num_bits < usize::BITS && (mask + 1) as nat == #[trigger] pow2(num_bits);
    let capacity = pow2(num_bits) as int;
    let rest = pow2((usize::BITS - num_bits) as nat) as int;
    let range = usize::MAX as int + 1;
    let exact = i as int * i as int;
    let square = i.wrapping_mul(i) as int;
    unsigned_int_max_values();
    lemma_usize_pow2_no_overflow(num_bits);
    lemma_pow2_pos((usize::BITS - num_bits) as nat);
    lemma_pow2_adds(num_bits, (usize::BITS - num_bits) as nat);
    assert(range == capacity * rest);
    assert(square == exact % range);
    assert(sum as int == (hash as int + square) % range) by {
        lemma_mod_bound(exact, range);
        if hash as int + square >= range {
            lemma_mod_multiples_vanish(-1, hash as int + square, range);
            lemma_small_mod((hash as int + square - range) as nat, range as nat);
        } else {
            lemma_small_mod((hash as int + square) as nat, range as nat);
        }
    }
    assert(mask == low_bits_mask(num_bits) as usize);
    lemma_usize_low_bits_mask_is_mod(sum, num_bits);
    assert(sum & mask == sum as int % capacity);
    lemma_mod_mod(hash as int + square, capacity, rest);
    lemma_add_mod_noop_right(hash as int, square, capacity);
    lemma_mod_mod(exact, capacity, rest);
    lemma_add_mod_noop_right(hash as int, exact, capacity);
}

} // verus!
