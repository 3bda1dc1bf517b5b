//! The completion mask of a ticket: bit `k` is set when step `k` is done.

use vstd::prelude::*;

verus! {

/// Number of steps that a completion mask can record.
pub const MASK_WIDTH: usize = 64;

/// Bit `k` of `m`.
pub open spec fn bit(m: u64, k: nat) -> bool {
    k < 64 && (m >> (k as u64)) & 1u64 == 1u64
}

/// Every index in `req` names a set bit of `m`.
pub open spec fn all_bits(m: u64, req: Seq<usize>) -> bool {
    forall|i: int| 0 <= i < req.len() ==> bit(m, req[i] as nat)
}

/// Bits `0..n` of `m` are all set.
pub open spec fn first_bits(m: u64, n: nat) -> bool {
    forall|k: nat| k < n ==> bit(m, k)
}

pub proof fn lemma_set_bit(m: u64, k: u64, j: u64)
    requires
        k < 64,
        j < 64,
    ensures
        bit(m | (1u64 << k), j as nat) == (j == k || bit(m, j as nat)),
{
    assert(((m | (1u64 << k)) >> j) & 1u64 == 1u64 <==> (j == k || (m >> j) & 1u64 == 1u64))
        by (bit_vector)
        requires
            k < 64,
            j < 64,
    ;
}

/// `m` with bit `k` set.
pub fn set_bit(m: u64, k: usize) -> (r: u64)
    requires
        k < MASK_WIDTH,
    ensures
        r == m | (1u64 << (k as u64)),
        forall|j: nat| bit(r, j) == (j == k || bit(m, j)),
{
    let r = m | (1u64 << (k as u64));
    assert forall|j: nat| bit(r, j) == (j == k || bit(m, j)) by {
        if j < 64 {
            lemma_set_bit(m, k as u64, j as u64);
        }
    }
    r
}

/// Whether bit `k` of `m` is set.
pub fn is_set(m: u64, k: usize) -> (r: bool)
    ensures
        r == bit(m, k as nat),
{
    if k >= MASK_WIDTH {
        false
    } else {
        ((m >> (k as u64)) & 1u64) == 1u64
    }
}

/// Whether every index in `req` has its bit set in `m`.
pub fn all_required_set(m: u64, req: &Vec<usize>) -> (r: bool)
    ensures
        r == all_bits(m, req@),
{
    let mut i: usize = 0;
    while i < req.len()
        invariant
            i <= req.len(),
            all_bits(m, req@.take(i as int)),
        decreases req.len() - i,
    {
        if !is_set(m, req[i]) {
            return false;
        }
        i = i + 1;
    }
    assert(req@.take(i as int) =~= req@);
    true
}

/// Whether bits `0..n` of `m` are all set.
pub fn all_n_set(m: u64, n: usize) -> (r: bool)
    ensures
        r == first_bits(m, n as nat),
{
    let mut k: usize = 0;
    while k < n
        invariant
            k <= n,
            first_bits(m, k as nat),
        decreases n - k,
    {
        if !is_set(m, k) {
            return false;
        }
        k = k + 1;
    }
    true
}

} // verus!
