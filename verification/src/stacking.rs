//! Per-layer stacking data derived from an ordered list of fault layers.
//!
//! A running sign starts at +1 and flips at every fault layer; integrating it
//! gives each layer's cumulative lateral offset (`pos`, normalized to zero at
//! the central layer), and its value selects the lateral neighbor correction
//! (`shift_i`, `shift_j`) used when crossing that layer boundary.

use vstd::prelude::*;
use crate::params::{MAX_K, CENTER_K};

verus! {

#[derive(Clone)]
pub struct Stackings {
    pub shift_i: Vec<u16>,
    pub shift_j: Vec<i16>,
    pub pos: Vec<i16>,
}

/// The fault list is strictly increasing and addresses existing layers.
pub open spec fn faults_wf(faults: Seq<u16>) -> bool {
    &&& forall|m: int, n: int| 0 <= m < n < faults.len() ==> faults[m] < faults[n]
    &&& forall|m: int| 0 <= m < faults.len() ==> faults[m] < MAX_K
}

/// -1 at a fault layer, +1 elsewhere.
pub open spec fn flip(faults: Seq<u16>, k: int) -> int {
    if faults.contains(k as u16) {
        -1
    } else {
        1
    }
}

/// Running stacking sign at layer `k`: the product of all flips up to `k`.
pub open spec fn sign_at(faults: Seq<u16>, k: int) -> int
    decreases k,
{
    if k <= 0 {
        flip(faults, 0)
    } else {
        sign_at(faults, k - 1) * flip(faults, k)
    }
}

/// Sum of the signs of the layers `0 ..= k` (0 when `k < 0`).
pub open spec fn psum(faults: Seq<u16>, k: int) -> int
    decreases k + 1,
{
    if k < 0 {
        0
    } else {
        psum(faults, k - 1) + sign_at(faults, k)
    }
}

pub proof fn lemma_sign_unit(faults: Seq<u16>, k: int)
    ensures
        sign_at(faults, k) == 1 || sign_at(faults, k) == -1,
    decreases k,
{
    if k > 0 {
        lemma_sign_unit(faults, k - 1);
    }
}

pub proof fn lemma_psum_bounds(faults: Seq<u16>, k: int)
    requires
        k >= 0,
    ensures
        -(k + 1) <= psum(faults, k) <= k + 1,
    decreases k,
{
    lemma_sign_unit(faults, k);
    if k == 0 {
        assert(psum(faults, -1) == 0);
    } else {
        lemma_psum_bounds(faults, k - 1);
    }
}

impl Stackings {
    /// The three tables agree with the sign sequence of `faults`.
    pub open spec fn wf(self, faults: Seq<u16>) -> bool {
        &&& faults_wf(faults)
        &&& self.shift_i@.len() == MAX_K as int
        &&& self.shift_j@.len() == MAX_K as int
        &&& self.pos@.len() == MAX_K as int
        &&& forall|k: int|
            0 <= k < MAX_K as int ==> self.shift_j@[k] == sign_at(faults, k)
        &&& forall|k: int|
            0 <= k < MAX_K as int ==> self.shift_i@[k] == (
            if sign_at(faults, k) == -1 {
                1u16
            } else {
                0u16
            })
        &&& forall|k: int|
            0 <= k < MAX_K as int ==> self.pos@[k] == psum(faults, k) - psum(
                faults,
                CENTER_K as int,
            )
    }

    /// Build the stacking tables for the given fault-layer positions.
    #[verifier::loop_isolation(false)]
    pub fn new(stacking_faults: &Vec<u16>) -> (r: Self)
        requires
            faults_wf(stacking_faults@),
        ensures
            r.wf(stacking_faults@),
    {
        let ghost faults = stacking_faults@;
        let n: usize = MAX_K as usize;
        let mut shift_i: Vec<u16> = vec![1u16; n];
        let mut shift_j: Vec<i16> = vec![1i16; n];
        let mut pos: Vec<i16> = vec![0i16; n];

        // Mark each fault layer with -1.
        let mut t: usize = 0;
        while t < stacking_faults.len()
            invariant
                shift_j@.len() == MAX_K as int,
                t <= faults.len(),
                faults_wf(faults),
                faults == stacking_faults@,
                forall|m: int|
                    0 <= m < MAX_K as int ==> shift_j@[m] == (
                    if faults.subrange(0, t as int).contains(m as u16) {
                        -1i16
                    } else {
                        1i16
                    }),
            decreases stacking_faults.len() - t,
        {
            let f = stacking_faults[t] as usize;
            shift_j[f] = -1;
            proof {
                assert(faults.subrange(0, t + 1) =~= faults.subrange(0, t as int).push(
                    faults[t as int],
                ));
                assert forall|m: int| 0 <= m < MAX_K as int implies shift_j@[m] == (
                    if faults.subrange(0, t + 1).contains(m as u16) {
                        -1i16
                    } else {
                        1i16
                    }) by {
                    if m == f as int {
                        assert(faults.subrange(0, t + 1)[t as int] == faults[t as int]);
                        assert(faults.subrange(0, t + 1).contains(m as u16));
                    } else {
                        assert(faults.subrange(0, t + 1).contains(m as u16)
                            <==> faults.subrange(0, t as int).contains(m as u16));
                    }
                }
            }
            t += 1;
        }
        proof {
            assert(faults.subrange(0, faults.len() as int) =~= faults);
            assert forall|m: int| 0 <= m < MAX_K as int implies shift_j@[m] == (
                if faults.contains(m as u16) {
                    -1i16
                } else {
                    1i16
                }) by {}
        }

        // Turn the flip marks into the running sign by a prefix product.
        let mut k: usize = 1;
        while k < n
            invariant
                shift_j@.len() == MAX_K as int,
                1 <= k <= MAX_K as usize,
                forall|m: int| 0 <= m < k as int ==> shift_j@[m] == sign_at(faults, m),
                forall|m: int|
                    k as int <= m < MAX_K as int ==> shift_j@[m] == (
                    if faults.contains(m as u16) {
                        -1i16
                    } else {
                        1i16
                    }),
            decreases n - k,
        {
            proof {
                lemma_sign_unit(faults, k - 1);
            }
            let prev = shift_j[k - 1];
            let here = shift_j[k];
            shift_j[k] = prev * here;
            k += 1;
        }

        // Integrate the signs into per-layer offsets, and derive shift_i.
        let mut acc: i16 = 0;
        let mut k: usize = 0;
        while k < n
            invariant
                shift_i@.len() == MAX_K as int,
                shift_j@.len() == MAX_K as int,
                pos@.len() == MAX_K as int,
                k <= MAX_K as usize,
                acc == psum(faults, k as int - 1),
                forall|m: int| 0 <= m < MAX_K as int ==> shift_j@[m] == sign_at(faults, m),
                forall|m: int| 0 <= m < k as int ==> pos@[m] == psum(faults, m),
                forall|m: int|
                    0 <= m < k as int ==> shift_i@[m] == (
                    if sign_at(faults, m) == -1 {
                        1u16
                    } else {
                        0u16
                    }),
                forall|m: int| k as int <= m < MAX_K as int ==> shift_i@[m] == 1u16,
            decreases n - k,
        {
            proof {
                lemma_sign_unit(faults, k as int);
                if k > 0 {
                    lemma_psum_bounds(faults, k as int - 1);
                }
            }
            let s = shift_j[k];
            acc = acc + s;
            pos[k] = acc;
            if s == 1 {
                shift_i[k] = 0;
            }
            k += 1;
        }

        // Normalize so that the offset of the central layer is zero.
        let kzero = pos[CENTER_K as usize];
        let mut k: usize = 0;
        while k < n
            invariant
                pos@.len() == MAX_K as int,
                k <= MAX_K as usize,
                kzero == psum(faults, CENTER_K as int),
                forall|m: int|
                    0 <= m < k as int ==> pos@[m] == psum(faults, m) - psum(
                        faults,
                        CENTER_K as int,
                    ),
                forall|m: int| k as int <= m < MAX_K as int ==> pos@[m] == psum(faults, m),
            decreases n - k,
        {
            proof {
                lemma_psum_bounds(faults, k as int);
                lemma_psum_bounds(faults, CENTER_K as int);
            }
            let p = pos[k];
            pos[k] = p - kzero;
            k += 1;
        }

        Stackings { shift_i, shift_j, pos }
    }
}

} // verus!
