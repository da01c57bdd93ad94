//! Discrete lattice coordinates, fixed-point continuous positions, and the
//! total order on coordinates used by the sorted coordinate sets.

use vstd::prelude::*;
use crate::params::{CENTER_I, CENTER_J, CENTER_K};

verus! {

/// The conventional origin of the simulation volume.
pub open spec fn center_ijk() -> IJK {
    IJK { i: CENTER_I, j: CENTER_J, k: CENTER_K }
}

/// Runtime value of the central coordinate.
pub fn center() -> (r: IJK)
    ensures
        r == center_ijk(),
{
    IJK { i: CENTER_I, j: CENTER_J, k: CENTER_K }
}

/// A discrete lattice site address.
#[derive(Copy, Clone, Debug, PartialEq, Eq, Structural, Hash)]
pub struct IJK {
    pub i: u16,
    pub j: u16,
    pub k: u16,
}

/// A continuous position in fixed-point units of `diameter / SCALE`.
#[derive(Copy, Clone, Debug, PartialEq, Eq, Structural)]
pub struct XYZ {
    pub x: i64,
    pub y: i64,
    pub z: i64,
}

/// Injective numeric key giving the lexicographic (i, j, k) order.
pub open spec fn key_of(c: IJK) -> int {
    c.i * 0x1_0000_0000 + c.j * 0x1_0000 + c.k
}

pub proof fn lemma_key_injective(a: IJK, b: IJK)
    ensures
        key_of(a) == key_of(b) ==> a == b,
{
    if key_of(a) == key_of(b) {
        assert(a.j * 0x1_0000 + a.k < 0x1_0000_0000);
        assert(b.j * 0x1_0000 + b.k < 0x1_0000_0000);
        assert(a.i == b.i);
        assert(a.j == b.j);
        assert(a.k == b.k);
    }
}

/// Runtime value of the order key.
pub fn key_u64(c: IJK) -> (r: u64)
    ensures
        r == key_of(c),
{
    (c.i as u64) * 0x1_0000_0000 + (c.j as u64) * 0x1_0000 + (c.k as u64)
}

/// A coordinate sequence strictly increasing in `key_of` (hence duplicate-free).
pub open spec fn sorted(s: Seq<IJK>) -> bool {
    forall|m: int, n: int| 0 <= m < n < s.len() ==> key_of(s[m]) < key_of(s[n])
}

/// Two sorted coordinate sequences with the same members are the same sequence.
pub proof fn lemma_sorted_unique(s1: Seq<IJK>, s2: Seq<IJK>)
    requires
        sorted(s1),
        sorted(s2),
        forall|c: IJK| s1.contains(c) <==> s2.contains(c),
    ensures
        s1 == s2,
    decreases s1.len(),
{
    if s1.len() == 0 {
        if s2.len() > 0 {
            assert(s2.contains(s2[0]));
            assert(false);
        }
        assert(s1 =~= s2);
    } else {
        assert(s1.contains(s1[0]));
        assert(s2.len() > 0) by {
            assert(s2.contains(s1[0]));
        }
        // The head of each is its unique minimum, so the heads agree.
        let h1 = s1[0];
        let h2 = s2[0];
        assert(s2.contains(h1));
        assert(s1.contains(h2));
        let n1 = choose|n: int| 0 <= n < s2.len() && s2[n] == h1;
        let n2 = choose|n: int| 0 <= n < s1.len() && s1[n] == h2;
        assert(key_of(h1) >= key_of(h2));
        assert(key_of(h2) >= key_of(h1));
        lemma_key_injective(h1, h2);
        let t1 = s1.subrange(1, s1.len() as int);
        let t2 = s2.subrange(1, s2.len() as int);
        assert forall|c: IJK| t1.contains(c) implies t2.contains(c) by {
            let n = choose|n: int| 0 <= n < t1.len() && t1[n] == c;
            assert(s1[n + 1] == c);
            assert(s1.contains(c));
            assert(s2.contains(c));
            let m = choose|m: int| 0 <= m < s2.len() && s2[m] == c;
            assert(key_of(c) > key_of(h1));
            assert(m != 0);
            assert(t2[m - 1] == c);
        }
        assert forall|c: IJK| t2.contains(c) implies t1.contains(c) by {
            let n = choose|n: int| 0 <= n < t2.len() && t2[n] == c;
            assert(s2[n + 1] == c);
            assert(s2.contains(c));
            assert(s1.contains(c));
            let m = choose|m: int| 0 <= m < s1.len() && s1[m] == c;
            assert(key_of(c) > key_of(h2));
            assert(m != 0);
            assert(t1[m - 1] == c);
        }
        lemma_sorted_unique(t1, t2);
        assert(s1.len() == s2.len());
        assert forall|n: int| 0 <= n < s1.len() implies s1[n] == s2[n] by {
            if n > 0 {
                assert(t1[n - 1] == s1[n]);
                assert(t2[n - 1] == s2[n]);
            }
        }
        assert(s1 =~= s2);
    }
}

} // verus!
