//! Storage back-end of the growth engine: a bit-packed dense volumetric site
//! store (`Bulk`), an ordered coordinate set (`SurfaceAtoms`), and the
//! coordination-keyed family of vacancy buckets (`Vacancies`).

use vstd::prelude::*;
use crate::coords::{IJK, key_of, key_u64, sorted, lemma_key_injective};
use crate::params::{MAX_I, MAX_J, MAX_K, CENTER_I, CENTER_J, CENTER_K, DIV, WORDS_K, VAC_LISTS, ROW_WORDS, TOTAL_WORDS, lemma_volume_products};

verus! {

/// The state of one lattice site.
pub enum Atom {
    Empty,
    Gold,
    Dirt,
}

/// The 2-bit code a site state is stored as.
pub open spec fn atom_code(atom: Atom) -> u8 {
    match atom {
        Atom::Empty => 0u8,
        Atom::Gold => 1u8,
        Atom::Dirt => 2u8,
    }
}

/// The coordinate addresses a site of the bounded volume.
pub open spec fn in_bulk(c: IJK) -> bool {
    c.i < MAX_I && c.j < MAX_J && c.k < MAX_K
}

/// The 2-bit field of layer `k` within its packed word.
pub open spec fn extract_site(word: u8, k: int) -> u8 {
    (word >> (((k % 4) * 2) as u8)) & 3u8
}

proof fn lemma_extract_zero(s: u8)
    by (bit_vector)
    requires
        s < 8,
    ensures
        ((0u8 >> s) & 3u8) == 0u8,
{
}

/// Reading a 2-bit field back from a word after writing one: the written
/// field holds the new value, every other field is unchanged.
proof fn lemma_pack(word: u8, s: u8, t: u8, v: u8)
    by (bit_vector)
    requires
        s < 8,
        t < 8,
        s % 2 == 0,
        t % 2 == 0,
        v < 4,
    ensures
        s == t ==> ((((word & !(3u8 << s)) | (v << s)) >> t) & 3u8) == v,
        s != t ==> ((((word & !(3u8 << s)) | (v << s)) >> t) & 3u8) == ((word >> t) & 3u8),
{
}

/// Dense, bit-packed store of the 2-bit state of every addressable site,
/// with the running occupied count and the monotone bounding box.
pub struct Bulk {
    pub storage: Vec<u8>,
    pub unit: u8,
    pub number_of_atoms: usize,
    pub i_min: u16,
    pub i_max: u16,
    pub j_min: u16,
    pub j_max: u16,
    pub k_min: u16,
    pub k_max: u16,
}

impl Bulk {
    /// Index of the word that holds site `c`.
    pub open spec fn flat_index(c: IJK) -> int {
        (c.i * MAX_J + c.j) * WORDS_K + (c.k as int) / (DIV as int)
    }

    /// The 2-bit state code of site `c` (0 outside the volume).
    pub open spec fn site(self, c: IJK) -> u8 {
        if in_bulk(c) {
            extract_site(self.storage@[Self::flat_index(c)], c.k as int)
        } else {
            0u8
        }
    }

    pub open spec fn wf(self) -> bool {
        &&& self.storage@.len() == MAX_I * MAX_J * WORDS_K
        &&& self.unit == 3u8
    }

    /// The state of the freshly zeroed store: everything empty, counters
    /// reset, the bounding box collapsed onto the center.
    pub open spec fn is_blank(self) -> bool {
        &&& forall|c: IJK| self.site(c) == 0
        &&& self.number_of_atoms == 0
        &&& self.i_min == CENTER_I && self.i_max == CENTER_I
        &&& self.j_min == CENTER_J && self.j_max == CENTER_J
        &&& self.k_min == CENTER_K && self.k_max == CENTER_K
    }

    /// Mixed-radix form and range of the word index, over the volume products
    /// of `params`.
    proof fn lemma_flat_value(c: IJK)
        requires
            in_bulk(c),
        ensures
            Self::flat_index(c) == c.i * ROW_WORDS + c.j * WORDS_K + (c.k as int) / (DIV as int),
            0 <= (c.k as int) / (DIV as int) < WORDS_K,
            0 <= c.j * WORDS_K + (c.k as int) / (DIV as int) < ROW_WORDS,
            0 <= Self::flat_index(c) < TOTAL_WORDS,
            MAX_I * MAX_J * WORDS_K == TOTAL_WORDS,
    {
        lemma_volume_products();
        assert(MAX_I * MAX_J * WORDS_K == MAX_I * (MAX_J * WORDS_K)) by (nonlinear_arith);
        assert((c.i * MAX_J + c.j) * WORDS_K == c.i * (MAX_J * WORDS_K) + c.j * WORDS_K)
            by (nonlinear_arith);
        assert(0 <= (c.k as int) / (DIV as int) < WORDS_K);
        assert(0 <= c.j * WORDS_K <= (MAX_J - 1) * WORDS_K) by (nonlinear_arith)
            requires
                0 <= c.j <= MAX_J - 1,
                WORDS_K >= 1,
        ;
        assert((MAX_J - 1) * WORDS_K + WORDS_K == MAX_J * WORDS_K) by (nonlinear_arith);
        assert(0 <= c.i * ROW_WORDS <= (MAX_I - 1) * ROW_WORDS) by (nonlinear_arith)
            requires
                0 <= c.i <= MAX_I - 1,
                ROW_WORDS >= 1,
        ;
        assert((MAX_I - 1) * ROW_WORDS + ROW_WORDS == MAX_I * ROW_WORDS) by (nonlinear_arith);
        assert(MAX_I * ROW_WORDS == TOTAL_WORDS) by (nonlinear_arith)
            requires
                MAX_J * WORDS_K == ROW_WORDS,
                MAX_I * (MAX_J * WORDS_K) == TOTAL_WORDS,
        ;
    }

    proof fn lemma_flat_injective(c1: IJK, c2: IJK)
        requires
            in_bulk(c1),
            in_bulk(c2),
            Self::flat_index(c1) == Self::flat_index(c2),
        ensures
            c1.i == c2.i,
            c1.j == c2.j,
            c1.k / 4 == c2.k / 4,
    {
        Self::lemma_flat_value(c1);
        Self::lemma_flat_value(c2);
        let r1 = c1.j * WORDS_K + (c1.k as int) / (DIV as int);
        let r2 = c2.j * WORDS_K + (c2.k as int) / (DIV as int);
        assert(c1.i == c2.i) by (nonlinear_arith)
            requires
                c1.i * ROW_WORDS + r1 == c2.i * ROW_WORDS + r2,
                0 <= r1 < ROW_WORDS,
                0 <= r2 < ROW_WORDS,
                ROW_WORDS >= 1,
        ;
        assert(c1.j == c2.j) by (nonlinear_arith)
            requires
                c1.j * WORDS_K + (c1.k as int) / (DIV as int) == c2.j * WORDS_K + (
                c2.k as int) / (DIV as int),
                0 <= (c1.k as int) / (DIV as int) < WORDS_K,
                0 <= (c2.k as int) / (DIV as int) < WORDS_K,
                WORDS_K >= 1,
        ;
        assert((c1.k as int) / (DIV as int) == (c1.k as int) / 4);
        assert((c2.k as int) / (DIV as int) == (c2.k as int) / 4);
    }

    fn blank_storage() -> (r: Vec<u8>)
        ensures
            r@.len() == MAX_I * MAX_J * WORDS_K,
            forall|n: int| 0 <= n < r@.len() ==> r@[n] == 0u8,
    {
        vec![0u8; MAX_I as usize * MAX_J as usize * WORDS_K as usize]
    }

    proof fn lemma_blank_sites(self)
        requires
            self.wf(),
            forall|n: int| 0 <= n < self.storage@.len() ==> self.storage@[n] == 0u8,
        ensures
            forall|c: IJK| self.site(c) == 0,
    {
        assert forall|c: IJK| self.site(c) == 0 by {
            if in_bulk(c) {
                Self::lemma_flat_value(c);
                let s = ((c.k as int % 4) * 2) as u8;
                lemma_extract_zero(s);
            }
        }
    }

    /// Word index of site `ijk` in the flat storage vector.
    fn word_index_of(ijk: IJK) -> (idx: usize)
        requires
            in_bulk(ijk),
        ensures
            idx == Self::flat_index(ijk),
            idx < MAX_I * MAX_J * WORDS_K,
            idx < TOTAL_WORDS,
    {
        proof {
            Self::lemma_flat_value(ijk);
            assert(0 <= ijk.i * MAX_J <= (MAX_I - 1) * MAX_J) by (nonlinear_arith)
                requires
                    0 <= ijk.i <= MAX_I - 1,
                    MAX_J >= 1,
            ;
            assert((MAX_I - 1) * MAX_J + MAX_J == MAX_I * MAX_J) by (nonlinear_arith);
            assert(MAX_I * MAX_J <= TOTAL_WORDS) by (nonlinear_arith)
                requires
                    MAX_I * MAX_J * WORDS_K == TOTAL_WORDS,
                    MAX_I >= 0,
                    MAX_J >= 0,
                    WORDS_K >= 1,
            ;
            assert(0 <= (ijk.i * MAX_J + ijk.j) * WORDS_K <= Self::flat_index(ijk));
        }
        (ijk.i as usize * MAX_J as usize + ijk.j as usize) * WORDS_K as usize + (ijk.k
            / DIV) as usize
    }

    /// Allocate the zeroed store at the full volume.
    pub fn new() -> (r: Self)
        ensures
            r.wf(),
            r.is_blank(),
    {
        let r = Bulk {
            storage: Self::blank_storage(),
            unit: 3u8,
            number_of_atoms: 0,
            i_min: CENTER_I,
            i_max: CENTER_I,
            j_min: CENTER_J,
            j_max: CENTER_J,
            k_min: CENTER_K,
            k_max: CENTER_K,
        };
        proof {
            r.lemma_blank_sites();
        }
        r
    }

    /// Re-zero the store and reset counters and bounding box.
    pub fn clear(&mut self)
        ensures
            final(self).wf(),
            final(self).is_blank(),
    {
        self.storage = Self::blank_storage();
        self.unit = 3u8;
        self.number_of_atoms = 0;
        self.i_min = CENTER_I;
        self.i_max = CENTER_I;
        self.j_min = CENTER_J;
        self.j_max = CENTER_J;
        self.k_min = CENTER_K;
        self.k_max = CENTER_K;
        proof {
            self.lemma_blank_sites();
        }
    }

    /// Store `atom` at site `ijk`; a non-empty state also bumps the occupied
    /// count and extends the bounding box.
    pub fn set(&mut self, ijk: IJK, atom: Atom)
        requires
            old(self).wf(),
            in_bulk(ijk),
            atom_code(atom) != 0 ==> old(self).site(ijk) == 0,
            atom_code(atom) != 0 ==> old(self).number_of_atoms < usize::MAX,
        ensures
            final(self).wf(),
            final(self).site(ijk) == atom_code(atom),
            forall|c: IJK| c != ijk ==> final(self).site(c) == old(self).site(c),
            atom_code(atom) != 0 ==> {
                &&& final(self).number_of_atoms == old(self).number_of_atoms + 1
                &&& final(self).i_min == if ijk.i < old(self).i_min {
                    ijk.i
                } else {
                    old(self).i_min
                }
                &&& final(self).i_max == if ijk.i > old(self).i_max {
                    ijk.i
                } else {
                    old(self).i_max
                }
                &&& final(self).j_min == if ijk.j < old(self).j_min {
                    ijk.j
                } else {
                    old(self).j_min
                }
                &&& final(self).j_max == if ijk.j > old(self).j_max {
                    ijk.j
                } else {
                    old(self).j_max
                }
                &&& final(self).k_min == if ijk.k < old(self).k_min {
                    ijk.k
                } else {
                    old(self).k_min
                }
                &&& final(self).k_max == if ijk.k > old(self).k_max {
                    ijk.k
                } else {
                    old(self).k_max
                }
            },
            atom_code(atom) == 0 ==> {
                &&& final(self).number_of_atoms == old(self).number_of_atoms
                &&& final(self).i_min == old(self).i_min && final(self).i_max == old(self).i_max
                &&& final(self).j_min == old(self).j_min && final(self).j_max == old(self).j_max
                &&& final(self).k_min == old(self).k_min && final(self).k_max == old(self).k_max
            },
    {
        let value: u8 = match atom {
            Atom::Empty => 0,
            Atom::Gold => 1,
            Atom::Dirt => 2,
        };
        let idx: usize = Self::word_index_of(ijk);
        let pos: u8 = (ijk.k % DIV) as u8;
        let register = self.storage[idx];
        let change = value << (2 * pos);
        let bitmask = !(self.unit << (2 * pos));
        let updated = (register & bitmask) | change;
        self.storage[idx] = updated;
        proof {
            let s: u8 = (2 * pos) as u8;
            assert(updated == ((register & !(3u8 << s)) | (value << s)));
            lemma_pack(register, s, s, value);
            assert(extract_site(updated, ijk.k as int) == value);
            assert forall|c: IJK| c != ijk implies self.site(c) == old(self).site(c) by {
                if in_bulk(c) {
                    Self::lemma_flat_value(c);
                    if Self::flat_index(c) == Self::flat_index(ijk) {
                        Self::lemma_flat_injective(c, ijk);
                        let t: u8 = ((c.k as int % 4) * 2) as u8;
                        assert(c.k != ijk.k);
                        assert(c.k as int % 4 != ijk.k as int % 4);
                        lemma_pack(register, s, t, value);
                    }
                }
            }
        }
        if value > 0 {
            self.number_of_atoms = self.number_of_atoms + 1;
            if ijk.i < self.i_min {
                self.i_min = ijk.i
            }
            if ijk.i > self.i_max {
                self.i_max = ijk.i
            }
            if ijk.j < self.j_min {
                self.j_min = ijk.j
            }
            if ijk.j > self.j_max {
                self.j_max = ijk.j
            }
            if ijk.k < self.k_min {
                self.k_min = ijk.k
            }
            if ijk.k > self.k_max {
                self.k_max = ijk.k
            }
        }
    }

    /// Ask whether site `ijk` currently holds `atom`.
    pub fn get(&self, ijk: IJK, atom: Atom) -> (r: bool)
        requires
            self.wf(),
            in_bulk(ijk),
        ensures
            r == (self.site(ijk) == atom_code(atom)),
    {
        let idx: usize = Self::word_index_of(ijk);
        let word = self.storage[idx];
        let pos: u8 = (ijk.k % DIV) as u8;
        let value = (word >> (2 * pos)) & self.unit;
        proof {
            assert(value == extract_site(word, ijk.k as int));
        }
        match atom {
            Atom::Empty => value == 0,
            Atom::Gold => value == 1,
            Atom::Dirt => value == 2,
        }
    }
}

/// An ordered, duplicate-free set of lattice coordinates, kept as a vector
/// sorted by the lexicographic coordinate key.
pub struct SurfaceAtoms {
    pub list: Vec<IJK>,
}

impl SurfaceAtoms {
    pub open spec fn wf(self) -> bool {
        sorted(self.list@)
    }

    pub open spec fn has(self, c: IJK) -> bool {
        self.list@.contains(c)
    }

    pub fn new() -> (r: Self)
        ensures
            r.wf(),
            r.list@.len() == 0,
    {
        SurfaceAtoms { list: Vec::new() }
    }

    /// First position whose key is not below `c`'s.
    #[verifier::loop_isolation(false)]
    fn position_of(&self, c: IJK) -> (idx: usize)
        requires
            self.wf(),
        ensures
            idx <= self.list@.len(),
            forall|m: int| 0 <= m < idx ==> key_of(self.list@[m]) < key_of(c),
            idx < self.list@.len() ==> key_of(self.list@[idx as int]) >= key_of(c),
    {
        let kc = key_u64(c);
        let mut idx: usize = 0;
        while idx < self.list.len()
            invariant
                idx <= self.list@.len(),
                forall|m: int| 0 <= m < idx ==> key_of(self.list@[m]) < key_of(c),
            decreases self.list@.len() - idx,
        {
            if key_u64(self.list[idx]) >= kc {
                return idx;
            }
            idx += 1;
        }
        idx
    }

    /// Insert `ijk`; no effect if it is already present.
    #[verifier::loop_isolation(false)]
    pub fn add(&mut self, ijk: IJK)
        requires
            old(self).wf(),
        ensures
            final(self).wf(),
            forall|c: IJK| final(self).has(c) <==> (old(self).has(c) || c == ijk),
            old(self).has(ijk) ==> final(self).list@ == old(self).list@,
            !old(self).has(ijk) ==> final(self).list@.len() == old(self).list@.len() + 1,
    {
        let ghost pre = self.list@;
        let idx = self.position_of(ijk);
        if idx < self.list.len() {
            let e = self.list[idx];
            if e == ijk {
                proof {
                    assert(pre.contains(ijk));
                }
                return ;
            }
            proof {
                lemma_key_injective(e, ijk);
            }
        }
        self.list.insert(idx, ijk);
        proof {
            let post = self.list@;
            assert(post == pre.insert(idx as int, ijk));
            // Strictly above the new element from `idx` on.
            assert forall|m: int| idx <= m < pre.len() implies key_of(pre[m]) > key_of(ijk) by {
                if m > idx {
                    assert(key_of(pre[idx as int]) < key_of(pre[m]));
                }
            }
            assert forall|m: int, n: int| 0 <= m < n < post.len() implies key_of(post[m]) < key_of(
                post[n],
            ) by {
                if m < idx && n > idx {
                    assert(post[m] == pre[m] && post[n] == pre[n - 1]);
                } else if m == idx && n > idx {
                    assert(post[n] == pre[n - 1]);
                } else if m < idx && n == idx {
                    assert(post[m] == pre[m]);
                }
            }
            // It was not there before: everything below `idx` has a smaller
            // key, everything from `idx` a larger one.
            assert(!pre.contains(ijk)) by {
                if pre.contains(ijk) {
                    let n = choose|n: int| 0 <= n < pre.len() && pre[n] == ijk;
                    assert(false);
                }
            }
            assert forall|c: IJK| final(self).has(c) <==> (pre.contains(c) || c == ijk) by {
                if post.contains(c) {
                    let n = choose|n: int| 0 <= n < post.len() && post[n] == c;
                    if n < idx {
                        assert(pre[n] == c);
                        assert(pre.contains(c));
                    } else if n > idx {
                        assert(pre[n - 1] == c);
                        assert(pre.contains(c));
                    }
                }
                if pre.contains(c) {
                    let n = choose|n: int| 0 <= n < pre.len() && pre[n] == c;
                    if n < idx {
                        assert(post[n] == c);
                    } else {
                        assert(post[n + 1] == c);
                    }
                    assert(post.contains(c));
                }
                if c == ijk {
                    assert(post[idx as int] == ijk);
                    assert(post.contains(c));
                }
            }
        }
    }

    /// Remove `ijk`; no effect if it is absent.
    #[verifier::loop_isolation(false)]
    pub fn remove(&mut self, ijk: IJK)
        requires
            old(self).wf(),
        ensures
            final(self).wf(),
            forall|c: IJK| final(self).has(c) <==> (old(self).has(c) && c != ijk),
            !old(self).has(ijk) ==> final(self).list@ == old(self).list@,
            old(self).has(ijk) ==> final(self).list@.len() + 1 == old(self).list@.len(),
    {
        let ghost pre = self.list@;
        let mut idx: usize = 0;
        while idx < self.list.len()
            invariant
                idx <= pre.len(),
                self.list@ == pre,
                forall|m: int| 0 <= m < idx ==> pre[m] != ijk,
            decreases pre.len() - idx,
        {
            let e = self.list[idx];
            if e == ijk {
                self.list.remove(idx);
                proof {
                    let post = self.list@;
                    assert(post == pre.remove(idx as int));
                    // `ijk` occurs nowhere else: the keys are strict.
                    assert forall|m: int| 0 <= m < pre.len() && m != idx implies pre[m] != ijk by {
                        if m < idx {
                            assert(key_of(pre[m]) < key_of(pre[idx as int]));
                        } else {
                            assert(key_of(pre[idx as int]) < key_of(pre[m]));
                        }
                    }
                    assert forall|m: int, n: int|
                        0 <= m < n < post.len() implies key_of(post[m]) < key_of(post[n]) by {
                        if n < idx {
                        } else if m < idx {
                            assert(post[n] == pre[n + 1]);
                        } else {
                            assert(post[m] == pre[m + 1] && post[n] == pre[n + 1]);
                        }
                    }
                    assert forall|c: IJK| final(self).has(c) <==> (pre.contains(c) && c != ijk) by {
                        if post.contains(c) {
                            let n = choose|n: int| 0 <= n < post.len() && post[n] == c;
                            if n < idx {
                                assert(pre[n] == c);
                            } else {
                                assert(pre[n + 1] == c);
                            }
                            assert(pre.contains(c));
                        }
                        if pre.contains(c) && c != ijk {
                            let n = choose|n: int| 0 <= n < pre.len() && pre[n] == c;
                            if n < idx {
                                assert(post[n] == c);
                            } else {
                                assert(n != idx);
                                assert(post[n - 1] == c);
                            }
                            assert(post.contains(c));
                        }
                        assert(pre[idx as int] == ijk);
                    }
                }
                return ;
            }
            idx += 1;
        }
        proof {
            assert(!pre.contains(ijk)) by {
                if pre.contains(ijk) {
                    let n = choose|n: int| 0 <= n < pre.len() && pre[n] == ijk;
                    assert(false);
                }
            }
        }
    }

    /// Ask whether `ijk` is a member.
    #[verifier::loop_isolation(false)]
    pub fn contains(&self, ijk: IJK) -> (r: bool)
        requires
            self.wf(),
        ensures
            r == self.has(ijk),
    {
        let mut idx: usize = 0;
        while idx < self.list.len()
            invariant
                idx <= self.list@.len(),
                forall|m: int| 0 <= m < idx ==> self.list@[m] != ijk,
            decreases self.list@.len() - idx,
        {
            let e = self.list[idx];
            if e == ijk {
                return true;
            }
            idx += 1;
        }
        proof {
            if self.list@.contains(ijk) {
                let n = choose|n: int| 0 <= n < self.list@.len() && self.list@[n] == ijk;
                assert(false);
            }
        }
        false
    }

    /// Number of members.
    pub fn len(&self) -> (r: usize)
        ensures
            r == self.list@.len(),
    {
        self.list.len()
    }
}

/// The vacancy index: one ordered coordinate set per tracked coordination
/// number (bucket `b` stands for coordination `b + 1`).
pub struct Vacancies {
    pub list: Vec<SurfaceAtoms>,
}

/// Index of the first bucket at or after `from` that holds `c` (the number
/// of buckets when none does).
pub open spec fn first_bucket_with(v: Vacancies, c: IJK, from: int) -> int
    decreases VAC_LISTS - from,
{
    if from < 0 || from >= VAC_LISTS {
        VAC_LISTS as int
    } else if v.list@[from].has(c) {
        from
    } else {
        first_bucket_with(v, c, from + 1)
    }
}

impl Vacancies {
    pub open spec fn wf(self) -> bool {
        &&& self.list@.len() == VAC_LISTS
        &&& forall|b: int| 0 <= b < VAC_LISTS ==> self.list@[b].wf()
    }

    pub open spec fn has(self, b: int, c: IJK) -> bool {
        self.list@[b].has(c)
    }

    #[verifier::loop_isolation(false)]
    pub fn new() -> (r: Self)
        ensures
            r.wf(),
            forall|b: int| 0 <= b < VAC_LISTS ==> r.list@[b].list@.len() == 0,
    {
        let mut list: Vec<SurfaceAtoms> = Vec::new();
        let mut b: usize = 0;
        while b < VAC_LISTS
            invariant
                list@.len() == b,
                b <= VAC_LISTS,
                forall|m: int| 0 <= m < b ==> list@[m].wf() && list@[m].list@.len() == 0,
            decreases VAC_LISTS - b,
        {
            list.push(SurfaceAtoms::new());
            b += 1;
        }
        Vacancies { list }
    }

    /// Walk the buckets from `index` on and remove `ijk` from the first one
    /// that holds it; later buckets are not touched.
    #[verifier::loop_isolation(false)]
    pub fn recursive_remove(&mut self, ijk: IJK, index: usize)
        requires
            old(self).wf(),
            index <= VAC_LISTS,
        ensures
            final(self).wf(),
            forall|b: int|
                0 <= b < VAC_LISTS && b != first_bucket_with(*old(self), ijk, index as int)
                    ==> final(self).list@[b] == old(self).list@[b],
            first_bucket_with(*old(self), ijk, index as int) < VAC_LISTS ==> {
                let b0 = first_bucket_with(*old(self), ijk, index as int);
                forall|c: IJK|
                    final(self).has(b0, c) <==> (old(self).has(b0, c) && c != ijk)
            },
    {
        let ghost pre = *old(self);
        let mut b: usize = index;
        while b < VAC_LISTS
            invariant
                index <= b <= VAC_LISTS,
                *self == pre,
                forall|m: int| index <= m < b ==> !pre.has(m, ijk),
            decreases VAC_LISTS - b,
        {
            if self.list[b].contains(ijk) {
                proof {
                    lemma_first_bucket_skip(pre, ijk, index as int, b as int);
                }
                self.list[b].remove(ijk);
                return ;
            }
            b += 1;
        }
        proof {
            lemma_first_bucket_skip(pre, ijk, index as int, VAC_LISTS as int);
        }
    }
}

/// When some bucket at or after `from` holds `c`, the first one does, and no
/// earlier one.
pub proof fn lemma_first_bucket_found(v: Vacancies, c: IJK, from: int)
    requires
        0 <= from <= VAC_LISTS,
    ensures
        first_bucket_with(v, c, from) < VAC_LISTS ==> v.has(first_bucket_with(v, c, from), c),
        from <= first_bucket_with(v, c, from) <= VAC_LISTS,
    decreases VAC_LISTS - from,
{
    if from < VAC_LISTS && !v.list@[from].has(c) {
        lemma_first_bucket_found(v, c, from + 1);
    }
}

/// No bucket between `from` and the first hit holds `c`.
pub proof fn lemma_first_bucket_min(v: Vacancies, c: IJK, from: int, b: int)
    requires
        0 <= from <= b < VAC_LISTS,
        v.has(b, c),
    ensures
        first_bucket_with(v, c, from) <= b,
    decreases b - from,
{
    if from < b && !v.list@[from].has(c) {
        lemma_first_bucket_min(v, c, from + 1, b);
    }
}

/// `first_bucket_with` jumps over a run of buckets that do not hold `c`.
proof fn lemma_first_bucket_skip(v: Vacancies, c: IJK, from: int, b: int)
    requires
        0 <= from <= b <= VAC_LISTS,
        forall|m: int| from <= m < b ==> !v.has(m, c),
    ensures
        first_bucket_with(v, c, from) == if b < VAC_LISTS && v.has(b, c) {
            b
        } else {
            first_bucket_with(v, c, b)
        },
    decreases b - from,
{
    if from < b {
        assert(!v.has(from, c));
        lemma_first_bucket_skip(v, c, from + 1, b);
    } else {
        if b < VAC_LISTS && v.has(b, c) {
            assert(first_bucket_with(v, c, b) == b);
        }
    }
}

} // verus!
