//! The growth engine: single-site placement with incremental vacancy-index
//! maintenance, full index and surface rebuilds, weighted random site
//! selection, and the batch placement fast path.

use vstd::prelude::*;
use crate::coords::{IJK, center, center_ijk};
use crate::params::{MAX_I, MAX_J, MAX_K, CENTER_I, CENTER_J, CENTER_K, VAC_LISTS, SCALE, POS_LIMIT};
use crate::stacking::Stackings;
use crate::lattice::{Lattice, nb, inner, xyz_of, lemma_nb_range, lemma_nb_distinct, lemma_nb_symm, sym_l};
use crate::storage::{Atom, Bulk, SurfaceAtoms, Vacancies, atom_code, first_bucket_with};
use crate::rng::rand_below;

verus! {

/// Continuous-position bounding extrema of the grown crystal.
#[derive(Copy, Clone, Debug, PartialEq, Eq, Structural)]
pub struct Extrema {
    pub x_min: i64,
    pub x_max: i64,
    pub y_min: i64,
    pub y_max: i64,
    pub z_min: i64,
    pub z_max: i64,
}

/// The coordinates at which each continuous extremum was reached.
#[derive(Copy, Clone, Debug, PartialEq, Eq, Structural)]
pub struct ExtremaCoordinates {
    pub x_min: IJK,
    pub x_max: IJK,
    pub y_min: IJK,
    pub y_max: IJK,
    pub z_min: IJK,
    pub z_max: IJK,
}

/// A site holds a deposited atom.
pub open spec fn gold_at(bulk: Bulk, c: IJK) -> bool {
    bulk.site(c) == 1
}

/// Number of deposited atoms among the first `l` neighbors of `c`.
pub open spec fn count_gold_nbrs(st: Stackings, bulk: Bulk, c: IJK, l: int) -> int
    decreases l,
{
    if l <= 0 {
        0
    } else {
        count_gold_nbrs(st, bulk, c, l - 1) + if gold_at(bulk, nb(st, c, l - 1)) {
            1int
        } else {
            0int
        }
    }
}

/// Coordination number: deposited atoms among the twelve neighbors.
pub open spec fn coordination(st: Stackings, bulk: Bulk, c: IJK) -> int {
    count_gold_nbrs(st, bulk, c, 12)
}

/// `a` is one of the twelve neighbors of `c`.
pub open spec fn is_nb(st: Stackings, c: IJK, a: IJK) -> bool {
    exists|m: int| 0 <= m < 12 && nb(st, c, m) == a
}

/// Sites eligible as vacancies: inside the lateral and top interior margin
/// and strictly above the substrate plane.
pub open spec fn margin_ok(sub: u16, c: IJK) -> bool {
    &&& 1 < c.i && c.i < MAX_I - 2
    &&& 1 < c.j && c.j < MAX_J - 2
    &&& sub < c.k && c.k < MAX_K - 2
}

/// The interior region in which atoms may be placed: two sites of slack to
/// every volume face, so that neighbors of neighbors stay addressable.
pub open spec fn interior2(c: IJK) -> bool {
    &&& 2 <= c.i <= MAX_I - 3
    &&& 2 <= c.j <= MAX_J - 3
    &&& 2 <= c.k <= MAX_K - 3
}

/// The vacancy bucket `b` may hold a site of coordination `n`: exactly the
/// matching bucket, except that the top bucket keeps sites whose coordination
/// has grown past the tracked range.
pub open spec fn cls_ok(n: int, b: int) -> bool {
    (b <= 7 && n == b + 1) || (b == 7 && n >= 9)
}

/// The probability-weight rows that growth cycles through, biasing deposition
/// toward higher coordination numbers to different degrees.
pub open spec fn spec_prob_row(num: int) -> Seq<u64> {
    if num == 0 {
        seq![0u64, 0, 1, 1_000, 100_000, 1_000_000, 10_000_000, 100_000_000, 1_000_000_000]
    } else if num == 1 {
        seq![
            0u64,
            0,
            1,
            1_000,
            1_000_000,
            1_000_000_000,
            10_000_000_000,
            100_000_000_000,
            1_000_000_000_000,
        ]
    } else if num == 2 {
        seq![
            0u64,
            0,
            1,
            10_000,
            100_000_000,
            1_000_000_000_000,
            1_000_000_000_000,
            1_000_000_000_000,
            1_000_000_000_000,
        ]
    } else {
        seq![
            0u64,
            0,
            1,
            100_000,
            1_000_000_000,
            1_000_000_000_000,
            1_000_000_000_000,
            1_000_000_000_000,
            1_000_000_000_000,
        ]
    }
}

/// Floor of the decimal logarithm, with -1 for zero (the exponent display
/// value of a weight).
pub open spec fn log10_floor(n: int) -> int
    decreases n,
{
    if n <= 0 {
        -1
    } else if n < 10 {
        0
    } else {
        1 + log10_floor(n / 10)
    }
}

/// The growth engine over one crystal.
pub struct Crystal {
    pub lattice: Lattice,
    pub prob_list_num: usize,
    pub prob_list: [u64; 9],
    pub prob_list_log: Vec<i8>,
    pub bulk: Bulk,
    pub surface: SurfaceAtoms,
    pub dirt: SurfaceAtoms,
    pub vacancies: Vacancies,
    pub extrema: Extrema,
    pub extrema_ijk: ExtremaCoordinates,
    pub substrate_pos: u16,
}

impl Crystal {
    pub open spec fn coord_of(self, c: IJK) -> int {
        coordination(self.lattice.stacking, self.bulk, c)
    }

    pub open spec fn empty_at(self, c: IJK) -> bool {
        self.bulk.site(c) == 0
    }

    pub open spec fn gold(self, c: IJK) -> bool {
        self.bulk.site(c) == 1
    }

    pub open spec fn vac_has(self, b: int, c: IJK) -> bool {
        self.vacancies.list@[b].has(c)
    }

    /// Structural well-formedness of the parts.
    pub open spec fn inv_base(self) -> bool {
        &&& self.lattice.wf()
        &&& self.bulk.wf()
        &&& self.surface.wf()
        &&& self.dirt.wf()
        &&& self.vacancies.wf()
        &&& 1 <= self.substrate_pos && self.substrate_pos <= MAX_K - 3
        &&& self.prob_list_num < 4
        &&& self.prob_list@ == spec_prob_row(self.prob_list_num as int)
        &&& self.prob_list_log@.len() == VAC_LISTS
        &&& forall|b: int|
            0 <= b < VAC_LISTS ==> self.prob_list_log@[b] == log10_floor(self.prob_list@[b] as int)
        &&& interior2(self.extrema_ijk.x_min) && interior2(self.extrema_ijk.x_max)
        &&& interior2(self.extrema_ijk.y_min) && interior2(self.extrema_ijk.y_max)
        &&& interior2(self.extrema_ijk.z_min) && interior2(self.extrema_ijk.z_max)
        &&& self.extrema.x_min == xyz_of(self.lattice.stacking, self.extrema_ijk.x_min).x
        &&& self.extrema.x_max == xyz_of(self.lattice.stacking, self.extrema_ijk.x_max).x
        &&& self.extrema.y_min == xyz_of(self.lattice.stacking, self.extrema_ijk.y_min).y
        &&& self.extrema.y_max == xyz_of(self.lattice.stacking, self.extrema_ijk.y_max).y
        &&& self.extrema.z_min == xyz_of(self.lattice.stacking, self.extrema_ijk.z_min).z
        &&& self.extrema.z_max == xyz_of(self.lattice.stacking, self.extrema_ijk.z_max).z
        &&& -POS_LIMIT <= self.extrema.x_min <= POS_LIMIT
        &&& -POS_LIMIT <= self.extrema.x_max <= POS_LIMIT
        &&& -POS_LIMIT <= self.extrema.y_min <= POS_LIMIT
        &&& -POS_LIMIT <= self.extrema.y_max <= POS_LIMIT
        &&& -POS_LIMIT <= self.extrema.z_min <= POS_LIMIT
        &&& -POS_LIMIT <= self.extrema.z_max <= POS_LIMIT
    }

    /// Every occupied site is interior, and the discrete bounding box is the
    /// exact fold of min/max over the center and the occupied sites.
    pub open spec fn inv_bulk(self) -> bool {
        &&& forall|c: IJK| self.bulk.site(c) != 0 ==> interior2(c)
        &&& forall|c: IJK|
            self.bulk.site(c) != 0 ==> self.bulk.i_min <= c.i <= self.bulk.i_max
                && self.bulk.j_min <= c.j <= self.bulk.j_max && self.bulk.k_min <= c.k
                <= self.bulk.k_max
        &&& 2 <= self.bulk.i_min <= MAX_I - 3 && 2 <= self.bulk.i_max <= MAX_I - 3
        &&& 2 <= self.bulk.j_min <= MAX_J - 3 && 2 <= self.bulk.j_max <= MAX_J - 3
        &&& 2 <= self.bulk.k_min <= MAX_K - 3 && 2 <= self.bulk.k_max <= MAX_K - 3
        &&& (self.bulk.i_min == CENTER_I || exists|c: IJK|
            self.bulk.site(c) != 0 && c.i == self.bulk.i_min)
        &&& (self.bulk.i_max == CENTER_I || exists|c: IJK|
            self.bulk.site(c) != 0 && c.i == self.bulk.i_max)
        &&& (self.bulk.j_min == CENTER_J || exists|c: IJK|
            self.bulk.site(c) != 0 && c.j == self.bulk.j_min)
        &&& (self.bulk.j_max == CENTER_J || exists|c: IJK|
            self.bulk.site(c) != 0 && c.j == self.bulk.j_max)
        &&& (self.bulk.k_min == CENTER_K || exists|c: IJK|
            self.bulk.site(c) != 0 && c.k == self.bulk.k_min)
        &&& (self.bulk.k_max == CENTER_K || exists|c: IJK|
            self.bulk.site(c) != 0 && c.k == self.bulk.k_max)
    }

    /// The vacancy partition: every bucket member is an empty margin site
    /// whose coordination matches its bucket; every empty margin site with
    /// tracked coordination is in its bucket; buckets are disjoint.
    pub open spec fn inv_vac(self) -> bool {
        &&& forall|b: int, c: IJK|
            0 <= b < VAC_LISTS && #[trigger] self.vac_has(b, c) ==> self.empty_at(c) && margin_ok(
                self.substrate_pos,
                c,
            ) && cls_ok(self.coord_of(c), b)
        &&& forall|c: IJK|
            self.empty_at(c) && margin_ok(self.substrate_pos, c) && 1 <= self.coord_of(c) <= 8
                ==> self.vac_has(#[trigger] self.coord_of(c) - 1, c)
        &&& forall|b1: int, b2: int, c: IJK|
            0 <= b1 < VAC_LISTS && 0 <= b2 < VAC_LISTS && b1 != b2 ==> !(#[trigger] self.vac_has(
                b1,
                c,
            ) && #[trigger] self.vac_has(b2, c))
    }

    /// The incrementally kept surface set: only deposited sites, and every
    /// exposed deposited site.
    pub open spec fn inv_surface(self) -> bool {
        &&& forall|c: IJK| #[trigger] self.surface.has(c) ==> self.gold(c)
        &&& forall|c: IJK| self.gold(c) && #[trigger] self.coord_of(c) < 12 ==> self.surface.has(c)
    }

    /// The contaminant set mirrors the contaminant sites exactly.
    pub open spec fn inv_dirt(self) -> bool {
        forall|c: IJK| #[trigger] self.dirt.has(c) <==> self.bulk.site(c) == 2
    }

    pub open spec fn inv(self) -> bool {
        self.inv_base() && self.inv_bulk() && self.inv_vac() && self.inv_surface()
            && self.inv_dirt()
    }

    /// The weight row currently selected.
    fn prob_row(num: usize) -> (r: [u64; 9])
        requires
            num < 4,
        ensures
            r@ == spec_prob_row(num as int),
    {
        let r: [u64; 9] = if num == 0 {
            [0u64, 0, 1, 1_000, 100_000, 1_000_000, 10_000_000, 100_000_000, 1_000_000_000]
        } else if num == 1 {
            [
                0u64,
                0,
                1,
                1_000,
                1_000_000,
                1_000_000_000,
                10_000_000_000,
                100_000_000_000,
                1_000_000_000_000,
            ]
        } else if num == 2 {
            [
                0u64,
                0,
                1,
                10_000,
                100_000_000,
                1_000_000_000_000,
                1_000_000_000_000,
                1_000_000_000_000,
                1_000_000_000_000,
            ]
        } else {
            [
                0u64,
                0,
                1,
                100_000,
                1_000_000_000,
                1_000_000_000_000,
                1_000_000_000_000,
                1_000_000_000_000,
                1_000_000_000_000,
            ]
        };
        proof {
            assert(r@ =~= spec_prob_row(num as int));
        }
        r
    }

    /// Decimal exponent of one weight (-1 for weight zero).
    #[verifier::loop_isolation(false)]
    fn log10_of(v: u64) -> (r: i8)
        ensures
            r == log10_floor(v as int),
    {
        if v == 0 {
            return -1;
        }
        let mut x = v;
        let mut r: i8 = 0;
        proof {
            lemma_log10_nonneg(v as int);
            lemma_log10_u64_bound(v as int);
        }
        while x >= 10
            invariant
                1 <= x <= v,
                0 <= r,
                log10_floor(v as int) == r + log10_floor(x as int),
                log10_floor(v as int) <= 19,
            decreases x,
        {
            proof {
                lemma_log10_nonneg(x as int / 10);
            }
            x = x / 10;
            r = r + 1;
        }
        r
    }

    /// The exponent display row of a weight row.
    #[verifier::loop_isolation(false)]
    fn log_row(row: &[u64; 9]) -> (r: Vec<i8>)
        ensures
            r@.len() == VAC_LISTS,
            forall|b: int| 0 <= b < VAC_LISTS ==> r@[b] == log10_floor(row@[b] as int),
    {
        let mut r: Vec<i8> = Vec::new();
        let mut b: usize = 0;
        while b < 9
            invariant
                b <= 9,
                r@.len() == b,
                forall|m: int| 0 <= m < b ==> r@[m] == log10_floor(row@[m] as int),
            decreases 9 - b,
        {
            r.push(Self::log10_of(row[b]));
            b += 1;
        }
        r
    }

    /// A fresh engine on the given lattice: empty volume, centered extrema,
    /// the default weight row, the substrate at the lowest layer.
    pub fn new(lattice: Lattice) -> (r: Self)
        requires
            lattice.wf(),
        ensures
            r.inv(),
            r.lattice == lattice,
            r.bulk.is_blank(),
            r.surface.list@.len() == 0,
            r.dirt.list@.len() == 0,
            forall|b: int| 0 <= b < VAC_LISTS ==> r.vacancies.list@[b].list@.len() == 0,
            r.substrate_pos == 1,
            r.prob_list_num == 2,
            r.extrema.x_min == 0 && r.extrema.x_max == 0,
            r.extrema.y_min == 0 && r.extrema.y_max == 0,
            r.extrema.z_min == 0 && r.extrema.z_max == 0,
            r.extrema_ijk.x_min == center_ijk() && r.extrema_ijk.x_max == center_ijk(),
            r.extrema_ijk.y_min == center_ijk() && r.extrema_ijk.y_max == center_ijk(),
            r.extrema_ijk.z_min == center_ijk() && r.extrema_ijk.z_max == center_ijk(),
    {
        let prob_list = Self::prob_row(2);
        let prob_list_log = Self::log_row(&prob_list);
        let c = center();
        let r = Crystal {
            lattice,
            prob_list_num: 2,
            prob_list,
            prob_list_log,
            bulk: Bulk::new(),
            surface: SurfaceAtoms::new(),
            dirt: SurfaceAtoms::new(),
            vacancies: Vacancies::new(),
            extrema: Extrema { x_min: 0, x_max: 0, y_min: 0, y_max: 0, z_min: 0, z_max: 0 },
            extrema_ijk: ExtremaCoordinates {
                x_min: c,
                x_max: c,
                y_min: c,
                y_max: c,
                z_min: c,
                z_max: c,
            },
            substrate_pos: 1,
        };
        proof {
            lemma_blank_coordination(r.lattice.stacking, r.bulk);
            crate::lattice::lemma_center_origin(r.lattice.stacking, r.lattice.stacking_faults@);
        }
        r
    }

    /// Reset the crystal to the empty state, keeping lattice, substrate and
    /// weights.
    pub fn clear(&mut self)
        requires
            old(self).inv_base(),
        ensures
            final(self).inv(),
            final(self).bulk.is_blank(),
            final(self).surface.list@.len() == 0,
            final(self).dirt.list@.len() == 0,
            forall|b: int| 0 <= b < VAC_LISTS ==> final(self).vacancies.list@[b].list@.len() == 0,
            final(self).extrema.x_min == 0 && final(self).extrema.x_max == 0,
            final(self).extrema.y_min == 0 && final(self).extrema.y_max == 0,
            final(self).extrema.z_min == 0 && final(self).extrema.z_max == 0,
            final(self).extrema_ijk.x_min == center_ijk() && final(self).extrema_ijk.x_max == center_ijk(),
            final(self).extrema_ijk.y_min == center_ijk() && final(self).extrema_ijk.y_max == center_ijk(),
            final(self).extrema_ijk.z_min == center_ijk() && final(self).extrema_ijk.z_max == center_ijk(),
            final(self).lattice == old(self).lattice,
            final(self).substrate_pos == old(self).substrate_pos,
            final(self).prob_list_num == old(self).prob_list_num,
            final(self).prob_list == old(self).prob_list,
    {
        self.bulk.clear();
        self.surface = SurfaceAtoms::new();
        self.dirt = SurfaceAtoms::new();
        self.vacancies = Vacancies::new();
        self.extrema = Extrema { x_min: 0, x_max: 0, y_min: 0, y_max: 0, z_min: 0, z_max: 0 };
        let c = center();
        self.extrema_ijk = ExtremaCoordinates {
            x_min: c,
            x_max: c,
            y_min: c,
            y_max: c,
            z_min: c,
            z_max: c,
        };
        proof {
            lemma_blank_coordination(self.lattice.stacking, self.bulk);
            crate::lattice::lemma_center_origin(self.lattice.stacking, self.lattice.stacking_faults@);
        }
    }

    /// Switch to the next probability-weight row.
    pub fn next_prob_list(&mut self)
        requires
            old(self).inv_base(),
        ensures
            final(self).prob_list_num == (old(self).prob_list_num + 1) % 4,
            final(self).inv_base(),
            final(self).lattice == old(self).lattice,
            final(self).bulk == old(self).bulk,
            final(self).surface == old(self).surface,
            final(self).dirt == old(self).dirt,
            final(self).vacancies == old(self).vacancies,
            final(self).extrema == old(self).extrema,
            final(self).extrema_ijk == old(self).extrema_ijk,
            final(self).substrate_pos == old(self).substrate_pos,
            old(self).inv() ==> final(self).inv(),
    {
        self.prob_list_num = (self.prob_list_num + 1) % 4;
        self.prob_list = Self::prob_row(self.prob_list_num);
        self.prob_list_log = Self::log_row(&self.prob_list);
        proof {
            if old(self).inv() {
                let pre = *old(self);
                assert forall|b: int, c: IJK|
                    0 <= b < VAC_LISTS && #[trigger] self.vac_has(b, c) implies self.empty_at(c)
                    && margin_ok(self.substrate_pos, c) && cls_ok(self.coord_of(c), b) by {
                    assert(pre.vac_has(b, c));
                    assert(pre.coord_of(c) == self.coord_of(c));
                }
                assert forall|c: IJK|
                    self.empty_at(c) && margin_ok(self.substrate_pos, c) && 1 <= self.coord_of(c)
                        <= 8 implies self.vac_has(#[trigger] self.coord_of(c) - 1, c) by {
                    assert(pre.coord_of(c) == self.coord_of(c));
                    assert(pre.vac_has(pre.coord_of(c) - 1, c));
                }
                assert forall|bx: int, by: int, c: IJK|
                    0 <= bx < VAC_LISTS && 0 <= by < VAC_LISTS && bx != by implies !(
                #[trigger] self.vac_has(bx, c) && #[trigger] self.vac_has(by, c)) by {
                    if self.vac_has(bx, c) && self.vac_has(by, c) {
                        assert(pre.vac_has(bx, c) && pre.vac_has(by, c));
                    }
                }
                assert forall|c: IJK| #[trigger] self.surface.has(c) implies self.gold(c) by {
                    assert(pre.surface.has(c));
                }
                assert forall|c: IJK|
                    self.gold(c) && #[trigger] self.coord_of(c) < 12 implies self.surface.has(
                    c,
                ) by {
                    assert(pre.coord_of(c) == self.coord_of(c));
                    assert(pre.gold(c) && pre.coord_of(c) < 12);
                }
                assert forall|c: IJK| #[trigger] self.dirt.has(c) <==> self.bulk.site(c) == 2 by {
                    assert(pre.dirt.has(c) <==> pre.bulk.site(c) == 2);
                }
            }
        }
    }
}

/// A site of the empty volume has coordination zero.
proof fn lemma_count_blank(st: Stackings, bulk: Bulk, c: IJK, l: int)
    requires
        forall|x: IJK| bulk.site(x) == 0,
        0 <= l <= 12,
    ensures
        count_gold_nbrs(st, bulk, c, l) == 0,
    decreases l,
{
    if l > 0 {
        lemma_count_blank(st, bulk, c, l - 1);
    }
}

/// All coordination numbers of the empty volume are zero.
pub proof fn lemma_blank_coordination(st: Stackings, bulk: Bulk)
    requires
        forall|x: IJK| bulk.site(x) == 0,
    ensures
        forall|c: IJK| coordination(st, bulk, c) == 0,
{
    assert forall|c: IJK| coordination(st, bulk, c) == 0 by {
        lemma_count_blank(st, bulk, c, 12);
    }
}

proof fn lemma_log10_nonneg(n: int)
    requires
        n >= 1,
    ensures
        log10_floor(n) >= 0,
    decreases n,
{
    if n >= 10 {
        lemma_log10_nonneg(n / 10);
    }
}

spec fn pow10(m: int) -> int
    decreases m,
{
    if m <= 0 {
        1
    } else {
        10 * pow10(m - 1)
    }
}

proof fn lemma_log10_upper(n: int, m: int)
    requires
        0 <= n < pow10(m),
        m >= 1,
    ensures
        log10_floor(n) < m,
    decreases m,
{
    if n < 10 {
    } else {
        assert(pow10(m) == 10 * pow10(m - 1));
        assert(n == 10 * (n / 10) + n % 10) by {
            vstd::arithmetic::div_mod::lemma_fundamental_div_mod(n, 10);
        }
        assert(0 <= n % 10 < 10) by {
            vstd::arithmetic::div_mod::lemma_mod_division_less_than_divisor(n, 10);
        }
        assert(n / 10 < pow10(m - 1));
        if m == 1 {
            assert(false);
        } else {
            lemma_log10_upper(n / 10, m - 1);
        }
    }
}

/// A 64-bit weight has at most twenty decimal digits.
proof fn lemma_log10_u64_bound(n: int)
    requires
        0 <= n <= u64::MAX,
    ensures
        log10_floor(n) <= 19,
{
    reveal_with_fuel(pow10, 22);
    assert(pow10(20) == 100_000_000_000_000_000_000);
    lemma_log10_upper(n, 20);
}

} // verus!

verus! {

/// A neighbor count never exceeds the number of counted slots.
proof fn lemma_count_bounds(st: Stackings, bulk: Bulk, c: IJK, l: int)
    requires
        0 <= l <= 12,
    ensures
        0 <= count_gold_nbrs(st, bulk, c, l) <= l,
    decreases l,
{
    if l > 0 {
        lemma_count_bounds(st, bulk, c, l - 1);
    }
}

/// A count over slots that never address the changed site is unchanged.
proof fn lemma_count_unchanged(st: Stackings, b1: Bulk, b2: Bulk, a: IJK, c: IJK, l: int)
    requires
        forall|x: IJK| x != a ==> b2.site(x) == b1.site(x),
        forall|m: int| 0 <= m < l ==> nb(st, c, m) != a,
        0 <= l <= 12,
    ensures
        count_gold_nbrs(st, b2, c, l) == count_gold_nbrs(st, b1, c, l),
    decreases l,
{
    if l > 0 {
        lemma_count_unchanged(st, b1, b2, a, c, l - 1);
        assert(nb(st, c, l - 1) != a);
    }
}

/// When the site in one slot becomes deposited, the count over a prefix of
/// slots grows by one exactly from the slot holding it on.
proof fn lemma_count_gold_added(
    st: Stackings,
    faults: Seq<u16>,
    b1: Bulk,
    b2: Bulk,
    a: IJK,
    c: IJK,
    m0: int,
    l: int,
)
    requires
        st.wf(faults),
        inner(c),
        forall|x: IJK| x != a ==> b2.site(x) == b1.site(x),
        b1.site(a) != 1,
        b2.site(a) == 1,
        0 <= m0 < 12,
        nb(st, c, m0) == a,
        0 <= l <= 12,
    ensures
        m0 < l ==> count_gold_nbrs(st, b2, c, l) == count_gold_nbrs(st, b1, c, l) + 1,
        m0 >= l ==> count_gold_nbrs(st, b2, c, l) == count_gold_nbrs(st, b1, c, l),
    decreases l,
{
    if l > 0 {
        lemma_count_gold_added(st, faults, b1, b2, a, c, m0, l - 1);
        if l - 1 != m0 {
            lemma_nb_distinct(st, faults, c, l - 1, m0);
            assert(nb(st, c, l - 1) != a);
        }
    }
}

/// A site change that is deposited neither before nor after leaves every
/// count alone.
proof fn lemma_count_nongold(st: Stackings, b1: Bulk, b2: Bulk, a: IJK, c: IJK, l: int)
    requires
        forall|x: IJK| x != a ==> b2.site(x) == b1.site(x),
        b1.site(a) != 1,
        b2.site(a) != 1,
        0 <= l <= 12,
    ensures
        count_gold_nbrs(st, b2, c, l) == count_gold_nbrs(st, b1, c, l),
    decreases l,
{
    if l > 0 {
        lemma_count_nongold(st, b1, b2, a, c, l - 1);
    }
}

/// Depositing at `a` raises the coordination of its neighbors by one and
/// changes no other coordination number.
pub proof fn lemma_coordination_after_gold(
    st: Stackings,
    faults: Seq<u16>,
    b1: Bulk,
    b2: Bulk,
    a: IJK,
)
    requires
        st.wf(faults),
        forall|x: IJK| x != a ==> b2.site(x) == b1.site(x),
        b1.site(a) != 1,
        b2.site(a) == 1,
    ensures
        forall|c: IJK|
            inner(c) && #[trigger] is_nb(st, c, a) ==> coordination(st, b2, c) == coordination(
                st,
                b1,
                c,
            ) + 1,
        forall|c: IJK|
            !is_nb(st, c, a) ==> #[trigger] coordination(st, b2, c) == coordination(st, b1, c),
{
    assert forall|c: IJK| inner(c) && #[trigger] is_nb(st, c, a) implies coordination(st, b2, c)
        == coordination(st, b1, c) + 1 by {
        let m0 = choose|m: int| 0 <= m < 12 && nb(st, c, m) == a;
        lemma_count_gold_added(st, faults, b1, b2, a, c, m0, 12);
    }
    assert forall|c: IJK| !is_nb(st, c, a) implies #[trigger] coordination(st, b2, c)
        == coordination(st, b1, c) by {
        assert forall|m: int| 0 <= m < 12 implies nb(st, c, m) != a by {
            if nb(st, c, m) == a {
                assert(is_nb(st, c, a));
            }
        }
        lemma_count_unchanged(st, b1, b2, a, c, 12);
    }
}

/// A site change that never involves a deposited state (such as marking a
/// contaminant) changes no coordination number.
pub proof fn lemma_coordination_nongold(st: Stackings, b1: Bulk, b2: Bulk, a: IJK)
    requires
        forall|x: IJK| x != a ==> b2.site(x) == b1.site(x),
        b1.site(a) != 1,
        b2.site(a) != 1,
    ensures
        forall|c: IJK| #[trigger] coordination(st, b2, c) == coordination(st, b1, c),
{
    assert forall|c: IJK| #[trigger] coordination(st, b2, c) == coordination(st, b1, c) by {
        lemma_count_nongold(st, b1, b2, a, c, 12);
    }
}


} // verus!

verus! {

impl Crystal {
    /// Fold the position of `ijk` into the continuous extrema, remembering
    /// the coordinate behind each extremum.
    pub fn update_extrema(&mut self, ijk: IJK)
        requires
            old(self).inv_base(),
            interior2(ijk),
        ensures
            final(self).inv_base(),
            ({
                let p = xyz_of(old(self).lattice.stacking, ijk);
                let pre = old(self).extrema;
                let post = final(self).extrema;
                &&& post.x_min == if p.x < pre.x_min { p.x } else { pre.x_min }
                &&& post.x_max == if p.x > pre.x_max { p.x } else { pre.x_max }
                &&& post.y_min == if p.y < pre.y_min { p.y } else { pre.y_min }
                &&& post.y_max == if p.y > pre.y_max { p.y } else { pre.y_max }
                &&& post.z_min == if p.z < pre.z_min { p.z } else { pre.z_min }
                &&& post.z_max == if p.z > pre.z_max { p.z } else { pre.z_max }
            }),
            ({
                let p = xyz_of(old(self).lattice.stacking, ijk);
                let pre = old(self).extrema;
                let prec = old(self).extrema_ijk;
                let postc = final(self).extrema_ijk;
                &&& postc.x_min == if p.x < pre.x_min { ijk } else { prec.x_min }
                &&& postc.x_max == if p.x > pre.x_max { ijk } else { prec.x_max }
                &&& postc.y_min == if p.y < pre.y_min { ijk } else { prec.y_min }
                &&& postc.y_max == if p.y > pre.y_max { ijk } else { prec.y_max }
                &&& postc.z_min == if p.z < pre.z_min { ijk } else { prec.z_min }
                &&& postc.z_max == if p.z > pre.z_max { ijk } else { prec.z_max }
            }),
            final(self).lattice == old(self).lattice,
            final(self).bulk == old(self).bulk,
            final(self).surface == old(self).surface,
            final(self).dirt == old(self).dirt,
            final(self).vacancies == old(self).vacancies,
            final(self).substrate_pos == old(self).substrate_pos,
            final(self).prob_list == old(self).prob_list,
            final(self).prob_list_num == old(self).prob_list_num,
            final(self).prob_list_log == old(self).prob_list_log,
            old(self).inv() ==> final(self).inv(),
    {
        let ghost faults = self.lattice.stacking_faults@;
        proof {
            crate::lattice::lemma_xyz_bounds(self.lattice.stacking, faults, ijk);
        }
        let xyz = self.lattice.get_xyz(ijk);
        if xyz.x < self.extrema.x_min {
            self.extrema.x_min = xyz.x;
            self.extrema_ijk.x_min = ijk;
        }
        if xyz.x > self.extrema.x_max {
            self.extrema.x_max = xyz.x;
            self.extrema_ijk.x_max = ijk;
        }
        if xyz.y < self.extrema.y_min {
            self.extrema.y_min = xyz.y;
            self.extrema_ijk.y_min = ijk;
        }
        if xyz.y > self.extrema.y_max {
            self.extrema.y_max = xyz.y;
            self.extrema_ijk.y_max = ijk;
        }
        if xyz.z < self.extrema.z_min {
            self.extrema.z_min = xyz.z;
            self.extrema_ijk.z_min = ijk;
        }
        if xyz.z > self.extrema.z_max {
            self.extrema.z_max = xyz.z;
            self.extrema_ijk.z_max = ijk;
        }
        proof {
            if old(self).inv() {
                let pre = *old(self);
                assert forall|b: int, c: IJK|
                    0 <= b < VAC_LISTS && #[trigger] self.vac_has(b, c) implies self.empty_at(c)
                    && margin_ok(self.substrate_pos, c) && cls_ok(self.coord_of(c), b) by {
                    assert(pre.vac_has(b, c));
                    assert(pre.coord_of(c) == self.coord_of(c));
                }
                assert forall|c: IJK|
                    self.empty_at(c) && margin_ok(self.substrate_pos, c) && 1 <= self.coord_of(c)
                        <= 8 implies self.vac_has(#[trigger] self.coord_of(c) - 1, c) by {
                    assert(pre.coord_of(c) == self.coord_of(c));
                    assert(pre.vac_has(pre.coord_of(c) - 1, c));
                }
                assert forall|bx: int, by: int, c: IJK|
                    0 <= bx < VAC_LISTS && 0 <= by < VAC_LISTS && bx != by implies !(
                #[trigger] self.vac_has(bx, c) && #[trigger] self.vac_has(by, c)) by {
                    if self.vac_has(bx, c) && self.vac_has(by, c) {
                        assert(pre.vac_has(bx, c) && pre.vac_has(by, c));
                    }
                }
                assert forall|c: IJK| #[trigger] self.surface.has(c) implies self.gold(c) by {
                    assert(pre.surface.has(c));
                }
                assert forall|c: IJK|
                    self.gold(c) && #[trigger] self.coord_of(c) < 12 implies self.surface.has(
                    c,
                ) by {
                    assert(pre.coord_of(c) == self.coord_of(c));
                    assert(pre.gold(c) && pre.coord_of(c) < 12);
                }
                assert forall|c: IJK| #[trigger] self.dirt.has(c) <==> self.bulk.site(c) == 2 by {
                    assert(pre.dirt.has(c) <==> pre.bulk.site(c) == 2);
                }
            }
        }
    }

    /// Count of deposited atoms among the twelve neighbors of `ijk`.
    #[verifier::loop_isolation(false)]
    fn number_of_neighbors(&self, ijk: IJK) -> (n: usize)
        requires
            self.lattice.wf(),
            self.bulk.wf(),
            inner(ijk),
        ensures
            n == self.coord_of(ijk),
    {
        let ghost faults = self.lattice.stacking_faults@;
        let mut number: usize = 0;
        let mut l: usize = 0;
        while l < 12
            invariant
                l <= 12,
                number == count_gold_nbrs(self.lattice.stacking, self.bulk, ijk, l as int),
                number <= l,
            decreases 12 - l,
        {
            let nn = self.lattice.next_neighbor(ijk, l);
            proof {
                lemma_nb_range(self.lattice.stacking, faults, ijk, l as int);
            }
            if self.bulk.get(nn, Atom::Gold) {
                number = number + 1;
            }
            l = l + 1;
        }
        number
    }

    /// An atom whose every neighbor site is deposited is buried in the bulk.
    fn hidden_atom(&self, ijk: IJK) -> (r: bool)
        requires
            self.lattice.wf(),
            self.bulk.wf(),
            inner(ijk),
        ensures
            r == (self.coord_of(ijk) == 12),
    {
        self.number_of_neighbors(ijk) == 12
    }
}

} // verus!


verus! {

/// Coordination of `c` as the reclassification loop sees it after the first
/// `l` neighbors of the deposited site `ijk` have been processed: already
/// reclassified neighbors count against the new store `b1`, everything else
/// against the old store `b0`.
pub open spec fn eff_coord(st: Stackings, b0: Bulk, b1: Bulk, ijk: IJK, l: int, c: IJK) -> int {
    if exists|m: int| 0 <= m < l && nb(st, ijk, m) == c {
        coordination(st, b1, c)
    } else {
        coordination(st, b0, c)
    }
}

/// Every bucket member is an empty margin site classified consistently with
/// the effective coordination of the reclassification cursor `l`.
pub open spec fn vinv_members(
    st: Stackings,
    b0: Bulk,
    b1: Bulk,
    ijk: IJK,
    sub: u16,
    v: Vacancies,
    l: int,
) -> bool {
    forall|b: int, c: IJK|
        0 <= b < VAC_LISTS && #[trigger] v.has(b, c) ==> b1.site(c) == 0 && margin_ok(sub, c)
            && cls_ok(eff_coord(st, b0, b1, ijk, l, c), b)
}

/// Every empty margin site with tracked effective coordination is in its
/// bucket.
pub open spec fn vinv_complete(
    st: Stackings,
    b0: Bulk,
    b1: Bulk,
    ijk: IJK,
    sub: u16,
    v: Vacancies,
    l: int,
) -> bool {
    forall|c: IJK|
        b1.site(c) == 0 && margin_ok(sub, c) && 1 <= #[trigger] eff_coord(st, b0, b1, ijk, l, c)
            <= 8 ==> v.has(eff_coord(st, b0, b1, ijk, l, c) - 1, c)
}

/// No coordinate is in two buckets.
pub open spec fn vinv_disjoint(v: Vacancies) -> bool {
    forall|bx: int, by: int, c: IJK|
        0 <= bx < VAC_LISTS && 0 <= by < VAC_LISTS && bx != by ==> !(#[trigger] v.has(bx, c)
            && #[trigger] v.has(by, c))
}

/// Advancing the cursor past slot `l` re-reads only `nb(ijk, l)`.
proof fn lemma_eff_step(
    st: Stackings,
    faults: Seq<u16>,
    b0: Bulk,
    b1: Bulk,
    ijk: IJK,
    l: int,
    nn: IJK,
)
    requires
        st.wf(faults),
        interior2(ijk),
        0 <= l < 12,
        nn == nb(st, ijk, l),
    ensures
        forall|c: IJK|
            c != nn ==> #[trigger] eff_coord(st, b0, b1, ijk, l + 1, c) == eff_coord(
                st,
                b0,
                b1,
                ijk,
                l,
                c,
            ),
        eff_coord(st, b0, b1, ijk, l + 1, nn) == coordination(st, b1, nn),
        eff_coord(st, b0, b1, ijk, l, nn) == coordination(st, b0, nn),
{
    assert forall|c: IJK| c != nn implies #[trigger] eff_coord(st, b0, b1, ijk, l + 1, c)
        == eff_coord(st, b0, b1, ijk, l, c) by {
        if exists|m: int| 0 <= m < l + 1 && nb(st, ijk, m) == c {
            let m = choose|m: int| 0 <= m < l + 1 && nb(st, ijk, m) == c;
            assert(m != l);
            assert(exists|m2: int| 0 <= m2 < l && nb(st, ijk, m2) == c);
        }
    }
    assert forall|m: int| 0 <= m < l implies nb(st, ijk, m) != nn by {
        lemma_nb_distinct(st, faults, ijk, m, l);
    }
    assert(nb(st, ijk, l) == nn);
}

/// The vacancy step for a neighbor that is a tracked vacancy site: its bucket
/// moves to the new coordination; everything else keeps its classification.
#[verifier::rlimit(60)]
proof fn lemma_step_classify(
    st: Stackings,
    faults: Seq<u16>,
    b0: Bulk,
    b1: Bulk,
    ijk: IJK,
    sub: u16,
    l: int,
    nn: IJK,
    vold: Vacancies,
    vnew: Vacancies,
    n: int,
)
    requires
        st.wf(faults),
        interior2(ijk),
        0 <= l < 12,
        nn == nb(st, ijk, l),
        vold.wf(),
        vnew.wf(),
        vinv_members(st, b0, b1, ijk, sub, vold, l),
        vinv_complete(st, b0, b1, ijk, sub, vold, l),
        vinv_disjoint(vold),
        b1.site(nn) == 0,
        margin_ok(sub, nn),
        coordination(st, b1, nn) == n,
        coordination(st, b0, nn) == n - 1,
        1 <= n <= 12,
        n == 1 ==> forall|b: int, c: IJK|
            0 <= b < VAC_LISTS ==> (#[trigger] vnew.has(b, c) <==> (vold.has(b, c) || (b == 0 && c
                == nn))),
        1 < n < 9 ==> forall|b: int, c: IJK|
            0 <= b < VAC_LISTS ==> (#[trigger] vnew.has(b, c) <==> (if b == n - 1 {
                vold.has(b, c) || c == nn
            } else if b == n - 2 {
                vold.has(b, c) && c != nn
            } else {
                vold.has(b, c)
            })),
        n >= 9 ==> vnew == vold,
    ensures
        vinv_members(st, b0, b1, ijk, sub, vnew, l + 1),
        vinv_complete(st, b0, b1, ijk, sub, vnew, l + 1),
        vinv_disjoint(vnew),
{
    lemma_eff_step(st, faults, b0, b1, ijk, l, nn);
    let e0 = eff_coord(st, b0, b1, ijk, l, nn);
    assert(e0 == n - 1);
    assert forall|b: int, c: IJK| 0 <= b < VAC_LISTS && #[trigger] vnew.has(b, c) implies b1.site(
        c,
    ) == 0 && margin_ok(sub, c) && cls_ok(eff_coord(st, b0, b1, ijk, l + 1, c), b) by {
        if c == nn {
            if n == 1 {
                if vold.has(b, c) {
                    assert(cls_ok(e0, b));
                    assert(false);
                }
                assert(b == 0);
                assert(cls_ok(n, 0));
            } else if n < 9 {
                if b == n - 1 {
                    assert(cls_ok(n, n - 1));
                } else {
                    assert(vold.has(b, c) && b != n - 2);
                    assert(cls_ok(e0, b));
                    assert(false);
                }
            } else {
                assert(vold.has(b, c));
                assert(cls_ok(e0, b));
                assert(b == 7);
                assert(cls_ok(n, 7));
            }
        } else {
            if n == 1 || n >= 9 {
                assert(vold.has(b, c));
            } else {
                assert(vold.has(b, c));
            }
            assert(cls_ok(eff_coord(st, b0, b1, ijk, l, c), b));
        }
    }
    assert forall|c: IJK|
        b1.site(c) == 0 && margin_ok(sub, c) && 1 <= #[trigger] eff_coord(
            st,
            b0,
            b1,
            ijk,
            l + 1,
            c,
        ) <= 8 implies vnew.has(eff_coord(st, b0, b1, ijk, l + 1, c) - 1, c) by {
        let e = eff_coord(st, b0, b1, ijk, l + 1, c);
        if c == nn {
            assert(e == n);
            if n == 1 {
                assert(vnew.has(0, c));
            } else {
                assert(vold.has(n - 2, c));
                assert(vnew.has(n - 1, c));
            }
        } else {
            assert(e == eff_coord(st, b0, b1, ijk, l, c));
            assert(vold.has(e - 1, c));
            if n == 1 || n >= 9 {
                assert(vnew.has(e - 1, c));
            } else {
                if e - 1 == n - 2 {
                    assert(vnew.has(e - 1, c));
                } else {
                    assert(vnew.has(e - 1, c));
                }
            }
        }
    }
    assert forall|bx: int, by: int, c: IJK|
        0 <= bx < VAC_LISTS && 0 <= by < VAC_LISTS && bx != by implies !(#[trigger] vnew.has(bx, c)
        && #[trigger] vnew.has(by, c)) by {
        if vnew.has(bx, c) && vnew.has(by, c) {
            if c == nn {
                if n == 1 {
                    if bx != 0 {
                        assert(vold.has(bx, c));
                        assert(cls_ok(e0, bx));
                        assert(false);
                    }
                    if by != 0 {
                        assert(vold.has(by, c));
                        assert(cls_ok(e0, by));
                        assert(false);
                    }
                    assert(false);
                } else if n < 9 {
                    if bx != n - 1 {
                        assert(vold.has(bx, c));
                        assert(cls_ok(e0, bx));
                        assert(bx == n - 2);
                        assert(false);
                    }
                    if by != n - 1 {
                        assert(vold.has(by, c));
                        assert(cls_ok(e0, by));
                        assert(by == n - 2);
                        assert(false);
                    }
                    assert(false);
                } else {
                    assert(vold.has(bx, c) && vold.has(by, c));
                    assert(false);
                }
            } else {
                assert(vold.has(bx, c) && vold.has(by, c));
                assert(false);
            }
        }
    }
}

/// The vacancy step for a neighbor that is not a vacancy site (occupied, or
/// outside the margin): the buckets do not change, nor does what the
/// invariant asks of them.
proof fn lemma_step_skip(
    st: Stackings,
    faults: Seq<u16>,
    b0: Bulk,
    b1: Bulk,
    ijk: IJK,
    sub: u16,
    l: int,
    nn: IJK,
    v: Vacancies,
)
    requires
        st.wf(faults),
        interior2(ijk),
        0 <= l < 12,
        nn == nb(st, ijk, l),
        vinv_members(st, b0, b1, ijk, sub, v, l),
        vinv_complete(st, b0, b1, ijk, sub, v, l),
        !(b1.site(nn) == 0 && margin_ok(sub, nn)),
    ensures
        vinv_members(st, b0, b1, ijk, sub, v, l + 1),
        vinv_complete(st, b0, b1, ijk, sub, v, l + 1),
{
    lemma_eff_step(st, faults, b0, b1, ijk, l, nn);
    assert forall|b: int, c: IJK| 0 <= b < VAC_LISTS && #[trigger] v.has(b, c) implies b1.site(c)
        == 0 && margin_ok(sub, c) && cls_ok(eff_coord(st, b0, b1, ijk, l + 1, c), b) by {
        assert(c != nn);
        assert(cls_ok(eff_coord(st, b0, b1, ijk, l, c), b));
    }
    assert forall|c: IJK|
        b1.site(c) == 0 && margin_ok(sub, c) && 1 <= #[trigger] eff_coord(
            st,
            b0,
            b1,
            ijk,
            l + 1,
            c,
        ) <= 8 implies v.has(eff_coord(st, b0, b1, ijk, l + 1, c) - 1, c) by {
        assert(c != nn);
        assert(eff_coord(st, b0, b1, ijk, l + 1, c) == eff_coord(st, b0, b1, ijk, l, c));
    }
}

/// Once all twelve slots are processed, the effective coordination of every
/// inner site is its real one in the new store.
proof fn lemma_eff_final(st: Stackings, faults: Seq<u16>, b0: Bulk, b1: Bulk, ijk: IJK)
    requires
        st.wf(faults),
        interior2(ijk),
        forall|c: IJK|
            !is_nb(st, c, ijk) ==> #[trigger] coordination(st, b1, c) == coordination(st, b0, c),
    ensures
        forall|c: IJK|
            inner(c) ==> #[trigger] eff_coord(st, b0, b1, ijk, 12, c) == coordination(st, b1, c),
{
    assert forall|c: IJK| inner(c) implies #[trigger] eff_coord(st, b0, b1, ijk, 12, c)
        == coordination(st, b1, c) by {
        if !(exists|m: int| 0 <= m < 12 && nb(st, ijk, m) == c) {
            assert forall|m: int| 0 <= m < 12 implies nb(st, c, m) != ijk by {
                if nb(st, c, m) == ijk {
                    lemma_nb_symm(st, faults, c, m);
                    assert(nb(st, ijk, sym_l(m)) == c);
                }
            }
            assert(!is_nb(st, c, ijk));
        }
    }
}

} // verus!

verus! {

impl Crystal {
    /// Write an occupied state into the store and carry the exact bounding
    /// box across the update.
    fn set_occupied_checked(&mut self, ijk: IJK, atom: Atom)
        requires
            old(self).inv_base(),
            old(self).inv_bulk(),
            old(self).empty_at(ijk),
            interior2(ijk),
            atom_code(atom) != 0,
            old(self).bulk.number_of_atoms < usize::MAX,
        ensures
            final(self).inv_base(),
            final(self).inv_bulk(),
            final(self).bulk.site(ijk) == atom_code(atom),
            forall|c: IJK| c != ijk ==> final(self).bulk.site(c) == old(self).bulk.site(c),
            final(self).bulk.number_of_atoms == old(self).bulk.number_of_atoms + 1,
            final(self).bulk.i_min == if ijk.i < old(self).bulk.i_min { ijk.i } else { old(self).bulk.i_min },
            final(self).bulk.i_max == if ijk.i > old(self).bulk.i_max { ijk.i } else { old(self).bulk.i_max },
            final(self).bulk.j_min == if ijk.j < old(self).bulk.j_min { ijk.j } else { old(self).bulk.j_min },
            final(self).bulk.j_max == if ijk.j > old(self).bulk.j_max { ijk.j } else { old(self).bulk.j_max },
            final(self).bulk.k_min == if ijk.k < old(self).bulk.k_min { ijk.k } else { old(self).bulk.k_min },
            final(self).bulk.k_max == if ijk.k > old(self).bulk.k_max { ijk.k } else { old(self).bulk.k_max },
            final(self).lattice == old(self).lattice,
            final(self).surface == old(self).surface,
            final(self).dirt == old(self).dirt,
            final(self).vacancies == old(self).vacancies,
            final(self).extrema == old(self).extrema,
            final(self).extrema_ijk == old(self).extrema_ijk,
            final(self).substrate_pos == old(self).substrate_pos,
            final(self).prob_list == old(self).prob_list,
            final(self).prob_list_num == old(self).prob_list_num,
            final(self).prob_list_log == old(self).prob_list_log,
    {
        let ghost b0 = self.bulk;
        self.bulk.set(ijk, atom);
        let ghost b1 = self.bulk;
        proof {
            assert forall|c: IJK| b1.site(c) != 0 implies interior2(c) && b1.i_min <= c.i
                <= b1.i_max && b1.j_min <= c.j <= b1.j_max && b1.k_min <= c.k <= b1.k_max by {
                if c != ijk {
                    assert(b0.site(c) != 0);
                }
            }
            assert(b1.i_min == CENTER_I || exists|c: IJK| b1.site(c) != 0 && c.i == b1.i_min) by {
                if ijk.i < b0.i_min {
                    assert(b1.site(ijk) != 0 && ijk.i == b1.i_min);
                } else if b0.i_min != CENTER_I {
                    let c = choose|c: IJK| b0.site(c) != 0 && c.i == b0.i_min;
                    assert(c != ijk && b1.site(c) != 0 && c.i == b1.i_min);
                }
            }
            assert(b1.i_max == CENTER_I || exists|c: IJK| b1.site(c) != 0 && c.i == b1.i_max) by {
                if ijk.i > b0.i_max {
                    assert(b1.site(ijk) != 0 && ijk.i == b1.i_max);
                } else if b0.i_max != CENTER_I {
                    let c = choose|c: IJK| b0.site(c) != 0 && c.i == b0.i_max;
                    assert(c != ijk && b1.site(c) != 0 && c.i == b1.i_max);
                }
            }
            assert(b1.j_min == CENTER_J || exists|c: IJK| b1.site(c) != 0 && c.j == b1.j_min) by {
                if ijk.j < b0.j_min {
                    assert(b1.site(ijk) != 0 && ijk.j == b1.j_min);
                } else if b0.j_min != CENTER_J {
                    let c = choose|c: IJK| b0.site(c) != 0 && c.j == b0.j_min;
                    assert(c != ijk && b1.site(c) != 0 && c.j == b1.j_min);
                }
            }
            assert(b1.j_max == CENTER_J || exists|c: IJK| b1.site(c) != 0 && c.j == b1.j_max) by {
                if ijk.j > b0.j_max {
                    assert(b1.site(ijk) != 0 && ijk.j == b1.j_max);
                } else if b0.j_max != CENTER_J {
                    let c = choose|c: IJK| b0.site(c) != 0 && c.j == b0.j_max;
                    assert(c != ijk && b1.site(c) != 0 && c.j == b1.j_max);
                }
            }
            assert(b1.k_min == CENTER_K || exists|c: IJK| b1.site(c) != 0 && c.k == b1.k_min) by {
                if ijk.k < b0.k_min {
                    assert(b1.site(ijk) != 0 && ijk.k == b1.k_min);
                } else if b0.k_min != CENTER_K {
                    let c = choose|c: IJK| b0.site(c) != 0 && c.k == b0.k_min;
                    assert(c != ijk && b1.site(c) != 0 && c.k == b1.k_min);
                }
            }
            assert(b1.k_max == CENTER_K || exists|c: IJK| b1.site(c) != 0 && c.k == b1.k_max) by {
                if ijk.k > b0.k_max {
                    assert(b1.site(ijk) != 0 && ijk.k == b1.k_max);
                } else if b0.k_max != CENTER_K {
                    let c = choose|c: IJK| b0.site(c) != 0 && c.k == b0.k_max;
                    assert(c != ijk && b1.site(c) != 0 && c.k == b1.k_max);
                }
            }
        }
    }
}

impl Crystal {
    /// Mark `ijk` deposited and reclassify the vacancy buckets of its twelve
    /// neighbors; with `maintain_surface` also keep the surface set current
    /// (insert `ijk`, drop neighbors that became buried).
    #[verifier::loop_isolation(false)]
    #[verifier::rlimit(100)]
    fn deposit_gold(&mut self, ijk: IJK, maintain_surface: bool)
        requires
            old(self).inv_base(),
            old(self).inv_bulk(),
            old(self).inv_dirt(),
            old(self).empty_at(ijk),
            interior2(ijk),
            forall|b: int, c: IJK|
                0 <= b < VAC_LISTS && #[trigger] old(self).vac_has(b, c) ==> old(self).empty_at(c)
                    && margin_ok(old(self).substrate_pos, c) && cls_ok(old(self).coord_of(c), b),
            forall|c: IJK|
                c != ijk && old(self).empty_at(c) && margin_ok(old(self).substrate_pos, c) && 1
                    <= old(self).coord_of(c) <= 8 ==> old(self).vac_has(
                    #[trigger] old(self).coord_of(c) - 1,
                    c,
                ),
            forall|bx: int, by: int, c: IJK|
                0 <= bx < VAC_LISTS && 0 <= by < VAC_LISTS && bx != by ==> !(
                #[trigger] old(self).vac_has(bx, c) && #[trigger] old(self).vac_has(by, c)),
            forall|b: int| 0 <= b < VAC_LISTS ==> !old(self).vac_has(b, ijk),
            old(self).bulk.number_of_atoms < usize::MAX,
            maintain_surface ==> old(self).inv_surface(),
        ensures
            final(self).inv_base(),
            final(self).inv_bulk(),
            final(self).inv_vac(),
            final(self).inv_dirt(),
            maintain_surface ==> final(self).inv_surface() && final(self).surface.has(ijk),
            maintain_surface ==> forall|m: int|
                0 <= m < 12 && coordination(
                    old(self).lattice.stacking,
                    final(self).bulk,
                    #[trigger] nb(old(self).lattice.stacking, ijk, m),
                ) == 12 ==> !final(self).surface.has(nb(old(self).lattice.stacking, ijk, m)),
            !maintain_surface ==> final(self).surface == old(self).surface,
            final(self).bulk.site(ijk) == 1,
            forall|c: IJK| c != ijk ==> final(self).bulk.site(c) == old(self).bulk.site(c),
            final(self).bulk.number_of_atoms == old(self).bulk.number_of_atoms + 1,
            final(self).bulk.i_min == if ijk.i < old(self).bulk.i_min { ijk.i } else { old(self).bulk.i_min },
            final(self).bulk.i_max == if ijk.i > old(self).bulk.i_max { ijk.i } else { old(self).bulk.i_max },
            final(self).bulk.j_min == if ijk.j < old(self).bulk.j_min { ijk.j } else { old(self).bulk.j_min },
            final(self).bulk.j_max == if ijk.j > old(self).bulk.j_max { ijk.j } else { old(self).bulk.j_max },
            final(self).bulk.k_min == if ijk.k < old(self).bulk.k_min { ijk.k } else { old(self).bulk.k_min },
            final(self).bulk.k_max == if ijk.k > old(self).bulk.k_max { ijk.k } else { old(self).bulk.k_max },
            final(self).lattice == old(self).lattice,
            final(self).dirt == old(self).dirt,
            final(self).substrate_pos == old(self).substrate_pos,
            final(self).prob_list == old(self).prob_list,
            final(self).prob_list_num == old(self).prob_list_num,
            final(self).prob_list_log == old(self).prob_list_log,
            final(self).extrema.x_min <= old(self).extrema.x_min,
            final(self).extrema.x_max >= old(self).extrema.x_max,
            final(self).extrema.y_min <= old(self).extrema.y_min,
            final(self).extrema.y_max >= old(self).extrema.y_max,
            final(self).extrema.z_min <= old(self).extrema.z_min,
            final(self).extrema.z_max >= old(self).extrema.z_max,
    {
        let ghost pre = *old(self);
        let ghost st = self.lattice.stacking;
        let ghost faults = self.lattice.stacking_faults@;
        let ghost b0 = self.bulk;
        let ghost sub = self.substrate_pos;

        proof {
            assert(b0.site(ijk) == 0);
        }
        self.set_occupied_checked(ijk, Atom::Gold);
        let ghost b1 = self.bulk;
        proof {
            lemma_coordination_after_gold(st, faults, b0, b1, ijk);
        }
        if maintain_surface {
            self.surface.add(ijk);
            proof {
                assert forall|c: IJK| #[trigger] self.surface.has(c) implies b1.site(c) == 1 by {
                    if c != ijk {
                        assert(pre.surface.has(c));
                    }
                }
                assert forall|c: IJK| b1.site(c) == 1 && #[trigger] coordination(st, b1, c) < 12
                    implies self.surface.has(c) by {
                    if c != ijk {
                        assert(b0.site(c) == 1);
                        assert(interior2(c));
                        assert(inner(c));
                        if is_nb(st, c, ijk) {
                            assert(coordination(st, b0, c) < 12);
                        } else {
                            assert(coordination(st, b0, c) < 12);
                        }
                        assert(pre.coord_of(c) < 12);
                        assert(pre.gold(c));
                        assert(pre.surface.has(c));
                    }
                }
            }
        }
        self.update_extrema(ijk);

        let ghost snap = *self;
        proof {
            assert forall|b: int, c: IJK|
                0 <= b < VAC_LISTS && #[trigger] self.vacancies.has(b, c) implies b1.site(c) == 0
                && margin_ok(sub, c) && cls_ok(eff_coord(st, b0, b1, ijk, 0, c), b) by {
                assert(pre.vac_has(b, c));
                assert(c != ijk);
                assert(eff_coord(st, b0, b1, ijk, 0, c) == coordination(st, b0, c));
            }
            assert forall|c: IJK|
                b1.site(c) == 0 && margin_ok(sub, c) && 1 <= #[trigger] eff_coord(
                    st,
                    b0,
                    b1,
                    ijk,
                    0,
                    c,
                ) <= 8 implies self.vacancies.has(eff_coord(st, b0, b1, ijk, 0, c) - 1, c) by {
                assert(eff_coord(st, b0, b1, ijk, 0, c) == coordination(st, b0, c));
                assert(c != ijk);
                assert(b0.site(c) == 0);
                assert(pre.vac_has(pre.coord_of(c) - 1, c));
            }
            assert(vinv_members(st, b0, b1, ijk, sub, self.vacancies, 0));
            assert(vinv_complete(st, b0, b1, ijk, sub, self.vacancies, 0));
            assert(vinv_disjoint(self.vacancies));
        }
        let mut l: usize = 0;
        while l < 12
            invariant
                l <= 12,
                self.lattice == pre.lattice,
                self.bulk == b1,
                self.dirt == pre.dirt,
                self.substrate_pos == sub,
                self.prob_list == pre.prob_list,
                self.prob_list_num == pre.prob_list_num,
                self.prob_list_log == pre.prob_list_log,
                self.extrema == snap.extrema,
                self.extrema_ijk == snap.extrema_ijk,
                self.vacancies.wf(),
                self.surface.wf(),
                maintain_surface ==> forall|c: IJK| #[trigger] self.surface.has(c) ==> b1.site(c)
                    == 1,
                maintain_surface ==> forall|c: IJK|
                    b1.site(c) == 1 && #[trigger] coordination(st, b1, c) < 12
                        ==> self.surface.has(c),
                maintain_surface ==> self.surface.has(ijk),
                maintain_surface ==> forall|m: int|
                    0 <= m < l && coordination(st, b1, #[trigger] nb(st, ijk, m)) == 12
                        ==> !self.surface.has(nb(st, ijk, m)),
                !maintain_surface ==> self.surface == pre.surface,
                vinv_members(st, b0, b1, ijk, sub, self.vacancies, l as int),
                vinv_complete(st, b0, b1, ijk, sub, self.vacancies, l as int),
                vinv_disjoint(self.vacancies),
            decreases 12 - l,
        {
            let ghost vpre = self.vacancies;
            let ghost spre = self.surface;
            let nn = self.lattice.next_neighbor(ijk, l);
            proof {
                lemma_nb_range(st, faults, ijk, l as int);
                lemma_nb_symm(st, faults, ijk, l as int);
                assert(nb(st, nn, sym_l(l as int)) == ijk);
                assert(is_nb(st, nn, ijk));
                assert(coordination(st, b1, nn) == coordination(st, b0, nn) + 1);
            }
            if nn.i > 1 && nn.i < MAX_I - 2 && nn.j > 1 && nn.j < MAX_J - 2 && nn.k
                > self.substrate_pos && nn.k < MAX_K - 2 && self.bulk.get(nn, Atom::Empty) {
                let n = self.number_of_neighbors(nn);
                proof {
                    lemma_count_bounds(st, b1, nn, 12);
                    lemma_count_bounds(st, b0, nn, 12);
                    assert(1 <= n <= 12);
                }
                if n == 1 {
                    self.vacancies.list[0].add(nn);
                } else if n > 1 && n < 9 {
                    proof {
                        lemma_eff_step(st, faults, b0, b1, ijk, l as int, nn);
                        assert(vpre.has(n - 2, nn));
                    }
                    self.vacancies.list[n - 1].add(nn);
                    self.vacancies.list[n - 2].remove(nn);
                }
                proof {
                    if n == 1 {
                        assert forall|b: int, c: IJK| 0 <= b < VAC_LISTS implies (
                        #[trigger] self.vacancies.has(b, c) <==> (vpre.has(b, c) || (b == 0 && c
                            == nn))) by {
                            if b != 0 {
                                assert(self.vacancies.list@[b] == vpre.list@[b]);
                            }
                        }
                    } else if n < 9 {
                        assert forall|b: int, c: IJK| 0 <= b < VAC_LISTS implies (
                        #[trigger] self.vacancies.has(b, c) <==> (if b == n - 1 {
                            vpre.has(b, c) || c == nn
                        } else if b == n - 2 {
                            vpre.has(b, c) && c != nn
                        } else {
                            vpre.has(b, c)
                        })) by {
                            if b != n - 1 && b != n - 2 {
                                assert(self.vacancies.list@[b] == vpre.list@[b]);
                            }
                        }
                    }
                    lemma_step_classify(
                        st,
                        faults,
                        b0,
                        b1,
                        ijk,
                        sub,
                        l as int,
                        nn,
                        vpre,
                        self.vacancies,
                        n as int,
                    );
                    if maintain_surface {
                        assert forall|m: int|
                            0 <= m < l + 1 && coordination(st, b1, #[trigger] nb(st, ijk, m)) == 12
                                implies !self.surface.has(nb(st, ijk, m)) by {
                            if m == l {
                                // An empty site is never in the surface set.
                                if self.surface.has(nn) {
                                    assert(b1.site(nn) == 1);
                                    assert(false);
                                }
                            }
                        }
                    }
                }
            } else {
                proof {
                    lemma_step_skip(st, faults, b0, b1, ijk, sub, l as int, nn, self.vacancies);
                }
                if maintain_surface {
                    if self.hidden_atom(nn) {
                        self.surface.remove(nn);
                        proof {
                            assert forall|c: IJK|
                                b1.site(c) == 1 && #[trigger] coordination(st, b1, c) < 12
                                    implies self.surface.has(c) by {
                                assert(c != nn);
                                assert(spre.has(c));
                            }
                        }
                    }
                    proof {
                        assert forall|m: int|
                            0 <= m < l + 1 && coordination(st, b1, #[trigger] nb(st, ijk, m)) == 12
                                implies !self.surface.has(nb(st, ijk, m)) by {
                            if m == l {
                                assert(!self.surface.has(nn));
                            } else {
                                assert(!spre.has(nb(st, ijk, m)));
                            }
                        }
                    }
                }
            }
            l += 1;
        }
        proof {
            lemma_eff_final(st, faults, b0, b1, ijk);
            assert forall|b: int, c: IJK|
                0 <= b < VAC_LISTS && #[trigger] self.vac_has(b, c) implies self.empty_at(c)
                && margin_ok(self.substrate_pos, c) && cls_ok(self.coord_of(c), b) by {
                assert(self.vacancies.has(b, c));
                assert(cls_ok(eff_coord(st, b0, b1, ijk, 12, c), b));
                assert(inner(c));
            }
            assert forall|c: IJK|
                self.empty_at(c) && margin_ok(self.substrate_pos, c) && 1 <= self.coord_of(c) <= 8
                    implies self.vac_has(#[trigger] self.coord_of(c) - 1, c) by {
                assert(inner(c));
                assert(eff_coord(st, b0, b1, ijk, 12, c) == self.coord_of(c));
                assert(self.vacancies.has(self.coord_of(c) - 1, c));
            }
        }
    }
}

} // verus!

verus! {

impl Crystal {
    /// Remove `ijk` from whichever bucket holds it and show it is in none.
    #[verifier::rlimit(30)]
    fn unindex_site(&mut self, ijk: IJK)
        requires
            old(self).vacancies.wf(),
            forall|bx: int, by: int, c: IJK|
                0 <= bx < VAC_LISTS && 0 <= by < VAC_LISTS && bx != by ==> !(
                #[trigger] old(self).vac_has(bx, c) && #[trigger] old(self).vac_has(by, c)),
        ensures
            final(self).vacancies.wf(),
            forall|b: int| 0 <= b < VAC_LISTS ==> !final(self).vac_has(b, ijk),
            forall|b: int, c: IJK|
                0 <= b < VAC_LISTS && c != ijk ==> (#[trigger] final(self).vac_has(b, c) <==> old(
                    self,
                ).vac_has(b, c)),
            final(self).lattice == old(self).lattice,
            final(self).bulk == old(self).bulk,
            final(self).surface == old(self).surface,
            final(self).dirt == old(self).dirt,
            final(self).extrema == old(self).extrema,
            final(self).extrema_ijk == old(self).extrema_ijk,
            final(self).substrate_pos == old(self).substrate_pos,
            final(self).prob_list == old(self).prob_list,
            final(self).prob_list_num == old(self).prob_list_num,
            final(self).prob_list_log == old(self).prob_list_log,
    {
        let ghost vpre = self.vacancies;
        self.vacancies.recursive_remove(ijk, 0);
        proof {
            let b0 = first_bucket_with(vpre, ijk, 0);
            crate::storage::lemma_first_bucket_found(vpre, ijk, 0);
            assert forall|b: int| 0 <= b < VAC_LISTS implies !self.vac_has(b, ijk) by {
                if b != b0 {
                    assert(self.vacancies.list@[b] == vpre.list@[b]);
                    if vpre.has(b, ijk) {
                        crate::storage::lemma_first_bucket_min(vpre, ijk, 0, b);
                        assert(b0 < VAC_LISTS && vpre.has(b0, ijk));
                        assert(old(self).vac_has(b0, ijk));
                        assert(old(self).vac_has(b, ijk));
                        assert(false);
                    }
                }
            }
            assert forall|b: int, c: IJK| 0 <= b < VAC_LISTS && c != ijk implies (
            #[trigger] self.vac_has(b, c) <==> vpre.has(b, c)) by {
                if b != b0 {
                    assert(self.vacancies.list@[b] == vpre.list@[b]);
                }
            }
        }
    }

    /// Deposit a gold atom at `ijk`: no effect on an occupied site; on an
    /// empty one the store, the surface set, the extrema and the vacancy
    /// index are all brought up to date.
    pub fn add_atom(&mut self, ijk: IJK) -> (r: bool)
        requires
            old(self).inv(),
            interior2(ijk),
            old(self).bulk.number_of_atoms < usize::MAX,
        ensures
            final(self).inv(),
            r == old(self).empty_at(ijk),
            !r ==> *final(self) == *old(self),
            r ==> final(self).bulk.site(ijk) == 1,
            r ==> forall|c: IJK| c != ijk ==> final(self).bulk.site(c) == old(self).bulk.site(c),
            r ==> final(self).bulk.number_of_atoms == old(self).bulk.number_of_atoms + 1,
            r ==> final(self).surface.has(ijk),
            r ==> forall|m: int|
                0 <= m < 12 && final(self).coord_of(#[trigger] nb(old(self).lattice.stacking, ijk, m))
                    == 12 ==> !final(self).surface.has(nb(old(self).lattice.stacking, ijk, m)),
            r ==> final(self).bulk.i_min == if ijk.i < old(self).bulk.i_min { ijk.i } else { old(self).bulk.i_min },
            r ==> final(self).bulk.i_max == if ijk.i > old(self).bulk.i_max { ijk.i } else { old(self).bulk.i_max },
            r ==> final(self).bulk.j_min == if ijk.j < old(self).bulk.j_min { ijk.j } else { old(self).bulk.j_min },
            r ==> final(self).bulk.j_max == if ijk.j > old(self).bulk.j_max { ijk.j } else { old(self).bulk.j_max },
            r ==> final(self).bulk.k_min == if ijk.k < old(self).bulk.k_min { ijk.k } else { old(self).bulk.k_min },
            r ==> final(self).bulk.k_max == if ijk.k > old(self).bulk.k_max { ijk.k } else { old(self).bulk.k_max },
            final(self).lattice == old(self).lattice,
            final(self).dirt == old(self).dirt,
            final(self).substrate_pos == old(self).substrate_pos,
            final(self).prob_list == old(self).prob_list,
            final(self).prob_list_num == old(self).prob_list_num,
            final(self).extrema.x_min <= old(self).extrema.x_min,
            final(self).extrema.x_max >= old(self).extrema.x_max,
            final(self).extrema.y_min <= old(self).extrema.y_min,
            final(self).extrema.y_max >= old(self).extrema.y_max,
            final(self).extrema.z_min <= old(self).extrema.z_min,
            final(self).extrema.z_max >= old(self).extrema.z_max,
    {
        let ghost pre = *old(self);
        if self.bulk.get(ijk, Atom::Empty) {
            self.unindex_site(ijk);
            proof {
                assert forall|b: int, c: IJK|
                    0 <= b < VAC_LISTS && #[trigger] self.vac_has(b, c) implies self.empty_at(c)
                    && margin_ok(self.substrate_pos, c) && cls_ok(self.coord_of(c), b) by {
                    assert(c != ijk);
                    assert(pre.vac_has(b, c));
                    assert(pre.coord_of(c) == self.coord_of(c));
                }
                assert forall|c: IJK|
                    c != ijk && self.empty_at(c) && margin_ok(self.substrate_pos, c) && 1
                        <= self.coord_of(c) <= 8 implies self.vac_has(
                    #[trigger] self.coord_of(c) - 1,
                    c,
                ) by {
                    assert(pre.coord_of(c) == self.coord_of(c));
                    assert(pre.vac_has(pre.coord_of(c) - 1, c));
                }
                assert forall|bx: int, by: int, c: IJK|
                    0 <= bx < VAC_LISTS && 0 <= by < VAC_LISTS && bx != by implies !(
                #[trigger] self.vac_has(bx, c) && #[trigger] self.vac_has(by, c)) by {
                    if c != ijk && self.vac_has(bx, c) && self.vac_has(by, c) {
                        assert(pre.vac_has(bx, c) && pre.vac_has(by, c));
                    }
                }
                assert forall|c: IJK| #[trigger] self.surface.has(c) implies self.gold(c) by {
                    assert(pre.surface.has(c));
                }
                assert forall|c: IJK|
                    self.gold(c) && #[trigger] self.coord_of(c) < 12 implies self.surface.has(
                    c,
                ) by {
                    assert(pre.coord_of(c) == self.coord_of(c));
                    assert(pre.gold(c) && pre.coord_of(c) < 12);
                }
            }
            self.deposit_gold(ijk, true);
            true
        } else {
            false
        }
    }

    /// Deposit a contaminant at `ijk`: no effect on an occupied site; on an
    /// empty one the site is marked, recorded in the contaminant set, folded
    /// into the extrema, and withdrawn from the vacancy index. Contaminants
    /// change no coordination number and never open new vacancies.
    #[verifier::rlimit(30)]
    pub fn add_dirt(&mut self, ijk: IJK) -> (r: bool)
        requires
            old(self).inv(),
            interior2(ijk),
            old(self).bulk.number_of_atoms < usize::MAX,
        ensures
            final(self).inv(),
            r == old(self).empty_at(ijk),
            !r ==> *final(self) == *old(self),
            r ==> final(self).bulk.site(ijk) == 2,
            r ==> forall|c: IJK| c != ijk ==> final(self).bulk.site(c) == old(self).bulk.site(c),
            r ==> final(self).bulk.number_of_atoms == old(self).bulk.number_of_atoms + 1,
            r ==> final(self).dirt.has(ijk),
            r ==> forall|b: int| 0 <= b < VAC_LISTS ==> !final(self).vac_has(b, ijk),
            forall|b: int, c: IJK|
                0 <= b < VAC_LISTS && c != ijk ==> (#[trigger] final(self).vac_has(b, c) <==> old(
                    self,
                ).vac_has(b, c)),
            final(self).surface == old(self).surface,
            final(self).lattice == old(self).lattice,
            final(self).substrate_pos == old(self).substrate_pos,
            final(self).prob_list == old(self).prob_list,
            final(self).prob_list_num == old(self).prob_list_num,
            final(self).extrema.x_min <= old(self).extrema.x_min,
            final(self).extrema.x_max >= old(self).extrema.x_max,
            final(self).extrema.y_min <= old(self).extrema.y_min,
            final(self).extrema.y_max >= old(self).extrema.y_max,
            final(self).extrema.z_min <= old(self).extrema.z_min,
            final(self).extrema.z_max >= old(self).extrema.z_max,
    {
        let ghost pre = *old(self);
        let ghost st = self.lattice.stacking;
        if self.bulk.get(ijk, Atom::Empty) {
            let ghost b0 = self.bulk;
            self.set_occupied_checked(ijk, Atom::Dirt);
            let ghost b1 = self.bulk;
            proof {
                lemma_coordination_nongold(st, b0, b1, ijk);
            }
            self.dirt.add(ijk);
            self.update_extrema(ijk);
            proof {
                assert forall|bx: int, by: int, c: IJK|
                    0 <= bx < VAC_LISTS && 0 <= by < VAC_LISTS && bx != by implies !(
                #[trigger] self.vac_has(bx, c) && #[trigger] self.vac_has(by, c)) by {
                    if self.vac_has(bx, c) && self.vac_has(by, c) {
                        assert(pre.vac_has(bx, c) && pre.vac_has(by, c));
                    }
                }
            }
            let ghost vmid = *self;
            self.unindex_site(ijk);
            proof {
                assert forall|b: int, c: IJK| 0 <= b < VAC_LISTS && c != ijk implies (
                #[trigger] self.vac_has(b, c) <==> pre.vac_has(b, c)) by {
                    assert(self.vac_has(b, c) <==> vmid.vac_has(b, c));
                    assert(vmid.vac_has(b, c) <==> pre.vac_has(b, c));
                }
                assert forall|b: int, c: IJK|
                    0 <= b < VAC_LISTS && #[trigger] self.vac_has(b, c) implies self.empty_at(c)
                    && margin_ok(self.substrate_pos, c) && cls_ok(self.coord_of(c), b) by {
                    assert(c != ijk);
                    assert(pre.vac_has(b, c));
                    assert(coordination(st, b1, c) == coordination(st, b0, c));
                }
                assert forall|c: IJK|
                    self.empty_at(c) && margin_ok(self.substrate_pos, c) && 1 <= self.coord_of(c)
                        <= 8 implies self.vac_has(#[trigger] self.coord_of(c) - 1, c) by {
                    assert(c != ijk);
                    assert(coordination(st, b1, c) == coordination(st, b0, c));
                    assert(pre.vac_has(pre.coord_of(c) - 1, c));
                }
                assert forall|bx: int, by: int, c: IJK|
                    0 <= bx < VAC_LISTS && 0 <= by < VAC_LISTS && bx != by implies !(
                #[trigger] self.vac_has(bx, c) && #[trigger] self.vac_has(by, c)) by {
                    if c != ijk && self.vac_has(bx, c) && self.vac_has(by, c) {
                        assert(pre.vac_has(bx, c) && pre.vac_has(by, c));
                    }
                }
                assert forall|c: IJK| #[trigger] self.surface.has(c) implies self.gold(c) by {
                    assert(pre.surface.has(c));
                    assert(c != ijk);
                }
                assert forall|c: IJK|
                    self.gold(c) && #[trigger] self.coord_of(c) < 12 implies self.surface.has(
                    c,
                ) by {
                    assert(c != ijk);
                    assert(coordination(st, b1, c) == coordination(st, b0, c));
                    assert(pre.gold(c) && pre.coord_of(c) < 12);
                }
                assert forall|c: IJK| #[trigger] self.dirt.has(c) <==> self.bulk.site(c) == 2 by {
                    if c != ijk {
                        assert(self.dirt.has(c) <==> pre.dirt.has(c));
                    }
                }
            }
            true
        } else {
            false
        }
    }
}

} // verus!

verus! {

/// `c` comes strictly before the scan position `(i, j, k)` in raster order.
pub open spec fn scan_lt(c: IJK, i: int, j: int, k: int) -> bool {
    c.i < i || (c.i == i && (c.j < j || (c.j == j && c.k < k)))
}

/// `c` lies in the closed coordinate box.
pub open spec fn in_box(c: IJK, ilo: int, ihi: int, jlo: int, jhi: int, klo: int, khi: int) -> bool {
    ilo <= c.i <= ihi && jlo <= c.j <= jhi && klo <= c.k <= khi
}

/// A positive neighbor count exhibits a deposited neighbor.
proof fn lemma_count_pos(st: Stackings, bulk: Bulk, c: IJK, l: int)
    requires
        0 <= l <= 12,
        count_gold_nbrs(st, bulk, c, l) > 0,
    ensures
        exists|m: int| 0 <= m < l && gold_at(bulk, nb(st, c, m)),
    decreases l,
{
    if l > 0 {
        if gold_at(bulk, nb(st, c, l - 1)) {
            assert(0 <= l - 1 < l && gold_at(bulk, nb(st, c, l - 1)));
        } else {
            lemma_count_pos(st, bulk, c, l - 1);
            let m = choose|m: int| 0 <= m < l - 1 && gold_at(bulk, nb(st, c, m));
            assert(0 <= m < l && gold_at(bulk, nb(st, c, m)));
        }
    }
}

impl Crystal {
    /// Rebuild the vacancy index from scratch by scanning one site beyond the
    /// occupied bounding box: afterwards bucket `b` holds exactly the empty
    /// margin sites of coordination `b + 1`. Required after any change to the
    /// stacking-fault list or the substrate plane.
    #[verifier::loop_isolation(false)]
    #[verifier::rlimit(100)]
    pub fn update_vacancies(&mut self)
        requires
            old(self).inv_base(),
            old(self).inv_bulk(),
        ensures
            final(self).inv_base(),
            final(self).inv_bulk(),
            final(self).inv_vac(),
            forall|b: int, c: IJK|
                0 <= b < VAC_LISTS ==> (#[trigger] final(self).vac_has(b, c) <==> (final(self).empty_at(c)
                    && margin_ok(final(self).substrate_pos, c) && final(self).coord_of(c)
                    == b + 1 && b < 8)),
            final(self).lattice == old(self).lattice,
            final(self).bulk == old(self).bulk,
            final(self).surface == old(self).surface,
            final(self).dirt == old(self).dirt,
            final(self).extrema == old(self).extrema,
            final(self).extrema_ijk == old(self).extrema_ijk,
            final(self).substrate_pos == old(self).substrate_pos,
            final(self).prob_list == old(self).prob_list,
            final(self).prob_list_num == old(self).prob_list_num,
            final(self).prob_list_log == old(self).prob_list_log,
            old(self).inv_surface() ==> final(self).inv_surface(),
            old(self).inv_dirt() ==> final(self).inv_dirt(),
    {
        let ghost pre = *old(self);
        let ghost st = self.lattice.stacking;
        let ghost faults = self.lattice.stacking_faults@;
        let ghost sub = self.substrate_pos;
        let i_lo: u16 = self.bulk.i_min - 1;
        let i_hi: u16 = self.bulk.i_max + 1;
        let j_lo: u16 = self.bulk.j_min - 1;
        let j_hi: u16 = self.bulk.j_max + 1;
        let k_lo: u16 = self.bulk.k_min - 1;
        let k_hi: u16 = self.bulk.k_max + 1;
        let ghost ilo = i_lo as int;
        let ghost ihi = i_hi as int;
        let ghost jlo = j_lo as int;
        let ghost jhi = j_hi as int;
        let ghost klo = k_lo as int;
        let ghost khi = k_hi as int;
        self.vacancies = Vacancies::new();
        let mut i: u16 = i_lo;
        while i <= i_hi
            invariant
                i_lo <= i <= i_hi + 1,
                self.lattice == pre.lattice,
                self.bulk == pre.bulk,
                self.surface == pre.surface,
                self.dirt == pre.dirt,
                self.extrema == pre.extrema,
                self.extrema_ijk == pre.extrema_ijk,
                self.substrate_pos == pre.substrate_pos,
                self.prob_list == pre.prob_list,
                self.prob_list_num == pre.prob_list_num,
                self.prob_list_log == pre.prob_list_log,
                self.vacancies.wf(),
                forall|b: int, c: IJK|
                    0 <= b < VAC_LISTS && #[trigger] self.vac_has(b, c) ==> b < 8
                        && self.empty_at(c) && margin_ok(sub, c) && self.coord_of(c) == b + 1
                        && in_box(c, ilo, ihi, jlo, jhi, klo, khi) && scan_lt(c, i as int, jlo, klo),
                forall|c: IJK|
                    in_box(c, ilo, ihi, jlo, jhi, klo, khi) && scan_lt(c, i as int, jlo, klo)
                        && self.empty_at(c) && margin_ok(sub, c) && 1 <= #[trigger] self.coord_of(c)
                        <= 8 ==> self.vac_has(self.coord_of(c) - 1, c),
            decreases i_hi + 1 - i,
        {
            let mut j: u16 = j_lo;
            while j <= j_hi
                invariant
                    j_lo <= j <= j_hi + 1,
                    i_lo <= i <= i_hi,
                    self.lattice == pre.lattice,
                    self.bulk == pre.bulk,
                    self.surface == pre.surface,
                    self.dirt == pre.dirt,
                    self.extrema == pre.extrema,
                    self.extrema_ijk == pre.extrema_ijk,
                    self.substrate_pos == pre.substrate_pos,
                    self.prob_list == pre.prob_list,
                    self.prob_list_num == pre.prob_list_num,
                    self.prob_list_log == pre.prob_list_log,
                    self.vacancies.wf(),
                    forall|b: int, c: IJK|
                        0 <= b < VAC_LISTS && #[trigger] self.vac_has(b, c) ==> b < 8
                            && self.empty_at(c) && margin_ok(sub, c) && self.coord_of(c) == b + 1
                            && in_box(c, ilo, ihi, jlo, jhi, klo, khi) && scan_lt(c, i as int, j as int, klo),
                    forall|c: IJK|
                        in_box(c, ilo, ihi, jlo, jhi, klo, khi) && scan_lt(c, i as int, j as int, klo)
                            && self.empty_at(c) && margin_ok(sub, c) && 1 <= #[trigger] self.coord_of(c)
                            <= 8 ==> self.vac_has(self.coord_of(c) - 1, c),
                decreases j_hi + 1 - j,
            {
                let mut k: u16 = k_lo;
                while k <= k_hi
                    invariant
                        k_lo <= k <= k_hi + 1,
                        j_lo <= j <= j_hi,
                        i_lo <= i <= i_hi,
                        self.lattice == pre.lattice,
                        self.bulk == pre.bulk,
                        self.surface == pre.surface,
                        self.dirt == pre.dirt,
                        self.extrema == pre.extrema,
                        self.extrema_ijk == pre.extrema_ijk,
                        self.substrate_pos == pre.substrate_pos,
                        self.prob_list == pre.prob_list,
                        self.prob_list_num == pre.prob_list_num,
                        self.prob_list_log == pre.prob_list_log,
                        self.vacancies.wf(),
                        forall|b: int, c: IJK|
                            0 <= b < VAC_LISTS && #[trigger] self.vac_has(b, c) ==> b < 8
                                && self.empty_at(c) && margin_ok(sub, c) && self.coord_of(c) == b + 1
                                && in_box(c, ilo, ihi, jlo, jhi, klo, khi)
                                && scan_lt(c, i as int, j as int, k as int),
                        forall|c: IJK|
                            in_box(c, ilo, ihi, jlo, jhi, klo, khi)
                                && scan_lt(c, i as int, j as int, k as int) && self.empty_at(c)
                                && margin_ok(sub, c) && 1 <= #[trigger] self.coord_of(c) <= 8
                                ==> self.vac_has(self.coord_of(c) - 1, c),
                    decreases k_hi + 1 - k,
                {
                    let ghost entry = *self;
                    let ghost vpre = self.vacancies;
                    let c = IJK { i, j, k };
                    if c.i > 1 && c.i < MAX_I - 2 && c.j > 1 && c.j < MAX_J - 2 && c.k
                        > self.substrate_pos && c.k < MAX_K - 2 && self.bulk.get(c, Atom::Empty) {
                        let n = self.number_of_neighbors(c);
                        if n >= 1 && n <= 8 {
                            self.vacancies.list[n - 1].add(c);
                            proof {
                                assert forall|b: int, x: IJK|
                                    0 <= b < VAC_LISTS && #[trigger] self.vac_has(b, x) implies b
                                    < 8 && self.empty_at(x) && margin_ok(sub, x) && self.coord_of(x)
                                    == b + 1 && in_box(x, ilo, ihi, jlo, jhi, klo, khi) && scan_lt(
                                    x,
                                    i as int,
                                    j as int,
                                    k + 1,
                                ) by {
                                    assert(entry.coord_of(x) == self.coord_of(x));
                                    assert(entry.empty_at(x) == self.empty_at(x));
                                    if b == n - 1 && x == c {
                                        assert(entry.coord_of(c) == n);
                                    } else {
                                        if b != n - 1 {
                                            assert(self.vacancies.list@[b] == vpre.list@[b]);
                                        }
                                        assert(entry.vac_has(b, x));
                                    }
                                }
                                assert forall|x: IJK|
                                    in_box(x, ilo, ihi, jlo, jhi, klo, khi) && scan_lt(
                                        x,
                                        i as int,
                                        j as int,
                                        k + 1,
                                    ) && self.empty_at(x) && margin_ok(sub, x) && 1
                                    <= #[trigger] self.coord_of(x) <= 8 implies self.vac_has(
                                    self.coord_of(x) - 1,
                                    x,
                                ) by {
                                    assert(entry.coord_of(x) == self.coord_of(x));
                                    assert(entry.empty_at(x) == self.empty_at(x));
                                    if x == c {
                                        assert(self.vac_has(n - 1, c));
                                    } else {
                                        assert(scan_lt(x, i as int, j as int, k as int));
                                        assert(entry.vac_has(entry.coord_of(x) - 1, x));
                                        assert(self.vacancies.list@[self.coord_of(x) - 1].has(x));
                                    }
                                }
                            }
                        } else {
                            proof {
                                lemma_scan_advance_trivial(
                                    *self,
                                    vpre,
                                    c,
                                    sub,
                                    ilo,
                                    ihi,
                                    jlo,
                                    jhi,
                                    klo,
                                    khi,
                                    i as int,
                                    j as int,
                                    k as int,
                                );
                            }
                        }
                    } else {
                        proof {
                            lemma_scan_advance_trivial(
                                *self,
                                vpre,
                                c,
                                sub,
                                ilo,
                                ihi,
                                jlo,
                                jhi,
                                klo,
                                khi,
                                i as int,
                                j as int,
                                k as int,
                            );
                        }
                    }
                    k += 1;
                }
                proof {
                    assert forall|c: IJK|
                        in_box(c, ilo, ihi, jlo, jhi, klo, khi) && scan_lt(
                            c,
                            i as int,
                            j + 1,
                            klo,
                        ) implies scan_lt(c, i as int, j as int, khi + 1) by {}
                }
                j += 1;
            }
            proof {
                assert forall|c: IJK|
                    in_box(c, ilo, ihi, jlo, jhi, klo, khi) && scan_lt(c, i + 1, jlo, klo)
                        implies scan_lt(c, i as int, jhi + 1, klo) by {}
            }
            i += 1;
        }
        proof {
            // Every tracked site has a deposited neighbor, which pins it one
            // step inside the scanned box.
            assert forall|b: int, c: IJK|
                0 <= b < VAC_LISTS implies (#[trigger] self.vac_has(b, c) <==> (self.empty_at(c)
                    && margin_ok(self.substrate_pos, c) && self.coord_of(c) == b + 1 && b < 8)) by {
                if self.empty_at(c) && margin_ok(self.substrate_pos, c) && self.coord_of(c) == b + 1
                    && b < 8 {
                    lemma_count_pos(st, self.bulk, c, 12);
                    let m = choose|m: int| 0 <= m < 12 && gold_at(self.bulk, nb(st, c, m));
                    let g = nb(st, c, m);
                    lemma_nb_range(st, faults, c, m);
                    assert(self.bulk.site(g) != 0);
                    assert(in_box(c, ilo, ihi, jlo, jhi, klo, khi));
                    assert(scan_lt(c, i_hi + 1, jlo, klo));
                    assert(self.vac_has(self.coord_of(c) - 1, c));
                }
            }
            assert forall|bx: int, by: int, c: IJK|
                0 <= bx < VAC_LISTS && 0 <= by < VAC_LISTS && bx != by implies !(
            #[trigger] self.vac_has(bx, c) && #[trigger] self.vac_has(by, c)) by {}
            if pre.inv_surface() {
                assert forall|c: IJK| #[trigger] self.surface.has(c) implies self.gold(c) by {
                    assert(pre.surface.has(c));
                }
                assert forall|c: IJK|
                    self.gold(c) && #[trigger] self.coord_of(c) < 12 implies self.surface.has(
                    c,
                ) by {
                    assert(pre.coord_of(c) == self.coord_of(c));
                    assert(pre.gold(c) && pre.coord_of(c) < 12);
                }
            }
            if pre.inv_dirt() {
                assert forall|c: IJK| #[trigger] self.dirt.has(c) <==> self.bulk.site(c) == 2 by {
                    assert(pre.dirt.has(c) <==> pre.bulk.site(c) == 2);
                }
            }
        }
    }
}

/// A scan step that inserts nothing preserves both scan invariants: the site
/// under the cursor is not a tracked vacancy.
proof fn lemma_scan_advance_trivial(
    s: Crystal,
    v: Vacancies,
    c: IJK,
    sub: u16,
    ilo: int,
    ihi: int,
    jlo: int,
    jhi: int,
    klo: int,
    khi: int,
    i: int,
    j: int,
    k: int,
)
    requires
        s.vacancies == v,
        forall|b: int, x: IJK|
            0 <= b < VAC_LISTS && #[trigger] s.vac_has(b, x) ==> b < 8 && s.empty_at(x)
                && margin_ok(sub, x) && s.coord_of(x) == b + 1 && in_box(x, ilo, ihi, jlo, jhi, klo, khi)
                && scan_lt(x, i, j, k),
        forall|x: IJK|
            in_box(x, ilo, ihi, jlo, jhi, klo, khi) && scan_lt(x, i, j, k) && s.empty_at(x)
                && margin_ok(sub, x) && 1 <= #[trigger] s.coord_of(x) <= 8 ==> s.vac_has(
                s.coord_of(x) - 1,
                x,
            ),
        c.i == i && c.j == j && c.k == k,
        !(s.empty_at(c) && margin_ok(sub, c) && 1 <= s.coord_of(c) <= 8),
    ensures
        forall|b: int, x: IJK|
            0 <= b < VAC_LISTS && #[trigger] s.vac_has(b, x) ==> b < 8 && s.empty_at(x)
                && margin_ok(sub, x) && s.coord_of(x) == b + 1 && in_box(x, ilo, ihi, jlo, jhi, klo, khi)
                && scan_lt(x, i, j, k + 1),
        forall|x: IJK|
            in_box(x, ilo, ihi, jlo, jhi, klo, khi) && scan_lt(x, i, j, k + 1) && s.empty_at(x)
                && margin_ok(sub, x) && 1 <= #[trigger] s.coord_of(x) <= 8 ==> s.vac_has(
                s.coord_of(x) - 1,
                x,
            ),
{
    assert forall|x: IJK|
        in_box(x, ilo, ihi, jlo, jhi, klo, khi) && scan_lt(x, i, j, k + 1) && s.empty_at(x)
            && margin_ok(sub, x) && 1 <= #[trigger] s.coord_of(x) <= 8 implies s.vac_has(
        s.coord_of(x) - 1,
        x,
    ) by {
        if x == c {
            assert(false);
        } else {
            assert(scan_lt(x, i, j, k));
        }
    }
}

} // verus!

verus! {

impl Crystal {
    /// Rebuild the surface set from scratch by scanning the occupied bounding
    /// box: afterwards it holds exactly the deposited sites that are not
    /// fully surrounded.
    #[verifier::loop_isolation(false)]
    #[verifier::rlimit(100)]
    fn rebuild_surface(&mut self)
        requires
            old(self).inv_base(),
            old(self).inv_bulk(),
        ensures
            final(self).inv_base(),
            final(self).inv_bulk(),
            forall|c: IJK|
                #[trigger] final(self).surface.has(c) <==> (final(self).gold(c)
                    && final(self).coord_of(c) < 12),
            final(self).surface.wf(),
            final(self).lattice == old(self).lattice,
            final(self).bulk == old(self).bulk,
            final(self).dirt == old(self).dirt,
            final(self).vacancies == old(self).vacancies,
            final(self).extrema == old(self).extrema,
            final(self).extrema_ijk == old(self).extrema_ijk,
            final(self).substrate_pos == old(self).substrate_pos,
            final(self).prob_list == old(self).prob_list,
            final(self).prob_list_num == old(self).prob_list_num,
            final(self).prob_list_log == old(self).prob_list_log,
    {
        let ghost pre = *old(self);
        let ghost st = self.lattice.stacking;
        let i_lo: u16 = self.bulk.i_min;
        let i_hi: u16 = self.bulk.i_max;
        let j_lo: u16 = self.bulk.j_min;
        let j_hi: u16 = self.bulk.j_max;
        let k_lo: u16 = self.bulk.k_min;
        let k_hi: u16 = self.bulk.k_max;
        let ghost ilo = i_lo as int;
        let ghost ihi = i_hi as int;
        let ghost jlo = j_lo as int;
        let ghost jhi = j_hi as int;
        let ghost klo = k_lo as int;
        let ghost khi = k_hi as int;
        self.surface = SurfaceAtoms::new();
        let mut i: u16 = i_lo;
        while i <= i_hi
            invariant
                i_lo <= i <= i_hi + 1,
                self.lattice == pre.lattice,
                self.bulk == pre.bulk,
                self.dirt == pre.dirt,
                self.vacancies == pre.vacancies,
                self.extrema == pre.extrema,
                self.extrema_ijk == pre.extrema_ijk,
                self.substrate_pos == pre.substrate_pos,
                self.prob_list == pre.prob_list,
                self.prob_list_num == pre.prob_list_num,
                self.prob_list_log == pre.prob_list_log,
                self.surface.wf(),
                forall|c: IJK|
                    #[trigger] self.surface.has(c) ==> self.gold(c) && self.coord_of(c) < 12
                        && in_box(c, ilo, ihi, jlo, jhi, klo, khi) && scan_lt(c, i as int, jlo, klo),
                forall|c: IJK|
                    in_box(c, ilo, ihi, jlo, jhi, klo, khi) && scan_lt(c, i as int, jlo, klo)
                        && self.gold(c) && #[trigger] self.coord_of(c) < 12 ==> self.surface.has(c),
            decreases i_hi + 1 - i,
        {
            let mut j: u16 = j_lo;
            while j <= j_hi
                invariant
                    j_lo <= j <= j_hi + 1,
                    i_lo <= i <= i_hi,
                    self.lattice == pre.lattice,
                    self.bulk == pre.bulk,
                    self.dirt == pre.dirt,
                    self.vacancies == pre.vacancies,
                    self.extrema == pre.extrema,
                    self.extrema_ijk == pre.extrema_ijk,
                    self.substrate_pos == pre.substrate_pos,
                    self.prob_list == pre.prob_list,
                    self.prob_list_num == pre.prob_list_num,
                    self.prob_list_log == pre.prob_list_log,
                    self.surface.wf(),
                    forall|c: IJK|
                        #[trigger] self.surface.has(c) ==> self.gold(c) && self.coord_of(c) < 12
                            && in_box(c, ilo, ihi, jlo, jhi, klo, khi) && scan_lt(c, i as int, j as int, klo),
                    forall|c: IJK|
                        in_box(c, ilo, ihi, jlo, jhi, klo, khi) && scan_lt(c, i as int, j as int, klo)
                            && self.gold(c) && #[trigger] self.coord_of(c) < 12 ==> self.surface.has(c),
                decreases j_hi + 1 - j,
            {
                let mut k: u16 = k_lo;
                while k <= k_hi
                    invariant
                        k_lo <= k <= k_hi + 1,
                        j_lo <= j <= j_hi,
                        i_lo <= i <= i_hi,
                        self.lattice == pre.lattice,
                        self.bulk == pre.bulk,
                        self.dirt == pre.dirt,
                        self.vacancies == pre.vacancies,
                        self.extrema == pre.extrema,
                        self.extrema_ijk == pre.extrema_ijk,
                        self.substrate_pos == pre.substrate_pos,
                        self.prob_list == pre.prob_list,
                        self.prob_list_num == pre.prob_list_num,
                        self.prob_list_log == pre.prob_list_log,
                        self.surface.wf(),
                        forall|c: IJK|
                            #[trigger] self.surface.has(c) ==> self.gold(c) && self.coord_of(c)
                                < 12 && in_box(c, ilo, ihi, jlo, jhi, klo, khi)
                                && scan_lt(c, i as int, j as int, k as int),
                        forall|c: IJK|
                            in_box(c, ilo, ihi, jlo, jhi, klo, khi)
                                && scan_lt(c, i as int, j as int, k as int) && self.gold(c)
                                && #[trigger] self.coord_of(c) < 12 ==> self.surface.has(c),
                    decreases k_hi + 1 - k,
                {
                    let ghost entry = *self;
                    let c = IJK { i, j, k };
                    if self.bulk.get(c, Atom::Gold) {
                        if !self.hidden_atom(c) {
                            self.surface.add(c);
                            proof {
                                assert forall|x: IJK| #[trigger] self.surface.has(x) implies
                                    self.gold(x) && self.coord_of(x) < 12 && in_box(
                                    x,
                                    ilo,
                                    ihi,
                                    jlo,
                                    jhi,
                                    klo,
                                    khi,
                                ) && scan_lt(x, i as int, j as int, k + 1) by {
                                    if x != c {
                                        assert(entry.surface.has(x));
                                    } else {
                                        lemma_count_bounds(st, self.bulk, c, 12);
                                    }
                                }
                                assert forall|x: IJK|
                                    in_box(x, ilo, ihi, jlo, jhi, klo, khi) && scan_lt(
                                        x,
                                        i as int,
                                        j as int,
                                        k + 1,
                                    ) && self.gold(x) && #[trigger] self.coord_of(x) < 12
                                    implies self.surface.has(x) by {
                                    if x != c {
                                        assert(scan_lt(x, i as int, j as int, k as int));
                                        assert(entry.coord_of(x) == self.coord_of(x));
                                        assert(entry.gold(x) == self.gold(x));
                                        assert(entry.surface.has(x));
                                    }
                                }
                            }
                        } else {
                            proof {
                                assert forall|x: IJK|
                                    in_box(x, ilo, ihi, jlo, jhi, klo, khi) && scan_lt(
                                        x,
                                        i as int,
                                        j as int,
                                        k + 1,
                                    ) && self.gold(x) && #[trigger] self.coord_of(x) < 12
                                    implies self.surface.has(x) by {
                                    assert(entry.coord_of(x) == self.coord_of(x));
                                    if x == c {
                                        assert(false);
                                    } else {
                                        assert(scan_lt(x, i as int, j as int, k as int));
                                    }
                                }
                            }
                        }
                    } else {
                        proof {
                            assert forall|x: IJK|
                                in_box(x, ilo, ihi, jlo, jhi, klo, khi) && scan_lt(
                                    x,
                                    i as int,
                                    j as int,
                                    k + 1,
                                ) && self.gold(x) && #[trigger] self.coord_of(x) < 12
                                implies self.surface.has(x) by {
                                assert(entry.coord_of(x) == self.coord_of(x));
                                if x == c {
                                    assert(false);
                                } else {
                                    assert(scan_lt(x, i as int, j as int, k as int));
                                }
                            }
                        }
                    }
                    k += 1;
                }
                j += 1;
            }
            i += 1;
        }
        proof {
            assert forall|c: IJK| #[trigger] self.surface.has(c) <==> (self.gold(c)
                && self.coord_of(c) < 12) by {
                if self.gold(c) && self.coord_of(c) < 12 {
                    assert(self.bulk.site(c) != 0);
                    assert(in_box(c, ilo, ihi, jlo, jhi, klo, khi));
                    assert(scan_lt(c, i_hi + 1, jlo, klo));
                }
            }
        }
    }

    /// Pick a growth site by the two-stage weighted draw: a bucket drawn
    /// with probability proportional to its population times its configured
    /// weight (the first bucket whose weighted prefix sum reaches a uniform
    /// draw below the total), then a uniform member of it. The center is the
    /// sentinel when no growth is possible: when the weighted total is zero,
    /// or when the draw lands on an empty zero-weight bucket at the boundary
    /// (a draw of zero always selects the first bucket).
    #[verifier::loop_isolation(false)]
    pub fn random_vacancy(&self) -> (r: IJK)
        requires
            self.inv(),
        ensures
            self.weight_total() == 0 ==> r == center_ijk(),
            self.weight_total() > 0 ==> exists|draw: int, idx: int|
                #[trigger] self.valid_pick(draw, idx) && r == self.picked_site(draw, idx),
            r == center_ijk() || exists|b: int|
                0 <= b < VAC_LISTS && #[trigger] self.vac_has(b, r),
            r == center_ijk() || (self.empty_at(r) && margin_ok(self.substrate_pos, r)
                && interior2(r)),
    {
        let (prob_sum, acc) = self.weight_prefix_sums();
        if acc == 0 {
            return center();
        }
        let random_number = rand_below(acc);
        let chosen_list = self.bucket_of_draw(&prob_sum, random_number);
        let ghost draw = random_number as int;
        let len = self.vacancies.list[chosen_list].len();
        if len == 0 {
            proof {
                assert(self.valid_pick(draw, 0) && center_ijk() == self.picked_site(draw, 0));
            }
            return center();
        }
        let idx = rand_below(len as u128) as usize;
        let r = self.vacancies.list[chosen_list].list[idx];
        proof {
            assert(self.valid_pick(draw, idx as int) && r == self.picked_site(draw, idx as int));
            assert(self.vacancies.list@[chosen_list as int].list@.contains(r));
            assert(self.vac_has(chosen_list as int, r));
        }
        r
    }

    /// Weight of bucket `b` in the growth draw: its configured probability
    /// weight times its population.
    pub open spec fn bucket_weight(self, b: int) -> int {
        self.prob_list@[b] * self.vacancies.list@[b].list@.len()
    }

    /// Sum of the weights of the buckets before `b`.
    pub open spec fn weight_prefix(self, b: int) -> int
        decreases b,
    {
        if b <= 0 {
            0
        } else {
            self.weight_prefix(b - 1) + self.bucket_weight(b - 1)
        }
    }

    /// Total weighted population of the vacancy index: growth is possible
    /// exactly when it is positive.
    pub open spec fn weight_total(self) -> int {
        self.weight_prefix(VAC_LISTS as int)
    }

    /// The bucket a draw selects, scanning from `b`: the first one whose
    /// weighted prefix sum is at or past the draw (the last bucket closes
    /// the scan, its prefix sum being the total).
    pub open spec fn bucket_of_draw_from(self, draw: int, b: int) -> int
        decreases VAC_LISTS - b,
    {
        if b >= VAC_LISTS - 1 {
            VAC_LISTS as int - 1
        } else if self.weight_prefix(b + 1) >= draw {
            b
        } else {
            self.bucket_of_draw_from(draw, b + 1)
        }
    }

    /// The bucket a draw selects.
    pub open spec fn chosen_bucket(self, draw: int) -> int {
        self.bucket_of_draw_from(draw, 0)
    }

    /// The outcomes one weighted pick admits: a draw below the total and a
    /// member index of the selected bucket (zero when that bucket is empty).
    pub open spec fn valid_pick(self, draw: int, idx: int) -> bool {
        let n = self.vacancies.list@[self.chosen_bucket(draw)].list@.len();
        &&& 0 <= draw < self.weight_total()
        &&& if n == 0 {
            idx == 0
        } else {
            0 <= idx < n
        }
    }

    /// The site a weighted pick outcome selects: the `idx`-th member of the
    /// drawn bucket, or the center sentinel when that bucket is empty.
    pub open spec fn picked_site(self, draw: int, idx: int) -> IJK {
        let b = self.chosen_bucket(draw);
        if self.vacancies.list@[b].list@.len() == 0 {
            center_ijk()
        } else {
            self.vacancies.list@[b].list@[idx]
        }
    }

    /// The weighted prefix sums of the nine buckets, and their total.
    #[verifier::loop_isolation(false)]
    fn weight_prefix_sums(&self) -> (r: (Vec<u128>, u128))
        requires
            self.inv_base(),
        ensures
            r.0@.len() == VAC_LISTS,
            forall|m: int| 0 <= m < VAC_LISTS ==> r.0@[m] == self.weight_prefix(m + 1),
            r.1 == self.weight_total(),
    {
        let mut prob_sum: Vec<u128> = Vec::new();
        let mut acc: u128 = 0;
        let mut index: usize = 0;
        while index < 9
            invariant
                index <= 9,
                prob_sum@.len() == index,
                acc == self.weight_prefix(index as int),
                acc <= index * 0x1_0000_0000_0000_0000_0000_0000_0000,
                forall|m: int| 0 <= m < index ==> prob_sum@[m] == self.weight_prefix(m + 1),
            decreases 9 - index,
        {
            let weight = self.prob_list[index];
            let blen = self.vacancies.list[index].len();
            proof {
                lemma_prob_row_bound(self.prob_list_num as int, index as int);
                assert(weight <= 0x1_0000_0000_0000);
                assert((weight as int) * (blen as int)
                    <= 0x1_0000_0000_0000_0000_0000_0000_0000) by (nonlinear_arith)
                    requires
                        0 <= weight <= 0x1_0000_0000_0000,
                        0 <= blen < 0x1_0000_0000_0000_0000,
                ;
            }
            let w = weight as u128 * blen as u128;
            acc = acc + w;
            prob_sum.push(acc);
            index += 1;
        }
        (prob_sum, acc)
    }

    /// The first bucket whose weighted prefix sum reaches the draw.
    #[verifier::loop_isolation(false)]
    fn bucket_of_draw(&self, prob_sum: &Vec<u128>, draw: u128) -> (b: usize)
        requires
            prob_sum@.len() == VAC_LISTS,
            forall|m: int| 0 <= m < VAC_LISTS ==> prob_sum@[m] == self.weight_prefix(m + 1),
            draw < self.weight_total(),
        ensures
            b < VAC_LISTS,
            b == self.chosen_bucket(draw as int),
    {
        let mut chosen_list: usize = 0;
        let mut t: usize = 9;
        while t > 0
            invariant
                t <= 9,
                chosen_list < 9,
                t < 9 ==> chosen_list == self.bucket_of_draw_from(draw as int, t as int),
            decreases t,
        {
            t -= 1;
            if prob_sum[t] >= draw {
                chosen_list = t;
            } else {
                proof {
                    // The last bucket always qualifies: its prefix sum is
                    // the whole total, which exceeds the draw.
                    assert(t < 8);
                }
            }
        }
        chosen_list
    }
}

/// Every configured growth weight stays well below 2^48, so a weighted
/// bucket population always fits comfortably in 128 bits.
proof fn lemma_prob_row_bound(num: int, b: int)
    requires
        0 <= b < 9,
    ensures
        spec_prob_row(num)[b] <= 0x1_0000_0000_0000,
{
}

/// Where the bucket scan lands: within range; past its start only when every
/// earlier prefix sum fell short of the draw; and, short of the last bucket,
/// with a prefix sum that reaches the draw. A bucket selected past the first
/// therefore holds part of the drawn weight and cannot be empty.
proof fn lemma_chosen_past_first(cr: Crystal, draw: int, b: int)
    requires
        0 <= b < VAC_LISTS,
    ensures
        b <= cr.bucket_of_draw_from(draw, b) < VAC_LISTS,
        cr.bucket_of_draw_from(draw, b) > b ==> cr.weight_prefix(cr.bucket_of_draw_from(draw, b))
            < draw,
        cr.bucket_of_draw_from(draw, b) < VAC_LISTS - 1 ==> cr.weight_prefix(
            cr.bucket_of_draw_from(draw, b) + 1,
        ) >= draw,
    decreases VAC_LISTS - b,
{
    if b < VAC_LISTS - 1 && cr.weight_prefix(b + 1) < draw {
        lemma_chosen_past_first(cr, draw, b + 1);
    }
}

/// The weighted prefix sums depend only on the weight row and the bucket
/// populations.
pub proof fn lemma_weight_prefix_eq(a: Crystal, c: Crystal, b: int)
    requires
        a.prob_list@ == c.prob_list@,
        forall|m: int|
            0 <= m < VAC_LISTS ==> a.vacancies.list@[m].list@.len()
                == c.vacancies.list@[m].list@.len(),
        0 <= b <= VAC_LISTS,
    ensures
        a.weight_prefix(b) == c.weight_prefix(b),
    decreases b,
{
    if b > 0 {
        lemma_weight_prefix_eq(a, c, b - 1);
    }
}

} // verus!

verus! {

impl Crystal {
    /// Place up to `number_of_atoms` atoms by repeated weighted random
    /// selection, deferring all surface bookkeeping to one full rebuild at
    /// the end. Every site that changes goes from empty to deposited, inside
    /// the margin above the substrate; an exhausted vacancy index makes an
    /// iteration a no-op and a zero weighted total leaves the store
    /// untouched, while a populated first bucket under a positive total
    /// guarantees at least one placement.
    #[verifier::loop_isolation(false)]
    #[verifier::rlimit(100)]
    pub fn random_add(&mut self, number_of_atoms: usize)
        requires
            old(self).inv(),
            old(self).bulk.number_of_atoms + number_of_atoms <= usize::MAX,
        ensures
            final(self).inv(),
            forall|c: IJK|
                #[trigger] final(self).surface.has(c) <==> (final(self).gold(c)
                    && final(self).coord_of(c) < 12),
            old(self).bulk.number_of_atoms <= final(self).bulk.number_of_atoms
                <= old(self).bulk.number_of_atoms + number_of_atoms,
            final(self).bulk.i_min <= old(self).bulk.i_min,
            final(self).bulk.i_max >= old(self).bulk.i_max,
            final(self).bulk.j_min <= old(self).bulk.j_min,
            final(self).bulk.j_max >= old(self).bulk.j_max,
            final(self).bulk.k_min <= old(self).bulk.k_min,
            final(self).bulk.k_max >= old(self).bulk.k_max,
            final(self).extrema.x_min <= old(self).extrema.x_min,
            final(self).extrema.x_max >= old(self).extrema.x_max,
            final(self).extrema.y_min <= old(self).extrema.y_min,
            final(self).extrema.y_max >= old(self).extrema.y_max,
            final(self).extrema.z_min <= old(self).extrema.z_min,
            final(self).extrema.z_max >= old(self).extrema.z_max,
            final(self).lattice == old(self).lattice,
            final(self).dirt == old(self).dirt,
            final(self).substrate_pos == old(self).substrate_pos,
            final(self).prob_list == old(self).prob_list,
            final(self).prob_list_num == old(self).prob_list_num,
            number_of_atoms == 0 ==> final(self).bulk == old(self).bulk && final(self).vacancies
                == old(self).vacancies && final(self).extrema == old(self).extrema
                && final(self).extrema_ijk == old(self).extrema_ijk,
            (number_of_atoms == 0 && (forall|c: IJK|
                #[trigger] old(self).surface.has(c) <==> (old(self).gold(c) && old(self).coord_of(c)
                    < 12))) ==> final(self).surface.list@ == old(self).surface.list@,
            forall|c: IJK|
                final(self).bulk.site(c) != old(self).bulk.site(c) ==> old(self).bulk.site(c) == 0
                    && final(self).bulk.site(c) == 1 && margin_ok(old(self).substrate_pos, c),
            old(self).weight_total() == 0 ==> final(self).bulk == old(self).bulk
                && final(self).vacancies == old(self).vacancies
                && final(self).extrema == old(self).extrema
                && final(self).extrema_ijk == old(self).extrema_ijk,
            (number_of_atoms > 0 && old(self).weight_total() > 0 && old(
                self,
            ).vacancies.list@[0].list@.len() > 0) ==> final(self).bulk.number_of_atoms > old(
                self,
            ).bulk.number_of_atoms,
    {
        let ghost pre = *old(self);
        let mut index: usize = 0;
        while index < number_of_atoms
            invariant
                index <= number_of_atoms,
                self.inv_base(),
                self.inv_bulk(),
                self.inv_vac(),
                self.inv_dirt(),
                self.surface == pre.surface,
                self.lattice == pre.lattice,
                self.dirt == pre.dirt,
                self.substrate_pos == pre.substrate_pos,
                self.prob_list == pre.prob_list,
                self.prob_list_num == pre.prob_list_num,
                self.prob_list_log == pre.prob_list_log,
                pre.bulk.number_of_atoms <= self.bulk.number_of_atoms <= pre.bulk.number_of_atoms
                    + index,
                self.bulk.i_min <= pre.bulk.i_min && self.bulk.i_max >= pre.bulk.i_max,
                self.bulk.j_min <= pre.bulk.j_min && self.bulk.j_max >= pre.bulk.j_max,
                self.bulk.k_min <= pre.bulk.k_min && self.bulk.k_max >= pre.bulk.k_max,
                self.extrema.x_min <= pre.extrema.x_min && self.extrema.x_max >= pre.extrema.x_max,
                self.extrema.y_min <= pre.extrema.y_min && self.extrema.y_max >= pre.extrema.y_max,
                self.extrema.z_min <= pre.extrema.z_min && self.extrema.z_max >= pre.extrema.z_max,
                index == 0 ==> self.bulk == pre.bulk && self.vacancies == pre.vacancies
                    && self.extrema == pre.extrema && self.extrema_ijk == pre.extrema_ijk,
                forall|c: IJK|
                    self.bulk.site(c) != pre.bulk.site(c) ==> pre.bulk.site(c) == 0
                        && self.bulk.site(c) == 1 && margin_ok(pre.substrate_pos, c),
                pre.weight_total() == 0 ==> self.bulk == pre.bulk && self.vacancies
                    == pre.vacancies && self.extrema == pre.extrema && self.extrema_ijk
                    == pre.extrema_ijk,
                (index >= 1 && pre.weight_total() > 0 && pre.vacancies.list@[0].list@.len() > 0)
                    ==> self.bulk.number_of_atoms > pre.bulk.number_of_atoms,
            decreases number_of_atoms - index,
        {
            let (prob_sum, acc) = self.weight_prefix_sums();
            if acc > 0 {
                proof {
                    // A positive current total rules out a zero initial one:
                    // under a zero initial total nothing has changed yet.
                    if pre.weight_total() == 0 {
                        lemma_weight_prefix_eq(*self, pre, VAC_LISTS as int);
                        assert(false);
                    }
                }
                let random_number = rand_below(acc);
                let chosen_list = self.bucket_of_draw(&prob_sum, random_number);
                let len = self.vacancies.list[chosen_list].len();
                proof {
                    if index == 0 && pre.weight_total() > 0
                        && pre.vacancies.list@[0].list@.len() > 0 {
                        lemma_chosen_past_first(*self, random_number as int, 0);
                        if chosen_list > 0 {
                            // Being past the first bucket, the chosen one
                            // holds part of the drawn weight: it is populated.
                            let b = chosen_list as int;
                            assert(self.weight_prefix(b) < random_number);
                            assert(self.weight_prefix(b + 1) >= random_number) by {
                                if b == VAC_LISTS - 1 {
                                    assert(self.weight_prefix(b + 1) == acc);
                                }
                            }
                            assert(self.bucket_weight(b) > 0);
                            assert(self.vacancies.list@[b].list@.len() > 0) by (nonlinear_arith)
                                requires
                                    self.prob_list@[b] * self.vacancies.list@[b].list@.len() > 0,
                            ;
                        }
                        assert(len > 0);
                    }
                }
                if len > 0 {
                    let idx = rand_below(len as u128) as usize;
                    let c = self.vacancies.list[chosen_list].list[idx];
                    let ghost mid = *self;
                    proof {
                        assert(self.vacancies.list@[chosen_list as int].list@.contains(c));
                        assert(self.vac_has(chosen_list as int, c));
                        assert(self.empty_at(c) && margin_ok(self.substrate_pos, c));
                    }
                    self.vacancies.list[chosen_list].remove(c);
                    proof {
                        // `c` was only in the chosen bucket, so it is now in
                        // none, and nothing else moved.
                        assert forall|bb: int| 0 <= bb < VAC_LISTS implies !self.vac_has(
                            bb,
                            c,
                        ) by {
                            if bb != chosen_list {
                                assert(self.vacancies.list@[bb] == mid.vacancies.list@[bb]);
                                if mid.vac_has(bb, c) {
                                    assert(mid.vac_has(chosen_list as int, c));
                                    assert(false);
                                }
                            }
                        }
                        assert forall|bb: int, x: IJK|
                            0 <= bb < VAC_LISTS && #[trigger] self.vac_has(bb, x) implies
                            self.empty_at(x) && margin_ok(self.substrate_pos, x) && cls_ok(
                            self.coord_of(x),
                            bb,
                        ) by {
                            if bb != chosen_list {
                                assert(self.vacancies.list@[bb] == mid.vacancies.list@[bb]);
                            }
                            assert(mid.vac_has(bb, x));
                            assert(mid.coord_of(x) == self.coord_of(x));
                        }
                        assert forall|x: IJK|
                            x != c && self.empty_at(x) && margin_ok(self.substrate_pos, x) && 1
                                <= self.coord_of(x) <= 8 implies self.vac_has(
                            #[trigger] self.coord_of(x) - 1,
                            x,
                        ) by {
                            assert(mid.coord_of(x) == self.coord_of(x));
                            assert(mid.vac_has(mid.coord_of(x) - 1, x));
                            if mid.coord_of(x) - 1 != chosen_list {
                                assert(self.vacancies.list@[mid.coord_of(x) - 1]
                                    == mid.vacancies.list@[mid.coord_of(x) - 1]);
                            }
                        }
                        assert forall|bx: int, by: int, x: IJK|
                            0 <= bx < VAC_LISTS && 0 <= by < VAC_LISTS && bx != by implies !(
                        #[trigger] self.vac_has(bx, x) && #[trigger] self.vac_has(by, x)) by {
                            if self.vac_has(bx, x) && self.vac_has(by, x) {
                                if bx != chosen_list {
                                    assert(self.vacancies.list@[bx] == mid.vacancies.list@[bx]);
                                }
                                if by != chosen_list {
                                    assert(self.vacancies.list@[by] == mid.vacancies.list@[by]);
                                }
                                assert(mid.vac_has(bx, x) && mid.vac_has(by, x));
                                assert(false);
                            }
                        }
                    }
                    self.deposit_gold(c, false);
                    proof {
                        assert(self.bulk.number_of_atoms > pre.bulk.number_of_atoms);
                        assert forall|x: IJK|
                            self.bulk.site(x) != pre.bulk.site(x) implies pre.bulk.site(x) == 0
                            && self.bulk.site(x) == 1 && margin_ok(pre.substrate_pos, x) by {
                            if x != c {
                                assert(self.bulk.site(x) == mid.bulk.site(x));
                            } else {
                                assert(mid.bulk.site(c) == 0);
                                assert(pre.bulk.site(c) == 0);
                            }
                        }
                    }
                }
            }
            index += 1;
        }
        // Reconstruct the surface list once at the end: much faster than
        // maintaining it across every placement.
        let ghost mid = *self;
        self.rebuild_surface();
        proof {
            assert forall|b: int, c: IJK|
                0 <= b < VAC_LISTS && #[trigger] self.vac_has(b, c) implies self.empty_at(c)
                && margin_ok(self.substrate_pos, c) && cls_ok(self.coord_of(c), b) by {
                assert(mid.vac_has(b, c));
                assert(mid.coord_of(c) == self.coord_of(c));
            }
            assert forall|c: IJK|
                self.empty_at(c) && margin_ok(self.substrate_pos, c) && 1 <= self.coord_of(c) <= 8
                    implies self.vac_has(#[trigger] self.coord_of(c) - 1, c) by {
                assert(mid.coord_of(c) == self.coord_of(c));
                assert(mid.vac_has(mid.coord_of(c) - 1, c));
            }
            assert forall|bx: int, by: int, c: IJK|
                0 <= bx < VAC_LISTS && 0 <= by < VAC_LISTS && bx != by implies !(
            #[trigger] self.vac_has(bx, c) && #[trigger] self.vac_has(by, c)) by {
                if self.vac_has(bx, c) && self.vac_has(by, c) {
                    assert(mid.vac_has(bx, c) && mid.vac_has(by, c));
                }
            }
            assert forall|c: IJK| #[trigger] self.dirt.has(c) <==> self.bulk.site(c) == 2 by {
                assert(mid.dirt.has(c) <==> mid.bulk.site(c) == 2);
            }
            if number_of_atoms == 0 && (forall|c: IJK|
                #[trigger] pre.surface.has(c) <==> (pre.gold(c) && pre.coord_of(c) < 12)) {
                assert forall|c: IJK| pre.surface.list@.contains(c)
                    <==> self.surface.list@.contains(c) by {
                    assert(pre.surface.has(c) <==> (pre.gold(c) && pre.coord_of(c) < 12));
                    assert(self.surface.has(c) <==> (self.gold(c) && self.coord_of(c) < 12));
                    assert(pre.coord_of(c) == self.coord_of(c));
                }
                crate::coords::lemma_sorted_unique(pre.surface.list@, self.surface.list@);
            }
            assert forall|c: IJK| #[trigger] self.surface.has(c) implies self.gold(c) by {}
            assert forall|c: IJK|
                self.gold(c) && #[trigger] self.coord_of(c) < 12 implies self.surface.has(c) by {}
        }
    }
}

} // verus!

verus! {

/// The hexagonal footprint of one layer, as seeded by `add_layer`.
pub open spec fn hex_cell(ijk: IJK, layer_size: u16, c: IJK) -> bool {
    &&& ijk.i - layer_size + 1 <= c.i < ijk.i + layer_size
    &&& ijk.j - layer_size + 1 <= c.j < ijk.j + layer_size
    &&& c.k == ijk.k
    &&& ijk.i - layer_size + 1 + ijk.j <= c.i + c.j < ijk.i + layer_size + ijk.j
}

/// `c` comes strictly before the lateral scan position `(i, j)`.
pub open spec fn scan2_lt(c: IJK, i: int, j: int) -> bool {
    c.i < i || (c.i == i && c.j < j)
}

impl Crystal {
    /// Height, width and depth of the crystal in position units: the extent
    /// of the continuous extrema plus one atomic diameter on each axis.
    pub fn get_size(&self) -> (r: [i64; 3])
        requires
            self.inv_base(),
        ensures
            r@[0] == self.extrema.z_max - self.extrema.z_min + SCALE,
            r@[1] == self.extrema.x_max - self.extrema.x_min + SCALE,
            r@[2] == self.extrema.y_max - self.extrema.y_min + SCALE,
    {
        let h = self.extrema.z_max - self.extrema.z_min + SCALE;
        let w = self.extrema.x_max - self.extrema.x_min + SCALE;
        let d = self.extrema.y_max - self.extrema.y_min + SCALE;
        let r = [h, w, d];
        proof {
            assert(r@[0] == h && r@[1] == w && r@[2] == d);
        }
        r
    }

    /// The six corner positions (x and y components, interleaved) of the
    /// hexagon spanned by the four lateral extrema coordinates.
    pub fn get_hexagon(&self) -> (r: [i64; 12])
        requires
            self.inv_base(),
        ensures
            ({
                let st = self.lattice.stacking;
                let e = self.extrema_ijk;
                let pa = xyz_of(st, IJK { i: e.x_min.i, j: e.y_max.j, k: e.x_min.k });
                let pb = xyz_of(st, e.x_min);
                let pc = xyz_of(
                    st,
                    IJK {
                        i: ((e.x_min.i + e.x_min.j - e.y_min.j) as u16),
                        j: e.y_min.j,
                        k: e.x_min.k,
                    },
                );
                let pd = xyz_of(st, IJK { i: e.x_max.i, j: e.y_min.j, k: e.x_max.k });
                let pe = xyz_of(st, e.x_max);
                let pf = xyz_of(
                    st,
                    IJK {
                        i: ((e.x_max.i + e.x_max.j - e.y_max.j) as u16),
                        j: e.y_max.j,
                        k: e.x_max.k,
                    },
                );
                r@ =~= seq![pa.x, pa.y, pb.x, pb.y, pc.x, pc.y, pd.x, pd.y, pe.x, pe.y, pf.x, pf.y]
            }),
    {
        // Left side: spanned from the westmost coordinate.
        let x_min = self.extrema_ijk.x_min;
        let delta1 = self.extrema_ijk.y_max.j as i64 - x_min.j as i64;
        let delta2 = x_min.j as i64 - self.extrema_ijk.y_min.j as i64;
        let a = self.lattice.get_xyz(IJK { i: x_min.i, j: (x_min.j as i64 + delta1) as u16, k: x_min.k });
        let b = self.lattice.get_xyz(x_min);
        let c = self.lattice.get_xyz(
            IJK {
                i: (x_min.i as i64 + delta2) as u16,
                j: (x_min.j as i64 - delta2) as u16,
                k: x_min.k,
            },
        );
        // Right side: spanned from the eastmost coordinate.
        let x_max = self.extrema_ijk.x_max;
        let delta3 = self.extrema_ijk.y_min.j as i64 - x_max.j as i64;
        let delta4 = x_max.j as i64 - self.extrema_ijk.y_max.j as i64;
        let d = self.lattice.get_xyz(IJK { i: x_max.i, j: (x_max.j as i64 + delta3) as u16, k: x_max.k });
        let e = self.lattice.get_xyz(x_max);
        let f = self.lattice.get_xyz(
            IJK {
                i: (x_max.i as i64 + delta4) as u16,
                j: (x_max.j as i64 - delta4) as u16,
                k: x_max.k,
            },
        );
        let r = [a.x, a.y, b.x, b.y, c.x, c.y, d.x, d.y, e.x, e.y, f.x, f.y];
        r
    }

    /// Seed a full hexagonal layer of the given half-size around `ijk`:
    /// every cell of the footprint that is still empty receives the given
    /// atom state (an empty state seeds nothing).
    #[verifier::loop_isolation(false)]
    #[verifier::rlimit(100)]
    pub fn add_layer(&mut self, ijk: IJK, layer_size: u16, atom: Atom)
        requires
            old(self).inv(),
            1 <= layer_size,
            layer_size + 1 <= ijk.i,
            ijk.i + layer_size <= MAX_I - 2,
            layer_size + 1 <= ijk.j,
            ijk.j + layer_size <= MAX_J - 2,
            2 <= ijk.k <= MAX_K - 3,
            old(self).bulk.number_of_atoms + 4 * (layer_size as int) * (layer_size as int)
                <= usize::MAX,
        ensures
            final(self).inv(),
            forall|c: IJK|
                !hex_cell(ijk, layer_size, c) ==> final(self).bulk.site(c) == old(self).bulk.site(
                    c,
                ),
            forall|c: IJK|
                hex_cell(ijk, layer_size, c) ==> final(self).bulk.site(c) == (
                if old(self).bulk.site(c) == 0 {
                    atom_code(atom)
                } else {
                    old(self).bulk.site(c)
                }),
            final(self).lattice == old(self).lattice,
            final(self).substrate_pos == old(self).substrate_pos,
            final(self).prob_list == old(self).prob_list,
            final(self).prob_list_num == old(self).prob_list_num,
    {
        let ghost pre = *old(self);
        let i_min: u16 = ijk.i - layer_size + 1;
        let i_max: u16 = ijk.i + layer_size;
        let j_min: u16 = ijk.j - layer_size + 1;
        let j_max: u16 = ijk.j + layer_size;
        let ghost width = j_max - j_min;
        let mut is: u16 = i_min;
        while is < i_max
            invariant
                i_min <= is <= i_max,
                self.inv(),
                self.lattice == pre.lattice,
                self.substrate_pos == pre.substrate_pos,
                self.prob_list == pre.prob_list,
                self.prob_list_num == pre.prob_list_num,
                self.bulk.number_of_atoms <= pre.bulk.number_of_atoms + (is - i_min) * width,
                forall|c: IJK|
                    !(hex_cell(ijk, layer_size, c) && scan2_lt(c, is as int, j_min as int))
                        ==> self.bulk.site(c) == pre.bulk.site(c),
                forall|c: IJK|
                    hex_cell(ijk, layer_size, c) && scan2_lt(c, is as int, j_min as int)
                        ==> self.bulk.site(c) == (if pre.bulk.site(c) == 0 {
                        atom_code(atom)
                    } else {
                        pre.bulk.site(c)
                    }),
            decreases i_max - is,
        {
            let mut js: u16 = j_min;
            proof {
                assert((is - i_min) * width + width == (is + 1 - i_min) * width) by (nonlinear_arith);
                assert((is + 1 - i_min) * width <= 2 * (layer_size as int) * (2 * (
                layer_size as int))) by (nonlinear_arith)
                    requires
                        0 <= is + 1 - i_min <= 2 * (layer_size as int),
                        width == 2 * (layer_size as int) - 1,
                ;
            }
            while js < j_max
                invariant
                    j_min <= js <= j_max,
                    i_min <= is < i_max,
                    self.inv(),
                    self.lattice == pre.lattice,
                    self.substrate_pos == pre.substrate_pos,
                    self.prob_list == pre.prob_list,
                    self.prob_list_num == pre.prob_list_num,
                    self.bulk.number_of_atoms <= pre.bulk.number_of_atoms + (is - i_min) * width + (
                    js - j_min),
                    forall|c: IJK|
                        !(hex_cell(ijk, layer_size, c) && scan2_lt(c, is as int, js as int))
                            ==> self.bulk.site(c) == pre.bulk.site(c),
                    forall|c: IJK|
                        hex_cell(ijk, layer_size, c) && scan2_lt(c, is as int, js as int)
                            ==> self.bulk.site(c) == (if pre.bulk.site(c) == 0 {
                            atom_code(atom)
                        } else {
                            pre.bulk.site(c)
                        }),
                decreases j_max - js,
            {
                let ghost entry = *self;
                let c = IJK { i: is, j: js, k: ijk.k };
                proof {
                    assert((is - i_min) * width <= (2 * (layer_size as int) - 1) * (2 * (
                    layer_size as int) - 1)) by (nonlinear_arith)
                        requires
                            0 <= is - i_min <= 2 * (layer_size as int) - 1,
                            width == 2 * (layer_size as int) - 1,
                    ;
                    assert((2 * (layer_size as int) - 1) * (2 * (layer_size as int) - 1) + 2 * (
                    layer_size as int) <= 4 * (layer_size as int) * (layer_size as int))
                        by (nonlinear_arith)
                        requires
                            layer_size >= 1,
                    ;
                }
                let in_hex = is + js >= i_min + ijk.j && is + js < i_max + ijk.j;
                proof {
                    assert(in_hex == hex_cell(ijk, layer_size, c));
                }
                if in_hex {
                    match atom {
                        Atom::Empty => {},
                        Atom::Gold => {
                            self.add_atom(c);
                        },
                        Atom::Dirt => {
                            self.add_dirt(c);
                        },
                    }
                }
                proof {
                    assert forall|x: IJK|
                        !(hex_cell(ijk, layer_size, x) && scan2_lt(x, is as int, js + 1))
                            implies self.bulk.site(x) == pre.bulk.site(x) by {
                        if x == c {
                            assert(!hex_cell(ijk, layer_size, c));
                            assert(self.bulk.site(x) == entry.bulk.site(x));
                            assert(!(scan2_lt(c, is as int, js as int)));
                        } else {
                            assert(!(hex_cell(ijk, layer_size, x) && scan2_lt(x, is as int, js as int)));
                            assert(self.bulk.site(x) == entry.bulk.site(x));
                        }
                    }
                    assert forall|x: IJK|
                        hex_cell(ijk, layer_size, x) && scan2_lt(x, is as int, js + 1)
                            implies self.bulk.site(x) == (if pre.bulk.site(x) == 0 {
                            atom_code(atom)
                        } else {
                            pre.bulk.site(x)
                        }) by {
                        if x == c {
                            assert(!(scan2_lt(c, is as int, js as int)));
                            assert(entry.bulk.site(c) == pre.bulk.site(c));
                        } else {
                            assert(scan2_lt(x, is as int, js as int));
                            assert(self.bulk.site(x) == entry.bulk.site(x));
                        }
                    }
                }
                js += 1;
            }
            proof {
                assert forall|x: IJK|
                    hex_cell(ijk, layer_size, x) && scan2_lt(x, is + 1, j_min as int)
                        implies scan2_lt(x, is as int, j_max as int) by {}
            }
            is += 1;
        }
    }
}

/// For any reachable engine state, an empty margin site of tracked
/// coordination `n` sits in bucket `n - 1` and in no other: the vacancy
/// partition by coordination number.
pub proof fn lemma_vacancy_partition(cr: Crystal, v: IJK)
    requires
        cr.inv(),
        cr.empty_at(v),
        margin_ok(cr.substrate_pos, v),
        1 <= cr.coord_of(v) <= 8,
    ensures
        cr.vac_has(cr.coord_of(v) - 1, v),
        forall|b: int|
            0 <= b < VAC_LISTS && b != cr.coord_of(v) - 1 ==> !(#[trigger] cr.vac_has(b, v)),
{
    assert(cr.vac_has(cr.coord_of(v) - 1, v));
    assert forall|b: int|
        0 <= b < VAC_LISTS && b != cr.coord_of(v) - 1 implies !(#[trigger] cr.vac_has(b, v)) by {
        if cr.vac_has(b, v) {
            assert(cr.vac_has(cr.coord_of(v) - 1, v));
            assert(false);
        }
    }
}

/// The highest bucket is reserved: no reachable engine state ever files a
/// vacancy under it, since its coordination band starts past the tracked
/// range.
pub proof fn lemma_top_bucket_unused(cr: Crystal)
    requires
        cr.inv(),
    ensures
        forall|c: IJK| !(#[trigger] cr.vac_has(VAC_LISTS - 1, c)),
{
    assert forall|c: IJK| !(#[trigger] cr.vac_has(VAC_LISTS - 1, c)) by {
        if cr.vac_has(VAC_LISTS - 1, c) {
            assert(cls_ok(cr.coord_of(c), VAC_LISTS - 1));
            assert(false);
        }
    }
}

/// For any reachable engine state that contains the seed at the center, the
/// discrete bounding box bounds every occupied site and each of its six
/// faces is attained by one: the box is the true minimum and maximum. (Its
/// monotonic growth is part of the contracts of the placement operations.)
pub proof fn lemma_extrema_exact(cr: Crystal)
    requires
        cr.inv(),
        cr.bulk.site(center_ijk()) != 0,
    ensures
        forall|c: IJK|
            cr.bulk.site(c) != 0 ==> cr.bulk.i_min <= c.i <= cr.bulk.i_max && cr.bulk.j_min <= c.j
                <= cr.bulk.j_max && cr.bulk.k_min <= c.k <= cr.bulk.k_max,
        exists|c: IJK| cr.bulk.site(c) != 0 && c.i == cr.bulk.i_min,
        exists|c: IJK| cr.bulk.site(c) != 0 && c.i == cr.bulk.i_max,
        exists|c: IJK| cr.bulk.site(c) != 0 && c.j == cr.bulk.j_min,
        exists|c: IJK| cr.bulk.site(c) != 0 && c.j == cr.bulk.j_max,
        exists|c: IJK| cr.bulk.site(c) != 0 && c.k == cr.bulk.k_min,
        exists|c: IJK| cr.bulk.site(c) != 0 && c.k == cr.bulk.k_max,
{
    let ctr = center_ijk();
    if cr.bulk.i_min == CENTER_I {
        assert(cr.bulk.site(ctr) != 0 && ctr.i == cr.bulk.i_min);
    }
    if cr.bulk.i_max == CENTER_I {
        assert(cr.bulk.site(ctr) != 0 && ctr.i == cr.bulk.i_max);
    }
    if cr.bulk.j_min == CENTER_J {
        assert(cr.bulk.site(ctr) != 0 && ctr.j == cr.bulk.j_min);
    }
    if cr.bulk.j_max == CENTER_J {
        assert(cr.bulk.site(ctr) != 0 && ctr.j == cr.bulk.j_max);
    }
    if cr.bulk.k_min == CENTER_K {
        assert(cr.bulk.site(ctr) != 0 && ctr.k == cr.bulk.k_min);
    }
    if cr.bulk.k_max == CENTER_K {
        assert(cr.bulk.site(ctr) != 0 && ctr.k == cr.bulk.k_max);
    }
}

} // verus!
