//! The FCC lattice with stacking faults: the exact fixed-point mapping between
//! discrete lattice coordinates and continuous positions, its inverse, and the
//! twelve nearest-neighbor coordinates with their fault-dependent lateral
//! corrections.

use vstd::prelude::*;
use vstd::arithmetic::div_mod::{
    lemma_fundamental_div_mod,
    lemma_fundamental_div_mod_converse_div,
    lemma_mod_division_less_than_divisor,
};
use crate::coords::{IJK, XYZ};
use crate::params::{
    MAX_I,
    MAX_J,
    MAX_K,
    CENTER_I,
    CENTER_J,
    CENTER_K,
    SCALE,
    HALF_SCALE,
    SIN60,
    YPOS,
    ZPOS,
    POS_LIMIT,
};
use crate::stacking::{Stackings, faults_wf, lemma_sign_unit, lemma_psum_bounds};

verus! {

/// The named fixed-point constants in literal form, so that products with
/// them become linear facts.
proof fn lemma_const_mul(x: int)
    ensures
        x * SCALE == x * 1_000_000,
        x * HALF_SCALE == x * 500_000,
        x * SIN60 == x * 866_025,
        x * YPOS == x * 288_675,
        x * ZPOS == x * 816_497,
{
    assert(x * SCALE == x * 1_000_000 && x * HALF_SCALE == x * 500_000 && x * SIN60 == x * 866_025
        && x * YPOS == x * 288_675 && x * ZPOS == x * 816_497) by (nonlinear_arith)
        requires
            SCALE == 1_000_000,
            HALF_SCALE == 500_000,
            SIN60 == 866_025,
            YPOS == 288_675,
            ZPOS == 816_497,
    ;
}

/// Division rounding half away from zero (the divisor is positive).
pub open spec fn round_div(a: int, b: int) -> int {
    if a >= 0 {
        (a + b / 2) / b
    } else {
        -((-a + b / 2) / b)
    }
}

/// An exact multiple divides back exactly.
pub proof fn lemma_round_div_exact(q: int, b: int)
    requires
        b >= 2,
    ensures
        round_div(q * b, b) == q,
{
    if q >= 0 {
        assert(q * b >= 0) by (nonlinear_arith)
            requires
                q >= 0,
                b >= 2,
        ;
        lemma_fundamental_div_mod_converse_div(q * b + b / 2, b, q, b / 2);
    } else {
        assert(q * b < 0 && -(q * b) == (-q) * b) by (nonlinear_arith)
            requires
                q < 0,
                b >= 2,
        ;
        lemma_fundamental_div_mod_converse_div((-q) * b + b / 2, b, -q, b / 2);
    }
}

/// The rounded quotient of a bounded value is bounded.
pub proof fn lemma_round_div_bound(a: int, b: int, m: int)
    requires
        b >= 2,
        m >= 0,
        -(m * b) <= a <= m * b,
    ensures
        -(m + 1) <= round_div(a, b) <= m + 1,
{
    if a >= 0 {
        let x = a + b / 2;
        let q = x / b;
        lemma_fundamental_div_mod(x, b);
        lemma_mod_division_less_than_divisor(x, b);
        assert(b * q <= x);
        assert(x <= m * b + b / 2);
        assert(q >= 0 && q <= m + 1) by (nonlinear_arith)
            requires
                b >= 2,
                m >= 0,
                b * q <= m * b + b / 2,
                x >= 0,
                b * q + x % b == x,
                0 <= x % b < b,
        ;
    } else {
        let x = -a + b / 2;
        let q = x / b;
        lemma_fundamental_div_mod(x, b);
        lemma_mod_division_less_than_divisor(x, b);
        assert(b * q <= x);
        assert(x <= m * b + b / 2);
        assert(q >= 0 && q <= m + 1) by (nonlinear_arith)
            requires
                b >= 2,
                m >= 0,
                b * q <= m * b + b / 2,
                x >= 0,
                b * q + x % b == x,
                0 <= x % b < b,
        ;
    }
}

/// Runtime rounding division.
fn div_round(a: i64, b: i64) -> (r: i64)
    requires
        2 <= b <= 1_000_000,
        -4 * POS_LIMIT <= a <= 4 * POS_LIMIT,
    ensures
        r == round_div(a as int, b as int),
{
    if a >= 0 {
        (a + b / 2) / b
    } else {
        -((-a + b / 2) / b)
    }
}

/// Clamp an integer onto `[0, hi]` and view it as a coordinate component.
pub open spec fn clamp_u16(v: int, hi: int) -> u16 {
    if v < 0 {
        0u16
    } else if v > hi {
        hi as u16
    } else {
        v as u16
    }
}

/// Forward mapping: the continuous position of a lattice coordinate. The x
/// and z components follow the FCC basis; the y component replaces the ideal
/// layer offset by the cumulative stacking offset of layer `k`.
pub open spec fn xyz_of(st: Stackings, c: IJK) -> XYZ {
    XYZ {
        x: ((c.i - CENTER_I) * SCALE + (c.j - CENTER_J) * HALF_SCALE + (c.k - CENTER_K)
            * HALF_SCALE) as i64,
        y: ((c.j - CENTER_J) * SIN60 + st.pos@[c.k as int] * YPOS) as i64,
        z: ((c.k - CENTER_K) * ZPOS) as i64,
    }
}

/// Backward mapping: recover `k` from `z`, correct `y` by the stacking offset
/// of that layer, then back-solve the remaining basis components, rounding to
/// the nearest coordinate and clamping onto the volume. A best-effort inverse
/// for arbitrary positions; exact on every position the forward map produces.
pub open spec fn ijk_of(st: Stackings, p: XYZ) -> IJK {
    let dk = round_div(p.z as int, ZPOS as int);
    let k = clamp_u16(dk + CENTER_K, MAX_K - 1);
    let dj = round_div(p.y - st.pos@[k as int] * YPOS, SIN60 as int);
    let j = clamp_u16(dj + CENTER_J, MAX_J - 1);
    let di = round_div(p.x - dj * HALF_SCALE - dk * HALF_SCALE, SCALE as int);
    let i = clamp_u16(di + CENTER_I, MAX_I - 1);
    IJK { i, j, k }
}

/// Bound on the normalized per-layer stacking offsets.
pub proof fn lemma_pos_bound(st: Stackings, faults: Seq<u16>, k: int)
    requires
        st.wf(faults),
        0 <= k < MAX_K,
    ensures
        -402 <= st.pos@[k] <= 402,
{
    lemma_psum_bounds(faults, k);
    lemma_psum_bounds(faults, CENTER_K as int);
}

/// The coordinate has a full ring of addressable neighbors.
pub open spec fn inner(c: IJK) -> bool {
    &&& 1 <= c.i <= MAX_I - 2
    &&& 1 <= c.j <= MAX_J - 2
    &&& 1 <= c.k <= MAX_K - 2
}

/// Lateral and vertical offsets of neighbor `l` of a site in layer `k`.
/// Six neighbors are in-plane; three connect to the layer above and three to
/// the layer below, one of each with the lateral stacking correction of the
/// crossed boundary (`shift[k + 1]` going up, `shift[k]` going down).
pub open spec fn nb_d(st: Stackings, k: int, l: int) -> (int, int, int) {
    if l == 0 {
        (1, 0, 0)
    } else if l == 1 {
        (0, 1, 0)
    } else if l == 2 {
        (1, -1, 0)
    } else if l == 3 {
        (-1, 1, 0)
    } else if l == 4 {
        (-1, 0, 0)
    } else if l == 5 {
        (0, -1, 0)
    } else if l == 6 {
        (0, 0, 1)
    } else if l == 7 {
        (-(st.shift_i@[k + 1] as int), -(st.shift_j@[k + 1] as int), 1)
    } else if l == 8 {
        (-1, 0, 1)
    } else if l == 9 {
        (0, 0, -1)
    } else if l == 10 {
        (st.shift_i@[k] as int, st.shift_j@[k] as int, -1)
    } else {
        (1, 0, -1)
    }
}

/// Neighbor `l` of coordinate `c`.
pub open spec fn nb(st: Stackings, c: IJK, l: int) -> IJK {
    let d = nb_d(st, c.k as int, l);
    IJK { i: (c.i + d.0) as u16, j: (c.j + d.1) as u16, k: (c.k + d.2) as u16 }
}

/// The shift tables hold only unit values, correlated as the sign demands.
pub proof fn lemma_shift_vals(st: Stackings, faults: Seq<u16>, k: int)
    requires
        st.wf(faults),
        0 <= k < MAX_K,
    ensures
        st.shift_j@[k] == 1 || st.shift_j@[k] == -1,
        st.shift_i@[k] == if st.shift_j@[k] == -1i16 {
            1u16
        } else {
            0u16
        },
{
    lemma_sign_unit(faults, k);
}

/// For an inner coordinate the twelve neighbor coordinates are formed without
/// wrap-around and stay inside the volume.
pub proof fn lemma_nb_range(st: Stackings, faults: Seq<u16>, c: IJK, l: int)
    requires
        st.wf(faults),
        inner(c),
        0 <= l < 12,
    ensures
        ({
            let d = nb_d(st, c.k as int, l);
            &&& -1 <= d.0 <= 1 && -1 <= d.1 <= 1 && -1 <= d.2 <= 1
            &&& nb(st, c, l).i == c.i + d.0
            &&& nb(st, c, l).j == c.j + d.1
            &&& nb(st, c, l).k == c.k + d.2
        }),
        crate::storage::in_bulk(nb(st, c, l)),
{
    if l == 7 {
        lemma_shift_vals(st, faults, c.k + 1);
    }
    if l == 10 {
        lemma_shift_vals(st, faults, c.k as int);
    }
}

/// The twelve neighbors of an inner coordinate are pairwise distinct, and
/// none of them is the coordinate itself.
pub proof fn lemma_nb_distinct(st: Stackings, faults: Seq<u16>, c: IJK, l1: int, l2: int)
    requires
        st.wf(faults),
        inner(c),
        0 <= l1 < 12,
        0 <= l2 < 12,
        l1 != l2,
    ensures
        nb(st, c, l1) != nb(st, c, l2),
        nb(st, c, l1) != c,
{
    lemma_shift_vals(st, faults, c.k + 1);
    lemma_shift_vals(st, faults, c.k as int);
    lemma_nb_range(st, faults, c, l1);
    lemma_nb_range(st, faults, c, l2);
}

/// The index of the neighbor relation pointing back: neighbor `sym_l(l)` of
/// `nb(c, l)` is `c` again.
pub open spec fn sym_l(l: int) -> int {
    if l == 0 {
        4
    } else if l == 1 {
        5
    } else if l == 2 {
        3
    } else if l == 3 {
        2
    } else if l == 4 {
        0
    } else if l == 5 {
        1
    } else if l == 6 {
        9
    } else if l == 7 {
        10
    } else if l == 8 {
        11
    } else if l == 9 {
        6
    } else if l == 10 {
        7
    } else {
        8
    }
}

/// The neighbor relation is symmetric on inner coordinates.
pub proof fn lemma_nb_symm(st: Stackings, faults: Seq<u16>, c: IJK, l: int)
    requires
        st.wf(faults),
        inner(c),
        0 <= l < 12,
        inner(nb(st, c, l)),
    ensures
        0 <= sym_l(l) < 12,
        nb(st, nb(st, c, l), sym_l(l)) == c,
{
    let a = nb(st, c, l);
    lemma_nb_range(st, faults, c, l);
    lemma_nb_range(st, faults, a, sym_l(l));
    if l == 7 {
        assert(a.k == c.k + 1);
        lemma_shift_vals(st, faults, c.k + 1);
    } else if l == 10 {
        assert(a.k == c.k - 1);
        lemma_shift_vals(st, faults, c.k as int);
    } else if l == 6 || l == 8 {
        lemma_shift_vals(st, faults, c.k + 1);
    } else if l == 9 || l == 11 {
        lemma_shift_vals(st, faults, c.k as int);
    }
}

/// The conventional origin maps to the zero position: the lateral offsets of
/// the central coordinate vanish and the stacking offset is normalized to
/// zero at the central layer.
pub proof fn lemma_center_origin(st: Stackings, faults: Seq<u16>)
    requires
        st.wf(faults),
    ensures
        xyz_of(st, crate::coords::center_ijk()) == (XYZ { x: 0, y: 0, z: 0 }),
{
    lemma_const_mul(0);
    assert(st.pos@[CENTER_K as int] == 0);
}

/// Every position the forward mapping can produce is well inside the range
/// the backward mapping accepts.
pub proof fn lemma_xyz_bounds(st: Stackings, faults: Seq<u16>, c: IJK)
    requires
        st.wf(faults),
        c.k < MAX_K,
    ensures
        -POS_LIMIT <= xyz_of(st, c).x <= POS_LIMIT,
        -POS_LIMIT <= xyz_of(st, c).y <= POS_LIMIT,
        -POS_LIMIT <= xyz_of(st, c).z <= POS_LIMIT,
{
    lemma_pos_bound(st, faults, c.k as int);
    lemma_const_mul(c.i - CENTER_I);
    lemma_const_mul(c.j - CENTER_J);
    lemma_const_mul(c.k - CENTER_K);
    lemma_const_mul(st.pos@[c.k as int] as int);
}

/// The FCC lattice: stacking tables for the current fault list, plus the
/// state of the restartable box scan.
#[derive(Clone)]
pub struct Lattice {
    pub stacking: Stackings,
    pub stacking_faults: Vec<u16>,
    pub min: XYZ,
    pub max: XYZ,
    pub min_ijk: IJK,
    pub max_ijk: IJK,
    pub layer_start: IJK,
    pub origin: IJK,
    pub curr: IJK,
    pub next: IJK,
}

impl Lattice {
    /// The stacking tables belong to the stored fault list.
    pub open spec fn wf(self) -> bool {
        self.stacking.wf(self.stacking_faults@)
    }

    /// Initialize the lattice for the given fault layers.
    pub fn new(stacking_faults: Vec<u16>) -> (r: Self)
        requires
            faults_wf(stacking_faults@),
        ensures
            r.wf(),
            r.stacking_faults@ == stacking_faults@,
    {
        let c = crate::coords::center();
        let zero = XYZ { x: 0, y: 0, z: 0 };
        Lattice {
            stacking: Stackings::new(&stacking_faults),
            stacking_faults,
            min: zero,
            max: zero,
            min_ijk: c,
            max_ijk: c,
            layer_start: c,
            origin: c,
            curr: c,
            next: c,
        }
    }

    /// Continuous position of a lattice coordinate.
    pub fn get_xyz(&self, ijk: IJK) -> (r: XYZ)
        requires
            self.wf(),
            ijk.k < MAX_K,
        ensures
            r == xyz_of(self.stacking, ijk),
    {
        let di = ijk.i as i64 - CENTER_I as i64;
        let dj = ijk.j as i64 - CENTER_J as i64;
        let dk = ijk.k as i64 - CENTER_K as i64;
        let p = self.stacking.pos[ijk.k as usize] as i64;
        proof {
            lemma_const_mul(di as int);
            lemma_const_mul(dj as int);
            lemma_const_mul(dk as int);
            lemma_const_mul(p as int);
        }
        let x = di * SCALE + dj * HALF_SCALE + dk * HALF_SCALE;
        let y = dj * SIN60 + p * YPOS;
        let z = dk * ZPOS;
        XYZ { x, y, z }
    }

    /// Nearest lattice coordinate of a continuous position.
    pub fn get_ijk(&self, xyz: XYZ) -> (r: IJK)
        requires
            self.wf(),
            -POS_LIMIT <= xyz.x <= POS_LIMIT,
            -POS_LIMIT <= xyz.y <= POS_LIMIT,
            -POS_LIMIT <= xyz.z <= POS_LIMIT,
        ensures
            r == ijk_of(self.stacking, xyz),
    {
        let ghost faults = self.stacking_faults@;
        proof {
            lemma_round_div_bound(xyz.z as int, ZPOS as int, 2_000_000);
            assert(2_000_000 * (ZPOS as int) >= POS_LIMIT) by (nonlinear_arith)
                requires
                    ZPOS == 816_497,
                    POS_LIMIT == 1_000_000_000_000,
            ;
        }
        let dk = div_round(xyz.z, ZPOS);
        let kr = dk + CENTER_K as i64;
        let k: u16 = if kr < 0 {
            0
        } else if kr > MAX_K as i64 - 1 {
            MAX_K - 1
        } else {
            kr as u16
        };
        let p = self.stacking.pos[k as usize] as i64;
        proof {
            lemma_const_mul(p as int);
            lemma_pos_bound(self.stacking, faults, k as int);
            lemma_round_div_bound(
                xyz.y as int - p as int * (YPOS as int),
                SIN60 as int,
                2_000_000,
            );
            assert(2_000_000 * (SIN60 as int) >= POS_LIMIT + 402 * (YPOS as int))
                by (nonlinear_arith)
                requires
                    SIN60 == 866_025,
                    YPOS == 288_675,
                    POS_LIMIT == 1_000_000_000_000,
            ;
        }
        let y2 = xyz.y - p * YPOS;
        let dj = div_round(y2, SIN60);
        let jr = dj + CENTER_J as i64;
        let j: u16 = if jr < 0 {
            0
        } else if jr > MAX_J as i64 - 1 {
            MAX_J - 1
        } else {
            jr as u16
        };
        proof {
            lemma_const_mul(dj as int);
            lemma_const_mul(dk as int);
        }
        let x2 = xyz.x - dj * HALF_SCALE - dk * HALF_SCALE;
        proof {
            lemma_round_div_bound(x2 as int, SCALE as int, 4_000_000);
            assert(4_000_000 * (SCALE as int) >= POS_LIMIT + 2 * 2_000_001 * 500_000)
                by (nonlinear_arith)
                requires
                    SCALE == 1_000_000,
                    POS_LIMIT == 1_000_000_000_000,
            ;
        }
        let di = div_round(x2, SCALE);
        let ir = di + CENTER_I as i64;
        let i: u16 = if ir < 0 {
            0
        } else if ir > MAX_I as i64 - 1 {
            MAX_I - 1
        } else {
            ir as u16
        };
        IJK { i, j, k }
    }

    /// The backward mapping recovers every lattice coordinate of the volume
    /// exactly from its forward position, stacking faults included.
    pub proof fn lemma_round_trip(st: Stackings, faults: Seq<u16>, c: IJK)
        requires
            st.wf(faults),
            crate::storage::in_bulk(c),
        ensures
            ijk_of(st, xyz_of(st, c)) == c,
    {
        let p = xyz_of(st, c);
        let di = c.i - CENTER_I;
        let dj = c.j - CENTER_J;
        let dk = c.k - CENTER_K;
        let off = st.pos@[c.k as int] as int;
        lemma_pos_bound(st, faults, c.k as int);
        lemma_const_mul(di);
        lemma_const_mul(dj);
        lemma_const_mul(dk);
        lemma_const_mul(off);
        assert(p.z as int == dk * (ZPOS as int));
        lemma_round_div_exact(dk, ZPOS as int);
        assert(round_div(p.z as int, ZPOS as int) == dk);
        assert(ijk_of(st, p).k == c.k);
        assert(p.y as int - off * (YPOS as int) == dj * (SIN60 as int));
        lemma_round_div_exact(dj, SIN60 as int);
        assert(ijk_of(st, p).j == c.j);
        assert(p.x as int - dj * (HALF_SCALE as int) - dk * (HALF_SCALE as int) == di * (
        SCALE as int));
        lemma_round_div_exact(di, SCALE as int);
        assert(ijk_of(st, p).i == c.i);
    }

    /// One of the twelve nearest neighbors of `ijk` (every other `neighbor`
    /// number returns `ijk` itself).
    pub fn next_neighbor(&self, ijk: IJK, neighbor: usize) -> (r: IJK)
        requires
            self.wf(),
            inner(ijk),
        ensures
            neighbor < 12 ==> r == nb(self.stacking, ijk, neighbor as int),
            neighbor >= 12 ==> r == ijk,
    {
        let ghost faults = self.stacking_faults@;
        let IJK { i, j, k } = ijk;
        proof {
            if neighbor < 12 {
                lemma_nb_range(self.stacking, faults, ijk, neighbor as int);
            }
        }
        match neighbor {
            0 => IJK { i: i + 1, j, k },
            1 => IJK { i, j: j + 1, k },
            2 => IJK { i: i + 1, j: j - 1, k },
            3 => IJK { i: i - 1, j: j + 1, k },
            4 => IJK { i: i - 1, j, k },
            5 => IJK { i, j: j - 1, k },
            6 => IJK { i, j, k: k + 1 },
            7 => {
                let si = self.stacking.shift_i[(k + 1) as usize];
                let sj = self.stacking.shift_j[(k + 1) as usize];
                IJK { i: i - si, j: (j as i32 - sj as i32) as u16, k: k + 1 }
            },
            8 => IJK { i: i - 1, j, k: k + 1 },
            9 => IJK { i, j, k: k - 1 },
            10 => {
                let si = self.stacking.shift_i[k as usize];
                let sj = self.stacking.shift_j[k as usize];
                IJK { i: i + si, j: (j as i32 + sj as i32) as u16, k: k - 1 }
            },
            11 => IJK { i: i + 1, j, k: k - 1 },
            _ => IJK { i, j, k },
        }
    }
}

} // verus!

verus! {

/// Window the box scan keeps its cursor coordinates in: enough slack that
/// every candidate step and neighbor probe stays addressable.
pub open spec fn wbox(c: IJK) -> bool {
    &&& 2 <= c.i <= MAX_I - 3
    &&& 2 <= c.j <= MAX_J - 3
    &&& 2 <= c.k <= MAX_K - 3
}

/// Ordering key of the scan cursor: layers, then rows, then columns.
pub open spec fn iter_key(c: IJK) -> int {
    c.k * 0x1_0000_0000 + c.j * 0x1_0000 + c.i
}

/// A coordinate clamped componentwise into the scan window.
pub open spec fn clamp_wbox(c: IJK) -> IJK {
    IJK {
        i: if c.i < 2 {
            2u16
        } else if c.i > MAX_I - 3 {
            (MAX_I - 3) as u16
        } else {
            c.i
        },
        j: if c.j < 2 {
            2u16
        } else if c.j > MAX_J - 3 {
            (MAX_J - 3) as u16
        } else {
            c.j
        },
        k: if c.k < 2 {
            2u16
        } else if c.k > MAX_K - 3 {
            (MAX_K - 3) as u16
        } else {
            c.k
        },
    }
}

impl Lattice {
    /// The scan cursor state is addressable: every anchor sits in the window
    /// and only the read-ahead cursor may sit one layer past the box.
    pub open spec fn iter_wf(self) -> bool {
        &&& wbox(self.min_ijk) && wbox(self.max_ijk) && wbox(self.layer_start) && wbox(self.origin)
        &&& wbox(self.curr)
        &&& 2 <= self.next.i <= MAX_I - 3 && 2 <= self.next.j <= MAX_J - 3
        &&& 2 <= self.next.k <= MAX_K - 2
        &&& -POS_LIMIT <= self.max.x <= POS_LIMIT
        &&& -POS_LIMIT <= self.max.y <= POS_LIMIT
        &&& -POS_LIMIT <= self.max.z <= POS_LIMIT
    }

    /// The candidate position lies on or inside the lower-left margin of the
    /// scanned box (with a hundredth of a diameter of tolerance).
    pub open spec fn inside_spec(self, c: IJK) -> bool {
        &&& xyz_of(self.stacking, c).x >= xyz_of(self.stacking, self.origin).x - SCALE / 100
        &&& xyz_of(self.stacking, c).y >= xyz_of(self.stacking, self.origin).y - SCALE / 100
    }

    /// Initialize the box scan: map the two corners onto the lattice, clamp
    /// them into the scan window, and anchor the cursor at the low corner.
    pub fn init_box_iter(&mut self, min: XYZ, max: XYZ)
        requires
            old(self).wf(),
            -POS_LIMIT <= min.x <= POS_LIMIT,
            -POS_LIMIT <= min.y <= POS_LIMIT,
            -POS_LIMIT <= min.z <= POS_LIMIT,
            -POS_LIMIT <= max.x <= POS_LIMIT,
            -POS_LIMIT <= max.y <= POS_LIMIT,
            -POS_LIMIT <= max.z <= POS_LIMIT,
        ensures
            final(self).wf(),
            final(self).iter_wf(),
            final(self).stacking == old(self).stacking,
            final(self).stacking_faults == old(self).stacking_faults,
            final(self).min == min,
            final(self).max == max,
            final(self).min_ijk == clamp_wbox(ijk_of(old(self).stacking, min)),
            final(self).max_ijk == clamp_wbox(ijk_of(old(self).stacking, max)),
            final(self).curr == final(self).min_ijk && final(self).next == final(self).min_ijk,
            final(self).layer_start == final(self).min_ijk,
            final(self).origin == final(self).min_ijk,
    {
        self.min = min;
        self.max = max;
        let lo = self.get_ijk(min);
        let hi = self.get_ijk(max);
        self.min_ijk = Self::clamp_window(lo);
        self.max_ijk = Self::clamp_window(hi);
        self.origin = self.min_ijk;
        self.layer_start = self.min_ijk;
        self.curr = self.min_ijk;
        self.next = self.min_ijk;
    }

    /// Clamp a mapped coordinate into the scan window.
    fn clamp_window(c: IJK) -> (r: IJK)
        ensures
            r == clamp_wbox(c),
            wbox(r),
            wbox(c) ==> r == c,
    {
        let i = if c.i < 2 {
            2
        } else if c.i > MAX_I - 3 {
            MAX_I - 3
        } else {
            c.i
        };
        let j = if c.j < 2 {
            2
        } else if c.j > MAX_J - 3 {
            MAX_J - 3
        } else {
            c.j
        };
        let k = if c.k < 2 {
            2
        } else if c.k > MAX_K - 3 {
            MAX_K - 3
        } else {
            c.k
        };
        IJK { i, j, k }
    }

    /// The scan's inside test against the lower-left margin of the box.
    fn is_inside(&self, ijk: IJK) -> (r: bool)
        requires
            self.wf(),
            ijk.k < MAX_K,
            self.origin.k < MAX_K,
        ensures
            r == self.inside_spec(ijk),
    {
        let center_xyz = self.get_xyz(self.origin);
        let here = self.get_xyz(ijk);
        let tol = SCALE / 100;
        here.x >= center_xyz.x - tol && here.y >= center_xyz.y - tol
    }

    /// The layer-start candidate `kplus` selects: one layer up, preferring a
    /// step left, then the stacking-dependent second candidate, then the
    /// third, whichever first passes the inside test; unshifted otherwise.
    pub open spec fn kplus_spec(self, ijk: IJK) -> IJK {
        let up = IJK { i: ijk.i, j: ijk.j, k: (ijk.k + 1) as u16 };
        let left = IJK { i: (ijk.i - 1) as u16, j: ijk.j, k: up.k };
        let down = IJK { i: ijk.i, j: (ijk.j - 1) as u16, k: up.k };
        let diag = IJK { i: (ijk.i - 1) as u16, j: (ijk.j + 1) as u16, k: up.k };
        if self.stacking.shift_i@[up.k as int] == 0 {
            if self.inside_spec(left) {
                left
            } else if self.inside_spec(down) {
                down
            } else {
                up
            }
        } else {
            if self.inside_spec(left) {
                left
            } else if self.inside_spec(up) {
                up
            } else if self.inside_spec(diag) {
                diag
            } else {
                up
            }
        }
    }

    /// Starting point of the next layer: one layer up, shifted left or down
    /// as far as the box margin and the stacking registry allow.
    fn kplus(&self, ijk: IJK) -> (r: IJK)
        requires
            self.wf(),
            self.iter_wf(),
            wbox(ijk),
        ensures
            r == self.kplus_spec(ijk),
            r.k == ijk.k + 1,
            ijk.i - 1 <= r.i <= ijk.i,
            ijk.j - 1 <= r.j <= ijk.j + 1,
            1 <= r.i <= MAX_I - 3,
            1 <= r.j <= MAX_J - 2,
            r.k <= MAX_K - 2,
    {
        let mut up = IJK { i: ijk.i, j: ijk.j, k: ijk.k + 1 };
        if self.stacking.shift_i[up.k as usize] == 0 {
            if self.is_inside(IJK { i: up.i - 1, j: up.j, k: up.k }) {
                up.i = up.i - 1;
            } else if self.is_inside(IJK { i: up.i, j: up.j - 1, k: up.k }) {
                up.j = up.j - 1;
            } else if self.is_inside(IJK { i: up.i, j: up.j, k: up.k }) {
            }
        } else {
            if self.is_inside(IJK { i: up.i - 1, j: up.j, k: up.k }) {
                up.i = up.i - 1;
            } else if self.is_inside(IJK { i: up.i, j: up.j, k: up.k }) {
            } else if self.is_inside(IJK { i: up.i - 1, j: up.j + 1, k: up.k }) {
                up.i = up.i - 1;
                up.j = up.j + 1;
            }
        }
        up
    }

    /// The cursor advance of one scan step, from the state whose `next` field
    /// is the coordinate about to be handed out: the next cursor position and
    /// the next layer-start anchor. A row step while the next column is still
    /// within `max.x`; a line step to the stacking-corrected row start while
    /// the next row is still within `max.y`; otherwise a layer step through
    /// `kplus`. A step that would leave the scan window yields the exhaustion
    /// marker one layer past the box.
    pub open spec fn scan_step(self) -> (IJK, IJK) {
        let cur = self.next;
        let row = IJK { i: (cur.i + 1) as u16, j: cur.j, k: cur.k };
        let line_probe = IJK { i: cur.i, j: (cur.j + 1) as u16, k: cur.k };
        let exhausted = IJK { i: cur.i, j: cur.j, k: (self.max_ijk.k + 1) as u16 };
        if cur.i + 1 <= MAX_I - 3 && xyz_of(self.stacking, row).x <= self.max.x {
            (row, self.layer_start)
        } else if cur.j + 1 <= MAX_J - 3 && xyz_of(self.stacking, line_probe).y <= self.max.y {
            let delta = cur.j + 1 - self.layer_start.j;
            let im = if delta >= 0 {
                self.layer_start.i - delta / 2
            } else {
                self.layer_start.i + (-delta) / 2
            };
            if 2 <= im && im <= MAX_I - 3 {
                (IJK { i: im as u16, j: (cur.j + 1) as u16, k: cur.k }, self.layer_start)
            } else {
                (exhausted, self.layer_start)
            }
        } else if self.layer_start.k + 1 <= MAX_K - 3 {
            let ls = self.kplus_spec(self.layer_start);
            if ls.i >= 2 && ls.j >= 2 && ls.j <= MAX_J - 3 && ls.k > cur.k {
                (ls, ls)
            } else {
                (exhausted, self.layer_start)
            }
        } else {
            (exhausted, self.layer_start)
        }
    }

    /// One step of the box scan: hand out the coordinate under the cursor
    /// and advance along the row, to the next row, or to the next layer,
    /// exactly as `scan_step` describes. `None` once the cursor has left the
    /// box (the scan is then finished until the next initialization). Each
    /// handed-out cursor strictly grows in scan order, so a scan hands out
    /// finitely many coordinates.
    pub fn next_site(&mut self) -> (r: Option<IJK>)
        requires
            old(self).wf(),
            old(self).iter_wf(),
        ensures
            final(self).wf(),
            final(self).iter_wf(),
            final(self).stacking == old(self).stacking,
            final(self).stacking_faults == old(self).stacking_faults,
            final(self).min == old(self).min && final(self).max == old(self).max,
            final(self).min_ijk == old(self).min_ijk && final(self).max_ijk == old(self).max_ijk,
            final(self).origin == old(self).origin,
            r is None ==> *final(self) == *old(self) && old(self).next.k > old(self).max_ijk.k,
            r is Some ==> r == Some(old(self).next) && final(self).curr == old(self).next
                && final(self).next == old(self).scan_step().0
                && final(self).layer_start == old(self).scan_step().1
                && iter_key(final(self).next) > iter_key(old(self).next),
    {
        if self.next.k >= self.max_ijk.k + 1 {
            return None;
        }
        self.curr = self.next;
        let row_cand = IJK { i: self.curr.i + 1, j: self.curr.j, k: self.curr.k };
        let exhausted = IJK { i: self.curr.i, j: self.curr.j, k: self.max_ijk.k + 1 };
        if self.curr.i + 1 <= MAX_I - 3 && self.get_xyz(row_cand).x <= self.max.x {
            self.next = row_cand;
        } else if self.curr.j + 1 <= MAX_J - 3 && self.get_xyz(
            IJK { i: self.curr.i, j: self.curr.j + 1, k: self.curr.k },
        ).y <= self.max.y {
            let delta: i64 = self.curr.j as i64 + 1 - self.layer_start.j as i64;
            let im: i64 = if delta >= 0 {
                self.layer_start.i as i64 - delta / 2
            } else {
                self.layer_start.i as i64 + (-delta) / 2
            };
            if 2 <= im && im <= MAX_I as i64 - 3 {
                self.next = IJK { i: im as u16, j: self.curr.j + 1, k: self.curr.k };
            } else {
                self.next = exhausted;
            }
        } else {
            if self.layer_start.k + 1 <= MAX_K - 3 {
                let ls = self.kplus(self.layer_start);
                if ls.i >= 2 && ls.j >= 2 && ls.j <= MAX_J - 3 && ls.k > self.curr.k {
                    self.layer_start = ls;
                    self.next = ls;
                } else {
                    self.next = exhausted;
                }
            } else {
                self.next = exhausted;
            }
        }
        Some(self.curr)
    }
}

} // verus!
