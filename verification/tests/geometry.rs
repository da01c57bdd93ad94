use flake_growth::coords::{center, IJK, XYZ};
use flake_growth::lattice::Lattice;
use flake_growth::params::{CENTER_I, CENTER_J, CENTER_K, MAX_K, SCALE, SIN60, YPOS, ZPOS};
use flake_growth::stacking::Stackings;

#[test]
fn center_maps_to_origin() {
    let lattice = Lattice::new(Vec::new());
    let p = lattice.get_xyz(center());
    assert_eq!(p, XYZ { x: 0, y: 0, z: 0 });
}

#[test]
fn axis_neighbors_have_basis_positions() {
    let lattice = Lattice::new(Vec::new());
    let c = center();
    let px = lattice.get_xyz(IJK { i: c.i + 1, j: c.j, k: c.k });
    assert_eq!(px, XYZ { x: SCALE, y: 0, z: 0 });
    let py = lattice.get_xyz(IJK { i: c.i, j: c.j + 1, k: c.k });
    assert_eq!(py, XYZ { x: SCALE / 2, y: SIN60, z: 0 });
    let pz = lattice.get_xyz(IJK { i: c.i, j: c.j, k: c.k + 1 });
    assert_eq!(pz, XYZ { x: SCALE / 2, y: YPOS, z: ZPOS });
}

#[test]
fn round_trip_without_faults() {
    let lattice = Lattice::new(Vec::new());
    for di in [-3i32, -1, 0, 2, 5] {
        for dj in [-4i32, 0, 3] {
            for dk in [-2i32, 0, 1, 4] {
                let c = IJK {
                    i: (CENTER_I as i32 + di) as u16,
                    j: (CENTER_J as i32 + dj) as u16,
                    k: (CENTER_K as i32 + dk) as u16,
                };
                assert_eq!(lattice.get_ijk(lattice.get_xyz(c)), c);
            }
        }
    }
}

#[test]
fn round_trip_across_fault_layers() {
    let faults = vec![CENTER_K - 2, CENTER_K + 2];
    let lattice = Lattice::new(faults);
    for dk in -4i32..=4 {
        let c = IJK {
            i: CENTER_I + 1,
            j: CENTER_J - 2,
            k: (CENTER_K as i32 + dk) as u16,
        };
        assert_eq!(lattice.get_ijk(lattice.get_xyz(c)), c);
    }
}

#[test]
fn stacking_tables_without_faults() {
    let st = Stackings::new(&Vec::new());
    assert_eq!(st.shift_j.len(), MAX_K as usize);
    for k in 0..MAX_K as usize {
        assert_eq!(st.shift_j[k], 1);
        assert_eq!(st.shift_i[k], 0);
        assert_eq!(st.pos[k] as i32, k as i32 - CENTER_K as i32);
    }
}

#[test]
fn stacking_tables_with_one_fault() {
    let fault = CENTER_K + 1;
    let st = Stackings::new(&vec![fault]);
    // Below the fault layer the registry is unchanged.
    assert_eq!(st.shift_j[CENTER_K as usize], 1);
    assert_eq!(st.pos[CENTER_K as usize], 0);
    // From the fault layer on the sign is reversed and the offset walks back.
    assert_eq!(st.shift_j[fault as usize], -1);
    assert_eq!(st.shift_i[fault as usize], 1);
    assert_eq!(st.pos[fault as usize], -1);
    assert_eq!(st.pos[fault as usize + 1], -2);
}

#[test]
fn in_plane_neighbors() {
    let lattice = Lattice::new(Vec::new());
    let c = center();
    assert_eq!(lattice.next_neighbor(c, 0), IJK { i: c.i + 1, j: c.j, k: c.k });
    assert_eq!(lattice.next_neighbor(c, 1), IJK { i: c.i, j: c.j + 1, k: c.k });
    assert_eq!(lattice.next_neighbor(c, 2), IJK { i: c.i + 1, j: c.j - 1, k: c.k });
    assert_eq!(lattice.next_neighbor(c, 3), IJK { i: c.i - 1, j: c.j + 1, k: c.k });
    assert_eq!(lattice.next_neighbor(c, 4), IJK { i: c.i - 1, j: c.j, k: c.k });
    assert_eq!(lattice.next_neighbor(c, 5), IJK { i: c.i, j: c.j - 1, k: c.k });
    assert_eq!(lattice.next_neighbor(c, 12), c);
}

#[test]
fn fault_shears_upward_neighbor() {
    let c = center();
    let plain = Lattice::new(Vec::new());
    let faulted = Lattice::new(vec![CENTER_K + 1]);
    let plain_up = plain.next_neighbor(c, 7);
    let faulted_up = faulted.next_neighbor(c, 7);
    // Without the fault the slanted upward neighbor steps only in j; the
    // fault at the crossed boundary shears it by the configured unit shift.
    assert_eq!(plain_up, IJK { i: c.i, j: c.j - 1, k: c.k + 1 });
    assert_eq!(faulted_up, IJK { i: c.i - 1, j: c.j + 1, k: c.k + 1 });
    assert_eq!(plain_up.k, faulted_up.k);
    assert_eq!(plain_up.i as i32 - faulted_up.i as i32, 1);
    assert_eq!(faulted_up.j as i32 - plain_up.j as i32, 2);
}

#[test]
fn neighbor_relation_is_symmetric() {
    let lattice = Lattice::new(vec![CENTER_K]);
    let c = center();
    for l in 0..12 {
        let n = lattice.next_neighbor(c, l);
        let mut back = false;
        for m in 0..12 {
            if lattice.next_neighbor(n, m) == c {
                back = true;
            }
        }
        assert!(back, "neighbor {} has no return edge", l);
    }
}

#[test]
fn box_scan_covers_a_small_box() {
    let mut lattice = Lattice::new(Vec::new());
    let min = XYZ { x: -2 * SCALE, y: -2 * SCALE, z: -ZPOS };
    let max = XYZ { x: 2 * SCALE, y: 2 * SCALE, z: ZPOS };
    lattice.init_box_iter(min, max);
    let mut sites = Vec::new();
    while let Some(c) = lattice.next_site() {
        sites.push(c);
        assert!(sites.len() < 1000, "scan must stay finite");
    }
    assert!(sites.contains(&center()));
    // Every handed-out coordinate is distinct.
    for a in 0..sites.len() {
        for b in (a + 1)..sites.len() {
            assert_ne!(sites[a], sites[b]);
        }
    }
    // The scan is restartable: a fresh initialization replays the same walk.
    lattice.init_box_iter(min, max);
    let mut again = Vec::new();
    while let Some(c) = lattice.next_site() {
        again.push(c);
    }
    assert_eq!(sites, again);
}
