use flake_growth::coords::IJK;
use flake_growth::params::{CENTER_I, CENTER_J, CENTER_K};
use flake_growth::storage::{Atom, Bulk, SurfaceAtoms, Vacancies};

#[test]
fn bulk_packs_sites_independently() {
    let mut bulk = Bulk::new();
    // Two layers sharing one packed word, plus a laterally adjacent site.
    let a = IJK { i: 10, j: 10, k: 100 };
    let b = IJK { i: 10, j: 10, k: 101 };
    let c = IJK { i: 10, j: 11, k: 100 };
    assert!(bulk.get(a, Atom::Empty));
    bulk.set(a, Atom::Gold);
    bulk.set(b, Atom::Dirt);
    assert!(bulk.get(a, Atom::Gold) && !bulk.get(a, Atom::Dirt) && !bulk.get(a, Atom::Empty));
    assert!(bulk.get(b, Atom::Dirt) && !bulk.get(b, Atom::Gold));
    assert!(bulk.get(c, Atom::Empty));
    assert_eq!(bulk.number_of_atoms, 2);
}

#[test]
fn bulk_tracks_extrema_from_center() {
    let mut bulk = Bulk::new();
    assert_eq!((bulk.i_min, bulk.i_max), (CENTER_I, CENTER_I));
    bulk.set(IJK { i: CENTER_I + 5, j: CENTER_J - 2, k: CENTER_K }, Atom::Gold);
    assert_eq!((bulk.i_min, bulk.i_max), (CENTER_I, CENTER_I + 5));
    assert_eq!((bulk.j_min, bulk.j_max), (CENTER_J - 2, CENTER_J));
    assert_eq!((bulk.k_min, bulk.k_max), (CENTER_K, CENTER_K));
    bulk.clear();
    assert_eq!((bulk.i_min, bulk.i_max), (CENTER_I, CENTER_I));
    assert_eq!(bulk.number_of_atoms, 0);
    assert!(bulk.get(IJK { i: CENTER_I + 5, j: CENTER_J - 2, k: CENTER_K }, Atom::Empty));
}

#[test]
fn surface_set_is_sorted_and_unique() {
    let mut s = SurfaceAtoms::new();
    let a = IJK { i: 5, j: 5, k: 5 };
    let b = IJK { i: 5, j: 5, k: 6 };
    let c = IJK { i: 4, j: 9, k: 9 };
    s.add(b);
    s.add(a);
    s.add(c);
    s.add(a);
    assert_eq!(s.list.len(), 3);
    assert_eq!(s.list, vec![c, a, b]);
    assert!(s.contains(a) && s.contains(b) && s.contains(c));
    s.remove(a);
    assert_eq!(s.list, vec![c, b]);
    assert!(!s.contains(a));
    s.remove(a);
    assert_eq!(s.list, vec![c, b]);
}

#[test]
fn recursive_remove_takes_first_hit_only() {
    let mut v = Vacancies::new();
    let x = IJK { i: 7, j: 7, k: 7 };
    v.list[2].add(x);
    v.list[5].add(x);
    v.recursive_remove(x, 0);
    assert!(!v.list[2].contains(x));
    assert!(v.list[5].contains(x));
    v.recursive_remove(x, 0);
    assert!(!v.list[5].contains(x));
    // Removing an absent coordinate leaves every bucket alone.
    v.recursive_remove(x, 0);
    for b in 0..v.list.len() {
        assert_eq!(v.list[b].list.len(), 0);
    }
}

#[test]
fn recursive_remove_respects_start_index() {
    let mut v = Vacancies::new();
    let x = IJK { i: 3, j: 4, k: 5 };
    v.list[1].add(x);
    v.recursive_remove(x, 2);
    assert!(v.list[1].contains(x));
    v.recursive_remove(x, 1);
    assert!(!v.list[1].contains(x));
}
