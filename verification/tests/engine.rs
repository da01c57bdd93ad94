use flake_growth::coords::{center, IJK};
use flake_growth::crystal::Crystal;
use flake_growth::lattice::Lattice;
use flake_growth::params::{CENTER_K, VAC_LISTS, SCALE};
use flake_growth::storage::Atom;

fn fresh_crystal() -> Crystal {
    Crystal::new(Lattice::new(Vec::new()))
}

/// Count of deposited neighbors, recomputed from the public primitives.
fn coordination_of(cr: &Crystal, c: IJK) -> usize {
    let mut n = 0;
    for l in 0..12 {
        if cr.bulk.get(cr.lattice.next_neighbor(c, l), Atom::Gold) {
            n += 1;
        }
    }
    n
}

fn bucket_lens(cr: &Crystal) -> Vec<usize> {
    cr.vacancies.list.iter().map(|b| b.list.len()).collect()
}

#[test]
fn seed_pair_counts_and_buckets() {
    let mut cr = fresh_crystal();
    let c0 = center();
    assert!(cr.add_atom(c0));
    let n0 = cr.lattice.next_neighbor(c0, 0);
    assert!(cr.add_atom(n0));
    assert_eq!(cr.bulk.number_of_atoms, 2);
    assert!(cr.surface.contains(c0));
    assert!(cr.surface.contains(n0));
    // The vacancy shared by the two atoms moved into the coordination-2
    // bucket; vacancies seeing only one of them sit in the first bucket.
    let shared = cr.lattice.next_neighbor(c0, 1);
    assert_eq!(coordination_of(&cr, shared), 2);
    assert!(cr.vacancies.list[1].contains(shared));
    assert!(!cr.vacancies.list[0].contains(shared));
    let lone = cr.lattice.next_neighbor(c0, 4);
    assert_eq!(coordination_of(&cr, lone), 1);
    assert!(cr.vacancies.list[0].contains(lone));
}

#[test]
fn occupied_add_atom_changes_nothing() {
    let mut cr = fresh_crystal();
    let c0 = center();
    assert!(cr.add_atom(c0));
    let storage_before = cr.bulk.storage.clone();
    let count_before = cr.bulk.number_of_atoms;
    let surface_before = cr.surface.list.clone();
    let buckets_before: Vec<Vec<IJK>> =
        cr.vacancies.list.iter().map(|b| b.list.clone()).collect();
    let extrema_before = cr.extrema;
    let extrema_ijk_before = cr.extrema_ijk;
    assert!(!cr.add_atom(c0));
    assert_eq!(cr.bulk.storage, storage_before);
    assert_eq!(cr.bulk.number_of_atoms, count_before);
    assert_eq!(cr.surface.list, surface_before);
    let buckets_after: Vec<Vec<IJK>> =
        cr.vacancies.list.iter().map(|b| b.list.clone()).collect();
    assert_eq!(buckets_after, buckets_before);
    assert_eq!(cr.extrema, extrema_before);
    assert_eq!(cr.extrema_ijk, extrema_ijk_before);
}

#[test]
fn occupied_add_dirt_changes_nothing() {
    let mut cr = fresh_crystal();
    let c0 = center();
    assert!(cr.add_dirt(c0));
    let storage_before = cr.bulk.storage.clone();
    let dirt_before = cr.dirt.list.clone();
    let count_before = cr.bulk.number_of_atoms;
    assert!(!cr.add_dirt(c0));
    assert!(!cr.add_atom(c0));
    assert_eq!(cr.bulk.storage, storage_before);
    assert_eq!(cr.dirt.list, dirt_before);
    assert_eq!(cr.bulk.number_of_atoms, count_before);
}

#[test]
fn dirt_is_tracked_but_opens_no_vacancies() {
    let mut cr = fresh_crystal();
    let c0 = center();
    assert!(cr.add_dirt(c0));
    assert!(cr.bulk.get(c0, Atom::Dirt));
    assert!(cr.dirt.contains(c0));
    assert!(!cr.surface.contains(c0));
    assert_eq!(bucket_lens(&cr), vec![0; VAC_LISTS]);
}

#[test]
fn vacancy_partition_after_growth() {
    let mut cr = fresh_crystal();
    let c0 = center();
    cr.add_layer(c0, 3, Atom::Gold);
    cr.add_atom(IJK { i: c0.i, j: c0.j, k: c0.k + 1 });
    // Every empty margin site near the seed with tracked coordination sits
    // in exactly the bucket of its coordination number.
    for di in -5i32..=5 {
        for dj in -5i32..=5 {
            for dk in -3i32..=3 {
                let c = IJK {
                    i: (c0.i as i32 + di) as u16,
                    j: (c0.j as i32 + dj) as u16,
                    k: (c0.k as i32 + dk) as u16,
                };
                if !cr.bulk.get(c, Atom::Empty) {
                    continue;
                }
                let n = coordination_of(&cr, c);
                for b in 0..VAC_LISTS {
                    let expect = n >= 1 && n <= 8 && b == n - 1;
                    assert_eq!(
                        cr.vacancies.list[b].contains(c),
                        expect,
                        "site {:?} with coordination {} against bucket {}",
                        c,
                        n,
                        b
                    );
                }
            }
        }
    }
}

#[test]
fn rebuild_matches_incremental_index() {
    let mut cr = fresh_crystal();
    let c0 = center();
    cr.add_layer(c0, 3, Atom::Gold);
    cr.add_atom(IJK { i: c0.i + 1, j: c0.j, k: c0.k + 1 });
    let buckets_before: Vec<Vec<IJK>> =
        cr.vacancies.list.iter().map(|b| b.list.clone()).collect();
    cr.update_vacancies();
    let buckets_after: Vec<Vec<IJK>> =
        cr.vacancies.list.iter().map(|b| b.list.clone()).collect();
    assert_eq!(buckets_after, buckets_before);
}

#[test]
fn surface_rebuild_is_exact() {
    let mut cr = fresh_crystal();
    let c0 = center();
    cr.add_layer(c0, 4, Atom::Gold);
    cr.random_add(40);
    // The batch path ends in a full rebuild: the surface set is exactly the
    // deposited sites that are not fully surrounded.
    for di in -8i32..=8 {
        for dj in -8i32..=8 {
            for dk in -4i32..=4 {
                let c = IJK {
                    i: (c0.i as i32 + di) as u16,
                    j: (c0.j as i32 + dj) as u16,
                    k: (c0.k as i32 + dk) as u16,
                };
                let exposed = cr.bulk.get(c, Atom::Gold) && coordination_of(&cr, c) < 12;
                assert_eq!(cr.surface.contains(c), exposed, "site {:?}", c);
            }
        }
    }
}

#[test]
fn batch_of_zero_is_a_noop() {
    let mut cr = fresh_crystal();
    let c0 = center();
    assert!(cr.add_atom(c0));
    assert!(cr.add_atom(cr.lattice.next_neighbor(c0, 1)));
    let storage_before = cr.bulk.storage.clone();
    let count_before = cr.bulk.number_of_atoms;
    let surface_before = cr.surface.list.clone();
    let buckets_before = bucket_lens(&cr);
    let extrema_before = cr.extrema;
    cr.random_add(0);
    assert_eq!(cr.bulk.storage, storage_before);
    assert_eq!(cr.bulk.number_of_atoms, count_before);
    assert_eq!(cr.surface.list, surface_before);
    assert_eq!(bucket_lens(&cr), buckets_before);
    assert_eq!(cr.extrema, extrema_before);
}

#[test]
fn batch_growth_adds_at_most_requested() {
    let mut cr = fresh_crystal();
    cr.add_layer(center(), 4, Atom::Gold);
    let before = cr.bulk.number_of_atoms;
    cr.random_add(25);
    assert!(cr.bulk.number_of_atoms >= before);
    assert!(cr.bulk.number_of_atoms <= before + 25);
    // With weight on the higher coordination shells available, growth
    // actually proceeds.
    assert!(cr.bulk.number_of_atoms > before);
}

#[test]
fn extrema_are_tight_and_monotone() {
    let mut cr = fresh_crystal();
    let c0 = center();
    assert!(cr.add_atom(c0));
    assert_eq!((cr.bulk.i_min, cr.bulk.i_max), (c0.i, c0.i));
    let east = IJK { i: c0.i + 1, j: c0.j, k: c0.k };
    assert!(cr.add_atom(east));
    assert_eq!((cr.bulk.i_min, cr.bulk.i_max), (c0.i, c0.i + 1));
    assert_eq!((cr.bulk.j_min, cr.bulk.j_max), (c0.j, c0.j));
    let up = IJK { i: c0.i, j: c0.j, k: c0.k + 1 };
    assert!(cr.add_atom(up));
    assert_eq!((cr.bulk.k_min, cr.bulk.k_max), (c0.k, c0.k + 1));
    // The box never shrinks, and equals the true extent of occupied sites.
    cr.random_add(10);
    assert!(cr.bulk.i_min <= c0.i && cr.bulk.i_max >= c0.i + 1);
    assert!(cr.bulk.k_min <= c0.k && cr.bulk.k_max >= c0.k + 1);
    let mut seen_i_min = false;
    let mut seen_i_max = false;
    for di in -12i32..=12 {
        for dj in -12i32..=12 {
            for dk in -6i32..=6 {
                let c = IJK {
                    i: (c0.i as i32 + di) as u16,
                    j: (c0.j as i32 + dj) as u16,
                    k: (c0.k as i32 + dk) as u16,
                };
                if !cr.bulk.get(c, Atom::Empty) {
                    assert!(cr.bulk.i_min <= c.i && c.i <= cr.bulk.i_max);
                    assert!(cr.bulk.j_min <= c.j && c.j <= cr.bulk.j_max);
                    assert!(cr.bulk.k_min <= c.k && c.k <= cr.bulk.k_max);
                    if c.i == cr.bulk.i_min {
                        seen_i_min = true;
                    }
                    if c.i == cr.bulk.i_max {
                        seen_i_max = true;
                    }
                }
            }
        }
    }
    assert!(seen_i_min && seen_i_max);
}

#[test]
fn random_vacancy_sentinel_and_member() {
    let cr = fresh_crystal();
    // No vacancies at all: the center is the sentinel.
    assert_eq!(cr.random_vacancy(), center());
    let mut cr = fresh_crystal();
    cr.add_layer(center(), 3, Atom::Gold);
    let v = cr.random_vacancy();
    if v != center() {
        assert!(cr.bulk.get(v, Atom::Empty));
        let mut indexed = false;
        for b in 0..VAC_LISTS {
            if cr.vacancies.list[b].contains(v) {
                indexed = true;
            }
        }
        assert!(indexed);
    }
}

#[test]
fn clear_resets_everything() {
    let mut cr = fresh_crystal();
    cr.add_layer(center(), 3, Atom::Gold);
    cr.add_dirt(IJK { i: center().i, j: center().j, k: center().k + 2 });
    cr.clear();
    assert_eq!(cr.bulk.number_of_atoms, 0);
    assert!(cr.bulk.get(center(), Atom::Empty));
    assert_eq!(cr.surface.list.len(), 0);
    assert_eq!(cr.dirt.list.len(), 0);
    assert_eq!(bucket_lens(&cr), vec![0; VAC_LISTS]);
    assert_eq!(cr.extrema.x_min, 0);
    assert_eq!(cr.extrema_ijk.x_min, center());
}

#[test]
fn size_of_single_atom_is_one_diameter() {
    let mut cr = fresh_crystal();
    assert!(cr.add_atom(center()));
    let s = cr.get_size();
    assert_eq!(s, [SCALE, SCALE, SCALE]);
}

#[test]
fn hexagon_of_single_atom_collapses_to_origin() {
    let mut cr = fresh_crystal();
    assert!(cr.add_atom(center()));
    let h = cr.get_hexagon();
    assert_eq!(h, [0i64; 12]);
}

#[test]
fn prob_list_cycles_with_exponents() {
    let mut cr = fresh_crystal();
    assert_eq!(cr.prob_list_num, 2);
    assert_eq!(cr.prob_list[3], 10_000);
    assert_eq!(cr.prob_list_log[3], 4);
    assert_eq!(cr.prob_list_log[0], -1);
    cr.next_prob_list();
    assert_eq!(cr.prob_list_num, 3);
    assert_eq!(cr.prob_list[3], 100_000);
    assert_eq!(cr.prob_list_log[3], 5);
    cr.next_prob_list();
    assert_eq!(cr.prob_list_num, 0);
    assert_eq!(cr.prob_list[8], 1_000_000_000);
    assert_eq!(cr.prob_list_log[8], 9);
}

#[test]
fn substrate_blocks_vacancies_below() {
    let mut cr = fresh_crystal();
    let c0 = center();
    cr.substrate_pos = c0.k;
    cr.update_vacancies();
    assert!(cr.add_atom(c0));
    // Neighbors below or at the substrate plane are never indexed.
    for b in 0..VAC_LISTS {
        for v in cr.vacancies.list[b].list.iter() {
            assert!(v.k > cr.substrate_pos);
        }
    }
    assert!(cr.vacancies.list[0].contains(cr.lattice.next_neighbor(c0, 6)));
    assert!(!cr.vacancies.list[0].contains(cr.lattice.next_neighbor(c0, 9)));
}

#[test]
fn dirt_layer_seeds_contaminants() {
    let mut cr = fresh_crystal();
    let c0 = center();
    cr.add_layer(c0, 2, Atom::Dirt);
    assert!(cr.bulk.get(c0, Atom::Dirt));
    assert!(cr.dirt.contains(c0));
    assert!(cr.bulk.number_of_atoms > 0);
    assert_eq!(cr.surface.list.len(), 0);
}

#[test]
fn gold_layer_has_hexagonal_footprint() {
    let mut cr = fresh_crystal();
    let c0 = center();
    cr.add_layer(c0, 2, Atom::Gold);
    // The footprint of half-size 2 holds seven sites around the center.
    assert_eq!(cr.bulk.number_of_atoms, 7);
    assert!(cr.bulk.get(c0, Atom::Gold));
    assert!(cr.bulk.get(IJK { i: c0.i + 1, j: c0.j, k: c0.k }, Atom::Gold));
    assert!(cr.bulk.get(IJK { i: c0.i - 1, j: c0.j + 1, k: c0.k }, Atom::Gold));
    // A corner of the square that falls outside the hexagon stays empty.
    assert!(cr.bulk.get(IJK { i: c0.i + 1, j: c0.j + 1, k: c0.k }, Atom::Empty));
}

#[test]
fn growth_above_faulted_lattice_stays_consistent() {
    let faults = vec![CENTER_K - 2, CENTER_K + 2];
    let mut cr = Crystal::new(Lattice::new(faults));
    let c0 = center();
    cr.add_layer(c0, 3, Atom::Gold);
    cr.random_add(20);
    for di in -6i32..=6 {
        for dj in -6i32..=6 {
            for dk in -4i32..=4 {
                let c = IJK {
                    i: (c0.i as i32 + di) as u16,
                    j: (c0.j as i32 + dj) as u16,
                    k: (c0.k as i32 + dk) as u16,
                };
                if cr.bulk.get(c, Atom::Empty) {
                    let n = coordination_of(&cr, c);
                    if (1..=8).contains(&n) {
                        assert!(cr.vacancies.list[n - 1].contains(c));
                    }
                }
            }
        }
    }
}

#[test]
fn repeated_random_picks_stay_valid() {
    let mut cr = fresh_crystal();
    cr.add_layer(center(), 3, Atom::Gold);
    // Every draw lands on a currently indexed vacancy (or the sentinel);
    // out-of-range randomness could not satisfy this repeatedly.
    for _ in 0..200 {
        let v = cr.random_vacancy();
        if v == center() {
            continue;
        }
        assert!(cr.bulk.get(v, Atom::Empty));
        let n = coordination_of(&cr, v);
        assert!((1..=8).contains(&n));
        assert!(cr.vacancies.list[n - 1].contains(v));
    }
}

/// The weighted total the growth draw is taken from.
fn weight_total_of(cr: &Crystal) -> u128 {
    let mut acc: u128 = 0;
    for b in 0..VAC_LISTS {
        acc += cr.prob_list[b] as u128 * cr.vacancies.list[b].list.len() as u128;
    }
    acc
}

#[test]
fn zero_weight_total_is_inert() {
    let mut cr = fresh_crystal();
    assert!(cr.add_atom(center()));
    // A lone atom opens only coordination-1 vacancies, which carry zero
    // weight under the default row: no growth is possible.
    assert_eq!(weight_total_of(&cr), 0);
    assert_eq!(cr.random_vacancy(), center());
    let storage_before = cr.bulk.storage.clone();
    let buckets_before = bucket_lens(&cr);
    let extrema_before = cr.extrema;
    cr.random_add(5);
    assert_eq!(cr.bulk.storage, storage_before);
    assert_eq!(cr.bulk.number_of_atoms, 1);
    assert_eq!(bucket_lens(&cr), buckets_before);
    assert_eq!(cr.extrema, extrema_before);
}

#[test]
fn weighted_picks_respect_the_draw_semantics() {
    let mut cr = fresh_crystal();
    cr.add_layer(center(), 3, Atom::Gold);
    assert!(weight_total_of(&cr) > 0);
    let bucket0_empty = cr.vacancies.list[0].list.is_empty();
    for _ in 0..100 {
        let v = cr.random_vacancy();
        if v == center() {
            // The sentinel is reachable only through an empty first bucket
            // (a draw of zero always selects it).
            assert!(bucket0_empty);
            continue;
        }
        // The member came from the first bucket or from one with positive
        // weight: no draw can land inside a later zero-weight bucket.
        let mut b = VAC_LISTS;
        for m in 0..VAC_LISTS {
            if cr.vacancies.list[m].contains(v) {
                b = m;
            }
        }
        assert!(b < VAC_LISTS);
        assert!(b == 0 || cr.prob_list[b] > 0, "bucket {} has zero weight", b);
    }
}

#[test]
fn batch_changes_only_margin_vacancies() {
    let mut cr = fresh_crystal();
    let c0 = center();
    cr.add_layer(c0, 4, Atom::Gold);
    let gold_before: Vec<Vec<Vec<bool>>> = (-10i32..=10)
        .map(|di| {
            (-10i32..=10)
                .map(|dj| {
                    (-5i32..=5)
                        .map(|dk| {
                            let c = IJK {
                                i: (c0.i as i32 + di) as u16,
                                j: (c0.j as i32 + dj) as u16,
                                k: (c0.k as i32 + dk) as u16,
                            };
                            !cr.bulk.get(c, Atom::Empty)
                        })
                        .collect()
                })
                .collect()
        })
        .collect();
    let sub = cr.substrate_pos;
    cr.random_add(30);
    // Every site the batch touched went empty to deposited, inside the
    // margin and above the substrate.
    for di in -10i32..=10 {
        for dj in -10i32..=10 {
            for dk in -5i32..=5 {
                let c = IJK {
                    i: (c0.i as i32 + di) as u16,
                    j: (c0.j as i32 + dj) as u16,
                    k: (c0.k as i32 + dk) as u16,
                };
                let was = gold_before[(di + 10) as usize][(dj + 10) as usize][(dk + 5) as usize];
                let now = !cr.bulk.get(c, Atom::Empty);
                if was != now {
                    assert!(now && !was);
                    assert!(cr.bulk.get(c, Atom::Gold));
                    assert!(c.k > sub);
                }
            }
        }
    }
}
