use molecule_sim::bonding::{bond_particle, bonding_sub_step, create_particle_lookup, reconcile_with_target};
use molecule_sim::element::{HYDROGEN, OXYGEN};
use molecule_sim::geometry::Pos;
use molecule_sim::particle::{Bond, BondType, Particle};
use molecule_sim::particle_grid::{grid_size_for_region, GridSize};

fn size() -> GridSize {
    GridSize { width: 32, height: 32 }
}

fn pm(x: i32, y: i32) -> Pos {
    Pos::new(x * 1000, y * 1000)
}

fn bond_to(p: &Particle, partner: usize) -> Option<Bond> {
    p.bonds.iter().find(|e| e.0 == partner).map(|e| e.1)
}

fn committed(p: &Particle) -> u32 {
    p.bonds.iter().map(|e| e.1.electrons_used as u32).sum()
}

fn capacity(p: &Particle) -> u32 {
    p.element().connected_electrons_needed as u32
}

fn assert_accounting(ps: &[Particle]) {
    for p in ps {
        assert!(p.connected_electrons_needed as u32 <= capacity(p));
        assert_eq!(p.connected_electrons_needed as u32 + committed(p), capacity(p));
    }
}

fn hydrogen_pair() -> Vec<Particle> {
    vec![Particle::new(0, HYDROGEN, pm(0, 0)), Particle::new(1, HYDROGEN, pm(20, 0))]
}

#[test]
fn two_hydrogens_form_one_bond() {
    let mut ps = hydrogen_pair();
    bonding_sub_step(&mut ps, size());
    assert_eq!(ps[0].bonds.len(), 1);
    assert_eq!(ps[1].bonds.len(), 1);
    let b0 = bond_to(&ps[0], 1).unwrap();
    let b1 = bond_to(&ps[1], 0).unwrap();
    assert_eq!(b0.electrons_used, 1);
    assert_eq!(b1.electrons_used, 1);
    assert!(!b0.should_break && !b1.should_break);
    assert_eq!(b0.bond_type, BondType::Covalent);
    assert_eq!(b0.bonded_pos, pm(20, 0));
    assert_eq!(ps[0].connected_electrons_needed, 0);
    assert_eq!(ps[1].connected_electrons_needed, 0);
    assert_eq!(ps[0].particles_in_range, vec![pm(20, 0)]);
    assert_accounting(&ps);
}

#[test]
fn hydrogens_out_of_range_do_not_bond() {
    let mut ps = vec![Particle::new(0, HYDROGEN, pm(0, 0)), Particle::new(1, HYDROGEN, pm(31, 0))];
    bonding_sub_step(&mut ps, size());
    assert!(ps[0].bonds.is_empty());
    assert!(ps[1].bonds.is_empty());
    assert_eq!(ps[0].connected_electrons_needed, 1);
    assert_eq!(ps[0].particles_in_range, vec![pm(31, 0)]);
}

#[test]
fn converged_pair_is_unchanged_by_further_passes() {
    let mut ps = hydrogen_pair();
    bonding_sub_step(&mut ps, size());
    let bonds0 = ps[0].bonds.clone();
    let bonds1 = ps[1].bonds.clone();
    bonding_sub_step(&mut ps, size());
    bonding_sub_step(&mut ps, size());
    assert_eq!(ps[0].bonds, bonds0);
    assert_eq!(ps[1].bonds, bonds1);
    assert_eq!(ps[0].connected_electrons_needed, 0);
    assert_eq!(ps[1].connected_electrons_needed, 0);
}

#[test]
fn one_sided_bond_is_mirrored_in_one_pass() {
    let mut ps = vec![Particle::new(0, OXYGEN, pm(0, 0)), Particle::new(1, HYDROGEN, pm(20, 0))];
    bonding_sub_step(&mut ps, size());
    // Take the bond off the hydrogen side only.
    ps[1].bonds.clear();
    ps[1].connected_electrons_needed = 1;
    bonding_sub_step(&mut ps, size());
    let o = bond_to(&ps[0], 1).unwrap();
    let h = bond_to(&ps[1], 0).unwrap();
    assert_eq!(o.electrons_used, 1);
    assert_eq!(h.electrons_used, 1);
    assert!(!o.should_break && !h.should_break);
    assert_eq!(ps[0].connected_electrons_needed, 1);
    assert_eq!(ps[1].connected_electrons_needed, 0);
    assert_accounting(&ps);
}

#[test]
fn bonded_pair_pulled_apart_dissolves_and_restores_capacity() {
    let mut ps = vec![Particle::new(0, HYDROGEN, pm(0, 0)), Particle::new(1, OXYGEN, pm(20, 0))];
    bonding_sub_step(&mut ps, size());
    assert_eq!(bond_to(&ps[1], 0).unwrap().electrons_used, 1);
    assert_eq!(ps[1].connected_electrons_needed, 1);
    assert_eq!(ps[0].connected_electrons_needed, 0);
    // Move the oxygen far away; both sides last saw each other where they now stand.
    ps[1].position_pm = pm(200, 0);
    ps[0].bonds[0].1.bonded_pos = pm(200, 0);
    ps[1].bonds[0].1.bonded_pos = pm(0, 0);
    bonding_sub_step(&mut ps, size());
    assert!(ps[0].bonds.is_empty());
    assert!(ps[1].bonds.is_empty());
    assert_eq!(ps[0].connected_electrons_needed, 1);
    assert_eq!(ps[1].connected_electrons_needed, 2);
}

#[test]
fn oxygen_never_commits_more_than_its_capacity() {
    let mut ps = vec![
        Particle::new(0, OXYGEN, pm(0, 0)),
        Particle::new(1, HYDROGEN, pm(25, 0)),
        Particle::new(2, HYDROGEN, pm(-25, 0)),
        Particle::new(3, HYDROGEN, pm(0, 25)),
    ];
    for _ in 0..5 {
        bonding_sub_step(&mut ps, size());
        assert!(committed(&ps[0]) <= 2);
        assert_accounting(&ps);
    }
    assert_eq!(committed(&ps[0]), 2);
    assert!(bond_to(&ps[0], 1).is_some());
    assert!(bond_to(&ps[0], 2).is_some());
    assert!(bond_to(&ps[0], 3).is_none());
    assert!(ps[3].bonds.is_empty());
    assert_eq!(ps[3].connected_electrons_needed, 1);
}

#[test]
fn oversized_mirror_registers_break_signal() {
    let mut ps = vec![
        Particle::new(0, OXYGEN, pm(0, 0)),
        Particle::new(1, HYDROGEN, pm(25, 0)),
        Particle::new(2, HYDROGEN, pm(-25, 0)),
        Particle::new(3, HYDROGEN, pm(0, 25)),
    ];
    bonding_sub_step(&mut ps, size());
    assert_eq!(ps[0].connected_electrons_needed, 0);
    assert!(bond_to(&ps[3], 0).is_some());
    bonding_sub_step(&mut ps, size());
    let signal = bond_to(&ps[0], 3).unwrap();
    assert_eq!(signal.electrons_used, 0);
    assert!(signal.should_break);
    bonding_sub_step(&mut ps, size());
    assert!(bond_to(&ps[0], 3).is_none());
    assert!(bond_to(&ps[3], 0).is_none());
}

#[test]
fn flagged_partner_bond_is_broken() {
    let mut ps = hydrogen_pair();
    bonding_sub_step(&mut ps, size());
    ps[1].bonds[0].1.should_break = true;
    let lookup = create_particle_lookup(&ps);
    let mut p = ps.remove(0);
    reconcile_with_target(&mut p, &lookup, 1);
    assert!(p.bonds.is_empty());
    assert_eq!(p.connected_electrons_needed, 1);
    // Appended to the list left by the earlier sub-step.
    assert_eq!(p.particles_in_range, vec![pm(20, 0), pm(20, 0)]);
}

#[test]
fn flagged_partner_bond_is_not_mirrored() {
    let mut ps = hydrogen_pair();
    bonding_sub_step(&mut ps, size());
    ps[1].bonds[0].1.should_break = true;
    ps[0].bonds.clear();
    ps[0].connected_electrons_needed = 1;
    let lookup = create_particle_lookup(&ps);
    let mut p = ps.remove(0);
    reconcile_with_target(&mut p, &lookup, 1);
    assert!(p.bonds.is_empty());
    assert_eq!(p.connected_electrons_needed, 1);
}

#[test]
fn self_is_skipped() {
    let ps = hydrogen_pair();
    let lookup = create_particle_lookup(&ps);
    let mut p = Particle::new(0, HYDROGEN, pm(0, 0));
    reconcile_with_target(&mut p, &lookup, 0);
    assert!(p.bonds.is_empty());
    assert!(p.particles_in_range.is_empty());
}

#[test]
fn pass_over_explicit_candidates() {
    let ps = hydrogen_pair();
    let lookup = create_particle_lookup(&ps);
    assert_eq!(lookup[1].position_pm, pm(20, 0));
    assert_eq!(lookup[1].connected_electrons_needed, 1);
    let mut p = Particle::new(0, HYDROGEN, pm(0, 0));
    bond_particle(&mut p, &vec![0, 1, 1], &lookup);
    assert_eq!(p.bonds.len(), 1);
    assert_eq!(p.connected_electrons_needed, 0);
    assert_eq!(p.particles_in_range, vec![pm(20, 0), pm(20, 0)]);
}

#[test]
fn bonded_pair_slightly_beyond_break_distance_dissolves() {
    let region = grid_size_for_region(1_280_000, 720_000).unwrap();
    let mut ps = hydrogen_pair();
    bonding_sub_step(&mut ps, region);
    assert_eq!(ps[0].bonds.len(), 1);
    // Still within one block of cells, but beyond the break distance, with
    // both caches current.
    ps[1].position_pm = pm(35, 0);
    ps[0].bonds[0].1.bonded_pos = pm(35, 0);
    ps[1].bonds[0].1.bonded_pos = pm(0, 0);
    bonding_sub_step(&mut ps, region);
    assert!(ps[0].bonds.is_empty());
    assert!(ps[1].bonds.is_empty());
    assert_eq!(ps[0].connected_electrons_needed, 1);
    assert_eq!(ps[1].connected_electrons_needed, 1);
    // And it stays dissolved.
    bonding_sub_step(&mut ps, region);
    assert!(ps[0].bonds.is_empty());
    assert!(ps[1].bonds.is_empty());
}

#[test]
fn one_sided_bond_from_distant_partner_is_not_mirrored() {
    let mut ps = hydrogen_pair();
    bonding_sub_step(&mut ps, size());
    ps[1].bonds.clear();
    ps[1].connected_electrons_needed = 1;
    ps[1].position_pm = pm(50, 0);
    let lookup = create_particle_lookup(&ps);
    let mut p = Particle::new(1, HYDROGEN, pm(50, 0));
    reconcile_with_target(&mut p, &lookup, 0);
    assert!(p.bonds.is_empty());
    assert_eq!(p.connected_electrons_needed, 1);
}

#[test]
fn snapshot_copies_remaining_capacity() {
    let mut ps = vec![Particle::new(0, OXYGEN, pm(0, 0)), Particle::new(1, HYDROGEN, pm(20, 0))];
    bonding_sub_step(&mut ps, size());
    let lookup = create_particle_lookup(&ps);
    assert_eq!(lookup.len(), 2);
    assert_eq!(lookup[0].current_unused_valence_electrons, 1);
    assert_eq!(lookup[0].connected_electrons_needed, 1);
    assert_eq!(lookup[1].current_unused_valence_electrons, 0);
    assert_eq!(lookup[0].bonds_particle_index, ps[0].bonds);
    assert_eq!(lookup[1].element_index, HYDROGEN);
}

#[test]
fn converged_bond_survives_neighbours() {
    // The oxygen is a grid candidate of both hydrogens but beyond bond distance.
    let mut ps = vec![
        Particle::new(0, HYDROGEN, pm(0, 0)),
        Particle::new(1, HYDROGEN, pm(20, 0)),
        Particle::new(2, OXYGEN, pm(10, 45)),
    ];
    bonding_sub_step(&mut ps, size());
    let b01 = bond_to(&ps[0], 1).unwrap();
    let b10 = bond_to(&ps[1], 0).unwrap();
    assert!(ps[0].particles_in_range.contains(&pm(10, 45)));
    for _ in 0..3 {
        bonding_sub_step(&mut ps, size());
        assert_accounting(&ps);
        assert_eq!(bond_to(&ps[0], 1), Some(b01));
        assert_eq!(bond_to(&ps[1], 0), Some(b10));
    }
    assert!(ps[2].bonds.is_empty());
    assert_eq!(ps[2].connected_electrons_needed, 2);
}
