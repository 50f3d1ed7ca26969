use molecule_sim::bonding::create_particle_lookup;
use molecule_sim::element::{CARBON, HYDROGEN};
use molecule_sim::geometry::Pos;
use molecule_sim::particle::{copy_bonds, find_bond_index, Bond, BondType, Particle};

fn pm(x: i32, y: i32) -> Pos {
    Pos::new(x * 1000, y * 1000)
}

#[test]
fn register_and_break_restore_capacity() {
    let others = vec![Particle::new(0, HYDROGEN, pm(10, 0)), Particle::new(1, HYDROGEN, pm(0, 10))];
    let lookup = create_particle_lookup(&others);
    let mut c = Particle::new(2, CARBON, pm(0, 0));
    c.register_bond(0, 1, false, &lookup[0]);
    c.register_bond(1, 2, false, &lookup[1]);
    assert_eq!(c.connected_electrons_needed, 1);
    assert_eq!(c.bonds[1].1.bonded_pos, pm(0, 10));
    let bond = c.bonds[0].1;
    c.break_bond(&0, &bond);
    assert_eq!(c.connected_electrons_needed, 2);
    assert_eq!(c.bonds.len(), 1);
    c.break_bond_find_bond(&1);
    assert_eq!(c.connected_electrons_needed, 4);
    assert!(c.bonds.is_empty());
}

#[test]
fn out_of_range_bonds_are_dropped() {
    let others = vec![Particle::new(0, HYDROGEN, pm(30, 0)), Particle::new(1, HYDROGEN, pm(0, 31))];
    let lookup = create_particle_lookup(&others);
    let mut c = Particle::new(2, CARBON, pm(0, 0));
    c.register_bond(0, 1, false, &lookup[0]);
    c.register_bond(1, 1, true, &lookup[1]);
    assert_eq!(c.connected_electrons_needed, 2);
    c.break_all_out_of_range_bonds();
    assert_eq!(c.bonds.len(), 1);
    assert_eq!(c.bonds[0].0, 0);
    assert_eq!(c.connected_electrons_needed, 3);
}

#[test]
fn find_and_copy_bonds() {
    let others = vec![Particle::new(0, HYDROGEN, pm(10, 0))];
    let lookup = create_particle_lookup(&others);
    let mut c = Particle::new(2, CARBON, pm(0, 0));
    c.register_bond(5, 1, false, &lookup[0]);
    c.register_bond(9, 0, true, &lookup[0]);
    assert_eq!(find_bond_index(&c.bonds, 9), Some(1));
    assert_eq!(find_bond_index(&c.bonds, 4), None);
    assert_eq!(copy_bonds(&c.bonds), c.bonds);
}

#[test]
fn breaking_an_absent_bond_changes_nothing() {
    let others = vec![Particle::new(0, HYDROGEN, pm(10, 0))];
    let lookup = create_particle_lookup(&others);
    let mut c = Particle::new(2, CARBON, pm(0, 0));
    c.register_bond(0, 1, false, &lookup[0]);
    let stray = Bond { bond_type: BondType::Covalent, electrons_used: 2, should_break: false, bonded_pos: pm(1, 1) };
    c.break_bond(&7, &stray);
    assert_eq!(c.bonds.len(), 1);
    assert_eq!(c.connected_electrons_needed, 3);
}

#[test]
fn well_formedness_is_checked() {
    let others = vec![Particle::new(0, HYDROGEN, pm(10, 0))];
    let lookup = create_particle_lookup(&others);
    let mut c = Particle::new(2, CARBON, pm(0, 0));
    assert!(c.is_well_formed());
    c.register_bond(0, 1, false, &lookup[0]);
    assert!(c.is_well_formed());
    let mut own = Particle::new(2, CARBON, pm(0, 0));
    own.bonds.push((2, c.bonds[0].1));
    own.connected_electrons_needed = 3;
    assert!(!own.is_well_formed());
    let mut dup = Particle::new(2, CARBON, pm(0, 0));
    dup.bonds.push((0, c.bonds[0].1));
    dup.bonds.push((0, c.bonds[0].1));
    dup.connected_electrons_needed = 2;
    assert!(!dup.is_well_formed());
    let mut leak = Particle::new(2, CARBON, pm(0, 0));
    leak.bonds.push((0, c.bonds[0].1));
    assert!(!leak.is_well_formed());
}

#[test]
fn element_of_particle_is_complete() {
    let h = Particle::new(0, HYDROGEN, pm(0, 0)).element();
    assert_eq!(h.name, "Hydrogen");
    assert_eq!(h.symbol, "H");
    assert_eq!(h.valence_electrons, 1);
    assert_eq!(h.radious_pm, 1);
    assert_eq!(h.connected_electrons_needed, 1);
}
