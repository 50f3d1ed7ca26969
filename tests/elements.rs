use molecule_sim::element::{element_at, ElementColor, CARBON, HYDROGEN, OXYGEN};
use molecule_sim::geometry::Pos;
use molecule_sim::particle::Particle;

#[test]
fn oxygen_properties() {
    let e = element_at(OXYGEN);
    assert_eq!(e.name, "Oxygen");
    assert_eq!(e.symbol, "O");
    assert_eq!(e.connected_electrons_needed, 2);
    assert_eq!(e.valence_electrons, 6);
    assert_eq!(e.mass_u, 16);
    assert_eq!(e.color, ElementColor::White);
}

#[test]
fn hydrogen_and_carbon_properties() {
    let h = element_at(HYDROGEN);
    assert_eq!(h.name, "Hydrogen");
    assert_eq!(h.connected_electrons_needed, 1);
    assert_eq!(h.mass_u, 1);
    let c = element_at(CARBON);
    assert_eq!(c.symbol, "C");
    assert_eq!(c.connected_electrons_needed, 4);
    assert_eq!(c.mass_u, 12);
    assert_eq!(c.color, ElementColor::Black);
}

#[test]
fn new_particle_has_full_capacity() {
    let p = Particle::new(7, OXYGEN, Pos::new(5, -5));
    assert_eq!(p.index, 7);
    assert_eq!(p.connected_electrons_needed, 2);
    assert!(p.bonds.is_empty());
    assert!(p.particles_in_range.is_empty());
    assert_eq!(p.element().name, "Oxygen");
}

#[test]
fn distance_and_bond_threshold() {
    let a = Pos::new(0, 0);
    let b = Pos::new(30000, 0);
    let c = Pos::new(18000, 24001);
    assert_eq!(a.distance_squared(&b), 900_000_000);
    assert!(!a.is_beyond_bond_distance(&b));
    assert!(a.is_beyond_bond_distance(&c));
    let far = Pos::new(i32::MIN, i32::MAX);
    let other = Pos::new(i32::MAX, i32::MIN);
    assert!(far.is_beyond_bond_distance(&other));
}
