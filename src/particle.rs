use vstd::prelude::*;

use crate::element::{capacity_of, element_at, Element, ELEMENT_COUNT};
use crate::geometry::{beyond_bond_distance, Pos};

verus! {

/// Kind of a bond; only covalent bonds are formed.
#[derive(Clone, Copy, PartialEq, Eq, Debug, Structural)]
pub enum BondType {
    Covalent,
    Ionic,
}

/// One side of a bond, held by the owning particle and keyed by the
/// partner's index.
#[derive(Clone, Copy, PartialEq, Eq, Debug, Structural)]
pub struct Bond {
    pub bond_type: BondType,
    /// Electrons this particle has committed to the bond.
    pub electrons_used: u8,
    /// Marks the bond for dissolution.
    pub should_break: bool,
    /// Last known position of the partner.
    pub bonded_pos: Pos,
}

/// Total electrons committed over a list of bonds.
pub open spec fn electrons_sum(s: Seq<(usize, Bond)>) -> int
    decreases s.len(),
{
    if s.len() == 0 {
        0
    } else {
        electrons_sum(s.drop_last()) + s.last().1.electrons_used
    }
}

/// No partner index occurs twice in a list of bonds.
pub open spec fn keys_unique(s: Seq<(usize, Bond)>) -> bool {
    forall|i: int, j: int|
        0 <= i < s.len() && 0 <= j < s.len() && i != j ==> #[trigger] s[i].0 != #[trigger] s[j].0
}

/// No bond of `s` is keyed by `k`.
pub open spec fn no_bond_with(s: Seq<(usize, Bond)>, k: usize) -> bool {
    forall|i: int| 0 <= i < s.len() ==> #[trigger] s[i].0 != k
}

/// Position in `s` of the bond with partner `k`, if there is one.
pub open spec fn find_bond(s: Seq<(usize, Bond)>, k: usize) -> Option<int>
    decreases s.len(),
{
    if s.len() == 0 {
        None
    } else if s.last().0 == k {
        Some(s.len() - 1)
    } else {
        find_bond(s.drop_last(), k)
    }
}

/// The bond with partner `k`, if there is one.
pub open spec fn bond_with(s: Seq<(usize, Bond)>, k: usize) -> Option<Bond> {
    match find_bond(s, k) {
        Some(i) => Some(s[i].1),
        None => None,
    }
}

/// The bonds whose cached partner position lies within bond distance of `pos`,
/// in the order they were held.
pub open spec fn kept_bonds(s: Seq<(usize, Bond)>, pos: Pos) -> Seq<(usize, Bond)>
    decreases s.len(),
{
    if s.len() == 0 {
        seq![]
    } else if beyond_bond_distance(s.last().1.bonded_pos, pos) {
        kept_bonds(s.drop_last(), pos)
    } else {
        kept_bonds(s.drop_last(), pos).push(s.last())
    }
}

pub proof fn lemma_electrons_sum_nonneg(s: Seq<(usize, Bond)>)
    ensures
        electrons_sum(s) >= 0,
    decreases s.len(),
{
    if s.len() > 0 {
        lemma_electrons_sum_nonneg(s.drop_last());
    }
}

pub proof fn lemma_find_bond(s: Seq<(usize, Bond)>, k: usize)
    ensures
        match find_bond(s, k) {
            Some(i) => 0 <= i < s.len() && s[i].0 == k,
            None => forall|i: int| 0 <= i < s.len() ==> #[trigger] s[i].0 != k,
        },
    decreases s.len(),
{
    if s.len() > 0 {
        lemma_find_bond(s.drop_last(), k);
        if s.last().0 != k {
            assert forall|i: int| 0 <= i < s.len() - 1 implies #[trigger] s[i] == s.drop_last()[i] by {}
        }
    }
}

/// With unique keys, the bond found for a key stands at the one position holding that key.
pub proof fn lemma_find_bond_at(s: Seq<(usize, Bond)>, i: int)
    requires
        keys_unique(s),
        0 <= i < s.len(),
    ensures
        find_bond(s, s[i].0) == Some(i),
{
    lemma_find_bond(s, s[i].0);
}

pub proof fn lemma_electrons_sum_remove(s: Seq<(usize, Bond)>, i: int)
    requires
        0 <= i < s.len(),
    ensures
        electrons_sum(s.remove(i)) == electrons_sum(s) - s[i].1.electrons_used,
    decreases s.len(),
{
    if i == s.len() - 1 {
        assert(s.remove(i) =~= s.drop_last());
    } else {
        lemma_electrons_sum_remove(s.drop_last(), i);
        assert(s.remove(i).drop_last() =~= s.drop_last().remove(i));
        assert(s.remove(i).last() == s.last());
    }
}

pub proof fn lemma_electrons_sum_update(s: Seq<(usize, Bond)>, i: int, e: (usize, Bond))
    requires
        0 <= i < s.len(),
        e.1.electrons_used == s[i].1.electrons_used,
    ensures
        electrons_sum(s.update(i, e)) == electrons_sum(s),
    decreases s.len(),
{
    if i == s.len() - 1 {
        assert(s.update(i, e).drop_last() =~= s.drop_last());
    } else {
        lemma_electrons_sum_update(s.drop_last(), i, e);
        assert(s.update(i, e).drop_last() =~= s.drop_last().update(i, e));
    }
}

pub proof fn lemma_keys_unique_remove(s: Seq<(usize, Bond)>, i: int)
    requires
        keys_unique(s),
        0 <= i < s.len(),
    ensures
        keys_unique(s.remove(i)),
{
    let r = s.remove(i);
    assert forall|a: int, b: int| 0 <= a < r.len() && 0 <= b < r.len() && a != b implies #[trigger] r[a].0
        != #[trigger] r[b].0 by {
        let a2 = if a < i { a } else { a + 1 };
        let b2 = if b < i { b } else { b + 1 };
        assert(r[a] == s[a2] && r[b] == s[b2]);
    }
}

pub proof fn lemma_keys_unique_push(s: Seq<(usize, Bond)>, e: (usize, Bond))
    requires
        keys_unique(s),
        find_bond(s, e.0) is None,
    ensures
        keys_unique(s.push(e)),
{
    lemma_find_bond(s, e.0);
    let r = s.push(e);
    assert forall|a: int, b: int| 0 <= a < r.len() && 0 <= b < r.len() && a != b implies #[trigger] r[a].0
        != #[trigger] r[b].0 by {
        if a < s.len() && b < s.len() {
            assert(r[a] == s[a] && r[b] == s[b]);
        } else if a < s.len() {
            assert(r[a] == s[a]);
        } else {
            assert(r[b] == s[b]);
        }
    }
}

pub proof fn lemma_keys_unique_update(s: Seq<(usize, Bond)>, i: int, e: (usize, Bond))
    requires
        keys_unique(s),
        0 <= i < s.len(),
        e.0 == s[i].0,
    ensures
        keys_unique(s.update(i, e)),
{
    let r = s.update(i, e);
    assert forall|a: int, b: int| 0 <= a < r.len() && 0 <= b < r.len() && a != b implies #[trigger] r[a].0
        != #[trigger] r[b].0 by {
        assert(r[a].0 == s[a].0 && r[b].0 == s[b].0);
    }
}

/// Every bond kept is a bond of `s`, keys stay unique and the committed
/// electrons do not grow.
pub proof fn lemma_kept_bonds(s: Seq<(usize, Bond)>, pos: Pos)
    requires
        keys_unique(s),
    ensures
        keys_unique(kept_bonds(s, pos)),
        forall|i: int|
            0 <= i < kept_bonds(s, pos).len() ==> exists|j: int|
                0 <= j < s.len() && #[trigger] kept_bonds(s, pos)[i] == s[j],
        0 <= electrons_sum(kept_bonds(s, pos)) <= electrons_sum(s),
        forall|i: int|
            0 <= i < kept_bonds(s, pos).len() ==> !beyond_bond_distance(
                #[trigger] kept_bonds(s, pos)[i].1.bonded_pos,
                pos,
            ),
    decreases s.len(),
{
    if s.len() > 0 {
        let d = s.drop_last();
        assert(keys_unique(d)) by {
            assert forall|a: int, b: int| 0 <= a < d.len() && 0 <= b < d.len() && a != b implies #[trigger] d[a].0
                != #[trigger] d[b].0 by {
                assert(d[a] == s[a] && d[b] == s[b]);
            }
        }
        lemma_kept_bonds(d, pos);
        lemma_electrons_sum_nonneg(kept_bonds(d, pos));
        let k = kept_bonds(d, pos);
        let r = kept_bonds(s, pos);
        if beyond_bond_distance(s.last().1.bonded_pos, pos) {
            assert forall|i: int| 0 <= i < r.len() implies exists|j: int|
                0 <= j < s.len() && #[trigger] r[i] == s[j] by {
                let j = choose|j: int| 0 <= j < d.len() && k[i] == d[j];
                assert(r[i] == s[j]);
            }
        } else {
            assert forall|i: int| 0 <= i < r.len() implies exists|j: int|
                0 <= j < s.len() && #[trigger] r[i] == s[j] by {
                if i < k.len() {
                    let j = choose|j: int| 0 <= j < d.len() && k[i] == d[j];
                    assert(r[i] == s[j]);
                } else {
                    assert(r[i] == s[s.len() - 1]);
                }
            }
            assert forall|a: int, b: int| 0 <= a < r.len() && 0 <= b < r.len() && a != b implies #[trigger] r[a].0
                != #[trigger] r[b].0 by {
                if a < k.len() && b < k.len() {
                    assert(r[a] == k[a] && r[b] == k[b]);
                } else if a < k.len() {
                    let j = choose|j: int| 0 <= j < d.len() && k[a] == d[j];
                    assert(r[a] == s[j]);
                    assert(r[b] == s[s.len() - 1]);
                } else {
                    let j = choose|j: int| 0 <= j < d.len() && k[b] == d[j];
                    assert(r[b] == s[j]);
                    assert(r[a] == s[s.len() - 1]);
                }
            }
            assert forall|i: int| 0 <= i < r.len() implies !beyond_bond_distance(
                #[trigger] r[i].1.bonded_pos,
                pos,
            ) by {
                if i < k.len() {
                    assert(r[i] == k[i]);
                }
            }
            assert(r.drop_last() =~= k);
        }
    }
}

pub proof fn lemma_electrons_sum_prefix(s: Seq<(usize, Bond)>, i: int)
    requires
        0 <= i <= s.len(),
    ensures
        electrons_sum(s.subrange(0, i)) <= electrons_sum(s),
    decreases s.len(),
{
    if i < s.len() {
        lemma_electrons_sum_prefix(s.drop_last(), i);
        assert(s.drop_last().subrange(0, i) =~= s.subrange(0, i));
    } else {
        assert(s.subrange(0, i) =~= s);
    }
}

/// What a particle is, as the bonding rules see it.
pub struct ParticleView {
    pub element_index: u8,
    pub index: usize,
    pub position: Pos,
    pub bonds: Seq<(usize, Bond)>,
    pub in_range: Seq<Pos>,
    pub remaining: int,
}

impl ParticleView {
    /// Keys are unique, no bond is keyed by the particle's own index, and every
    /// committed electron is accounted for: the remaining capacity plus the
    /// electrons held in bonds is the element's total capacity.
    pub open spec fn wf(self) -> bool {
        &&& self.element_index < ELEMENT_COUNT
        &&& keys_unique(self.bonds)
        &&& no_bond_with(self.bonds, self.index)
        &&& self.remaining >= 0
        &&& self.remaining + electrons_sum(self.bonds) == capacity_of(self.element_index as int)
    }
}

/// `v` after registering a bond with partner `t`.
pub open spec fn register_spec(v: ParticleView, t: usize, e: u8, should_break: bool, at: Pos) -> ParticleView {
    ParticleView {
        bonds: v.bonds.push(
            (t, Bond { bond_type: BondType::Covalent, electrons_used: e, should_break, bonded_pos: at }),
        ),
        remaining: v.remaining - e,
        ..v
    }
}

/// `v` after breaking its bond at position `i` of its bond list.
pub open spec fn break_spec(v: ParticleView, i: int) -> ParticleView {
    ParticleView {
        bonds: v.bonds.remove(i),
        remaining: v.remaining + v.bonds[i].1.electrons_used,
        ..v
    }
}

/// `v` after dropping every bond whose cached partner position is beyond bond distance.
pub open spec fn drop_out_of_range_spec(v: ParticleView) -> ParticleView {
    ParticleView {
        bonds: kept_bonds(v.bonds, v.position),
        remaining: v.remaining + electrons_sum(v.bonds) - electrons_sum(kept_bonds(v.bonds, v.position)),
        ..v
    }
}

/// Breaking a bond keeps a particle well formed.
pub proof fn lemma_break_wf(v: ParticleView, i: int)
    requires
        v.wf(),
        0 <= i < v.bonds.len(),
    ensures
        break_spec(v, i).wf(),
{
    lemma_electrons_sum_remove(v.bonds, i);
    lemma_keys_unique_remove(v.bonds, i);
    let r = v.bonds.remove(i);
    assert forall|k: int| 0 <= k < r.len() implies #[trigger] r[k].0 != v.index by {
        if k < i {
            assert(r[k] == v.bonds[k]);
        } else {
            assert(r[k] == v.bonds[k + 1]);
        }
    }
}

/// Registering a bond with a new partner, within the remaining capacity,
/// keeps a particle well formed.
pub proof fn lemma_register_wf(v: ParticleView, t: usize, e: u8, should_break: bool, at: Pos)
    requires
        v.wf(),
        e <= v.remaining,
        t != v.index,
        find_bond(v.bonds, t) is None,
    ensures
        register_spec(v, t, e, should_break, at).wf(),
{
    let b = (t, Bond { bond_type: BondType::Covalent, electrons_used: e, should_break, bonded_pos: at });
    lemma_keys_unique_push(v.bonds, b);
    assert(v.bonds.push(b).drop_last() =~= v.bonds);
    let r = v.bonds.push(b);
    assert forall|k: int| 0 <= k < r.len() implies #[trigger] r[k].0 != v.index by {
        if k < v.bonds.len() {
            assert(r[k] == v.bonds[k]);
        }
    }
}

/// Dropping out-of-range bonds keeps a particle well formed.
pub proof fn lemma_drop_out_of_range_wf(v: ParticleView)
    requires
        v.wf(),
    ensures
        drop_out_of_range_spec(v).wf(),
{
    lemma_kept_bonds(v.bonds, v.position);
    let r = kept_bonds(v.bonds, v.position);
    assert forall|k: int| 0 <= k < r.len() implies #[trigger] r[k].0 != v.index by {
        let j = choose|j: int| 0 <= j < v.bonds.len() && r[k] == v.bonds[j];
        assert(v.bonds[j].0 != v.index);
    }
}

/// A particle's mutable simulation state, apart from its motion.
pub struct Particle {
    pub element_index: u8,
    /// Index of the particle within its store.
    pub index: usize,
    /// Bonds keyed by the partner's index; each key occurs once.
    pub bonds: Vec<(usize, Bond)>,
    pub position_pm: Pos,
    /// Partner positions seen in the last bonding pass (diagnostic only).
    pub particles_in_range: Vec<Pos>,
    /// Remaining unused bonding capacity.
    pub connected_electrons_needed: u8,
}

impl View for Particle {
    type V = ParticleView;

    open spec fn view(&self) -> ParticleView {
        ParticleView {
            element_index: self.element_index,
            index: self.index,
            position: self.position_pm,
            bonds: self.bonds@,
            in_range: self.particles_in_range@,
            remaining: self.connected_electrons_needed as int,
        }
    }
}

/// What the bonding pass reads of a particle.
pub struct LookupView {
    pub element_index: u8,
    pub position: Pos,
    pub bonds: Seq<(usize, Bond)>,
    pub remaining: int,
}

/// The snapshot of a particle, as taken at the start of a bonding pass.
pub open spec fn lookup_of(v: ParticleView) -> LookupView {
    LookupView {
        element_index: v.element_index,
        position: v.position,
        bonds: v.bonds,
        remaining: v.remaining,
    }
}

/// An immutable copy of a particle's bonding state, read by every particle
/// during one bonding pass.
pub struct LookupParticle {
    pub element_index: u8,
    pub current_unused_valence_electrons: u8,
    pub bonds_particle_index: Vec<(usize, Bond)>,
    pub connected_electrons_needed: u8,
    pub position_pm: Pos,
}

impl View for LookupParticle {
    type V = LookupView;

    open spec fn view(&self) -> LookupView {
        LookupView {
            element_index: self.element_index,
            position: self.position_pm,
            bonds: self.bonds_particle_index@,
            remaining: self.connected_electrons_needed as int,
        }
    }
}

/// Finds the position of the bond with partner `key`.
pub fn find_bond_index(bonds: &Vec<(usize, Bond)>, key: usize) -> (r: Option<usize>)
    ensures
        match r {
            Some(i) => find_bond(bonds@, key) == Some(i as int),
            None => find_bond(bonds@, key) is None,
        },
{
    let mut i: usize = bonds.len();
    assert(bonds@.subrange(0, i as int) =~= bonds@);
    while i > 0
        invariant
            i <= bonds@.len(),
            find_bond(bonds@.subrange(0, i as int), key) == find_bond(bonds@, key),
        decreases i,
    {
        let ghost pre = bonds@.subrange(0, i as int);
        assert(pre.drop_last() =~= bonds@.subrange(0, i - 1));
        if bonds[i - 1].0 == key {
            return Some(i - 1);
        }
        i = i - 1;
    }
    None
}

/// Copies a list of bonds entry by entry.
pub fn copy_bonds(bonds: &Vec<(usize, Bond)>) -> (r: Vec<(usize, Bond)>)
    ensures
        r@ == bonds@,
{
    let mut r: Vec<(usize, Bond)> = Vec::new();
    let mut i: usize = 0;
    while i < bonds.len()
        invariant
            i <= bonds@.len(),
            r@ =~= bonds@.subrange(0, i as int),
        decreases bonds@.len() - i,
    {
        r.push(bonds[i]);
        i = i + 1;
    }
    assert(r@ =~= bonds@);
    r
}

impl Particle {
    /// A particle with no bonds and the element's full capacity.
    pub fn new(index: usize, element_index: u8, position_pm: Pos) -> (p: Particle)
        requires
            element_index < ELEMENT_COUNT,
        ensures
            p@.wf(),
            p.element_index == element_index,
            p.index == index,
            p.position_pm == position_pm,
            p.bonds@.len() == 0,
            p.particles_in_range@.len() == 0,
            p.connected_electrons_needed == capacity_of(element_index as int),
    {
        let element = element_at(element_index);
        Particle {
            bonds: Vec::new(),
            element_index,
            index,
            position_pm,
            connected_electrons_needed: element.connected_electrons_needed,
            particles_in_range: Vec::new(),
        }
    }

    /// The element this particle is made of.
    pub fn element(&self) -> (e: Element)
        requires
            self.element_index < ELEMENT_COUNT,
        ensures
            crate::element::is_element(e, self.element_index as int),
    {
        element_at(self.element_index)
    }
    /// Breaks the bond with partner `bonds_map_key`, which is `bond`, and
    /// restores the electrons it held; without such a bond nothing changes.
    pub fn break_bond(&mut self, bonds_map_key: &usize, bond: &Bond)
        requires
            old(self)@.wf(),
            bond_with(old(self)@.bonds, *bonds_map_key) is Some ==> bond_with(
                old(self)@.bonds,
                *bonds_map_key,
            ) == Some(*bond),
        ensures
            final(self)@ == match find_bond(old(self)@.bonds, *bonds_map_key) {
                Some(i) => break_spec(old(self)@, i),
                None => old(self)@,
            },
            final(self)@.wf(),
    {
        proof {
            lemma_find_bond(self.bonds@, *bonds_map_key);
        }
        match find_bond_index(&self.bonds, *bonds_map_key) {
            Some(i) => {
                let ghost v = self@;
                proof {
                    lemma_break_wf(v, i as int);
                    lemma_electrons_sum_nonneg(v.bonds.remove(i as int));
                }
                self.bonds.remove(i);
                self.connected_electrons_needed = self.connected_electrons_needed + bond.electrons_used;
            },
            None => {},
        }
    }

    /// Breaks the bond with partner `bonds_map_key` and restores the
    /// electrons it held.
    pub fn break_bond_find_bond(&mut self, bonds_map_key: &usize)
        requires
            old(self)@.wf(),
            find_bond(old(self)@.bonds, *bonds_map_key) is Some,
        ensures
            final(self)@ == break_spec(old(self)@, find_bond(old(self)@.bonds, *bonds_map_key)->0),
            final(self)@.wf(),
    {
        let ghost v = self@;
        proof {
            lemma_find_bond(v.bonds, *bonds_map_key);
            lemma_break_wf(v, find_bond(v.bonds, *bonds_map_key)->0);
            lemma_electrons_sum_nonneg(v.bonds.remove(find_bond(v.bonds, *bonds_map_key)->0));
        }
        let i = find_bond_index(&self.bonds, *bonds_map_key).unwrap();
        let removed = self.bonds.remove(i);
        self.connected_electrons_needed = self.connected_electrons_needed + removed.1.electrons_used;
    }

    /// Registers a bond with partner `paritcle_index`, committing
    /// `electrons_connected` electrons and caching the partner's position.
    pub fn register_bond(
        &mut self,
        paritcle_index: usize,
        electrons_connected: u8,
        should_break: bool,
        target_particle: &LookupParticle,
    )
        requires
            old(self)@.wf(),
            electrons_connected <= old(self).connected_electrons_needed,
            paritcle_index != old(self).index,
            find_bond(old(self)@.bonds, paritcle_index) is None,
        ensures
            final(self)@ == register_spec(
                old(self)@,
                paritcle_index,
                electrons_connected,
                should_break,
                target_particle.position_pm,
            ),
            final(self)@.wf(),
    {
        proof {
            lemma_register_wf(
                self@,
                paritcle_index,
                electrons_connected,
                should_break,
                target_particle.position_pm,
            );
        }
        self.connected_electrons_needed = self.connected_electrons_needed - electrons_connected;
        self.bonds.push(
            (
                paritcle_index,
                Bond {
                    bond_type: BondType::Covalent,
                    electrons_used: electrons_connected,
                    should_break,
                    bonded_pos: target_particle.position_pm,
                },
            ),
        );
    }

    /// Breaks every bond whose cached partner position lies beyond bond
    /// distance of this particle, restoring the electrons it held.
    pub fn break_all_out_of_range_bonds(&mut self)
        requires
            old(self)@.wf(),
        ensures
            final(self)@ == drop_out_of_range_spec(old(self)@),
            final(self)@.wf(),
    {
        let ghost v = self@;
        let ghost s = self.bonds@;
        let pos = self.position_pm;
        let mut kept: Vec<(usize, Bond)> = Vec::new();
        let mut restored: u8 = 0;
        let n = self.bonds.len();
        let mut i: usize = 0;
        proof {
            lemma_electrons_sum_nonneg(s);
            lemma_drop_out_of_range_wf(v);
        }
        while i < n
            invariant
                n == s.len(),
                i <= n,
                self@ == v,
                self.bonds@ == s,
                self.position_pm == pos,
                v.wf(),
                kept@ == kept_bonds(s.subrange(0, i as int), pos),
                restored == electrons_sum(s.subrange(0, i as int)) - electrons_sum(kept@),
            decreases n - i,
        {
            let ghost pre = s.subrange(0, i as int + 1);
            assert(pre.drop_last() =~= s.subrange(0, i as int));
            assert(pre.last() == s[i as int]);
            assert(electrons_sum(pre) == electrons_sum(s.subrange(0, i as int)) + s[i as int].1.electrons_used);
            proof {
                lemma_electrons_sum_prefix(s, i as int + 1);
                lemma_kept_bonds(pre, pos);
                lemma_electrons_sum_nonneg(kept_bonds(pre, pos));
                assert(keys_unique(pre)) by {
                    assert forall|a: int, b: int| 0 <= a < pre.len() && 0 <= b < pre.len() && a != b implies #[trigger] pre[a].0
                        != #[trigger] pre[b].0 by {
                        assert(pre[a] == s[a] && pre[b] == s[b]);
                    }
                }
            }
            let entry = self.bonds[i];
            if entry.1.bonded_pos.is_beyond_bond_distance(&pos) {
                restored = restored + entry.1.electrons_used;
            } else {
                let ghost before = kept@;
                kept.push(entry);
                assert(kept@.drop_last() =~= before);
            }
            i = i + 1;
        }
        assert(s.subrange(0, n as int) =~= s);
        proof {
            lemma_kept_bonds(s, pos);
        }
        self.bonds = kept;
        self.connected_electrons_needed = self.connected_electrons_needed + restored;
    }

    /// Whether this particle is well formed: unique partner keys, no bond with
    /// itself, and remaining capacity plus committed electrons equal to its
    /// element's capacity.
    pub fn is_well_formed(&self) -> (r: bool)
        ensures
            r == self@.wf(),
    {
        if self.element_index >= crate::element::ELEMENT_COUNT {
            return false;
        }
        let s = &self.bonds;
        let n = s.len();
        let mut sum: u128 = 0;
        let mut a: usize = 0;
        assert(s@.subrange(0, 0) =~= Seq::<(usize, Bond)>::empty());
        while a < n
            invariant
                n == s@.len(),
                s@ == self.bonds@,
                self.element_index < crate::element::ELEMENT_COUNT,
                a <= n,
                sum == electrons_sum(s@.subrange(0, a as int)),
                sum <= 255 * a,
                forall|x: int, y: int| 0 <= y < x < a ==> #[trigger] s@[x].0 != #[trigger] s@[y].0,
                forall|x: int| 0 <= x < a ==> #[trigger] s@[x].0 != self.index,
            decreases n - a,
        {
            let key = s[a].0;
            if key == self.index {
                assert(!no_bond_with(s@, self.index)) by {
                    assert(s@[a as int].0 == self.index);
                }
                return false;
            }
            let mut b: usize = 0;
            while b < a
                invariant
                    a < n,
                    n == s@.len(),
                    s@ == self.bonds@,
                    self.element_index < crate::element::ELEMENT_COUNT,
                    b <= a,
                    key == s@[a as int].0,
                    forall|y: int| 0 <= y < b ==> #[trigger] s@[y].0 != key,
                decreases a - b,
            {
                if s[b].0 == key {
                    assert(!keys_unique(s@)) by {
                        assert(s@[b as int].0 == s@[a as int].0);
                    }
                    return false;
                }
                b = b + 1;
            }
            let ghost pre = s@.subrange(0, a as int + 1);
            assert(pre.drop_last() =~= s@.subrange(0, a as int));
            sum = sum + s[a].1.electrons_used as u128;
            a = a + 1;
        }
        assert(s@.subrange(0, n as int) =~= s@);
        proof {
            lemma_electrons_sum_nonneg(s@);
        }
        assert(keys_unique(s@)) by {
            assert forall|i: int, j: int| 0 <= i < s@.len() && 0 <= j < s@.len() && i != j implies #[trigger] s@[i].0
                != #[trigger] s@[j].0 by {
                if i < j {
                    assert(s@[j].0 != s@[i].0);
                } else {
                    assert(s@[i].0 != s@[j].0);
                }
            }
        }
        assert(no_bond_with(s@, self.index));
        let capacity = element_at(self.element_index).connected_electrons_needed;
        self.connected_electrons_needed as u128 + sum == capacity as u128
    }
}

} // verus!
