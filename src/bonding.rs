use vstd::prelude::*;

use crate::geometry::{beyond_bond_distance, Pos};
use crate::particle_grid::{
    candidates_spec, connected_indexes, flatten_cells, grid_pos_of, grid_spec, grid_view,
    bucket_spec, neighbor_candidates, split_particles_into_grid, GridSize,
};
use crate::particle::{
    bond_with, break_spec, drop_out_of_range_spec, find_bond, find_bond_index, lemma_break_wf,
    lemma_drop_out_of_range_wf, lemma_electrons_sum_update, lemma_find_bond,
    lemma_keys_unique_update, lemma_register_wf, lookup_of, register_spec, copy_bonds, Bond,
    LookupParticle, LookupView, Particle, ParticleView,
};

verus! {

/// The snapshot as the bonding rules read it.
pub open spec fn snapshot_view(lookup: Seq<LookupParticle>) -> Seq<LookupView> {
    lookup.map_values(|l: LookupParticle| l@)
}

/// The smaller of two capacities.
pub open spec fn min_capacity(a: int, b: int) -> int {
    if a <= b {
        a
    } else {
        b
    }
}

/// Reconciles particle `v`'s bond with candidate `t` against snapshot `lk`.
///
/// - Both sides bonded: the cached partner position is refreshed, unless
///   either side is flagged to break, in which case `v` breaks its side.
/// - Only `v` bonded: `v` keeps its side unless it is flagged to break.
/// - Only `t` bonded: unless `t`'s side is flagged to break or `t` stands
///   beyond bond distance (so that `t` drops its side in this same pass), `v`
///   mirrors it with the same electron count, or registers a zero-electron
///   bond flagged to break when that count exceeds `v`'s remaining capacity.
/// - Neither bonded: within bond distance, a bond committing the smaller of
///   the two remaining capacities forms, if that is not zero.
///
/// The partner's position is then appended to the diagnostic list.
pub open spec fn visit_spec(v: ParticleView, lk: Seq<LookupView>, t: usize) -> ParticleView {
    if t == v.index {
        v
    } else {
        let tp = lk[t as int];
        let theirs = bond_with(tp.bonds, v.index);
        let reconciled = match find_bond(v.bonds, t) {
            Some(i) => {
                let b = v.bonds[i].1;
                if b.should_break || (theirs is Some && theirs->0.should_break) {
                    break_spec(v, i)
                } else {
                    ParticleView {
                        bonds: v.bonds.update(i, (t, Bond { bonded_pos: tp.position, ..b })),
                        ..v
                    }
                }
            },
            None => match theirs {
                Some(tb) => {
                    if tb.should_break || beyond_bond_distance(v.position, tp.position) {
                        v
                    } else if tb.electrons_used > v.remaining {
                        register_spec(v, t, 0, true, tp.position)
                    } else {
                        register_spec(v, t, tb.electrons_used, false, tp.position)
                    }
                },
                None => {
                    let e = min_capacity(v.remaining, tp.remaining);
                    if !beyond_bond_distance(v.position, tp.position) && e > 0 {
                        register_spec(v, t, e as u8, false, tp.position)
                    } else {
                        v
                    }
                },
            },
        };
        ParticleView { in_range: reconciled.in_range.push(tp.position), ..reconciled }
    }
}

/// Reconciles `v` with each candidate of `cands` in turn.
pub open spec fn visits_spec(v: ParticleView, lk: Seq<LookupView>, cands: Seq<usize>) -> ParticleView
    decreases cands.len(),
{
    if cands.len() == 0 {
        v
    } else {
        visit_spec(visits_spec(v, lk, cands.drop_last()), lk, cands.last())
    }
}

/// One particle's bonding pass: out-of-range bonds are dropped, the
/// diagnostic list is cleared, and every candidate is reconciled in order.
pub open spec fn bond_pass_spec(v: ParticleView, lk: Seq<LookupView>, cands: Seq<usize>) -> ParticleView {
    visits_spec(ParticleView { in_range: seq![], ..drop_out_of_range_spec(v) }, lk, cands)
}

/// Every candidate indexes the snapshot.
pub open spec fn candidates_in(cands: Seq<usize>, n: int) -> bool {
    forall|k: int| 0 <= k < cands.len() ==> #[trigger] cands[k] < n
}

pub proof fn lemma_visit_wf(v: ParticleView, lk: Seq<LookupView>, t: usize)
    requires
        v.wf(),
        t < lk.len(),
    ensures
        visit_spec(v, lk, t).wf(),
        visit_spec(v, lk, t).index == v.index,
        visit_spec(v, lk, t).position == v.position,
        visit_spec(v, lk, t).element_index == v.element_index,
{
    if t != v.index {
        let tp = lk[t as int];
        let theirs = bond_with(tp.bonds, v.index);
        lemma_find_bond(v.bonds, t);
        match find_bond(v.bonds, t) {
            Some(i) => {
                let b = v.bonds[i].1;
                lemma_break_wf(v, i);
                let e = (t, Bond { bonded_pos: tp.position, ..b });
                lemma_electrons_sum_update(v.bonds, i, e);
                lemma_keys_unique_update(v.bonds, i, e);
            },
            None => {
                crate::particle::lemma_electrons_sum_nonneg(v.bonds);
                match theirs {
                    Some(tb) => {
                        lemma_register_wf(v, t, 0, true, tp.position);
                        if tb.electrons_used <= v.remaining {
                            lemma_register_wf(v, t, tb.electrons_used, false, tp.position);
                        }
                    },
                    None => {
                        let e = min_capacity(v.remaining, tp.remaining);
                        if e > 0 {
                            lemma_register_wf(v, t, e as u8, false, tp.position);
                        }
                    },
                }
            },
        }
    }
}

pub proof fn lemma_visits_wf(v: ParticleView, lk: Seq<LookupView>, cands: Seq<usize>)
    requires
        v.wf(),
        candidates_in(cands, lk.len() as int),
    ensures
        visits_spec(v, lk, cands).wf(),
        visits_spec(v, lk, cands).index == v.index,
        visits_spec(v, lk, cands).position == v.position,
        visits_spec(v, lk, cands).element_index == v.element_index,
    decreases cands.len(),
{
    if cands.len() > 0 {
        let d = cands.drop_last();
        assert(candidates_in(d, lk.len() as int)) by {
            assert forall|k: int| 0 <= k < d.len() implies #[trigger] d[k] < lk.len() by {
                assert(d[k] == cands[k]);
            }
        }
        lemma_visits_wf(v, lk, d);
        lemma_visit_wf(visits_spec(v, lk, d), lk, cands.last());
    }
}

/// One particle's pass keeps it well formed, at its index and position.
pub proof fn lemma_bond_pass_wf(v: ParticleView, lk: Seq<LookupView>, cands: Seq<usize>)
    requires
        v.wf(),
        candidates_in(cands, lk.len() as int),
    ensures
        bond_pass_spec(v, lk, cands).wf(),
        bond_pass_spec(v, lk, cands).index == v.index,
        bond_pass_spec(v, lk, cands).position == v.position,
        bond_pass_spec(v, lk, cands).element_index == v.element_index,
{
    lemma_drop_out_of_range_wf(v);
    lemma_visits_wf(ParticleView { in_range: seq![], ..drop_out_of_range_spec(v) }, lk, cands);
}

/// Forms a new bond with `target_particle` when it is within bond distance
/// and both sides have capacity left; the bond commits the smaller of the two
/// remaining capacities.
fn try_creating_bond(mut_particle: &mut Particle, target_particle: &LookupParticle, target_index: usize)
    requires
        old(mut_particle)@.wf(),
        target_index != old(mut_particle).index,
        find_bond(old(mut_particle)@.bonds, target_index) is None,
    ensures
        ({
            let v = old(mut_particle)@;
            let e = min_capacity(v.remaining, target_particle@.remaining);
            final(mut_particle)@ == if !beyond_bond_distance(v.position, target_particle.position_pm)
                && e > 0 {
                register_spec(v, target_index, e as u8, false, target_particle.position_pm)
            } else {
                v
            }
        }),
        final(mut_particle)@.wf(),
{
    if mut_particle.position_pm.is_beyond_bond_distance(&target_particle.position_pm) {
        return;
    }
    let connected_electrons = if mut_particle.connected_electrons_needed
        <= target_particle.connected_electrons_needed {
        mut_particle.connected_electrons_needed
    } else {
        target_particle.connected_electrons_needed
    };
    if connected_electrons == 0 {
        return;
    }
    mut_particle.register_bond(target_index, connected_electrons, false, target_particle);
}

/// Reconciles `mut_particle` with the candidate `target_index`, reading the
/// partner's state from `lookup` only.
pub fn reconcile_with_target(
    mut_particle: &mut Particle,
    lookup: &Vec<LookupParticle>,
    target_index: usize,
)
    requires
        old(mut_particle)@.wf(),
        target_index < lookup.len(),
    ensures
        final(mut_particle)@ == visit_spec(old(mut_particle)@, snapshot_view(lookup@), target_index),
        final(mut_particle)@.wf(),
{
    let ghost v = mut_particle@;
    let ghost lk = snapshot_view(lookup@);
    proof {
        lemma_visit_wf(v, lk, target_index);
    }
    if mut_particle.index == target_index {
        return;
    }
    let target_particle = &lookup[target_index];
    assert(lk[target_index as int] == target_particle@);
    let their_slot = find_bond_index(&target_particle.bonds_particle_index, mut_particle.index);
    proof {
        lemma_find_bond(target_particle.bonds_particle_index@, mut_particle.index);
    }
    match find_bond_index(&mut_particle.bonds, target_index) {
        Some(i) => {
            proof {
                lemma_find_bond(v.bonds, target_index);
            }
            let mine = mut_particle.bonds[i].1;
            let breaks = match their_slot {
                Some(j) => mine.should_break || target_particle.bonds_particle_index[j].1.should_break,
                None => mine.should_break,
            };
            if breaks {
                mut_particle.break_bond_find_bond(&target_index);
            } else {
                let refreshed = Bond { bonded_pos: target_particle.position_pm, ..mine };
                mut_particle.bonds.set(i, (target_index, refreshed));
            }
        },
        None => {
            match their_slot {
                Some(j) => {
                    let target_bond = target_particle.bonds_particle_index[j].1;
                    if !target_bond.should_break
                        && !mut_particle.position_pm.is_beyond_bond_distance(&target_particle.position_pm) {
                        if target_bond.electrons_used > mut_particle.connected_electrons_needed {
                            // Too large a bond for the remaining capacity: register an
                            // empty bond that tells the partner to dissolve its side.
                            mut_particle.register_bond(target_index, 0, true, target_particle);
                        } else {
                            mut_particle.register_bond(
                                target_index,
                                target_bond.electrons_used,
                                false,
                                target_particle,
                            );
                        }
                    }
                },
                None => {
                    try_creating_bond(mut_particle, target_particle, target_index);
                },
            }
        },
    }
    mut_particle.particles_in_range.push(target_particle.position_pm);
}

/// Runs one particle's bonding pass over `candidates` against the snapshot
/// `lookup`.
pub fn bond_particle(
    mut_particle: &mut Particle,
    candidates: &Vec<usize>,
    lookup: &Vec<LookupParticle>,
)
    requires
        old(mut_particle)@.wf(),
        candidates_in(candidates@, lookup@.len() as int),
    ensures
        final(mut_particle)@ == bond_pass_spec(old(mut_particle)@, snapshot_view(lookup@), candidates@),
        final(mut_particle)@.wf(),
{
    let ghost lk = snapshot_view(lookup@);
    mut_particle.break_all_out_of_range_bonds();
    mut_particle.particles_in_range = Vec::new();
    let ghost start = mut_particle@;
    proof {
        lemma_drop_out_of_range_wf(old(mut_particle)@);
    }
    let mut k: usize = 0;
    assert(candidates@.subrange(0, 0) =~= Seq::<usize>::empty());
    while k < candidates.len()
        invariant
            k <= candidates@.len(),
            start.wf(),
            candidates_in(candidates@, lookup@.len() as int),
            lk == snapshot_view(lookup@),
            mut_particle@ == visits_spec(start, lk, candidates@.subrange(0, k as int)),
            mut_particle@.wf(),
        decreases candidates@.len() - k,
    {
        let ghost pre = candidates@.subrange(0, k as int + 1);
        assert(pre.drop_last() =~= candidates@.subrange(0, k as int));
        reconcile_with_target(mut_particle, lookup, candidates[k]);
        k = k + 1;
    }
    assert(candidates@.subrange(0, k as int) =~= candidates@);
}

/// Views of every particle of a store.
pub open spec fn store_view(ps: Seq<Particle>) -> Seq<ParticleView> {
    ps.map_values(|p: Particle| p@)
}

/// Every particle of the store is well formed.
pub open spec fn store_wf(vs: Seq<ParticleView>) -> bool {
    forall|i: int| 0 <= i < vs.len() ==> (#[trigger] vs[i]).wf()
}

/// Positions of every particle.
pub open spec fn positions_of(vs: Seq<ParticleView>) -> Seq<Pos> {
    vs.map_values(|v: ParticleView| v.position)
}

/// The snapshot of every particle.
pub open spec fn snapshot_of(vs: Seq<ParticleView>) -> Seq<LookupView> {
    vs.map_values(|v: ParticleView| lookup_of(v))
}

/// One bonding sub-step of the whole store: a grid and a snapshot are taken
/// from the state at its start, and every particle runs its pass over its
/// grid candidates against that snapshot.
pub open spec fn sub_step_spec(vs: Seq<ParticleView>, size: GridSize) -> Seq<ParticleView> {
    Seq::new(
        vs.len(),
        |i: int|
            bond_pass_spec(
                vs[i],
                snapshot_of(vs),
                candidates_spec(grid_spec(positions_of(vs), size), size, vs[i].position),
            ),
    )
}

/// Every index in every bucket is below `n`.
pub open spec fn grid_indices_below(grid: Seq<Seq<usize>>, n: int) -> bool {
    forall|c: int, k: int| 0 <= c < grid.len() && 0 <= k < grid[c].len() ==> #[trigger] grid[c][k] < n
}

proof fn lemma_bucket_below(ps: Seq<Pos>, size: GridSize, c: int, n: int)
    requires
        n <= ps.len(),
    ensures
        forall|k: int|
            0 <= k < bucket_spec(ps, size, c, n).len() ==> #[trigger] bucket_spec(ps, size, c, n)[k] < n,
    decreases n,
{
    if n > 0 {
        lemma_bucket_below(ps, size, c, n - 1);
        let prev = bucket_spec(ps, size, c, n - 1);
        let cur = bucket_spec(ps, size, c, n);
        assert forall|k: int| 0 <= k < cur.len() implies #[trigger] cur[k] < n by {
            if k < prev.len() {
                assert(cur[k] == prev[k]);
            }
        }
    }
}

/// The grid built from `ps` holds only indices of `ps`.
pub proof fn lemma_grid_below(ps: Seq<Pos>, size: GridSize)
    ensures
        grid_indices_below(grid_spec(ps, size), ps.len() as int),
{
    let g = grid_spec(ps, size);
    assert forall|c: int, k: int| 0 <= c < g.len() && 0 <= k < g[c].len() implies #[trigger] g[c][k]
        < ps.len() by {
        lemma_bucket_below(ps, size, c, ps.len() as int);
    }
}

proof fn lemma_flatten_below(grid: Seq<Seq<usize>>, cells: Seq<usize>, n: int)
    requires
        grid_indices_below(grid, n),
        forall|k: int| 0 <= k < cells.len() ==> #[trigger] cells[k] < grid.len(),
    ensures
        candidates_in(flatten_cells(grid, cells), n),
    decreases cells.len(),
{
    if cells.len() > 0 {
        let d = cells.drop_last();
        assert forall|k: int| 0 <= k < d.len() implies #[trigger] d[k] < grid.len() by {
            assert(d[k] == cells[k]);
        }
        lemma_flatten_below(grid, d, n);
        let f = flatten_cells(grid, cells);
        let fd = flatten_cells(grid, d);
        let b = grid[cells.last() as int];
        assert forall|k: int| 0 <= k < f.len() implies #[trigger] f[k] < n by {
            if k < fd.len() {
                assert(f[k] == fd[k]);
            } else {
                assert(f[k] == b[k - fd.len()]);
            }
        }
    }
}

/// Grid candidates always index the particles the grid was built from.
pub proof fn lemma_candidates_below(grid: Seq<Seq<usize>>, size: GridSize, p: Pos, n: int)
    requires
        size.wf(),
        grid.len() == size.total(),
        grid_indices_below(grid, n),
    ensures
        candidates_in(candidates_spec(grid, size, p), n),
{
    match grid_pos_of(p, size) {
        Some(g) => {
            crate::particle_grid::lemma_connected_indexes_bound(g, size);
            lemma_flatten_below(grid, connected_indexes(g, size), n);
        },
        None => {},
    }
}

/// Takes the snapshot that every particle reads during one bonding pass.
pub fn create_particle_lookup(particles: &Vec<Particle>) -> (output: Vec<LookupParticle>)
    ensures
        snapshot_view(output@) == snapshot_of(store_view(particles@)),
        output@.len() == particles@.len(),
        forall|i: int|
            0 <= i < output@.len() ==> (#[trigger] output@[i]).current_unused_valence_electrons
                == particles@[i].connected_electrons_needed,
{
    let mut output: Vec<LookupParticle> = Vec::new();
    let mut i: usize = 0;
    while i < particles.len()
        invariant
            i <= particles@.len(),
            output@.len() == i,
            forall|j: int| 0 <= j < i ==> (#[trigger] output@[j])@ == lookup_of(particles@[j]@),
            forall|j: int|
                0 <= j < i ==> (#[trigger] output@[j]).current_unused_valence_electrons
                    == particles@[j].connected_electrons_needed,
        decreases particles@.len() - i,
    {
        let particle = &particles[i];
        output.push(
            LookupParticle {
                element_index: particle.element_index,
                current_unused_valence_electrons: particle.connected_electrons_needed,
                bonds_particle_index: copy_bonds(&particle.bonds),
                connected_electrons_needed: particle.connected_electrons_needed,
                position_pm: particle.position_pm,
            },
        );
        i = i + 1;
    }
    assert(snapshot_view(output@) =~= snapshot_of(store_view(particles@)));
    output
}

/// Runs every particle's bonding pass over its grid candidates, reading other
/// particles only through `lookup`.
pub fn handle_chemical_bonds(
    particles: &mut Vec<Particle>,
    particles_grid: &Vec<Vec<usize>>,
    size: GridSize,
    lookup: &Vec<LookupParticle>,
)
    requires
        size.wf(),
        particles_grid@.len() == size.total(),
        grid_indices_below(grid_view(particles_grid@), lookup@.len() as int),
        store_wf(store_view(old(particles)@)),
    ensures
        final(particles)@.len() == old(particles)@.len(),
        forall|i: int|
            0 <= i < old(particles)@.len() ==> (#[trigger] final(particles)@[i])@ == bond_pass_spec(
                old(particles)@[i]@,
                snapshot_view(lookup@),
                candidates_spec(grid_view(particles_grid@), size, old(particles)@[i].position_pm),
            ),
        store_wf(store_view(final(particles)@)),
{
    let ghost before = particles@;
    let n = particles.len();
    let mut i: usize = 0;
    while i < n
        invariant
            n == before.len(),
            i <= n,
            particles@.len() == n,
            size.wf(),
            particles_grid@.len() == size.total(),
            grid_indices_below(grid_view(particles_grid@), lookup@.len() as int),
            store_wf(store_view(before)),
            forall|j: int| i <= j < n ==> #[trigger] particles@[j] == before[j],
            forall|j: int|
                0 <= j < i ==> (#[trigger] particles@[j])@ == bond_pass_spec(
                    before[j]@,
                    snapshot_view(lookup@),
                    candidates_spec(grid_view(particles_grid@), size, before[j].position_pm),
                ),
            forall|j: int| 0 <= j < i ==> (#[trigger] particles@[j])@.wf(),
        decreases n - i,
    {
        let candidates = neighbor_candidates(particles_grid, size, &particles[i].position_pm);
        proof {
            lemma_candidates_below(
                grid_view(particles_grid@),
                size,
                before[i as int].position_pm,
                lookup@.len() as int,
            );
            assert(store_view(before)[i as int] == before[i as int]@);
        }
        bond_particle(&mut particles[i], &candidates, lookup);
        i = i + 1;
    }
    assert forall|j: int| 0 <= j < n implies (#[trigger] store_view(particles@)[j]).wf() by {
        assert(store_view(particles@)[j] == particles@[j]@);
    }
}

/// One bonding sub-step of the store: builds the grid from the current
/// positions and the snapshot of every particle, then runs every particle's
/// bonding pass.
pub fn bonding_sub_step(particles: &mut Vec<Particle>, size: GridSize)
    requires
        size.wf(),
        store_wf(store_view(old(particles)@)),
    ensures
        final(particles)@.len() == old(particles)@.len(),
        store_view(final(particles)@) == sub_step_spec(store_view(old(particles)@), size),
        store_wf(store_view(final(particles)@)),
{
    let ghost vs = store_view(particles@);
    let mut particle_positions: Vec<Pos> = Vec::new();
    let mut i: usize = 0;
    while i < particles.len()
        invariant
            i <= particles@.len(),
            particle_positions@ =~= positions_of(store_view(particles@)).subrange(0, i as int),
        decreases particles@.len() - i,
    {
        particle_positions.push(particles[i].position_pm);
        i = i + 1;
    }
    assert(particle_positions@ =~= positions_of(vs));
    let grid = split_particles_into_grid(&particle_positions, size);
    let lookup = create_particle_lookup(particles);
    proof {
        lemma_grid_below(particle_positions@, size);
        assert(snapshot_view(lookup@).len() == lookup@.len());
        assert(lookup@.len() == particle_positions@.len());
    }
    handle_chemical_bonds(particles, &grid, size, &lookup);
    assert(store_view(particles@) =~= sub_step_spec(vs, size)) by {
        assert forall|j: int| 0 <= j < vs.len() implies store_view(particles@)[j] == #[trigger] sub_step_spec(
            vs,
            size,
        )[j] by {
            assert(vs[j].position == old(particles)@[j].position_pm);
        }
    }
}

} // verus!
