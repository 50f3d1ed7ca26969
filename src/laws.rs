use vstd::prelude::*;

use crate::bonding::{
    bond_pass_spec, candidates_in, lemma_bond_pass_wf, lemma_candidates_below, lemma_grid_below,
    positions_of, snapshot_of, store_wf, sub_step_spec, visit_spec, visits_spec,
};
use crate::element::capacity_of;
use crate::geometry::{beyond_bond_distance, Pos};
use crate::particle::{
    bond_with, drop_out_of_range_spec, electrons_sum, find_bond, keys_unique, kept_bonds,
    lemma_electrons_sum_nonneg, lemma_electrons_sum_remove, lemma_find_bond, lemma_kept_bonds,
    lookup_of, Bond, LookupView, ParticleView,
};
use crate::particle_grid::{
    bucket_spec, candidates_spec, cell_coord, cell_of, connected_cells, connected_cells_upto,
    connected_indexes, flatten_cells, grid_pos_of, grid_spec, index_of, lemma_index_bound,
    neighbor_cell, GridSize, SMOOTHING_DISTANCE,
};
use crate::geometry::BOND_DISTANCE;
use vstd::arithmetic::div_mod::{lemma_fundamental_div_mod, lemma_mod_bound};

verus! {

/// A well-formed particle never has negative remaining capacity, nor more
/// than its element's total capacity.
pub proof fn lemma_capacity_bounds(v: ParticleView)
    requires
        v.wf(),
    ensures
        0 <= v.remaining <= capacity_of(v.element_index as int),
        v.remaining + electrons_sum(v.bonds) == capacity_of(v.element_index as int),
{
    lemma_electrons_sum_nonneg(v.bonds);
}

/// Capacity accounting survives every bonding sub-step: afterwards each
/// particle's remaining capacity lies between zero and its element's total
/// capacity, and together with the electrons committed in its bonds it equals
/// that total.
pub proof fn lemma_sub_step_keeps_capacity(vs: Seq<ParticleView>, size: GridSize)
    requires
        size.wf(),
        store_wf(vs),
    ensures
        sub_step_spec(vs, size).len() == vs.len(),
        store_wf(sub_step_spec(vs, size)),
        forall|i: int|
            0 <= i < vs.len() ==> {
                let r = #[trigger] sub_step_spec(vs, size)[i];
                &&& 0 <= r.remaining <= capacity_of(r.element_index as int)
                &&& r.remaining + electrons_sum(r.bonds) == capacity_of(r.element_index as int)
                &&& r.element_index == vs[i].element_index
            },
{
    let ps = positions_of(vs);
    let grid = grid_spec(ps, size);
    lemma_grid_below(ps, size);
    assert forall|i: int| 0 <= i < vs.len() implies {
        let r = #[trigger] sub_step_spec(vs, size)[i];
        &&& r.wf()
        &&& 0 <= r.remaining <= capacity_of(r.element_index as int)
        &&& r.remaining + electrons_sum(r.bonds) == capacity_of(r.element_index as int)
        &&& r.element_index == vs[i].element_index
    } by {
        assert(vs[i].wf());
        lemma_candidates_below(grid, size, vs[i].position, ps.len() as int);
        let cands = crate::particle_grid::candidates_spec(grid, size, vs[i].position);
        lemma_bond_pass_wf(vs[i], snapshot_of(vs), cands);
        lemma_capacity_bounds(sub_step_spec(vs, size)[i]);
    }
}

/// Every cached partner position of `v` lies within bond distance of it.
pub open spec fn all_bonds_in_range(v: ParticleView) -> bool {
    forall|k: int|
        0 <= k < v.bonds.len() ==> !beyond_bond_distance(#[trigger] v.bonds[k].1.bonded_pos, v.position)
}

/// The snapshot of a store of two particles, `a` at index 0 and `b` at index 1.
pub open spec fn pair_snapshot(a: ParticleView, b: ParticleView) -> Seq<LookupView> {
    seq![lookup_of(a), lookup_of(b)]
}

/// One bonding pass of a two-particle store in which each particle's only
/// candidate is the other.
pub open spec fn pair_pass(a: ParticleView, b: ParticleView) -> (ParticleView, ParticleView) {
    (
        bond_pass_spec(a, pair_snapshot(a, b), seq![1usize]),
        bond_pass_spec(b, pair_snapshot(a, b), seq![0usize]),
    )
}

/// `a` and `b` are well formed and stand at indices 0 and 1.
pub open spec fn is_pair(a: ParticleView, b: ParticleView) -> bool {
    &&& a.wf()
    &&& b.wf()
    &&& a.index == 0
    &&& b.index == 1
}

/// Both sides hold an unflagged bond with each other whose cached position is
/// the partner's position, and no cached position lies beyond bond distance.
pub open spec fn converged_pair(a: ParticleView, b: ParticleView) -> bool {
    &&& is_pair(a, b)
    &&& all_bonds_in_range(a)
    &&& all_bonds_in_range(b)
    &&& bond_with(a.bonds, 1) matches Some(ba) && !ba.should_break && ba.bonded_pos == b.position
    &&& bond_with(b.bonds, 0) matches Some(bb) && !bb.should_break && bb.bonded_pos == a.position
}

proof fn lemma_kept_all(s: Seq<(usize, Bond)>, pos: Pos)
    requires
        forall|k: int| 0 <= k < s.len() ==> !beyond_bond_distance(#[trigger] s[k].1.bonded_pos, pos),
    ensures
        kept_bonds(s, pos) == s,
    decreases s.len(),
{
    if s.len() > 0 {
        let d = s.drop_last();
        assert forall|k: int| 0 <= k < d.len() implies !beyond_bond_distance(
            #[trigger] d[k].1.bonded_pos,
            pos,
        ) by {
            assert(d[k] == s[k]);
        }
        lemma_kept_all(d, pos);
        assert(s.len() - 1 < s.len());
        assert(!beyond_bond_distance(s[s.len() - 1].1.bonded_pos, pos));
        assert(d.push(s.last()) =~= s);
    }
}

proof fn lemma_kept_but_one(s: Seq<(usize, Bond)>, pos: Pos, i: int)
    requires
        0 <= i < s.len(),
        beyond_bond_distance(s[i].1.bonded_pos, pos),
        forall|k: int|
            0 <= k < s.len() && k != i ==> !beyond_bond_distance(#[trigger] s[k].1.bonded_pos, pos),
    ensures
        kept_bonds(s, pos) == s.remove(i),
    decreases s.len(),
{
    let d = s.drop_last();
    if i == s.len() - 1 {
        assert forall|k: int| 0 <= k < d.len() implies !beyond_bond_distance(
            #[trigger] d[k].1.bonded_pos,
            pos,
        ) by {
            assert(d[k] == s[k]);
        }
        lemma_kept_all(d, pos);
        assert(s.remove(i) =~= d);
    } else {
        assert forall|k: int| 0 <= k < d.len() && k != i implies !beyond_bond_distance(
            #[trigger] d[k].1.bonded_pos,
            pos,
        ) by {
            assert(d[k] == s[k]);
        }
        lemma_kept_but_one(d, pos, i);
        assert(!beyond_bond_distance(s[s.len() - 1].1.bonded_pos, pos));
        assert(d.remove(i).push(s.last()) =~= s.remove(i));
    }
}

proof fn lemma_no_key(s: Seq<(usize, Bond)>, t: usize)
    requires
        forall|k: int| 0 <= k < s.len() ==> (#[trigger] s[k]).0 != t,
    ensures
        find_bond(s, t) is None,
{
    lemma_find_bond(s, t);
}

proof fn lemma_kept_contains(s: Seq<(usize, Bond)>, pos: Pos, i: int)
    requires
        keys_unique(s),
        0 <= i < s.len(),
        !beyond_bond_distance(s[i].1.bonded_pos, pos),
    ensures
        bond_with(kept_bonds(s, pos), s[i].0) == Some(s[i].1),
    decreases s.len(),
{
    lemma_kept_bonds(s, pos);
    let r = kept_bonds(s, pos);
    lemma_find_bond(r, s[i].0);
    let d = s.drop_last();
    assert(keys_unique(d)) by {
        assert forall|a: int, b: int| 0 <= a < d.len() && 0 <= b < d.len() && a != b implies #[trigger] d[a].0
            != #[trigger] d[b].0 by {
            assert(d[a] == s[a] && d[b] == s[b]);
        }
    }
    if i == s.len() - 1 {
        crate::particle::lemma_find_bond_at(r, r.len() - 1);
    } else {
        lemma_kept_contains(d, pos, i);
        assert(d[i] == s[i]);
        let rd = kept_bonds(d, pos);
        lemma_find_bond(rd, s[i].0);
        let j = find_bond(rd, s[i].0)->0;
        if !beyond_bond_distance(s.last().1.bonded_pos, pos) {
            assert(r[j] == rd[j]);
        }
        crate::particle::lemma_find_bond_at(r, j);
    }
}

proof fn lemma_kept_lacks(s: Seq<(usize, Bond)>, pos: Pos, t: usize)
    requires
        keys_unique(s),
        forall|k: int| 0 <= k < s.len() && (#[trigger] s[k]).0 == t ==> beyond_bond_distance(s[k].1.bonded_pos, pos),
    ensures
        find_bond(kept_bonds(s, pos), t) is None,
{
    lemma_kept_bonds(s, pos);
    let r = kept_bonds(s, pos);
    assert forall|k: int| 0 <= k < r.len() implies (#[trigger] r[k]).0 != t by {
        let j = choose|j: int| 0 <= j < s.len() && r[k] == s[j];
        assert(!beyond_bond_distance(r[k].1.bonded_pos, pos));
    }
    lemma_no_key(r, t);
}

proof fn lemma_visit_keeps_absent(v: ParticleView, lk: Seq<LookupView>, c: usize, t: usize)
    requires
        v.wf(),
        c < lk.len(),
        c != t || (t != v.index && beyond_bond_distance(v.position, lk[t as int].position)),
        find_bond(v.bonds, t) is None,
    ensures
        find_bond(visit_spec(v, lk, c).bonds, t) is None,
        c == t ==> visit_spec(v, lk, c).bonds == v.bonds && visit_spec(v, lk, c).remaining == v.remaining,
{
    lemma_find_bond(v.bonds, t);
    lemma_find_bond(v.bonds, c);
    let r = visit_spec(v, lk, c).bonds;
    if c == t {
        assert(r == v.bonds);
    }
    assert forall|k: int| 0 <= k < r.len() implies (#[trigger] r[k]).0 != t by {
        if c != v.index {
            match find_bond(v.bonds, c) {
                Some(i) => {
                    if r.len() < v.bonds.len() {
                        assert(r == v.bonds.remove(i));
                        if k < i {
                            assert(r[k] == v.bonds[k]);
                        } else {
                            assert(r[k] == v.bonds[k + 1]);
                        }
                    } else if k != i {
                        assert(r[k] == v.bonds[k]);
                    }
                },
                None => {
                    if k < v.bonds.len() {
                        assert(r[k] == v.bonds[k]);
                    }
                },
            }
        }
    }
    lemma_no_key(r, t);
}

proof fn lemma_visits_keep_absent(v: ParticleView, lk: Seq<LookupView>, cands: Seq<usize>, t: usize)
    requires
        v.wf(),
        candidates_in(cands, lk.len() as int),
        t < lk.len(),
        t != v.index,
        beyond_bond_distance(v.position, lk[t as int].position),
        find_bond(v.bonds, t) is None,
    ensures
        find_bond(visits_spec(v, lk, cands).bonds, t) is None,
        visits_spec(v, lk, cands).wf(),
        (forall|k: int| 0 <= k < cands.len() ==> #[trigger] cands[k] == t || cands[k] == v.index)
            ==> visits_spec(v, lk, cands).bonds == v.bonds && visits_spec(v, lk, cands).remaining
            == v.remaining,
    decreases cands.len(),
{
    if cands.len() > 0 {
        let d = cands.drop_last();
        assert forall|k: int| 0 <= k < d.len() implies #[trigger] d[k] < lk.len() by {
            assert(d[k] == cands[k]);
        }
        lemma_visits_keep_absent(v, lk, d, t);
        crate::bonding::lemma_visits_wf(v, lk, d);
        crate::bonding::lemma_visits_wf(v, lk, cands);
        let w = visits_spec(v, lk, d);
        lemma_visit_keeps_absent(w, lk, cands.last(), t);
        if forall|k: int| 0 <= k < cands.len() ==> #[trigger] cands[k] == t || cands[k] == v.index {
            assert forall|k: int| 0 <= k < d.len() implies #[trigger] d[k] == t || d[k] == v.index by {
                assert(d[k] == cands[k]);
            }
            assert(cands[cands.len() - 1] == t || cands[cands.len() - 1] == v.index);
        }
    }
}

proof fn lemma_converged_side(v: ParticleView, lk: Seq<LookupView>, t: usize)
    requires
        v.wf(),
        all_bonds_in_range(v),
        t != v.index,
        t < lk.len(),
        bond_with(v.bonds, t) matches Some(b) && !b.should_break && b.bonded_pos == lk[t as int].position,
        bond_with(lk[t as int].bonds, v.index) matches Some(tb) && !tb.should_break,
    ensures
        bond_pass_spec(v, lk, seq![t]) == (ParticleView { in_range: seq![lk[t as int].position], ..v }),
{
    lemma_kept_all(v.bonds, v.position);
    let start = ParticleView { in_range: seq![], ..drop_out_of_range_spec(v) };
    assert(start == ParticleView { in_range: seq![], ..v });
    assert(seq![t].drop_last() =~= Seq::<usize>::empty());
    lemma_find_bond(v.bonds, t);
    let i = find_bond(v.bonds, t)->0;
    let b = v.bonds[i].1;
    assert(Bond { bonded_pos: lk[t as int].position, ..b } == b);
    assert(v.bonds.update(i, (t, b)) =~= v.bonds);
    assert(seq![].push(lk[t as int].position) =~= seq![lk[t as int].position]);
    assert(visits_spec(start, lk, seq![t].drop_last()) == start);
    assert(seq![t].last() == t);
    assert(bond_pass_spec(v, lk, seq![t]) == visit_spec(start, lk, t));
    let reconciled = ParticleView { bonds: v.bonds.update(i, (t, Bond { bonded_pos: lk[t as int].position, ..b })), ..start };
    assert(visit_spec(start, lk, t) == ParticleView { in_range: reconciled.in_range.push(lk[t as int].position), ..reconciled });
}

/// Running the bonding pass twice on a converged pair changes nothing but the
/// diagnostic list of partners in range: the bonds, with their cached
/// positions, and the remaining capacities stay as they were, and the second
/// pass leaves the result of the first exactly as it is.
pub proof fn lemma_converged_pair_is_stable(a: ParticleView, b: ParticleView)
    requires
        converged_pair(a, b),
    ensures
        pair_pass(a, b) == (
            ParticleView { in_range: seq![b.position], ..a },
            ParticleView { in_range: seq![a.position], ..b },
        ),
        pair_pass(pair_pass(a, b).0, pair_pass(a, b).1) == pair_pass(a, b),
{
    let lk = pair_snapshot(a, b);
    lemma_converged_side(a, lk, 1);
    lemma_converged_side(b, lk, 0);
    let a1 = ParticleView { in_range: seq![b.position], ..a };
    let b1 = ParticleView { in_range: seq![a.position], ..b };
    let lk1 = pair_snapshot(a1, b1);
    assert(lk1 == lk);
    lemma_converged_side(a1, lk1, 1);
    lemma_converged_side(b1, lk1, 0);
}

/// A one-sided bond converges in one pass: when only `b` holds a bond with
/// `a`, unflagged, within range, and within `a`'s remaining capacity, and the
/// two stand within bond distance, then
/// after one pass both sides hold an unflagged bond with each other that
/// commits the same number of electrons.
pub proof fn lemma_one_sided_bond_converges(a: ParticleView, b: ParticleView)
    requires
        is_pair(a, b),
        find_bond(a.bonds, 1) is None,
        bond_with(b.bonds, 0) matches Some(bb) && !bb.should_break && bb.electrons_used <= a.remaining
            && !beyond_bond_distance(bb.bonded_pos, b.position),
        !beyond_bond_distance(a.position, b.position),
    ensures
        ({
            let bb = bond_with(b.bonds, 0)->0;
            let (a1, b1) = pair_pass(a, b);
            &&& bond_with(a1.bonds, 1) == Some(
                Bond {
                    bond_type: crate::particle::BondType::Covalent,
                    electrons_used: bb.electrons_used,
                    should_break: false,
                    bonded_pos: b.position,
                },
            )
            &&& bond_with(b1.bonds, 0) == Some(Bond { bonded_pos: a.position, ..bb })
            &&& all_bonds_in_range(a) ==> a1.remaining == a.remaining - bb.electrons_used
        }),
{
    let lk = pair_snapshot(a, b);
    let bb = bond_with(b.bonds, 0)->0;
    assert(seq![1usize].drop_last() =~= Seq::<usize>::empty());
    assert(seq![0usize].drop_last() =~= Seq::<usize>::empty());
    // The side that lacks the bond mirrors it.
    lemma_find_bond(a.bonds, 1);
    lemma_kept_lacks(a.bonds, a.position, 1);
    lemma_kept_bonds(a.bonds, a.position);
    let sa = ParticleView { in_range: seq![], ..drop_out_of_range_spec(a) };
    assert(sa.remaining >= a.remaining);
    if all_bonds_in_range(a) {
        lemma_kept_all(a.bonds, a.position);
    }
    let ra = crate::particle::register_spec(sa, 1, bb.electrons_used, false, b.position);
    assert(ra.bonds.drop_last() =~= sa.bonds);
    assert(visits_spec(sa, lk, seq![1usize].drop_last()) == sa);
    assert(seq![1usize].last() == 1);
    assert(lk[1] == lookup_of(b));
    assert(bond_pass_spec(a, lk, seq![1usize]) == visit_spec(sa, lk, 1));
    assert(visit_spec(sa, lk, 1).bonds == ra.bonds);
    // The side that holds it keeps it and refreshes the cached position.
    lemma_find_bond(b.bonds, 0);
    let i = find_bond(b.bonds, 0)->0;
    lemma_kept_contains(b.bonds, b.position, i);
    lemma_kept_bonds(b.bonds, b.position);
    let kb = kept_bonds(b.bonds, b.position);
    lemma_find_bond(kb, 0);
    let j = find_bond(kb, 0)->0;
    let upd = kb.update(j, (0usize, Bond { bonded_pos: a.position, ..bb }));
    crate::particle::lemma_keys_unique_update(kb, j, (0usize, Bond { bonded_pos: a.position, ..bb }));
    crate::particle::lemma_find_bond_at(upd, j);
    let sb = ParticleView { in_range: seq![], ..drop_out_of_range_spec(b) };
    assert(visits_spec(sb, lk, seq![0usize].drop_last()) == sb);
    assert(seq![0usize].last() == 0);
    assert(lk[0] == lookup_of(a));
    assert(bond_with(a.bonds, 1) is None);
    assert(bond_pass_spec(b, lk, seq![0usize]) == visit_spec(sb, lk, 0));
    assert(visit_spec(sb, lk, 0).bonds == upd);
}

/// A bonded pair pulled beyond bond distance dissolves in one pass: with fresh
/// cached positions and a snapshot that shows both particles where they
/// stand, neither side references the other after the pass, whatever its
/// candidates. Where the pair's bond is each side's only bond out of range and
/// each side's candidates are only the pair itself, each side's capacity grows
/// back by exactly the electrons it had committed.
pub proof fn lemma_distant_pair_dissolves(
    a: ParticleView,
    b: ParticleView,
    lk: Seq<LookupView>,
    ca: Seq<usize>,
    cb: Seq<usize>,
)
    requires
        is_pair(a, b),
        beyond_bond_distance(a.position, b.position),
        bond_with(a.bonds, 1) matches Some(ba) && ba.bonded_pos == b.position,
        bond_with(b.bonds, 0) matches Some(bb) && bb.bonded_pos == a.position,
        lk.len() >= 2,
        lk[0].position == a.position,
        lk[1].position == b.position,
        candidates_in(ca, lk.len() as int),
        candidates_in(cb, lk.len() as int),
    ensures
        find_bond(bond_pass_spec(a, lk, ca).bonds, 1) is None,
        find_bond(bond_pass_spec(b, lk, cb).bonds, 0) is None,
        (forall|k: int|
            0 <= k < a.bonds.len() && (#[trigger] a.bonds[k]).0 != 1 ==> !beyond_bond_distance(
                a.bonds[k].1.bonded_pos,
                a.position,
            )) && (forall|k: int| 0 <= k < ca.len() ==> #[trigger] ca[k] <= 1) ==> bond_pass_spec(
            a,
            lk,
            ca,
        ).remaining == a.remaining + bond_with(a.bonds, 1)->0.electrons_used,
        (forall|k: int|
            0 <= k < b.bonds.len() && (#[trigger] b.bonds[k]).0 != 0 ==> !beyond_bond_distance(
                b.bonds[k].1.bonded_pos,
                b.position,
            )) && (forall|k: int| 0 <= k < cb.len() ==> #[trigger] cb[k] <= 1) ==> bond_pass_spec(
            b,
            lk,
            cb,
        ).remaining == b.remaining + bond_with(b.bonds, 0)->0.electrons_used,
{
    lemma_dist2_symmetric(a.position, b.position);
    dissolve_side(a, lk, ca, 1);
    dissolve_side(b, lk, cb, 0);
}

proof fn lemma_dist2_symmetric(p: Pos, q: Pos)
    ensures
        crate::geometry::dist2(p, q) == crate::geometry::dist2(q, p),
{
    assert((p.x - q.x) * (p.x - q.x) == (q.x - p.x) * (q.x - p.x)) by (nonlinear_arith);
    assert((p.y - q.y) * (p.y - q.y) == (q.y - p.y) * (q.y - p.y)) by (nonlinear_arith);
}

proof fn dissolve_side(v: ParticleView, lk: Seq<LookupView>, cands: Seq<usize>, t: usize)
    requires
        v.wf(),
        bond_with(v.bonds, t) matches Some(bt) && beyond_bond_distance(bt.bonded_pos, v.position),
        candidates_in(cands, lk.len() as int),
        t < lk.len(),
        t != v.index,
        v.index < 2,
        t < 2,
        beyond_bond_distance(v.position, lk[t as int].position),
    ensures
        find_bond(bond_pass_spec(v, lk, cands).bonds, t) is None,
        (forall|k: int|
            0 <= k < v.bonds.len() && (#[trigger] v.bonds[k]).0 != t ==> !beyond_bond_distance(
                v.bonds[k].1.bonded_pos,
                v.position,
            )) && (forall|k: int| 0 <= k < cands.len() ==> #[trigger] cands[k] <= 1)
            ==> bond_pass_spec(v, lk, cands).remaining == v.remaining + bond_with(v.bonds, t)->0.electrons_used,
{
    lemma_find_bond(v.bonds, t);
    let i = find_bond(v.bonds, t)->0;
    assert forall|k: int| 0 <= k < v.bonds.len() && (#[trigger] v.bonds[k]).0 == t implies beyond_bond_distance(
        v.bonds[k].1.bonded_pos,
        v.position,
    ) by {
        assert(k == i);
    }
    lemma_kept_lacks(v.bonds, v.position, t);
    crate::particle::lemma_drop_out_of_range_wf(v);
    let start = ParticleView { in_range: seq![], ..drop_out_of_range_spec(v) };
    lemma_visits_keep_absent(start, lk, cands, t);
    if (forall|k: int|
        0 <= k < v.bonds.len() && (#[trigger] v.bonds[k]).0 != t ==> !beyond_bond_distance(
            v.bonds[k].1.bonded_pos,
            v.position,
        )) && (forall|k: int| 0 <= k < cands.len() ==> #[trigger] cands[k] <= 1) {
        assert forall|k: int| 0 <= k < v.bonds.len() && k != i implies !beyond_bond_distance(
            #[trigger] v.bonds[k].1.bonded_pos,
            v.position,
        ) by {
            assert(v.bonds[k].0 != t);
        }
        assert forall|k: int| 0 <= k < cands.len() implies #[trigger] cands[k] == t || cands[k] == start.index by {
            assert(cands[k] <= 1);
        }
        lemma_kept_but_one(v.bonds, v.position, i);
        lemma_electrons_sum_remove(v.bonds, i);
    }
}

proof fn lemma_axis_within(u: int, v: int)
    requires
        (u - v) * (u - v) <= BOND_DISTANCE * BOND_DISTANCE,
    ensures
        -BOND_DISTANCE <= u - v <= BOND_DISTANCE,
{
    let d = u - v;
    if d > BOND_DISTANCE {
        assert(d * d > BOND_DISTANCE * BOND_DISTANCE) by (nonlinear_arith)
            requires
                d > BOND_DISTANCE,
        ;
    }
    if d < -BOND_DISTANCE {
        assert(d * d > BOND_DISTANCE * BOND_DISTANCE) by (nonlinear_arith)
            requires
                d < -BOND_DISTANCE,
        ;
    }
}

proof fn lemma_cells_adjacent(u: int, v: int, n: int)
    requires
        -BOND_DISTANCE <= u - v <= BOND_DISTANCE,
        cell_coord(u, n) is Some,
        cell_coord(v, n) is Some,
    ensures
        -1 <= cell_coord(u, n)->0 - cell_coord(v, n)->0 <= 1,
{
    let d = SMOOTHING_DISTANCE as int;
    lemma_fundamental_div_mod(u, d);
    lemma_fundamental_div_mod(v, d);
    lemma_mod_bound(u, d);
    lemma_mod_bound(v, d);
    let qu = u / d;
    let qv = v / d;
    assert(-1 <= qu - qv <= 1) by (nonlinear_arith)
        requires
            u == d * qu + u % d,
            v == d * qv + v % d,
            0 <= u % d < d,
            0 <= v % d < d,
            -BOND_DISTANCE <= u - v <= BOND_DISTANCE,
            d == 40000,
            BOND_DISTANCE == 30000,
    ;
}

proof fn lemma_connected_contains(g: (usize, usize), size: GridSize, m: int, k: int)
    requires
        0 <= k < m,
        neighbor_cell(g, size, k) is Some,
    ensures
        connected_cells_upto(g, size, m).contains(neighbor_cell(g, size, k)->0),
    decreases m,
{
    let c = neighbor_cell(g, size, k)->0;
    let cur = connected_cells_upto(g, size, m);
    if k == m - 1 {
        assert(cur[cur.len() - 1] == c);
    } else {
        lemma_connected_contains(g, size, m - 1, k);
        let prev = connected_cells_upto(g, size, m - 1);
        let idx = choose|idx: int| 0 <= idx < prev.len() && prev[idx] == c;
        assert(cur[idx] == c);
    }
}

proof fn lemma_bucket_contains(ps: Seq<Pos>, size: GridSize, c: int, n: int, j: int)
    requires
        0 <= j < n <= ps.len(),
        cell_of(ps[j], size) == Some(c),
    ensures
        bucket_spec(ps, size, c, n).contains(j as usize),
    decreases n,
{
    let cur = bucket_spec(ps, size, c, n);
    if j == n - 1 {
        assert(cur[cur.len() - 1] == j as usize);
    } else {
        lemma_bucket_contains(ps, size, c, n - 1, j);
        let prev = bucket_spec(ps, size, c, n - 1);
        let idx = choose|idx: int| 0 <= idx < prev.len() && prev[idx] == j as usize;
        assert(cur[idx] == j as usize);
    }
}

proof fn lemma_flatten_contains(grid: Seq<Seq<usize>>, cells: Seq<usize>, m: int, x: usize)
    requires
        0 <= m < cells.len(),
        cells[m] < grid.len(),
        grid[cells[m] as int].contains(x),
    ensures
        flatten_cells(grid, cells).contains(x),
    decreases cells.len(),
{
    let f = flatten_cells(grid, cells);
    let d = cells.drop_last();
    let fd = flatten_cells(grid, d);
    if m == cells.len() - 1 {
        let b = grid[cells[m] as int];
        let idx = choose|idx: int| 0 <= idx < b.len() && b[idx] == x;
        assert(f[fd.len() + idx] == x);
    } else {
        assert(d[m] == cells[m]);
        lemma_flatten_contains(grid, d, m, x);
        let idx = choose|idx: int| 0 <= idx < fd.len() && fd[idx] == x;
        assert(f[idx] == x);
    }
}

/// The grid misses no bonding partner: when two particles both lie on the
/// grid and within bond distance of each other, each is among the other's
/// neighbour candidates.
pub proof fn lemma_grid_finds_partners(ps: Seq<Pos>, size: GridSize, i: int, j: int)
    requires
        size.wf(),
        0 <= i < ps.len(),
        0 <= j < ps.len(),
        grid_pos_of(ps[i], size) is Some,
        grid_pos_of(ps[j], size) is Some,
        !beyond_bond_distance(ps[i], ps[j]),
    ensures
        candidates_spec(grid_spec(ps, size), size, ps[i]).contains(j as usize),
        candidates_spec(grid_spec(ps, size), size, ps[j]).contains(i as usize),
{
    lemma_dist2_symmetric(ps[i], ps[j]);
    lemma_partner_found(ps, size, i, j);
    lemma_partner_found(ps, size, j, i);
}

proof fn lemma_partner_found(ps: Seq<Pos>, size: GridSize, i: int, j: int)
    requires
        size.wf(),
        0 <= i < ps.len(),
        0 <= j < ps.len(),
        grid_pos_of(ps[i], size) is Some,
        grid_pos_of(ps[j], size) is Some,
        !beyond_bond_distance(ps[i], ps[j]),
    ensures
        candidates_spec(grid_spec(ps, size), size, ps[i]).contains(j as usize),
{
    let p = ps[i];
    let q = ps[j];
    assert(0 <= (p.y - q.y) * (p.y - q.y)) by (nonlinear_arith);
    assert(0 <= (p.x - q.x) * (p.x - q.x)) by (nonlinear_arith);
    lemma_axis_within(p.x as int, q.x as int);
    lemma_axis_within(p.y as int, q.y as int);
    lemma_cells_adjacent(q.x as int, p.x as int, size.width as int);
    lemma_cells_adjacent(q.y as int, p.y as int, size.height as int);
    let gi = grid_pos_of(p, size)->0;
    let gj = grid_pos_of(q, size)->0;
    let dx = gj.0 - gi.0;
    let dy = gj.1 - gi.1;
    let k = (1 - dy) * 3 + (dx + 1);
    assert(k % 3 == dx + 1 && k / 3 == 1 - dy) by (nonlinear_arith)
        requires
            -1 <= dx <= 1,
            -1 <= dy <= 1,
            k == (1 - dy) * 3 + (dx + 1),
    ;
    assert(neighbor_cell(gi, size, k) == Some(gj));
    lemma_connected_contains(gi, size, 9, k);
    let cells = connected_cells(gi, size);
    let ci = choose|ci: int| 0 <= ci < cells.len() && cells[ci] == gj;
    let idxs = connected_indexes(gi, size);
    let c = index_of(gj, size);
    lemma_index_bound(gj.0 as int, gj.1 as int, size.width as int, size.height as int);
    assert(idxs[ci] == c as usize);
    assert(cell_of(q, size) == Some(c));
    lemma_bucket_contains(ps, size, c, ps.len() as int, j);
    let grid = grid_spec(ps, size);
    assert(grid[c] == bucket_spec(ps, size, c, ps.len() as int));
    crate::particle_grid::lemma_total_bound(size);
    assert(idxs.len() == cells.len());
    assert(idxs[ci] as int == c);
    assert(grid.len() == size.total());
    lemma_flatten_contains(grid, idxs, ci, j as usize);
}

proof fn lemma_bond_with_at(s: Seq<(usize, Bond)>, k: int)
    requires
        keys_unique(s),
        0 <= k < s.len(),
    ensures
        bond_with(s, s[k].0) == Some(s[k].1),
{
    crate::particle::lemma_find_bond_at(s, k);
}

proof fn lemma_visit_keeps_bond(v: ParticleView, lk: Seq<LookupView>, c: usize, k: int)
    requires
        v.wf(),
        c < lk.len(),
        0 <= k < v.bonds.len(),
        c == v.bonds[k].0 ==> !v.bonds[k].1.should_break && v.bonds[k].1.bonded_pos == lk[c as int].position
            && (bond_with(lk[c as int].bonds, v.index) matches Some(tb) && !tb.should_break),
    ensures
        bond_with(visit_spec(v, lk, c).bonds, v.bonds[k].0) == Some(v.bonds[k].1),
        visit_spec(v, lk, c).wf(),
{
    crate::bonding::lemma_visit_wf(v, lk, c);
    let r = visit_spec(v, lk, c).bonds;
    let t = v.bonds[k].0;
    lemma_find_bond(v.bonds, c);
    if c == v.index {
        lemma_bond_with_at(r, k);
    } else if c == t {
        crate::particle::lemma_find_bond_at(v.bonds, k);
        assert(Bond { bonded_pos: lk[c as int].position, ..v.bonds[k].1 } == v.bonds[k].1);
        assert(r[k] == v.bonds[k]);
        lemma_bond_with_at(r, k);
    } else {
        match find_bond(v.bonds, c) {
            Some(i) => {
                assert(i != k);
                if r.len() < v.bonds.len() {
                    assert(r == v.bonds.remove(i));
                    if k < i {
                        assert(r[k] == v.bonds[k]);
                        lemma_bond_with_at(r, k);
                    } else {
                        assert(r[k - 1] == v.bonds[k]);
                        lemma_bond_with_at(r, k - 1);
                    }
                } else {
                    assert(r[k] == v.bonds[k]);
                    lemma_bond_with_at(r, k);
                }
            },
            None => {
                assert(r[k] == v.bonds[k]);
                lemma_bond_with_at(r, k);
            },
        }
    }
}

proof fn lemma_visits_keep_bond(v: ParticleView, lk: Seq<LookupView>, cands: Seq<usize>, t: usize, b: Bond)
    requires
        v.wf(),
        candidates_in(cands, lk.len() as int),
        t < lk.len(),
        bond_with(v.bonds, t) == Some(b),
        !b.should_break,
        b.bonded_pos == lk[t as int].position,
        bond_with(lk[t as int].bonds, v.index) matches Some(tb) && !tb.should_break,
    ensures
        bond_with(visits_spec(v, lk, cands).bonds, t) == Some(b),
        visits_spec(v, lk, cands).wf(),
        visits_spec(v, lk, cands).index == v.index,
    decreases cands.len(),
{
    crate::bonding::lemma_visits_wf(v, lk, cands);
    if cands.len() > 0 {
        let d = cands.drop_last();
        assert forall|k: int| 0 <= k < d.len() implies #[trigger] d[k] < lk.len() by {
            assert(d[k] == cands[k]);
        }
        lemma_visits_keep_bond(v, lk, d, t, b);
        crate::bonding::lemma_visits_wf(v, lk, d);
        let w = visits_spec(v, lk, d);
        lemma_find_bond(w.bonds, t);
        let k = find_bond(w.bonds, t)->0;
        lemma_visit_keeps_bond(w, lk, cands.last(), k);
    }
}

/// A converged bond survives a bonding sub-step unchanged: when particles `i`
/// and `j` of a store each hold an unflagged bond with the other, cached at
/// the other's current position and within bond distance, then after a
/// sub-step both bonds are exactly as before, whatever else the store holds,
/// and after a second sub-step they are still exactly as before.
pub proof fn lemma_sub_step_keeps_converged_bond(vs: Seq<ParticleView>, size: GridSize, i: int, j: int)
    requires
        size.wf(),
        store_wf(vs),
        0 <= i < vs.len(),
        0 <= j < vs.len(),
        vs[i].index == i,
        vs[j].index == j,
        bond_with(vs[i].bonds, j as usize) matches Some(b) && !b.should_break && b.bonded_pos
            == vs[j].position,
        bond_with(vs[j].bonds, i as usize) matches Some(c) && !c.should_break && c.bonded_pos
            == vs[i].position,
        !beyond_bond_distance(vs[i].position, vs[j].position),
    ensures
        bond_with(sub_step_spec(vs, size)[i].bonds, j as usize) == bond_with(vs[i].bonds, j as usize),
        bond_with(sub_step_spec(vs, size)[j].bonds, i as usize) == bond_with(vs[j].bonds, i as usize),
        bond_with(sub_step_spec(sub_step_spec(vs, size), size)[i].bonds, j as usize) == bond_with(
            vs[i].bonds,
            j as usize,
        ),
        bond_with(sub_step_spec(sub_step_spec(vs, size), size)[j].bonds, i as usize) == bond_with(
            vs[j].bonds,
            i as usize,
        ),
{
    lemma_dist2_symmetric(vs[i].position, vs[j].position);
    keep_side(vs, size, i, j);
    keep_side(vs, size, j, i);
    let r = sub_step_spec(vs, size);
    lemma_sub_step_keeps_capacity(vs, size);
    lemma_sub_step_keeps_place(vs, size, i);
    lemma_sub_step_keeps_place(vs, size, j);
    keep_side(r, size, i, j);
    keep_side(r, size, j, i);
}

proof fn lemma_sub_step_keeps_place(vs: Seq<ParticleView>, size: GridSize, i: int)
    requires
        size.wf(),
        store_wf(vs),
        0 <= i < vs.len(),
    ensures
        sub_step_spec(vs, size)[i].index == vs[i].index,
        sub_step_spec(vs, size)[i].position == vs[i].position,
{
    let ps = positions_of(vs);
    let grid = grid_spec(ps, size);
    lemma_grid_below(ps, size);
    lemma_candidates_below(grid, size, vs[i].position, ps.len() as int);
    lemma_bond_pass_wf(vs[i], snapshot_of(vs), candidates_spec(grid, size, vs[i].position));
}

proof fn keep_side(vs: Seq<ParticleView>, size: GridSize, i: int, j: int)
    requires
        size.wf(),
        store_wf(vs),
        0 <= i < vs.len(),
        0 <= j < vs.len(),
        vs[i].index == i,
        vs[j].index == j,
        bond_with(vs[i].bonds, j as usize) matches Some(b) && !b.should_break && b.bonded_pos
            == vs[j].position,
        bond_with(vs[j].bonds, i as usize) matches Some(c) && !c.should_break,
        !beyond_bond_distance(vs[j].position, vs[i].position),
    ensures
        bond_with(sub_step_spec(vs, size)[i].bonds, j as usize) == bond_with(vs[i].bonds, j as usize),
{
    let v = vs[i];
    let t = j as usize;
    let b = bond_with(v.bonds, t)->0;
    let ps = positions_of(vs);
    let grid = grid_spec(ps, size);
    let lk = snapshot_of(vs);
    lemma_grid_below(ps, size);
    let cands = candidates_spec(grid, size, v.position);
    lemma_candidates_below(grid, size, v.position, ps.len() as int);
    assert(v.wf());
    lemma_find_bond(v.bonds, t);
    let k = find_bond(v.bonds, t)->0;
    lemma_kept_contains(v.bonds, v.position, k);
    crate::particle::lemma_drop_out_of_range_wf(v);
    let start = ParticleView { in_range: seq![], ..drop_out_of_range_spec(v) };
    assert(lk[j] == lookup_of(vs[j]));
    assert(lk.len() == vs.len() && ps.len() == vs.len());
    assert(start.bonds == kept_bonds(v.bonds, v.position));
    assert(bond_with(start.bonds, t) == Some(b));
    assert(start.index == i);
    assert(t as int == j) by {
        assert(vs[j].index == j);
    }
    assert(lk[t as int] == lookup_of(vs[j]));
    lemma_visits_keep_bond(start, lk, cands, t, b);
}

} // verus!
