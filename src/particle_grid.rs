use vstd::prelude::*;

use crate::geometry::Pos;
use vstd::arithmetic::div_mod::{lemma_fundamental_div_mod, lemma_mod_bound};

verus! {

/// Side of one grid cell, in position units; it is at least the bond distance,
/// so a 3x3 block of cells covers every bonding partner.
pub const SMOOTHING_DISTANCE: i64 = 40000;

/// Largest number of cells along one axis.
pub const MAX_GRID_SIDE: usize = 4096;

/// Dimensions of the grid, in cells; the grid is centred on the origin.
#[derive(Clone, Copy, PartialEq, Eq, Debug, Structural)]
pub struct GridSize {
    pub width: usize,
    pub height: usize,
}

impl GridSize {
    pub open spec fn wf(self) -> bool {
        1 <= self.width <= MAX_GRID_SIDE && 1 <= self.height <= MAX_GRID_SIDE
    }

    pub open spec fn total(self) -> int {
        self.width * self.height
    }
}

/// Cell coordinate along one axis of `n` cells: `floor(v / D) + n / 2`, or
/// `None` outside the grid.
pub open spec fn cell_coord(v: int, n: int) -> Option<int> {
    let c = v / (SMOOTHING_DISTANCE as int) + n / 2;
    if 0 <= c < n {
        Some(c)
    } else {
        None
    }
}

/// Grid position of `p`, or `None` outside the grid.
pub open spec fn grid_pos_of(p: Pos, size: GridSize) -> Option<(usize, usize)> {
    match (cell_coord(p.x as int, size.width as int), cell_coord(p.y as int, size.height as int)) {
        (Some(x), Some(y)) => Some((x as usize, y as usize)),
        _ => None,
    }
}

/// Flat index of a grid position.
pub open spec fn index_of(g: (usize, usize), size: GridSize) -> int {
    g.1 * size.width + g.0
}

/// Cell index of `p`, or `None` outside the grid.
pub open spec fn cell_of(p: Pos, size: GridSize) -> Option<int> {
    match grid_pos_of(p, size) {
        Some(g) => Some(index_of(g, size)),
        None => None,
    }
}

/// The indices below `n` of the positions that fall in cell `c`, in increasing order.
pub open spec fn bucket_spec(ps: Seq<Pos>, size: GridSize, c: int, n: int) -> Seq<usize>
    decreases n,
{
    if n <= 0 {
        seq![]
    } else if cell_of(ps[n - 1], size) == Some(c) {
        bucket_spec(ps, size, c, n - 1).push((n - 1) as usize)
    } else {
        bucket_spec(ps, size, c, n - 1)
    }
}

/// The grid built from `ps`: one bucket per cell.
pub open spec fn grid_spec(ps: Seq<Pos>, size: GridSize) -> Seq<Seq<usize>> {
    Seq::new(size.total() as nat, |c: int| bucket_spec(ps, size, c, ps.len() as int))
}

/// The grid as a sequence of buckets.
pub open spec fn grid_view(grid: Seq<Vec<usize>>) -> Seq<Seq<usize>> {
    grid.map_values(|b: Vec<usize>| b@)
}

/// The `k`-th neighbour of a cell (rows above, level, below; columns left,
/// centre, right), or `None` where it falls off the grid.
pub open spec fn neighbor_cell(g: (usize, usize), size: GridSize, k: int) -> Option<(usize, usize)> {
    let nx = g.0 + k % 3 - 1;
    let ny = g.1 + 1 - k / 3;
    if 0 <= nx < size.width && 0 <= ny < size.height {
        Some((nx as usize, ny as usize))
    } else {
        None
    }
}

/// The first `k` neighbours of a cell that lie on the grid.
pub open spec fn connected_cells_upto(g: (usize, usize), size: GridSize, k: int) -> Seq<(usize, usize)>
    decreases k,
{
    if k <= 0 {
        seq![]
    } else {
        match neighbor_cell(g, size, k - 1) {
            Some(c) => connected_cells_upto(g, size, k - 1).push(c),
            None => connected_cells_upto(g, size, k - 1),
        }
    }
}

/// The cell and its up to eight neighbours, clipped at the grid's edges.
pub open spec fn connected_cells(g: (usize, usize), size: GridSize) -> Seq<(usize, usize)> {
    connected_cells_upto(g, size, 9)
}

/// Flat indices of `connected_cells`.
pub open spec fn connected_indexes(g: (usize, usize), size: GridSize) -> Seq<usize> {
    connected_cells(g, size).map_values(|c: (usize, usize)| index_of(c, size) as usize)
}

/// The buckets of `cells`, concatenated in order.
pub open spec fn flatten_cells(grid: Seq<Seq<usize>>, cells: Seq<usize>) -> Seq<usize>
    decreases cells.len(),
{
    if cells.len() == 0 {
        seq![]
    } else {
        flatten_cells(grid, cells.drop_last()) + grid[cells.last() as int]
    }
}

/// Every particle index found in the 3x3 block of cells around `p`.
pub open spec fn candidates_spec(grid: Seq<Seq<usize>>, size: GridSize, p: Pos) -> Seq<usize> {
    match grid_pos_of(p, size) {
        Some(g) => flatten_cells(grid, connected_indexes(g, size)),
        None => seq![],
    }
}

pub proof fn lemma_index_bound(x: int, y: int, w: int, h: int)
    requires
        0 <= x < w,
        0 <= y < h,
    ensures
        0 <= y * w + x < w * h,
{
    assert(y * w <= (h - 1) * w) by (nonlinear_arith)
        requires
            0 <= y < h,
            0 < w,
    ;
    assert((h - 1) * w + w == w * h) by (nonlinear_arith);
    assert(0 <= y * w) by (nonlinear_arith)
        requires
            0 <= y,
            0 < w,
    ;
}

pub proof fn lemma_total_bound(size: GridSize)
    requires
        size.wf(),
    ensures
        size.total() <= MAX_GRID_SIDE * MAX_GRID_SIDE,
{
    assert(size.width * size.height <= MAX_GRID_SIDE * MAX_GRID_SIDE) by (nonlinear_arith)
        requires
            size.width <= MAX_GRID_SIDE,
            size.height <= MAX_GRID_SIDE,
    ;
}

/// Grid position of a position, or `None` when it lies outside the grid.
pub fn pixel_pos_to_gird_pos(pixel_pos: &Pos, size: GridSize) -> (r: Option<(usize, usize)>)
    requires
        size.wf(),
    ensures
        r == grid_pos_of(*pixel_pos, size),
{
    let gx = axis_cell(pixel_pos.x, size.width);
    let gy = axis_cell(pixel_pos.y, size.height);
    match (gx, gy) {
        (Some(x), Some(y)) => Some((x, y)),
        _ => None,
    }
}

fn axis_cell(v: i32, n: usize) -> (r: Option<usize>)
    requires
        1 <= n <= MAX_GRID_SIDE,
    ensures
        match cell_coord(v as int, n as int) {
            Some(c) => r == Some(c as usize),
            None => r is None,
        },
{
    let half: i64 = (n / 2) as i64;
    let shifted: i64 = v as i64 + half * SMOOTHING_DISTANCE;
    assert(shifted as int / (SMOOTHING_DISTANCE as int) == v as int / (SMOOTHING_DISTANCE as int) + half as int);
    if shifted < 0 || shifted >= n as i64 * SMOOTHING_DISTANCE {
        None
    } else {
        Some((shifted / SMOOTHING_DISTANCE) as usize)
    }
}

/// Flat index of a grid position.
pub fn grid_pos_to_index(grid_pos: (usize, usize), size: GridSize) -> (r: usize)
    requires
        size.wf(),
        grid_pos.0 < size.width,
        grid_pos.1 < size.height,
    ensures
        r == index_of(grid_pos, size),
        r < size.total(),
{
    proof {
        lemma_index_bound(grid_pos.0 as int, grid_pos.1 as int, size.width as int, size.height as int);
        lemma_total_bound(size);
    }
    grid_pos.1 * size.width + grid_pos.0
}

/// Cell index of a position, or `None` when it lies outside the grid.
pub fn pos_to_grid_index(pixel_pos: &Pos, size: GridSize) -> (r: Option<usize>)
    requires
        size.wf(),
    ensures
        match cell_of(*pixel_pos, size) {
            Some(c) => r == Some(c as usize) && 0 <= c < size.total(),
            None => r is None,
        },
{
    match pixel_pos_to_gird_pos(pixel_pos, size) {
        Some(g) => Some(grid_pos_to_index(g, size)),
        None => None,
    }
}

/// Assigns each particle index to the bucket of the cell its position falls
/// in; positions outside the grid are left out.
pub fn split_particles_into_grid(particles: &Vec<Pos>, size: GridSize) -> (output: Vec<Vec<usize>>)
    requires
        size.wf(),
    ensures
        output@.len() == size.total(),
        grid_view(output@) == grid_spec(particles@, size),
{
    proof {
        lemma_total_bound(size);
    }
    let total = size.width * size.height;
    let mut output: Vec<Vec<usize>> = Vec::new();
    let mut c: usize = 0;
    while c < total
        invariant
            c <= total,
            total == size.total(),
            output@.len() == c,
            forall|j: int| 0 <= j < c ==> (#[trigger] output@[j])@ == Seq::<usize>::empty(),
        decreases total - c,
    {
        output.push(Vec::new());
        c = c + 1;
    }
    let n = particles.len();
    let mut i: usize = 0;
    while i < n
        invariant
            n == particles@.len(),
            i <= n,
            size.wf(),
            total == size.total(),
            output@.len() == total,
            forall|j: int| 0 <= j < total ==> (#[trigger] output@[j])@ == bucket_spec(particles@, size, j, i as int),
        decreases n - i,
    {
        match pos_to_grid_index(&particles[i], size) {
            Some(cell) => {
                output[cell].push(i);
            },
            None => {},
        }
        i = i + 1;
    }
    assert(grid_view(output@) =~= grid_spec(particles@, size));
    output
}

/// The cell `sample_grid_pos` and its up to eight neighbours on the grid.
pub fn get_connected_cells(sample_grid_pos: (usize, usize), size: GridSize) -> (output: Vec<(usize, usize)>)
    requires
        size.wf(),
        sample_grid_pos.0 < size.width,
        sample_grid_pos.1 < size.height,
    ensures
        output@ == connected_cells(sample_grid_pos, size),
{
    let mut output: Vec<(usize, usize)> = Vec::new();
    let mut k: usize = 0;
    while k < 9
        invariant
            k <= 9,
            size.wf(),
            sample_grid_pos.0 < size.width,
            sample_grid_pos.1 < size.height,
            output@ == connected_cells_upto(sample_grid_pos, size, k as int),
        decreases 9 - k,
    {
        let nx: i64 = sample_grid_pos.0 as i64 + (k % 3) as i64 - 1;
        let ny: i64 = sample_grid_pos.1 as i64 + 1 - (k / 3) as i64;
        if 0 <= nx && nx < size.width as i64 && 0 <= ny && ny < size.height as i64 {
            output.push((nx as usize, ny as usize));
        }
        k = k + 1;
    }
    output
}

/// Flat indices of `get_connected_cells`.
pub fn get_connected_cells_indexes(sample_grid_pos: (usize, usize), size: GridSize) -> (output: Vec<usize>)
    requires
        size.wf(),
        sample_grid_pos.0 < size.width,
        sample_grid_pos.1 < size.height,
    ensures
        output@ == connected_indexes(sample_grid_pos, size),
        forall|k: int| 0 <= k < output@.len() ==> #[trigger] output@[k] < size.total(),
{
    let cells = get_connected_cells(sample_grid_pos, size);
    proof {
        lemma_connected_cells_on_grid(sample_grid_pos, size, 9);
    }
    let mut output: Vec<usize> = Vec::new();
    let mut k: usize = 0;
    while k < cells.len()
        invariant
            k <= cells@.len(),
            size.wf(),
            cells@ == connected_cells(sample_grid_pos, size),
            forall|j: int|
                0 <= j < cells@.len() ==> (#[trigger] cells@[j]).0 < size.width && cells@[j].1 < size.height,
            output@ =~= cells@.subrange(0, k as int).map_values(|c: (usize, usize)| index_of(c, size) as usize),
            forall|j: int| 0 <= j < output@.len() ==> #[trigger] output@[j] < size.total(),
        decreases cells@.len() - k,
    {
        let index = grid_pos_to_index(cells[k], size);
        output.push(index);
        k = k + 1;
    }
    assert(cells@.subrange(0, k as int) =~= cells@);
    output
}

pub proof fn lemma_connected_cells_on_grid(g: (usize, usize), size: GridSize, k: int)
    ensures
        forall|j: int|
            0 <= j < connected_cells_upto(g, size, k).len() ==> (#[trigger] connected_cells_upto(
                g,
                size,
                k,
            )[j]).0 < size.width && connected_cells_upto(g, size, k)[j].1 < size.height,
    decreases k,
{
    if k > 0 {
        lemma_connected_cells_on_grid(g, size, k - 1);
        let prev = connected_cells_upto(g, size, k - 1);
        let cur = connected_cells_upto(g, size, k);
        assert forall|j: int| 0 <= j < cur.len() implies (#[trigger] cur[j]).0 < size.width && cur[j].1
            < size.height by {
            if j < prev.len() {
                assert(cur[j] == prev[j]);
            }
        }
    }
}

/// Every particle index in the 3x3 block of cells around `position`; empty
/// when `position` lies outside the grid. It may hold particles beyond bond
/// distance, which callers filter.
pub fn neighbor_candidates(grid: &Vec<Vec<usize>>, size: GridSize, position: &Pos) -> (output: Vec<usize>)
    requires
        size.wf(),
        grid@.len() == size.total(),
    ensures
        output@ == candidates_spec(grid_view(grid@), size, *position),
{
    let ghost gv = grid_view(grid@);
    match pixel_pos_to_gird_pos(position, size) {
        None => Vec::new(),
        Some(g) => {
            let cells = get_connected_cells_indexes(g, size);
            let mut output: Vec<usize> = Vec::new();
            let mut k: usize = 0;
            assert(cells@.subrange(0, 0) =~= Seq::<usize>::empty());
            while k < cells.len()
                invariant
                    k <= cells@.len(),
                    gv == grid_view(grid@),
                    grid@.len() == size.total(),
                    forall|j: int| 0 <= j < cells@.len() ==> #[trigger] cells@[j] < size.total(),
                    output@ == flatten_cells(gv, cells@.subrange(0, k as int)),
                decreases cells@.len() - k,
            {
                let ghost pre = cells@.subrange(0, k as int + 1);
                assert(pre.drop_last() =~= cells@.subrange(0, k as int));
                let bucket = &grid[cells[k]];
                let mut b: usize = 0;
                let ghost start = output@;
                while b < bucket.len()
                    invariant
                        b <= bucket@.len(),
                        output@ =~= start + bucket@.subrange(0, b as int),
                    decreases bucket@.len() - b,
                {
                    output.push(bucket[b]);
                    b = b + 1;
                }
                assert(bucket@.subrange(0, b as int) =~= bucket@);
                k = k + 1;
            }
            assert(cells@.subrange(0, k as int) =~= cells@);
            output
        },
    }
}

/// The connected cell indices of every position, concatenated in order.
pub open spec fn all_connected_indexes(ps: Seq<Pos>, size: GridSize) -> Seq<usize>
    decreases ps.len(),
{
    if ps.len() == 0 {
        seq![]
    } else {
        all_connected_indexes(ps.drop_last(), size) + match grid_pos_of(ps.last(), size) {
            Some(g) => connected_indexes(g, size),
            None => seq![],
        }
    }
}

/// The connected cell indices of every position, concatenated in the order
/// of the positions; positions outside the grid contribute none.
pub fn calculate_connected_cells_for_every_particle(particle_positions: &Vec<Pos>, size: GridSize) -> (connected_cells: Vec<usize>)
    requires
        size.wf(),
    ensures
        connected_cells@ == all_connected_indexes(particle_positions@, size),
{
    let mut connected_cells: Vec<usize> = Vec::new();
    let mut i: usize = 0;
    assert(particle_positions@.subrange(0, 0) =~= Seq::<Pos>::empty());
    while i < particle_positions.len()
        invariant
            i <= particle_positions@.len(),
            size.wf(),
            connected_cells@ == all_connected_indexes(particle_positions@.subrange(0, i as int), size),
        decreases particle_positions@.len() - i,
    {
        let ghost pre = particle_positions@.subrange(0, i as int + 1);
        assert(pre.drop_last() =~= particle_positions@.subrange(0, i as int));
        let ghost start = connected_cells@;
        match pixel_pos_to_gird_pos(&particle_positions[i], size) {
            Some(g) => {
                let mut data = get_connected_cells_indexes(g, size);
                connected_cells.append(&mut data);
            },
            None => {},
        }
        assert(connected_cells@ =~= all_connected_indexes(pre, size));
        i = i + 1;
    }
    assert(particle_positions@.subrange(0, i as int) =~= particle_positions@);
    connected_cells
}

/// Every connected index lies on the grid.
pub proof fn lemma_connected_indexes_bound(g: (usize, usize), size: GridSize)
    requires
        size.wf(),
    ensures
        forall|k: int|
            0 <= k < connected_indexes(g, size).len() ==> #[trigger] connected_indexes(g, size)[k]
                < size.total(),
{
    lemma_connected_cells_on_grid(g, size, 9);
    lemma_total_bound(size);
    let cs = connected_cells(g, size);
    assert forall|k: int| 0 <= k < connected_indexes(g, size).len() implies #[trigger] connected_indexes(
        g,
        size,
    )[k] < size.total() by {
        lemma_index_bound(cs[k].0 as int, cs[k].1 as int, size.width as int, size.height as int);
    }
}

/// Number of cells of side `SMOOTHING_DISTANCE` needed to cover `extent` units.
pub open spec fn cells_to_cover(extent: int) -> int {
    (extent + SMOOTHING_DISTANCE as int - 1) / (SMOOTHING_DISTANCE as int)
}

/// Cells along an axis for a region `extent` units long: enough cells to cover
/// it, plus one so that both closed edges of the centred region fall on the grid.
pub open spec fn cells_for_region(extent: int) -> int {
    cells_to_cover(extent) + 1
}

/// Every coordinate of the closed region `[-extent / 2, extent / 2]` lies on an
/// axis of `cells_for_region(extent)` cells.
pub proof fn lemma_region_on_grid(v: int, extent: int)
    requires
        extent >= 0,
        -(extent / 2) <= v <= extent / 2,
    ensures
        cell_coord(v, cells_for_region(extent)) is Some,
{
    let d = SMOOTHING_DISTANCE as int;
    let cc = cells_to_cover(extent);
    let n = cc + 1;
    lemma_fundamental_div_mod(v, d);
    lemma_mod_bound(v, d);
    lemma_fundamental_div_mod(extent + d - 1, d);
    lemma_mod_bound(extent + d - 1, d);
    lemma_fundamental_div_mod(extent, 2);
    lemma_mod_bound(extent, 2);
    lemma_fundamental_div_mod(n, 2);
    lemma_mod_bound(n, 2);
    let q = v / d;
    let h = n / 2;
    let e2 = extent / 2;
    assert(0 <= q + h < n) by (nonlinear_arith)
        requires
            v == d * q + v % d,
            0 <= v % d < d,
            extent + d - 1 == d * cc + (extent + d - 1) % d,
            0 <= (extent + d - 1) % d < d,
            extent == 2 * e2 + extent % 2,
            0 <= extent % 2 < 2,
            n == 2 * h + n % 2,
            0 <= n % 2 < 2,
            n == cc + 1,
            -e2 <= v <= e2,
            d == 40000,
    ;
}

/// Grid dimensions covering the closed, origin-centred region of `width` by
/// `height` position units, or `None` when that needs more than
/// `MAX_GRID_SIDE` cells along an axis.
pub fn grid_size_for_region(width: u32, height: u32) -> (r: Option<GridSize>)
    ensures
        match r {
            Some(g) => {
                &&& g.wf()
                &&& g.width == cells_for_region(width as int)
                &&& g.height == cells_for_region(height as int)
                &&& forall|p: Pos|
                    -(width / 2) <= p.x <= width / 2 && -(height / 2) <= p.y <= height / 2
                        ==> #[trigger] grid_pos_of(p, g) is Some
            },
            None => !(cells_for_region(width as int) <= MAX_GRID_SIDE && cells_for_region(
                height as int,
            ) <= MAX_GRID_SIDE),
        },
{
    let w: u64 = (width as u64 + SMOOTHING_DISTANCE as u64 - 1) / SMOOTHING_DISTANCE as u64 + 1;
    let h: u64 = (height as u64 + SMOOTHING_DISTANCE as u64 - 1) / SMOOTHING_DISTANCE as u64 + 1;
    if w <= MAX_GRID_SIDE as u64 && h <= MAX_GRID_SIDE as u64 {
        let g = GridSize { width: w as usize, height: h as usize };
        assert forall|p: Pos|
            -(width / 2) <= p.x <= width / 2 && -(height / 2) <= p.y <= height / 2
                implies #[trigger] grid_pos_of(p, g) is Some by {
            lemma_region_on_grid(p.x as int, width as int);
            lemma_region_on_grid(p.y as int, height as int);
        }
        Some(g)
    } else {
        None
    }
}

} // verus!
