//! The boid data model, the spatial grid and the per-frame state update.

use std::collections::HashMap;

use rayon::iter::{IndexedParallelIterator, IntoParallelRefIterator, ParallelIterator};
use vstd::prelude::*;

use crate::fixedpoint::{
    abs_i, div_signed, div_trunc, is_isqrt, isqrt_u128, lemma_avg_bound, lemma_component_le_norm,
    lemma_div_le_multiple, lemma_mul_div_bound, lemma_mul_div_cap, lemma_sqrt_floor_props, mul_div,
    mul_div_trunc, sqrt_floor,
};
use crate::{
    dims_valid, params_valid, Parameters, MAX_BOIDS, MAX_DIM, POS_LIMIT, RANGE_LIMIT, SCALE,
    VEL_LIMIT,
};

verus! {

broadcast use vstd::std_specs::hash::group_hash_axioms;

/// A two-dimensional fixed-point vector: each component counts units of
/// `1 / SCALE` world units.
#[derive(Debug, Clone, Copy, PartialEq, Eq, Structural)]
pub struct Vec2 {
    /// Horizontal component, fixed-point.
    pub x: i64,
    /// Vertical component, fixed-point.
    pub y: i64,
}

impl Vec2 {
    /// The vector with both components given.
    pub fn new(x: i64, y: i64) -> (v: Vec2)
        ensures
            v.x == x && v.y == y,
    {
        Vec2 { x, y }
    }

    /// The zero vector.
    pub fn zeros() -> (v: Vec2)
        ensures
            v.x == 0 && v.y == 0,
    {
        Vec2 { x: 0, y: 0 }
    }
}

/// A display colour carried by each boid. The update logic never reads it;
/// it is assigned at creation and preserved verbatim by every frame.
#[derive(Debug, Clone, Copy, PartialEq, Eq, Structural)]
pub struct Colour {
    /// Red channel.
    pub r: u8,
    /// Green channel.
    pub g: u8,
    /// Blue channel.
    pub b: u8,
}

/// One simulated agent.
#[derive(Debug, Clone, Copy, PartialEq, Eq, Structural)]
pub struct Boid {
    /// Stable identity, assigned at creation and never changed by updates.
    pub id: usize,
    /// Position within `[0, width * SCALE) x [0, height * SCALE)`.
    pub pos: Vec2,
    /// Velocity, fixed-point units per frame.
    pub vel: Vec2,
    /// Cached scalar speed emitted by the last update.
    pub current_speed: i64,
    /// Display colour, never read by the update logic.
    pub colour: Colour,
}

impl Boid {
    /// A boid from its parts.
    pub fn new(id: usize, pos: Vec2, vel: Vec2, current_speed: i64, colour: Colour) -> (b: Boid)
        ensures
            b == (Boid { id, pos, vel, current_speed, colour }),
    {
        Boid { id, pos, vel, current_speed, colour }
    }
}

/// A boid whose position lies inside the simulation area and whose velocity
/// components are within the representable limit.
pub open spec fn boid_ok(b: Boid, width: u32, height: u32) -> bool {
    &&& 0 <= b.pos.x < width * SCALE
    &&& 0 <= b.pos.y < height * SCALE
    &&& -VEL_LIMIT <= b.vel.x <= VEL_LIMIT
    &&& -VEL_LIMIT <= b.vel.y <= VEL_LIMIT
}

/// Every boid of the flock satisfies `boid_ok`.
pub open spec fn flock_ok(s: Seq<Boid>, width: u32, height: u32) -> bool {
    forall|i: int| 0 <= i < s.len() ==> boid_ok(#[trigger] s[i], width, height)
}

/// Every boid's position has non-negative components: all the grid needs.
pub open spec fn positions_nonneg(s: Seq<Boid>) -> bool {
    forall|i: int| 0 <= i < s.len() ==> #[trigger] s[i].pos.x >= 0 && s[i].pos.y >= 0
}

/// Horizontal grid cell of a boid: the floor of `pos.x / cell_size`.
pub open spec fn cell_x(b: Boid, cs: int) -> int {
    b.pos.x as int / cs
}

/// Vertical grid cell of a boid.
pub open spec fn cell_y(b: Boid, cs: int) -> int {
    b.pos.y as int / cs
}

/// One integer key for a cell coordinate pair. Both coordinates of an
/// accepted boid are non-negative and below `2^64`, so the packing is
/// injective over them.
pub open spec fn cell_key_of(cx: int, cy: int) -> int {
    cx * 0x1_0000_0000_0000_0000 + cy
}

/// The grid key of the cell a boid falls in.
pub open spec fn boid_cell_key(b: Boid, cs: int) -> int {
    cell_key_of(cell_x(b, cs), cell_y(b, cs))
}

/// Distinct cells get distinct keys.
proof fn lemma_cell_key_injective(cx1: int, cy1: int, cx2: int, cy2: int)
    requires
        0 <= cx1,
        0 <= cy1 < 0x1_0000_0000_0000_0000,
        0 <= cx2,
        0 <= cy2 < 0x1_0000_0000_0000_0000,
        cell_key_of(cx1, cy1) == cell_key_of(cx2, cy2),
    ensures
        cx1 == cx2,
        cy1 == cy2,
{
    let k = cell_key_of(cx1, cy1);
    vstd::arithmetic::div_mod::lemma_fundamental_div_mod_converse(
        k,
        0x1_0000_0000_0000_0000,
        cx1,
        cy1,
    );
    vstd::arithmetic::div_mod::lemma_fundamental_div_mod_converse(
        k,
        0x1_0000_0000_0000_0000,
        cx2,
        cy2,
    );
}

/// The grid key of a position, as the executable code computes it.
fn position_cell_key(px: i64, py: i64, cs: i64) -> (k: u128)
    requires
        0 <= px,
        0 <= py,
        1 <= cs,
    ensures
        k as int == cell_key_of(px as int / cs as int, py as int / cs as int),
{
    let cx = (px as u64) / (cs as u64);
    let cy = (py as u64) / (cs as u64);
    proof {
        assert((cx as int) * 0x1_0000_0000_0000_0000 + cy as int
            <= 0xffff_ffff_ffff_ffff_ffff_ffff_ffff_ffff) by (nonlinear_arith)
            requires
                0 <= cx as int <= 0xffff_ffff_ffff_ffff,
                0 <= cy as int <= 0xffff_ffff_ffff_ffff,
        ;
    }
    (cx as u128) * 0x1_0000_0000_0000_0000 + (cy as u128)
}

/// The slot indices, in slot order, of the first `m` boids whose cell key is
/// `k`: exactly the list the grid stores under `k`.
pub open spec fn indices_in_cell(s: Seq<Boid>, cs: int, k: int, m: nat) -> Seq<usize>
    decreases m,
{
    if m == 0 {
        Seq::empty()
    } else {
        let pre = indices_in_cell(s, cs, k, (m - 1) as nat);
        if boid_cell_key(s[m - 1], cs) == k {
            pre.push((m - 1) as usize)
        } else {
            pre
        }
    }
}

/// A cell no boid among the first `m` falls in has an empty index list.
proof fn lemma_indices_in_cell_empty(s: Seq<Boid>, cs: int, k: int, m: nat)
    requires
        forall|j: int| 0 <= j < m ==> boid_cell_key(#[trigger] s[j], cs) != k,
    ensures
        indices_in_cell(s, cs, k, m) == Seq::<usize>::empty(),
    decreases m,
{
    if m > 0 {
        lemma_indices_in_cell_empty(s, cs, k, (m - 1) as nat);
    }
}

/// The grid `g` is the spatial index of the flock `s` for cell size `cs`:
/// it has an entry for exactly the occupied cells, and each entry lists the
/// slot indices of the boids in that cell, in slot order.
pub open spec fn grid_matches(g: Map<u128, Vec<usize>>, s: Seq<Boid>, cs: int) -> bool {
    &&& forall|k: u128|
        g.contains_key(k) ==> (#[trigger] g[k])@ == indices_in_cell(s, cs, k as int, s.len())
    &&& forall|k: u128|
        g.contains_key(k) <==> exists|j: int|
            0 <= j < s.len() && boid_cell_key(#[trigger] s[j], cs) == k as int
}

/// Build the spatial index: map each occupied cell to the ordered list of
/// slot indices of the boids inside it.
pub fn populate_grid(boids: &Vec<Boid>, cell_size: i64) -> (grid: HashMap<u128, Vec<usize>>)
    requires
        1 <= cell_size,
        positions_nonneg(boids@),
    ensures
        grid_matches(grid@, boids@, cell_size as int),
{
    let ghost s = boids@;
    let ghost cs = cell_size as int;
    let mut grid: HashMap<u128, Vec<usize>> = HashMap::new();
    let mut idx: usize = 0;
    while idx < boids.len()
        invariant
            0 <= idx <= s.len(),
            boids@ == s,
            cs == cell_size as int,
            1 <= cell_size,
            positions_nonneg(s),
            forall|k: u128|
                grid@.contains_key(k) ==> (#[trigger] grid@[k])@ == indices_in_cell(
                    s,
                    cs,
                    k as int,
                    idx as nat,
                ),
            forall|k: u128|
                grid@.contains_key(k) <==> exists|j: int|
                    0 <= j < idx && boid_cell_key(#[trigger] s[j], cs) == k as int,
        decreases s.len() - idx,
    {
        let b = &boids[idx];
        let key = position_cell_key(b.pos.x, b.pos.y, cell_size);
        assert(key as int == boid_cell_key(s[idx as int], cs));
        let ghost g0 = grid@;
        let mut entry = match grid.remove(&key) {
            Some(v) => v,
            None => Vec::new(),
        };
        proof {
            if !g0.contains_key(key) {
                assert(forall|j: int|
                    0 <= j < idx ==> boid_cell_key(#[trigger] s[j], cs) != key as int);
                lemma_indices_in_cell_empty(s, cs, key as int, idx as nat);
            }
        }
        assert(entry@ == indices_in_cell(s, cs, key as int, idx as nat));
        entry.push(idx);
        grid.insert(key, entry);
        assert forall|k: u128| grid@.contains_key(k) implies (#[trigger] grid@[k])@
            == indices_in_cell(s, cs, k as int, (idx + 1) as nat) by {
            if k != key {
                assert(indices_in_cell(s, cs, k as int, (idx + 1) as nat) == indices_in_cell(
                    s,
                    cs,
                    k as int,
                    idx as nat,
                ));
            }
        }
        idx += 1;
    }
    grid
}

/// Every entry of a cell's index list is a valid slot whose boid falls in
/// that cell.
proof fn lemma_indices_in_cell_elems(s: Seq<Boid>, cs: int, k: int, m: nat)
    requires
        m <= usize::MAX,
    ensures
        indices_in_cell(s, cs, k, m).len() <= m,
        forall|q: int|
            0 <= q < indices_in_cell(s, cs, k, m).len() ==> {
                let e = #[trigger] indices_in_cell(s, cs, k, m)[q];
                0 <= e < m && boid_cell_key(s[e as int], cs) == k
            },
    decreases m,
{
    if m > 0 {
        lemma_indices_in_cell_elems(s, cs, k, (m - 1) as nat);
        let pre = indices_in_cell(s, cs, k, (m - 1) as nat);
        let cur = indices_in_cell(s, cs, k, m);
        if boid_cell_key(s[m - 1], cs) == k {
            assert(cur == pre.push((m - 1) as usize));
            assert forall|q: int|
                0 <= q < cur.len() implies {
                let e = #[trigger] cur[q];
                0 <= e < m && boid_cell_key(s[e as int], cs) == k
            } by {
                if q < pre.len() {
                    assert(cur[q] == pre[q]);
                    assert(0 <= pre[q] < m - 1 && boid_cell_key(s[pre[q] as int], cs) == k);
                } else {
                    assert(cur[q] == (m - 1) as usize);
                }
            }
        } else {
            assert(cur == pre);
            assert forall|q: int|
                0 <= q < cur.len() implies {
                let e = #[trigger] cur[q];
                0 <= e < m && boid_cell_key(s[e as int], cs) == k
            } by {
                assert(cur[q] == pre[q]);
                assert(0 <= pre[q] < m - 1 && boid_cell_key(s[pre[q] as int], cs) == k);
            }
        }
    }
}

/// Two cells sharing one scan rank below nine are the same cell.
proof fn lemma_rank_determines_cell(
    s: Seq<Boid>,
    i: int,
    cs: int,
    cx: int,
    cy: int,
    jx: int,
    jy: int,
)
    requires
        cell_rank(s, i, cs, cx, cy) < 9,
        cell_rank(s, i, cs, cx, cy) == cell_rank(s, i, cs, jx, jy),
    ensures
        jx == cx && jy == cy,
{
}

/// `accum_add` distributes over the left summand of `accum_plus`.
proof fn lemma_add_plus_left(a: ScanAccum, b: ScanAccum, s: Seq<Boid>, i: int, j: int, p: Parameters)
    ensures
        accum_add(accum_plus(a, b), s, i, j, p) == accum_plus(accum_add(a, s, i, j, p), b),
{
}

/// `accum_add` distributes over the right summand of `accum_plus`.
proof fn lemma_add_plus_right(
    a: ScanAccum,
    b: ScanAccum,
    s: Seq<Boid>,
    i: int,
    j: int,
    p: Parameters,
)
    ensures
        accum_add(accum_plus(a, b), s, i, j, p) == accum_plus(a, accum_add(b, s, i, j, p)),
{
}

/// Horizontal offset from boid `j` to boid `i`.
pub open spec fn off_x(s: Seq<Boid>, i: int, j: int) -> int {
    s[i].pos.x - s[j].pos.x
}

/// Vertical offset from boid `j` to boid `i`.
pub open spec fn off_y(s: Seq<Boid>, i: int, j: int) -> int {
    s[i].pos.y - s[j].pos.y
}

/// Squared Euclidean distance between boids `i` and `j`.
pub open spec fn dist_sq(s: Seq<Boid>, i: int, j: int) -> int {
    off_x(s, i, j) * off_x(s, i, j) + off_y(s, i, j) * off_y(s, i, j)
}

/// The box pre-filter: both offset components strictly below the visible
/// range. A deliberate square approximation of the circular cutoff.
pub open spec fn in_visible_box(s: Seq<Boid>, i: int, j: int, p: Parameters) -> bool {
    &&& abs_i(off_x(s, i, j)) < p.visible_range
    &&& abs_i(off_y(s, i, j)) < p.visible_range
}

/// The position of a candidate cell in the scan order around boid `i`'s own
/// cell: cell `(cell_x(i) + dx, cell_y(i) + dy)` with `dx, dy` in `[-1, 1]`
/// has rank `(dx + 1) * 3 + (dy + 1)`; any other cell ranks 9 and is never
/// scanned.
pub open spec fn cell_rank(s: Seq<Boid>, i: int, cs: int, cx: int, cy: int) -> int {
    let dx = cx - cell_x(s[i], cs);
    let dy = cy - cell_y(s[i], cs);
    if -1 <= dx <= 1 && -1 <= dy <= 1 {
        (dx + 1) * 3 + (dy + 1)
    } else {
        9
    }
}

/// The scan rank of boid `j`'s cell relative to boid `i`'s.
pub open spec fn scan_rank(s: Seq<Boid>, i: int, j: int, cs: int) -> int {
    cell_rank(s, i, cs, cell_x(s[j], cs), cell_y(s[j], cs))
}

/// Boid `j` lies in the 3x3 block of cells the scan for boid `i` visits.
pub open spec fn in_scan_block(s: Seq<Boid>, i: int, j: int, cs: int) -> bool {
    scan_rank(s, i, j, cs) < 9
}

/// Boid `j` drives separation for boid `i`: a scanned, box-filtered
/// candidate strictly inside the protected range.
pub open spec fn is_close(s: Seq<Boid>, i: int, j: int, p: Parameters) -> bool {
    &&& j != i
    &&& in_scan_block(s, i, j, p.cell_size as int)
    &&& in_visible_box(s, i, j, p)
    &&& dist_sq(s, i, j) < p.protected_range * p.protected_range
}

/// Boid `j` drives alignment and cohesion for boid `i`: a scanned,
/// box-filtered candidate at or beyond the protected range but strictly
/// inside the visible range.
pub open spec fn is_visible(s: Seq<Boid>, i: int, j: int, p: Parameters) -> bool {
    &&& j != i
    &&& in_scan_block(s, i, j, p.cell_size as int)
    &&& in_visible_box(s, i, j, p)
    &&& !(dist_sq(s, i, j) < p.protected_range * p.protected_range)
    &&& dist_sq(s, i, j) < p.visible_range * p.visible_range
}

/// The running sums a neighbour scan accumulates.
pub ghost struct ScanAccum {
    /// Sum of offsets to boids inside the protected range.
    pub close_x: int,
    /// Sum of offsets to boids inside the protected range.
    pub close_y: int,
    /// Sum of visible neighbours' horizontal positions.
    pub pos_x_sum: int,
    /// Sum of visible neighbours' vertical positions.
    pub pos_y_sum: int,
    /// Sum of visible neighbours' horizontal velocities.
    pub vel_x_sum: int,
    /// Sum of visible neighbours' vertical velocities.
    pub vel_y_sum: int,
    /// Number of visible neighbours.
    pub neighbours: int,
    /// Number of boids that contributed to any sum.
    pub contributions: int,
}

/// The empty accumulation.
pub open spec fn accum_zero() -> ScanAccum {
    ScanAccum {
        close_x: 0,
        close_y: 0,
        pos_x_sum: 0,
        pos_y_sum: 0,
        vel_x_sum: 0,
        vel_y_sum: 0,
        neighbours: 0,
        contributions: 0,
    }
}

/// Add boid `j`'s contribution for boid `i` to an accumulation: its offset
/// if it is close, its position and velocity if it is visible, nothing
/// otherwise.
pub open spec fn accum_add(a: ScanAccum, s: Seq<Boid>, i: int, j: int, p: Parameters) -> ScanAccum {
    if is_close(s, i, j, p) {
        ScanAccum {
            close_x: a.close_x + off_x(s, i, j),
            close_y: a.close_y + off_y(s, i, j),
            contributions: a.contributions + 1,
            ..a
        }
    } else if is_visible(s, i, j, p) {
        ScanAccum {
            pos_x_sum: a.pos_x_sum + s[j].pos.x,
            pos_y_sum: a.pos_y_sum + s[j].pos.y,
            vel_x_sum: a.vel_x_sum + s[j].vel.x,
            vel_y_sum: a.vel_y_sum + s[j].vel.y,
            neighbours: a.neighbours + 1,
            contributions: a.contributions + 1,
            ..a
        }
    } else {
        a
    }
}

/// Fieldwise sum of two accumulations.
pub open spec fn accum_plus(a: ScanAccum, b: ScanAccum) -> ScanAccum {
    ScanAccum {
        close_x: a.close_x + b.close_x,
        close_y: a.close_y + b.close_y,
        pos_x_sum: a.pos_x_sum + b.pos_x_sum,
        pos_y_sum: a.pos_y_sum + b.pos_y_sum,
        vel_x_sum: a.vel_x_sum + b.vel_x_sum,
        vel_y_sum: a.vel_y_sum + b.vel_y_sum,
        neighbours: a.neighbours + b.neighbours,
        contributions: a.contributions + b.contributions,
    }
}

/// The accumulation for boid `i` over the first `m` boids, restricted to
/// candidates whose cell ranks strictly below `done` in the scan order.
pub open spec fn accum_upto(s: Seq<Boid>, i: int, p: Parameters, m: nat, done: int) -> ScanAccum
    decreases m,
{
    if m == 0 {
        accum_zero()
    } else {
        let pre = accum_upto(s, i, p, (m - 1) as nat, done);
        if scan_rank(s, i, m - 1, p.cell_size as int) < done {
            accum_add(pre, s, i, m - 1, p)
        } else {
            pre
        }
    }
}

/// The complete neighbour scan for boid `i`: every boid of the flock whose
/// cell lies in the 3x3 block, filtered and routed by distance.
pub open spec fn scan_of(s: Seq<Boid>, i: int, p: Parameters) -> ScanAccum {
    accum_upto(s, i, p, s.len(), 9)
}

/// The accumulation over an explicit list of candidate slots, in order.
pub open spec fn accum_list(s: Seq<Boid>, i: int, p: Parameters, l: Seq<usize>) -> ScanAccum
    decreases l.len(),
{
    if l.len() == 0 {
        accum_zero()
    } else {
        accum_add(accum_list(s, i, p, l.drop_last()), s, i, l.last() as int, p)
    }
}

/// Appending one candidate extends the list accumulation by one step.
proof fn lemma_accum_list_push(s: Seq<Boid>, i: int, p: Parameters, l: Seq<usize>, u: usize)
    ensures
        accum_list(s, i, p, l.push(u)) == accum_add(accum_list(s, i, p, l), s, i, u as int, p),
{
    assert(l.push(u).drop_last() =~= l);
    assert(l.push(u).last() == u);
}

/// No cell ranks below zero, so nothing accumulates before the first step.
proof fn lemma_accum_upto_zero(s: Seq<Boid>, i: int, p: Parameters, m: nat)
    ensures
        accum_upto(s, i, p, m, 0) == accum_zero(),
    decreases m,
{
    if m > 0 {
        lemma_accum_upto_zero(s, i, p, (m - 1) as nat);
    }
}

/// A scan step that no boid ranks at adds nothing.
proof fn lemma_accum_rank_skip(s: Seq<Boid>, i: int, p: Parameters, m: nat, done: int)
    requires
        forall|j: int| 0 <= j < m ==> scan_rank(s, i, j, p.cell_size as int) != done,
    ensures
        accum_upto(s, i, p, m, done + 1) == accum_upto(s, i, p, m, done),
    decreases m,
{
    if m > 0 {
        lemma_accum_rank_skip(s, i, p, (m - 1) as nat, done);
    }
}

/// Scanning one more cell adds exactly the accumulation over that cell's
/// index list: the heart of the grid scan's correctness.
proof fn lemma_accum_cell_step(
    s: Seq<Boid>,
    i: int,
    p: Parameters,
    m: nat,
    done: int,
    cx: int,
    cy: int,
)
    requires
        positions_nonneg(s),
        m <= s.len(),
        m <= usize::MAX,
        1 <= p.cell_size,
        0 <= i < s.len(),
        0 <= done < 9,
        0 <= cx < 0x1_0000_0000_0000_0000,
        0 <= cy < 0x1_0000_0000_0000_0000,
        cell_rank(s, i, p.cell_size as int, cx, cy) == done,
        forall|j: int|
            0 <= j < s.len() ==> cell_y(#[trigger] s[j], p.cell_size as int)
                < 0x1_0000_0000_0000_0000,
    ensures
        accum_upto(s, i, p, m, done + 1) == accum_plus(
            accum_upto(s, i, p, m, done),
            accum_list(s, i, p, indices_in_cell(s, p.cell_size as int, cell_key_of(cx, cy), m)),
        ),
    decreases m,
{
    let cs = p.cell_size as int;
    let k = cell_key_of(cx, cy);
    if m == 0 {
        assert(accum_plus(accum_zero(), accum_zero()) == accum_zero());
    } else {
        lemma_accum_cell_step(s, i, p, (m - 1) as nat, done, cx, cy);
        let j = m - 1;
        let pre_hi = accum_upto(s, i, p, (m - 1) as nat, done + 1);
        let pre_lo = accum_upto(s, i, p, (m - 1) as nat, done);
        let pre_list = indices_in_cell(s, cs, k, (m - 1) as nat);
        assert(pre_hi == accum_plus(pre_lo, accum_list(s, i, p, pre_list)));
        assert(cell_x(s[j], cs) >= 0 && cell_y(s[j], cs) >= 0) by (nonlinear_arith)
            requires
                s[j].pos.x >= 0,
                s[j].pos.y >= 0,
                cs >= 1,
                cell_x(s[j], cs) == s[j].pos.x as int / cs,
                cell_y(s[j], cs) == s[j].pos.y as int / cs,
        ;
        // Ranking at `done` and falling in the cell `(cx, cy)` coincide.
        if boid_cell_key(s[j], cs) == k {
            lemma_cell_key_injective(cell_x(s[j], cs), cell_y(s[j], cs), cx, cy);
            assert(scan_rank(s, i, j, cs) == done);
            assert(indices_in_cell(s, cs, k, m) == pre_list.push(j as usize));
            lemma_accum_list_push(s, i, p, pre_list, j as usize);
            lemma_add_plus_right(pre_lo, accum_list(s, i, p, pre_list), s, i, j, p);
            assert(accum_upto(s, i, p, m, done + 1) == accum_add(pre_hi, s, i, j, p));
            assert(accum_upto(s, i, p, m, done) == pre_lo);
        } else {
            if scan_rank(s, i, j, cs) == done {
                lemma_rank_determines_cell(s, i, cs, cx, cy, cell_x(s[j], cs), cell_y(s[j], cs));
                assert(false);
            }
            assert(indices_in_cell(s, cs, k, m) == pre_list);
            if scan_rank(s, i, j, cs) < done {
                lemma_add_plus_left(pre_lo, accum_list(s, i, p, pre_list), s, i, j, p);
                assert(accum_upto(s, i, p, m, done + 1) == accum_add(pre_hi, s, i, j, p));
                assert(accum_upto(s, i, p, m, done) == accum_add(pre_lo, s, i, j, p));
            } else {
                assert(accum_upto(s, i, p, m, done + 1) == pre_hi);
                assert(accum_upto(s, i, p, m, done) == pre_lo);
            }
        }
    }
}

/// Boids already counted and boids waiting in a yet-unscanned cell are
/// disjoint, so together they never exceed the flock.
proof fn lemma_upto_cell_count(
    s: Seq<Boid>,
    i: int,
    p: Parameters,
    m: nat,
    done: int,
    cx: int,
    cy: int,
)
    requires
        positions_nonneg(s),
        m <= s.len(),
        m <= usize::MAX,
        1 <= p.cell_size,
        0 <= i < s.len(),
        0 <= done < 9,
        0 <= cx < 0x1_0000_0000_0000_0000,
        0 <= cy < 0x1_0000_0000_0000_0000,
        cell_rank(s, i, p.cell_size as int, cx, cy) == done,
    ensures
        accum_upto(s, i, p, m, done).contributions + indices_in_cell(
            s,
            p.cell_size as int,
            cell_key_of(cx, cy),
            m,
        ).len() <= m,
        accum_upto(s, i, p, m, done).contributions >= 0,
    decreases m,
{
    let cs = p.cell_size as int;
    let k = cell_key_of(cx, cy);
    if m > 0 {
        lemma_upto_cell_count(s, i, p, (m - 1) as nat, done, cx, cy);
        let j = m - 1;
        if boid_cell_key(s[j], cs) == k {
            assert(cell_y(s[j], cs) >= 0 && cell_x(s[j], cs) >= 0) by (nonlinear_arith)
                requires
                    s[j].pos.x >= 0,
                    s[j].pos.y >= 0,
                    cs >= 1,
                    cell_x(s[j], cs) == s[j].pos.x as int / cs,
                    cell_y(s[j], cs) == s[j].pos.y as int / cs,
            ;
            lemma_cell_key_injective(cell_x(s[j], cs), cell_y(s[j], cs), cx, cy);
            assert(scan_rank(s, i, j, cs) == done);
        }
    }
}

/// Every accumulator field stays within its linear bound: close offsets grow
/// by less than the visible range, position and velocity sums by at most one
/// in-area boid's worth per visible neighbour.
pub open spec fn accum_fields_ok(a: ScanAccum) -> bool {
    &&& 0 <= a.neighbours <= a.contributions
    &&& abs_i(a.close_x) <= a.contributions * (RANGE_LIMIT as int)
    &&& abs_i(a.close_y) <= a.contributions * (RANGE_LIMIT as int)
    &&& 0 <= a.pos_x_sum <= a.neighbours * (POS_LIMIT as int)
    &&& 0 <= a.pos_y_sum <= a.neighbours * (POS_LIMIT as int)
    &&& abs_i(a.vel_x_sum) <= a.neighbours * (VEL_LIMIT as int)
    &&& abs_i(a.vel_y_sum) <= a.neighbours * (VEL_LIMIT as int)
}

/// One scan contribution preserves the field bounds.
proof fn lemma_accum_add_fields(
    a: ScanAccum,
    s: Seq<Boid>,
    i: int,
    j: int,
    p: Parameters,
    width: u32,
    height: u32,
)
    requires
        accum_fields_ok(a),
        params_valid(p),
        width <= MAX_DIM,
        height <= MAX_DIM,
        0 <= j < s.len(),
        boid_ok(s[j], width, height),
    ensures
        accum_fields_ok(accum_add(a, s, i, j, p)),
        a.contributions <= accum_add(a, s, i, j, p).contributions <= a.contributions + 1,
        a.neighbours <= accum_add(a, s, i, j, p).neighbours <= a.neighbours + 1,
{
}

/// The restricted accumulation keeps its field bounds, with at most one
/// contribution per boid considered.
proof fn lemma_accum_upto_fields(
    s: Seq<Boid>,
    i: int,
    p: Parameters,
    width: u32,
    height: u32,
    m: nat,
    done: int,
)
    requires
        params_valid(p),
        width <= MAX_DIM,
        height <= MAX_DIM,
        flock_ok(s, width, height),
        m <= s.len(),
    ensures
        accum_fields_ok(accum_upto(s, i, p, m, done)),
        accum_upto(s, i, p, m, done).contributions <= m,
    decreases m,
{
    if m > 0 {
        lemma_accum_upto_fields(s, i, p, width, height, (m - 1) as nat, done);
        if scan_rank(s, i, m - 1, p.cell_size as int) < done {
            lemma_accum_add_fields(
                accum_upto(s, i, p, (m - 1) as nat, done),
                s,
                i,
                m - 1,
                p,
                width,
                height,
            );
        }
    }
}

/// The fieldwise sum of two bounded accumulations is bounded.
proof fn lemma_accum_plus_fields(a: ScanAccum, b: ScanAccum)
    requires
        accum_fields_ok(a),
        accum_fields_ok(b),
    ensures
        accum_fields_ok(accum_plus(a, b)),
{
}

/// The list accumulation over valid slots keeps its field bounds, with at
/// most one contribution per listed slot.
proof fn lemma_accum_list_fields(
    s: Seq<Boid>,
    i: int,
    p: Parameters,
    width: u32,
    height: u32,
    l: Seq<usize>,
)
    requires
        params_valid(p),
        width <= MAX_DIM,
        height <= MAX_DIM,
        flock_ok(s, width, height),
        forall|q: int| 0 <= q < l.len() ==> 0 <= #[trigger] l[q] < s.len(),
    ensures
        accum_fields_ok(accum_list(s, i, p, l)),
        accum_list(s, i, p, l).contributions <= l.len(),
    decreases l.len(),
{
    if l.len() > 0 {
        lemma_accum_list_fields(s, i, p, width, height, l.drop_last());
        lemma_accum_add_fields(
            accum_list(s, i, p, l.drop_last()),
            s,
            i,
            l.last() as int,
            p,
            width,
            height,
        );
    }
}

/// The running totals of one boid's neighbour scan, as the executable code
/// carries them.
struct ScanTotals {
    close_x: i64,
    close_y: i64,
    pos_x_sum: i64,
    pos_y_sum: i64,
    vel_x_sum: i64,
    vel_y_sum: i64,
    neighbours: usize,
}

/// The executable totals match an accumulation, field for field.
spec fn totals_match(t: ScanTotals, a: ScanAccum) -> bool {
    &&& t.close_x as int == a.close_x
    &&& t.close_y as int == a.close_y
    &&& t.pos_x_sum as int == a.pos_x_sum
    &&& t.pos_y_sum as int == a.pos_y_sum
    &&& t.vel_x_sum as int == a.vel_x_sum
    &&& t.vel_y_sum as int == a.vel_y_sum
    &&& t.neighbours as int == a.neighbours
}

/// One integer key for a cell coordinate pair, as the grid stores it.
fn cell_key_from(cx: u64, cy: u64) -> (k: u128)
    ensures
        k as int == cell_key_of(cx as int, cy as int),
{
    proof {
        assert((cx as int) * 0x1_0000_0000_0000_0000 + cy as int
            <= 0xffff_ffff_ffff_ffff_ffff_ffff_ffff_ffff) by (nonlinear_arith)
            requires
                0 <= cx as int <= 0xffff_ffff_ffff_ffff,
                0 <= cy as int <= 0xffff_ffff_ffff_ffff,
        ;
    }
    (cx as u128) * 0x1_0000_0000_0000_0000 + (cy as u128)
}

/// Scan the 3x3 block of grid cells around boid `i`'s cell and accumulate
/// every other boid found there, routed by the box pre-filter and the two
/// squared-distance tests.
fn scan_neighbours(
    boids: &Vec<Boid>,
    grid: &HashMap<u128, Vec<usize>>,
    i: usize,
    p: &Parameters,
    width: u32,
    height: u32,
) -> (t: ScanTotals)
    requires
        params_valid(*p),
        width <= MAX_DIM,
        height <= MAX_DIM,
        flock_ok(boids@, width, height),
        boids@.len() <= MAX_BOIDS,
        i < boids@.len(),
        grid_matches(grid@, boids@, p.cell_size as int),
    ensures
        totals_match(t, scan_of(boids@, i as int, *p)),
{
    let ghost s = boids@;
    let ghost n = s.len();
    let ghost cs = p.cell_size as int;
    let b_px = boids[i].pos.x;
    let b_py = boids[i].pos.y;
    let cix = (b_px as u64) / (p.cell_size as u64);
    let ciy = (b_py as u64) / (p.cell_size as u64);
    assert(cix as int == cell_x(s[i as int], cs));
    assert(ciy as int == cell_y(s[i as int], cs));
    let vr = p.visible_range;
    proof {
        assert(0 <= (p.protected_range as int) * (p.protected_range as int)
            <= 1_000_000_000_000_000_000 && 0 <= (p.visible_range as int) * (
        p.visible_range as int) <= 1_000_000_000_000_000_000) by (nonlinear_arith)
            requires
                0 <= p.protected_range as int <= 1_000_000_000,
                0 <= p.visible_range as int <= 1_000_000_000,
        ;
    }
    let pr2: i128 = (p.protected_range as i128) * (p.protected_range as i128);
    let vr2: i128 = (p.visible_range as i128) * (p.visible_range as i128);
    let mut t = ScanTotals {
        close_x: 0,
        close_y: 0,
        pos_x_sum: 0,
        pos_y_sum: 0,
        vel_x_sum: 0,
        vel_y_sum: 0,
        neighbours: 0,
    };
    proof {
        lemma_accum_upto_zero(s, i as int, *p, n);
    }
    let mut dxi: u64 = 0;
    while dxi < 3
        invariant
            0 <= dxi <= 3,
            boids@ == s,
            n == s.len(),
            cs == p.cell_size as int,
            params_valid(*p),
            width <= MAX_DIM,
            height <= MAX_DIM,
            flock_ok(s, width, height),
            n <= MAX_BOIDS,
            i < n,
            grid_matches(grid@, s, cs),
            cix as int == cell_x(s[i as int], cs),
            ciy as int == cell_y(s[i as int], cs),
            b_px == s[i as int].pos.x,
            b_py == s[i as int].pos.y,
            vr == p.visible_range,
            pr2 as int == (p.protected_range as int) * (p.protected_range as int),
            vr2 as int == (p.visible_range as int) * (p.visible_range as int),
            totals_match(t, accum_upto(s, i as int, *p, n, 3 * dxi as int)),
        decreases 3 - dxi,
    {
        let mut dyi: u64 = 0;
        while dyi < 3
            invariant
                0 <= dxi < 3,
                0 <= dyi <= 3,
                boids@ == s,
                n == s.len(),
                cs == p.cell_size as int,
                params_valid(*p),
                width <= MAX_DIM,
                height <= MAX_DIM,
                flock_ok(s, width, height),
                n <= MAX_BOIDS,
                i < n,
                grid_matches(grid@, s, cs),
                cix as int == cell_x(s[i as int], cs),
                ciy as int == cell_y(s[i as int], cs),
                b_px == s[i as int].pos.x,
                b_py == s[i as int].pos.y,
                vr == p.visible_range,
                pr2 as int == (p.protected_range as int) * (p.protected_range as int),
                vr2 as int == (p.visible_range as int) * (p.visible_range as int),
                totals_match(t, accum_upto(s, i as int, *p, n, 3 * dxi as int + dyi as int)),
            decreases 3 - dyi,
        {
            let ghost done: int = 3 * dxi as int + dyi as int;
            proof {
                assert(cix as int <= b_px as int && ciy as int <= b_py as int) by (nonlinear_arith)
                    requires
                        cix as int == (b_px as int) / (cs as int),
                        ciy as int == (b_py as int) / (cs as int),
                        b_px >= 0,
                        b_py >= 0,
                        cs >= 1,
                ;
            }
            if (dxi == 0 && cix == 0) || (dyi == 0 && ciy == 0) {
                // A cell with a negative coordinate: no boid can fall in it.
                proof {
                    let cx = cix as int + dxi as int - 1;
                    let cy = ciy as int + dyi as int - 1;
                    assert(cell_rank(s, i as int, cs, cx, cy) == done);
                    assert forall|j: int|
                        0 <= j < n implies scan_rank(s, i as int, j, cs) != done by {
                        assert(cell_x(s[j], cs) >= 0 && cell_y(s[j], cs) >= 0) by (nonlinear_arith)
                            requires
                                s[j].pos.x >= 0,
                                s[j].pos.y >= 0,
                                cs >= 1,
                                cell_x(s[j], cs) == s[j].pos.x as int / cs,
                                cell_y(s[j], cs) == s[j].pos.y as int / cs,
                        ;
                        if scan_rank(s, i as int, j, cs) == done {
                            lemma_rank_determines_cell(
                                s,
                                i as int,
                                cs,
                                cx,
                                cy,
                                cell_x(s[j], cs),
                                cell_y(s[j], cs),
                            );
                        }
                    }
                    lemma_accum_rank_skip(s, i as int, *p, n, done);
                }
            } else {
                let cx = cix + dxi - 1;
                let cy = ciy + dyi - 1;
                let key = cell_key_from(cx, cy);
                proof {
                    assert(cell_rank(s, i as int, cs, cx as int, cy as int) == done);
                }
                match grid.get(&key) {
                    None => {
                        // An empty cell: no boid of the flock falls in it.
                        proof {
                            assert forall|j: int|
                                0 <= j < n implies scan_rank(s, i as int, j, cs) != done by {
                                assert(cell_x(s[j], cs) >= 0 && cell_y(s[j], cs) >= 0)
                                    by (nonlinear_arith)
                                    requires
                                        s[j].pos.x >= 0,
                                        s[j].pos.y >= 0,
                                        cs >= 1,
                                        cell_x(s[j], cs) == s[j].pos.x as int / cs,
                                        cell_y(s[j], cs) == s[j].pos.y as int / cs,
                                ;
                                if scan_rank(s, i as int, j, cs) == done {
                                    lemma_rank_determines_cell(
                                        s,
                                        i as int,
                                        cs,
                                        cx as int,
                                        cy as int,
                                        cell_x(s[j], cs),
                                        cell_y(s[j], cs),
                                    );
                                    assert(boid_cell_key(s[j], cs) == key as int);
                                }
                            }
                            lemma_accum_rank_skip(s, i as int, *p, n, done);
                        }
                    },
                    Some(list) => {
                        proof {
                            assert(list@ == indices_in_cell(s, cs, key as int, n));
                            lemma_indices_in_cell_elems(s, cs, key as int, n);
                            lemma_upto_cell_count(
                                s,
                                i as int,
                                *p,
                                n,
                                done,
                                cx as int,
                                cy as int,
                            );
                            lemma_accum_upto_fields(s, i as int, *p, width, height, n, done);
                        }
                        let mut q: usize = 0;
                        while q < list.len()
                            invariant
                                0 <= q <= list@.len(),
                                boids@ == s,
                                n == s.len(),
                                cs == p.cell_size as int,
                                params_valid(*p),
                                width <= MAX_DIM,
                                height <= MAX_DIM,
                                flock_ok(s, width, height),
                                n <= MAX_BOIDS,
                                i < n,
                                cix as int == cell_x(s[i as int], cs),
                                ciy as int == cell_y(s[i as int], cs),
                                b_px == s[i as int].pos.x,
                                b_py == s[i as int].pos.y,
                                vr == p.visible_range,
                                pr2 as int == (p.protected_range as int) * (
                                p.protected_range as int),
                                vr2 as int == (p.visible_range as int) * (p.visible_range as int),
                                0 <= done < 9,
                                (cx as int) < 0x1_0000_0000_0000_0000,
                                (cy as int) < 0x1_0000_0000_0000_0000,
                                cell_rank(s, i as int, cs, cx as int, cy as int) == done,
                                key as int == cell_key_of(cx as int, cy as int),
                                list@ == indices_in_cell(s, cs, key as int, n),
                                forall|r: int|
                                    0 <= r < list@.len() ==> {
                                        let e = #[trigger] list@[r];
                                        0 <= e < n && boid_cell_key(s[e as int], cs)
                                            == key as int
                                    },
                                accum_upto(s, i as int, *p, n, done).contributions + list@.len()
                                    <= n,
                                totals_match(
                                    t,
                                    accum_plus(
                                        accum_upto(s, i as int, *p, n, done),
                                        accum_list(s, i as int, *p, list@.take(q as int)),
                                    ),
                                ),
                            decreases list@.len() - q,
                        {
                            let ghost base = accum_upto(s, i as int, *p, n, done);
                            let ghost partial = accum_list(s, i as int, *p, list@.take(q as int));
                            let ghost cur = accum_plus(base, partial);
                            proof {
                                lemma_accum_upto_fields(s, i as int, *p, width, height, n, done);
                                assert forall|r: int|
                                    0 <= r < list@.take(q as int).len() implies 0 <= #[trigger] list@.take(
                                    q as int,
                                )[r] < s.len() by {
                                    assert(list@.take(q as int)[r] == list@[r]);
                                }
                                lemma_accum_list_fields(
                                    s,
                                    i as int,
                                    *p,
                                    width,
                                    height,
                                    list@.take(q as int),
                                );
                                lemma_accum_plus_fields(base, partial);
                                assert(cur.contributions + 1 <= n);
                            }
                            let u = list[q];
                            assert(u < boids.len());
                            let ghost uj = u as int;
                            proof {
                                // The listed boid's cell ranks exactly at this
                                // scan step, so it is in the scan block.
                                assert(boid_cell_key(s[uj], cs) == key as int);
                                assert(cell_x(s[uj], cs) >= 0 && cell_y(s[uj], cs) >= 0)
                                    by (nonlinear_arith)
                                    requires
                                        s[uj].pos.x >= 0,
                                        s[uj].pos.y >= 0,
                                        cs >= 1,
                                        cell_x(s[uj], cs) == s[uj].pos.x as int / cs,
                                        cell_y(s[uj], cs) == s[uj].pos.y as int / cs,
                                ;
                                lemma_cell_key_injective(
                                    cell_x(s[uj], cs),
                                    cell_y(s[uj], cs),
                                    cx as int,
                                    cy as int,
                                );
                                assert(scan_rank(s, i as int, uj, cs) == done);
                                assert(in_scan_block(s, i as int, uj, cs));
                            }
                            if u != i {
                                let ob = &boids[u];
                                let ox = b_px - ob.pos.x;
                                let oy = b_py - ob.pos.y;
                                assert(ox as int == off_x(s, i as int, uj));
                                assert(oy as int == off_y(s, i as int, uj));
                                if -vr < ox && ox < vr && -vr < oy && oy < vr {
                                    assert(in_visible_box(s, i as int, uj, *p));
                                    proof {
                                        assert(0 <= (ox as int) * (ox as int)
                                            <= 1_000_000_000_000_000_000 && 0 <= (oy as int) * (
                                        oy as int) <= 1_000_000_000_000_000_000)
                                            by (nonlinear_arith)
                                            requires
                                                -1_000_000_000 <= ox as int <= 1_000_000_000,
                                                -1_000_000_000 <= oy as int <= 1_000_000_000,
                                        ;
                                    }
                                    let dsq: i128 = (ox as i128) * (ox as i128) + (oy as i128) * (
                                    oy as i128);
                                    assert(dsq as int == dist_sq(s, i as int, uj));
                                    if dsq < pr2 {
                                        assert(is_close(s, i as int, uj, *p));
                                        t.close_x = t.close_x + ox;
                                        t.close_y = t.close_y + oy;
                                    } else if dsq < vr2 {
                                        assert(is_visible(s, i as int, uj, *p));
                                        t.pos_x_sum = t.pos_x_sum + ob.pos.x;
                                        t.pos_y_sum = t.pos_y_sum + ob.pos.y;
                                        t.vel_x_sum = t.vel_x_sum + ob.vel.x;
                                        t.vel_y_sum = t.vel_y_sum + ob.vel.y;
                                        t.neighbours = t.neighbours + 1;
                                    } else {
                                        assert(!is_close(s, i as int, uj, *p));
                                        assert(!is_visible(s, i as int, uj, *p));
                                    }
                                } else {
                                    assert(!in_visible_box(s, i as int, uj, *p));
                                }
                            }
                            proof {
                                assert(list@.take(q as int + 1) =~= list@.take(q as int).push(u));
                                lemma_accum_list_push(s, i as int, *p, list@.take(q as int), u);
                                assert(totals_match(
                                    t,
                                    accum_plus(
                                        base,
                                        accum_list(s, i as int, *p, list@.take(q as int + 1)),
                                    ),
                                ));
                            }
                            q += 1;
                        }
                        proof {
                            assert(list@.take(list@.len() as int) =~= list@);
                            lemma_accum_cell_step(s, i as int, *p, n, done, cx as int, cy as int);
                        }
                    },
                }
            }
            dyi += 1;
        }
        dxi += 1;
    }
    assert(totals_match(t, accum_upto(s, i as int, *p, n, 9)));
    t
}

/// Boid `i`'s velocity after the three flocking forces: cohesion pulls
/// toward the average visible-neighbour position, alignment nudges toward
/// their average velocity, and separation adds the summed close offsets,
/// each scaled by its factor.
pub open spec fn desired_vel_x(s: Seq<Boid>, i: int, p: Parameters) -> int {
    let a = scan_of(s, i, p);
    let with_nb = if a.neighbours > 0 {
        s[i].vel.x + mul_div_trunc(
            div_trunc(a.pos_x_sum, a.neighbours) - s[i].pos.x,
            p.centering_factor as int,
            SCALE as int,
        ) + mul_div_trunc(
            div_trunc(a.vel_x_sum, a.neighbours) - s[i].vel.x,
            p.matching_factor as int,
            SCALE as int,
        )
    } else {
        s[i].vel.x as int
    };
    with_nb + mul_div_trunc(a.close_x, p.avoid_factor as int, SCALE as int)
}

/// Vertical counterpart of `desired_vel_x`.
pub open spec fn desired_vel_y(s: Seq<Boid>, i: int, p: Parameters) -> int {
    let a = scan_of(s, i, p);
    let with_nb = if a.neighbours > 0 {
        s[i].vel.y + mul_div_trunc(
            div_trunc(a.pos_y_sum, a.neighbours) - s[i].pos.y,
            p.centering_factor as int,
            SCALE as int,
        ) + mul_div_trunc(
            div_trunc(a.vel_y_sum, a.neighbours) - s[i].vel.y,
            p.matching_factor as int,
            SCALE as int,
        )
    } else {
        s[i].vel.y as int
    };
    with_nb + mul_div_trunc(a.close_y, p.avoid_factor as int, SCALE as int)
}

/// The horizontal boundary nudge: toward the interior by `turn_factor` when
/// within `margin` of the left or right edge. A boid inside both margins
/// (a very wide margin) receives both nudges.
pub open spec fn turn_dx(s: Seq<Boid>, i: int, p: Parameters, width: u32) -> int {
    (if s[i].pos.x as int > (width as int - p.margin as int) * (SCALE as int) {
        -(p.turn_factor as int)
    } else {
        0
    }) + (if (s[i].pos.x as int) < (p.margin as int) * (SCALE as int) {
        p.turn_factor as int
    } else {
        0
    })
}

/// The vertical boundary nudge.
pub open spec fn turn_dy(s: Seq<Boid>, i: int, p: Parameters, height: u32) -> int {
    (if s[i].pos.y as int > (height as int - p.margin as int) * (SCALE as int) {
        -(p.turn_factor as int)
    } else {
        0
    }) + (if (s[i].pos.y as int) < (p.margin as int) * (SCALE as int) {
        p.turn_factor as int
    } else {
        0
    })
}

/// Velocity after forces and boundary turning, before the speed clamp.
pub open spec fn turned_vel_x(s: Seq<Boid>, i: int, p: Parameters, width: u32) -> int {
    desired_vel_x(s, i, p) + turn_dx(s, i, p, width)
}

/// Vertical counterpart of `turned_vel_x`.
pub open spec fn turned_vel_y(s: Seq<Boid>, i: int, p: Parameters, height: u32) -> int {
    desired_vel_y(s, i, p) + turn_dy(s, i, p, height)
}

/// One position axis clamped to the simulation area: negative values to 0,
/// values at or past the upper edge to `(dim - 1) * SCALE`.
pub open spec fn clamp_pos_axis(v: int, dim: int) -> int {
    if v < 0 {
        0
    } else if v >= dim * (SCALE as int) {
        (dim - 1) * (SCALE as int)
    } else {
        v
    }
}

/// Boid `i` stands still after forces and turning, which is the one case
/// whose outcome is randomized (when a positive floor speed is set).
pub open spec fn stationary_case(s: Seq<Boid>, i: int, p: Parameters, width: u32, height: u32) -> bool {
    turned_vel_x(s, i, p, width) == 0 && turned_vel_y(s, i, p, height) == 0
}

/// The complete per-boid frame contract: `nb` is a legal next state for boid
/// `i` of snapshot `s`. Identity and colour are preserved; the velocity is
/// the force-and-turn result rescaled into the speed band (or, for a
/// stationary boid with a positive floor speed, a random nudge with both
/// components in `[-min_speed, min_speed)`); the emitted speed is the
/// clamped magnitude; and the new position is the old one moved by the new
/// velocity and clamped into the area. Everything but the random nudge is
/// pinned exactly.
///
/// The speed the clamp compares against the band is deliberately the
/// magnitude of the force-and-turn velocity, not of the boid's previous
/// velocity: two boids meeting inside the protected range while stationary
/// therefore separate deterministically through the floor-speed rescale
/// rather than through the random nudge.
pub open spec fn advances_to(
    s: Seq<Boid>,
    i: int,
    p: Parameters,
    width: u32,
    height: u32,
    nb: Boid,
) -> bool {
    let tvx = turned_vel_x(s, i, p, width);
    let tvy = turned_vel_y(s, i, p, height);
    &&& nb.id == s[i].id
    &&& nb.colour == s[i].colour
    &&& (if tvx == 0 && tvy == 0 {
        if p.min_speed > 0 {
            &&& -p.min_speed <= nb.vel.x < p.min_speed
            &&& -p.min_speed <= nb.vel.y < p.min_speed
            &&& nb.current_speed == p.min_speed
        } else {
            &&& nb.vel.x == 0
            &&& nb.vel.y == 0
            &&& nb.current_speed == 0
        }
    } else {
        let spd = sqrt_floor(tvx * tvx + tvy * tvy);
        if spd < p.min_speed {
            &&& nb.vel.x == mul_div_trunc(tvx, p.min_speed as int, spd)
            &&& nb.vel.y == mul_div_trunc(tvy, p.min_speed as int, spd)
            &&& nb.current_speed == p.min_speed
        } else if spd > p.max_speed {
            &&& nb.vel.x == mul_div_trunc(tvx, p.max_speed as int, spd)
            &&& nb.vel.y == mul_div_trunc(tvy, p.max_speed as int, spd)
            &&& nb.current_speed == p.max_speed
        } else {
            &&& nb.vel.x == tvx
            &&& nb.vel.y == tvy
            &&& nb.current_speed == spd
        }
    })
    &&& nb.pos.x == clamp_pos_axis(s[i].pos.x + nb.vel.x, width as int)
    &&& nb.pos.y == clamp_pos_axis(s[i].pos.y + nb.vel.y, height as int)
}

/// One position axis clamped into the area, as the update commits it.
fn clamp_axis(v: i64, dim: u32) -> (r: i64)
    requires
        1 <= dim <= MAX_DIM,
    ensures
        r as int == clamp_pos_axis(v as int, dim as int),
        0 <= r as int,
        (r as int) < (dim as int) * (SCALE as int),
{
    let lim = (dim as i64) * SCALE;
    if v < 0 {
        0
    } else if v >= lim {
        lim - SCALE
    } else {
        v
    }
}

/// Relies on `rand`: `rng()` yields the thread-local generator, and
/// `RngExt::random_range(lo..hi)` samples uniformly from the half-open
/// range `[lo, hi)`, panicking only when the range is empty.
#[verifier::external_body]
fn random_in_range(lo: i64, hi: i64) -> (r: i64)
    requires
        lo < hi,
    ensures
        lo <= r < hi,
{
    rand::RngExt::random_range(&mut rand::rng(), lo..hi)
}

/// Compute boid `i`'s next state from a consistent snapshot and the grid
/// built from it: scan the neighbourhood, accumulate the three flocking
/// forces, turn at the boundary, clamp the speed (or nudge a stationary boid
/// randomly), integrate and clamp the position. Reads only the snapshot and
/// writes nothing.
#[verifier::rlimit(100)]
#[verifier::spinoff_prover]
pub fn step_boid(
    boids: &Vec<Boid>,
    grid: &HashMap<u128, Vec<usize>>,
    i: usize,
    p: &Parameters,
    width: u32,
    height: u32,
) -> (nb: Boid)
    requires
        params_valid(*p),
        dims_valid(width, height, p.margin),
        flock_ok(boids@, width, height),
        boids@.len() <= MAX_BOIDS,
        i < boids@.len(),
        grid_matches(grid@, boids@, p.cell_size as int),
    ensures
        advances_to(boids@, i as int, *p, width, height, nb),
        boid_ok(nb, width, height),
        -(RANGE_LIMIT as int) <= nb.vel.x as int <= RANGE_LIMIT as int,
        -(RANGE_LIMIT as int) <= nb.vel.y as int <= RANGE_LIMIT as int,
{
    let ghost s = boids@;
    let ghost a = scan_of(s, i as int, *p);
    let t = scan_neighbours(boids, grid, i, p, width, height);
    proof {
        lemma_accum_upto_fields(s, i as int, *p, width, height, s.len(), 9);
        assert(a.contributions * (RANGE_LIMIT as int) <= 1_000_000_000_000_000) by (nonlinear_arith)
            requires
                0 <= a.contributions <= 1_000_000,
                a.contributions * (RANGE_LIMIT as int) == a.contributions * 1_000_000_000,
        ;
    }
    let b = &boids[i];
    let mut vx = b.vel.x;
    let mut vy = b.vel.y;
    if t.neighbours > 0 {
        let nn = t.neighbours as i64;
        let pos_avg_x = div_signed(t.pos_x_sum, nn);
        let pos_avg_y = div_signed(t.pos_y_sum, nn);
        let vel_avg_x = div_signed(t.vel_x_sum, nn);
        let vel_avg_y = div_signed(t.vel_y_sum, nn);
        proof {
            lemma_avg_bound(a.pos_x_sum, a.neighbours, POS_LIMIT as int);
            lemma_avg_bound(a.pos_y_sum, a.neighbours, POS_LIMIT as int);
            lemma_avg_bound(a.vel_x_sum, a.neighbours, VEL_LIMIT as int);
            lemma_avg_bound(a.vel_y_sum, a.neighbours, VEL_LIMIT as int);
            assert(abs_i(pos_avg_x as int - b.pos.x as int) <= 20_000_000_000);
            assert(abs_i(pos_avg_y as int - b.pos.y as int) <= 20_000_000_000);
            assert(abs_i(vel_avg_x as int - b.vel.x as int) <= 20_000_000_000);
            assert(abs_i(vel_avg_y as int - b.vel.y as int) <= 20_000_000_000);
            assert(abs_i(pos_avg_x as int - b.pos.x as int) * (p.centering_factor as int)
                <= 20_000_000_000_000_000 && abs_i(pos_avg_y as int - b.pos.y as int) * (
            p.centering_factor as int) <= 20_000_000_000_000_000 && abs_i(
                vel_avg_x as int - b.vel.x as int,
            ) * (p.matching_factor as int) <= 20_000_000_000_000_000 && abs_i(
                vel_avg_y as int - b.vel.y as int,
            ) * (p.matching_factor as int) <= 20_000_000_000_000_000) by (nonlinear_arith)
                requires
                    abs_i(pos_avg_x as int - b.pos.x as int) <= 20_000_000_000,
                    abs_i(pos_avg_y as int - b.pos.y as int) <= 20_000_000_000,
                    abs_i(vel_avg_x as int - b.vel.x as int) <= 20_000_000_000,
                    abs_i(vel_avg_y as int - b.vel.y as int) <= 20_000_000_000,
                    0 <= p.centering_factor as int <= 1_000_000,
                    0 <= p.matching_factor as int <= 1_000_000,
            ;
            lemma_mul_div_cap(
                pos_avg_x as int - b.pos.x as int,
                p.centering_factor as int,
                SCALE as int,
                20_000_000_000_000_000,
            );
            lemma_mul_div_cap(
                pos_avg_y as int - b.pos.y as int,
                p.centering_factor as int,
                SCALE as int,
                20_000_000_000_000_000,
            );
            lemma_mul_div_cap(
                vel_avg_x as int - b.vel.x as int,
                p.matching_factor as int,
                SCALE as int,
                20_000_000_000_000_000,
            );
            lemma_mul_div_cap(
                vel_avg_y as int - b.vel.y as int,
                p.matching_factor as int,
                SCALE as int,
                20_000_000_000_000_000,
            );
        }
        let coh_x = mul_div(pos_avg_x - b.pos.x, p.centering_factor, SCALE);
        let coh_y = mul_div(pos_avg_y - b.pos.y, p.centering_factor, SCALE);
        let mat_x = mul_div(vel_avg_x - b.vel.x, p.matching_factor, SCALE);
        let mat_y = mul_div(vel_avg_y - b.vel.y, p.matching_factor, SCALE);
        vx = vx + coh_x + mat_x;
        vy = vy + coh_y + mat_y;
    }
    proof {
        assert(abs_i(a.close_x) * (p.avoid_factor as int) <= 1_000_000_000_000_000_000_000
            && abs_i(a.close_y) * (p.avoid_factor as int) <= 1_000_000_000_000_000_000_000)
            by (nonlinear_arith)
            requires
                abs_i(a.close_x) <= 1_000_000_000_000_000,
                abs_i(a.close_y) <= 1_000_000_000_000_000,
                0 <= p.avoid_factor as int <= 1_000_000,
        ;
        lemma_mul_div_cap(
            a.close_x,
            p.avoid_factor as int,
            SCALE as int,
            1_000_000_000_000_000_000_000,
        );
        lemma_mul_div_cap(
            a.close_y,
            p.avoid_factor as int,
            SCALE as int,
            1_000_000_000_000_000_000_000,
        );
    }
    let sep_x = mul_div(t.close_x, p.avoid_factor, SCALE);
    let sep_y = mul_div(t.close_y, p.avoid_factor, SCALE);
    vx = vx + sep_x;
    vy = vy + sep_y;
    assert(vx as int == desired_vel_x(s, i as int, *p));
    assert(vy as int == desired_vel_y(s, i as int, *p));
    // Boundary turning: four independent edge checks against the margins.
    if b.pos.y > ((height - p.margin) as i64) * SCALE {
        vy = vy - p.turn_factor;
    }
    if b.pos.x > ((width - p.margin) as i64) * SCALE {
        vx = vx - p.turn_factor;
    }
    if b.pos.x < (p.margin as i64) * SCALE {
        vx = vx + p.turn_factor;
    }
    if b.pos.y < (p.margin as i64) * SCALE {
        vy = vy + p.turn_factor;
    }
    assert(vx as int == turned_vel_x(s, i as int, *p, width));
    assert(vy as int == turned_vel_y(s, i as int, *p, height));
    let ghost tvx = vx as int;
    let ghost tvy = vy as int;
    // Speed clamp, or the random nudge for a stationary boid.
    let clamped: (i64, i64, i64) = if vx != 0 || vy != 0 {
        proof {
            assert(tvx * tvx <= 40_000_000_000_000_000_000_000_000_000_000_000 && tvy * tvy
                <= 40_000_000_000_000_000_000_000_000_000_000_000) by (nonlinear_arith)
                requires
                    abs_i(tvx) <= 200_000_000_000_000_000,
                    abs_i(tvy) <= 200_000_000_000_000_000,
            ;
            assert(tvx * tvx >= 0 && tvy * tvy >= 0) by (nonlinear_arith);
        }
        let nsq: i128 = (vx as i128) * (vx as i128) + (vy as i128) * (vy as i128);
        let spd_u = isqrt_u128(nsq as u128);
        proof {
            assert(is_isqrt(tvx * tvx + tvy * tvy, spd_u as int));
            assert(spd_u as int <= 300_000_000_000_000_000) by (nonlinear_arith)
                requires
                    0 <= spd_u as int,
                    (spd_u as int) * (spd_u as int) <= tvx * tvx + tvy * tvy,
                    tvx * tvx + tvy * tvy <= 80_000_000_000_000_000_000_000_000_000_000_000,
            ;
            lemma_component_le_norm(tvx, tvy, spd_u as int);
            if spd_u == 0 {
                assert(tvx == 0 && tvy == 0);
                assert(false);
            }
        }
        let spd0 = spd_u as i64;
        if spd0 < p.min_speed {
            proof {
                assert(abs_i(tvx) * (p.min_speed as int) <= (spd0 as int) * (p.min_speed as int)
                    && abs_i(tvy) * (p.min_speed as int) <= (spd0 as int) * (p.min_speed as int))
                    by (nonlinear_arith)
                    requires
                        abs_i(tvx) <= spd0 as int,
                        abs_i(tvy) <= spd0 as int,
                        0 <= p.min_speed as int,
                ;
                lemma_div_le_multiple(abs_i(tvx) * (p.min_speed as int), p.min_speed as int, spd0 as int);
                lemma_div_le_multiple(abs_i(tvy) * (p.min_speed as int), p.min_speed as int, spd0 as int);
                lemma_mul_div_bound(tvx, p.min_speed as int, spd0 as int);
                lemma_mul_div_bound(tvy, p.min_speed as int, spd0 as int);
            }
            (mul_div(vx, p.min_speed, spd0), mul_div(vy, p.min_speed, spd0), p.min_speed)
        } else if spd0 > p.max_speed {
            proof {
                assert(abs_i(tvx) * (p.max_speed as int) <= (spd0 as int) * (p.max_speed as int)
                    && abs_i(tvy) * (p.max_speed as int) <= (spd0 as int) * (p.max_speed as int))
                    by (nonlinear_arith)
                    requires
                        abs_i(tvx) <= spd0 as int,
                        abs_i(tvy) <= spd0 as int,
                        0 <= p.max_speed as int,
                ;
                lemma_div_le_multiple(abs_i(tvx) * (p.max_speed as int), p.max_speed as int, spd0 as int);
                lemma_div_le_multiple(abs_i(tvy) * (p.max_speed as int), p.max_speed as int, spd0 as int);
                lemma_mul_div_bound(tvx, p.max_speed as int, spd0 as int);
                lemma_mul_div_bound(tvy, p.max_speed as int, spd0 as int);
            }
            (mul_div(vx, p.max_speed, spd0), mul_div(vy, p.max_speed, spd0), p.max_speed)
        } else {
            (vx, vy, spd0)
        }
    } else if p.min_speed > 0 {
        (
            random_in_range(-p.min_speed, p.min_speed),
            random_in_range(-p.min_speed, p.min_speed),
            p.min_speed,
        )
    } else {
        (0i64, 0i64, 0i64)
    };
    let fvx = clamped.0;
    let fvy = clamped.1;
    let spd = clamped.2;
    assert(-(RANGE_LIMIT as int) <= fvx as int <= RANGE_LIMIT as int);
    assert(-(RANGE_LIMIT as int) <= fvy as int <= RANGE_LIMIT as int);
    // Integrate and clamp into the simulation area.
    let px = clamp_axis(b.pos.x + fvx, width);
    let py = clamp_axis(b.pos.y + fvy, height);
    Boid {
        id: b.id,
        pos: Vec2 { x: px, y: py },
        vel: Vec2 { x: fvx, y: fvy },
        current_speed: spd,
        colour: b.colour,
    }
}

/// Positions of an accepted flock are non-negative.
proof fn lemma_flock_positions_nonneg(s: Seq<Boid>, width: u32, height: u32)
    requires
        flock_ok(s, width, height),
    ensures
        positions_nonneg(s),
{
    assert forall|i: int| 0 <= i < s.len() implies #[trigger] s[i].pos.x >= 0 && s[i].pos.y
        >= 0 by {
        assert(boid_ok(s[i], width, height));
    }
}

/// Overwrite every boid's stored state from the new-state buffer: the
/// sequential commit pass that ends a frame.
fn commit_states(boids: &mut Vec<Boid>, new_states: &Vec<Boid>)
    requires
        old(boids)@.len() == new_states@.len(),
    ensures
        final(boids)@ == new_states@,
{
    let n = boids.len();
    let mut i: usize = 0;
    while i < n
        invariant
            n == boids@.len(),
            n == new_states@.len(),
            0 <= i <= n,
            forall|j: int| 0 <= j < i ==> boids@[j] == new_states@[j],
        decreases n - i,
    {
        let nb = new_states[i];
        boids[i] = nb;
        i += 1;
    }
    assert(boids@ =~= new_states@);
}

/// Apply one simulated frame to the flock, in place: build the spatial
/// index from the current snapshot, compute every boid's next state from
/// that consistent snapshot into a separate buffer, then commit the buffer
/// in one sequential pass. No boid's computation reads another boid's new
/// state.
pub fn update_boids(boids: &mut Vec<Boid>, height: u32, width: u32, parameters: Parameters)
    requires
        params_valid(parameters),
        dims_valid(width, height, parameters.margin),
        flock_ok(old(boids)@, width, height),
        old(boids)@.len() <= MAX_BOIDS,
    ensures
        final(boids)@.len() == old(boids)@.len(),
        forall|i: int|
            0 <= i < old(boids)@.len() ==> advances_to(
                old(boids)@,
                i,
                parameters,
                width,
                height,
                #[trigger] final(boids)@[i],
            ),
        flock_ok(final(boids)@, width, height),
        forall|i: int|
            0 <= i < old(boids)@.len() ==> 0 <= (#[trigger] final(boids)@[i]).pos.x as int / (
            SCALE as int) <= width as int - 1 && 0 <= final(boids)@[i].pos.y as int / (SCALE as int)
                <= height as int - 1,
        forall|i: int|
            0 <= i < old(boids)@.len() ==> ((#[trigger] final(boids)@[i]).current_speed == 0
                ==> parameters.min_speed == 0) && (parameters.min_speed > 0 ==> parameters.min_speed
                <= final(boids)@[i].current_speed <= parameters.max_speed),
{
    let ghost s0 = boids@;
    proof {
        lemma_flock_positions_nonneg(s0, width, height);
    }
    let grid = populate_grid(boids, parameters.cell_size);
    let n = boids.len();
    let mut new_states: Vec<Boid> = Vec::new();
    let mut i: usize = 0;
    while i < n
        invariant
            boids@ == s0,
            n == s0.len(),
            0 <= i <= n,
            params_valid(parameters),
            dims_valid(width, height, parameters.margin),
            flock_ok(s0, width, height),
            n <= MAX_BOIDS,
            grid_matches(grid@, s0, parameters.cell_size as int),
            new_states@.len() == i,
            forall|j: int|
                0 <= j < i ==> advances_to(
                    s0,
                    j,
                    parameters,
                    width,
                    height,
                    #[trigger] new_states@[j],
                ) && boid_ok(new_states@[j], width, height),
        decreases n - i,
    {
        let nb = step_boid(boids, &grid, i, &parameters, width, height);
        new_states.push(nb);
        i += 1;
    }
    commit_states(boids, &new_states);
    proof {
        assert forall|i: int| 0 <= i < s0.len() implies 0 <= (#[trigger] boids@[i]).pos.x as int / (
        SCALE as int) <= width as int - 1 && 0 <= boids@[i].pos.y as int / (SCALE as int)
            <= height as int - 1 && (boids@[i].current_speed == 0 ==> parameters.min_speed == 0) && (
        parameters.min_speed > 0 ==> parameters.min_speed <= boids@[i].current_speed
            <= parameters.max_speed) by {
            lemma_advance_position_bounds(s0, i, parameters, width, height, boids@[i]);
            lemma_advance_speed_band(s0, i, parameters, width, height, boids@[i]);
        }
    }
}

/// Relies on `rayon`: `par_iter().enumerate().map(f).collect::<Vec<_>>()`
/// calls `f` exactly once per slot, each call writing only its own result,
/// and collects the results in slot order. Each element of the result is
/// therefore the value of one `step_boid` call on its slot index, so
/// `step_boid`'s contract holds of it.
#[verifier::external_body]
fn compute_new_states_parallel(
    boids: &Vec<Boid>,
    grid: &HashMap<u128, Vec<usize>>,
    p: &Parameters,
    width: u32,
    height: u32,
) -> (r: Vec<Boid>)
    requires
        params_valid(*p),
        dims_valid(width, height, p.margin),
        flock_ok(boids@, width, height),
        boids@.len() <= MAX_BOIDS,
        grid_matches(grid@, boids@, p.cell_size as int),
    ensures
        r@.len() == boids@.len(),
        forall|i: int|
            0 <= i < boids@.len() ==> advances_to(boids@, i, *p, width, height, #[trigger] r@[i])
                && boid_ok(r@[i], width, height),
{
    boids.par_iter().enumerate().map(|(i, _b)| step_boid(boids, grid, i, p, width, height)).collect()
}

/// `update_boids`, with the compute phase run as one data-parallel pass per
/// boid over the read-only snapshot. Same contract: the parallel pass reads
/// only the snapshot and writes each result to its own slot of the buffer.
pub fn update_boids_parallel(boids: &mut Vec<Boid>, height: u32, width: u32, parameters: Parameters)
    requires
        params_valid(parameters),
        dims_valid(width, height, parameters.margin),
        flock_ok(old(boids)@, width, height),
        old(boids)@.len() <= MAX_BOIDS,
    ensures
        final(boids)@.len() == old(boids)@.len(),
        forall|i: int|
            0 <= i < old(boids)@.len() ==> advances_to(
                old(boids)@,
                i,
                parameters,
                width,
                height,
                #[trigger] final(boids)@[i],
            ),
        flock_ok(final(boids)@, width, height),
        forall|i: int|
            0 <= i < old(boids)@.len() ==> 0 <= (#[trigger] final(boids)@[i]).pos.x as int / (
            SCALE as int) <= width as int - 1 && 0 <= final(boids)@[i].pos.y as int / (SCALE as int)
                <= height as int - 1,
        forall|i: int|
            0 <= i < old(boids)@.len() ==> ((#[trigger] final(boids)@[i]).current_speed == 0
                ==> parameters.min_speed == 0) && (parameters.min_speed > 0 ==> parameters.min_speed
                <= final(boids)@[i].current_speed <= parameters.max_speed),
{
    let ghost s0 = boids@;
    proof {
        lemma_flock_positions_nonneg(s0, width, height);
    }
    let grid = populate_grid(boids, parameters.cell_size);
    let new_states = compute_new_states_parallel(boids, &grid, &parameters, width, height);
    commit_states(boids, &new_states);
    proof {
        assert forall|i: int| 0 <= i < s0.len() implies 0 <= (#[trigger] boids@[i]).pos.x as int / (
        SCALE as int) <= width as int - 1 && 0 <= boids@[i].pos.y as int / (SCALE as int)
            <= height as int - 1 && (boids@[i].current_speed == 0 ==> parameters.min_speed == 0) && (
        parameters.min_speed > 0 ==> parameters.min_speed <= boids@[i].current_speed
            <= parameters.max_speed) by {
            lemma_advance_position_bounds(s0, i, parameters, width, height, boids@[i]);
            lemma_advance_speed_band(s0, i, parameters, width, height, boids@[i]);
        }
    }
}

/// After a frame, every boid's position lies inside the simulation area:
/// each axis is non-negative, strictly below `dim * SCALE`, and lands on a
/// pixel between 0 and `dim - 1`.
pub proof fn lemma_advance_position_bounds(
    s: Seq<Boid>,
    i: int,
    p: Parameters,
    width: u32,
    height: u32,
    nb: Boid,
)
    requires
        1 <= width,
        1 <= height,
        0 <= i < s.len(),
        advances_to(s, i, p, width, height, nb),
    ensures
        0 <= nb.pos.x,
        (nb.pos.x as int) < (width as int) * (SCALE as int),
        0 <= nb.pos.x as int / (SCALE as int) <= width as int - 1,
        0 <= nb.pos.y,
        (nb.pos.y as int) < (height as int) * (SCALE as int),
        0 <= nb.pos.y as int / (SCALE as int) <= height as int - 1,
{
    assert(0 <= nb.pos.x && (nb.pos.x as int) < (width as int) * (SCALE as int));
    assert(0 <= nb.pos.y && (nb.pos.y as int) < (height as int) * (SCALE as int));
    assert(0 <= nb.pos.x as int / (SCALE as int) && nb.pos.x as int / (SCALE as int) <= width as int
        - 1) by (nonlinear_arith)
        requires
            0 <= nb.pos.x,
            (nb.pos.x as int) < (width as int) * (SCALE as int),
            SCALE == 10_000,
    ;
    assert(0 <= nb.pos.y as int / (SCALE as int) && nb.pos.y as int / (SCALE as int)
        <= height as int - 1) by (nonlinear_arith)
        requires
            0 <= nb.pos.y,
            (nb.pos.y as int) < (height as int) * (SCALE as int),
            SCALE == 10_000,
    ;
}

/// After a frame, the emitted speed is zero only when the configured floor
/// speed is zero; with a positive floor it sits in `[min_speed, max_speed]`.
pub proof fn lemma_advance_speed_band(
    s: Seq<Boid>,
    i: int,
    p: Parameters,
    width: u32,
    height: u32,
    nb: Boid,
)
    requires
        params_valid(p),
        0 <= i < s.len(),
        advances_to(s, i, p, width, height, nb),
    ensures
        nb.current_speed == 0 ==> p.min_speed == 0,
        p.min_speed > 0 ==> p.min_speed <= nb.current_speed <= p.max_speed,
        0 <= nb.current_speed <= p.max_speed,
{
    let tvx = turned_vel_x(s, i, p, width);
    let tvy = turned_vel_y(s, i, p, height);
    if !(tvx == 0 && tvy == 0) {
        let nsq = tvx * tvx + tvy * tvy;
        assert(nsq > 0) by (nonlinear_arith)
            requires
                !(tvx == 0 && tvy == 0),
                nsq == tvx * tvx + tvy * tvy,
        ;
        lemma_sqrt_floor_props(nsq);
        let spd = sqrt_floor(nsq);
        assert(spd >= 1) by (nonlinear_arith)
            requires
                is_isqrt(nsq, spd),
                nsq >= 1,
        ;
    }
}

/// Away from the one randomized case — a boid left stationary by forces and
/// turning while a positive floor speed is set — the frame step is a
/// function: two legal next states for the same boid of the same snapshot
/// are equal.
pub proof fn lemma_step_deterministic(
    s: Seq<Boid>,
    i: int,
    p: Parameters,
    width: u32,
    height: u32,
    nb1: Boid,
    nb2: Boid,
)
    requires
        0 <= i < s.len(),
        advances_to(s, i, p, width, height, nb1),
        advances_to(s, i, p, width, height, nb2),
        !stationary_case(s, i, p, width, height) || p.min_speed == 0,
    ensures
        nb1 == nb2,
{
    assert(nb1.vel == nb2.vel && nb1.pos == nb2.pos);
}

/// Flock-level determinism: with no boid in the randomized case, any two
/// outcomes of one frame from the same snapshot agree everywhere. Repeated
/// sequential runs from one snapshot therefore produce identical snapshots.
pub proof fn lemma_advance_deterministic(
    s: Seq<Boid>,
    p: Parameters,
    width: u32,
    height: u32,
    r1: Seq<Boid>,
    r2: Seq<Boid>,
)
    requires
        r1.len() == s.len(),
        r2.len() == s.len(),
        forall|i: int| 0 <= i < s.len() ==> advances_to(s, i, p, width, height, #[trigger] r1[i]),
        forall|i: int| 0 <= i < s.len() ==> advances_to(s, i, p, width, height, #[trigger] r2[i]),
        forall|i: int|
            0 <= i < s.len() ==> !stationary_case(s, i, p, width, height) || p.min_speed == 0,
    ensures
        r1 == r2,
{
    assert forall|i: int| 0 <= i < s.len() implies r1[i] == r2[i] by {
        lemma_step_deterministic(s, i, p, width, height, r1[i], r2[i]);
    }
    assert(r1 =~= r2);
}

/// A boid with every other boid at or beyond both ranges accumulates
/// nothing.
proof fn lemma_accum_upto_isolated(s: Seq<Boid>, i: int, p: Parameters, m: nat, done: int)
    requires
        forall|j: int|
            0 <= j < s.len() && j != i ==> dist_sq(s, i, j) >= p.visible_range * p.visible_range
                && dist_sq(s, i, j) >= p.protected_range * p.protected_range,
        m <= s.len(),
    ensures
        accum_upto(s, i, p, m, done) == accum_zero(),
    decreases m,
{
    if m > 0 {
        lemma_accum_upto_isolated(s, i, p, (m - 1) as nat, done);
        assert(!is_close(s, i, m - 1, p) && !is_visible(s, i, m - 1, p));
    }
}

/// Isolation: a boid whose every flock-mate sits at or beyond the visible
/// and protected ranges gets no cohesion, alignment or separation
/// contribution, so its pre-clamp velocity differs from its current one
/// only by the boundary turns.
pub proof fn lemma_isolation(s: Seq<Boid>, i: int, p: Parameters, width: u32, height: u32)
    requires
        params_valid(p),
        0 <= i < s.len(),
        forall|j: int|
            0 <= j < s.len() && j != i ==> dist_sq(s, i, j) >= p.visible_range * p.visible_range
                && dist_sq(s, i, j) >= p.protected_range * p.protected_range,
    ensures
        scan_of(s, i, p) == accum_zero(),
        desired_vel_x(s, i, p) == s[i].vel.x,
        desired_vel_y(s, i, p) == s[i].vel.y,
        turned_vel_x(s, i, p, width) == s[i].vel.x + turn_dx(s, i, p, width),
        turned_vel_y(s, i, p, height) == s[i].vel.y + turn_dy(s, i, p, height),
{
    lemma_accum_upto_isolated(s, i, p, s.len(), 9);
}

/// Symmetry breaking: in a flock of two boids in scanned cells, both inside
/// the box filter and strictly inside the protected range but not
/// coincident, each accumulates the other's offset as its separation
/// vector; the two vectors are non-zero and exactly opposite, each pointing
/// away from the other boid.
pub proof fn lemma_separation_symmetry(s: Seq<Boid>, p: Parameters)
    requires
        params_valid(p),
        s.len() == 2,
        in_scan_block(s, 0, 1, p.cell_size as int),
        in_visible_box(s, 0, 1, p),
        0 < dist_sq(s, 0, 1),
        dist_sq(s, 0, 1) < p.protected_range * p.protected_range,
    ensures
        scan_of(s, 0, p).close_x == off_x(s, 0, 1) && scan_of(s, 0, p).close_y == off_y(s, 0, 1),
        scan_of(s, 1, p).close_x == -off_x(s, 0, 1) && scan_of(s, 1, p).close_y == -off_y(s, 0, 1),
        !(off_x(s, 0, 1) == 0 && off_y(s, 0, 1) == 0),
        scan_of(s, 0, p).neighbours == 0,
        scan_of(s, 1, p).neighbours == 0,
{
    let cs = p.cell_size as int;
    assert(off_x(s, 1, 0) == -off_x(s, 0, 1) && off_y(s, 1, 0) == -off_y(s, 0, 1));
    assert(dist_sq(s, 1, 0) == dist_sq(s, 0, 1)) by (nonlinear_arith)
        requires
            off_x(s, 1, 0) == -off_x(s, 0, 1),
            off_y(s, 1, 0) == -off_y(s, 0, 1),
            dist_sq(s, 1, 0) == off_x(s, 1, 0) * off_x(s, 1, 0) + off_y(s, 1, 0) * off_y(s, 1, 0),
            dist_sq(s, 0, 1) == off_x(s, 0, 1) * off_x(s, 0, 1) + off_y(s, 0, 1) * off_y(s, 0, 1),
    ;
    assert(in_visible_box(s, 1, 0, p));
    assert(in_scan_block(s, 1, 0, cs));
    assert(is_close(s, 0, 1, p));
    assert(is_close(s, 1, 0, p));
    assert(!(off_x(s, 0, 1) == 0 && off_y(s, 0, 1) == 0)) by (nonlinear_arith)
        requires
            0 < dist_sq(s, 0, 1),
            dist_sq(s, 0, 1) == off_x(s, 0, 1) * off_x(s, 0, 1) + off_y(s, 0, 1) * off_y(s, 0, 1),
    ;
    // Unfold the two-element scans step by step.
    assert(accum_upto(s, 0, p, 0, 9) == accum_zero());
    assert(accum_upto(s, 0, p, 1, 9) == accum_zero());
    assert(scan_of(s, 0, p) == accum_add(accum_upto(s, 0, p, 1, 9), s, 0, 1, p));
    assert(accum_upto(s, 1, p, 0, 9) == accum_zero());
    assert(accum_upto(s, 1, p, 1, 9) == accum_add(accum_zero(), s, 1, 0, p));
    assert(scan_of(s, 1, p) == accum_upto(s, 1, p, 1, 9));
}

} // verus!
