//! The navigation grid: a square lattice of cells stored row by row in flat
//! vectors, the eight-neighbour layout of each cell, and the link table that the
//! path search walks.
//!
//! Neighbour vector layout around a cell `x`:
//!
//! ```text
//!  0 1 2
//!   \|/
//!  3-x-4
//!   /|\
//!  5 6 7
//! ```
use vstd::prelude::*;
use vstd::arithmetic::div_mod::{
    lemma_fundamental_div_mod, lemma_fundamental_div_mod_converse, lemma_div_multiples_vanish,
};
use vstd::arithmetic::mul::lemma_mul_is_commutative;

verus! {

/// Number of cells along each side of the game's navigation grid
/// (11000 world units sampled at 0.015 cells per unit).
pub const SIDE_NODE_NO: i32 = 165;

/// Number of links of every cell (one per neighbour direction).
pub const LINKS_PER_NODE: usize = 8;

pub open spec fn fits_i32(v: int) -> bool {
    i32::MIN <= v <= i32::MAX
}

pub open spec fn abs_val(v: int) -> int {
    if v < 0 { -v } else { v }
}

/// Quotient of `a / b` rounded towards zero, as Rust's `/` on integers computes it
/// (`/` and `%` on `int` below are Euclidean).
pub open spec fn trunc_div(a: int, b: int) -> int {
    let q = abs_val(a) / abs_val(b);
    if (a >= 0) == (b >= 0) { q } else { -q }
}

/// Remainder of `a % b`, which takes the sign of `a` and is smaller than `b` in
/// magnitude, as Rust's `%` on integers computes it.
pub open spec fn trunc_rem(a: int, b: int) -> int {
    if a >= 0 { a % abs_val(b) } else { -((-a) % abs_val(b)) }
}

/// Flat index of the cell at column `x`, row `y`.
pub open spec fn spec_coord_to_1d(side_dim: int, x: int, y: int) -> int {
    y * side_dim + x
}

/// Column and row of the cell at flat index `idx`.
pub open spec fn spec_coord_from_1d(side_dim: int, idx: int) -> (int, int) {
    let x = trunc_rem(idx, side_dim);
    (x, trunc_div(idx - x, side_dim))
}

/// Column offset of neighbour direction `k`.
pub open spec fn dir_dx(k: int) -> int {
    if k == 0 || k == 3 || k == 5 { -1 } else if k == 1 || k == 6 { 0 } else { 1 }
}

/// Row offset of neighbour direction `k`.
pub open spec fn dir_dy(k: int) -> int {
    if k <= 2 { -1 } else if k <= 4 { 0 } else { 1 }
}

/// Whether direction `k` is taken from the cell at (`x`, `y`): a step towards column
/// or row 0 needs a coordinate other than 0, a step away from it a coordinate other
/// than `side_dim - 1`.
pub open spec fn dir_allowed(side_dim: int, x: int, y: int, k: int) -> bool {
    &&& (dir_dx(k) == -1 ==> x != 0)
    &&& (dir_dx(k) == 1 ==> x != side_dim - 1)
    &&& (dir_dy(k) == -1 ==> y != 0)
    &&& (dir_dy(k) == 1 ==> y != side_dim - 1)
}

/// Entry `k` of the neighbour vector of the cell at (`x`, `y`): the flat index of
/// the neighbour in direction `k`, or -1 where that direction is not taken.
pub open spec fn spec_neighbour(side_dim: int, x: int, y: int, k: int) -> int {
    if dir_allowed(side_dim, x, y, k) {
        spec_coord_to_1d(side_dim, x + dir_dx(k), y + dir_dy(k))
    } else {
        -1
    }
}

/// The arithmetic of neighbour `k` stays within `i32`.
pub open spec fn neighbour_fits(side_dim: int, x: int, y: int, k: int) -> bool {
    dir_allowed(side_dim, x, y, k) ==> {
        &&& fits_i32(x + dir_dx(k))
        &&& fits_i32(y + dir_dy(k))
        &&& fits_i32((y + dir_dy(k)) * side_dim)
        &&& fits_i32((y + dir_dy(k)) * side_dim + x + dir_dx(k))
    }
}

/// Flat index of the cell at column `x`, row `y` of a grid `side_dim` cells wide.
pub fn coord_to_1d(side_dim: i32, x: i32, y: i32) -> (idx: i32)
    requires
        fits_i32(y * side_dim),
        fits_i32(y * side_dim + x),
    ensures
        idx == spec_coord_to_1d(side_dim as int, x as int, y as int),
{
    y * side_dim + x
}

/// Column and row of the cell at flat index `idx` of a grid `side_dim` cells wide.
pub fn coord_from_1d(side_dim: i32, idx: i32) -> (xy: (i32, i32))
    requires
        side_dim != 0,
        !(side_dim == -1 && idx == i32::MIN),
    ensures
        xy.0 == spec_coord_from_1d(side_dim as int, idx as int).0,
        xy.1 == spec_coord_from_1d(side_dim as int, idx as int).1,
{
    if side_dim > 0 {
        let x = idx % side_dim;
        let y = (idx - x) / side_dim;
        (x, y)
    } else {
        // `%` and `/` by the width's magnitude, in `i64` where the magnitude of
        // `i32::MIN` fits
        let m: i64 = -(side_dim as i64);
        let i: i64 = idx as i64;
        let x: i64 = i % m;
        let q: i64 = (i - x) / m;
        proof {
            assert(x == trunc_rem(idx as int, side_dim as int));
            let a = idx - x;
            assert(-q == trunc_div(a, side_dim as int));
            let t = abs_val(a) / (m as int);
            assert(t <= abs_val(a)) by (nonlinear_arith)
                requires abs_val(a) >= 0, m >= 1, t == abs_val(a) / (m as int);
            if m == 1 {
                assert(x == 0);
            } else {
                assert(t * 2 <= abs_val(a)) by (nonlinear_arith)
                    requires abs_val(a) >= 0, m >= 2, t == abs_val(a) / (m as int);
            }
        }
        (x as i32, (-q) as i32)
    }
}


/// Neighbour vector of the cell at column `curr_x`, row `curr_y` of a square grid
/// `side_dim` cells wide: entry `k` is the flat index of the neighbour in direction
/// `k` (see the module's layout), or -1 where the cell lies on the edge that
/// direction would cross.
pub fn get_neighbours(side_dim: i32, curr_x: i32, curr_y: i32) -> (out: Vec<i32>)
    requires
        side_dim > i32::MIN,
        forall|k: int| 0 <= k < 8 ==> neighbour_fits(side_dim as int, curr_x as int, curr_y as int, k),
    ensures
        out@.len() == 8,
        forall|k: int| 0 <= k < 8 ==> out@[k] == spec_neighbour(side_dim as int, curr_x as int, curr_y as int, k),
{
    let ghost (s, x, y) = (side_dim as int, curr_x as int, curr_y as int);
    assert(neighbour_fits(s, x, y, 0) && neighbour_fits(s, x, y, 1) && neighbour_fits(s, x, y, 2)
        && neighbour_fits(s, x, y, 3) && neighbour_fits(s, x, y, 4) && neighbour_fits(s, x, y, 5)
        && neighbour_fits(s, x, y, 6) && neighbour_fits(s, x, y, 7));
    let mut out: Vec<i32> = vec![-1, -1, -1, -1, -1, -1, -1, -1];
    let sdmo = side_dim - 1;
    if curr_x != 0 && curr_y != 0 {
        out.set(0, coord_to_1d(side_dim, curr_x - 1, curr_y - 1));
    }
    if curr_y != 0 {
        out.set(1, coord_to_1d(side_dim, curr_x, curr_y - 1));
    }
    if curr_x != sdmo && curr_y != 0 {
        out.set(2, coord_to_1d(side_dim, curr_x + 1, curr_y - 1));
    }
    if curr_x != 0 {
        out.set(3, coord_to_1d(side_dim, curr_x - 1, curr_y));
    }
    if curr_x != sdmo {
        out.set(4, coord_to_1d(side_dim, curr_x + 1, curr_y));
    }
    if curr_x != 0 && curr_y != sdmo {
        out.set(5, coord_to_1d(side_dim, curr_x + -1, curr_y + 1));
    }
    if curr_y != sdmo {
        out.set(6, coord_to_1d(side_dim, curr_x, curr_y + 1));
    }
    if curr_x != sdmo && curr_y != sdmo {
        out.set(7, coord_to_1d(side_dim, curr_x + 1, curr_y + 1));
    }
    assert forall|k: int| 0 <= k < 8 implies out@[k] == spec_neighbour(s, x, y, k) by {
        if k == 0 {} else if k == 1 {} else if k == 2 {} else if k == 3 {}
        else if k == 4 {} else if k == 5 {} else if k == 6 {} else {}
    }
    out
}

/// Converting a flat index to a column and row and back gives the index again.
pub proof fn lemma_coord_from_to_round_trip(side_dim: int, idx: int)
    requires
        side_dim != 0,
    ensures
        ({
            let (x, y) = spec_coord_from_1d(side_dim, idx);
            spec_coord_to_1d(side_dim, x, y) == idx
        }),
{
    if side_dim > 0 {
        lemma_round_trip_positive_width(side_dim, idx);
    } else {
        let m = -side_dim;
        lemma_round_trip_positive_width(m, idx);
        let (xm, ym) = spec_coord_from_1d(m, idx);
        let (xs, ys) = spec_coord_from_1d(side_dim, idx);
        assert(xs == xm);
        assert(ys == -ym);
        assert(ys * side_dim == ym * m) by (nonlinear_arith)
            requires ys == -ym, side_dim == -m;
    }
}

/// The round trip through a flat index, on a grid of positive width.
proof fn lemma_round_trip_positive_width(side_dim: int, idx: int)
    requires
        side_dim > 0,
    ensures
        ({
            let (x, y) = spec_coord_from_1d(side_dim, idx);
            spec_coord_to_1d(side_dim, x, y) == idx
        }),
{
    let (x, y) = spec_coord_from_1d(side_dim, idx);
    if idx >= 0 {
        lemma_fundamental_div_mod(idx, side_dim);
        lemma_mul_is_commutative(side_dim, idx / side_dim);
        lemma_div_multiples_vanish(idx / side_dim, side_dim);
        assert(idx - x == side_dim * (idx / side_dim));
        assert(y == idx / side_dim);
        assert(y * side_dim + x == idx) by (nonlinear_arith)
            requires idx == side_dim * (idx / side_dim) + (idx % side_dim), y == idx / side_dim,
                x == idx % side_dim;
    } else {
        let m = -idx;
        lemma_fundamental_div_mod(m, side_dim);
        lemma_div_multiples_vanish(m / side_dim, side_dim);
        assert(m - m % side_dim == side_dim * (m / side_dim));
        assert(idx - x == -(m - m % side_dim));
        assert(-(idx - x) == side_dim * (m / side_dim));
        assert(y == -(m / side_dim));
        assert(y * side_dim + x == idx) by (nonlinear_arith)
            requires m == side_dim * (m / side_dim) + (m % side_dim), y == -(m / side_dim),
                x == -(m % side_dim), idx == -m;
    }
}

/// Converting a column and row inside the grid to a flat index and back gives the
/// same column and row.
pub proof fn lemma_coord_to_from_round_trip(side_dim: int, x: int, y: int)
    requires
        side_dim > 0,
        0 <= x < side_dim,
        0 <= y,
    ensures
        spec_coord_from_1d(side_dim, spec_coord_to_1d(side_dim, x, y)) == (x, y),
{
    let idx = spec_coord_to_1d(side_dim, x, y);
    assert(idx >= 0) by (nonlinear_arith)
        requires idx == y * side_dim + x, y >= 0, side_dim > 0, x >= 0;
    lemma_fundamental_div_mod_converse(idx, side_dim, y, x);
    lemma_mul_is_commutative(side_dim, y);
    lemma_div_multiples_vanish(y, side_dim);
}

/// Neighbourhood is symmetric: where cell (`x`, `y`) of the grid has a neighbour in
/// direction `k`, that neighbour lies in the grid and has (`x`, `y`) as its
/// neighbour in the opposite direction `7 - k`.
pub proof fn lemma_neighbour_symmetric(side_dim: int, x: int, y: int, k: int)
    requires
        side_dim > 0,
        0 <= x < side_dim,
        0 <= y < side_dim,
        0 <= k < 8,
        spec_neighbour(side_dim, x, y, k) != -1,
    ensures
        0 <= x + dir_dx(k) < side_dim,
        0 <= y + dir_dy(k) < side_dim,
        spec_neighbour(side_dim, x, y, k)
            == spec_coord_to_1d(side_dim, x + dir_dx(k), y + dir_dy(k)),
        spec_neighbour(side_dim, x + dir_dx(k), y + dir_dy(k), 7 - k)
            == spec_coord_to_1d(side_dim, x, y),
{
}


/// The cell at flat index `idx` lies in a square grid `side_dim` cells wide.
pub open spec fn in_grid(side_dim: int, idx: int) -> bool {
    0 <= idx < side_dim * side_dim
}

/// Entry `k` of the link list of cell `idx` in a grid whose walkable cells are
/// marked by `valid`: an unwalkable cell has no links; a walkable one links to each
/// of its neighbours that is walkable, and has -1 in the other directions.
pub open spec fn spec_link(side_dim: int, valid: Seq<bool>, idx: int, k: int) -> int {
    let (x, y) = spec_coord_from_1d(side_dim, idx);
    let nb = spec_neighbour(side_dim, x, y, k);
    if !valid[idx] || nb == -1 || !valid[nb] { -1 } else { nb }
}

/// Every entry of a link table is -1 or the index of a cell.
pub open spec fn links_well_formed(links: Seq<Vec<i32>>, valid: Seq<bool>) -> bool {
    &&& links.len() == valid.len()
    &&& forall|i: int, k: int|
        0 <= i < links.len() && 0 <= k < links[i]@.len() ==> {
            let t = #[trigger] links[i]@[k];
            t == -1 || 0 <= t < valid.len()
        }
}

/// A cell inside the grid has its column and row inside the grid.
proof fn lemma_cell_coords(side_dim: int, idx: int)
    requires
        side_dim > 0,
        in_grid(side_dim, idx),
    ensures
        0 <= spec_coord_from_1d(side_dim, idx).0 < side_dim,
        0 <= spec_coord_from_1d(side_dim, idx).1 < side_dim,
        spec_coord_to_1d(side_dim, spec_coord_from_1d(side_dim, idx).0, spec_coord_from_1d(side_dim, idx).1) == idx,
{
    lemma_coord_from_to_round_trip(side_dim, idx);
    let (x, y) = spec_coord_from_1d(side_dim, idx);
    assert(0 <= x < side_dim);
    assert(y * side_dim + x == idx);
    assert(0 <= y < side_dim) by (nonlinear_arith)
        requires y * side_dim + x == idx, 0 <= x < side_dim, 0 <= idx < side_dim * side_dim,
            side_dim > 0;
}

/// A column and row inside the grid give a flat index inside the grid.
proof fn lemma_coords_in_grid(side_dim: int, x: int, y: int)
    requires
        side_dim > 0,
        0 <= x < side_dim,
        0 <= y < side_dim,
    ensures
        in_grid(side_dim, spec_coord_to_1d(side_dim, x, y)),
{
    assert(0 <= y * side_dim + x < side_dim * side_dim) by (nonlinear_arith)
        requires 0 <= x < side_dim, 0 <= y < side_dim, side_dim > 0;
}

/// The neighbour arithmetic of every cell of a grid whose cell count fits in `i32`
/// stays within `i32`.
proof fn lemma_grid_neighbours_fit(side_dim: int, x: int, y: int, k: int)
    requires
        side_dim > 0,
        side_dim * side_dim <= i32::MAX,
        0 <= x < side_dim,
        0 <= y < side_dim,
        0 <= k < 8,
    ensures
        neighbour_fits(side_dim, x, y, k),
{
    if dir_allowed(side_dim, x, y, k) {
        let x2 = x + dir_dx(k);
        let y2 = y + dir_dy(k);
        assert(0 <= x2 < side_dim && 0 <= y2 < side_dim);
        assert(side_dim <= side_dim * side_dim) by (nonlinear_arith) requires side_dim > 0;
        assert(0 <= y2 * side_dim <= side_dim * side_dim) by (nonlinear_arith)
            requires 0 <= y2 < side_dim, side_dim > 0;
        lemma_coords_in_grid(side_dim, x2, y2);
    }
}

/// Link table of a square grid `side_dim` cells wide whose walkable cells are marked
/// by `valid` (see `spec_link`).
pub fn build_links(side_dim: i32, valid: &Vec<bool>) -> (links: Vec<Vec<i32>>)
    requires
        side_dim > 0,
        side_dim * side_dim <= i32::MAX,
        valid@.len() == side_dim * side_dim,
    ensures
        links@.len() == valid@.len(),
        forall|i: int| 0 <= i < links@.len() ==> (#[trigger] links@[i])@.len() == LINKS_PER_NODE,
        forall|i: int, k: int| 0 <= i < links@.len() && 0 <= k < LINKS_PER_NODE ==>
            (#[trigger] links@[i]@[k]) == spec_link(side_dim as int, valid@, i, k),
{
    let n = valid.len();
    let mut links: Vec<Vec<i32>> = Vec::new();
    let mut idx: usize = 0;
    while idx < n
        invariant
            n == valid@.len(),
            n == side_dim * side_dim,
            side_dim > 0,
            side_dim * side_dim <= i32::MAX,
            idx <= n,
            links@.len() == idx,
            forall|i: int| 0 <= i < idx ==> (#[trigger] links@[i])@.len() == LINKS_PER_NODE,
            forall|i: int, k: int| 0 <= i < idx && 0 <= k < LINKS_PER_NODE ==>
                (#[trigger] links@[i]@[k]) == spec_link(side_dim as int, valid@, i, k),
        decreases n - idx,
    {
        let ghost s = side_dim as int;
        proof { lemma_cell_coords(s, idx as int); }
        let (grid_x, grid_y) = coord_from_1d(side_dim, idx as i32);
        if !valid[idx] {
            links.push(vec![-1, -1, -1, -1, -1, -1, -1, -1]);
            assert forall|k: int| 0 <= k < LINKS_PER_NODE implies
                (#[trigger] links@[idx as int]@[k]) == spec_link(s, valid@, idx as int, k) by {}
        } else {
            proof {
                assert forall|k: int| 0 <= k < 8 implies neighbour_fits(s, grid_x as int, grid_y as int, k) by {
                    lemma_grid_neighbours_fit(s, grid_x as int, grid_y as int, k);
                }
            }
            let mut nbours = get_neighbours(side_dim, grid_x, grid_y);
            let ghost orig = nbours@;
            let mut n_i: usize = 0;
            while n_i < 8
                invariant
                    n == valid@.len(),
                    n == side_dim * side_dim,
                    side_dim > 0,
                    idx < n,
                    valid@[idx as int],
                    nbours@.len() == 8,
                    orig.len() == 8,
                    (grid_x as int, grid_y as int) == spec_coord_from_1d(s, idx as int),
                    0 <= grid_x < side_dim,
                    0 <= grid_y < side_dim,
                    s == side_dim,
                    forall|k: int| 0 <= k < 8 ==> orig[k] == spec_neighbour(s, grid_x as int, grid_y as int, k),
                    forall|k: int| 0 <= k < 8 && k >= n_i ==> nbours@[k] == orig[k],
                    forall|k: int| 0 <= k < n_i ==> nbours@[k] == spec_link(s, valid@, idx as int, k),
                    n_i <= 8,
                decreases 8 - n_i,
            {
                let ghost k = n_i as int;
                assert(nbours@[k] == orig[k]);
                if nbours[n_i] >= 0 {
                    proof {
                        lemma_neighbour_symmetric(s, grid_x as int, grid_y as int, k);
                        lemma_coords_in_grid(s, grid_x + dir_dx(k), grid_y + dir_dy(k));
                    }
                    if !valid[nbours[n_i] as usize] {
                        nbours.set(n_i, -1);
                    }
                }
                n_i += 1;
            }
            links.push(nbours);
        }
        idx += 1;
    }
    links
}

/// The link table of a grid is well formed, and links are symmetric: where cell `i`
/// links to cell `j` in direction `k`, cell `j` links back to `i` in direction `7 - k`.
pub proof fn lemma_links_symmetric(side_dim: int, valid: Seq<bool>, i: int, k: int)
    requires
        side_dim > 0,
        valid.len() == side_dim * side_dim,
        0 <= i < valid.len(),
        0 <= k < LINKS_PER_NODE,
        spec_link(side_dim, valid, i, k) != -1,
    ensures
        ({
            let j = spec_link(side_dim, valid, i, k);
            &&& 0 <= j < valid.len()
            &&& valid[j]
            &&& spec_link(side_dim, valid, j, 7 - k) == i
        }),
{
    lemma_cell_coords(side_dim, i);
    let (x, y) = spec_coord_from_1d(side_dim, i);
    lemma_neighbour_symmetric(side_dim, x, y, k);
    let x2 = x + dir_dx(k);
    let y2 = y + dir_dy(k);
    lemma_coords_in_grid(side_dim, x2, y2);
    let j = spec_coord_to_1d(side_dim, x2, y2);
    lemma_coord_to_from_round_trip(side_dim, x2, y2);
}

/// Every link of a built table is -1 or a walkable cell of the grid.
pub proof fn lemma_links_well_formed(side_dim: int, valid: Seq<bool>, links: Seq<Vec<i32>>)
    requires
        side_dim > 0,
        valid.len() == side_dim * side_dim,
        links.len() == valid.len(),
        forall|i: int| 0 <= i < links.len() ==> (#[trigger] links[i])@.len() == LINKS_PER_NODE,
        forall|i: int, k: int| 0 <= i < links.len() && 0 <= k < LINKS_PER_NODE ==>
            (#[trigger] links[i]@[k]) == spec_link(side_dim, valid, i, k),
    ensures
        links_well_formed(links, valid),
        forall|i: int, k: int| 0 <= i < links.len() && 0 <= k < links[i]@.len() ==> {
            let t = #[trigger] links[i]@[k];
            t == -1 || valid[t as int]
        },
{
    assert forall|i: int, k: int| 0 <= i < links.len() && 0 <= k < links[i]@.len() implies {
        let t = #[trigger] links[i]@[k];
        t == -1 || (0 <= t < valid.len() && valid[t as int])
    } by {
        if spec_link(side_dim, valid, i, k) != -1 {
            lemma_links_symmetric(side_dim, valid, i, k);
        }
    }
}


/// Node costs are kept in hundredths.
pub const NODE_COST_SCALE: i64 = 100;

/// Number of entries of a link list that lead to a cell (all but the -1 entries).
pub open spec fn count_links(s: Seq<i32>) -> nat
    decreases s.len(),
{
    if s.len() == 0 {
        0
    } else {
        count_links(s.drop_last()) + if s.last() >= 0 { 1nat } else { 0nat }
    }
}

/// Cost of a node with the given link list, in hundredths: 1 plus 0.15 for each of
/// the eight directions without a neighbour to link to, which gives agents a slight
/// preference for open spaces.
pub open spec fn spec_node_cost(links: Seq<i32>) -> int {
    NODE_COST_SCALE + 15 * (8 - count_links(links))
}

proof fn lemma_count_links_bound(s: Seq<i32>)
    ensures
        count_links(s) <= s.len(),
    decreases s.len(),
{
    if s.len() > 0 {
        lemma_count_links_bound(s.drop_last());
    }
}

/// Node costs of a link table, in hundredths (see `spec_node_cost`).
pub fn link_costs(links: &Vec<Vec<i32>>) -> (costs: Vec<i64>)
    requires
        forall|i: int| 0 <= i < links@.len() ==> (#[trigger] links@[i])@.len() <= i32::MAX,
    ensures
        costs@.len() == links@.len(),
        forall|i: int| 0 <= i < links@.len() ==> (#[trigger] costs@[i]) == spec_node_cost(links@[i]@),
{
    let mut costs: Vec<i64> = Vec::new();
    let mut idx: usize = 0;
    while idx < links.len()
        invariant
            idx <= links@.len(),
            costs@.len() == idx,
            forall|i: int| 0 <= i < links@.len() ==> (#[trigger] links@[i])@.len() <= i32::MAX,
            forall|i: int| 0 <= i < idx ==> (#[trigger] costs@[i]) == spec_node_cost(links@[i]@),
        decreases links@.len() - idx,
    {
        let node_links = &links[idx];
        let mut count: i64 = 0;
        let mut j: usize = 0;
        while j < node_links.len()
            invariant
                j <= node_links@.len(),
                node_links@.len() <= i32::MAX,
                count == count_links(node_links@.subrange(0, j as int)),
            decreases node_links@.len() - j,
        {
            proof {
                lemma_count_links_bound(node_links@.subrange(0, j as int));
                assert(node_links@.subrange(0, j + 1).drop_last() =~= node_links@.subrange(0, j as int));
            }
            if node_links[j] >= 0 {
                count += 1;
            }
            j += 1;
        }
        proof {
            assert(node_links@.subrange(0, j as int) =~= node_links@);
            lemma_count_links_bound(node_links@);
        }
        costs.push(NODE_COST_SCALE + 15 * (8 - count));
        idx += 1;
    }
    costs
}

/// A rounded grid coordinate clamped to the cells `0..grid_size`.
pub open spec fn clamp_coord(v: int, grid_size: int) -> int {
    if v < 0 { 0 } else if v > grid_size - 1 { grid_size - 1 } else { v }
}

/// Clamps a rounded grid coordinate pair to the cells of a grid `grid_size` cells wide.
pub fn clamp_cell_2d(rounded_x: i32, rounded_y: i32, grid_size: i32) -> (xy: (i32, i32))
    requires
        grid_size >= 1,
    ensures
        xy.0 == clamp_coord(rounded_x as int, grid_size as int),
        xy.1 == clamp_coord(rounded_y as int, grid_size as int),
{
    let max = grid_size - 1;
    let x = if rounded_x < 0 { 0 } else if rounded_x > max { max } else { rounded_x };
    let y = if rounded_y < 0 { 0 } else if rounded_y > max { max } else { rounded_y };
    (x, y)
}

/// Flat index, in the game's grid of `SIDE_NODE_NO` cells per side, of a rounded
/// grid coordinate pair clamped to a grid `grid_size` cells wide.
pub fn clamped_cell_1d(rounded_x: i32, rounded_y: i32, grid_size: i32) -> (idx: i32)
    requires
        grid_size >= 1,
        fits_i32(clamp_coord(rounded_y as int, grid_size as int) * SIDE_NODE_NO
            + clamp_coord(rounded_x as int, grid_size as int)),
    ensures
        idx == spec_coord_to_1d(SIDE_NODE_NO as int, clamp_coord(rounded_x as int, grid_size as int),
            clamp_coord(rounded_y as int, grid_size as int)),
        grid_size <= SIDE_NODE_NO ==> 0 <= idx < SIDE_NODE_NO * SIDE_NODE_NO,
{
    let (x, y) = clamp_cell_2d(rounded_x, rounded_y, grid_size);
    proof {
        if grid_size <= SIDE_NODE_NO {
            lemma_coords_in_grid(SIDE_NODE_NO as int, x as int, y as int);
        }
        assert(0 <= y * SIDE_NODE_NO) by (nonlinear_arith) requires 0 <= y;
    }
    coord_to_1d(SIDE_NODE_NO, x, y)
}

/// Whether the navigation grid still has to be generated: not done by this system
/// before, the grid not complete, and at least one wall to check cells against.
pub fn should_generate_grid(ran: bool, complete: bool, wall_count: usize) -> (generate: bool)
    ensures
        generate == (!ran && !complete && wall_count >= 1),
{
    if ran {
        return false;
    }
    if complete {
        return false;
    }
    if wall_count < 1 {
        return false;
    }
    true
}

/// Remembers whether the grid generation ran.
pub struct GridState {
    pub ran: bool,
}

impl Default for GridState {
    /// Generation has not run yet.
    fn default() -> (state: GridState)
        ensures
            !state.ran,
    {
        GridState { ran: false }
    }
}

/// The navigation grid: per cell, whether it is walkable, its links to walkable
/// neighbours and its cost (in hundredths).
pub struct NavGrid {
    pub costs: Vec<i64>,
    pub links: Vec<Vec<i32>>,
    pub valid: Vec<bool>,
    pub paths: Vec<i32>,
    pub complete: bool,
}

impl NavGrid {
    /// Each of the grid's links is -1 or leads to a cell of the grid.
    pub open spec fn wf(&self) -> bool {
        links_well_formed(self.links@, self.valid@)
    }

    /// An empty grid that is not built yet.
    pub fn new() -> (grid: NavGrid)
        ensures
            grid.costs@.len() == 0,
            grid.links@.len() == 0,
            grid.valid@.len() == 0,
            grid.paths@.len() == 0,
            !grid.complete,
            grid.wf(),
    {
        NavGrid { costs: Vec::new(), links: Vec::new(), valid: Vec::new(), paths: Vec::new(), complete: false }
    }

    /// Builds the complete grid of a square `side_dim` cells wide from the
    /// walkability of its cells: links by `build_links`, costs by `link_costs`.
    pub fn build(side_dim: i32, valid: Vec<bool>) -> (grid: NavGrid)
        requires
            side_dim > 0,
            side_dim * side_dim <= i32::MAX,
            valid@.len() == side_dim * side_dim,
        ensures
            grid.valid@ == valid@,
            grid.links@.len() == valid@.len(),
            forall|i: int| 0 <= i < valid@.len() ==> (#[trigger] grid.links@[i])@.len() == LINKS_PER_NODE,
            forall|i: int, k: int| 0 <= i < valid@.len() && 0 <= k < LINKS_PER_NODE ==>
                (#[trigger] grid.links@[i]@[k]) == spec_link(side_dim as int, valid@, i, k),
            grid.costs@.len() == valid@.len(),
            forall|i: int| 0 <= i < valid@.len() ==> (#[trigger] grid.costs@[i]) == spec_node_cost(grid.links@[i]@),
            grid.paths@.len() == 0,
            grid.complete,
            grid.wf(),
    {
        let links = build_links(side_dim, &valid);
        let costs = link_costs(&links);
        proof { lemma_links_well_formed(side_dim as int, valid@, links@); }
        NavGrid { costs, links, valid, paths: Vec::new(), complete: true }
    }
}

} // verus!
