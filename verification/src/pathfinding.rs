//! A* search over the navigation grid.
//!
//! Costs are fixed-point numbers in ten-thousandths: a straight link costs 1.0, a
//! diagonal link 1.4, the heuristic is the Manhattan distance in cells, and two
//! costs that differ by less than 0.0001 count as equal, which in this unit is
//! plain equality.
//!
//! The open list is kept sorted by descending f-cost, so that its last entry, the
//! one `pop` takes, is an open node of lowest f-cost.
use vstd::prelude::*;
use crate::grid::{NavGrid, links_well_formed, spec_coord_from_1d, coord_from_1d, SIDE_NODE_NO};

verus! {

/// Costs are kept in ten-thousandths.
pub const COST_SCALE: i64 = 10_000;

/// Cost of a straight (horizontal or vertical) link.
pub const STRAIGHT_LINK_COST: i64 = 10_000;

/// Cost of a diagonal link, proportionally higher since it is longer.
pub const DIAGONAL_LINK_COST: i64 = 14_000;

/// Cost value every node starts a search with (999.0).
pub const UNVISITED_COST: i64 = 9_990_000;

/// Cost value a freshly sized buffer holds (-1.0).
pub const UNSET_COST: i64 = -10_000;

/// Number of expansion steps after which a search gives up.
pub const MAX_SEARCH_STEPS: i32 = 5000;

/// Node search states.
pub const NODE_UNCHECKED: u8 = 0;
pub const NODE_OPEN: u8 = 1;
pub const NODE_CLOSED: u8 = 2;

/// Per-node scratch space of a search, sized to the grid.
pub struct AStarBuffer {
    pub parents: Vec<i32>,
    pub h_cost: Vec<i64>,
    pub g_cost: Vec<i64>,
    pub f_cost: Vec<i64>,
    /// 0 - unchecked, 1 - open, 2 - closed
    pub state: Vec<u8>,
    pub open_sorted_idxs: Vec<i32>,
}

impl AStarBuffer {
    /// The buffer's open list and per-node values.
    pub open spec fn values(&self) -> SearchValues {
        (self.open_sorted_idxs@, self.state@, self.parents@, self.h_cost@, self.g_cost@, self.f_cost@)
    }

    /// Every per-node vector has one entry per node of a grid of `n` nodes.
    pub open spec fn fits(&self, n: int) -> bool {
        &&& self.parents@.len() == n
        &&& self.h_cost@.len() == n
        &&& self.g_cost@.len() == n
        &&& self.f_cost@.len() == n
        &&& self.state@.len() == n
    }

    /// A buffer for a grid of `n` nodes: no parents, unchecked states, unset costs
    /// and an empty open list.
    pub fn for_nodes(n: usize) -> (buffer: AStarBuffer)
        ensures
            buffer.fits(n as int),
            forall|i: int| 0 <= i < n ==> buffer.parents@[i] == -1,
            forall|i: int| 0 <= i < n ==> buffer.state@[i] == NODE_UNCHECKED,
            forall|i: int| 0 <= i < n ==> buffer.h_cost@[i] == UNSET_COST,
            forall|i: int| 0 <= i < n ==> buffer.g_cost@[i] == UNSET_COST,
            forall|i: int| 0 <= i < n ==> buffer.f_cost@[i] == UNSET_COST,
            buffer.open_sorted_idxs@.len() == 0,
    {
        AStarBuffer {
            parents: vec![-1; n],
            state: vec![NODE_UNCHECKED; n],
            h_cost: vec![UNSET_COST; n],
            g_cost: vec![UNSET_COST; n],
            f_cost: vec![UNSET_COST; n],
            open_sorted_idxs: Vec::with_capacity(n),
        }
    }
}

/// Cost of a link in direction `link_dir` of the neighbour layout.
pub open spec fn spec_link_cost(link_dir: int) -> i64 {
    if link_dir == 0 || link_dir == 2 || link_dir == 5 || link_dir == 7 {
        DIAGONAL_LINK_COST
    } else {
        STRAIGHT_LINK_COST
    }
}

/// Cost of a link in direction `link_dir`: diagonal links are proportionally
/// higher cost, due to being longer.
pub fn cost_for_link_dir(link_dir: usize) -> (cost: i64)
    ensures
        cost == spec_link_cost(link_dir as int),
{
    if link_dir == 0 || link_dir == 2 || link_dir == 5 || link_dir == 7 {
        return DIAGONAL_LINK_COST;
    }
    STRAIGHT_LINK_COST
}

/// Every entry of `open` indexes into `costs`.
pub open spec fn indexes_into(open: Seq<i32>, n: int) -> bool {
    forall|i: int| 0 <= i < open.len() ==> 0 <= #[trigger] open[i] < n
}

/// `open` is sorted by descending cost: its last entry has the lowest cost.
pub open spec fn sorted_desc(open: Seq<i32>, costs: Seq<i64>) -> bool {
    forall|i: int, j: int| 0 <= i < j < open.len() ==>
        costs[#[trigger] open[i] as int] >= costs[#[trigger] open[j] as int]
}

/// `new` is `old` with `node` inserted at one position.
pub open spec fn inserted_once(old: Seq<i32>, new: Seq<i32>, node: i32) -> bool {
    exists|pos: int| 0 <= pos <= old.len() && new == old.insert(pos, node)
}

/// `new` is `old` without the first occurrence of `node`, or `old` itself where
/// `node` does not occur.
pub open spec fn plucked(old: Seq<i32>, new: Seq<i32>, node: i32) -> bool {
    if old.contains(node) {
        exists|i: int| 0 <= i < old.len() && old[i] == node
            && (forall|j: int| 0 <= j < i ==> old[j] != node)
            && new == old.remove(i)
    } else {
        new == old
    }
}

/// The place the binary search of `add_to_open` finds for a node of f-cost `cost`
/// between positions `left` and `right` of `open`: it halves the range, moving
/// right past entries of higher cost and left before entries of lower cost, and
/// stops at the first middle entry of equal cost.
pub open spec fn search_place(open: Seq<i32>, costs: Seq<i64>, cost: i64, left: int, right: int) -> int
    decreases right - left,
{
    if left >= right {
        left
    } else {
        let mid = left + (right - left) / 2;
        let mid_cost = costs[open[mid] as int];
        if mid_cost > cost {
            search_place(open, costs, cost, mid + 1, right)
        } else if mid_cost == cost {
            mid
        } else {
            search_place(open, costs, cost, left, mid)
        }
    }
}

/// Inserts `node_idx`, whose f-cost is `f_cost`, into the open list found by a
/// binary search on `f_cost_vector`: in a list sorted by descending f-cost it lands
/// after every entry of higher cost and before every entry of lower cost, so the
/// list stays sorted.
pub fn add_to_open(open_vector: &mut Vec<i32>, f_cost_vector: &mut Vec<i64>, node_idx: i32, f_cost: i64)
    requires
        indexes_into(old(open_vector)@, old(f_cost_vector)@.len() as int),
    ensures
        final(f_cost_vector)@ == old(f_cost_vector)@,
        inserted_once(old(open_vector)@, final(open_vector)@, node_idx),
        final(open_vector)@ == old(open_vector)@.insert(
            search_place(old(open_vector)@, old(f_cost_vector)@, f_cost, 0, old(open_vector)@.len() as int), node_idx),
        sorted_desc(old(open_vector)@, old(f_cost_vector)@) ==> exists|pos: int|
            0 <= pos <= old(open_vector)@.len()
            && final(open_vector)@ == old(open_vector)@.insert(pos, node_idx)
            && (forall|j: int| 0 <= j < pos ==> old(f_cost_vector)@[#[trigger] old(open_vector)@[j] as int] >= f_cost)
            && (forall|j: int| pos <= j < old(open_vector)@.len()
                ==> old(f_cost_vector)@[#[trigger] old(open_vector)@[j] as int] <= f_cost),
{
    let ghost old_open = open_vector@;
    if open_vector.len() == 0 {
        open_vector.push(node_idx);
        assert(open_vector@ == old_open.insert(0, node_idx));
        return;
    }
    let len = open_vector.len();
    let mut left: usize = 0;
    let mut right: usize = len;
    let mut size: usize = len;
    let mut found: Option<usize> = None;
    let ghost place = search_place(old_open, f_cost_vector@, f_cost, 0, len as int);
    while left < right
        invariant_except_break
            found is None,
            search_place(old_open, f_cost_vector@, f_cost, left as int, right as int) == place,
        invariant
            place == search_place(old_open, f_cost_vector@, f_cost, 0, len as int),
            open_vector@ == old_open,
            len == old_open.len(),
            indexes_into(old_open, f_cost_vector@.len() as int),
            left <= right <= len,
            size == right - left,
            sorted_desc(old_open, f_cost_vector@) ==> forall|j: int| 0 <= j < left
                ==> f_cost_vector@[#[trigger] old_open[j] as int] > f_cost,
            sorted_desc(old_open, f_cost_vector@) ==> forall|j: int| right <= j < len
                ==> f_cost_vector@[#[trigger] old_open[j] as int] < f_cost,
        ensures
            left <= len,
            found matches Some(m) ==> m == place,
            found is None ==> left == place,
            found matches Some(m) ==> m < len && f_cost_vector@[old_open[m as int] as int] == f_cost,
            found is None ==> (sorted_desc(old_open, f_cost_vector@) ==> (forall|j: int| 0 <= j < left
                ==> f_cost_vector@[#[trigger] old_open[j] as int] > f_cost)
                && (forall|j: int| left <= j < len ==> f_cost_vector@[#[trigger] old_open[j] as int] < f_cost)),
        decreases right - left,
    {
        let mid = left + size / 2;
        let mid_cost = f_cost_vector[open_vector[mid] as usize];
        if mid_cost > f_cost {
            left = mid + 1;
        } else if mid_cost == f_cost {
            found = Some(mid);
            break;
        } else {
            right = mid;
        }
        size = right - left;
    }
    let pos = match found {
        Some(m) => m,
        None => left,
    };
    open_vector.insert(pos, node_idx);
    proof {
        if sorted_desc(old_open, f_cost_vector@) {
            if found is Some {
                assert forall|j: int| 0 <= j < pos implies f_cost_vector@[#[trigger] old_open[j] as int] >= f_cost by {
                    assert(f_cost_vector@[old_open[j] as int] >= f_cost_vector@[old_open[pos as int] as int]);
                }
                assert forall|j: int| pos <= j < len implies f_cost_vector@[#[trigger] old_open[j] as int] <= f_cost by {
                    if j > pos {
                        assert(f_cost_vector@[old_open[pos as int] as int] >= f_cost_vector@[old_open[j] as int]);
                    }
                }
            }
        }
    }
}

/// Removes the first occurrence of `node_idx` from the open list; a list without it
/// stays as it is.
pub fn pluck_from_open(open_vector: &mut Vec<i32>, node_idx: i32)
    ensures
        plucked(old(open_vector)@, final(open_vector)@, node_idx),
{
    if open_vector.len() == 0 {
        return;
    }
    let mut item: usize = 0;
    while item < open_vector.len()
        invariant
            open_vector@ == old(open_vector)@,
            item <= open_vector@.len(),
            forall|j: int| 0 <= j < item ==> open_vector@[j] != node_idx,
        decreases open_vector@.len() - item,
    {
        if open_vector[item] == node_idx {
            let ghost before = open_vector@;
            open_vector.remove(item);
            proof {
                assert(before.contains(node_idx));
            }
            return;
        }
        item += 1;
    }
    proof {
        if open_vector@.contains(node_idx) {
            let i = choose|i: int| 0 <= i < open_vector@.len() && open_vector@[i] == node_idx;
            assert(open_vector@[i] != node_idx);
        }
    }
}

/// Plucking a node that was not in the open list right after adding it gives the
/// open list back as it was.
pub proof fn lemma_pluck_undoes_add(open: Seq<i32>, added: Seq<i32>, plucked_out: Seq<i32>, node: i32)
    requires
        !open.contains(node),
        inserted_once(open, added, node),
        plucked(added, plucked_out, node),
    ensures
        plucked_out == open,
{
    let pos = choose|pos: int| 0 <= pos <= open.len() && added == open.insert(pos, node);
    assert(added[pos] == node);
    assert(added.contains(node));
    let i = choose|i: int| 0 <= i < added.len() && added[i] == node
        && (forall|j: int| 0 <= j < i ==> added[j] != node) && plucked_out == added.remove(i);
    if i < pos {
        assert(open[i] == node);
    } else if i > pos {
        assert(added[pos] != node);
    }
    assert(plucked_out =~= open);
}

/// Sorts the open list by descending g-cost.
pub fn sort_open(open_vec: &mut Vec<i32>, g_cost_vec: &Vec<i64>)
    requires
        indexes_into(old(open_vec)@, g_cost_vec@.len() as int),
    ensures
        final(open_vec)@.to_multiset() == old(open_vec)@.to_multiset(),
        sorted_desc(final(open_vec)@, g_cost_vec@),
{
    let n = open_vec.len();
    let mut i: usize = 1;
    if n == 0 {
        return;
    }
    while i < n
        invariant
            1 <= i <= n,
            n == open_vec@.len(),
            open_vec@.to_multiset() == old(open_vec)@.to_multiset(),
            indexes_into(open_vec@, g_cost_vec@.len() as int),
            forall|a: int, b: int| 0 <= a < b < i ==>
                g_cost_vec@[#[trigger] open_vec@[a] as int] >= g_cost_vec@[#[trigger] open_vec@[b] as int],
        decreases n - i,
    {
        let mut j: usize = i;
        while j > 0 && g_cost_vec[open_vec[j - 1] as usize] < g_cost_vec[open_vec[j] as usize]
            invariant
                0 <= j <= i < n,
                n == open_vec@.len(),
                open_vec@.to_multiset() == old(open_vec)@.to_multiset(),
                indexes_into(open_vec@, g_cost_vec@.len() as int),
                forall|a: int, b: int| 0 <= a < b <= i && a != j && b != j ==>
                    g_cost_vec@[#[trigger] open_vec@[a] as int] >= g_cost_vec@[#[trigger] open_vec@[b] as int],
                forall|b: int| j < b <= i ==>
                    g_cost_vec@[open_vec@[j as int] as int] > g_cost_vec@[#[trigger] open_vec@[b] as int],
            decreases j,
        {
            let a = open_vec[j - 1];
            let b = open_vec[j];
            let ghost before = open_vec@;
            open_vec.set(j - 1, b);
            open_vec.set(j, a);
            proof {
                assert(open_vec@ == before.update(j - 1, b).update(j as int, a));
                lemma_swap_multiset(before, j - 1, j as int);
            }
            j -= 1;
        }
        proof {
            assert forall|a: int, b: int| 0 <= a < b < i + 1 implies
                g_cost_vec@[#[trigger] open_vec@[a] as int] >= g_cost_vec@[#[trigger] open_vec@[b] as int] by {
                if b == j && a < j - 1 {
                    assert(g_cost_vec@[open_vec@[a] as int] >= g_cost_vec@[open_vec@[j - 1] as int]);
                }
            }
        }
        i += 1;
    }
}

/// Swapping two entries keeps the multiset of a sequence.
proof fn lemma_swap_multiset(s: Seq<i32>, a: int, b: int)
    requires
        0 <= a < s.len(),
        0 <= b < s.len(),
    ensures
        s.update(a, s[b]).update(b, s[a]).to_multiset() == s.to_multiset(),
{
    broadcast use vstd::multiset::group_multiset_axioms;
    let ms = s.to_multiset();
    let s1 = s.update(a, s[b]);
    vstd::seq_lib::to_multiset_update(s, a, s[b]);
    vstd::seq_lib::to_multiset_update(s1, b, s[a]);
    s.to_multiset_ensures();
    if a != b {
        assert(s1[b] == s[b]);
        assert(ms.count(s[a]) > 0) by { assert(s.contains(s[a])); }
        assert(ms.insert(s[b]).remove(s[a]).insert(s[a]).remove(s[b]) =~= ms);
    } else {
        assert(ms.insert(s[b]).remove(s[a]).insert(s[a]).remove(s[b]) =~= ms);
    }
}


/// Following parent links from node `v` reaches a node without parent (-1) within
/// `fuel` steps, every node on the way indexing into `parents`.
pub open spec fn chain_ends(parents: Seq<i32>, v: int, fuel: nat) -> bool
    decreases fuel,
{
    0 <= v < parents.len() && (parents[v] == -1 || (fuel > 0 && chain_ends(parents, parents[v] as int, (fuel - 1) as nat)))
}

/// `path` is the chain of parent links that ends at `target`, root first: it starts
/// at a node without parent and each later node has the one before it as parent.
pub open spec fn is_parent_chain(parents: Seq<i32>, path: Seq<usize>, target: int) -> bool {
    &&& path.len() >= 1
    &&& path.last() == target
    &&& forall|i: int| 0 <= i < path.len() ==> #[trigger] path[i] < parents.len()
    &&& parents[path[0] as int] == -1
    &&& forall|i: int| 1 <= i < path.len() ==> parents[#[trigger] path[i] as int] == path[i - 1]
}

/// The path from the root of the parent chain to `target_index`, root first.
pub fn build_path(parents: &Vec<i32>, target_index: usize) -> (path: Vec<usize>)
    requires
        exists|fuel: nat| chain_ends(parents@, target_index as int, fuel),
    ensures
        is_parent_chain(parents@, path@, target_index as int),
{
    let ghost mut fuel: nat = choose|fuel: nat| chain_ends(parents@, target_index as int, fuel);
    let mut backwards: Vec<usize> = Vec::new();
    backwards.push(target_index);
    let mut current = target_index;
    let mut parent = parents[target_index];
    while parent != -1
        invariant
            chain_ends(parents@, current as int, fuel),
            current < parents@.len(),
            parent == parents@[current as int],
            backwards@.len() >= 1,
            backwards@[0] == target_index,
            backwards@.last() == current,
            forall|i: int| 0 <= i < backwards@.len() ==> #[trigger] backwards@[i] < parents@.len(),
            forall|i: int| 0 <= i < backwards@.len() - 1 ==> parents@[#[trigger] backwards@[i] as int] == backwards@[i + 1],
        decreases fuel,
    {
        proof {
            assert(fuel > 0 && chain_ends(parents@, parent as int, (fuel - 1) as nat));
        }
        current = parent as usize;
        backwards.push(current);
        parent = parents[current];
        proof { fuel = (fuel - 1) as nat; }
    }
    let len = backwards.len();
    let mut path: Vec<usize> = Vec::new();
    let mut i: usize = 0;
    while i < len
        invariant
            len == backwards@.len(),
            i <= len,
            path@.len() == i,
            forall|j: int| 0 <= j < i ==> #[trigger] path@[j] == backwards@[len - 1 - j],
        decreases len - i,
    {
        path.push(backwards[len - 1 - i]);
        i += 1;
    }
    proof {
        assert forall|j: int| 1 <= j < path@.len() implies parents@[#[trigger] path@[j] as int] == path@[j - 1] by {
            assert(path@[j] == backwards@[len - 1 - j]);
            assert(path@[j - 1] == backwards@[len - 1 - j + 1]);
        }
        assert forall|j: int| 0 <= j < path@.len() implies #[trigger] path@[j] < parents@.len() by {
            assert(path@[j] == backwards@[len - 1 - j]);
        }
    }
    path
}

/// There is a link from node `u` to the walkable node `v`.
pub open spec fn is_link(links: Seq<Vec<i32>>, valid: Seq<bool>, u: int, v: int) -> bool {
    &&& 0 <= u < links.len()
    &&& 0 <= v < valid.len()
    &&& valid[v]
    &&& exists|k: int| 0 <= k < links[u]@.len() && links[u]@[k] == v
}

/// `path` is a walk along links: each node after the first is linked from the one
/// before it.
pub open spec fn is_walk(links: Seq<Vec<i32>>, valid: Seq<bool>, path: Seq<usize>) -> bool {
    &&& path.len() >= 1
    &&& forall|i: int| 0 <= i < path.len() - 1 ==> is_link(links, valid, #[trigger] path[i] as int, path[i + 1] as int)
}

/// Node `t` can be reached from node `s` by a walk along links.
pub open spec fn reachable(links: Seq<Vec<i32>>, valid: Seq<bool>, s: int, t: int) -> bool {
    exists|path: Seq<usize>| is_walk(links, valid, path) && path[0] == s && path.last() == t
}


/// Largest heuristic of a node of a grid indexed by `i32`: 164 columns plus
/// 13015052 rows of the game's grid, in cost units.
pub const HEURISTIC_MAX: i64 = 130_152_160_000;

pub open spec fn abs_int(v: int) -> int {
    if v < 0 { -v } else { v }
}

/// Heuristic of node `v` towards the cell at `end_coord`: the Manhattan distance, in
/// cells of the game's grid, in cost units.
pub open spec fn spec_heuristic(end_coord: (int, int), v: int) -> int {
    let (x, y) = spec_coord_from_1d(SIDE_NODE_NO as int, v);
    COST_SCALE * (abs_int(end_coord.0 - x) + abs_int(end_coord.1 - y))
}

/// Bound on every g-cost after `step` expansions.
pub open spec fn g_bound(step: int) -> int {
    UNVISITED_COST + DIAGONAL_LINK_COST * step
}

/// The parent of node `v`, where it has one, is a closed node that links to `v`,
/// and was closed before `v` where `v` is closed too.
pub open spec fn parent_ok(
    links: Seq<Vec<i32>>,
    valid: Seq<bool>,
    state: Seq<u8>,
    parents: Seq<i32>,
    rank: Seq<int>,
    v: int,
) -> bool {
    parents[v] != -1 ==> {
        let p = parents[v] as int;
        &&& 0 <= p < valid.len()
        &&& state[p] == NODE_CLOSED
        &&& is_link(links, valid, p, v)
        &&& (state[v] == NODE_CLOSED ==> rank[p] < rank[v])
    }
}

/// Each of the first `upto` links of node `u` leads nowhere, to an unwalkable
/// node, to a closed node or to an open one.
pub open spec fn neighbours_seen(links: Seq<Vec<i32>>, valid: Seq<bool>, state: Seq<u8>, open: Seq<i32>, u: int, upto: int) -> bool {
    forall|k: int| 0 <= k < upto ==> {
        let w = #[trigger] links[u]@[k];
        w == -1 || !valid[w as int] || state[w as int] == NODE_CLOSED || open.contains(w)
    }
}

/// What holds of a search's buffers between expansion steps, whether or not the
/// target was reached: `rank` numbers the closed nodes in the order they were
/// closed, and `step` expansions were made.
pub open spec fn search_core(
    links: Seq<Vec<i32>>,
    valid: Seq<bool>,
    open: Seq<i32>,
    state: Seq<u8>,
    parents: Seq<i32>,
    h: Seq<i64>,
    g: Seq<i64>,
    f: Seq<i64>,
    start: int,
    end: int,
    rank: Seq<int>,
    step: int,
) -> bool {
    let n = valid.len();
    &&& links_well_formed(links, valid)
    &&& n <= i32::MAX
    &&& state.len() == n
    &&& parents.len() == n
    &&& h.len() == n
    &&& g.len() == n
    &&& f.len() == n
    &&& rank.len() == n
    &&& 0 <= start < n
    &&& 0 <= end < n
    &&& 0 <= step
    &&& indexes_into(open, n as int)
    &&& open.no_duplicates()
    &&& forall|i: int| 0 <= i < open.len() ==> state[#[trigger] open[i] as int] == NODE_OPEN
    &&& forall|v: int| 0 <= v < n ==> #[trigger] parent_ok(links, valid, state, parents, rank, v)
    &&& parents[start] == -1
    &&& (state[start] == NODE_CLOSED || (open == seq![start as i32] && forall|v: int|
        0 <= v < n ==> #[trigger] state[v] != NODE_CLOSED))
    &&& forall|v: int| 0 <= v < n && v != start && (state[v] == NODE_CLOSED || open.contains(v as i32))
        ==> #[trigger] parents[v] != -1
    &&& forall|v: int| 0 <= v < n && #[trigger] state[v] == NODE_CLOSED ==> 0 <= rank[v] < step
    &&& forall|v: int| 0 <= v < n ==> 0 <= #[trigger] g[v] <= g_bound(step)
    &&& forall|v: int| 0 <= v < n ==> 0 <= #[trigger] h[v] <= HEURISTIC_MAX
    &&& forall|v: int| 0 <= v < n ==> 0 <= #[trigger] f[v] <= g_bound(step) + HEURISTIC_MAX
    &&& sorted_desc(open, f)
}

/// What holds of a search's buffers while it goes on: besides `search_core`, the
/// target is not closed and every link of a closed node leads nowhere, to a closed
/// node or to an open one.
pub open spec fn search_inv(
    links: Seq<Vec<i32>>,
    valid: Seq<bool>,
    open: Seq<i32>,
    state: Seq<u8>,
    parents: Seq<i32>,
    h: Seq<i64>,
    g: Seq<i64>,
    f: Seq<i64>,
    start: int,
    end: int,
    rank: Seq<int>,
    step: int,
) -> bool {
    &&& search_core(links, valid, open, state, parents, h, g, f, start, end, rank, step)
    &&& state[end] != NODE_CLOSED
    &&& forall|u: int| 0 <= u < valid.len() && #[trigger] state[u] == NODE_CLOSED
        ==> neighbours_seen(links, valid, state, open, u, links[u]@.len() as int)
}

/// Inserting a node at a place the binary search allows keeps the open list sorted.
proof fn lemma_insert_sorted(open: Seq<i32>, f: Seq<i64>, pos: int, node: i32)
    requires
        sorted_desc(open, f),
        0 <= pos <= open.len(),
        forall|j: int| 0 <= j < pos ==> f[#[trigger] open[j] as int] >= f[node as int],
        forall|j: int| pos <= j < open.len() ==> f[#[trigger] open[j] as int] <= f[node as int],
    ensures
        sorted_desc(open.insert(pos, node), f),
{
    let s = open.insert(pos, node);
    assert forall|i: int, j: int| 0 <= i < j < s.len() implies
        f[#[trigger] s[i] as int] >= f[#[trigger] s[j] as int] by {
        if i < pos && j < pos {
            assert(s[i] == open[i] && s[j] == open[j]);
        } else if i < pos && j == pos {
            assert(s[i] == open[i]);
        } else if i < pos {
            assert(s[i] == open[i] && s[j] == open[j - 1]);
        } else if i == pos {
            assert(s[j] == open[j - 1]);
        } else {
            assert(s[i] == open[i - 1] && s[j] == open[j - 1]);
        }
    }
}

/// Membership and distinctness after inserting a node that was not there.
proof fn lemma_insert_fresh(open: Seq<i32>, pos: int, node: i32)
    requires
        open.no_duplicates(),
        !open.contains(node),
        0 <= pos <= open.len(),
    ensures
        open.insert(pos, node).no_duplicates(),
        forall|x: i32| #[trigger] open.insert(pos, node).contains(x) <==> (open.contains(x) || x == node),
{
    let s = open.insert(pos, node);
    assert forall|x: i32| #[trigger] s.contains(x) <==> (open.contains(x) || x == node) by {
        if s.contains(x) {
            let i = choose|i: int| 0 <= i < s.len() && s[i] == x;
            if i < pos { assert(open[i] == x); } else if i > pos { assert(open[i - 1] == x); }
        }
        if open.contains(x) {
            let i = choose|i: int| 0 <= i < open.len() && open[i] == x;
            if i < pos { assert(s[i] == x); } else { assert(s[i + 1] == x); }
        }
        if x == node { assert(s[pos] == x); }
    }
    assert forall|i: int, j: int| 0 <= i < s.len() && 0 <= j < s.len() && i != j implies s[i] != s[j] by {
        if i == pos { assert(open.contains(s[j])) by {
            if j < pos { assert(open[j] == s[j]); } else { assert(open[j - 1] == s[j]); } } }
        else if j == pos { assert(open.contains(s[i])) by {
            if i < pos { assert(open[i] == s[i]); } else { assert(open[i - 1] == s[i]); } } }
        else {
            let oi = if i < pos { i } else { i - 1 };
            let oj = if j < pos { j } else { j - 1 };
            assert(s[i] == open[oi] && s[j] == open[oj]);
        }
    }
}

/// Removing the one occurrence of a node from a list without duplicates.
proof fn lemma_remove_node(open: Seq<i32>, f: Seq<i64>, f2: Seq<i64>, i: int)
    requires
        open.no_duplicates(),
        0 <= i < open.len(),
        sorted_desc(open, f),
        indexes_into(open, f.len() as int),
        f2.len() == f.len(),
        forall|v: int| 0 <= v < f.len() && v != open[i] ==> f2[v] == f[v],
    ensures
        open.remove(i).no_duplicates(),
        forall|x: i32| #[trigger] open.remove(i).contains(x) <==> (open.contains(x) && x != open[i]),
        sorted_desc(open.remove(i), f2),
        indexes_into(open.remove(i), f.len() as int),
{
    let s = open.remove(i);
    let node = open[i];
    assert forall|k: int| 0 <= k < s.len() implies #[trigger] s[k] == (if k < i { open[k] } else { open[k + 1] }) by {}
    assert forall|x: i32| #[trigger] s.contains(x) <==> (open.contains(x) && x != node) by {
        if s.contains(x) {
            let k = choose|k: int| 0 <= k < s.len() && s[k] == x;
            if k < i { assert(open[k] == x); } else { assert(open[k + 1] == x); }
        }
        if open.contains(x) && x != node {
            let k = choose|k: int| 0 <= k < open.len() && open[k] == x;
            if k < i { assert(s[k] == x); } else { assert(s[k - 1] == x); }
        }
    }
    assert forall|a: int, b: int| 0 <= a < b < s.len() implies f2[#[trigger] s[a] as int] >= f2[#[trigger] s[b] as int] by {
        let oa = if a < i { a } else { a + 1 };
        let ob = if b < i { b } else { b + 1 };
        assert(s[a] == open[oa] && s[b] == open[ob]);
        assert(open[oa] != node && open[ob] != node);
    }
}

/// Whether `x` is an entry of `open`.
fn open_contains(open: &Vec<i32>, x: i32) -> (r: bool)
    ensures
        r == open@.contains(x),
{
    let mut i: usize = 0;
    while i < open.len()
        invariant
            i <= open@.len(),
            forall|j: int| 0 <= j < i ==> open@[j] != x,
        decreases open@.len() - i,
    {
        if open[i] == x {
            return true;
        }
        i += 1;
    }
    false
}

/// Cells of a grid indexed by `i32` have small coordinates in the game's grid.
proof fn lemma_small_coords(v: int)
    requires
        0 <= v <= i32::MAX,
    ensures
        0 <= spec_coord_from_1d(SIDE_NODE_NO as int, v).0 < SIDE_NODE_NO,
        0 <= spec_coord_from_1d(SIDE_NODE_NO as int, v).1 <= 13015052,
{
    let x = v % 165;
    assert(0 <= x < 165);
    assert((v - x) / 165 <= 13015052) by (nonlinear_arith)
        requires 0 <= v <= 2147483647, 0 <= x < 165;
    assert((v - x) / 165 >= 0) by (nonlinear_arith)
        requires 0 <= v - x;
}


/// What holds while the links of the node `cur` just closed in expansion `step` are
/// processed, the first `upto` of them done.
pub open spec fn expanding(
    links: Seq<Vec<i32>>,
    valid: Seq<bool>,
    open: Seq<i32>,
    state: Seq<u8>,
    parents: Seq<i32>,
    h: Seq<i64>,
    g: Seq<i64>,
    f: Seq<i64>,
    start: int,
    end: int,
    rank: Seq<int>,
    step: int,
    cur: int,
    upto: int,
) -> bool {
    &&& search_core(links, valid, open, state, parents, h, g, f, start, end, rank, step + 1)
    &&& 0 <= cur < valid.len()
    &&& state[cur] == NODE_CLOSED
    &&& cur != end
    &&& state[end] != NODE_CLOSED
    &&& 0 <= g[cur] <= g_bound(step)
    &&& 0 <= upto <= links[cur]@.len()
    &&& neighbours_seen(links, valid, state, open, cur, upto)
    &&& forall|u: int| 0 <= u < valid.len() && #[trigger] state[u] == NODE_CLOSED && u != cur
        ==> neighbours_seen(links, valid, state, open, u, links[u]@.len() as int)
}

/// The open list, and the per-node states, parents, h-, g- and f-costs of a
/// search.
pub type SearchValues = (Seq<i32>, Seq<u8>, Seq<i32>, Seq<i64>, Seq<i64>, Seq<i64>);

/// Position of the first occurrence of `w` in `s` (where it occurs).
pub open spec fn first_index(s: Seq<i32>, w: i32) -> int {
    choose|i: int| 0 <= i < s.len() && s[i] == w && forall|j: int| 0 <= j < i ==> s[j] != w
}

/// The effect of processing link `k` of the closed node `cur`, which leads to `w`,
/// on the search values `st`: a link to nowhere, to an unwalkable node or to a
/// closed node changes nothing; a node that is not open yet is opened (marked
/// open) with `cur` as parent, the g-cost of `cur` plus the link's cost, the
/// heuristic towards `end_coord` and their sum as f-cost; an open node gets `cur`
/// as parent and the new g- and f-costs only where the way through `cur` is
/// cheaper, and is then taken out of the open list (its first occurrence) and put
/// back. A node is put into the open list where `add_to_open` places it (see
/// `search_place`) by its new f-cost.
pub open spec fn relax_one(
    st: SearchValues,
    valid: Seq<bool>,
    cur: int,
    k: int,
    w: i32,
    end_coord: (int, int),
) -> SearchValues {
    let (open, state, parents, h, g, f) = st;
    if w == -1 || !valid[w as int] || state[w as int] == NODE_CLOSED {
        st
    } else {
        let new_g = g[cur] + spec_link_cost(k);
        if open.contains(w) {
            if new_g < g[w as int] {
                let new_f = (new_g + h[w as int]) as i64;
                let f2 = f.update(w as int, new_f);
                let open1 = open.remove(first_index(open, w));
                (open1.insert(search_place(open1, f2, new_f, 0, open1.len() as int), w), state,
                    parents.update(w as int, cur as i32), h, g.update(w as int, new_g as i64), f2)
            } else {
                st
            }
        } else {
            let new_h = spec_heuristic(end_coord, w as int);
            let new_f = (new_g + new_h) as i64;
            let f2 = f.update(w as int, new_f);
            (open.insert(search_place(open, f2, new_f, 0, open.len() as int), w), state.update(w as int, NODE_OPEN),
                parents.update(w as int, cur as i32), h.update(w as int, new_h as i64), g.update(w as int, new_g as i64),
                f2)
        }
    }
}

/// The search values after the first `upto` links of the closed node `cur`, whose
/// link list is `cur_links`, were processed one after the other from `st`.
pub open spec fn relax_links(
    st: SearchValues,
    valid: Seq<bool>,
    cur: int,
    cur_links: Seq<i32>,
    upto: nat,
    end_coord: (int, int),
) -> SearchValues
    decreases upto,
{
    if upto == 0 {
        st
    } else {
        let k = (upto - 1) as nat;
        relax_one(relax_links(st, valid, cur, cur_links, k, end_coord), valid, cur, k as int,
            cur_links[k as int], end_coord)
    }
}

/// The first occurrence of an entry of a list is a position of it with no earlier
/// one.
proof fn lemma_first_index(s: Seq<i32>, w: i32)
    requires
        s.contains(w),
    ensures
        0 <= first_index(s, w) < s.len(),
        s[first_index(s, w)] == w,
        forall|j: int| 0 <= j < first_index(s, w) ==> s[j] != w,
    decreases s.len(),
{
    if s[0] == w {
        assert(0 <= 0int < s.len() && s[0] == w && forall|j: int| 0 <= j < 0 ==> s[j] != w);
    } else {
        let t = s.drop_first();
        let k = choose|k: int| 0 <= k < s.len() && s[k] == w;
        assert(t[k - 1] == w);
        lemma_first_index(t, w);
        let i = first_index(t, w) + 1;
        assert forall|j: int| 0 <= j < i implies s[j] != w by {
            if j > 0 {
                assert(s[j] == t[j - 1]);
            }
        }
        assert(0 <= i < s.len() && s[i] == w && forall|j: int| 0 <= j < i ==> s[j] != w);
    }
}

/// The binary search of `add_to_open` finds a place between its bounds.
proof fn lemma_search_place_range(open: Seq<i32>, costs: Seq<i64>, cost: i64, left: int, right: int)
    requires
        left <= right,
    ensures
        left <= search_place(open, costs, cost, left, right) <= right,
    decreases right - left,
{
    if left < right {
        let mid = left + (right - left) / 2;
        lemma_search_place_range(open, costs, cost, mid + 1, right);
        lemma_search_place_range(open, costs, cost, left, mid);
    }
}

/// Removing an entry other than `x` keeps `x` in the list.
proof fn lemma_remove_keeps(s: Seq<i32>, i: int, x: i32)
    requires
        0 <= i < s.len(),
        s[i] != x,
        s.contains(x),
    ensures
        s.remove(i).contains(x),
{
    let k = choose|k: int| 0 <= k < s.len() && s[k] == x;
    if k < i {
        assert(s.remove(i)[k] == x);
    } else {
        assert(s.remove(i)[k - 1] == x);
    }
}

/// Inserting `w` keeps every entry and adds `w`.
proof fn lemma_insert_keeps(s: Seq<i32>, pos: int, w: i32)
    requires
        0 <= pos <= s.len(),
    ensures
        s.insert(pos, w).contains(w),
        forall|x: i32| s.contains(x) ==> #[trigger] s.insert(pos, w).contains(x),
{
    let t = s.insert(pos, w);
    assert(t[pos] == w);
    assert forall|x: i32| s.contains(x) implies #[trigger] t.contains(x) by {
        let k = choose|k: int| 0 <= k < s.len() && s[k] == x;
        if k < pos {
            assert(t[k] == x);
        } else {
            assert(t[k + 1] == x);
        }
    }
}

/// A list with an entry removed holds no entry the list did not hold.
proof fn lemma_remove_only(s: Seq<i32>, i: int)
    requires
        0 <= i < s.len(),
    ensures
        forall|x: i32| #[trigger] s.remove(i).contains(x) ==> s.contains(x),
{
    assert forall|x: i32| #[trigger] s.remove(i).contains(x) implies s.contains(x) by {
        let k = choose|k: int| 0 <= k < s.remove(i).len() && s.remove(i)[k] == x;
        if k < i {
            assert(s[k] == x);
        } else {
            assert(s[k + 1] == x);
        }
    }
}

/// A list with `w` inserted holds no entry but `w` and those the list held.
proof fn lemma_insert_only(s: Seq<i32>, pos: int, w: i32)
    requires
        0 <= pos <= s.len(),
    ensures
        forall|x: i32| #[trigger] s.insert(pos, w).contains(x) ==> s.contains(x) || x == w,
{
    assert forall|x: i32| #[trigger] s.insert(pos, w).contains(x) implies s.contains(x) || x == w by {
        let k = choose|k: int| 0 <= k < s.insert(pos, w).len() && s.insert(pos, w)[k] == x;
        if k < pos {
            assert(s[k] == x);
        } else if k > pos {
            assert(s[k - 1] == x);
        }
    }
}

/// Processing link `k` of the closed node `cur`, which leads to node `w` (see
/// `relax_one`): a walkable node that is not closed ends up in the open list; where
/// it was open already, it keeps the lower of its g-cost and the g-cost of `cur` plus
/// the link's cost, and takes `cur` as parent only where the way through `cur` is
/// strictly cheaper, so the g-cost of an open node never goes up; where it was not
/// open, it takes `cur` as parent and that cost. Every other node keeps its state,
/// parent and g-cost, and every entry of the open list stays in it.
pub proof fn lemma_relax_one_keeps_lowest_g(
    st: SearchValues,
    valid: Seq<bool>,
    cur: int,
    k: int,
    w: i32,
    end_coord: (int, int),
)
    requires
        st.1.len() == valid.len(),
        st.2.len() == valid.len(),
        st.3.len() == valid.len(),
        st.4.len() == valid.len(),
        st.5.len() == valid.len(),
        valid.len() <= i32::MAX,
        0 <= cur < valid.len(),
        st.1[cur] == NODE_CLOSED,
        w == -1 || 0 <= w < valid.len(),
        0 <= st.4[cur] <= i64::MAX - DIAGONAL_LINK_COST,
    ensures
        ({
            let r = relax_one(st, valid, cur, k, w, end_coord);
            let new_g = st.4[cur] + spec_link_cost(k);
            let n = valid.len();
            &&& r.1.len() == n && r.2.len() == n && r.3.len() == n && r.4.len() == n && r.5.len() == n
            &&& forall|v: int| 0 <= v < n ==> (#[trigger] r.1[v] == NODE_CLOSED <==> st.1[v] == NODE_CLOSED)
            &&& forall|v: int| 0 <= v < n && v != w ==> #[trigger] r.4[v] == st.4[v]
            &&& forall|v: int| 0 <= v < n && v != w ==> #[trigger] r.2[v] == st.2[v]
            &&& forall|x: i32| st.0.contains(x) ==> #[trigger] r.0.contains(x)
            &&& forall|x: i32| #[trigger] r.0.contains(x) ==> st.0.contains(x) || x == w
            &&& if w != -1 && valid[w as int] && st.1[w as int] != NODE_CLOSED {
                &&& r.0.contains(w)
                &&& if st.0.contains(w) && st.4[w as int] <= new_g {
                    r.4[w as int] == st.4[w as int] && r.2[w as int] == st.2[w as int]
                } else {
                    r.4[w as int] == new_g && r.2[w as int] == cur
                }
            } else {
                r == st
            }
        }),
{
    let (open, state, parents, h, g, f) = st;
    if w == -1 || !valid[w as int] || state[w as int] == NODE_CLOSED {
    } else {
        let new_g = g[cur] + spec_link_cost(k);
        if open.contains(w) {
            if new_g < g[w as int] {
                let new_f = (new_g + h[w as int]) as i64;
                let f2 = f.update(w as int, new_f);
                let fi = first_index(open, w);
                lemma_first_index(open, w);
                let open1 = open.remove(fi);
                let pos = search_place(open1, f2, new_f, 0, open1.len() as int);
                lemma_search_place_range(open1, f2, new_f, 0, open1.len() as int);
                lemma_insert_keeps(open1, pos, w);
                lemma_insert_only(open1, pos, w);
                lemma_remove_only(open, fi);
                assert forall|x: i32| open.contains(x) implies #[trigger] open1.insert(pos, w).contains(x) by {
                    if x != w {
                        lemma_remove_keeps(open, fi, x);
                    }
                }
            }
        } else {
            let new_h = spec_heuristic(end_coord, w as int);
            let new_f = (new_g + new_h) as i64;
            let f2 = f.update(w as int, new_f);
            let pos = search_place(open, f2, new_f, 0, open.len() as int);
            lemma_search_place_range(open, f2, new_f, 0, open.len() as int);
            lemma_insert_keeps(open, pos, w);
            lemma_insert_only(open, pos, w);
        }
    }
}

/// One expansion processes the links of the closed node `cur` one after the other
/// (see `relax_links`). After the first `upto` of them: every node that was in the
/// open list still is, and its g-cost has not gone up; every walkable node that is
/// not closed and that one of those links leads to is in the open list, with a
/// g-cost no greater than that of `cur` plus the link's cost; and every node whose
/// g-cost or parent changed has `cur` as parent and, as g-cost, that of `cur` plus
/// the cost of one of those links to it. Closed nodes keep their state, parent and
/// g-cost, and no other node becomes closed.
pub proof fn lemma_expansion_keeps_lowest_g(
    st: SearchValues,
    valid: Seq<bool>,
    cur: int,
    cur_links: Seq<i32>,
    upto: nat,
    end_coord: (int, int),
)
    requires
        st.1.len() == valid.len(),
        st.2.len() == valid.len(),
        st.3.len() == valid.len(),
        st.4.len() == valid.len(),
        st.5.len() == valid.len(),
        valid.len() <= i32::MAX,
        0 <= cur < valid.len(),
        st.1[cur] == NODE_CLOSED,
        upto <= cur_links.len(),
        forall|k: int| 0 <= k < cur_links.len() ==> #[trigger] cur_links[k] == -1 || 0 <= cur_links[k] < valid.len(),
        0 <= st.4[cur] <= i64::MAX - DIAGONAL_LINK_COST,
    ensures
        ({
            let r = relax_links(st, valid, cur, cur_links, upto, end_coord);
            let n = valid.len();
            &&& r.1.len() == n && r.2.len() == n && r.3.len() == n && r.4.len() == n && r.5.len() == n
            &&& forall|v: int| 0 <= v < n ==> (#[trigger] r.1[v] == NODE_CLOSED <==> st.1[v] == NODE_CLOSED)
            &&& forall|v: int| 0 <= v < n && st.1[v] == NODE_CLOSED ==> #[trigger] r.4[v] == st.4[v] && r.2[v]
                == st.2[v]
            &&& forall|x: i32| st.0.contains(x) ==> #[trigger] r.0.contains(x)
            &&& forall|v: int| 0 <= v < n && st.0.contains(v as i32) ==> #[trigger] r.4[v] <= st.4[v]
            &&& forall|k: int| 0 <= k < upto && #[trigger] cur_links[k] != -1 && valid[cur_links[k] as int]
                && st.1[cur_links[k] as int] != NODE_CLOSED ==> r.0.contains(cur_links[k])
                && r.4[cur_links[k] as int] <= st.4[cur] + spec_link_cost(k)
            &&& forall|v: int| 0 <= v < n && (#[trigger] r.4[v] != st.4[v] || r.2[v] != st.2[v]) ==> r.2[v] == cur
                && exists|k: int| 0 <= k < upto && #[trigger] cur_links[k] == v && r.4[v] == st.4[cur]
                + spec_link_cost(k)
            &&& forall|x: i32| #[trigger] r.0.contains(x) && !st.0.contains(x) ==> 0 <= x < n && valid[x as int]
                && st.1[x as int] != NODE_CLOSED && r.2[x as int] == cur && exists|k: int| 0 <= k < upto
                && #[trigger] cur_links[k] == x && r.4[x as int] == st.4[cur] + spec_link_cost(k)
        }),
    decreases upto,
{
    if upto > 0 {
        let k = (upto - 1) as nat;
        lemma_expansion_keeps_lowest_g(st, valid, cur, cur_links, k, end_coord);
        let mid = relax_links(st, valid, cur, cur_links, k, end_coord);
        let w = cur_links[k as int];
        assert(w == -1 || 0 <= w < valid.len());
        lemma_relax_one_keeps_lowest_g(mid, valid, cur, k as int, w, end_coord);
        let r = relax_one(mid, valid, cur, k as int, w, end_coord);
        assert(r == relax_links(st, valid, cur, cur_links, upto, end_coord));
        let n = valid.len();
        assert forall|v: int| 0 <= v < n && st.0.contains(v as i32) implies #[trigger] r.4[v] <= st.4[v] by {
            assert(mid.4[v] <= st.4[v]);
            assert(mid.0.contains(v as i32));
        }
        assert forall|j: int| 0 <= j < upto && #[trigger] cur_links[j] != -1 && valid[cur_links[j] as int]
            && st.1[cur_links[j] as int] != NODE_CLOSED implies r.0.contains(cur_links[j])
            && r.4[cur_links[j] as int] <= st.4[cur] + spec_link_cost(j) by {
            let u = cur_links[j] as int;
            assert(mid.1[u] != NODE_CLOSED);
            if j < k {
                assert(mid.0.contains(cur_links[j]));
                assert(mid.4[u] <= st.4[cur] + spec_link_cost(j));
            }
        }
        assert forall|v: int| 0 <= v < n && (#[trigger] r.4[v] != st.4[v] || r.2[v] != st.2[v]) implies r.2[v] == cur
            && exists|j: int| 0 <= j < upto && #[trigger] cur_links[j] == v && r.4[v] == st.4[cur]
            + spec_link_cost(j) by {
            if r.4[v] == mid.4[v] && r.2[v] == mid.2[v] {
                let j = choose|j: int| 0 <= j < k && #[trigger] cur_links[j] == v && mid.4[v] == st.4[cur]
                    + spec_link_cost(j);
                assert(cur_links[j] == v);
            } else {
                assert(v == w);
                assert(cur_links[k as int] == v);
            }
        }
        assert forall|x: i32| #[trigger] r.0.contains(x) && !st.0.contains(x) implies 0 <= x < n && valid[x as int]
            && st.1[x as int] != NODE_CLOSED && r.2[x as int] == cur && exists|j: int| 0 <= j < upto
            && #[trigger] cur_links[j] == x && r.4[x as int] == st.4[cur] + spec_link_cost(j) by {
            if mid.0.contains(x) {
                let j = choose|j: int| 0 <= j < k && #[trigger] cur_links[j] == x && mid.4[x as int] == st.4[cur]
                    + spec_link_cost(j);
                assert(cur_links[j] == x);
                if x == w && r.4[x as int] != mid.4[x as int] {
                    assert(cur_links[k as int] == x);
                } else if x == w {
                    assert(r.2[x as int] == mid.2[x as int]);
                }
            } else {
                assert(x == w);
                assert(cur_links[k as int] == x);
            }
        }
        assert forall|v: int| 0 <= v < n && st.1[v] == NODE_CLOSED implies #[trigger] r.4[v] == st.4[v] && r.2[v]
            == st.2[v] by {
            assert(mid.1[v] == NODE_CLOSED);
            assert(mid.4[v] == st.4[v]);
            assert(mid.2[v] == st.2[v]);
            if v == w {
                assert(r == mid);
            } else {
                assert(r.4[v] == mid.4[v]);
                assert(r.2[v] == mid.2[v]);
            }
        }
    }
}

/// No closed node linked to `v` gives it a lower g-cost than it has: for every link
/// `k` of a closed node `p` that leads to `v`, the g-cost of `v` is at most that of
/// `p` plus the link's cost.
pub open spec fn no_cheaper_link(links: Seq<Vec<i32>>, valid: Seq<bool>, state: Seq<u8>, g: Seq<i64>, v: int) -> bool {
    forall|p: int, k: int| 0 <= p < valid.len() && state[p] == NODE_CLOSED && 0 <= k < links[p]@.len()
        && #[trigger] links[p]@[k] == v ==> g[v] <= g[p] + spec_link_cost(k)
}

/// The parent of `v` is a closed node with a link `k` to `v` that gives exactly the
/// g-cost of `v`: that of the parent plus the link's cost.
pub open spec fn parent_gives_g(links: Seq<Vec<i32>>, valid: Seq<bool>, state: Seq<u8>, parents: Seq<i32>, g: Seq<i64>,
    v: int) -> bool {
    let p = parents[v] as int;
    &&& 0 <= p < valid.len()
    &&& state[p] == NODE_CLOSED
    &&& exists|k: int| 0 <= k < links[p]@.len() && #[trigger] links[p]@[k] == v && g[v] == g[p] + spec_link_cost(k)
}

/// Every node in the open list other than `start` has, as g-cost, the lowest one
/// that a closed node linked to it gives (its g-cost plus the link's cost), and its
/// parent is a closed node that gives it.
pub open spec fn open_g_lowest(links: Seq<Vec<i32>>, valid: Seq<bool>, st: SearchValues, start: int) -> bool {
    forall|i: int| 0 <= i < st.0.len() && st.0[i] != start ==> {
        &&& no_cheaper_link(links, valid, st.1, st.4, #[trigger] st.0[i] as int)
        &&& parent_gives_g(links, valid, st.1, st.2, st.4, st.0[i] as int)
    }
}

/// An expansion step that goes on (see `search_step`) keeps `open_g_lowest`: the
/// node it closes gives each node it links to the lower of that node's g-cost and
/// its own plus the link's cost, and every node it newly opens has no other closed
/// node linked to it.
pub proof fn lemma_step_keeps_open_g_lowest(
    links: Seq<Vec<i32>>,
    valid: Seq<bool>,
    st: SearchValues,
    start: int,
    end: int,
    end_coord: (int, int),
    rank: Seq<int>,
    step: int,
)
    requires
        search_inv(links, valid, st.0, st.1, st.2, st.3, st.4, st.5, start, end, rank, step),
        0 <= step <= MAX_SEARCH_STEPS,
        open_g_lowest(links, valid, st, start),
        search_step(st, links, valid, end, end_coord).0 == 1,
    ensures
        open_g_lowest(links, valid, search_step(st, links, valid, end, end_coord).1, start),
{
    let (open, state, parents, h, g, f) = st;
    let n = valid.len();
    let cur = open.last() as int;
    let st1 = (open.drop_last(), state.update(cur, NODE_CLOSED), parents, h, g, f);
    let cur_links = links[cur]@;
    assert(open[open.len() - 1] == cur);
    assert forall|k: int| 0 <= k < cur_links.len() implies #[trigger] cur_links[k] == -1
        || 0 <= cur_links[k] < valid.len() by {
        assert(links[cur]@[k] == cur_links[k]);
    }
    lemma_expansion_keeps_lowest_g(st1, valid, cur, cur_links, cur_links.len(), end_coord);
    let r = relax_links(st1, valid, cur, cur_links, cur_links.len(), end_coord);
    assert(r == search_step(st, links, valid, end, end_coord).1);
    assert forall|i: int| 0 <= i < r.0.len() && r.0[i] != start implies {
        &&& no_cheaper_link(links, valid, r.1, r.4, #[trigger] r.0[i] as int)
        &&& parent_gives_g(links, valid, r.1, r.2, r.4, r.0[i] as int)
    } by {
        let x = r.0[i];
        let v = x as int;
        assert(r.0.contains(x));
        if st1.0.contains(x) {
            let j = choose|j: int| 0 <= j < st1.0.len() && st1.0[j] == x;
            assert(open[j] == x);
            assert(no_cheaper_link(links, valid, state, g, v) && parent_gives_g(links, valid, state, parents, g, v));
            assert(v as i32 == x);
            assert(r.4[v] <= st1.4[v]);
            assert(state[v] == NODE_OPEN);
            assert(v != cur) by {
                if v == cur {
                    assert(open[j] == open[open.len() - 1]);
                    assert(open.no_duplicates());
                }
            }
            assert(parents[v] != -1);
            assert(parent_ok(links, valid, state, parents, rank, v));
            assert(valid[v]);
            assert(st1.1[v] != NODE_CLOSED);
            assert forall|p: int, k: int| 0 <= p < valid.len() && r.1[p] == NODE_CLOSED && 0 <= k < links[p]@.len()
                && #[trigger] links[p]@[k] == v implies r.4[v] <= r.4[p] + spec_link_cost(k) by {
                assert(st1.1[p] == NODE_CLOSED);
                assert(r.4[p] == st1.4[p]);
                if p == cur {
                    assert(cur_links[k] == x);
                } else {
                    assert(state[p] == NODE_CLOSED);
                    assert(g[v] <= g[p] + spec_link_cost(k));
                }
            }
            if r.4[v] != st1.4[v] || r.2[v] != st1.2[v] {
                let k = choose|k: int| 0 <= k < cur_links.len() && #[trigger] cur_links[k] == v && r.4[v]
                    == st1.4[cur] + spec_link_cost(k);
                assert(links[cur]@[k] == v);
            } else {
                let p = parents[v] as int;
                let k = choose|k: int| 0 <= k < links[p]@.len() && #[trigger] links[p]@[k] == v && g[v] == g[p]
                    + spec_link_cost(k);
                assert(st1.1[p] == NODE_CLOSED);
                assert(r.4[p] == g[p]);
                assert(links[p]@[k] == v);
            }
        } else {
            let k0 = choose|k: int| 0 <= k < cur_links.len() && #[trigger] cur_links[k] == x && r.4[v]
                == st1.4[cur] + spec_link_cost(k);
            assert(links[cur]@[k0] == v);
            assert forall|p: int, k: int| 0 <= p < valid.len() && r.1[p] == NODE_CLOSED && 0 <= k < links[p]@.len()
                && #[trigger] links[p]@[k] == v implies r.4[v] <= r.4[p] + spec_link_cost(k) by {
                assert(st1.1[p] == NODE_CLOSED);
                assert(r.4[p] == st1.4[p]);
                if p == cur {
                    assert(cur_links[k] == x);
                } else {
                    assert(state[p] == NODE_CLOSED);
                    assert(neighbours_seen(links, valid, state, open, p, links[p]@.len() as int));
                    assert(open.contains(x));
                    let j = choose|j: int| 0 <= j < open.len() && open[j] == x;
                    if j < open.len() - 1 {
                        assert(st1.0[j] == x);
                    }
                }
            }
        }
    }
}

/// One expansion step on the search values `st` (see `check_node`): with no open
/// node it returns 0 and changes nothing; otherwise it closes the last open node,
/// returns 2 where that is the target `end`, and else processes its links and
/// returns 1.
pub open spec fn search_step(
    st: SearchValues,
    links: Seq<Vec<i32>>,
    valid: Seq<bool>,
    end: int,
    end_coord: (int, int),
) -> (int, SearchValues) {
    let (open, state, parents, h, g, f) = st;
    if open.len() == 0 {
        (0, st)
    } else {
        let cur = open.last() as int;
        let st1 = (open.drop_last(), state.update(cur, NODE_CLOSED), parents, h, g, f);
        if cur == end {
            (2, st1)
        } else {
            (1, relax_links(st1, valid, cur, links[cur]@, links[cur]@.len(), end_coord))
        }
    }
}

/// At most `k` expansion steps from `st`, stopping after the first that does not
/// return 1: the last step's result, the values then, and the number of steps.
pub open spec fn search_run(
    st: SearchValues,
    k: nat,
    links: Seq<Vec<i32>>,
    valid: Seq<bool>,
    end: int,
    end_coord: (int, int),
) -> (int, SearchValues, nat)
    decreases k,
{
    if k == 0 {
        (1, st, 0)
    } else {
        let (r, st2) = search_step(st, links, valid, end, end_coord);
        if r != 1 {
            (r, st2, 1)
        } else {
            let (r3, st3, m) = search_run(st2, (k - 1) as nat, links, valid, end, end_coord);
            (r3, st3, m + 1)
        }
    }
}

/// The search values a search from `start` on a grid of `n` nodes begins with:
/// only the start is open (and marked open), no node has a parent, every cost is
/// `UNVISITED_COST`.
pub open spec fn initial_values(n: nat, start: int) -> SearchValues {
    (seq![start as i32], Seq::new(n, |v: int| if v == start { NODE_OPEN } else { NODE_UNCHECKED }),
        Seq::new(n, |v: int| -1i32), Seq::new(n, |v: int| UNVISITED_COST), Seq::new(n, |v: int| UNVISITED_COST),
        Seq::new(n, |v: int| UNVISITED_COST))
}

/// Column and row of node `end` in the game's grid.
pub open spec fn end_coord_of(end: int) -> (int, int) {
    (spec_coord_from_1d(SIDE_NODE_NO as int, end).0, spec_coord_from_1d(SIDE_NODE_NO as int, end).1)
}

/// The run of a search from `start` to `end` on a grid: at most
/// `MAX_SEARCH_STEPS + 1` expansion steps.
pub open spec fn search_result(links: Seq<Vec<i32>>, valid: Seq<bool>, start: int, end: int) -> (int, SearchValues, nat) {
    search_run(initial_values(valid.len(), start), (MAX_SEARCH_STEPS + 1) as nat, links, valid, end, end_coord_of(end))
}

/// How a search's run decides its outcome and final values: where all
/// `MAX_SEARCH_STEPS + 1` steps were made and an open node remains, that node is
/// taken off the open list and the search is truncated at it; otherwise the run's
/// values stand, and the last step's result tells a reached target (2) from an
/// unreachable one.
pub open spec fn run_decides(outcome: PathOutcome, vals: SearchValues, run: (int, SearchValues, nat)) -> bool {
    let (r, st, m) = run;
    if m == MAX_SEARCH_STEPS + 1 && st.0.len() > 0 {
        &&& (match outcome {
            PathOutcome::Truncated(p) => p@.len() > 0 && p@.last() as int == st.0.last() as int,
            _ => false,
        })
        &&& vals == (st.0.drop_last(), st.1, st.2, st.3, st.4, st.5)
    } else {
        &&& vals == st
        &&& (r == 2 ==> outcome is Reached)
        &&& (r != 2 ==> outcome is Unreachable)
    }
}

/// Marking a node that is not closed as open keeps what is said of closed nodes.
proof fn lemma_mark_open(
    links: Seq<Vec<i32>>,
    valid: Seq<bool>,
    open: Seq<i32>,
    state: Seq<u8>,
    parents: Seq<i32>,
    h: Seq<i64>,
    g: Seq<i64>,
    f: Seq<i64>,
    start: int,
    end: int,
    rank: Seq<int>,
    step: int,
    cur: int,
    k: int,
    w: int,
)
    requires
        expanding(links, valid, open, state, parents, h, g, f, start, end, rank, step, cur, k),
        0 <= w < valid.len(),
        state[w] != NODE_CLOSED,
    ensures
        expanding(links, valid, open, state.update(w, NODE_OPEN), parents, h, g, f, start, end, rank, step, cur, k),
{
    let s2 = state.update(w, NODE_OPEN);
    let n = valid.len() as int;
    assert forall|v: int| 0 <= v < n implies (#[trigger] s2[v] == NODE_CLOSED) == (state[v] == NODE_CLOSED) by {}
    assert forall|i: int| 0 <= i < open.len() implies s2[#[trigger] open[i] as int] == NODE_OPEN by {
        assert(state[open[i] as int] == NODE_OPEN);
    }
    assert forall|v: int| 0 <= v < n implies #[trigger] parent_ok(links, valid, s2, parents, rank, v) by {
        assert(parent_ok(links, valid, state, parents, rank, v));
    }
    assert forall|v: int| 0 <= v < n && v != start && (s2[v] == NODE_CLOSED || open.contains(v as i32))
        implies #[trigger] parents[v] != -1 by {
        assert(state[v] == NODE_CLOSED || open.contains(v as i32));
    }
    assert forall|v: int| 0 <= v < n && #[trigger] s2[v] == NODE_CLOSED implies 0 <= rank[v] < step + 1 by {
        assert(state[v] == NODE_CLOSED);
    }
    if state[start] != NODE_CLOSED {
        assert forall|v: int| 0 <= v < n implies #[trigger] s2[v] != NODE_CLOSED by {
            assert(state[v] != NODE_CLOSED);
        }
    }
    assert(neighbours_seen(links, valid, s2, open, cur, k)) by {
        assert forall|j: int| 0 <= j < k implies {
            let x = #[trigger] links[cur]@[j];
            x == -1 || !valid[x as int] || s2[x as int] == NODE_CLOSED || open.contains(x)
        } by {
            let x = links[cur]@[j];
            assert(x == -1 || !valid[x as int] || state[x as int] == NODE_CLOSED || open.contains(x));
        }
    }
    assert forall|u: int| 0 <= u < n && #[trigger] s2[u] == NODE_CLOSED && u != cur
        implies neighbours_seen(links, valid, s2, open, u, links[u]@.len() as int) by {
        assert(state[u] == NODE_CLOSED);
        assert(neighbours_seen(links, valid, state, open, u, links[u]@.len() as int));
        assert forall|j: int| 0 <= j < links[u]@.len() implies {
            let x = #[trigger] links[u]@[j];
            x == -1 || !valid[x as int] || s2[x as int] == NODE_CLOSED || open.contains(x)
        } by {
            let x = links[u]@[j];
            assert(x == -1 || !valid[x as int] || state[x as int] == NODE_CLOSED || open.contains(x));
        }
    }
}

/// Bound on the magnitude of the expanded node's g-cost within which a search
/// step's cost arithmetic stays within `i64`.
pub const COST_LIMIT: i64 = 4_000_000_000_000_000_000;

/// Bound on the magnitude of the h-costs a search step takes or makes: the
/// Manhattan distance between any two `i32` coordinate pairs of cells of the grid,
/// in cost units, is below it.
pub const H_COST_LIMIT: i64 = 100_000_000_000_000;

/// Removing an occurrence of `w` and inserting `w` again keeps the entries.
proof fn lemma_remove_insert(s: Seq<i32>, i: int, pos: int, w: i32, n: int)
    requires
        0 <= i < s.len(),
        s[i] == w,
        0 <= pos <= s.len() - 1,
        indexes_into(s, n),
        0 <= w < n,
    ensures
        forall|x: i32| #[trigger] s.remove(i).insert(pos, w).contains(x) <==> s.contains(x),
        indexes_into(s.remove(i).insert(pos, w), n),
{
    let r = s.remove(i);
    let t = r.insert(pos, w);
    assert forall|k: int| 0 <= k < r.len() implies #[trigger] r[k] == (if k < i { s[k] } else { s[k + 1] }) by {}
    assert forall|x: i32| #[trigger] t.contains(x) <==> s.contains(x) by {
        if t.contains(x) {
            let k = choose|k: int| 0 <= k < t.len() && t[k] == x;
            if k < pos { assert(s.contains(r[k])); } else if k > pos { assert(s.contains(r[k - 1])); }
        }
        if s.contains(x) {
            let k = choose|k: int| 0 <= k < s.len() && s[k] == x;
            if x == w {
                assert(t[pos] == w);
            } else {
                let kr = if k < i { k } else { k - 1 };
                assert(r[kr] == x);
                if kr < pos { assert(t[kr] == x); } else { assert(t[kr + 1] == x); }
            }
        }
    }
    assert forall|k: int| 0 <= k < t.len() implies 0 <= #[trigger] t[k] < n by {
        if k < pos { assert(t[k] == r[k]); } else if k > pos { assert(t[k] == r[k - 1]); }
    }
}

/// Inserting `w` adds it to the entries.
proof fn lemma_insert_entries(s: Seq<i32>, pos: int, w: i32, n: int)
    requires
        0 <= pos <= s.len(),
        indexes_into(s, n),
        0 <= w < n,
    ensures
        forall|x: i32| #[trigger] s.insert(pos, w).contains(x) <==> (s.contains(x) || x == w),
        indexes_into(s.insert(pos, w), n),
{
    let t = s.insert(pos, w);
    assert forall|x: i32| #[trigger] t.contains(x) <==> (s.contains(x) || x == w) by {
        if t.contains(x) {
            let k = choose|k: int| 0 <= k < t.len() && t[k] == x;
            if k < pos { assert(s[k] == x); } else if k > pos { assert(s[k - 1] == x); }
        }
        if s.contains(x) {
            let k = choose|k: int| 0 <= k < s.len() && s[k] == x;
            if k < pos { assert(t[k] == x); } else { assert(t[k + 1] == x); }
        }
        if x == w { assert(t[pos] == w); }
    }
    assert forall|k: int| 0 <= k < t.len() implies 0 <= #[trigger] t[k] < n by {
        if k < pos { assert(t[k] == s[k]); } else if k > pos { assert(t[k] == s[k - 1]); }
    }
}

/// Processes link `iter_idx` of the closed node `cur` (see `relax_one`). Where
/// `inv` holds, the search's invariant during an expansion is kept.
#[verifier::rlimit(60)]
fn relax_link(
    open_nodes: &mut Vec<i32>,
    node_states: &mut Vec<u8>,
    parents: &mut Vec<i32>,
    h_cost: &mut Vec<i64>,
    g_cost: &mut Vec<i64>,
    f_cost: &mut Vec<i64>,
    grid: &NavGrid,
    cur: i32,
    iter_idx: usize,
    end_node_coord: (i32, i32),
    Ghost(inv): Ghost<bool>,
    Ghost(start): Ghost<int>,
    Ghost(end): Ghost<int>,
    Ghost(rank): Ghost<Seq<int>>,
    Ghost(step): Ghost<int>,
)
    requires
        grid.wf(),
        grid.valid@.len() <= i32::MAX,
        old(node_states)@.len() == grid.valid@.len(),
        old(parents)@.len() == grid.valid@.len(),
        old(h_cost)@.len() == grid.valid@.len(),
        old(g_cost)@.len() == grid.valid@.len(),
        old(f_cost)@.len() == grid.valid@.len(),
        indexes_into(old(open_nodes)@, grid.valid@.len() as int),
        0 <= cur < grid.valid@.len(),
        old(node_states)@[cur as int] == NODE_CLOSED,
        -COST_LIMIT <= old(g_cost)@[cur as int] <= COST_LIMIT,
        forall|v: int| 0 <= v < grid.valid@.len() ==> -H_COST_LIMIT <= #[trigger] old(h_cost)@[v] <= H_COST_LIMIT,
        iter_idx < grid.links@[cur as int]@.len(),
        inv ==> {
            &&& expanding(grid.links@, grid.valid@, old(open_nodes)@, old(node_states)@, old(parents)@,
                old(h_cost)@, old(g_cost)@, old(f_cost)@, start, end, rank, step, cur as int, iter_idx as int)
            &&& 0 <= step < i32::MAX
            &&& end_node_coord.0 == spec_coord_from_1d(SIDE_NODE_NO as int, end).0
            &&& end_node_coord.1 == spec_coord_from_1d(SIDE_NODE_NO as int, end).1
        },
    ensures
        final(node_states)@.len() == old(node_states)@.len(),
        final(parents)@.len() == old(parents)@.len(),
        final(h_cost)@.len() == old(h_cost)@.len(),
        final(g_cost)@.len() == old(g_cost)@.len(),
        final(f_cost)@.len() == old(f_cost)@.len(),
        indexes_into(final(open_nodes)@, grid.valid@.len() as int),
        forall|v: int| 0 <= v < grid.valid@.len() ==> -H_COST_LIMIT <= #[trigger] final(h_cost)@[v] <= H_COST_LIMIT,
        forall|v: int| #![trigger final(node_states)@[v]] 0 <= v < old(node_states)@.len()
            ==> (final(node_states)@[v] == NODE_CLOSED <==> old(node_states)@[v] == NODE_CLOSED),
        final(g_cost)@[cur as int] == old(g_cost)@[cur as int],
        (final(open_nodes)@, final(node_states)@, final(parents)@, final(h_cost)@, final(g_cost)@,
            final(f_cost)@)
            == relax_one((old(open_nodes)@, old(node_states)@, old(parents)@, old(h_cost)@, old(g_cost)@,
                old(f_cost)@), grid.valid@, cur as int, iter_idx as int, grid.links@[cur as int]@[iter_idx as int],
                (end_node_coord.0 as int, end_node_coord.1 as int)),
        inv ==> expanding(grid.links@, grid.valid@, final(open_nodes)@, final(node_states)@, final(parents)@,
            final(h_cost)@, final(g_cost)@, final(f_cost)@, start, end, rank, step, cur as int, iter_idx + 1),
        (forall|x: i32| old(open_nodes)@.contains(x) ==> old(node_states)@[x as int] == NODE_OPEN)
            ==> (forall|x: i32| final(open_nodes)@.contains(x) ==> final(node_states)@[x as int] == NODE_OPEN),
{
    let ghost links = grid.links@;
    let ghost valid = grid.valid@;
    let ghost n = valid.len() as int;
    let ghost open0 = open_nodes@;
    let cu = cur as usize;
    let linked = grid.links[cu][iter_idx];
    proof {
        assert(links[cur as int]@[iter_idx as int] == linked);
    }
    if linked == -1 {
        return;
    }
    let lu = linked as usize;
    if !grid.valid[lu] || node_states[lu] == NODE_CLOSED {
        return;
    }
    let already = open_contains(open_nodes, linked);
    let ghost lk = lu as int;
    proof {
        assert(is_link(links, valid, cur as int, lk));
        if inv {
            lemma_small_coords(end);
            assert(g_bound(step) + DIAGONAL_LINK_COST == g_bound(step + 1));
        }
    }
    if already {
        let new_g = g_cost[cu] + cost_for_link_dir(iter_idx);
        if new_g < g_cost[lu] {
            let ghost f0 = f_cost@;
            g_cost.set(lu, new_g);
            let new_f = new_g + h_cost[lu];
            f_cost.set(lu, new_f);
            parents.set(lu, cur);
            let ghost i = choose|i: int| 0 <= i < open0.len() && open0[i] == linked;
            proof {
                if inv {
                    assert forall|j: int| 0 <= j < i implies open0[j] != linked by {
                        assert(open0.no_duplicates());
                    }
                    lemma_remove_node(open0, f0, f_cost@, i);
                }
            }
            pluck_from_open(open_nodes, linked);
            let ghost i2 = choose|i2: int| 0 <= i2 < open0.len() && open0[i2] == linked
                && (forall|j: int| 0 <= j < i2 ==> open0[j] != linked) && open_nodes@ == open0.remove(i2);
            proof {
                assert(open0.contains(linked));
                let fi = first_index(open0, linked);
                assert(0 <= fi < open0.len() && open0[fi] == linked
                    && forall|j: int| 0 <= j < fi ==> open0[j] != linked);
                if fi < i2 {
                    assert(open0[fi] != linked);
                } else if fi > i2 {
                    assert(open0[i2] != linked);
                }
                assert(fi == i2);
                if inv {
                    assert(i2 == i);
                }
            }
            let ghost open1 = open_nodes@;
            add_to_open(open_nodes, f_cost, linked, new_f);
            proof {
                let pos0 = choose|pos: int| 0 <= pos <= open1.len() && open_nodes@ == open1.insert(pos, linked);
                lemma_remove_insert(open0, i2, pos0, linked, n);
                if inv {
                    let pos = choose|pos: int| 0 <= pos <= open1.len()
                        && open_nodes@ == open1.insert(pos, linked)
                        && (forall|j: int| 0 <= j < pos ==> f_cost@[#[trigger] open1[j] as int] >= new_f)
                        && (forall|j: int| pos <= j < open1.len() ==> f_cost@[#[trigger] open1[j] as int] <= new_f);
                    lemma_insert_sorted(open1, f_cost@, pos, linked);
                    lemma_insert_fresh(open1, pos, linked);
                    assert forall|x: i32| #[trigger] open_nodes@.contains(x) <==> open0.contains(x) by {}
                    lemma_search_update(links, valid, open0, open_nodes@, node_states@, old(parents)@, parents@,
                        h_cost@, old(g_cost)@, g_cost@, f0, f_cost@, start, end, rank, step, cur as int,
                        iter_idx as int, lk);
                }
            }
        }
    } else {
        let ghost state0 = node_states@;
        node_states.set(lu, NODE_OPEN);
        proof {
            if inv {
                lemma_mark_open(links, valid, open0, state0, parents@, h_cost@, g_cost@, f_cost@, start, end, rank,
                    step, cur as int, iter_idx as int, lk);
            }
        }
        parents.set(lu, cur);
        let new_g = g_cost[cu] + cost_for_link_dir(iter_idx);
        g_cost.set(lu, new_g);
        proof { lemma_small_coords(lk); }
        let (grid_x, grid_y) = coord_from_1d(SIDE_NODE_NO, linked);
        let dx: i64 = end_node_coord.0 as i64 - grid_x as i64;
        let dy: i64 = end_node_coord.1 as i64 - grid_y as i64;
        let adx: i64 = if dx < 0 { -dx } else { dx };
        let ady: i64 = if dy < 0 { -dy } else { dy };
        proof {
            assert(0 <= (adx + ady) * COST_SCALE <= H_COST_LIMIT) by (nonlinear_arith)
                requires 0 <= adx <= 2147483648 + 165, 0 <= ady <= 2147483648 + 13015052;
        }
        let new_h = (adx + ady) * COST_SCALE;
        let ghost h0 = h_cost@;
        h_cost.set(lu, new_h);
        let new_f = new_g + new_h;
        let ghost f0 = f_cost@;
        f_cost.set(lu, new_f);
        proof {
            assert(new_h == spec_heuristic((end_node_coord.0 as int, end_node_coord.1 as int), lk));
            if inv {
                assert(0 <= new_h <= HEURISTIC_MAX);
                assert forall|a: int, b: int| 0 <= a < b < open0.len() implies
                    f_cost@[#[trigger] open0[a] as int] >= f_cost@[#[trigger] open0[b] as int] by {
                    assert(open0[a] != linked && open0[b] != linked);
                }
            }
        }
        let ghost open1 = open_nodes@;
        add_to_open(open_nodes, f_cost, linked, new_f);
        proof {
            let pos0 = choose|pos: int| 0 <= pos <= open1.len() && open_nodes@ == open1.insert(pos, linked);
            lemma_insert_entries(open1, pos0, linked, n);
            if inv {
                let pos = choose|pos: int| 0 <= pos <= open1.len()
                    && open_nodes@ == open1.insert(pos, linked)
                    && (forall|j: int| 0 <= j < pos ==> f_cost@[#[trigger] open1[j] as int] >= new_f)
                    && (forall|j: int| pos <= j < open1.len() ==> f_cost@[#[trigger] open1[j] as int] <= new_f);
                lemma_insert_sorted(open1, f_cost@, pos, linked);
                lemma_insert_fresh(open1, pos, linked);
                lemma_search_update(links, valid, open0, open_nodes@, node_states@, old(parents)@, parents@,
                    h_cost@, old(g_cost)@, g_cost@, f0, f_cost@, start, end, rank, step, cur as int, iter_idx as int,
                    lk);
            }
        }
    }
}

/// After node `w`, linked from `cur` by link `k`, was given `cur` as parent, a new
/// cost and a place in the open list, the expansion invariant holds one link
/// further.
proof fn lemma_search_update(
    links: Seq<Vec<i32>>,
    valid: Seq<bool>,
    open0: Seq<i32>,
    open: Seq<i32>,
    state: Seq<u8>,
    parents0: Seq<i32>,
    parents: Seq<i32>,
    h: Seq<i64>,
    g0: Seq<i64>,
    g: Seq<i64>,
    f0: Seq<i64>,
    f: Seq<i64>,
    start: int,
    end: int,
    rank: Seq<int>,
    step: int,
    cur: int,
    k: int,
    w: int,
)
    requires
        expanding(links, valid, open0, state, parents0, h, g0, f0, start, end, rank, step, cur, k)
            || exists|h0: Seq<i64>| expanding(links, valid, open0, state, parents0, h0, g0, f0, start, end, rank, step, cur, k)
                && h0.len() == h.len() && (forall|v: int| 0 <= v < h.len() && v != w ==> h0[v] == h[v]),
        0 <= k < links[cur]@.len(),
        links[cur]@[k] == w,
        0 <= w < valid.len(),
        valid[w],
        state[w] == NODE_OPEN,
        0 <= h[w] <= HEURISTIC_MAX,
        parents == parents0.update(w, cur as i32),
        g.len() == g0.len(),
        forall|v: int| 0 <= v < g.len() && v != w ==> g[v] == g0[v],
        0 <= g[w] <= g_bound(step + 1),
        f.len() == f0.len(),
        forall|v: int| 0 <= v < f.len() && v != w ==> f[v] == f0[v],
        0 <= f[w] <= g_bound(step + 1) + HEURISTIC_MAX,
        indexes_into(open, valid.len() as int),
        open.no_duplicates(),
        sorted_desc(open, f),
        forall|x: i32| #[trigger] open.contains(x) <==> (open0.contains(x) || x == w),
    ensures
        expanding(links, valid, open, state, parents, h, g, f, start, end, rank, step, cur, k + 1),
{
    let n = valid.len() as int;
    assert(w != cur);
    assert(open.contains(w as i32));
    assert(is_link(links, valid, cur, w));
    assert forall|i: int| 0 <= i < open.len() implies state[#[trigger] open[i] as int] == NODE_OPEN by {
        assert(open.contains(open[i]));
        if open[i] != w {
            let j = choose|j: int| 0 <= j < open0.len() && open0[j] == open[i];
        }
    }
    assert forall|v: int| 0 <= v < n implies #[trigger] parent_ok(links, valid, state, parents, rank, v) by {
        if v != w {
            assert(parent_ok(links, valid, state, parents0, rank, v));
        }
    }
    assert(state[start] == NODE_CLOSED) by {
        if state[start] != NODE_CLOSED {
            assert(open0 == seq![start as i32]);
            assert(state[cur] != NODE_CLOSED);
        }
    }
    assert forall|v: int| 0 <= v < n && v != start && (state[v] == NODE_CLOSED || open.contains(v as i32))
        implies #[trigger] parents[v] != -1 by {
        if v != w {
            assert(parents0[v] != -1);
        }
    }
    assert forall|v: int| 0 <= v < n implies 0 <= #[trigger] g[v] <= g_bound(step + 1) by {}
    assert forall|v: int| 0 <= v < n implies 0 <= #[trigger] f[v] <= g_bound(step + 1) + HEURISTIC_MAX by {}
    assert(neighbours_seen(links, valid, state, open, cur, k + 1)) by {
        assert forall|j: int| 0 <= j < k + 1 implies {
            let x = #[trigger] links[cur]@[j];
            x == -1 || !valid[x as int] || state[x as int] == NODE_CLOSED || open.contains(x)
        } by {
            if j < k {
                let x = links[cur]@[j];
                if x != -1 && valid[x as int] && state[x as int] != NODE_CLOSED {
                    assert(open0.contains(x));
                }
            }
        }
    }
    assert forall|u: int| 0 <= u < n && #[trigger] state[u] == NODE_CLOSED && u != cur
        implies neighbours_seen(links, valid, state, open, u, links[u]@.len() as int) by {
        assert forall|j: int| 0 <= j < links[u]@.len() implies {
            let x = #[trigger] links[u]@[j];
            x == -1 || !valid[x as int] || state[x as int] == NODE_CLOSED || open.contains(x)
        } by {
            let x = links[u]@[j];
            if x != -1 && valid[x as int] && state[x as int] != NODE_CLOSED {
                assert(neighbours_seen(links, valid, state, open0, u, links[u]@.len() as int));
                assert(open0.contains(x));
            }
        }
    }
}


/// Closing the open node of lowest f-cost, popped off the open list in expansion
/// `step`, keeps the search's core facts, and starts the processing of its links
/// where it is not the target.
proof fn lemma_close_popped(
    links: Seq<Vec<i32>>,
    valid: Seq<bool>,
    open0: Seq<i32>,
    state0: Seq<u8>,
    parents: Seq<i32>,
    h: Seq<i64>,
    g: Seq<i64>,
    f: Seq<i64>,
    start: int,
    end: int,
    rank0: Seq<int>,
    step: int,
)
    requires
        search_inv(links, valid, open0, state0, parents, h, g, f, start, end, rank0, step),
        open0.len() > 0,
    ensures
        ({
            let cur = open0.last() as int;
            let open1 = open0.subrange(0, open0.len() - 1);
            let state1 = state0.update(cur, NODE_CLOSED);
            let rank1 = rank0.update(cur, step);
            &&& search_core(links, valid, open1, state1, parents, h, g, f, start, end, rank1, step + 1)
            &&& (cur != end ==> expanding(links, valid, open1, state1, parents, h, g, f, start, end, rank1, step, cur, 0))
            &&& forall|j: int| 0 <= j < open0.len() ==> f[#[trigger] open0[j] as int] >= f[cur]
        }),
{
    let n = valid.len() as int;
    let last = open0.len() - 1;
    let cur = open0.last() as int;
    let open1 = open0.subrange(0, last);
    let state1 = state0.update(cur, NODE_CLOSED);
    let rank1 = rank0.update(cur, step);
    assert(open0[last] == cur);
    assert(state0[cur] != NODE_CLOSED);
    assert forall|x: i32| #[trigger] open1.contains(x) <==> (open0.contains(x) && x != cur as i32) by {
        if open1.contains(x) {
            let i = choose|i: int| 0 <= i < open1.len() && open1[i] == x;
            assert(open0[i] == x);
        }
        if open0.contains(x) && x != cur as i32 {
            let i = choose|i: int| 0 <= i < open0.len() && open0[i] == x;
            assert(open1[i] == x);
        }
    }
    assert forall|i: int| 0 <= i < open1.len() implies state1[#[trigger] open1[i] as int] == NODE_OPEN by {
        assert(open0[i] == open1[i]);
        assert(open0[i] != open0[last]);
    }
    assert forall|v: int| 0 <= v < n implies #[trigger] parent_ok(links, valid, state1, parents, rank1, v) by {
        assert(parent_ok(links, valid, state0, parents, rank0, v));
        if parents[v] != -1 {
            let p = parents[v] as int;
            assert(p != cur);
            if v == cur {
                assert(rank0[p] < step);
            }
        }
    }
    assert forall|v: int| 0 <= v < n && v != start && (state1[v] == NODE_CLOSED || open1.contains(v as i32))
        implies #[trigger] parents[v] != -1 by {
        if v == cur {
            assert(open0.contains(v as i32));
        }
    }
    assert forall|v: int| 0 <= v < n && #[trigger] state1[v] == NODE_CLOSED implies 0 <= rank1[v] < step + 1 by {
        if v != cur {
            assert(state0[v] == NODE_CLOSED);
        }
    }
    assert(state1[start] == NODE_CLOSED) by {
        if state0[start] != NODE_CLOSED {
            assert(open0 == seq![start as i32]);
        }
    }
    assert(open1.no_duplicates());
    assert(sorted_desc(open1, f));
    assert forall|j: int| 0 <= j < open0.len() implies f[#[trigger] open0[j] as int] >= f[cur] by {
        if j < last {
            assert(sorted_desc(open0, f));
        }
    }
    assert forall|v: int| 0 <= v < n implies 0 <= #[trigger] g[v] <= g_bound(step + 1) by {}
    assert forall|v: int| 0 <= v < n implies 0 <= #[trigger] f[v] <= g_bound(step + 1) + HEURISTIC_MAX by {}
    if cur != end {
        assert forall|u: int| 0 <= u < n && #[trigger] state1[u] == NODE_CLOSED && u != cur
            implies neighbours_seen(links, valid, state1, open1, u, links[u]@.len() as int) by {
            assert(state0[u] == NODE_CLOSED);
            assert(neighbours_seen(links, valid, state0, open0, u, links[u]@.len() as int));
            assert forall|k: int| 0 <= k < links[u]@.len() implies {
                let w = #[trigger] links[u]@[k];
                w == -1 || !valid[w as int] || state1[w as int] == NODE_CLOSED || open1.contains(w)
            } by {
                let w = links[u]@[k];
                if w != -1 && valid[w as int] && state0[w as int] != NODE_CLOSED && w as int != cur {
                    assert(open0.contains(w));
                }
            }
        }
    }
}

/// One expansion step of the search: takes the open node of lowest f-cost (the
/// last of the open list, which the search keeps sorted by descending f-cost) and
/// closes it; returns 2 if it is the target, otherwise processes each of its links
/// in turn (see `relax_links`) and returns 1. Returns 0 when no open node remains.
/// The ghost arguments and result carry the order in which nodes were closed and
/// the number of steps made; where the search's invariant held for them before,
/// it holds after the step.
pub fn check_node(
    open_nodes: &mut Vec<i32>,
    node_states: &mut Vec<u8>,
    parents: &mut Vec<i32>,
    h_cost: &mut Vec<i64>,
    g_cost: &mut Vec<i64>,
    f_cost: &mut Vec<i64>,
    grid: &NavGrid,
    end_node_idx: i32,
    end_node_coord: (i32, i32),
    Ghost(start): Ghost<int>,
    Ghost(rank): Ghost<Seq<int>>,
    Ghost(step): Ghost<int>,
) -> (res: (i32, Ghost<Seq<int>>))
    requires
        grid.wf(),
        grid.valid@.len() <= i32::MAX,
        old(node_states)@.len() == grid.valid@.len(),
        old(parents)@.len() == grid.valid@.len(),
        old(h_cost)@.len() == grid.valid@.len(),
        old(g_cost)@.len() == grid.valid@.len(),
        old(f_cost)@.len() == grid.valid@.len(),
        indexes_into(old(open_nodes)@, grid.valid@.len() as int),
        forall|v: int| 0 <= v < grid.valid@.len() ==> -COST_LIMIT <= #[trigger] old(g_cost)@[v] <= COST_LIMIT,
        forall|v: int| 0 <= v < grid.valid@.len() ==> -H_COST_LIMIT <= #[trigger] old(h_cost)@[v] <= H_COST_LIMIT,
    ensures
        res.0 == 0 || res.0 == 1 || res.0 == 2,
        res.0 == 0 <==> old(open_nodes)@.len() == 0,
        res.0 == 0 ==> final(open_nodes)@ == old(open_nodes)@ && final(node_states)@ == old(node_states)@
            && final(parents)@ == old(parents)@ && final(h_cost)@ == old(h_cost)@ && final(g_cost)@ == old(g_cost)@
            && final(f_cost)@ == old(f_cost)@ && res.1@ == rank,
        res.0 != 0 ==> ({
            let cur = old(open_nodes)@.last() as int;
            &&& final(node_states)@[cur] == NODE_CLOSED
            &&& (res.0 == 2 <==> cur == end_node_idx)
            &&& sorted_desc(old(open_nodes)@, old(f_cost)@) ==> forall|j: int| 0 <= j < old(open_nodes)@.len()
                ==> old(f_cost)@[#[trigger] old(open_nodes)@[j] as int] >= old(f_cost)@[cur]
        }),
        final(node_states)@.len() == old(node_states)@.len(),
        forall|v: int| 0 <= v < old(node_states)@.len() && old(node_states)@[v] == NODE_CLOSED
            ==> #[trigger] final(node_states)@[v] == NODE_CLOSED,
        res.0 == 2 ==> final(node_states)@ == old(node_states)@.update(old(open_nodes)@.last() as int, NODE_CLOSED),
        res.0 == 2 ==> final(open_nodes)@ == old(open_nodes)@.drop_last() && final(parents)@ == old(parents)@
            && final(h_cost)@ == old(h_cost)@ && final(g_cost)@ == old(g_cost)@ && final(f_cost)@ == old(f_cost)@,
        res.0 == 1 ==> ({
            let cur = old(open_nodes)@.last() as int;
            (final(open_nodes)@, final(node_states)@, final(parents)@, final(h_cost)@, final(g_cost)@,
                final(f_cost)@)
                == relax_links((old(open_nodes)@.drop_last(), old(node_states)@.update(cur, NODE_CLOSED),
                    old(parents)@, old(h_cost)@, old(g_cost)@, old(f_cost)@), grid.valid@, cur, grid.links@[cur]@,
                    grid.links@[cur]@.len(), (end_node_coord.0 as int, end_node_coord.1 as int))
        }),
        (res.0 as int, (final(open_nodes)@, final(node_states)@, final(parents)@, final(h_cost)@, final(g_cost)@,
            final(f_cost)@)) == search_step((old(open_nodes)@, old(node_states)@, old(parents)@, old(h_cost)@,
            old(g_cost)@, old(f_cost)@), grid.links@, grid.valid@, end_node_idx as int,
            (end_node_coord.0 as int, end_node_coord.1 as int)),
        old(open_nodes)@.no_duplicates()
            && (forall|x: i32| old(open_nodes)@.contains(x) ==> old(node_states)@[x as int] == NODE_OPEN)
            ==> (forall|x: i32| final(open_nodes)@.contains(x) ==> final(node_states)@[x as int] == NODE_OPEN),
        search_inv(grid.links@, grid.valid@, old(open_nodes)@, old(node_states)@, old(parents)@, old(h_cost)@,
            old(g_cost)@, old(f_cost)@, start, end_node_idx as int, rank, step)
            && 0 <= step < i32::MAX
            && end_node_coord.0 == spec_coord_from_1d(SIDE_NODE_NO as int, end_node_idx as int).0
            && end_node_coord.1 == spec_coord_from_1d(SIDE_NODE_NO as int, end_node_idx as int).1 ==> {
            &&& res.0 == 1 ==> search_inv(grid.links@, grid.valid@, final(open_nodes)@, final(node_states)@,
                final(parents)@, final(h_cost)@, final(g_cost)@, final(f_cost)@, start, end_node_idx as int, res.1@,
                step + 1)
            &&& res.0 == 2 ==> search_core(grid.links@, grid.valid@, final(open_nodes)@, final(node_states)@,
                final(parents)@, final(h_cost)@, final(g_cost)@, final(f_cost)@, start, end_node_idx as int, res.1@,
                step + 1)
        },
{
    let ghost open0 = open_nodes@;
    let ghost inv = search_inv(grid.links@, grid.valid@, open_nodes@, node_states@, parents@, h_cost@, g_cost@,
        f_cost@, start, end_node_idx as int, rank, step) && 0 <= step < i32::MAX
        && end_node_coord.0 == spec_coord_from_1d(SIDE_NODE_NO as int, end_node_idx as int).0
        && end_node_coord.1 == spec_coord_from_1d(SIDE_NODE_NO as int, end_node_idx as int).1;
    let ghost marked = open0.no_duplicates()
        && (forall|x: i32| open0.contains(x) ==> node_states@[x as int] == NODE_OPEN);
    let lowest_cost_node = open_nodes.pop();
    match lowest_cost_node {
        Some(curr_node_idx) => {
            proof {
                assert(open0[open0.len() - 1] == curr_node_idx);
                if inv {
                    lemma_close_popped(grid.links@, grid.valid@, open0, node_states@, parents@, h_cost@, g_cost@,
                        f_cost@, start, end_node_idx as int, rank, step);
                }
                if sorted_desc(open0, f_cost@) {
                    assert forall|j: int| 0 <= j < open0.len() implies
                        f_cost@[#[trigger] open0[j] as int] >= f_cost@[curr_node_idx as int] by {
                        if j < open0.len() - 1 {
                            assert(f_cost@[open0[j] as int] >= f_cost@[open0[open0.len() - 1] as int]);
                        }
                    }
                }
                assert(indexes_into(open_nodes@, grid.valid@.len() as int)) by {
                    assert forall|k: int| 0 <= k < open_nodes@.len() implies 0 <= #[trigger] open_nodes@[k]
                        < grid.valid@.len() by {
                        assert(open_nodes@[k] == open0[k]);
                    }
                }
            }
            let cn_idx_us = curr_node_idx as usize;
            node_states.set(cn_idx_us, NODE_CLOSED);
            proof {
                if marked {
                    assert forall|x: i32| open_nodes@.contains(x) implies node_states@[x as int] == NODE_OPEN by {
                        let k = choose|k: int| 0 <= k < open_nodes@.len() && open_nodes@[k] == x;
                        assert(open0[k] == x);
                        assert(open0.contains(x));
                        assert(x != curr_node_idx);
                    }
                }
            }
            let ghost rank1 = rank.update(cn_idx_us as int, step);
            if end_node_idx == curr_node_idx {
                return (2, Ghost(rank1));
            }
            let n_links = grid.links[cn_idx_us].len();
            let mut iter_idx: usize = 0;
            while iter_idx < n_links
                invariant
                    n_links == grid.links@[cn_idx_us as int]@.len(),
                    iter_idx <= n_links,
                    cn_idx_us == curr_node_idx,
                    0 <= cn_idx_us < grid.valid@.len(),
                    grid.wf(),
                    grid.valid@.len() <= i32::MAX,
                    node_states@.len() == grid.valid@.len(),
                    old(node_states)@.len() == grid.valid@.len(),
                    parents@.len() == grid.valid@.len(),
                    h_cost@.len() == grid.valid@.len(),
                    g_cost@.len() == grid.valid@.len(),
                    f_cost@.len() == grid.valid@.len(),
                    indexes_into(open_nodes@, grid.valid@.len() as int),
                    node_states@[cn_idx_us as int] == NODE_CLOSED,
                    g_cost@[cn_idx_us as int] == old(g_cost)@[cn_idx_us as int],
                    -COST_LIMIT <= old(g_cost)@[cn_idx_us as int] <= COST_LIMIT,
                    forall|v: int| 0 <= v < grid.valid@.len() ==> -H_COST_LIMIT <= #[trigger] h_cost@[v] <= H_COST_LIMIT,
                    inv ==> expanding(grid.links@, grid.valid@, open_nodes@, node_states@, parents@, h_cost@, g_cost@,
                        f_cost@, start, end_node_idx as int, rank1, step, cn_idx_us as int, iter_idx as int),
                    inv ==> 0 <= step < i32::MAX,
                    inv ==> end_node_coord.0 == spec_coord_from_1d(SIDE_NODE_NO as int, end_node_idx as int).0,
                    inv ==> end_node_coord.1 == spec_coord_from_1d(SIDE_NODE_NO as int, end_node_idx as int).1,
                    forall|v: int| 0 <= v < old(node_states)@.len() && old(node_states)@[v] == NODE_CLOSED
                        ==> #[trigger] node_states@[v] == NODE_CLOSED,
                    marked ==> forall|x: i32| open_nodes@.contains(x) ==> node_states@[x as int] == NODE_OPEN,
                    (open_nodes@, node_states@, parents@, h_cost@, g_cost@, f_cost@)
                        == relax_links((open0.drop_last(), old(node_states)@.update(cn_idx_us as int,
                            NODE_CLOSED), old(parents)@, old(h_cost)@, old(g_cost)@, old(f_cost)@), grid.valid@,
                            cn_idx_us as int, grid.links@[cn_idx_us as int]@, iter_idx as nat,
                            (end_node_coord.0 as int, end_node_coord.1 as int)),
                decreases n_links - iter_idx,
            {
                let ghost prev = node_states@;
                relax_link(open_nodes, node_states, parents, h_cost, g_cost, f_cost, grid, curr_node_idx,
                    iter_idx, end_node_coord, Ghost(inv), Ghost(start), Ghost(end_node_idx as int), Ghost(rank1),
                    Ghost(step));
                proof {
                    assert forall|v: int| 0 <= v < old(node_states)@.len() && old(node_states)@[v] == NODE_CLOSED
                        implies #[trigger] node_states@[v] == NODE_CLOSED by {
                        assert(prev[v] == NODE_CLOSED);
                    }
                }
                iter_idx += 1;
            }
            (1, Ghost(rank1))
        },
        None => (0, Ghost(rank)),
    }
}

/// Where no node is open any more and every link of a closed node leads nowhere or
/// to a closed node, every node reachable from the start is closed; the target,
/// which is not closed, is unreachable.
proof fn lemma_exhausted_unreachable(
    links: Seq<Vec<i32>>,
    valid: Seq<bool>,
    open: Seq<i32>,
    state: Seq<u8>,
    parents: Seq<i32>,
    h: Seq<i64>,
    g: Seq<i64>,
    f: Seq<i64>,
    start: int,
    end: int,
    rank: Seq<int>,
    step: int,
)
    requires
        search_inv(links, valid, open, state, parents, h, g, f, start, end, rank, step),
        open.len() == 0,
    ensures
        !reachable(links, valid, start, end),
{
    if reachable(links, valid, start, end) {
        let path = choose|path: Seq<usize>| is_walk(links, valid, path) && path[0] == start && path.last() == end;
        assert(state[start] == NODE_CLOSED) by {
            if state[start] != NODE_CLOSED {
                assert(open == seq![start as i32]);
                assert(open.len() == 1);
            }
        }
        lemma_walk_stays_closed(links, valid, open, state, parents, h, g, f, start, end, rank, step, path, path.len() - 1);
        assert(state[end] == NODE_CLOSED);
    }
}

/// Every node of a walk from a closed node is closed, where links of closed nodes
/// only lead to closed nodes.
proof fn lemma_walk_stays_closed(
    links: Seq<Vec<i32>>,
    valid: Seq<bool>,
    open: Seq<i32>,
    state: Seq<u8>,
    parents: Seq<i32>,
    h: Seq<i64>,
    g: Seq<i64>,
    f: Seq<i64>,
    start: int,
    end: int,
    rank: Seq<int>,
    step: int,
    path: Seq<usize>,
    i: int,
)
    requires
        search_inv(links, valid, open, state, parents, h, g, f, start, end, rank, step),
        open.len() == 0,
        is_walk(links, valid, path),
        0 <= path[0] < valid.len(),
        state[path[0] as int] == NODE_CLOSED,
        0 <= i < path.len(),
    ensures
        0 <= path[i] < valid.len(),
        state[path[i] as int] == NODE_CLOSED,
    decreases i,
{
    if i > 0 {
        lemma_walk_stays_closed(links, valid, open, state, parents, h, g, f, start, end, rank, step, path, i - 1);
        let u = path[i - 1] as int;
        let v = path[i] as int;
        assert(is_link(links, valid, u, v));
        let k = choose|k: int| 0 <= k < links[u]@.len() && links[u]@[k] == v;
        assert(neighbours_seen(links, valid, state, open, u, links[u]@.len() as int));
        assert(links[u]@[k] == v);
        assert(!open.contains(v as i32));
    }
}

/// The parent chain of a closed or open node ends within `rank + 2` steps.
proof fn lemma_chain_ends(
    links: Seq<Vec<i32>>,
    valid: Seq<bool>,
    open: Seq<i32>,
    state: Seq<u8>,
    parents: Seq<i32>,
    h: Seq<i64>,
    g: Seq<i64>,
    f: Seq<i64>,
    start: int,
    end: int,
    rank: Seq<int>,
    step: int,
    v: int,
)
    requires
        search_core(links, valid, open, state, parents, h, g, f, start, end, rank, step),
        0 <= v < valid.len(),
        state[v] == NODE_CLOSED,
    ensures
        chain_ends(parents, v, (rank[v] + 1) as nat),
    decreases rank[v],
{
    assert(parent_ok(links, valid, state, parents, rank, v));
    if parents[v] != -1 {
        let p = parents[v] as int;
        lemma_chain_ends(links, valid, open, state, parents, h, g, f, start, end, rank, step, p);
        lemma_chain_ends_mono(parents, p, (rank[p] + 1) as nat, rank[v] as nat);
    }
}

/// More fuel does not stop a parent chain from ending.
proof fn lemma_chain_ends_mono(parents: Seq<i32>, v: int, fuel: nat, more: nat)
    requires
        chain_ends(parents, v, fuel),
        fuel <= more,
    ensures
        chain_ends(parents, v, more),
    decreases fuel,
{
    if parents[v] != -1 {
        lemma_chain_ends_mono(parents, parents[v] as int, (fuel - 1) as nat, (more - 1) as nat);
    }
}

/// Along a parent chain, a closed node was closed after every node before it.
proof fn lemma_chain_ranks(
    links: Seq<Vec<i32>>,
    valid: Seq<bool>,
    state: Seq<u8>,
    parents: Seq<i32>,
    rank: Seq<int>,
    path: Seq<usize>,
    i: int,
    j: int,
)
    requires
        forall|v: int| 0 <= v < valid.len() ==> #[trigger] parent_ok(links, valid, state, parents, rank, v),
        forall|k: int| 0 <= k < path.len() ==> #[trigger] path[k] < valid.len(),
        forall|k: int| 1 <= k < path.len() ==> parents[#[trigger] path[k] as int] == path[k - 1],
        0 <= i < j < path.len(),
        state[path[j] as int] == NODE_CLOSED,
    ensures
        rank[path[i] as int] < rank[path[j] as int],
    decreases j - i,
{
    let v = path[j] as int;
    assert(parents[v] == path[j - 1]);
    assert(parent_ok(links, valid, state, parents, rank, v));
    if i < j - 1 {
        lemma_chain_ranks(links, valid, state, parents, rank, path, i, j - 1);
    }
}

/// The parent chain of a closed or open node, as `build_path` gives it, is a walk
/// along links from the start of the search.
proof fn lemma_chain_is_walk(
    links: Seq<Vec<i32>>,
    valid: Seq<bool>,
    open: Seq<i32>,
    state: Seq<u8>,
    parents: Seq<i32>,
    h: Seq<i64>,
    g: Seq<i64>,
    f: Seq<i64>,
    start: int,
    end: int,
    rank: Seq<int>,
    step: int,
    path: Seq<usize>,
    target: int,
)
    requires
        search_core(links, valid, open, state, parents, h, g, f, start, end, rank, step),
        0 <= target < valid.len(),
        state[target] == NODE_CLOSED || open.contains(target as i32),
        is_parent_chain(parents, path, target),
    ensures
        is_walk(links, valid, path),
        path[0] == start,
        path.no_duplicates(),
{
    let n = valid.len() as int;
    let len = path.len() as int;
    assert forall|i: int| 0 <= i < len - 1 implies state[#[trigger] path[i] as int] == NODE_CLOSED by {
        let v = path[i + 1] as int;
        assert(parents[v] == path[i]);
        assert(parent_ok(links, valid, state, parents, rank, v));
    }
    assert forall|i: int, j: int| 0 <= i < len && 0 <= j < len && i != j implies path[i] != path[j] by {
        let (a, b) = if i < j { (i, j) } else { (j, i) };
        if state[path[b] as int] == NODE_CLOSED {
            lemma_chain_ranks(links, valid, state, parents, rank, path, a, b);
        } else {
            assert(b == len - 1);
            assert(state[path[a] as int] == NODE_CLOSED);
        }
    }
    assert forall|i: int| 0 <= i < len - 1 implies is_link(links, valid, #[trigger] path[i] as int, path[i + 1] as int) by {
        let v = path[i + 1] as int;
        assert(parents[v] == path[i]);
        assert(parent_ok(links, valid, state, parents, rank, v));
    }
    let r = path[0] as int;
    if len > 1 {
        let v = path[1] as int;
        assert(parents[v] == path[0]);
        assert(parent_ok(links, valid, state, parents, rank, v));
        assert(state[r] == NODE_CLOSED);
    }
    assert(state[r] == NODE_CLOSED || open.contains(r as i32));
    assert(parents[r] == -1);
}


/// The parent chain of an open node ends too.
proof fn lemma_chain_ends_open(
    links: Seq<Vec<i32>>,
    valid: Seq<bool>,
    open: Seq<i32>,
    state: Seq<u8>,
    parents: Seq<i32>,
    h: Seq<i64>,
    g: Seq<i64>,
    f: Seq<i64>,
    start: int,
    end: int,
    rank: Seq<int>,
    step: int,
    v: int,
)
    requires
        search_core(links, valid, open, state, parents, h, g, f, start, end, rank, step),
        0 <= v < valid.len(),
        state[v] == NODE_CLOSED || open.contains(v as i32),
    ensures
        exists|fuel: nat| chain_ends(parents, v, fuel),
{
    if state[v] == NODE_CLOSED {
        lemma_chain_ends(links, valid, open, state, parents, h, g, f, start, end, rank, step, v);
        assert(chain_ends(parents, v, (rank[v] + 1) as nat));
    } else if parents[v] == -1 {
        assert(chain_ends(parents, v, 0));
    } else {
        assert(parent_ok(links, valid, state, parents, rank, v));
        let p = parents[v] as int;
        lemma_chain_ends(links, valid, open, state, parents, h, g, f, start, end, rank, step, p);
        assert(chain_ends(parents, v, (rank[p] + 2) as nat));
    }
}

/// A search invariant still holds when one more expansion is counted.
proof fn lemma_search_inv_next_step(
    links: Seq<Vec<i32>>,
    valid: Seq<bool>,
    open: Seq<i32>,
    state: Seq<u8>,
    parents: Seq<i32>,
    h: Seq<i64>,
    g: Seq<i64>,
    f: Seq<i64>,
    start: int,
    end: int,
    rank: Seq<int>,
    step: int,
)
    requires
        search_inv(links, valid, open, state, parents, h, g, f, start, end, rank, step),
    ensures
        search_inv(links, valid, open, state, parents, h, g, f, start, end, rank, step + 1),
{
    let n = valid.len() as int;
    assert forall|v: int| 0 <= v < n implies 0 <= #[trigger] g[v] <= g_bound(step + 1) by {}
    assert forall|v: int| 0 <= v < n implies 0 <= #[trigger] f[v] <= g_bound(step + 1) + HEURISTIC_MAX by {}
}

/// A closed node can be reached from the start of the search.
proof fn lemma_closed_reachable(
    links: Seq<Vec<i32>>,
    valid: Seq<bool>,
    open: Seq<i32>,
    state: Seq<u8>,
    parents: Seq<i32>,
    h: Seq<i64>,
    g: Seq<i64>,
    f: Seq<i64>,
    start: int,
    end: int,
    rank: Seq<int>,
    step: int,
    v: int,
)
    requires
        search_core(links, valid, open, state, parents, h, g, f, start, end, rank, step),
        0 <= v < valid.len(),
        state[v] == NODE_CLOSED,
    ensures
        reachable(links, valid, start, v),
    decreases rank[v],
{
    assert(parent_ok(links, valid, state, parents, rank, v));
    if parents[v] == -1 {
        assert(v == start);
        let path = seq![v as usize];
        assert(is_walk(links, valid, path));
        assert(path[0] == start && path.last() == v);
    } else {
        let p = parents[v] as int;
        lemma_closed_reachable(links, valid, open, state, parents, h, g, f, start, end, rank, step, p);
        let path = choose|path: Seq<usize>| is_walk(links, valid, path) && path[0] == start && path.last() == p;
        let longer = path.push(v as usize);
        assert forall|i: int| 0 <= i < longer.len() - 1 implies
            is_link(links, valid, #[trigger] longer[i] as int, longer[i + 1] as int) by {
            if i < path.len() - 1 {
                assert(longer[i] == path[i] && longer[i + 1] == path[i + 1]);
            } else {
                assert(longer[i] == p && longer[i + 1] == v);
            }
        }
        assert(is_walk(links, valid, longer) && longer[0] == start && longer.last() == v);
    }
}

/// More than `count` nodes can be reached from node `s`.
pub open spec fn reaches_more_than(links: Seq<Vec<i32>>, valid: Seq<bool>, s: int, count: int) -> bool {
    exists|nodes: Set<int>| nodes.finite() && nodes.len() > count
        && forall|v: int| #[trigger] nodes.contains(v) ==> reachable(links, valid, s, v)
}

/// The distinct closed nodes listed in `order` all can be reached from the start.
proof fn lemma_many_closed_reachable(
    links: Seq<Vec<i32>>,
    valid: Seq<bool>,
    open: Seq<i32>,
    state: Seq<u8>,
    parents: Seq<i32>,
    h: Seq<i64>,
    g: Seq<i64>,
    f: Seq<i64>,
    start: int,
    end: int,
    rank: Seq<int>,
    step: int,
    order: Seq<int>,
)
    requires
        search_core(links, valid, open, state, parents, h, g, f, start, end, rank, step),
        order.no_duplicates(),
        forall|i: int| 0 <= i < order.len() ==> 0 <= #[trigger] order[i] < valid.len()
            && state[order[i]] == NODE_CLOSED,
    ensures
        reaches_more_than(links, valid, start, order.len() - 1),
{
    let nodes = order.to_set();
    order.unique_seq_to_set();
    assert forall|v: int| #[trigger] nodes.contains(v) implies reachable(links, valid, start, v) by {
        let i = choose|i: int| 0 <= i < order.len() && order[i] == v;
        lemma_closed_reachable(links, valid, open, state, parents, h, g, f, start, end, rank, step, v);
    }
    assert(nodes.finite());
}

/// How a search ended.
pub enum PathOutcome {
    /// The target was reached; the path of node indices leads from the start to it.
    Reached(Vec<usize>),
    /// No open node remained before the target was reached: there is no path.
    Unreachable,
    /// The step budget ran out; the path leads from the start to the open node that
    /// was next in line.
    Truncated(Vec<usize>),
}

/// What each outcome of a search from `start` to `end` promises.
pub open spec fn outcome_ok(links: Seq<Vec<i32>>, valid: Seq<bool>, start: int, end: int, outcome: PathOutcome) -> bool {
    match outcome {
        PathOutcome::Reached(path) => is_walk(links, valid, path@) && path@[0] == start && path@.last() == end
            && path@.no_duplicates(),
        PathOutcome::Unreachable => !reachable(links, valid, start, end),
        PathOutcome::Truncated(path) => is_walk(links, valid, path@) && path@[0] == start
            && path@.no_duplicates() && reaches_more_than(links, valid, start, MAX_SEARCH_STEPS as int),
    }
}

/// How an outcome stands in the search's buffer afterwards: a reached target is
/// closed and its path is its parent chain; a truncated search's path is the
/// parent chain of the node it leads to, an open node that was next in line.
pub open spec fn outcome_in_buffer(outcome: PathOutcome, parents: Seq<i32>, state: Seq<u8>, end: int) -> bool {
    match outcome {
        PathOutcome::Reached(path) => is_parent_chain(parents, path@, end) && state[end] == NODE_CLOSED,
        PathOutcome::Unreachable => true,
        PathOutcome::Truncated(path) => is_parent_chain(parents, path@, path@.last() as int)
            && state[path@.last() as int] == NODE_OPEN,
    }
}

/// Node `v` has an f-cost no greater than that of any node in the open list `open`:
/// it is the one the search would expand next.
pub open spec fn lowest_f_of_open(open: Seq<i32>, f: Seq<i64>, v: int) -> bool {
    forall|i: int| 0 <= i < open.len() ==> f[v] <= f[#[trigger] open[i] as int]
}

/// Where the budget runs out, the truncated path ends at the open node of lowest
/// f-cost: no node left in the open list has a lower one.
pub open spec fn truncated_at_lowest_f(outcome: PathOutcome, open: Seq<i32>, f: Seq<i64>) -> bool {
    match outcome {
        PathOutcome::Truncated(path) => lowest_f_of_open(open, f, path@.last() as int),
        _ => true,
    }
}

/// A* search on the grid from node `start_node_idx` to node `end_node_idx`, with
/// straight and diagonal link costs and the Manhattan heuristic, expanding at most
/// `MAX_SEARCH_STEPS + 1` nodes. Nodes are marked open while in the open list and
/// closed once expanded. A reached target comes with its parent chain, a walk along
/// links from the start to it that repeats no node; an unreachable one is reported
/// only where no walk exists; where the budget runs out, which needs more than
/// `MAX_SEARCH_STEPS` nodes reachable from the start, the path is the parent chain
/// of the open node next in line: the one of lowest f-cost, and every node left in
/// the open list other than the start carries the lowest g-cost that a closed node
/// linked to it gives (see `open_g_lowest`), unless the last step closed the target.
///
/// The steps are exactly those of `search_result`, expansion by expansion, and the
/// outcome and the buffer's final contents follow from it (see `run_decides`).
///
/// Where the budget runs out in the very step that empties the open list, there is
/// no open node to lead to: the step's own result decides (the target closed in it
/// is reached, otherwise there is no path).
pub fn find_path(grid: &NavGrid, buffer: &mut AStarBuffer, start_node_idx: i32, end_node_idx: i32) -> (outcome: PathOutcome)
    requires
        grid.wf(),
        grid.valid@.len() <= i32::MAX,
        old(buffer).fits(grid.valid@.len() as int),
        0 <= start_node_idx < grid.valid@.len(),
        0 <= end_node_idx < grid.valid@.len(),
    ensures
        final(buffer).fits(grid.valid@.len() as int),
        outcome_ok(grid.links@, grid.valid@, start_node_idx as int, end_node_idx as int, outcome),
        outcome_in_buffer(outcome, final(buffer).parents@, final(buffer).state@, end_node_idx as int),
        run_decides(outcome, final(buffer).values(),
            search_result(grid.links@, grid.valid@, start_node_idx as int, end_node_idx as int)),
        truncated_at_lowest_f(outcome, final(buffer).open_sorted_idxs@, final(buffer).f_cost@),
        outcome is Truncated && final(buffer).state@[end_node_idx as int] != NODE_CLOSED ==> open_g_lowest(grid.links@,
            grid.valid@, final(buffer).values(), start_node_idx as int),
{
    let ghost links = grid.links@;
    let ghost valid = grid.valid@;
    let ghost n = valid.len() as int;
    let ghost start = start_node_idx as int;
    let ghost end = end_node_idx as int;
    buffer.open_sorted_idxs.clear();
    buffer.open_sorted_idxs.push(start_node_idx);
    buffer.g_cost.set(start_node_idx as usize, 0);
    let len = buffer.state.len();
    let mut i: usize = 0;
    while i < len
        invariant
            len == n,
            buffer.fits(n),
            i <= len,
            forall|v: int| 0 <= v < i ==> buffer.state@[v] == NODE_UNCHECKED,
            forall|v: int| 0 <= v < i ==> buffer.parents@[v] == -1,
            forall|v: int| 0 <= v < i ==> buffer.h_cost@[v] == UNVISITED_COST,
            forall|v: int| 0 <= v < i ==> buffer.g_cost@[v] == UNVISITED_COST,
            forall|v: int| 0 <= v < i ==> buffer.f_cost@[v] == UNVISITED_COST,
            buffer.open_sorted_idxs@ == seq![start_node_idx],
        decreases len - i,
    {
        buffer.state.set(i, NODE_UNCHECKED);
        buffer.parents.set(i, -1);
        buffer.f_cost.set(i, UNVISITED_COST);
        buffer.g_cost.set(i, UNVISITED_COST);
        buffer.h_cost.set(i, UNVISITED_COST);
        i += 1;
    }
    buffer.state.set(start_node_idx as usize, NODE_OPEN);
    let end_node_coord = coord_from_1d(SIDE_NODE_NO, end_node_idx);
    let ghost mut rank: Seq<int> = Seq::new(n as nat, |v: int| 0int);
    let ghost mut step: int = 0;
    let ghost mut order: Seq<int> = Seq::empty();
    let ghost total = search_result(links, valid, start, end);
    proof {
        let init = initial_values(n as nat, start);
        assert(buffer.state@ =~= init.1);
        assert(buffer.parents@ =~= init.2);
        assert(buffer.h_cost@ =~= init.3);
        assert(buffer.g_cost@ =~= init.4);
        assert(buffer.f_cost@ =~= init.5);
        assert(buffer.values() == init);
        assert(buffer.open_sorted_idxs@.no_duplicates());
        assert forall|v: int| 0 <= v < n && v != start && (buffer.state@[v] == NODE_CLOSED
            || buffer.open_sorted_idxs@.contains(v as i32)) implies #[trigger] buffer.parents@[v] != -1 by {
            if buffer.open_sorted_idxs@.contains(v as i32) {
                assert(buffer.open_sorted_idxs@[0] == v);
            }
        }
        assert(search_inv(links, valid, buffer.open_sorted_idxs@, buffer.state@, buffer.parents@, buffer.h_cost@,
            buffer.g_cost@, buffer.f_cost@, start, end, rank, step));
        assert(open_g_lowest(links, valid, buffer.values(), start));
    }
    let mut last_result: i32 = 1;
    let mut iters: i32 = MAX_SEARCH_STEPS;
    let mut decided: Option<PathOutcome> = None;
    loop
        invariant_except_break
            search_inv(links, valid, buffer.open_sorted_idxs@, buffer.state@, buffer.parents@, buffer.h_cost@,
                buffer.g_cost@, buffer.f_cost@, start, end, rank, step),
            step == MAX_SEARCH_STEPS - iters,
            0 <= iters <= MAX_SEARCH_STEPS,
            decided is None,
            last_result == 1,
            order.len() == step,
            open_g_lowest(links, valid, buffer.values(), start),
            ({
                let run = search_run(buffer.values(), (MAX_SEARCH_STEPS + 1 - step) as nat, links, valid, end,
                    end_coord_of(end));
                total.0 == run.0 && total.1 == run.1 && total.2 == run.2 + step
            }),
        invariant
            order.no_duplicates(),
            forall|i: int| 0 <= i < order.len() ==> 0 <= #[trigger] order[i] < n
                && buffer.state@[order[i]] == NODE_CLOSED,
            buffer.fits(n),
            links == grid.links@,
            valid == grid.valid@,
            n == valid.len(),
            start == start_node_idx,
            end == end_node_idx,
            end_node_coord.0 == spec_coord_from_1d(SIDE_NODE_NO as int, end).0,
            end_node_coord.1 == spec_coord_from_1d(SIDE_NODE_NO as int, end).1,
            total == search_result(links, valid, start, end),
        ensures
            match decided {
                Some(o) => outcome_ok(links, valid, start, end, o)
                    && outcome_in_buffer(o, buffer.parents@, buffer.state@, end)
                    && truncated_at_lowest_f(o, buffer.open_sorted_idxs@, buffer.f_cost@)
                    && (o is Truncated && buffer.state@[end] != NODE_CLOSED ==> open_g_lowest(links, valid,
                    buffer.values(), start))
                    && run_decides(o, buffer.values(), total),
                None => total.2 < MAX_SEARCH_STEPS + 1 && total.0 == last_result && total.1 == buffer.values()
                    && ((last_result == 0 && buffer.open_sorted_idxs@.len() == 0 && search_inv(links, valid,
                    buffer.open_sorted_idxs@, buffer.state@, buffer.parents@, buffer.h_cost@, buffer.g_cost@,
                    buffer.f_cost@, start, end, rank, step)) || (last_result == 2 && buffer.state@[end] == NODE_CLOSED
                    && search_core(links, valid, buffer.open_sorted_idxs@, buffer.state@, buffer.parents@,
                    buffer.h_cost@, buffer.g_cost@, buffer.f_cost@, start, end, rank, step))),
            },
        decreases iters,
    {
        let ghost open_in = buffer.open_sorted_idxs@;
        let ghost state_in = buffer.state@;
        let ghost vals_in = buffer.values();
        let (r, Ghost(new_rank)) = check_node(&mut buffer.open_sorted_idxs, &mut buffer.state, &mut buffer.parents,
            &mut buffer.h_cost, &mut buffer.g_cost, &mut buffer.f_cost, grid, end_node_idx, end_node_coord,
            Ghost(start), Ghost(rank), Ghost(step));
        proof {
            if r == 0 {
                lemma_search_inv_next_step(links, valid, buffer.open_sorted_idxs@, buffer.state@, buffer.parents@,
                    buffer.h_cost@, buffer.g_cost@, buffer.f_cost@, start, end, rank, step);
            } else {
                let cur = open_in.last() as int;
                assert(open_in[open_in.len() - 1] == cur);
                assert(state_in[cur] != NODE_CLOSED);
                assert forall|i: int| 0 <= i < order.len() implies order[i] != cur by {
                    assert(state_in[order[i]] == NODE_CLOSED);
                }
                order = order.push(cur);
                assert forall|i: int| 0 <= i < order.len() implies 0 <= #[trigger] order[i] < n
                    && buffer.state@[order[i]] == NODE_CLOSED by {
                    if i < order.len() - 1 {
                        assert(state_in[order[i]] == NODE_CLOSED);
                    }
                }
            }
            let k = (MAX_SEARCH_STEPS + 1 - step) as nat;
            assert(end_coord_of(end) == (end_node_coord.0 as int, end_node_coord.1 as int));
            assert(search_step(vals_in, links, valid, end, end_coord_of(end)) == (r as int, buffer.values()));
            if r == 1 {
                lemma_step_keeps_open_g_lowest(links, valid, vals_in, start, end, end_coord_of(end), rank, step);
            }
            if r == 1 && k > 1 {
                let run2 = search_run(buffer.values(), (k - 1) as nat, links, valid, end, end_coord_of(end));
                assert(search_run(vals_in, k, links, valid, end, end_coord_of(end)) == (run2.0, run2.1, run2.2 + 1));
            } else {
                assert(search_run(buffer.values(), 0, links, valid, end, end_coord_of(end)) == (1int, buffer.values(), 0nat));
                assert(search_run(vals_in, k, links, valid, end, end_coord_of(end)).1 == buffer.values());
                assert(search_run(vals_in, k, links, valid, end, end_coord_of(end)).2 == 1);
                assert(search_run(vals_in, k, links, valid, end, end_coord_of(end)).0 == r);
            }
            rank = new_rank;
            step = step + 1;
        }
        last_result = r;
        iters -= 1;
        if iters < 0 {
            last_result = 0;
            let ghost open_before = buffer.open_sorted_idxs@;
            match buffer.open_sorted_idxs.pop() {
                Some(last_idx) => {
                    proof {
                        assert(open_before[open_before.len() - 1] == last_idx);
                        assert(open_before.contains(last_idx));
                        lemma_chain_ends_open(links, valid, open_before, buffer.state@, buffer.parents@,
                            buffer.h_cost@, buffer.g_cost@, buffer.f_cost@, start, end, rank, step, last_idx as int);
                    }
                    let path = build_path(&buffer.parents, last_idx as usize);
                    proof {
                        let last = open_before.len() - 1;
                        if buffer.state@[end] != NODE_CLOSED {
                            assert(r == 1);
                            assert forall|i: int| 0 <= i < buffer.open_sorted_idxs@.len()
                                && buffer.open_sorted_idxs@[i] != start implies {
                                &&& no_cheaper_link(links, valid, buffer.state@, buffer.g_cost@,
                                    #[trigger] buffer.open_sorted_idxs@[i] as int)
                                &&& parent_gives_g(links, valid, buffer.state@, buffer.parents@, buffer.g_cost@,
                                    buffer.open_sorted_idxs@[i] as int)
                            } by {
                                assert(buffer.open_sorted_idxs@[i] == open_before[i]);
                            }
                        }
                        assert forall|i: int| 0 <= i < buffer.open_sorted_idxs@.len() implies
                            buffer.f_cost@[last_idx as int] <= buffer.f_cost@[#[trigger] buffer.open_sorted_idxs@[i]
                            as int] by {
                            assert(buffer.open_sorted_idxs@[i] == open_before[i]);
                            assert(sorted_desc(open_before, buffer.f_cost@));
                            assert(buffer.f_cost@[open_before[i] as int] >= buffer.f_cost@[open_before[last] as int]);
                        }
                        lemma_chain_is_walk(links, valid, open_before, buffer.state@, buffer.parents@,
                            buffer.h_cost@, buffer.g_cost@, buffer.f_cost@, start, end, rank, step, path@,
                            last_idx as int);
                        lemma_many_closed_reachable(links, valid, open_before, buffer.state@, buffer.parents@,
                            buffer.h_cost@, buffer.g_cost@, buffer.f_cost@, start, end, rank, step, order);
                    }
                    decided = Some(PathOutcome::Truncated(path));
                },
                None => {
                    if r == 2 {
                        proof {
                            lemma_chain_ends_open(links, valid, buffer.open_sorted_idxs@, buffer.state@,
                                buffer.parents@, buffer.h_cost@, buffer.g_cost@, buffer.f_cost@, start, end, rank,
                                step, end);
                        }
                        let path = build_path(&buffer.parents, end_node_idx as usize);
                        proof {
                            lemma_chain_is_walk(links, valid, buffer.open_sorted_idxs@, buffer.state@,
                                buffer.parents@, buffer.h_cost@, buffer.g_cost@, buffer.f_cost@, start, end, rank,
                                step, path@, end);
                        }
                        decided = Some(PathOutcome::Reached(path));
                    } else {
                        proof {
                            lemma_exhausted_unreachable(links, valid, buffer.open_sorted_idxs@, buffer.state@,
                                buffer.parents@, buffer.h_cost@, buffer.g_cost@, buffer.f_cost@, start, end, rank,
                                step);
                        }
                        decided = Some(PathOutcome::Unreachable);
                    }
                },
            }
            break;
        }
        if last_result != 1 {
            break;
        }
    }
    match decided {
        Some(outcome) => outcome,
        None => {
            if last_result == 0 {
                proof {
                    lemma_exhausted_unreachable(links, valid, buffer.open_sorted_idxs@, buffer.state@,
                        buffer.parents@, buffer.h_cost@, buffer.g_cost@, buffer.f_cost@, start, end, rank, step);
                }
                PathOutcome::Unreachable
            } else {
                proof {
                    lemma_chain_ends_open(links, valid, buffer.open_sorted_idxs@, buffer.state@, buffer.parents@,
                        buffer.h_cost@, buffer.g_cost@, buffer.f_cost@, start, end, rank, step, end);
                }
                let path = build_path(&buffer.parents, end_node_idx as usize);
                proof {
                    lemma_chain_is_walk(links, valid, buffer.open_sorted_idxs@, buffer.state@, buffer.parents@,
                        buffer.h_cost@, buffer.g_cost@, buffer.f_cost@, start, end, rank, step, path@, end);
                }
                PathOutcome::Reached(path)
            }
        },
    }
}

} // verus!
