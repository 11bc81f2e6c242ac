//! The A* search over a grid, and the reconstruction of the path it found.
use crate::frontier::{first_out, leaves_before, Frontier, FrontierItem};
use crate::grid::{
    cell_dist, col, get_neighbor_coords, is_step, is_walk, manhattan, manhattan_dist, reachable,
    row, touches, walk_prev, well_formed,
};
use crate::model::{
    entry_for, expand, finished, initial, lemma_least_is, lemma_queued_count, move_cost, relaxes,
    reversed, run, search_result, search_step, trail, SearchState,
};
use crate::outside::{map_get, map_insert, small_get, small_items, small_len};
use fxhash::FxHashMap;
use vstd::multiset::Multiset;
use vstd::prelude::*;

verus! {

/// Why no path came back.
#[derive(Clone, Copy, Debug, PartialEq, Eq, Structural)]
pub enum PathError {
    /// The width is zero or does not divide the grid's length, the grid has
    /// more cells than a `u32` can number, or an endpoint lies outside it.
    InvalidInput,
    /// No sequence of moves leads from the start to the goal.
    Unreachable,
}

/// A grid and two endpoints that a search can be run on.
pub open spec fn valid_input(grid: Seq<u32>, w: int, start: int, goal: int) -> bool {
    &&& well_formed(grid, w)
    &&& 0 <= start < grid.len()
    &&& 0 <= goal < grid.len()
}

/// Every move from `d` leads to a cell in `dom`.
pub open spec fn closed_at(grid: Seq<u32>, w: int, cardinal: bool, dom: Set<u32>, d: u32) -> bool {
    forall|b: u32| is_step(grid, w, cardinal, d as int, b as int) ==> #[trigger] dom.contains(b)
}

/// Some frontier entry is for cell `d`.
pub open spec fn queued(fr: Seq<FrontierItem>, d: u32) -> bool {
    exists|i: int| 0 <= i < fr.len() && (#[trigger] fr[i]).position == d
}

/// What holds of the search's state between two expansions: every discovered
/// cell but the start has a predecessor that is one move back and cheaper;
/// every discovered cell is either waiting in the frontier or has had all its
/// moves followed.
pub open spec fn search_state(
    grid: Seq<u32>,
    w: int,
    cardinal: bool,
    start: u32,
    cost: Map<u32, u128>,
    from: Map<u32, u32>,
    fr: Seq<FrontierItem>,
) -> bool {
    &&& cost.contains_key(start)
    &&& cost[start] == 1
    &&& forall|n: u32| #[trigger] from.contains_key(n) <==> (cost.contains_key(n) && n != start)
    &&& forall|n: u32| #[trigger] cost.contains_key(n) ==> (n as int) < grid.len() && cost[n] >= 1
    &&& forall|n: u32| #[trigger] from.contains_key(n) ==> cost.contains_key(from[n]) && cost[from[n]] < cost[n]
        && is_step(grid, w, cardinal, from[n] as int, n as int)
    &&& forall|i: int| 0 <= i < fr.len() ==> cost.contains_key((#[trigger] fr[i]).position)
}

/// The sum of the costs recorded for the cells below `n`.
pub open spec fn cost_sum(cost: Map<u32, u128>, n: nat) -> int
    decreases n,
{
    if n == 0 {
        0
    } else {
        cost_sum(cost, (n - 1) as nat) + if cost.contains_key((n - 1) as u32) {
            cost[(n - 1) as u32] as int
        } else {
            0
        }
    }
}

/// The number of cells below `n` with no recorded cost.
pub open spec fn undiscovered(cost: Map<u32, u128>, n: nat) -> nat
    decreases n,
{
    if n == 0 {
        0
    } else {
        undiscovered(cost, (n - 1) as nat) + if cost.contains_key((n - 1) as u32) {
            0nat
        } else {
            1nat
        }
    }
}

/// Recording cost `v` for cell `k` changes the sum by the difference, and
/// lowers the count of undiscovered cells by one if `k` was undiscovered.
proof fn lemma_record_cost(cost: Map<u32, u128>, k: u32, v: u128, n: nat)
    requires
        n <= u32::MAX as nat + 1,
    ensures
        (k as int) < n ==> cost_sum(cost.insert(k, v), n) == cost_sum(cost, n) + v - if cost.contains_key(k) {
            cost[k] as int
        } else {
            0
        },
        (k as int) < n && !cost.contains_key(k) ==> undiscovered(cost.insert(k, v), n) + 1 == undiscovered(cost, n),
        (k as int) >= n ==> cost_sum(cost.insert(k, v), n) == cost_sum(cost, n),
        (k as int) >= n || cost.contains_key(k) ==> undiscovered(cost.insert(k, v), n) == undiscovered(cost, n),
    decreases n,
{
    if n > 0 {
        lemma_record_cost(cost, k, v, (n - 1) as nat);
    }
}

/// The most that one move can cost: the largest cell value plus a diagonal.
pub open spec fn max_step() -> int {
    u32::MAX as int + 2
}

/// A bound on every recorded cost: a cell is reached through at most as many
/// moves as there are other discovered cells.
pub open spec fn cost_ceiling(cost: Map<u32, u128>, n: nat) -> int {
    1 + (n - 1 - undiscovered(cost, n)) * max_step()
}

/// Before anything is recorded, every cell is undiscovered.
proof fn lemma_none_discovered(n: nat)
    ensures
        undiscovered(Map::<u32, u128>::empty(), n) == n,
    decreases n,
{
    if n > 0 {
        lemma_none_discovered((n - 1) as nat);
    }
}

/// A sum of costs is never negative.
proof fn lemma_cost_sum_nonneg(cost: Map<u32, u128>, n: nat)
    ensures
        cost_sum(cost, n) >= 0,
    decreases n,
{
    if n > 0 {
        lemma_cost_sum_nonneg(cost, (n - 1) as nat);
    }
}

/// Taking the first entry out of the frontier keeps every other cell queued.
proof fn lemma_still_queued(fr: Seq<FrontierItem>, e: FrontierItem, rest: Seq<FrontierItem>, d: u32)
    requires
        first_out(fr, e, rest),
        queued(fr, d),
        d != e.position,
    ensures
        queued(rest, d),
{
    let k = choose|k: int| 0 <= k < fr.len() && #[trigger] fr[k] == e && rest == fr.remove(k);
    let i = choose|i: int| 0 <= i < fr.len() && (#[trigger] fr[i]).position == d;
    if i < k {
        assert(rest[i] == fr[i]);
    } else {
        assert(rest[i - 1] == fr[i]);
    }
}

/// Where the discovered cells are closed under moves, every walk from a
/// discovered cell stays among them.
proof fn lemma_walk_stays(grid: Seq<u32>, w: int, cardinal: bool, dom: Set<u32>, from: u32, p: Seq<u32>, i: int)
    requires
        dom.contains(from),
        forall|d: u32| #[trigger] dom.contains(d) ==> closed_at(grid, w, cardinal, dom, d),
        is_walk(grid, w, cardinal, from as int, p),
        0 <= i < p.len(),
    ensures
        dom.contains(p[i]),
    decreases i,
{
    let prev = walk_prev(from as int, p, i);
    assert(is_step(grid, w, cardinal, prev, p[i] as int));
    if i == 0 {
        assert(closed_at(grid, w, cardinal, dom, from));
    } else {
        lemma_walk_stays(grid, w, cardinal, dom, from, p, i - 1);
        assert(closed_at(grid, w, cardinal, dom, p[i - 1]));
    }
}

/// `p` is what a search returns for a path from `start` to `goal`: the cells
/// entered, one move at a time, each once, never the start, ending at the
/// goal; empty exactly when the two endpoints are one cell.
pub open spec fn found_path(grid: Seq<u32>, w: int, cardinal: bool, start: u32, goal: u32, p: Seq<u32>) -> bool {
    &&& is_walk(grid, w, cardinal, start as int, p)
    &&& p.len() == 0 <==> start == goal
    &&& p.len() > 0 ==> p.last() == goal
    &&& p.no_duplicates()
    &&& !p.contains(start)
}

/// Walks the predecessors back from `goal` to `start` and returns the cells
/// met, in the order of travel, `start` left out.
fn reconstruct(
    came_from: &FxHashMap<u32, u32>,
    Ghost(cost): Ghost<Map<u32, u128>>,
    Ghost(grid): Ghost<Seq<u32>>,
    Ghost(w): Ghost<int>,
    Ghost(cardinal): Ghost<bool>,
    start: u32,
    goal: u32,
    Ghost(fr): Ghost<Seq<FrontierItem>>,
) -> (r: Vec<u32>)
    requires
        search_state(grid, w, cardinal, start, cost, came_from@, fr),
        cost.contains_key(goal),
        goal != start,
    ensures
        found_path(grid, w, cardinal, start, goal, r@),
        r@ == reversed(trail(came_from@, cost, goal)),
{
    let mut rev: Vec<u32> = Vec::new();
    let mut last = goal;
    let mut done = false;
    while !done
        invariant
            search_state(grid, w, cardinal, start, cost, came_from@, fr),
            goal != start,
            cost.contains_key(last),
            rev@.len() == 0 ==> last == goal,
            rev@.len() > 0 ==> rev@[0] == goal && came_from@[rev@.last()] == last,
            forall|i: int| 0 <= i < rev@.len() - 1 ==> came_from@[#[trigger] rev@[i]] == rev@[i + 1],
            forall|i: int| 0 <= i < rev@.len() ==> came_from@.contains_key(#[trigger] rev@[i]) && cost[rev@[i]] > cost[last],
            forall|i: int, j: int| 0 <= i < j < rev@.len() ==> cost[#[trigger] rev@[i]] > cost[#[trigger] rev@[j]],
            done ==> !came_from@.contains_key(last),
            rev@ + trail(came_from@, cost, last) == trail(came_from@, cost, goal),
        decreases
            if done { 0int } else { cost[last] as int + 1 },
    {
        match map_get(came_from, last) {
            Some(prev) => {
                proof {
                    assert(seq![last] + trail(came_from@, cost, prev) == trail(came_from@, cost, last));
                    assert(rev@.push(last) + trail(came_from@, cost, prev) =~= rev@ + trail(came_from@, cost, last));
                }
                rev.push(last);
                last = prev;
            },
            None => {
                done = true;
            },
        }
    }
    let m = rev.len();
    let mut path: Vec<u32> = Vec::new();
    let mut i: usize = 0;
    while i < m
        invariant
            m == rev@.len(),
            i <= m,
            path@.len() == i,
            forall|k: int| 0 <= k < i ==> #[trigger] path@[k] == rev@[m - 1 - k],
        decreases m - i,
    {
        path.push(rev[m - 1 - i]);
        i = i + 1;
    }
    proof {
        assert forall|k: int| 0 <= k < path@.len() implies is_step(grid, w, cardinal, walk_prev(start as int, path@, k), #[trigger] path@[k] as int) by {
            assert(came_from@.contains_key(rev@[m - 1 - k]));
            if k > 0 {
                assert(path@[k - 1] == rev@[m - 1 - (k - 1)]);
                assert(came_from@[rev@[m - 1 - k]] == rev@[m - 1 - k + 1]);
            }
        }
        assert forall|a: int, b: int| 0 <= a < path@.len() && 0 <= b < path@.len() && a != b implies path@[a] != path@[b] by {
            if a < b {
                assert(cost[rev@[m - 1 - b]] > cost[rev@[m - 1 - a]]);
            } else {
                assert(cost[rev@[m - 1 - a]] > cost[rev@[m - 1 - b]]);
            }
        }
        if path@.contains(start) {
            let k = choose|k: int| 0 <= k < path@.len() && path@[k] == start;
            assert(came_from@.contains_key(rev@[m - 1 - k]));
        }
        assert(path@[m - 1] == rev@[0]);
        assert(rev@ =~= trail(came_from@, cost, goal));
        assert(path@ =~= reversed(rev@));
    }
    path
}

/// Where the endpoints are one cell, the search stops at once and reads off
/// an empty path.
proof fn lemma_same_endpoints(grid: Seq<u32>, w: int, cardinal: bool, start: u32)
    ensures
        search_result(grid, w, cardinal, start, start, Seq::<u32>::empty()),
{
    let first = FrontierItem { position: start, cost: 0 };
    let s0 = initial(start);
    assert(s0.frontier.count(first) == 1);
    assert(s0.frontier.len() == 1);
    lemma_least_is(s0.frontier, first);
    assert(run(grid, w, cardinal, start, start, 0) == s0);
    let s1 = run(grid, w, cardinal, start, start, 1);
    assert(s1 == search_step(grid, w, cardinal, start, s0));
    assert(s1.from == Map::<u32, u32>::empty());
    assert(reversed(trail(s1.from, s1.cost, start)) =~= Seq::<u32>::empty());
    assert(finished(s1));
}

/// Follows every move out of `current`, whose recorded cost is `cur_cost`:
/// each cell that the move reaches more cheaply than before gets the new
/// cost, `current` as its predecessor, and a frontier entry.
fn expand_cell(
    cost_so_far: &mut FxHashMap<u32, u128>,
    came_from: &mut FxHashMap<u32, u32>,
    frontier: &mut Frontier,
    grid: &Vec<u32>,
    width: u32,
    cardinal_directions: bool,
    start: u32,
    goal: u32,
    current: u32,
    cur_cost: u128,
)
    requires
        valid_input(grid@, width as int, start as int, goal as int),
        start != goal,
        search_state(grid@, width as int, cardinal_directions, start, old(cost_so_far)@, old(came_from)@, old(frontier)@),
        old(cost_so_far)@.contains_key(current),
        old(cost_so_far)@[current] == cur_cost,
        forall|d: u32| #[trigger] old(cost_so_far)@.contains_key(d) ==> d == current || queued(old(frontier)@, d)
            || closed_at(grid@, width as int, cardinal_directions, old(cost_so_far)@.dom(), d),
        undiscovered(old(cost_so_far)@, grid@.len()) + 1 <= grid@.len(),
        forall|c: u32| #[trigger] old(cost_so_far)@.contains_key(c) ==> old(cost_so_far)@[c] <= cost_ceiling(old(cost_so_far)@, grid@.len()),
    ensures
        search_state(grid@, width as int, cardinal_directions, start, final(cost_so_far)@, final(came_from)@, final(frontier)@),
        forall|d: u32| #[trigger] final(cost_so_far)@.contains_key(d) ==> queued(final(frontier)@, d)
            || closed_at(grid@, width as int, cardinal_directions, final(cost_so_far)@.dom(), d),
        undiscovered(final(cost_so_far)@, grid@.len()) + 1 <= grid@.len(),
        forall|c: u32| #[trigger] final(cost_so_far)@.contains_key(c) ==> final(cost_so_far)@[c] <= cost_ceiling(final(cost_so_far)@, grid@.len()),
        undiscovered(final(cost_so_far)@, grid@.len()) <= undiscovered(old(cost_so_far)@, grid@.len()),
        undiscovered(final(cost_so_far)@, grid@.len()) == undiscovered(old(cost_so_far)@, grid@.len())
            ==> 2 * cost_sum(final(cost_so_far)@, grid@.len()) + final(frontier)@.len()
            <= 2 * cost_sum(old(cost_so_far)@, grid@.len()) + old(frontier)@.len(),
        (SearchState {
            cost: final(cost_so_far)@,
            from: final(came_from)@,
            frontier: final(frontier)@.to_multiset(),
            found: false,
        }) == expand(grid@, width as int, cardinal_directions, goal, SearchState {
            cost: old(cost_so_far)@,
            from: old(came_from)@,
            frontier: old(frontier)@.to_multiset(),
            found: false,
        }, current),
{
    let n = grid.len();
    let ghost w = width as int;
    let ghost und0 = undiscovered(cost_so_far@, n as nat);
    let ghost m0 = 2 * cost_sum(cost_so_far@, n as nat) + frontier@.len() + 1;
    let goal_x = goal % width;
    let goal_y = goal / width;
    let ghost s0 = SearchState {
        cost: cost_so_far@,
        from: came_from@,
        frontier: frontier@.to_multiset(),
        found: false,
    };
    let ghost mut done: Set<u32> = Set::empty();
    let neighbors = get_neighbor_coords(current, grid, width, cardinal_directions);
    let count = small_len(&neighbors);
    let cx = current % width;
    let cy = current / width;
    let mut j: usize = 0;
    while j < count
        invariant
            valid_input(grid@, w, start as int, goal as int),
            w == width as int,
            n == grid@.len(),
            start != goal,
            count == small_items(neighbors).len(),
            cx == current % width,
            cy == current / width,
            forall|b: u32| #[trigger] small_items(neighbors).contains(b) <==> is_step(grid@, w, cardinal_directions, current as int, b as int),
            search_state(grid@, w, cardinal_directions, start, cost_so_far@, came_from@, frontier@),
            cost_so_far@.contains_key(current),
            cost_so_far@[current] == cur_cost,
            forall|k: int| 0 <= k < j ==> cost_so_far@.contains_key(#[trigger] small_items(neighbors)[k]),
            forall|d: u32| #[trigger] cost_so_far@.contains_key(d) ==> d == current || queued(frontier@, d) || closed_at(grid@, w, cardinal_directions, cost_so_far@.dom(), d),
            undiscovered(cost_so_far@, n as nat) <= und0,
            undiscovered(cost_so_far@, n as nat) + 1 <= n,
            forall|c: u32| #[trigger] cost_so_far@.contains_key(c) ==> cost_so_far@[c] <= cost_ceiling(cost_so_far@, n as nat),
            undiscovered(cost_so_far@, n as nat) == und0 ==> 2 * cost_sum(cost_so_far@, n as nat) + frontier@.len() < m0,
            small_items(neighbors).no_duplicates(),
            j <= count,
            goal_x == goal % width,
            goal_y == goal / width,
            s0 == (SearchState {
                cost: old(cost_so_far)@,
                from: old(came_from)@,
                frontier: old(frontier)@.to_multiset(),
                found: false,
            }),
            und0 == undiscovered(old(cost_so_far)@, n as nat),
            m0 == 2 * cost_sum(old(cost_so_far)@, n as nat) + old(frontier)@.len() + 1,
            s0.cost.contains_key(current),
            s0.cost[current] == cur_cost,
            forall|b: u32| #[trigger] done.contains(b) ==> exists|i: int| 0 <= i < j && small_items(neighbors)[i] == b,
            forall|i: int| 0 <= i < j ==> done.contains(#[trigger] small_items(neighbors)[i]),
            forall|b: u32| #[trigger] cost_so_far@.contains_key(b) <==> s0.cost.contains_key(b)
                || (done.contains(b) && relaxes(grid@, w, cardinal_directions, s0.cost, current, b)),
            forall|b: u32| #[trigger] cost_so_far@.contains_key(b) ==> cost_so_far@[b] == if done.contains(b) && relaxes(grid@, w, cardinal_directions, s0.cost, current, b) {
                move_cost(grid@, w, s0.cost, current, b) as u128
            } else {
                s0.cost[b]
            },
            forall|b: u32| #[trigger] came_from@.contains_key(b) <==> s0.from.contains_key(b)
                || (done.contains(b) && relaxes(grid@, w, cardinal_directions, s0.cost, current, b)),
            forall|b: u32| #[trigger] came_from@.contains_key(b) ==> came_from@[b] == if done.contains(b) && relaxes(grid@, w, cardinal_directions, s0.cost, current, b) {
                current
            } else {
                s0.from[b]
            },
            forall|x: FrontierItem| #[trigger] frontier@.to_multiset().count(x) == s0.frontier.count(x) + if done.contains(x.position)
                && relaxes(grid@, w, cardinal_directions, s0.cost, current, x.position)
                && x == entry_for(grid@, w, goal, s0.cost, current, x.position) {
                1nat
            } else {
                0nat
            },
        decreases count - j,
    {
        let nb = small_get(&neighbors, j);
        proof {
            assert(small_items(neighbors).contains(nb));
            if done.contains(nb) {
                let i = choose|i: int| 0 <= i < j && small_items(neighbors)[i] == nb;
                assert(small_items(neighbors)[i] == small_items(neighbors)[j as int]);
            }
            assert(!done.contains(nb));
        }
        let step_cost = grid[nb as usize] as u128 + manhattan(cx, cy, nb % width, nb / width) as u128;
        proof {
            assert(step_cost <= max_step());
            let e = n - 1 - undiscovered(cost_so_far@, n as nat);
            assert(e * max_step() <= (u32::MAX as int) * max_step()) by (nonlinear_arith)
                requires
                    0 <= e <= u32::MAX as int,
                    max_step() > 0,
            ;
        }
        let tentative = cur_cost + step_cost;
        let better = match map_get(cost_so_far, nb) {
            Some(c) => tentative < c,
            None => true,
        };
        if better {
            let h = manhattan(goal_x, goal_y, nb % width, nb / width) as u128;
            let ghost old_cost = cost_so_far@;
            let ghost old_fr = frontier@;
            proof {
                lemma_record_cost(cost_so_far@, nb, tentative, n as nat);
                let e = n - 1 - undiscovered(cost_so_far@, n as nat);
                assert((e + 1) * max_step() == e * max_step() + max_step()) by (nonlinear_arith);
            }
            proof {
                old_fr.to_multiset_ensures();
                assert(tentative as int == move_cost(grid@, w, s0.cost, current, nb));
                assert(goal_x as int == col(goal as int, w) && goal_y as int == row(goal as int, w));
                assert(h as int == manhattan_dist(col(goal as int, w), row(goal as int, w), col(nb as int, w), row(nb as int, w)));
                assert(h as int == cell_dist(nb as int, goal as int, w));
                assert(entry_for(grid@, w, goal, s0.cost, current, nb).cost == (tentative + h) as u128);
            }
            map_insert(cost_so_far, nb, tentative);
            frontier.push(FrontierItem { cost: tentative + h, position: nb });
            map_insert(came_from, nb, current);
            proof {
                assert(frontier@[frontier@.len() - 1].position == nb);
                assert forall|d: u32| #[trigger] cost_so_far@.contains_key(d) implies d == current || queued(frontier@, d) || closed_at(grid@, w, cardinal_directions, cost_so_far@.dom(), d) by {
                    if d != current && d != nb {
                        if queued(old_fr, d) {
                            let i = choose|i: int| 0 <= i < old_fr.len() && (#[trigger] old_fr[i]).position == d;
                            assert(frontier@[i] == old_fr[i]);
                        } else {
                            assert(closed_at(grid@, w, cardinal_directions, old_cost.dom(), d));
                        }
                    }
                }
            }
        }
        proof {
            assert(relaxes(grid@, w, cardinal_directions, s0.cost, current, nb) == better);
            done = done.insert(nb);
        }
        j = j + 1;
    }
    proof {
        assert forall|b: u32| is_step(grid@, w, cardinal_directions, current as int, b as int) implies #[trigger] cost_so_far@.dom().contains(b) by {
            assert(small_items(neighbors).contains(b));
            let k = choose|k: int| 0 <= k < small_items(neighbors).len() && small_items(neighbors)[k] == b;
            assert(cost_so_far@.contains_key(small_items(neighbors)[k]));
        }
        assert(closed_at(grid@, w, cardinal_directions, cost_so_far@.dom(), current));
        let after = expand(grid@, w, cardinal_directions, goal, s0, current);
        assert forall|b: u32| relaxes(grid@, w, cardinal_directions, s0.cost, current, b) implies #[trigger] done.contains(b) by {
            assert(small_items(neighbors).contains(b));
            let i = choose|i: int| 0 <= i < small_items(neighbors).len() && small_items(neighbors)[i] == b;
            assert(done.contains(small_items(neighbors)[i]));
        }
        assert(cost_so_far@ =~= after.cost);
        assert(came_from@ =~= after.from);
        assert forall|x: FrontierItem| #[trigger] frontier@.to_multiset().count(x) == after.frontier.count(x) by {
            lemma_queued_count(grid@, w, cardinal_directions, goal, s0.cost, current, n as nat, x);
        }
        assert(frontier@.to_multiset() =~= after.frontier);
    }
}

/// Finds a path from `start` to `goal` by an A* search: a move into a cell
/// costs the cell's value plus the Manhattan distance moved, the estimate of
/// the cost still ahead is the Manhattan distance to the goal, and of equal
/// estimates the entry of the higher cell index is expanded first. Returns
/// the cells entered after `start`, ending at `goal`: the path that the round
/// by round description of the search in `model` reads off when it finishes.
#[verifier::rlimit(40)]
pub fn find_path(start: u32, goal: u32, grid: &Vec<u32>, width: u32, cardinal_directions: bool) -> (r: Result<Vec<u32>, PathError>)
    ensures
        (r matches Err(PathError::InvalidInput)) <==> !valid_input(grid@, width as int, start as int, goal as int),
        (r matches Err(PathError::Unreachable)) <==> valid_input(grid@, width as int, start as int, goal as int) && start != goal
            && !reachable(grid@, width as int, cardinal_directions, start as int, goal as int),
        valid_input(grid@, width as int, start as int, goal as int) && start == goal ==> (r matches Ok(p) && p@.len() == 0),
        r matches Ok(p) ==> found_path(grid@, width as int, cardinal_directions, start, goal, p@),
        r matches Ok(p) ==> search_result(grid@, width as int, cardinal_directions, start, goal, p@),
{
    let n = grid.len();
    if width == 0 || n > u32::MAX as usize || n % (width as usize) != 0 || start as usize >= n || goal as usize >= n {
        return Err(PathError::InvalidInput);
    }
    if start == goal {
        proof {
            lemma_same_endpoints(grid@, width as int, cardinal_directions, start);
        }
        return Ok(Vec::new());
    }
    let ghost w = width as int;
    let mut frontier = Frontier::new();
    let mut cost_so_far: FxHashMap<u32, u128> = FxHashMap::default();
    let mut came_from: FxHashMap<u32, u32> = FxHashMap::default();
    proof {
        lemma_none_discovered(n as nat);
        lemma_record_cost(cost_so_far@, start, 1, n as nat);
    }
    map_insert(&mut cost_so_far, start, 1);
    frontier.push(FrontierItem { cost: 0, position: start });
    let mut found = false;
    let ghost mut rounds: nat = 0;
    proof {
        assert(frontier@[0].position == start);
        assert(frontier@ == seq![FrontierItem { position: start, cost: 0 }]);
        Seq::<FrontierItem>::empty().to_multiset_ensures();
        assert(Seq::<FrontierItem>::empty().to_multiset() =~= Multiset::empty());
        assert(frontier@ == Seq::<FrontierItem>::empty().push(FrontierItem { position: start, cost: 0 }));
        assert(frontier@.to_multiset() =~= initial(start).frontier);
    }
    while !found && !frontier.is_empty()
        invariant
            valid_input(grid@, w, start as int, goal as int),
            w == width as int,
            n == grid@.len(),
            start != goal,
            search_state(grid@, w, cardinal_directions, start, cost_so_far@, came_from@, frontier@),
            found ==> cost_so_far@.contains_key(goal),
            undiscovered(cost_so_far@, n as nat) + 1 <= n,
            forall|c: u32| #[trigger] cost_so_far@.contains_key(c) ==> cost_so_far@[c] <= cost_ceiling(cost_so_far@, n as nat),
            !found ==> forall|d: u32| #[trigger] cost_so_far@.contains_key(d) ==> queued(frontier@, d) || closed_at(grid@, w, cardinal_directions, cost_so_far@.dom(), d),
            run(grid@, w, cardinal_directions, start, goal, rounds) == (SearchState {
                cost: cost_so_far@,
                from: came_from@,
                frontier: frontier@.to_multiset(),
                found,
            }),
        decreases
            undiscovered(cost_so_far@, n as nat),
            2 * cost_sum(cost_so_far@, n as nat) + frontier@.len(),
    {
        let ghost und0 = undiscovered(cost_so_far@, n as nat);
        let ghost m0 = 2 * cost_sum(cost_so_far@, n as nat) + frontier@.len();
        let ghost fr0 = frontier@;
        proof {
            lemma_cost_sum_nonneg(cost_so_far@, n as nat);
            fr0.to_multiset_ensures();
        }
        if let Some(e) = frontier.pop() {
            let current = e.position;
            proof {
                assert forall|d: u32| #[trigger] cost_so_far@.contains_key(d) implies d == current || queued(frontier@, d) || closed_at(grid@, w, cardinal_directions, cost_so_far@.dom(), d) by {
                    if d != current && queued(fr0, d) {
                        lemma_still_queued(fr0, e, frontier@, d);
                    }
                }
                let k = choose|k: int| 0 <= k < fr0.len() && #[trigger] fr0[k] == e && frontier@ == fr0.remove(k);
                assert(cost_so_far@.contains_key(fr0[k].position));
                assert(fr0.contains(e));
                assert forall|x: FrontierItem| #[trigger] fr0.to_multiset().count(x) > 0 implies leaves_before(e, x) by {
                    assert(fr0.contains(x));
                    let i = choose|i: int| 0 <= i < fr0.len() && fr0[i] == x;
                    assert(leaves_before(e, fr0[i]));
                }
                lemma_least_is(fr0.to_multiset(), e);
                assert(frontier@.to_multiset() =~= fr0.to_multiset().remove(e));
                rounds = rounds + 1;
            }
            if current == goal {
                found = true;
            } else {
                let cur_cost = match map_get(&cost_so_far, current) {
                    Some(c) => c,
                    None => 1,
                };
                expand_cell(&mut cost_so_far, &mut came_from, &mut frontier, grid, width, cardinal_directions, start, goal, current, cur_cost);
            }
        }
        proof {
            lemma_cost_sum_nonneg(cost_so_far@, n as nat);
        }
    }
    if map_get(&cost_so_far, goal).is_none() {
        proof {
            assert forall|p: Seq<u32>| #[trigger] is_walk(grid@, w, cardinal_directions, start as int, p) && p.len() > 0 implies p.last() != goal by {
                assert forall|d: u32| #[trigger] cost_so_far@.dom().contains(d) implies closed_at(grid@, w, cardinal_directions, cost_so_far@.dom(), d) by {
                    assert(cost_so_far@.contains_key(d));
                }
                lemma_walk_stays(grid@, w, cardinal_directions, cost_so_far@.dom(), start, p, p.len() - 1);
            }
        }
        return Err(PathError::Unreachable);
    }
    let path = reconstruct(&came_from, Ghost(cost_so_far@), Ghost(grid@), Ghost(w), Ghost(cardinal_directions), start, goal, Ghost(frontier@));
    proof {
        frontier@.to_multiset_ensures();
        assert(finished(run(grid@, w, cardinal_directions, start, goal, rounds)));
    }
    Ok(path)
}

/// The path that `find_path` finds, or an empty vector where there is none:
/// exactly when the endpoints are one cell, the goal cannot be reached, or the
/// input is not a valid grid with both endpoints in it.
pub fn astar(start: u32, end: u32, grid: &Vec<u32>, width: u32, cardinal_directions: bool) -> (r: Vec<u32>)
    ensures
        r@.len() > 0 ==> valid_input(grid@, width as int, start as int, end as int)
            && found_path(grid@, width as int, cardinal_directions, start, end, r@)
            && search_result(grid@, width as int, cardinal_directions, start, end, r@),
        r@.len() == 0 <==> !valid_input(grid@, width as int, start as int, end as int) || start == end
            || !reachable(grid@, width as int, cardinal_directions, start as int, end as int),
{
    match find_path(start, end, grid, width, cardinal_directions) {
        Ok(path) => path,
        Err(_) => Vec::new(),
    }
}

/// A goal whose touching cells all cost zero cannot be reached, unless the
/// start itself touches it: the start is left whatever it costs.
pub proof fn lemma_walled_off_goal(grid: Seq<u32>, w: int, cardinal: bool, start: int, goal: int)
    requires
        valid_input(grid, w, start, goal),
        forall|a: int| 0 <= a < grid.len() && #[trigger] touches(a, goal, w) ==> grid[a] == 0,
        !touches(start, goal, w),
    ensures
        !reachable(grid, w, cardinal, start, goal),
{
    assert forall|p: Seq<u32>| #[trigger] is_walk(grid, w, cardinal, start, p) && p.len() > 0 implies p.last() != goal by {
        let i = p.len() - 1;
        assert(is_step(grid, w, cardinal, walk_prev(start, p, i), p[i] as int));
        if i > 0 {
            assert(is_step(grid, w, cardinal, walk_prev(start, p, i - 1), p[i - 1] as int));
            if p.last() == goal {
                assert(touches(p[i - 1] as int, goal, w));
            }
        }
    }
}

} // verus!
