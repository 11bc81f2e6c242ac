//! The search as a sequence of states: which entry is expanded next, what
//! expanding it records, and the path read off a finished search.
use crate::frontier::{leaves_before, FrontierItem};
use crate::grid::{cell_dist, is_step};
use vstd::multiset::Multiset;
use vstd::prelude::*;

verus! {

/// Everything a search knows between two expansions.
pub struct SearchState {
    /// The cheapest cost found so far for each discovered cell.
    pub cost: Map<u32, u128>,
    /// The cell each discovered cell but the start was last reached from.
    pub from: Map<u32, u32>,
    /// The entries waiting to be expanded.
    pub frontier: Multiset<FrontierItem>,
    /// Whether the goal has been taken out of the frontier.
    pub found: bool,
}

/// The waiting entry that leaves the frontier first.
pub open spec fn least(fr: Multiset<FrontierItem>) -> FrontierItem {
    choose|e: FrontierItem| fr.count(e) > 0 && forall|x: FrontierItem| #[trigger] fr.count(x) > 0 ==> leaves_before(e, x)
}

/// The cost of reaching `b` by one move from `cur`.
pub open spec fn move_cost(grid: Seq<u32>, w: int, cost: Map<u32, u128>, cur: u32, b: u32) -> int {
    cost[cur] + grid[b as int] + cell_dist(cur as int, b as int, w)
}

/// Moving from `cur` improves on what is known of `b`.
pub open spec fn relaxes(grid: Seq<u32>, w: int, cardinal: bool, cost: Map<u32, u128>, cur: u32, b: u32) -> bool {
    &&& is_step(grid, w, cardinal, cur as int, b as int)
    &&& !cost.contains_key(b) || move_cost(grid, w, cost, cur, b) < cost[b]
}

/// The entry queued for `b` when it is reached from `cur`: its cost plus its
/// Manhattan distance to the goal.
pub open spec fn entry_for(grid: Seq<u32>, w: int, goal: u32, cost: Map<u32, u128>, cur: u32, b: u32) -> FrontierItem {
    FrontierItem { position: b, cost: (move_cost(grid, w, cost, cur, b) + cell_dist(b as int, goal as int, w)) as u128 }
}

/// The entries queued by expanding `cur`, for the cells below `m`.
pub open spec fn queued_below(grid: Seq<u32>, w: int, cardinal: bool, goal: u32, cost: Map<u32, u128>, cur: u32, m: nat) -> Multiset<FrontierItem>
    decreases m,
{
    if m == 0 {
        Multiset::empty()
    } else {
        let rest = queued_below(grid, w, cardinal, goal, cost, cur, (m - 1) as nat);
        if relaxes(grid, w, cardinal, cost, cur, (m - 1) as u32) {
            rest.insert(entry_for(grid, w, goal, cost, cur, (m - 1) as u32))
        } else {
            rest
        }
    }
}

/// The state after following every move out of `cur`.
pub open spec fn expand(grid: Seq<u32>, w: int, cardinal: bool, goal: u32, s: SearchState, cur: u32) -> SearchState {
    SearchState {
        cost: Map::new(
            |b: u32| s.cost.contains_key(b) || relaxes(grid, w, cardinal, s.cost, cur, b),
            |b: u32| if relaxes(grid, w, cardinal, s.cost, cur, b) { move_cost(grid, w, s.cost, cur, b) as u128 } else { s.cost[b] },
        ),
        from: Map::new(
            |b: u32| s.from.contains_key(b) || relaxes(grid, w, cardinal, s.cost, cur, b),
            |b: u32| if relaxes(grid, w, cardinal, s.cost, cur, b) { cur } else { s.from[b] },
        ),
        frontier: s.frontier.add(queued_below(grid, w, cardinal, goal, s.cost, cur, grid.len())),
        found: s.found,
    }
}

/// The search is over: the goal came out of the frontier, or nothing waits.
pub open spec fn finished(s: SearchState) -> bool {
    s.found || s.frontier.len() == 0
}

/// One round of the search: take out the first entry, and stop at the goal
/// or expand it.
pub open spec fn search_step(grid: Seq<u32>, w: int, cardinal: bool, goal: u32, s: SearchState) -> SearchState {
    if finished(s) {
        s
    } else {
        let e = least(s.frontier);
        let t = SearchState { frontier: s.frontier.remove(e), ..s };
        if e.position == goal {
            SearchState { found: true, ..t }
        } else {
            expand(grid, w, cardinal, goal, t, e.position)
        }
    }
}

/// The state before the first round: only the start is known.
pub open spec fn initial(start: u32) -> SearchState {
    SearchState {
        cost: Map::empty().insert(start, 1u128),
        from: Map::empty(),
        frontier: Multiset::singleton(FrontierItem { position: start, cost: 0 }),
        found: false,
    }
}

/// The state after `k` rounds.
pub open spec fn run(grid: Seq<u32>, w: int, cardinal: bool, start: u32, goal: u32, k: nat) -> SearchState
    decreases k,
{
    if k == 0 {
        initial(start)
    } else {
        search_step(grid, w, cardinal, goal, run(grid, w, cardinal, start, goal, (k - 1) as nat))
    }
}

/// The cells met walking predecessors back from `last`, `last` first, while
/// each predecessor is cheaper.
pub open spec fn trail(from: Map<u32, u32>, cost: Map<u32, u128>, last: u32) -> Seq<u32>
    decreases cost[last],
{
    if from.contains_key(last) && cost[from[last]] < cost[last] {
        seq![last] + trail(from, cost, from[last])
    } else if from.contains_key(last) {
        seq![last]
    } else {
        Seq::empty()
    }
}

/// `s` in the opposite order.
pub open spec fn reversed(s: Seq<u32>) -> Seq<u32> {
    Seq::new(s.len(), |i: int| s[s.len() - 1 - i])
}

/// `p` is the path that a finished search from `start` reads off for `goal`.
pub open spec fn search_result(grid: Seq<u32>, w: int, cardinal: bool, start: u32, goal: u32, p: Seq<u32>) -> bool {
    exists|k: nat| #![trigger run(grid, w, cardinal, start, goal, k)]
        finished(run(grid, w, cardinal, start, goal, k))
        && p == reversed(trail(run(grid, w, cardinal, start, goal, k).from, run(grid, w, cardinal, start, goal, k).cost, goal))
}

/// Once finished, a search stays as it is.
proof fn lemma_finished_stays(grid: Seq<u32>, w: int, cardinal: bool, start: u32, goal: u32, k: nat, j: nat)
    requires
        finished(run(grid, w, cardinal, start, goal, k)),
    ensures
        run(grid, w, cardinal, start, goal, k + j) == run(grid, w, cardinal, start, goal, k),
    decreases j,
{
    if j > 0 {
        lemma_finished_stays(grid, w, cardinal, start, goal, k, (j - 1) as nat);
        assert(k + j == (k + (j - 1)) + 1);
    }
}

/// A search returns the same path every time it is run on the same grid and
/// endpoints.
pub proof fn lemma_search_deterministic(
    grid: Seq<u32>,
    w: int,
    cardinal: bool,
    start: u32,
    goal: u32,
    path_a: Seq<u32>,
    path_b: Seq<u32>,
)
    requires
        search_result(grid, w, cardinal, start, goal, path_a),
        search_result(grid, w, cardinal, start, goal, path_b),
    ensures
        path_a == path_b,
{
    let k1 = choose|k: nat| #![trigger run(grid, w, cardinal, start, goal, k)]
        finished(run(grid, w, cardinal, start, goal, k))
        && path_a == reversed(trail(run(grid, w, cardinal, start, goal, k).from, run(grid, w, cardinal, start, goal, k).cost, goal));
    let k2 = choose|k: nat| #![trigger run(grid, w, cardinal, start, goal, k)]
        finished(run(grid, w, cardinal, start, goal, k))
        && path_b == reversed(trail(run(grid, w, cardinal, start, goal, k).from, run(grid, w, cardinal, start, goal, k).cost, goal));
    if k1 <= k2 {
        lemma_finished_stays(grid, w, cardinal, start, goal, k1, (k2 - k1) as nat);
    } else {
        lemma_finished_stays(grid, w, cardinal, start, goal, k2, (k1 - k2) as nat);
    }
}

/// An entry that leaves before every waiting entry is the least one.
pub proof fn lemma_least_is(fr: Multiset<FrontierItem>, e: FrontierItem)
    requires
        fr.count(e) > 0,
        forall|x: FrontierItem| #[trigger] fr.count(x) > 0 ==> leaves_before(e, x),
    ensures
        least(fr) == e,
{
    let l = least(fr);
    assert(leaves_before(e, l));
    assert(leaves_before(l, e));
}

/// How often an entry is queued by expanding `cur`: once for each cell that
/// the move improves, with that cell's entry.
pub proof fn lemma_queued_count(grid: Seq<u32>, w: int, cardinal: bool, goal: u32, cost: Map<u32, u128>, cur: u32, m: nat, x: FrontierItem)
    requires
        m <= u32::MAX as nat + 1,
    ensures
        queued_below(grid, w, cardinal, goal, cost, cur, m).count(x) == if (x.position as int) < m && relaxes(grid, w, cardinal, cost, cur, x.position)
            && x == entry_for(grid, w, goal, cost, cur, x.position) {
            1nat
        } else {
            0nat
        },
    decreases m,
{
    if m > 0 {
        lemma_queued_count(grid, w, cardinal, goal, cost, cur, (m - 1) as nat, x);
    }
}

} // verus!
