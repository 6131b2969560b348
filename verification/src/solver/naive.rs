use vstd::prelude::*;

use crate::grid::{in_board, lemma_index_injective_ne, Coord, Map2d, CELL_COUNT, MAP_SIZE, D, L, R, U};
use crate::problem::{
    all_valid, distinct_cells, graph_of, neighbor, occupied_by, robot_can_step, robot_step,
    run_robot_actions, Action, Input, Move, Output,
};
use crate::rng::shuffle_indices;
use crate::solver::naive_fast::total_manhattan;
use rand_pcg::Mcg128Xsl64;
use std::collections::VecDeque;

verus! {

/// The board's adjacency: for every cell and direction, the cell one move away, or `None`
/// at the border and behind a wall.
pub fn build_graph(walls_v: &Map2d<bool>, walls_h: &Map2d<bool>) -> (graph: Map2d<[Option<Coord>; 4]>)
    requires
        walls_v.wf(),
        walls_h.wf(),
    ensures
        graph_of(graph, *walls_v, *walls_h),
{
    let mut graph: Map2d<[Option<Coord>; 4]> = Map2d::filled([None; 4]);
    let mut row: usize = 0;
    while row < MAP_SIZE
        invariant
            row <= MAP_SIZE,
            walls_v.wf(),
            walls_h.wf(),
            graph.wf(),
            forall|r: int, c: int, dir: int|
                0 <= r < row && 0 <= c < MAP_SIZE && 0 <= dir < 4 ==> #[trigger] graph.at(r, c)@[dir]
                    == neighbor(*walls_v, *walls_h, r, c, dir),
        decreases MAP_SIZE - row,
    {
        let mut col: usize = 0;
        while col < MAP_SIZE
            invariant
                row < MAP_SIZE,
                col <= MAP_SIZE,
                walls_v.wf(),
                walls_h.wf(),
                graph.wf(),
                forall|r: int, c: int, dir: int|
                    (0 <= r < row && 0 <= c < MAP_SIZE || r == row && 0 <= c < col) && 0 <= dir < 4
                        ==> #[trigger] graph.at(r, c)@[dir] == neighbor(*walls_v, *walls_h, r, c, dir),
            decreases MAP_SIZE - col,
        {
            let c = Coord::new(row, col);
            let up_open = row > 0 && !*walls_h.get(Coord::new(row - 1, col));
            let right_open = col < MAP_SIZE - 1 && !*walls_v.get(Coord::new(row, col));
            let down_open = row < MAP_SIZE - 1 && !*walls_h.get(Coord::new(row, col));
            let left_open = col > 0 && !*walls_v.get(Coord::new(row, col - 1));
            let directions: [(usize, (usize, usize), bool); 4] = [
                (U, (row.wrapping_sub(1), col), up_open),
                (R, (row, col + 1), right_open),
                (D, (row + 1, col), down_open),
                (L, (row, col.wrapping_sub(1)), left_open),
            ];
            let mut cell: [Option<Coord>; 4] = [None; 4];
            let mut k: usize = 0;
            while k < 4
                invariant
                    k <= 4,
                    row < MAP_SIZE,
                    col < MAP_SIZE,
                    walls_v.wf(),
                    walls_h.wf(),
                    directions@[0] == (U, (row.wrapping_sub(1), col), up_open),
                    directions@[1] == (R, (row, (col + 1) as usize), right_open),
                    directions@[2] == (D, ((row + 1) as usize, col), down_open),
                    directions@[3] == (L, (row, col.wrapping_sub(1)), left_open),
                    up_open == (row > 0 && !walls_h.at(row - 1, col as int)),
                    right_open == (col < MAP_SIZE - 1 && !walls_v.at(row as int, col as int)),
                    down_open == (row < MAP_SIZE - 1 && !walls_h.at(row as int, col as int)),
                    left_open == (col > 0 && !walls_v.at(row as int, col - 1)),
                    forall|dir: int| 0 <= dir < k ==> #[trigger] cell@[dir] == neighbor(*walls_v, *walls_h, row as int, col as int, dir),
                    forall|dir: int| k <= dir < 4 ==> #[trigger] cell@[dir] == None::<Coord>,
                decreases 4 - k,
            {
                let (dir, (new_row, new_col), can_move) = directions[k];
                if can_move && new_row < MAP_SIZE && new_col < MAP_SIZE {
                    cell[dir] = Some(Coord::new(new_row, new_col));
                }
                k += 1;
            }
            let ghost before = graph;
            graph.set(c, cell);
            proof {
                assert forall|r: int, cc: int, dir: int|
                    (0 <= r < row && 0 <= cc < MAP_SIZE || r == row && 0 <= cc < col + 1) && 0 <= dir < 4
                        implies #[trigger] graph.at(r, cc)@[dir] == neighbor(*walls_v, *walls_h, r, cc, dir) by {
                    if r == row && cc == col {
                        assert(graph.at(r, cc) == cell);
                    } else {
                        assert(r * 30 + cc != row * 30 + col);
                        assert(graph.at(r, cc) == before.at(r, cc));
                    }
                }
            }
            col += 1;
        }
        row += 1;
    }
    graph
}


/// Every entry of the adjacency is a board cell.
pub open spec fn graph_valid(graph: Map2d<[Option<Coord>; 4]>) -> bool {
    &&& graph.wf()
    &&& forall|r: int, c: int, dir: int|
        in_board(r, c) && 0 <= dir < 4 && (#[trigger] graph.at(r, c)@[dir]) is Some ==> graph.at(r, c)@[dir]->0.valid()
}

pub proof fn lemma_graph_of_valid(graph: Map2d<[Option<Coord>; 4]>, walls_v: Map2d<bool>, walls_h: Map2d<bool>)
    requires
        graph_of(graph, walls_v, walls_h),
    ensures
        graph_valid(graph),
{
    assert forall|r: int, c: int, dir: int|
        in_board(r, c) && 0 <= dir < 4 && (#[trigger] graph.at(r, c)@[dir]) is Some implies graph.at(r, c)@[dir]->0.valid() by {
        assert(graph.at(r, c)@[dir] == neighbor(walls_v, walls_h, r, c, dir));
    }
}

/// A robot other than `robot_id` stands on `cell`.
pub open spec fn blocked(positions: Seq<Coord>, robot_id: int, cell: Coord) -> bool {
    exists|id: int| 0 <= id < positions.len() && id != robot_id && #[trigger] positions[id] == cell
}

/// Where robot `robot_id` ends when it takes the moves `dirs` from `from`, each move
/// following `graph` into a cell where no other robot stands; `None` when a move is impossible.
pub open spec fn walk_end(
    graph: Map2d<[Option<Coord>; 4]>,
    positions: Seq<Coord>,
    robot_id: int,
    from: Coord,
    dirs: Seq<usize>,
) -> Option<Coord>
    decreases dirs.len(),
{
    if dirs.len() == 0 {
        Some(from)
    } else if dirs[0] < 4 && graph.at_coord(from)@[dirs[0] as int] is Some && !blocked(
        positions,
        robot_id,
        graph.at_coord(from)@[dirs[0] as int]->0,
    ) {
        walk_end(graph, positions, robot_id, graph.at_coord(from)@[dirs[0] as int]->0, dirs.drop_first())
    } else {
        None
    }
}

/// Number of `true` entries.
pub open spec fn count_true(s: Seq<bool>) -> nat
    decreases s.len(),
{
    if s.len() == 0 {
        0
    } else {
        count_true(s.drop_last()) + if s.last() {
            1nat
        } else {
            0nat
        }
    }
}

pub proof fn lemma_count_true_bound(s: Seq<bool>)
    ensures
        count_true(s) <= s.len(),
    decreases s.len(),
{
    if s.len() > 0 {
        lemma_count_true_bound(s.drop_last());
    }
}

pub proof fn lemma_count_true_set(s: Seq<bool>, i: int)
    requires
        0 <= i < s.len(),
        !s[i],
    ensures
        count_true(s.update(i, true)) == count_true(s) + 1,
    decreases s.len(),
{
    let t = s.update(i, true);
    if i < s.len() - 1 {
        assert(t.drop_last() =~= s.drop_last().update(i, true));
        lemma_count_true_set(s.drop_last(), i);
    } else {
        assert(t.drop_last() =~= s.drop_last());
    }
}

/// Whether a robot other than `robot_id` stands on `cell`.
fn occupied_by_other(positions: &Vec<Coord>, robot_id: usize, cell: Coord) -> (b: bool)
    ensures
        b == blocked(positions@, robot_id as int, cell),
{
    let mut id: usize = 0;
    while id < positions.len()
        invariant
            id <= positions@.len(),
            forall|j: int| 0 <= j < id && j != robot_id ==> positions@[j] != cell,
        decreases positions@.len() - id,
    {
        if id != robot_id && positions[id] == cell {
            return true;
        }
        id += 1;
    }
    false
}

/// Prepending one move to a walk.
proof fn lemma_walk_prepend(
    graph: Map2d<[Option<Coord>; 4]>,
    positions: Seq<Coord>,
    robot_id: int,
    prev: Coord,
    dir: usize,
    cur: Coord,
    dirs: Seq<usize>,
)
    requires
        dir < 4,
        graph.at_coord(prev)@[dir as int] == Some(cur),
        !blocked(positions, robot_id, cur),
    ensures
        walk_end(graph, positions, robot_id, prev, seq![dir] + dirs) == walk_end(graph, positions, robot_id, cur, dirs),
{
    assert((seq![dir] + dirs).drop_first() =~= dirs);
}

/// The reverse of a sequence.
fn reversed(v: &Vec<usize>) -> (r: Vec<usize>)
    ensures
        r@ == v@.reverse(),
{
    let mut r: Vec<usize> = Vec::new();
    let mut i: usize = v.len();
    while i > 0
        invariant
            i <= v@.len(),
            r@ == v@.subrange(i as int, v@.len() as int).reverse(),
        decreases i,
    {
        i -= 1;
        r.push(v[i]);
        assert(v@.subrange(i as int, v@.len() as int).reverse() =~= v@.subrange(i + 1, v@.len() as int).reverse().push(v@[i as int]));
    }
    assert(v@.subrange(0, v@.len() as int) =~= v@);
    r
}


/// The search tree: every reached cell other than the start records the cell it was reached
/// from and the direction taken, one level deeper than that cell.
pub open spec fn tree_ok(
    graph: Map2d<[Option<Coord>; 4]>,
    positions: Seq<Coord>,
    robot_id: int,
    start: Coord,
    visited: Map2d<bool>,
    parent: Map2d<Option<(Coord, usize)>>,
    depth: Seq<nat>,
    n: nat,
) -> bool {
    &&& visited.wf()
    &&& parent.wf()
    &&& depth.len() == CELL_COUNT
    &&& visited.at_coord(start)
    &&& parent.at_coord(start) is None
    &&& depth[start.index_of()] == 0
    &&& n == count_true(visited.map@)
    &&& forall|v: Coord| v.valid() && #[trigger] visited.at_coord(v) ==> depth[v.index_of()] < n
    &&& forall|v: Coord|
        v.valid() && v != start && #[trigger] visited.at_coord(v) ==> (parent.at_coord(v) matches Some(
            pd,
        ) && pd.0.valid() && visited.at_coord(pd.0) && pd.1 < 4 && graph.at_coord(pd.0)@[pd.1 as int]
            == Some(v) && !blocked(positions, robot_id, v) && depth[v.index_of()] == depth[pd.0.index_of()] + 1)
    &&& forall|v: Coord| v.valid() && !#[trigger] visited.at_coord(v) ==> parent.at_coord(v) is None
}

/// A reached cell whose neighbours are all reached, each at most one level deeper.
pub open spec fn settled(
    graph: Map2d<[Option<Coord>; 4]>,
    positions: Seq<Coord>,
    robot_id: int,
    visited: Map2d<bool>,
    depth: Seq<nat>,
    v: Coord,
) -> bool {
    forall|dir: int|
        0 <= dir < 4 && (#[trigger] graph.at_coord(v)@[dir]) is Some && !blocked(positions, robot_id, graph.at_coord(v)@[dir]->0)
            ==> visited.at_coord(graph.at_coord(v)@[dir]->0) && depth[(graph.at_coord(v)@[dir]->0).index_of()]
            <= depth[v.index_of()] + 1
}

/// A settled cell stays settled when one more cell is reached.
proof fn lemma_settled_grow(
    graph: Map2d<[Option<Coord>; 4]>,
    positions: Seq<Coord>,
    id: int,
    old_visited: Map2d<bool>,
    visited: Map2d<bool>,
    old_depth: Seq<nat>,
    depth: Seq<nat>,
    next_pos: Coord,
    v: Coord,
)
    requires
        graph_valid(graph),
        old_visited.wf(),
        v.valid(),
        next_pos.valid(),
        old_visited.at_coord(v),
        !old_visited.at_coord(next_pos),
        settled(graph, positions, id, old_visited, old_depth, v),
        visited.map@ == old_visited.map@.update(next_pos.index_of(), true),
        depth.len() == CELL_COUNT,
        old_depth.len() == CELL_COUNT,
        forall|i: int| 0 <= i < CELL_COUNT && i != next_pos.index_of() ==> #[trigger] depth[i] == old_depth[i],
    ensures
        settled(graph, positions, id, visited, depth, v),
{
    assert(v != next_pos);
    lemma_index_injective_ne(v, next_pos);
    assert forall|dir: int|
        0 <= dir < 4 && (#[trigger] graph.at_coord(v)@[dir]) is Some && !blocked(positions, id, graph.at_coord(v)@[dir]->0)
            implies visited.at_coord(graph.at_coord(v)@[dir]->0) && depth[(graph.at_coord(v)@[dir]->0).index_of()]
            <= depth[v.index_of()] + 1 by {
        assert(graph.at(v.row as int, v.col as int)@[dir] is Some);
        let w = graph.at_coord(v)@[dir]->0;
        assert(w.valid());
        assert(old_visited.at_coord(w));
        assert(w != next_pos);
        lemma_index_injective_ne(w, next_pos);
    }
}

/// A walk from a reached cell, through cells that are settled while shallower than
/// `bound`, ends in a reached cell no deeper than the walk is long.
proof fn lemma_walk_depth(
    graph: Map2d<[Option<Coord>; 4]>,
    positions: Seq<Coord>,
    robot_id: int,
    visited: Map2d<bool>,
    depth: Seq<nat>,
    from: Coord,
    dirs: Seq<usize>,
    bound: nat,
)
    requires
        graph_valid(graph),
        from.valid(),
        visited.at_coord(from),
        depth[from.index_of()] + dirs.len() <= bound,
        forall|v: Coord| v.valid() && #[trigger] visited.at_coord(v) && depth[v.index_of()] < bound ==> settled(
            graph,
            positions,
            robot_id,
            visited,
            depth,
            v,
        ),
    ensures
        walk_end(graph, positions, robot_id, from, dirs) matches Some(e) ==> visited.at_coord(e) && depth[e.index_of()]
            <= depth[from.index_of()] + dirs.len(),
    decreases dirs.len(),
{
    if dirs.len() > 0 && dirs[0] < 4 && graph.at_coord(from)@[dirs[0] as int] is Some {
        let next = graph.at_coord(from)@[dirs[0] as int]->0;
        if !blocked(positions, robot_id, next) {
            assert(settled(graph, positions, robot_id, visited, depth, from));
            assert(graph.at(from.row as int, from.col as int)@[dirs[0] as int] is Some);
            lemma_walk_depth(graph, positions, robot_id, visited, depth, next, dirs.drop_first(), bound);
        }
    }
}

/// Moves for robot `robot_id` from `start` to `goal` along `graph`, never entering a cell
/// where another robot stands, found by breadth-first search: a shortest such walk. Empty
/// when the robot is already there or the goal cannot be reached.
fn find_path(
    start: Coord,
    goal: Coord,
    graph: &Map2d<[Option<Coord>; 4]>,
    current_positions: &Vec<Coord>,
    robot_id: usize,
) -> (path: Vec<usize>)
    requires
        start.valid(),
        goal.valid(),
        graph_valid(*graph),
    ensures
        path@.len() > 0 ==> walk_end(*graph, current_positions@, robot_id as int, start, path@) == Some(goal),
        path@.len() == 0 ==> start == goal || forall|dirs: Seq<usize>|
            walk_end(*graph, current_positions@, robot_id as int, start, dirs) != Some(goal),
        forall|dirs: Seq<usize>| dirs.len() < path@.len() ==> walk_end(*graph, current_positions@, robot_id as int, start, dirs) != Some(goal),
        path@.len() < CELL_COUNT,
        forall|t: int| 0 <= t < path@.len() ==> #[trigger] path@[t] < 4,
{
    let ghost positions = current_positions@;
    let ghost id = robot_id as int;
    let mut queue: VecDeque<Coord> = VecDeque::new();
    let mut visited: Map2d<bool> = Map2d::filled(false);
    let mut parent: Map2d<Option<(Coord, usize)>> = Map2d::filled(None);
    queue.push_back(start);
    proof {
        assert(count_true(visited.map@) == 0) by {
            assert forall|k: nat| k <= CELL_COUNT implies #[trigger] count_true(visited.map@.subrange(0, k as int)) == 0 by {
                lemma_count_true_zero(visited.map@, k);
            }
            assert(visited.map@.subrange(0, CELL_COUNT as int) =~= visited.map@);
        }
        lemma_count_true_set(visited.map@, start.index_of());
    }
    visited.set(start, true);
    let ghost mut depth: Seq<nat> = Seq::new(CELL_COUNT as nat, |i: int| 0nat);
    let ghost mut hd: nat = 0;
    let mut n_visited: usize = 1;
    proof {
        assert(queue@[0] == start);
        assert forall|v: Coord| v.valid() && !#[trigger] visited.at_coord(v) implies parent.at_coord(v) is None by {}
        assert forall|v: Coord| v.valid() && #[trigger] visited.at_coord(v) implies v == start by {
            if v != start {
                crate::grid::lemma_index_injective(v, start);
            }
        }
    }
    loop
        invariant_except_break
            forall|v: Coord| v.valid() && #[trigger] visited.at_coord(v) ==> queue@.contains(v) || (settled(*graph, positions, id, visited, depth, v) && depth[v.index_of()] <= hd),
            forall|i: int| 0 <= i < queue@.len() ==> hd <= #[trigger] depth[queue@[i].index_of()] <= hd + 1,
            forall|i: int, j: int| 0 <= i < j < queue@.len() ==> #[trigger] depth[queue@[i].index_of()] <= #[trigger] depth[queue@[j].index_of()],
        invariant
            start.valid(),
            goal.valid(),
            graph_valid(*graph),
            positions == current_positions@,
            id == robot_id,
            tree_ok(*graph, positions, id, start, visited, parent, depth, n_visited as nat),
            forall|i: int| 0 <= i < queue@.len() ==> (#[trigger] queue@[i]).valid() && visited.at_coord(queue@[i]),
        ensures
            tree_ok(*graph, positions, id, start, visited, parent, depth, n_visited as nat),
            visited.at_coord(goal) ==> forall|v: Coord| v.valid() && #[trigger] visited.at_coord(v) && depth[v.index_of()] < depth[goal.index_of()]
                ==> settled(*graph, positions, id, visited, depth, v),
            !visited.at_coord(goal) ==> forall|v: Coord| v.valid() && #[trigger] visited.at_coord(v) ==> settled(*graph, positions, id, visited, depth, v),
        decreases (CELL_COUNT - n_visited) + queue@.len(),
    {
        proof {
            lemma_count_true_bound(visited.map@);
        }
        let ghost old_queue = queue@;
        let next_in_queue = queue.pop_front();
        match next_in_queue {
            None => {
                proof {
                    assert forall|v: Coord| v.valid() && #[trigger] visited.at_coord(v) implies settled(*graph, positions, id, visited, depth, v) by {
                        assert(!old_queue.contains(v));
                    }
                }
                break;
            },
            Some(current) => {
                assert(old_queue[0] == current);
                let ghost old_hd = hd;
                proof {
                    hd = depth[current.index_of()];
                    assert forall|i: int| 0 <= i < queue@.len() implies hd <= #[trigger] depth[queue@[i].index_of()] <= hd + 1 by {
                        assert(queue@[i] == old_queue[i + 1]);
                        assert(depth[old_queue[0].index_of()] <= depth[old_queue[i + 1].index_of()]);
                    }
                    assert forall|i: int, j: int| 0 <= i < j < queue@.len() implies #[trigger] depth[queue@[i].index_of()] <= #[trigger] depth[queue@[j].index_of()] by {
                        assert(queue@[i] == old_queue[i + 1]);
                        assert(queue@[j] == old_queue[j + 1]);
                    }
                    assert forall|v: Coord| v.valid() && #[trigger] visited.at_coord(v) implies v == current || queue@.contains(v) || (settled(*graph, positions, id, visited, depth, v) && depth[v.index_of()] <= hd) by {
                        if old_queue.contains(v) && v != current {
                            let k = choose|k: int| 0 <= k < old_queue.len() && old_queue[k] == v;
                            assert(k != 0);
                            assert(queue@[k - 1] == v);
                        }
                    }
                    assert forall|i: int| 0 <= i < queue@.len() implies (#[trigger] queue@[i]).valid() && visited.at_coord(queue@[i]) by {
                        assert(queue@[i] == old_queue[i + 1]);
                    }
                }
                if current == goal {
                    proof {
                        assert forall|v: Coord| v.valid() && #[trigger] visited.at_coord(v) && depth[v.index_of()] < depth[goal.index_of()]
                            implies settled(*graph, positions, id, visited, depth, v) by {
                            if queue@.contains(v) {
                                let k = choose|k: int| 0 <= k < queue@.len() && queue@[k] == v;
                                assert(hd <= depth[queue@[k].index_of()]);
                            }
                        }
                    }
                    break;
                }
                let ghost n0 = n_visited as nat;
                let mut direction: usize = 0;
                while direction < 4
                    invariant
                        direction <= 4,
                        start.valid(),
                        goal.valid(),
                        current.valid(),
                        visited.at_coord(current),
                        depth[current.index_of()] == hd,
                        graph_valid(*graph),
                        positions == current_positions@,
                        id == robot_id,
                        tree_ok(*graph, positions, id, start, visited, parent, depth, n_visited as nat),
                        queue@.len() + n0 <= old_queue.len() - 1 + n_visited,
                        forall|i: int| 0 <= i < queue@.len() ==> (#[trigger] queue@[i]).valid() && visited.at_coord(queue@[i]),
                        forall|i: int| 0 <= i < queue@.len() ==> hd <= #[trigger] depth[queue@[i].index_of()] <= hd + 1,
                        forall|i: int, j: int| 0 <= i < j < queue@.len() ==> #[trigger] depth[queue@[i].index_of()] <= #[trigger] depth[queue@[j].index_of()],
                        forall|v: Coord| v.valid() && #[trigger] visited.at_coord(v) ==> v == current || queue@.contains(v) || (settled(*graph, positions, id, visited, depth, v) && depth[v.index_of()] <= hd),
                        forall|dir: int|
                            0 <= dir < direction && (#[trigger] graph.at_coord(current)@[dir]) is Some && !blocked(positions, id, graph.at_coord(current)@[dir]->0)
                                ==> visited.at_coord(graph.at_coord(current)@[dir]->0) && depth[(graph.at_coord(current)@[dir]->0).index_of()] <= hd + 1,
                    decreases 4 - direction,
                {
                    proof {
                        lemma_count_true_bound(visited.map@);
                    }
                    let entry = graph.get(current)[direction];
                    if let Some(next_pos) = entry {
                        assert(graph.at(current.row as int, current.col as int)@[direction as int] is Some);
                        if !*visited.get(next_pos) {
                            let occupied = occupied_by_other(current_positions, robot_id, next_pos);
                            if !occupied {
                                let ghost old_visited = visited;
                                let ghost old_parent = parent;
                                let ghost old_depth = depth;
                                let ghost pre_q = queue@;
                                proof {
                                    assert forall|i: int| 0 <= i < pre_q.len() implies (#[trigger] pre_q[i]).valid() && old_visited.at_coord(pre_q[i]) by {
                                        assert(queue@[i] == pre_q[i]);
                                    }
                                    lemma_count_true_set(visited.map@, next_pos.index_of());
                                }
                                visited.set(next_pos, true);
                                parent.set(next_pos, Some((current, direction)));
                                proof {
                                    depth = depth.update(next_pos.index_of(), depth[current.index_of()] + 1);
                                }
                                queue.push_back(next_pos);
                                n_visited = n_visited + 1;
                                proof {
                                    lemma_visit_step(*graph, positions, id, start, old_visited, visited, old_parent, parent, old_depth, depth, current, direction, next_pos, n_visited as nat);
                                    let ni = next_pos.index_of();
                                    assert(old_depth.len() == CELL_COUNT);
                                    assert forall|v: Coord| v.valid() && old_visited.at_coord(v) implies #[trigger] depth[v.index_of()] == old_depth[v.index_of()] by {
                                        assert(v != next_pos);
                                        lemma_index_injective_ne(v, next_pos);
                                    }
                                    assert forall|v: Coord| v.valid() && #[trigger] visited.at_coord(v) implies v == current || queue@.contains(v) || (settled(*graph, positions, id, visited, depth, v) && depth[v.index_of()] <= hd) by {
                                        if v == next_pos {
                                            assert(queue@[queue@.len() - 1] == next_pos);
                                        } else {
                                            lemma_index_injective_ne(v, next_pos);
                                            assert(old_visited.at_coord(v));
                                            if v != current && !pre_q.contains(v) {
                                                assert(settled(*graph, positions, id, old_visited, old_depth, v));
                                                lemma_settled_grow(*graph, positions, id, old_visited, visited, old_depth, depth, next_pos, v);
                                            } else if v != current {
                                                let k = choose|k: int| 0 <= k < pre_q.len() && pre_q[k] == v;
                                                assert(queue@[k] == v);
                                            }
                                        }
                                    }
                                    assert forall|i: int| 0 <= i < queue@.len() implies (#[trigger] queue@[i]).valid() && visited.at_coord(queue@[i]) by {
                                        if i < queue@.len() - 1 {
                                            assert(queue@[i] == pre_q[i]);
                                            lemma_visited_grow(old_visited, visited, queue@[i]);
                                        }
                                    }
                                    assert forall|i: int| 0 <= i < queue@.len() implies hd <= #[trigger] depth[queue@[i].index_of()] <= hd + 1 by {
                                        if i < queue@.len() - 1 {
                                            assert(queue@[i] == pre_q[i]);
                                            assert(old_visited.at_coord(pre_q[i]));
                                        } else {
                                            assert(queue@[i] == next_pos);
                                        }
                                    }
                                    assert forall|i: int, j: int| 0 <= i < j < queue@.len() implies #[trigger] depth[queue@[i].index_of()] <= #[trigger] depth[queue@[j].index_of()] by {
                                        assert(queue@[i] == pre_q[i]);
                                        assert(old_visited.at_coord(pre_q[i]));
                                        if j < queue@.len() - 1 {
                                            assert(queue@[j] == pre_q[j]);
                                            assert(old_visited.at_coord(pre_q[j]));
                                        } else {
                                            assert(queue@[j] == next_pos);
                                            assert(old_depth[pre_q[i].index_of()] <= hd + 1);
                                        }
                                    }
                                    assert forall|dir: int|
                                        0 <= dir < direction + 1 && (#[trigger] graph.at_coord(current)@[dir]) is Some && !blocked(positions, id, graph.at_coord(current)@[dir]->0)
                                            implies visited.at_coord(graph.at_coord(current)@[dir]->0) && depth[(graph.at_coord(current)@[dir]->0).index_of()] <= hd + 1 by {
                                        let w = graph.at_coord(current)@[dir]->0;
                                        assert(graph.at(current.row as int, current.col as int)@[dir] is Some);
                                        assert(w.valid());
                                        if dir < direction {
                                            lemma_visited_grow(old_visited, visited, w);
                                        }
                                    }
                                    lemma_visited_grow(old_visited, visited, current);
                                }
                            }
                        } else {
                            proof {
                                // an already reached neighbour is in the queue (at most one level
                                // deeper) or settled (no deeper than the current level)
                                assert(next_pos.valid());
                                if next_pos != current && !queue@.contains(next_pos) {
                                    assert(depth[next_pos.index_of()] <= hd);
                                } else if queue@.contains(next_pos) {
                                    let k = choose|k: int| 0 <= k < queue@.len() && queue@[k] == next_pos;
                                    assert(depth[queue@[k].index_of()] <= hd + 1);
                                }
                            }
                        }
                    }
                    direction += 1;
                }
                proof {
                    lemma_count_true_bound(visited.map@);
                    assert(settled(*graph, positions, id, visited, depth, current));
                    assert forall|v: Coord| v.valid() && #[trigger] visited.at_coord(v) implies queue@.contains(v) || (settled(*graph, positions, id, visited, depth, v) && depth[v.index_of()] <= hd) by {
                        if v != current && !(settled(*graph, positions, id, visited, depth, v) && depth[v.index_of()] <= hd) {
                            assert(queue@.contains(v));
                        }
                    }
                }
            },
        }
    }
    proof {
        lemma_count_true_bound(visited.map@);
    }
    // follow the parents back from the goal
    let mut path: Vec<usize> = Vec::new();
    let mut current = goal;
    loop
        invariant
            start.valid(),
            goal.valid(),
            current.valid(),
            graph_valid(*graph),
            positions == current_positions@,
            id == robot_id,
            n_visited <= CELL_COUNT,
            tree_ok(*graph, positions, id, start, visited, parent, depth, n_visited as nat),
            visited.at_coord(goal) ==> visited.at_coord(current),
            visited.at_coord(goal) ==> path@.len() + depth[current.index_of()] == depth[goal.index_of()],
            !visited.at_coord(goal) ==> current == goal && path@.len() == 0,
            walk_end(*graph, positions, id, current, path@.reverse()) == Some(goal),
        ensures
            visited.at_coord(goal) ==> current == start && path@.len() == depth[goal.index_of()],
            !visited.at_coord(goal) ==> path@.len() == 0,
            walk_end(*graph, positions, id, current, path@.reverse()) == Some(goal),
        decreases depth[current.index_of()],
    {
        match *parent.get(current) {
            None => {
                break;
            },
            Some((prev_pos, direction)) => {
                let ghost old_path = path@;
                path.push(direction);
                proof {
                    assert(path@.reverse() =~= seq![direction] + old_path.reverse());
                    lemma_walk_prepend(*graph, positions, id, prev_pos, direction, current, old_path.reverse());
                }
                current = prev_pos;
            },
        }
    }
    let result = reversed(&path);
    proof {
        lemma_walk_dirs(*graph, positions, id, start, result@);
        assert(path@.reverse().reverse() =~= path@);
        if result@.len() == 0 && start != goal {
            assert(!visited.at_coord(goal));
            assert forall|dirs: Seq<usize>| walk_end(*graph, positions, id, start, dirs) != Some(goal) by {
                lemma_walk_depth(*graph, positions, id, visited, depth, start, dirs, dirs.len() + 1);
            }
        }
        if visited.at_coord(goal) {
            assert forall|dirs: Seq<usize>| dirs.len() < result@.len() implies walk_end(*graph, positions, id, start, dirs) != Some(goal) by {
                lemma_walk_depth(*graph, positions, id, visited, depth, start, dirs, depth[goal.index_of()]);
            }
        }
    }
    result
}

pub proof fn lemma_count_true_zero(s: Seq<bool>, k: nat)
    requires
        k <= s.len(),
        forall|i: int| 0 <= i < s.len() ==> !s[i],
    ensures
        count_true(s.subrange(0, k as int)) == 0,
    decreases k,
{
    if k > 0 {
        lemma_count_true_zero(s, (k - 1) as nat);
        assert(s.subrange(0, k as int).drop_last() =~= s.subrange(0, k - 1));
    }
}

/// Marking one more cell keeps earlier marks.
proof fn lemma_visited_grow(old_visited: Map2d<bool>, visited: Map2d<bool>, v: Coord)
    requires
        old_visited.wf(),
        v.valid(),
        old_visited.at_coord(v),
        exists|i: int| 0 <= i < CELL_COUNT && visited.map@ == old_visited.map@.update(i, true),
    ensures
        visited.at_coord(v),
{
    let i = choose|i: int| 0 <= i < CELL_COUNT && visited.map@ == old_visited.map@.update(i, true);
    if v.index_of() != i {
    }
}

/// Reaching a new cell from `current` keeps the search tree well formed.
#[verifier::rlimit(60)]
proof fn lemma_visit_step(
    graph: Map2d<[Option<Coord>; 4]>,
    positions: Seq<Coord>,
    id: int,
    start: Coord,
    old_visited: Map2d<bool>,
    visited: Map2d<bool>,
    old_parent: Map2d<Option<(Coord, usize)>>,
    parent: Map2d<Option<(Coord, usize)>>,
    old_depth: Seq<nat>,
    depth: Seq<nat>,
    current: Coord,
    direction: usize,
    next_pos: Coord,
    n: nat,
)
    requires
        graph_valid(graph),
        start.valid(),
        current.valid(),
        next_pos.valid(),
        direction < 4,
        old_visited.at_coord(current),
        !old_visited.at_coord(next_pos),
        graph.at_coord(current)@[direction as int] == Some(next_pos),
        !blocked(positions, id, next_pos),
        visited.map@ == old_visited.map@.update(next_pos.index_of(), true),
        n == count_true(visited.map@),
        n >= 1,
        tree_ok(graph, positions, id, start, old_visited, old_parent, old_depth, (n - 1) as nat),
        parent.map@ == old_parent.map@.update(next_pos.index_of(), Some((current, direction))),
        depth == old_depth.update(next_pos.index_of(), old_depth[current.index_of()] + 1),
    ensures
        tree_ok(graph, positions, id, start, visited, parent, depth, n),
        exists|i: int| 0 <= i < CELL_COUNT && visited.map@ == old_visited.map@.update(i, true),
{
    let ni = next_pos.index_of();
    assert(0 <= ni < CELL_COUNT);
    assert(start != next_pos);
    assert(current != next_pos);
    lemma_index_injective_ne(start, next_pos);
    lemma_index_injective_ne(current, next_pos);
    assert(visited.at_coord(start) == old_visited.at_coord(start));
    assert(parent.at_coord(start) == old_parent.at_coord(start));
    assert forall|v: Coord| v.valid() && #[trigger] visited.at_coord(v) implies depth[v.index_of()] < n by {
        if v != next_pos {
            lemma_index_injective_ne(v, next_pos);
            assert(old_visited.at_coord(v));
        }
    }
    assert forall|v: Coord|
        v.valid() && v != start && #[trigger] visited.at_coord(v) implies (parent.at_coord(v) matches Some(
            pd,
        ) && pd.0.valid() && visited.at_coord(pd.0) && pd.1 < 4 && graph.at_coord(pd.0)@[pd.1 as int]
            == Some(v) && !blocked(positions, id, v) && depth[v.index_of()] == depth[pd.0.index_of()] + 1) by {
        if v != next_pos {
            lemma_index_injective_ne(v, next_pos);
            assert(old_visited.at_coord(v));
            let pd = old_parent.at_coord(v)->0;
            assert(old_visited.at_coord(pd.0));
            assert(pd.0 != next_pos);
            lemma_index_injective_ne(pd.0, next_pos);
        }
    }
    assert forall|v: Coord| v.valid() && !#[trigger] visited.at_coord(v) implies parent.at_coord(v) is None by {
        if v != next_pos {
            lemma_index_injective_ne(v, next_pos);
            assert(!old_visited.at_coord(v));
        }
    }
}


/// A possible walk uses directions only.
proof fn lemma_walk_dirs(
    graph: Map2d<[Option<Coord>; 4]>,
    positions: Seq<Coord>,
    robot_id: int,
    from: Coord,
    dirs: Seq<usize>,
)
    ensures
        walk_end(graph, positions, robot_id, from, dirs) is Some ==> forall|t: int| 0 <= t < dirs.len() ==> #[trigger] dirs[t] < 4,
    decreases dirs.len(),
{
    if dirs.len() > 0 && walk_end(graph, positions, robot_id, from, dirs) is Some {
        let next = graph.at_coord(from)@[dirs[0] as int]->0;
        lemma_walk_dirs(graph, positions, robot_id, next, dirs.drop_first());
        assert forall|t: int| 0 <= t < dirs.len() implies #[trigger] dirs[t] < 4 by {
            if t > 0 {
                assert(dirs[t] == dirs.drop_first()[t - 1]);
            }
        }
    }
}

/// The cell one move away from `pos` in `direction`.
fn move_robot(pos: Coord, direction: usize, graph: &Map2d<[Option<Coord>; 4]>) -> (r: Option<Coord>)
    requires
        pos.valid(),
        direction < 4,
        graph.wf(),
    ensures
        r == graph.at_coord(pos)@[direction as int],
{
    graph.get(pos)[direction]
}

/// Whether some robot stands on `cell`.
fn any_robot_at(positions: &Vec<Coord>, cell: Coord) -> (b: bool)
    ensures
        b == occupied_by(positions@, cell.row as int, cell.col as int),
{
    let mut i: usize = 0;
    while i < positions.len()
        invariant
            i <= positions@.len(),
            forall|j: int| 0 <= j < i ==> positions@[j] != cell,
        decreases positions@.len() - i,
    {
        if positions[i] == cell {
            return true;
        }
        i += 1;
    }
    proof {
        if occupied_by(positions@, cell.row as int, cell.col as int) {
            let j = choose|j: int| 0 <= j < positions@.len() && #[trigger] positions@[j].row == cell.row && positions@[j].col == cell.col;
            assert(positions@[j] == cell);
        }
    }
    false
}

/// `0, 1, .., n - 1`.
pub fn identity_order(n: usize) -> (v: Vec<usize>)
    ensures
        v@.len() == n,
        forall|i: int| 0 <= i < n ==> #[trigger] v@[i] == i,
{
    let mut v: Vec<usize> = Vec::new();
    let mut i: usize = 0;
    while i < n
        invariant
            i <= n,
            v@.len() == i,
            forall|j: int| 0 <= j < i ==> #[trigger] v@[j] == j,
        decreases n - i,
    {
        v.push(i);
        i += 1;
    }
    v
}

/// The cell one move away from `(r, c)` in direction `dir`, for walls given row by row:
/// `walls_v[30 r + c]` separates `(r, c)` from `(r, c + 1)`, `walls_h[30 r + c]` separates
/// `(r, c)` from `(r + 1, c)`. `None` at the border and behind a wall.
pub open spec fn board_step(walls_v: Seq<bool>, walls_h: Seq<bool>, r: int, c: int, dir: int) -> Option<Coord> {
    if dir == U as int && r > 0 && !walls_h[(r - 1) * MAP_SIZE as int + c] {
        Some(Coord { row: (r - 1) as usize, col: c as usize })
    } else if dir == R as int && c < MAP_SIZE - 1 && !walls_v[r * MAP_SIZE as int + c] {
        Some(Coord { row: r as usize, col: (c + 1) as usize })
    } else if dir == D as int && r < MAP_SIZE - 1 && !walls_h[r * MAP_SIZE as int + c] {
        Some(Coord { row: (r + 1) as usize, col: c as usize })
    } else if dir == L as int && c > 0 && !walls_v[r * MAP_SIZE as int + c - 1] {
        Some(Coord { row: r as usize, col: (c - 1) as usize })
    } else {
        None
    }
}

/// The largest score the greedy can record: at most 899 moves for each of 900 robots, plus
/// 100 for each cell of distance left (at most 58 per robot).
pub const GREEDY_SCORE_BOUND: u32 = 6029100;

/// Where robot `robot_id` ends when it takes the moves `dirs` from `from` on the board with
/// the given walls, each move into a cell where no other robot stands; `None` when a move is
/// impossible.
pub open spec fn walk_from(
    walls_v: Seq<bool>,
    walls_h: Seq<bool>,
    positions: Seq<Coord>,
    robot_id: int,
    from: Coord,
    dirs: Seq<usize>,
) -> Option<Coord>
    decreases dirs.len(),
{
    if dirs.len() == 0 {
        Some(from)
    } else if dirs[0] < 4 && board_step(walls_v, walls_h, from.row as int, from.col as int, dirs[0] as int) is Some
        && !blocked(positions, robot_id, board_step(walls_v, walls_h, from.row as int, from.col as int, dirs[0] as int)->0) {
        walk_from(
            walls_v,
            walls_h,
            positions,
            robot_id,
            board_step(walls_v, walls_h, from.row as int, from.col as int, dirs[0] as int)->0,
            dirs.drop_first(),
        )
    } else {
        None
    }
}

/// Robot `robot_id` can go from `from` to `to` in exactly `l` moves.
pub open spec fn reachable_in(
    walls_v: Seq<bool>,
    walls_h: Seq<bool>,
    positions: Seq<Coord>,
    robot_id: int,
    from: Coord,
    to: Coord,
    l: nat,
) -> bool {
    exists|dirs: Seq<usize>| dirs.len() == l && #[trigger] walk_from(walls_v, walls_h, positions, robot_id, from, dirs) == Some(to)
}

/// The fewest moves that take robot `robot_id` from `from` to `to`, other robots standing
/// still; `None` when no moves do.
pub open spec fn shortest_moves(
    walls_v: Seq<bool>,
    walls_h: Seq<bool>,
    positions: Seq<Coord>,
    robot_id: int,
    from: Coord,
    to: Coord,
) -> Option<nat> {
    if exists|l: nat| reachable_in(walls_v, walls_h, positions, robot_id, from, to, l) {
        Some(
            choose|l: nat|
                reachable_in(walls_v, walls_h, positions, robot_id, from, to, l) && forall|m: nat|
                    m < l ==> !#[trigger] reachable_in(walls_v, walls_h, positions, robot_id, from, to, m),
        )
    } else {
        None
    }
}

/// The greedy, robot after robot in `order`: a robot that can reach its destination takes a
/// shortest way there, the others stand still. The final positions and the number of moves.
pub open spec fn greedy_run(
    walls_v: Seq<bool>,
    walls_h: Seq<bool>,
    pos: Seq<Coord>,
    dest: Seq<Coord>,
    order: Seq<usize>,
) -> (Seq<Coord>, nat)
    decreases order.len(),
{
    if order.len() == 0 {
        (pos, 0)
    } else {
        let (p, t) = greedy_run(walls_v, walls_h, pos, dest, order.drop_last());
        let r = order.last() as int;
        match shortest_moves(walls_v, walls_h, p, r, p[r], dest[r]) {
            Some(l) => (p.update(r, dest[r]), t + l),
            None => (p, t),
        }
    }
}

/// Walking along the adjacency of a board is walking on the board.
proof fn lemma_walk_on_board(
    graph: Map2d<[Option<Coord>; 4]>,
    gv: Map2d<bool>,
    gh: Map2d<bool>,
    positions: Seq<Coord>,
    robot_id: int,
    from: Coord,
    dirs: Seq<usize>,
)
    requires
        graph_of(graph, gv, gh),
        from.valid(),
    ensures
        walk_end(graph, positions, robot_id, from, dirs) == walk_from(gv.map@, gh.map@, positions, robot_id, from, dirs),
    decreases dirs.len(),
{
    if dirs.len() > 0 && dirs[0] < 4 {
        let d = dirs[0] as int;
        assert(graph.at_coord(from)@[d] == neighbor(gv, gh, from.row as int, from.col as int, d));
        assert(neighbor(gv, gh, from.row as int, from.col as int, d) == board_step(gv.map@, gh.map@, from.row as int, from.col as int, d));
        let nb = board_step(gv.map@, gh.map@, from.row as int, from.col as int, d);
        if nb is Some {
            lemma_walk_on_board(graph, gv, gh, positions, robot_id, nb->0, dirs.drop_first());
        }
    }
}

/// A walk that reaches `to` while no shorter one does gives the fewest moves.
proof fn lemma_shortest_is(
    walls_v: Seq<bool>,
    walls_h: Seq<bool>,
    positions: Seq<Coord>,
    robot_id: int,
    from: Coord,
    to: Coord,
    dirs: Seq<usize>,
)
    requires
        walk_from(walls_v, walls_h, positions, robot_id, from, dirs) == Some(to),
        forall|other: Seq<usize>| other.len() < dirs.len() ==> walk_from(walls_v, walls_h, positions, robot_id, from, other) != Some(to),
    ensures
        shortest_moves(walls_v, walls_h, positions, robot_id, from, to) == Some(dirs.len()),
{
    let l = dirs.len();
    assert(reachable_in(walls_v, walls_h, positions, robot_id, from, to, l));
    assert forall|m: nat| m < l implies !#[trigger] reachable_in(walls_v, walls_h, positions, robot_id, from, to, m) by {
        if reachable_in(walls_v, walls_h, positions, robot_id, from, to, m) {
            let other = choose|other: Seq<usize>| other.len() == m && #[trigger] walk_from(walls_v, walls_h, positions, robot_id, from, other) == Some(to);
        }
    }
    let l0 = choose|l0: nat|
        reachable_in(walls_v, walls_h, positions, robot_id, from, to, l0) && forall|m: nat|
            m < l0 ==> !#[trigger] reachable_in(walls_v, walls_h, positions, robot_id, from, to, m);
    assert(reachable_in(walls_v, walls_h, positions, robot_id, from, to, l0));
    if l0 < l {
    } else if l0 > l {
        assert(!reachable_in(walls_v, walls_h, positions, robot_id, from, to, l));
    }
}

/// One robot's turn of the greedy: it takes a shortest path to its destination when there is
/// one, and stays otherwise.
proof fn lemma_greedy_turn(
    graph: Map2d<[Option<Coord>; 4]>,
    gv: Map2d<bool>,
    gh: Map2d<bool>,
    init: Seq<Coord>,
    dest: Seq<Coord>,
    order: Seq<usize>,
    k: int,
    pos0: Seq<Coord>,
    a0: nat,
    p1: Seq<Coord>,
    path: Seq<usize>,
)
    requires
        graph_of(graph, gv, gh),
        0 <= k < order.len(),
        order[k] < pos0.len(),
        all_valid(pos0),
        greedy_run(gv.map@, gh.map@, init, dest, order.take(k)) == (pos0, a0),
        path.len() > 0 ==> walk_end(graph, pos0, order[k] as int, pos0[order[k] as int], path) == Some(dest[order[k] as int]),
        path.len() == 0 ==> pos0[order[k] as int] == dest[order[k] as int] || forall|dirs: Seq<usize>|
            walk_end(graph, pos0, order[k] as int, pos0[order[k] as int], dirs) != Some(dest[order[k] as int]),
        forall|dirs: Seq<usize>| dirs.len() < path.len() ==> walk_end(graph, pos0, order[k] as int, pos0[order[k] as int], dirs) != Some(
            dest[order[k] as int],
        ),
        path.len() > 0 ==> p1 == pos0.update(order[k] as int, dest[order[k] as int]),
        path.len() == 0 ==> p1 == pos0,
    ensures
        greedy_run(gv.map@, gh.map@, init, dest, order.take(k + 1)) == (p1, a0 + path.len()),
{
    let r = order[k] as int;
    let start = pos0[r];
    let goal = dest[r];
    assert(start.valid());
    let order_k1 = order.take(k + 1);
    assert(order_k1.drop_last() =~= order.take(k));
    assert(order_k1.last() == order[k]);
    lemma_walk_on_board(graph, gv, gh, pos0, r, start, path);
    assert forall|other: Seq<usize>| other.len() < path.len() implies walk_from(gv.map@, gh.map@, pos0, r, start, other) != Some(goal) by {
        lemma_walk_on_board(graph, gv, gh, pos0, r, start, other);
    }
    if path.len() > 0 {
        lemma_shortest_is(gv.map@, gh.map@, pos0, r, start, goal, path);
    } else if start == goal {
        assert(walk_from(gv.map@, gh.map@, pos0, r, start, Seq::<usize>::empty()) == Some(goal));
        lemma_shortest_is(gv.map@, gh.map@, pos0, r, start, goal, Seq::<usize>::empty());
        assert(pos0.update(r, goal) =~= pos0);
    } else {
        assert forall|l: nat| !reachable_in(gv.map@, gh.map@, pos0, r, start, goal, l) by {
            if reachable_in(gv.map@, gh.map@, pos0, r, start, goal, l) {
                let other = choose|other: Seq<usize>| other.len() == l && #[trigger] walk_from(gv.map@, gh.map@, pos0, r, start, other) == Some(goal);
                lemma_walk_on_board(graph, gv, gh, pos0, r, start, other);
            }
        }
    }
}

/// Takes the robots one after another, in `robot_order`, along a path found by
/// breadth-first search, one cell at a time while the next cell is free; every robot is its
/// own group, no wall is added. The score is the number of moves plus 100 times the sum of
/// the remaining Manhattan distances.
pub fn solve_greedy_with_order(input: &Input, robot_order: &Vec<usize>) -> (output: Output)
    requires
        input.wf(),
        robot_order@.len() <= CELL_COUNT,
        forall|j: int| 0 <= j < robot_order@.len() ==> #[trigger] robot_order@[j] < input.robot_count,
    ensures
        output.walls_v.map@ == input.init_walls_v.map@,
        output.walls_h.map@ == input.init_walls_h.map@,
        output.groups@.len() == input.robot_count,
        forall|i: int| 0 <= i < input.robot_count ==> #[trigger] output.groups@[i] == i,
        run_robot_actions(input.init_walls_v, input.init_walls_h, input.init_robots@, output.actions@) matches Some(p)
            && all_valid(p)
            && p.len() == input.robot_count
            && output.score == output.actions@.len() + 100 * total_manhattan(p, input.destinations@, input.robot_count as nat),
        ({
            let (p, t) = greedy_run(input.init_walls_v.map@, input.init_walls_h.map@, input.init_robots@, input.destinations@, robot_order@);
            &&& run_robot_actions(input.init_walls_v, input.init_walls_h, input.init_robots@, output.actions@) == Some(p)
            &&& output.actions@.len() == t
        }),
        output.actions@.len() <= 899 * robot_order@.len(),
        output.score <= GREEDY_SCORE_BOUND,
{
    let walls_v = input.init_walls_v.copy();
    let walls_h = input.init_walls_h.copy();
    let graph = build_graph(&walls_v, &walls_h);
    proof {
        lemma_graph_of_valid(graph, walls_v, walls_h);
    }
    let mut current_positions = input.init_robots.clone();
    assert(current_positions@ =~= input.init_robots@);
    let mut actions: Vec<Action> = Vec::new();
    let ghost wv = input.init_walls_v;
    let ghost wh = input.init_walls_h;
    let ghost n = input.robot_count as nat;
    let ghost dest = input.destinations@;
    let mut k: usize = 0;
    proof {
        assert(robot_order@.take(0) =~= Seq::<usize>::empty());
    }
    while k < robot_order.len()
        invariant
            k <= robot_order@.len(),
            robot_order@.len() <= CELL_COUNT,
            input.wf(),
            wv == input.init_walls_v,
            wh == input.init_walls_h,
            n == input.robot_count,
            dest == input.destinations@,
            walls_v.map@ == wv.map@,
            walls_h.map@ == wh.map@,
            graph_of(graph, walls_v, walls_h),
            graph_valid(graph),
            forall|j: int| 0 <= j < robot_order@.len() ==> #[trigger] robot_order@[j] < n,
            current_positions@.len() == n,
            all_valid(current_positions@),
            distinct_cells(current_positions@),
            run_robot_actions(wv, wh, input.init_robots@, actions@) == Some(current_positions@),
            actions@.len() <= 899 * k,
            greedy_run(wv.map@, wh.map@, input.init_robots@, dest, robot_order@.take(k as int)) == (current_positions@, actions@.len()),
        decreases robot_order@.len() - k,
    {
        let robot_id = robot_order[k];
        let ghost pos0 = current_positions@;
        let ghost a0 = actions@.len();
        assert(current_positions@[robot_id as int].valid() && input.destinations@[robot_id as int].valid());
        let start = current_positions[robot_id];
        let goal = input.destinations[robot_id];
        let path = find_path(
            current_positions[robot_id],
            input.destinations[robot_id],
            &graph,
            &current_positions,
            robot_id,
        );
        let mut t: usize = 0;
        proof {
            assert(path@.skip(0) =~= path@);
            assert(pos0.update(robot_id as int, start) =~= pos0);
        }
        while t < path.len()
            invariant
                t <= path@.len(),
                path@.len() < CELL_COUNT,
                forall|u: int| 0 <= u < path@.len() ==> #[trigger] path@[u] < 4,
                path@.len() > 0 ==> walk_end(graph, pos0, robot_id as int, current_positions@[robot_id as int], path@.skip(t as int)) == Some(goal),
                current_positions@ == pos0.update(robot_id as int, current_positions@[robot_id as int]),
                path@.len() == 0 ==> current_positions@ == pos0,
                actions@.len() == a0 + t,
                pos0.len() == n,
                all_valid(pos0),
                k < robot_order@.len(),
                robot_id < n,
                input.wf(),
                wv == input.init_walls_v,
                wh == input.init_walls_h,
                n == input.robot_count,
                walls_v.map@ == wv.map@,
                walls_h.map@ == wh.map@,
                graph_of(graph, walls_v, walls_h),
                graph_valid(graph),
                current_positions@.len() == n,
                all_valid(current_positions@),
                distinct_cells(current_positions@),
                run_robot_actions(wv, wh, input.init_robots@, actions@) == Some(current_positions@),
                actions@.len() <= 899 * k + t,
            decreases path@.len() - t,
        {
            let direction = path[t];
            assert(current_positions@[robot_id as int].valid());
            let cur = current_positions[robot_id];
            let new_pos = move_robot(current_positions[robot_id], direction, &graph);
            proof {
                let rest = path@.skip(t as int);
                assert(rest[0] == direction);
                assert(rest.drop_first() =~= path@.skip(t + 1));
                assert(graph.at(cur.row as int, cur.col as int)@[direction as int] == neighbor(walls_v, walls_h, cur.row as int, cur.col as int, direction as int));
                if let Some(np) = new_pos {
                    assert(np != cur);
                    assert forall|j: int| 0 <= j < n && j != robot_id implies current_positions@[j] == pos0[j] by {}
                    if occupied_by(current_positions@, np.row as int, np.col as int) {
                        let j = choose|j: int| 0 <= j < current_positions@.len() && #[trigger] current_positions@[j].row == np.row && current_positions@[j].col == np.col;
                        assert(current_positions@[j] == np);
                        assert(j != robot_id);
                        assert(blocked(pos0, robot_id as int, np));
                    }
                }
            }
            if let Some(np) = new_pos {
                if !any_robot_at(&current_positions, np) {
                    let ghost pos = current_positions@;
                    let ghost old_actions = actions@;
                    let mv = Action::Robot(Move { index: robot_id, direction });
                    current_positions.set(robot_id, np);
                    actions.push(mv);
                    proof {
                        let p = pos[robot_id as int];
                        assert(graph.at(p.row as int, p.col as int)@[direction as int] == neighbor(walls_v, walls_h, p.row as int, p.col as int, direction as int));
                        assert(neighbor(walls_v, walls_h, p.row as int, p.col as int, direction as int) == neighbor(wv, wh, p.row as int, p.col as int, direction as int));
                        assert(robot_can_step(wv, wh, pos, robot_id as int, direction as int));
                        assert(actions@.drop_last() =~= old_actions);
                        assert(current_positions@ == robot_step(wv, wh, pos, robot_id as int, direction as int));
                        assert(np.valid());
                        assert forall|i: int| 0 <= i < current_positions@.len() implies #[trigger] current_positions@[i].valid() by {
                            if i != robot_id { assert(current_positions@[i] == pos[i]); }
                        }
                        assert forall|a: int, b: int| 0 <= a < n && 0 <= b < n && a != b implies #[trigger] current_positions@[a] != #[trigger] current_positions@[b] by {
                            if a == robot_id {
                                assert(!occupied_by(pos, np.row as int, np.col as int));
                                assert(pos[b] == current_positions@[b]);
                            } else if b == robot_id {
                                assert(!occupied_by(pos, np.row as int, np.col as int));
                                assert(pos[a] == current_positions@[a]);
                            }
                        }
                        assert(current_positions@ =~= pos0.update(robot_id as int, np));
                    }
                }
            }
            t += 1;
        }
        proof {
            let p1 = current_positions@;
            if path@.len() > 0 {
                assert(path@.skip(path@.len() as int) =~= Seq::<usize>::empty());
                assert(p1[robot_id as int] == goal);
            } else {
                assert(p1 =~= pos0);
            }
            lemma_greedy_turn(graph, walls_v, walls_h, input.init_robots@, dest, robot_order@, k as int, pos0, a0, p1, path@);
        }
        k += 1;
    }
    proof {
        assert(robot_order@.take(robot_order@.len() as int) =~= robot_order@);
    }
    // score
    let mut total_distance: usize = 0;
    let mut i: usize = 0;
    proof {
        crate::solver::naive_fast::lemma_total_manhattan_bound(current_positions@, input.destinations@, n);
    }
    while i < input.robot_count
        invariant
            i <= n,
            n == input.robot_count,
            input.wf(),
            actions@.len() <= 899 * 900,
            actions@.len() <= 899 * robot_order@.len(),
            run_robot_actions(wv, wh, input.init_robots@, actions@) == Some(current_positions@),
            current_positions@.len() == n,
            all_valid(current_positions@),
            total_manhattan(current_positions@, input.destinations@, n) <= 58 * n,
            total_distance == total_manhattan(current_positions@, input.destinations@, i as nat),
        decreases n - i,
    {
        proof {
            crate::solver::naive_fast::lemma_total_manhattan_bound(current_positions@, input.destinations@, (i + 1) as nat);
            assert(current_positions@[i as int].valid() && input.destinations@[i as int].valid());
        }
        total_distance = total_distance + current_positions[i].dist(&input.destinations[i]);
        i += 1;
    }
    proof {
        assert(actions@.len() <= 899 * 900);
        assert(total_distance <= 58 * 900);
    }
    let score = actions.len() as u32 + 100 * total_distance as u32;
    let groups = identity_order(input.robot_count);
    Output::new(walls_v, walls_h, groups, actions, score)
}

/// One greedy attempt with the robots taken in an order shuffled by `rng`.
pub fn solve_greedy(input: &Input, rng: &mut Mcg128Xsl64) -> (output: Output)
    requires
        input.wf(),
    ensures
        output.walls_v.map@ == input.init_walls_v.map@,
        output.walls_h.map@ == input.init_walls_h.map@,
        output.groups@.len() == input.robot_count,
        forall|i: int| 0 <= i < input.robot_count ==> #[trigger] output.groups@[i] == i,
        run_robot_actions(input.init_walls_v, input.init_walls_h, input.init_robots@, output.actions@) matches Some(p)
            && all_valid(p)
            && p.len() == input.robot_count
            && output.score == output.actions@.len() + 100 * total_manhattan(p, input.destinations@, input.robot_count as nat),
        output.score <= GREEDY_SCORE_BOUND,
        exists|order: Seq<usize>| {
            &&& order.len() == input.robot_count
            &&& order.no_duplicates()
            &&& forall|j: int| 0 <= j < order.len() ==> #[trigger] order[j] < input.robot_count
            &&& ({
                let (p, t) = greedy_run(input.init_walls_v.map@, input.init_walls_h.map@, input.init_robots@, input.destinations@, order);
                &&& run_robot_actions(input.init_walls_v, input.init_walls_h, input.init_robots@, output.actions@) == Some(p)
                &&& output.actions@.len() == t
            })
        },
{
    let mut robot_order = identity_order(input.robot_count);
    let ghost before = robot_order@;
    shuffle_indices(&mut robot_order, rng);
    proof {
        assert forall|j: int| 0 <= j < robot_order@.len() implies #[trigger] robot_order@[j] < input.robot_count by {
            let x = robot_order@[j];
            assert(robot_order@.contains(x));
            vstd::seq_lib::to_multiset_contains(robot_order@, x);
            vstd::seq_lib::to_multiset_contains(before, x);
            let k = choose|k: int| 0 <= k < before.len() && before[k] == x;
        }
        assert(before.no_duplicates());
        before.lemma_multiset_has_no_duplicates();
        robot_order@.lemma_multiset_has_no_duplicates_conv();
    }
    let output = solve_greedy_with_order(input, &robot_order);
    assert(robot_order@.no_duplicates());
    output
}

} // verus!
