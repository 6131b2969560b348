use vstd::prelude::*;

use crate::grid::{in_board, lemma_index_injective_ne, Coord, Map2d, CELL_COUNT, D, L, MAP_SIZE, R, U};

verus! {

/// The cell one move away from `(r, c)` in direction `dir` on a board with the given walls:
/// `walls_v(r, c)` separates `(r, c)` from `(r, c + 1)`, `walls_h(r, c)` separates `(r, c)`
/// from `(r + 1, c)`. `None` at the border and behind a wall.
pub open spec fn neighbor(walls_v: Map2d<bool>, walls_h: Map2d<bool>, r: int, c: int, dir: int) -> Option<Coord> {
    if dir == U as int && r > 0 && !walls_h.at(r - 1, c) {
        Some(Coord { row: (r - 1) as usize, col: c as usize })
    } else if dir == R as int && c < MAP_SIZE - 1 && !walls_v.at(r, c) {
        Some(Coord { row: r as usize, col: (c + 1) as usize })
    } else if dir == D as int && r < MAP_SIZE - 1 && !walls_h.at(r, c) {
        Some(Coord { row: (r + 1) as usize, col: c as usize })
    } else if dir == L as int && c > 0 && !walls_v.at(r, c - 1) {
        Some(Coord { row: r as usize, col: (c - 1) as usize })
    } else {
        None
    }
}

/// `graph` lists, for every cell and direction, the neighbouring cell given by the walls.
pub open spec fn graph_of(
    graph: Map2d<[Option<Coord>; 4]>,
    walls_v: Map2d<bool>,
    walls_h: Map2d<bool>,
) -> bool {
    &&& graph.wf()
    &&& forall|r: int, c: int, dir: int|
        in_board(r, c) && 0 <= dir < 4 ==> #[trigger] graph.at(r, c)@[dir] == neighbor(
            walls_v,
            walls_h,
            r,
            c,
            dir,
        )
}

/// `robot_maps` tells which robot stands on each cell, for robots at `positions`.
pub open spec fn robot_map_of(robot_maps: Map2d<Option<usize>>, positions: Seq<Coord>) -> bool {
    &&& robot_maps.wf()
    &&& forall|i: int| 0 <= i < positions.len() ==> #[trigger] robot_maps.at_coord(positions[i]) == Some(i as usize)
    &&& forall|r: int, c: int|
        in_board(r, c) && #[trigger] robot_maps.at(r, c) is Some ==> {
            let i = robot_maps.at(r, c)->0 as int;
            0 <= i < positions.len() && positions[i].row == r && positions[i].col == c
        }
}

/// Cells that hold robots at the given positions are occupied.
pub open spec fn occupied_by(positions: Seq<Coord>, r: int, c: int) -> bool {
    exists|i: int| 0 <= i < positions.len() && #[trigger] positions[i].row == r && positions[i].col == c
}

/// No two robots share a cell.
pub open spec fn distinct_cells(positions: Seq<Coord>) -> bool {
    forall|i: int, j: int| 0 <= i < positions.len() && 0 <= j < positions.len() && i != j ==> #[trigger] positions[i] != #[trigger] positions[j]
}

/// All positions are board cells.
pub open spec fn all_valid(positions: Seq<Coord>) -> bool {
    forall|i: int| 0 <= i < positions.len() ==> #[trigger] positions[i].valid()
}

/// Robot `id` tries one move in direction `dir`: it moves when there is a cell that way,
/// not behind a wall, and no robot stands on it; otherwise it stays.
pub open spec fn robot_step(
    walls_v: Map2d<bool>,
    walls_h: Map2d<bool>,
    pos: Seq<Coord>,
    id: int,
    dir: int,
) -> Seq<Coord> {
    if robot_can_step(walls_v, walls_h, pos, id, dir) {
        pos.update(id, neighbor(walls_v, walls_h, pos[id].row as int, pos[id].col as int, dir)->0)
    } else {
        pos
    }
}

/// Robot `id` can move one cell in direction `dir`.
pub open spec fn robot_can_step(
    walls_v: Map2d<bool>,
    walls_h: Map2d<bool>,
    pos: Seq<Coord>,
    id: int,
    dir: int,
) -> bool {
    neighbor(walls_v, walls_h, pos[id].row as int, pos[id].col as int, dir) matches Some(next)
        && !occupied_by(pos, next.row as int, next.col as int)
}

/// The positions after single-robot actions, each of which must move its robot;
/// `None` when one of them is not a single-robot action or cannot move.
pub open spec fn run_robot_actions(
    walls_v: Map2d<bool>,
    walls_h: Map2d<bool>,
    pos: Seq<Coord>,
    actions: Seq<Action>,
) -> Option<Seq<Coord>>
    decreases actions.len(),
{
    if actions.len() == 0 {
        Some(pos)
    } else {
        match run_robot_actions(walls_v, walls_h, pos, actions.drop_last()) {
            Some(p) => match actions.last() {
                Action::Robot(m) => if m.index < p.len() && m.direction < 4 && robot_can_step(
                    walls_v,
                    walls_h,
                    p,
                    m.index as int,
                    m.direction as int,
                ) {
                    Some(robot_step(walls_v, walls_h, p, m.index as int, m.direction as int))
                } else {
                    None
                },
                Action::Group(_) => None,
            },
            None => None,
        }
    }
}

/// One instance of the problem: robots, their destinations and the board's walls.
pub struct Input {
    pub robot_count: usize,
    pub init_robots: Vec<Coord>,
    pub robot_maps: Map2d<Option<usize>>,
    pub destinations: Vec<Coord>,
    pub init_walls_v: Map2d<bool>,
    pub init_walls_h: Map2d<bool>,
    pub init_graph: Map2d<[Option<Coord>; 4]>,
}

impl Input {
    pub open spec fn wf(&self) -> bool {
        &&& self.robot_count <= CELL_COUNT
        &&& self.init_robots@.len() == self.robot_count
        &&& self.destinations@.len() == self.robot_count
        &&& all_valid(self.init_robots@)
        &&& all_valid(self.destinations@)
        &&& distinct_cells(self.init_robots@)
        &&& self.init_walls_v.wf()
        &&& self.init_walls_h.wf()
        &&& robot_map_of(self.robot_maps, self.init_robots@)
        &&& graph_of(self.init_graph, self.init_walls_v, self.init_walls_h)
    }
}


/// A move order: robot or group number `index` goes one cell in `direction`
/// (`U`, `R`, `D` or `L`).
#[derive(Clone, Copy, PartialEq, Eq, Structural, Debug)]
pub struct Move {
    /// index of robot or group
    pub index: usize,
    /// U, R, D, L
    pub direction: usize,
}

impl Move {
    pub fn new(index: usize, direction: usize) -> (m: Move)
        ensures
            m.index == index,
            m.direction == direction,
    {
        Move { index, direction }
    }
}

/// One step of a solution.
#[derive(Clone, Copy, PartialEq, Eq, Structural, Debug)]
pub enum Action {
    /// Moves a whole group.
    Group(Move),
    /// Moves one robot.
    Robot(Move),
}

/// A solution: the walls to build, the group of each robot, the actions, and the score
/// recorded by the solver that made it.
pub struct Output {
    pub walls_v: Map2d<bool>,
    pub walls_h: Map2d<bool>,
    pub groups: Vec<usize>,
    pub actions: Vec<Action>,
    pub score: u32,
}

impl Output {
    pub fn new(
        walls_v: Map2d<bool>,
        walls_h: Map2d<bool>,
        groups: Vec<usize>,
        actions: Vec<Action>,
        score: u32,
    ) -> (o: Output)
        ensures
            o.walls_v == walls_v,
            o.walls_h == walls_h,
            o.groups == groups,
            o.actions == actions,
            o.score == score,
    {
        Output { walls_v, walls_h, groups, actions, score }
    }

    /// The solution that does nothing: `input`'s walls, every robot its own group, no
    /// action, and the worst score.
    pub fn initial(input: &Input) -> (o: Output)
        requires
            input.wf(),
        ensures
            o.walls_v.map@ == input.init_walls_v.map@,
            o.walls_h.map@ == input.init_walls_h.map@,
            o.groups@.len() == input.robot_count,
            forall|i: int| 0 <= i < input.robot_count ==> #[trigger] o.groups@[i] == i,
            o.actions@.len() == 0,
            o.score == u32::MAX,
    {
        let mut groups: Vec<usize> = Vec::new();
        let mut i: usize = 0;
        while i < input.robot_count
            invariant
                i <= input.robot_count,
                groups@.len() == i,
                forall|j: int| 0 <= j < i ==> #[trigger] groups@[j] == j,
            decreases input.robot_count - i,
        {
            groups.push(i);
            i += 1;
        }
        Output::new(input.init_walls_v.copy(), input.init_walls_h.copy(), groups, Vec::new(), u32::MAX)
    }

    /// `candidate` when it scores lower than `best`, else `best`; and whether it was
    /// `candidate`.
    pub fn better(best: Output, candidate: Output) -> (r: (Output, bool))
        ensures
            r.1 == (candidate.score < best.score),
            r.1 ==> r.0 == candidate,
            !r.1 ==> r.0 == best,
    {
        if candidate.score < best.score {
            (candidate, true)
        } else {
            (best, false)
        }
    }

    /// The recorded score (lower is better).
    pub fn score(&self) -> (s: u32)
        ensures
            s == self.score,
    {
        self.score
    }
}


/// The robots `order`, one after another, each try one move in direction `dir`.
pub open spec fn robots_step(
    walls_v: Map2d<bool>,
    walls_h: Map2d<bool>,
    pos: Seq<Coord>,
    order: Seq<usize>,
    dir: int,
) -> Seq<Coord>
    decreases order.len(),
{
    if order.len() == 0 {
        pos
    } else {
        robot_step(walls_v, walls_h, robots_step(walls_v, walls_h, pos, order.drop_last(), dir), order.last() as int, dir)
    }
}

impl Input {
    /// Moves the robots `order`, one after another, one cell in direction `dir` each, where
    /// the cell exists, is not behind a wall, and holds no robot.
    pub fn move_robots(&mut self, order: &Vec<usize>, dir: usize)
        requires
            old(self).wf(),
            dir < 4,
            forall|i: int| 0 <= i < order@.len() ==> #[trigger] order@[i] < old(self).robot_count,
        ensures
            final(self).wf(),
            final(self).init_robots@ == robots_step(old(self).init_walls_v, old(self).init_walls_h, old(self).init_robots@, order@, dir as int),
            final(self).robot_count == old(self).robot_count,
            final(self).destinations == old(self).destinations,
            final(self).init_walls_v == old(self).init_walls_v,
            final(self).init_walls_h == old(self).init_walls_h,
            final(self).init_graph == old(self).init_graph,
    {
        let mut t: usize = 0;
        while t < order.len()
            invariant
                t <= order@.len(),
                dir < 4,
                self.wf(),
                self.robot_count == old(self).robot_count,
                forall|i: int| 0 <= i < order@.len() ==> #[trigger] order@[i] < self.robot_count,
                self.init_robots@ == robots_step(old(self).init_walls_v, old(self).init_walls_h, old(self).init_robots@, order@.subrange(0, t as int), dir as int),
                self.destinations == old(self).destinations,
                self.init_walls_v == old(self).init_walls_v,
                self.init_walls_h == old(self).init_walls_h,
                self.init_graph == old(self).init_graph,
            decreases order@.len() - t,
        {
            let robot_id = order[t];
            self.move_one(robot_id, dir);
            proof {
                assert(order@.subrange(0, t + 1).drop_last() =~= order@.subrange(0, t as int));
            }
            t += 1;
        }
        assert(order@.subrange(0, order@.len() as int) =~= order@);
    }

    /// Robot `robot_id` tries one move in direction `dir`.
    fn move_one(&mut self, robot_id: usize, dir: usize)
        requires
            old(self).wf(),
            dir < 4,
            robot_id < old(self).robot_count,
        ensures
            final(self).wf(),
            final(self).init_robots@ == robot_step(old(self).init_walls_v, old(self).init_walls_h, old(self).init_robots@, robot_id as int, dir as int),
            final(self).robot_count == old(self).robot_count,
            final(self).destinations == old(self).destinations,
            final(self).init_walls_v == old(self).init_walls_v,
            final(self).init_walls_h == old(self).init_walls_h,
            final(self).init_graph == old(self).init_graph,
    {
        let current_pos = self.init_robots[robot_id];
        let ghost pos = self.init_robots@;
        assert(pos[robot_id as int].valid());
        let cell = *self.init_graph.get(current_pos);
        proof {
            assert(self.init_graph.at(current_pos.row as int, current_pos.col as int)@[dir as int] == neighbor(self.init_walls_v, self.init_walls_h, current_pos.row as int, current_pos.col as int, dir as int));
        }
        if let Some(new_pos) = cell[dir] {
            assert(new_pos.valid());
            let here = *self.robot_maps.get(new_pos);
            proof {
                if occupied_by(pos, new_pos.row as int, new_pos.col as int) {
                    let j = choose|j: int| 0 <= j < pos.len() && #[trigger] pos[j].row == new_pos.row && pos[j].col == new_pos.col;
                    assert(pos[j] == new_pos);
                    assert(self.robot_maps.at_coord(pos[j]) == Some(j as usize));
                }
            }
            if here.is_none() {
                let ghost maps0 = self.robot_maps;
                self.robot_maps.set(current_pos, None);
                self.robot_maps.set(new_pos, Some(robot_id));
                self.init_robots.set(robot_id, new_pos);
                proof {
                    let post = self.init_robots@;
                    assert(!occupied_by(pos, new_pos.row as int, new_pos.col as int)) by {
                        if occupied_by(pos, new_pos.row as int, new_pos.col as int) {
                            let j = choose|j: int| 0 <= j < pos.len() && #[trigger] pos[j].row == new_pos.row && pos[j].col == new_pos.col;
                            assert(pos[j] == new_pos);
                        }
                    }
                    lemma_index_injective_ne(current_pos, new_pos);
                    assert forall|i: int| 0 <= i < post.len() implies #[trigger] post[i].valid() by {
                        if i != robot_id { assert(post[i] == pos[i]); }
                    }
                    assert forall|a: int, b: int| 0 <= a < post.len() && 0 <= b < post.len() && a != b implies #[trigger] post[a] != #[trigger] post[b] by {
                        if a == robot_id {
                            assert(pos[b] == post[b]);
                            assert(!(pos[b].row == new_pos.row && pos[b].col == new_pos.col));
                        } else if b == robot_id {
                            assert(pos[a] == post[a]);
                            assert(!(pos[a].row == new_pos.row && pos[a].col == new_pos.col));
                        }
                    }
                    assert forall|i: int| 0 <= i < post.len() implies #[trigger] self.robot_maps.at_coord(post[i]) == Some(i as usize) by {
                        if i != robot_id {
                            assert(post[i] == pos[i]);
                            assert(pos[i].valid());
                            assert(pos[i] != pos[robot_id as int]);
                            assert(pos[i] != new_pos) by {
                                assert(!(pos[i].row == new_pos.row && pos[i].col == new_pos.col));
                            }
                            lemma_index_injective_ne(pos[i], new_pos);
                            lemma_index_injective_ne(pos[i], current_pos);
                            assert(maps0.at_coord(pos[i]) == Some(i as usize));
                        } else {
                            assert(post[i] == new_pos);
                        }
                    }
                    assert forall|r: int, c: int| in_board(r, c) && #[trigger] self.robot_maps.at(r, c) is Some implies ({
                        let i = self.robot_maps.at(r, c)->0 as int;
                        0 <= i < post.len() && post[i].row == r && post[i].col == c
                    }) by {
                        let cc = Coord { row: r as usize, col: c as usize };
                        if cc == new_pos {
                        } else {
                            lemma_index_injective_ne(cc, new_pos);
                            if cc == current_pos {
                                assert(self.robot_maps.at(r, c) is None);
                            } else {
                                lemma_index_injective_ne(cc, current_pos);
                                assert(self.robot_maps.at(r, c) == maps0.at(r, c));
                                let i = maps0.at(r, c)->0 as int;
                                assert(pos[i].row == r && pos[i].col == c);
                                assert(i != robot_id);
                                assert(post[i] == pos[i]);
                            }
                        }
                    }
                }
            }
        }
    }
}

/// Two boards whose walls hold the same values give the same moves.
pub proof fn lemma_neighbor_congruent(wv1: Map2d<bool>, wh1: Map2d<bool>, wv2: Map2d<bool>, wh2: Map2d<bool>)
    requires
        wv1.map@ == wv2.map@,
        wh1.map@ == wh2.map@,
    ensures
        forall|r: int, c: int, dir: int| #[trigger] neighbor(wv1, wh1, r, c, dir) == neighbor(wv2, wh2, r, c, dir),
{
}

/// Single-robot actions run the same on two boards whose walls hold the same values.
pub proof fn lemma_run_robot_actions_congruent(
    wv1: Map2d<bool>,
    wh1: Map2d<bool>,
    wv2: Map2d<bool>,
    wh2: Map2d<bool>,
    pos: Seq<Coord>,
    actions: Seq<Action>,
)
    requires
        wv1.map@ == wv2.map@,
        wh1.map@ == wh2.map@,
    ensures
        run_robot_actions(wv1, wh1, pos, actions) == run_robot_actions(wv2, wh2, pos, actions),
    decreases actions.len(),
{
    lemma_neighbor_congruent(wv1, wh1, wv2, wh2);
    if actions.len() > 0 {
        lemma_run_robot_actions_congruent(wv1, wh1, wv2, wh2, pos, actions.drop_last());
    }
}

/// Robots moved one after another end the same on two boards whose walls hold the same values.
pub proof fn lemma_robots_step_congruent(
    wv1: Map2d<bool>,
    wh1: Map2d<bool>,
    wv2: Map2d<bool>,
    wh2: Map2d<bool>,
    pos: Seq<Coord>,
    order: Seq<usize>,
    dir: int,
)
    requires
        wv1.map@ == wv2.map@,
        wh1.map@ == wh2.map@,
    ensures
        robots_step(wv1, wh1, pos, order, dir) == robots_step(wv2, wh2, pos, order, dir),
    decreases order.len(),
{
    lemma_neighbor_congruent(wv1, wh1, wv2, wh2);
    if order.len() > 0 {
        lemma_robots_step_congruent(wv1, wh1, wv2, wh2, pos, order.drop_last(), dir);
    }
}

impl Input {
    /// A copy of the instance.
    pub fn copy(&self) -> (r: Input)
        requires
            self.wf(),
        ensures
            r.wf(),
            r.robot_count == self.robot_count,
            r.init_robots@ == self.init_robots@,
            r.destinations@ == self.destinations@,
            r.init_walls_v.map@ == self.init_walls_v.map@,
            r.init_walls_h.map@ == self.init_walls_h.map@,
            r.robot_maps.map@ == self.robot_maps.map@,
            r.init_graph.map@ == self.init_graph.map@,
    {
        let init_robots = self.init_robots.clone();
        let destinations = self.destinations.clone();
        assert(init_robots@ =~= self.init_robots@);
        assert(destinations@ =~= self.destinations@);
        let r = Input {
            robot_count: self.robot_count,
            init_robots,
            robot_maps: self.robot_maps.copy(),
            destinations,
            init_walls_v: self.init_walls_v.copy(),
            init_walls_h: self.init_walls_h.copy(),
            init_graph: self.init_graph.copy(),
        };
        proof {
            lemma_neighbor_congruent(r.init_walls_v, r.init_walls_h, self.init_walls_v, self.init_walls_h);
            assert forall|rr: int, c: int| in_board(rr, c) implies #[trigger] r.robot_maps.at(rr, c) == self.robot_maps.at(rr, c) by {}
            assert forall|rr: int, c: int, dir: int| in_board(rr, c) && 0 <= dir < 4 implies #[trigger] r.init_graph.at(rr, c)@[dir] == neighbor(r.init_walls_v, r.init_walls_h, rr, c, dir) by {
                assert(r.init_graph.at(rr, c) == self.init_graph.at(rr, c));
            }
            assert forall|i: int| 0 <= i < r.init_robots@.len() implies #[trigger] r.robot_maps.at_coord(r.init_robots@[i]) == Some(i as usize) by {
                assert(self.robot_maps.at_coord(self.init_robots@[i]) == Some(i as usize));
            }
        }
        r
    }
}

/// The cell `(p.0, p.1)`.
pub open spec fn coord_of(p: (usize, usize)) -> Coord {
    Coord { row: p.0, col: p.1 }
}

/// The cells of a list of `(row, column)` pairs.
fn coords_of(ps: &Vec<(usize, usize)>) -> (cs: Vec<Coord>)
    ensures
        cs@.len() == ps@.len(),
        forall|i: int| 0 <= i < ps@.len() ==> #[trigger] cs@[i] == coord_of(ps@[i]),
{
    let mut cs: Vec<Coord> = Vec::new();
    let mut i: usize = 0;
    while i < ps.len()
        invariant
            i <= ps@.len(),
            cs@.len() == i,
            forall|j: int| 0 <= j < i ==> #[trigger] cs@[j] == coord_of(ps@[j]),
        decreases ps@.len() - i,
    {
        cs.push(Coord::new(ps[i].0, ps[i].1));
        i += 1;
    }
    cs
}

/// The board of which robot stands where, for robots on distinct cells.
fn robot_map(positions: &Vec<Coord>) -> (maps: Map2d<Option<usize>>)
    requires
        all_valid(positions@),
        distinct_cells(positions@),
    ensures
        robot_map_of(maps, positions@),
{
    let mut maps: Map2d<Option<usize>> = Map2d::filled(None);
    let mut i: usize = 0;
    while i < positions.len()
        invariant
            i <= positions@.len(),
            all_valid(positions@),
            distinct_cells(positions@),
            maps.wf(),
            forall|j: int| 0 <= j < i ==> #[trigger] maps.at_coord(positions@[j]) == Some(j as usize),
            forall|r: int, c: int|
                in_board(r, c) && #[trigger] maps.at(r, c) is Some ==> {
                    let j = maps.at(r, c)->0 as int;
                    0 <= j < i && positions@[j].row == r && positions@[j].col == c
                },
        decreases positions@.len() - i,
    {
        let p = positions[i];
        assert(positions@[i as int].valid());
        let ghost before = maps;
        maps.set(p, Some(i));
        proof {
            assert forall|j: int| 0 <= j < i + 1 implies #[trigger] maps.at_coord(positions@[j]) == Some(j as usize) by {
                if j < i {
                    assert(positions@[j] != positions@[i as int]);
                    assert(positions@[j].valid());
                    lemma_index_injective_ne(positions@[j], p);
                    assert(before.at_coord(positions@[j]) == Some(j as usize));
                    assert(maps.at_coord(positions@[j]) == before.at_coord(positions@[j]));
                } else {
                    assert(positions@[j] == p);
                    assert(maps.map@[p.index_of()] == Some(i));
                }
            }
            assert forall|r: int, c: int|
                in_board(r, c) && #[trigger] maps.at(r, c) is Some implies {
                    let j = maps.at(r, c)->0 as int;
                    0 <= j < i + 1 && positions@[j].row == r && positions@[j].col == c
                } by {
                let cc = Coord { row: r as usize, col: c as usize };
                if cc != p {
                    lemma_index_injective_ne(cc, p);
                    assert(maps.at(r, c) == before.at(r, c));
                }
            }
        }
        i += 1;
    }
    maps
}

/// A wall board from the judge's rows: entry `(r, c)` is `rows[r][c]` where `r` and `c` are
/// below the given limits, and no wall elsewhere.
fn wall_board(rows: &Vec<Vec<bool>>, row_limit: usize, col_limit: usize) -> (m: Map2d<bool>)
    requires
        row_limit <= MAP_SIZE,
        col_limit <= MAP_SIZE,
        rows@.len() >= row_limit,
        forall|r: int| 0 <= r < row_limit ==> (#[trigger] rows@[r])@.len() >= col_limit,
    ensures
        m.wf(),
        forall|r: int, c: int| in_board(r, c) ==> #[trigger] m.at(r, c) == (r < row_limit && c < col_limit && rows@[r]@[c]),
{
    let mut m: Map2d<bool> = Map2d::filled(false);
    let mut r: usize = 0;
    while r < row_limit
        invariant
            r <= row_limit,
            row_limit <= MAP_SIZE,
            col_limit <= MAP_SIZE,
            rows@.len() >= row_limit,
            forall|q: int| 0 <= q < row_limit ==> (#[trigger] rows@[q])@.len() >= col_limit,
            m.wf(),
            forall|q: int, c: int| in_board(q, c) ==> #[trigger] m.at(q, c) == (q < r && c < col_limit && rows@[q]@[c]),
        decreases row_limit - r,
    {
        let mut c: usize = 0;
        while c < col_limit
            invariant
                r < row_limit,
                c <= col_limit,
                row_limit <= MAP_SIZE,
                col_limit <= MAP_SIZE,
                rows@.len() >= row_limit,
                forall|q: int| 0 <= q < row_limit ==> (#[trigger] rows@[q])@.len() >= col_limit,
                m.wf(),
                forall|q: int, cc: int| in_board(q, cc) ==> #[trigger] m.at(q, cc) == ((q < r && cc < col_limit
                    || q == r && cc < c) && rows@[q]@[cc]),
            decreases col_limit - c,
        {
            let ghost before = m;
            let w = rows[r][c];
            m.set(Coord::new(r, c), w);
            proof {
                assert forall|q: int, cc: int| in_board(q, cc) implies #[trigger] m.at(q, cc) == ((q < r && cc
                    < col_limit || q == r && cc < c + 1) && rows@[q]@[cc]) by {
                    if q != r || cc != c {
                        assert(q * 30 + cc != r * 30 + c);
                        assert(m.at(q, cc) == before.at(q, cc));
                    }
                }
            }
            c += 1;
        }
        r += 1;
    }
    m
}

impl Input {
    /// The solver's view of a judge instance on the `MAP_SIZE` board: the robots' starts
    /// and destinations as cells, the walls, which robot stands where, and the moves the
    /// walls allow. `None` for any other board size.
    pub fn from_instance(inst: &crate::tools::Input) -> (r: Option<Input>)
        requires
            inst.wf(),
        ensures
            r is None <==> inst.N != MAP_SIZE,
            r matches Some(x) ==> {
                &&& x.wf()
                &&& x.robot_count == inst.K
                &&& forall|i: int| 0 <= i < inst.K ==> #[trigger] x.init_robots@[i] == coord_of(inst.ss@[i])
                &&& forall|i: int| 0 <= i < inst.K ==> #[trigger] x.destinations@[i] == coord_of(inst.ts@[i])
                &&& forall|rr: int, c: int| in_board(rr, c) ==> #[trigger] x.init_walls_v.at(rr, c) == (c < MAP_SIZE - 1
                    && inst.wall_v@[rr]@[c])
                &&& forall|rr: int, c: int| in_board(rr, c) ==> #[trigger] x.init_walls_h.at(rr, c) == (rr < MAP_SIZE - 1
                    && inst.wall_h@[rr]@[c])
            },
    {
        if inst.N != MAP_SIZE {
            return None;
        }
        let init_robots = coords_of(&inst.ss);
        let destinations = coords_of(&inst.ts);
        proof {
            assert forall|i: int| 0 <= i < init_robots@.len() implies #[trigger] init_robots@[i].valid() by {
                assert(crate::tools::on_board(inst.ss@[i], inst.N as int));
            }
            assert forall|i: int| 0 <= i < destinations@.len() implies #[trigger] destinations@[i].valid() by {
                assert(crate::tools::on_board(inst.ts@[i], inst.N as int));
            }
            assert forall|i: int, j: int| 0 <= i < init_robots@.len() && 0 <= j < init_robots@.len() && i != j implies
                #[trigger] init_robots@[i] != #[trigger] init_robots@[j] by {
                assert(inst.ss@[i] != inst.ss@[j]);
            }
        }
        let robot_maps = robot_map(&init_robots);
        let init_walls_v = wall_board(&inst.wall_v, MAP_SIZE, MAP_SIZE - 1);
        let init_walls_h = wall_board(&inst.wall_h, MAP_SIZE - 1, MAP_SIZE);
        let init_graph = crate::solver::naive::build_graph(&init_walls_v, &init_walls_h);
        assert(inst.K <= CELL_COUNT) by {
            assert(inst.N * inst.N == 900) by (nonlinear_arith)
                requires inst.N == 30;
        }
        Some(Input {
            robot_count: inst.K,
            init_robots,
            robot_maps,
            destinations,
            init_walls_v,
            init_walls_h,
            init_graph,
        })
    }
}

} // verus!
