use vstd::prelude::*;

use crate::grid::{Coord, Map2d, D, L, MAP_SIZE, R, U};
use crate::problem::{
    all_valid, distinct_cells, neighbor, occupied_by, robot_can_step, robot_step, robots_step, run_robot_actions, Action, Move,
    Output,
};
use crate::solver::rand_greedy::{group_order, group_step, lemma_members_below_bound, run_group_moves};
use crate::sorting::{insert_by, sort_by};
use crate::solver::naive_fast::total_manhattan;
use crate::tools::{
    all_on_board, apart, cells_of, distance_sum, insert_by_key, is_matrix, judge_run, judge_score, judge_step, judge_steps,
    lemma_step_apart, lemma_steps_apart, members, movers, occupies, offset, sort_by_key,
};

verus! {

/// The judge's number for a direction: it counts `U`, `D`, `L`, `R`.
pub open spec fn judge_dir(d: int) -> int {
    if d == U as int {
        0
    } else if d == R as int {
        3
    } else if d == D as int {
        1
    } else {
        2
    }
}

/// The judge's number for a direction.
pub fn judge_dir_of(d: usize) -> (j: usize)
    requires
        d < 4,
    ensures
        j == judge_dir(d as int),
        j < 4,
{
    if d == U {
        0
    } else if d == R {
        3
    } else if d == D {
        1
    } else {
        2
    }
}

/// An action as the judge reads it: kind `'g'` for a group, `'i'` for a single robot,
/// the index, and the judge's direction.
pub open spec fn action_of(a: Action) -> (char, usize, usize) {
    match a {
        Action::Group(m) => ('g', m.index, judge_dir(m.direction as int) as usize),
        Action::Robot(m) => ('i', m.index, judge_dir(m.direction as int) as usize),
    }
}

/// The judge's wall rows hold the board's walls: `jv` is 30 rows of 29 (walls right of a
/// cell), `jh` is 29 rows of 30 (walls below a cell).
pub open spec fn walls_match(jv: Seq<Vec<bool>>, jh: Seq<Vec<bool>>, wv: Map2d<bool>, wh: Map2d<bool>) -> bool {
    &&& is_matrix(jv, MAP_SIZE as int, MAP_SIZE - 1)
    &&& is_matrix(jh, MAP_SIZE - 1, MAP_SIZE as int)
    &&& forall|r: int, c: int| 0 <= r < MAP_SIZE && 0 <= c < MAP_SIZE - 1 ==> #[trigger] jv[r]@[c] == wv.at(r, c)
    &&& forall|r: int, c: int| 0 <= r < MAP_SIZE - 1 && 0 <= c < MAP_SIZE ==> #[trigger] jh[r]@[c] == wh.at(r, c)
}

/// A cell as the judge writes it.
pub open spec fn pair_of(c: Coord) -> (usize, usize) {
    (c.row, c.col)
}

/// Cells as the judge writes them.
pub open spec fn pairs(pos: Seq<Coord>) -> Seq<(usize, usize)> {
    pos.map_values(|c: Coord| pair_of(c))
}

/// The first `rows` rows, `cols` entries each, of a board.
fn wall_rows(m: &Map2d<bool>, rows: usize, cols: usize) -> (jm: Vec<Vec<bool>>)
    requires
        m.wf(),
        rows <= MAP_SIZE,
        cols <= MAP_SIZE,
    ensures
        is_matrix(jm@, rows as int, cols as int),
        forall|r: int, c: int| 0 <= r < rows && 0 <= c < cols ==> #[trigger] jm@[r]@[c] == m.at(r, c),
{
    let mut jm: Vec<Vec<bool>> = Vec::new();
    let mut r: usize = 0;
    while r < rows
        invariant
            r <= rows,
            rows <= MAP_SIZE,
            cols <= MAP_SIZE,
            m.wf(),
            jm@.len() == r,
            forall|a: int| 0 <= a < r ==> (#[trigger] jm@[a])@.len() == cols,
            forall|a: int, c: int| 0 <= a < r && 0 <= c < cols ==> #[trigger] jm@[a]@[c] == m.at(a, c),
        decreases rows - r,
    {
        let mut row: Vec<bool> = Vec::new();
        let mut c: usize = 0;
        while c < cols
            invariant
                c <= cols,
                r < rows,
                rows <= MAP_SIZE,
                cols <= MAP_SIZE,
                m.wf(),
                row@.len() == c,
                forall|b: int| 0 <= b < c ==> #[trigger] row@[b] == m.at(r as int, b),
            decreases cols - c,
        {
            row.push(*m.get(Coord::new(r, c)));
            c += 1;
        }
        jm.push(row);
        r += 1;
    }
    jm
}

/// An action as the judge reads it.
pub fn judge_action(a: Action) -> (j: (char, usize, usize))
    requires
        match a {
            Action::Group(m) => m.direction < 4,
            Action::Robot(m) => m.direction < 4,
        },
    ensures
        j == action_of(a),
{
    match a {
        Action::Group(m) => ('g', m.index, judge_dir_of(m.direction)),
        Action::Robot(m) => ('i', m.index, judge_dir_of(m.direction)),
    }
}

/// Every action names one of the four directions.
pub open spec fn directions_ok(actions: Seq<Action>) -> bool {
    forall|t: int| 0 <= t < actions.len() ==> match #[trigger] actions[t] {
        Action::Group(m) => m.direction < 4,
        Action::Robot(m) => m.direction < 4,
    }
}

impl Output {
    /// The solution as the judge reads it: the walls as rows, the groups, and the actions.
    pub fn to_judge(&self) -> (jo: crate::tools::Output)
        requires
            self.walls_v.wf(),
            self.walls_h.wf(),
            directions_ok(self.actions@),
        ensures
            walls_match(jo.wall_v@, jo.wall_h@, self.walls_v, self.walls_h),
            jo.group@ == self.groups@,
            jo.out@ == self.actions@.map_values(|a: Action| action_of(a)),
    {
        let wall_v = wall_rows(&self.walls_v, MAP_SIZE, MAP_SIZE - 1);
        let wall_h = wall_rows(&self.walls_h, MAP_SIZE - 1, MAP_SIZE);
        let group = self.groups.clone();
        assert(group@ =~= self.groups@);
        let mut out: Vec<(char, usize, usize)> = Vec::new();
        let mut t: usize = 0;
        while t < self.actions.len()
            invariant
                t <= self.actions@.len(),
                directions_ok(self.actions@),
                out@ == self.actions@.subrange(0, t as int).map_values(|a: Action| action_of(a)),
            decreases self.actions@.len() - t,
        {
            let a = self.actions[t];
            assert(match self.actions@[t as int] {
                Action::Group(m) => m.direction < 4,
                Action::Robot(m) => m.direction < 4,
            });
            out.push(judge_action(a));
            assert(self.actions@.subrange(0, t + 1).map_values(|a: Action| action_of(a)) =~= self.actions@.subrange(
                0,
                t as int,
            ).map_values(|a: Action| action_of(a)).push(action_of(a)));
            t += 1;
        }
        assert(self.actions@.subrange(0, self.actions@.len() as int) =~= self.actions@);
        crate::tools::Output { wall_v, wall_h, group, out }
    }
}

/// A robot step keeps every robot on the board.
pub proof fn lemma_robot_step_valid(wv: Map2d<bool>, wh: Map2d<bool>, pos: Seq<Coord>, id: int, d: int)
    requires
        all_valid(pos),
        0 <= id < pos.len(),
    ensures
        all_valid(robot_step(wv, wh, pos, id, d)),
        robot_step(wv, wh, pos, id, d).len() == pos.len(),
{
    let q = robot_step(wv, wh, pos, id, d);
    assert forall|i: int| 0 <= i < q.len() implies #[trigger] q[i].valid() by {
        if i != id {
            assert(q[i] == pos[i]);
        } else {
            assert(pos[id].valid());
        }
    }
}

/// The judge sees a robot on a cell exactly where the solver does.
pub proof fn lemma_occupancy_agrees(pos: Seq<Coord>, x: int, y: int)
    ensures
        occupies(pairs(pos), x, y) == occupied_by(pos, x, y),
{
    let jp = pairs(pos);
    if occupies(jp, x, y) {
        let i = choose|i: int| 0 <= i < jp.len() && #[trigger] jp[i].0 == x && jp[i].1 == y;
        assert(pos[i].row == x && pos[i].col == y);
    }
    if occupied_by(pos, x, y) {
        let i = choose|i: int| 0 <= i < pos.len() && #[trigger] pos[i].row == x && pos[i].col == y;
        assert(jp[i].0 == x && jp[i].1 == y);
    }
}

/// One robot's step is the same for the judge and for the solver.
pub proof fn lemma_step_agrees(
    wv: Map2d<bool>,
    wh: Map2d<bool>,
    jv: Seq<Vec<bool>>,
    jh: Seq<Vec<bool>>,
    pos: Seq<Coord>,
    id: int,
    d: int,
)
    requires
        walls_match(jv, jh, wv, wh),
        all_valid(pos),
        0 <= id < pos.len(),
        0 <= d < 4,
    ensures
        judge_step(MAP_SIZE as int, jv, jh, (pairs(pos), cells_of(pairs(pos))), id, judge_dir(d)).0 == pairs(
            robot_step(wv, wh, pos, id, d),
        ),
{
    let jp = pairs(pos);
    let p = pos[id];
    assert(p.valid());
    let r = p.row as int;
    let c = p.col as int;
    assert(jp[id] == (p.row, p.col));
    let nb = neighbor(wv, wh, r, c, d);
    if nb is Some {
        lemma_occupancy_agrees(pos, nb->0.row as int, nb->0.col as int);
    }
    let (di, dj) = offset(judge_dir(d));
    lemma_occupancy_agrees(pos, r + di, c + dj);
    if robot_can_step(wv, wh, pos, id, d) {
        assert(pairs(pos.update(id, nb->0)) =~= jp.update(id, pair_of(nb->0)));
    }
    if d == U as int {
        if r > 0 {
            assert(jh[r - 1]@[c] == wh.at(r - 1, c));
        }
    } else if d == R as int {
        if c < MAP_SIZE - 1 {
            assert(jv[r]@[c] == wv.at(r, c));
        }
    } else if d == D as int {
        if r < MAP_SIZE - 1 {
            assert(jh[r]@[c] == wh.at(r, c));
        }
    } else {
        if c > 0 {
            assert(jv[r]@[c - 1] == wv.at(r, c - 1));
        }
    }
}

/// Robots on distinct cells of the board, as the judge writes them.
pub proof fn lemma_pairs_apart(pos: Seq<Coord>)
    requires
        all_valid(pos),
        distinct_cells(pos),
    ensures
        apart(pairs(pos)),
        all_on_board(pairs(pos), MAP_SIZE as int),
{
    let jp = pairs(pos);
    assert forall|i: int, j: int| 0 <= i < jp.len() && 0 <= j < jp.len() && i != j implies #[trigger] jp[i] != #[trigger] jp[j] by {
        assert(pos[i] != pos[j]);
    }
    assert forall|i: int| 0 <= i < jp.len() implies crate::tools::on_board(#[trigger] jp[i], MAP_SIZE as int) by {
        assert(pos[i].valid());
    }
}

/// Robots stepping one after another from distinct cells end the same for the judge and for
/// the solver, on distinct cells, with the judge marking exactly their cells.
pub proof fn lemma_steps_agree(
    wv: Map2d<bool>,
    wh: Map2d<bool>,
    jv: Seq<Vec<bool>>,
    jh: Seq<Vec<bool>>,
    pos: Seq<Coord>,
    order: Seq<usize>,
    d: int,
)
    requires
        walls_match(jv, jh, wv, wh),
        all_valid(pos),
        distinct_cells(pos),
        forall|k: int| 0 <= k < order.len() ==> #[trigger] order[k] < pos.len(),
        0 <= d < 4,
    ensures
        judge_steps(MAP_SIZE as int, jv, jh, (pairs(pos), cells_of(pairs(pos))), order, judge_dir(d)) == (
            pairs(robots_step(wv, wh, pos, order, d)),
            cells_of(pairs(robots_step(wv, wh, pos, order, d))),
        ),
        all_valid(robots_step(wv, wh, pos, order, d)),
        distinct_cells(robots_step(wv, wh, pos, order, d)),
        robots_step(wv, wh, pos, order, d).len() == pos.len(),
    decreases order.len(),
{
    if order.len() > 0 {
        let rest = order.drop_last();
        lemma_steps_agree(wv, wh, jv, jh, pos, rest, d);
        let q = robots_step(wv, wh, pos, rest, d);
        assert(order.last() == order[order.len() - 1]);
        lemma_step_agrees(wv, wh, jv, jh, q, order.last() as int, d);
        lemma_robot_step_valid(wv, wh, q, order.last() as int, d);
        lemma_pairs_apart(q);
        lemma_step_apart(MAP_SIZE as int, jv, jh, pairs(q), order.last() as int, judge_dir(d));
        let q2 = robot_step(wv, wh, q, order.last() as int, d);
        assert forall|i: int, j: int| 0 <= i < q2.len() && 0 <= j < q2.len() && i != j implies #[trigger] q2[i] != #[trigger] q2[j] by {
            assert(pairs(q2)[i] != pairs(q2)[j]);
        }
    }
}

/// The judge orders a group's robots as the solver does.
pub proof fn lemma_key_agrees(pos: Seq<Coord>, d: int, i: usize)
    requires
        i < pos.len(),
        0 <= d < 4,
    ensures
        crate::tools::front_key(pairs(pos)[i as int], judge_dir(d)) == crate::solver::rand_greedy::front_key(pos, d)(i),
{
    let q = pairs(pos)[i as int];
    assert(q == (pos[i as int].row, pos[i as int].col));
    let row = q.0 as int;
    let col = q.1 as int;
    if d == U as int {
        assert(offset(judge_dir(d)) == (-1int, 0int));
        assert(row * -1 + col * 0 == -row) by (nonlinear_arith);
    } else if d == R as int {
        assert(offset(judge_dir(d)) == (0int, 1int));
        assert(row * 0 + col * 1 == col) by (nonlinear_arith);
    } else if d == D as int {
        assert(offset(judge_dir(d)) == (1int, 0int));
        assert(row * 1 + col * 0 == row) by (nonlinear_arith);
    } else {
        assert(offset(judge_dir(d)) == (0int, -1int));
        assert(row * 0 + col * -1 == -col) by (nonlinear_arith);
    }
}

/// Inserting into a sorted list gives the same for the judge's and the solver's keys.
pub proof fn lemma_insert_agrees(sorted: Seq<usize>, x: usize, pos: Seq<Coord>, d: int)
    requires
        x < pos.len(),
        forall|k: int| 0 <= k < sorted.len() ==> #[trigger] sorted[k] < pos.len(),
        0 <= d < 4,
    ensures
        insert_by_key(sorted, x, pairs(pos), judge_dir(d)) == insert_by(
            sorted,
            x,
            crate::solver::rand_greedy::front_key(pos, d),
        ),
    decreases sorted.len(),
{
    if sorted.len() > 0 {
        assert(sorted.last() == sorted[sorted.len() - 1]);
        lemma_key_agrees(pos, d, sorted.last());
        lemma_key_agrees(pos, d, x);
        lemma_insert_agrees(sorted.drop_last(), x, pos, d);
    }
}

/// Sorting a group gives the same for the judge's and the solver's keys.
pub proof fn lemma_sort_agrees(rs: Seq<usize>, pos: Seq<Coord>, d: int)
    requires
        forall|k: int| 0 <= k < rs.len() ==> #[trigger] rs[k] < pos.len(),
        0 <= d < 4,
    ensures
        sort_by_key(rs, pairs(pos), judge_dir(d)) == sort_by(rs, crate::solver::rand_greedy::front_key(pos, d)),
        forall|k: int| 0 <= k < sort_by(rs, crate::solver::rand_greedy::front_key(pos, d)).len() ==> #[trigger] sort_by(
            rs,
            crate::solver::rand_greedy::front_key(pos, d),
        )[k] < pos.len(),
    decreases rs.len(),
{
    let key = crate::solver::rand_greedy::front_key(pos, d);
    crate::sorting::lemma_sort_by_congruent(rs, key, key, pos.len());
    if rs.len() > 0 {
        assert(rs.last() == rs[rs.len() - 1]);
        lemma_sort_agrees(rs.drop_last(), pos, d);
        lemma_insert_agrees(sort_by(rs.drop_last(), key), rs.last(), pos, d);
    }
}

/// A run of single-robot actions that succeeds succeeds on each of its prefixes.
pub proof fn lemma_run_prefix(wv: Map2d<bool>, wh: Map2d<bool>, pos: Seq<Coord>, actions: Seq<Action>, u: int)
    requires
        0 <= u <= actions.len(),
        run_robot_actions(wv, wh, pos, actions) is Some,
    ensures
        run_robot_actions(wv, wh, pos, actions.take(u)) is Some,
    decreases actions.len(),
{
    if u < actions.len() {
        assert(actions.take(u) =~= actions.drop_last().take(u));
        lemma_run_prefix(wv, wh, pos, actions.drop_last(), u);
    } else {
        assert(actions.take(u) =~= actions);
    }
}

/// The actions of a solution made of group moves `moves` and then `rest`.
pub open spec fn solution_actions(moves: Seq<Move>, rest: Seq<Action>) -> Seq<Action> {
    moves.map_values(|m: Move| Action::Group(m)) + rest
}

/// What the judge and the solver share for a solution: the board, the start (robots on
/// distinct cells), the groups, and the actions.
pub open spec fn same_solution(
    inst: crate::tools::Input,
    jo: crate::tools::Output,
    wv: Map2d<bool>,
    wh: Map2d<bool>,
    start: Seq<Coord>,
    groups: Seq<usize>,
    moves: Seq<Move>,
    rest: Seq<Action>,
) -> bool {
    &&& inst.N == MAP_SIZE
    &&& walls_match(jo.wall_v@, jo.wall_h@, wv, wh)
    &&& all_valid(start)
    &&& distinct_cells(start)
    &&& groups.len() == start.len()
    &&& jo.group@ == groups
    &&& forall|t: int| 0 <= t < moves.len() ==> (#[trigger] moves[t]).direction < 4
    &&& jo.out@ == solution_actions(moves, rest).map_values(|a: Action| action_of(a))
}

/// The judge replays the group moves as the solver does.
proof fn lemma_group_part(
    inst: crate::tools::Input,
    jo: crate::tools::Output,
    wv: Map2d<bool>,
    wh: Map2d<bool>,
    start: Seq<Coord>,
    groups: Seq<usize>,
    moves: Seq<Move>,
    rest: Seq<Action>,
    t: nat,
)
    requires
        same_solution(inst, jo, wv, wh, start, groups, moves, rest),
        t <= moves.len(),
    ensures
        judge_run(inst, jo, pairs(start), t) == (
            pairs(run_group_moves(wv, wh, start, groups, moves.take(t as int))),
            cells_of(pairs(run_group_moves(wv, wh, start, groups, moves.take(t as int)))),
        ),
        all_valid(run_group_moves(wv, wh, start, groups, moves.take(t as int))),
        distinct_cells(run_group_moves(wv, wh, start, groups, moves.take(t as int))),
        run_group_moves(wv, wh, start, groups, moves.take(t as int)).len() == start.len(),
    decreases t,
{
    if t == 0 {
        assert(moves.take(0) =~= Seq::<Move>::empty());
    } else {
        lemma_group_part(inst, jo, wv, wh, start, groups, moves, rest, (t - 1) as nat);
        let pp = run_group_moves(wv, wh, start, groups, moves.take(t - 1));
        let m = moves[t - 1];
        assert(moves.take(t as int).drop_last() =~= moves.take(t - 1));
        assert(moves.take(t as int).last() == m);
        let acts = solution_actions(moves, rest);
        assert(acts[t - 1] == Action::Group(m));
        let a = jo.out@[t - 1];
        assert(a == action_of(Action::Group(m)));
        let d = m.direction as int;
        assert(0 <= d < 4);
        let ms = crate::tools::members_below(groups, m.index, groups.len());
        assert(movers(jo.group@, a) == ms);
        lemma_members_below_bound(groups, m.index, groups.len());
        lemma_sort_agrees(ms, pp, d);
        lemma_steps_agree(wv, wh, jo.wall_v@, jo.wall_h@, pp, group_order(pp, groups, m.index, d), d);
    }
}

/// The judge replays the single-robot actions as the solver does.
proof fn lemma_robot_part(
    inst: crate::tools::Input,
    jo: crate::tools::Output,
    wv: Map2d<bool>,
    wh: Map2d<bool>,
    start: Seq<Coord>,
    groups: Seq<usize>,
    moves: Seq<Move>,
    rest: Seq<Action>,
    u: nat,
)
    requires
        same_solution(inst, jo, wv, wh, start, groups, moves, rest),
        u <= rest.len(),
        run_robot_actions(wv, wh, run_group_moves(wv, wh, start, groups, moves), rest) is Some,
    ensures
        run_robot_actions(wv, wh, run_group_moves(wv, wh, start, groups, moves), rest.take(u as int)) is Some,
        judge_run(inst, jo, pairs(start), moves.len() + u) == (
            pairs(run_robot_actions(wv, wh, run_group_moves(wv, wh, start, groups, moves), rest.take(u as int))->0),
            cells_of(pairs(run_robot_actions(wv, wh, run_group_moves(wv, wh, start, groups, moves), rest.take(u as int))->0)),
        ),
        all_valid(run_robot_actions(wv, wh, run_group_moves(wv, wh, start, groups, moves), rest.take(u as int))->0),
        distinct_cells(run_robot_actions(wv, wh, run_group_moves(wv, wh, start, groups, moves), rest.take(u as int))->0),
        (run_robot_actions(wv, wh, run_group_moves(wv, wh, start, groups, moves), rest.take(u as int))->0).len()
            == start.len(),
    decreases u,
{
    let pg = run_group_moves(wv, wh, start, groups, moves);
    lemma_run_prefix(wv, wh, pg, rest, u as int);
    if u == 0 {
        lemma_group_part(inst, jo, wv, wh, start, groups, moves, rest, moves.len());
        assert(moves.take(moves.len() as int) =~= moves);
        assert(rest.take(0) =~= Seq::<Action>::empty());
    } else {
        lemma_robot_part(inst, jo, wv, wh, start, groups, moves, rest, (u - 1) as nat);
        let ra = rest.take(u as int);
        assert(ra.drop_last() =~= rest.take(u - 1));
        assert(ra.last() == rest[u - 1]);
        let p = run_robot_actions(wv, wh, pg, rest.take(u - 1))->0;
        let acts = solution_actions(moves, rest);
        assert(acts[moves.len() + u - 1] == rest[u - 1]);
        let a = jo.out@[moves.len() + u - 1];
        assert(a == action_of(rest[u - 1]));
        match rest[u - 1] {
            Action::Robot(m) => {
                let d = m.direction as int;
                let x = m.index;
                assert(movers(jo.group@, a) == seq![x]);
                let single = seq![x];
                assert(single.drop_last() =~= Seq::<usize>::empty());
                assert(single.last() == x);
                assert(sort_by_key(single.drop_last(), pairs(p), judge_dir(d)) == Seq::<usize>::empty());
                assert(insert_by_key(Seq::<usize>::empty(), x, pairs(p), judge_dir(d)) == single);
                assert(sort_by_key(seq![x], pairs(p), judge_dir(d)) == seq![x]);
                let st = (pairs(p), cells_of(pairs(p)));
                assert(judge_steps(MAP_SIZE as int, jo.wall_v@, jo.wall_h@, st, single.drop_last(), judge_dir(d)) == st);
                assert(judge_steps(MAP_SIZE as int, jo.wall_v@, jo.wall_h@, st, seq![x], judge_dir(d))
                    == judge_step(MAP_SIZE as int, jo.wall_v@, jo.wall_h@, st, x as int, judge_dir(d)));
                lemma_step_agrees(wv, wh, jo.wall_v@, jo.wall_h@, p, x as int, d);
                lemma_robot_step_valid(wv, wh, p, x as int, d);
                lemma_pairs_apart(p);
                lemma_step_apart(MAP_SIZE as int, jo.wall_v@, jo.wall_h@, pairs(p), x as int, judge_dir(d));
                let p2 = robot_step(wv, wh, p, x as int, d);
                assert forall|i: int, j: int| 0 <= i < p2.len() && 0 <= j < p2.len() && i != j implies #[trigger] p2[i] != #[trigger] p2[j] by {
                    assert(pairs(p2)[i] != pairs(p2)[j]);
                }
            },
            Action::Group(m) => {},
        }
    }
}

/// Summing distances gives the same for the judge and for the solver.
pub proof fn lemma_distance_agrees(p: Seq<Coord>, dest: Seq<Coord>, k: nat)
    requires
        k <= p.len(),
        k <= dest.len(),
    ensures
        distance_sum(pairs(p), pairs(dest), k) == total_manhattan(p, dest, k),
    decreases k,
{
    if k > 0 {
        lemma_distance_agrees(p, dest, (k - 1) as nat);
        assert(pairs(p)[k - 1] == (p[k - 1].row, p[k - 1].col));
        assert(pairs(dest)[k - 1] == (dest[k - 1].row, dest[k - 1].col));
    }
}

/// The judge, replaying a solution made of group moves followed by single-robot moves,
/// ends with every robot where the solver's model puts it, and so counts the same
/// remaining distance.
pub proof fn law_judge_agrees(
    inst: crate::tools::Input,
    jo: crate::tools::Output,
    wv: Map2d<bool>,
    wh: Map2d<bool>,
    start: Seq<Coord>,
    dest: Seq<Coord>,
    groups: Seq<usize>,
    moves: Seq<Move>,
    rest: Seq<Action>,
)
    requires
        same_solution(inst, jo, wv, wh, start, groups, moves, rest),
        dest.len() == start.len(),
        run_robot_actions(wv, wh, run_group_moves(wv, wh, start, groups, moves), rest) is Some,
    ensures
        judge_run(inst, jo, pairs(start), jo.out@.len()).0 == pairs(
            run_robot_actions(wv, wh, run_group_moves(wv, wh, start, groups, moves), rest)->0,
        ),
        distance_sum(
            judge_run(inst, jo, pairs(start), jo.out@.len()).0,
            pairs(dest),
            start.len(),
        ) == total_manhattan(
            run_robot_actions(wv, wh, run_group_moves(wv, wh, start, groups, moves), rest)->0,
            dest,
            start.len(),
        ),
        jo.out@.len() + 100 * distance_sum(judge_run(inst, jo, pairs(start), jo.out@.len()).0, pairs(dest), start.len())
            == moves.len() + rest.len() + 100 * total_manhattan(
            run_robot_actions(wv, wh, run_group_moves(wv, wh, start, groups, moves), rest)->0,
            dest,
            start.len(),
        ),
{
    lemma_robot_part(inst, jo, wv, wh, start, groups, moves, rest, rest.len());
    assert(rest.take(rest.len() as int) =~= rest);
    assert(jo.out@.len() == moves.len() + rest.len());
    let p = run_robot_actions(wv, wh, run_group_moves(wv, wh, start, groups, moves), rest)->0;
    lemma_distance_agrees(p, dest, start.len());
}

/// One group move: the judge, replaying the single action `g index direction` from robots on
/// distinct cells of the board, puts every robot where the solver's group move does.
pub proof fn law_group_move_agrees(
    inst: crate::tools::Input,
    jo: crate::tools::Output,
    wv: Map2d<bool>,
    wh: Map2d<bool>,
    start: Seq<Coord>,
    groups: Seq<usize>,
    m: Move,
)
    requires
        inst.N == MAP_SIZE,
        walls_match(jo.wall_v@, jo.wall_h@, wv, wh),
        all_valid(start),
        distinct_cells(start),
        groups.len() == start.len(),
        jo.group@ == groups,
        m.direction < 4,
        jo.out@ == seq![action_of(Action::Group(m))],
    ensures
        judge_run(inst, jo, pairs(start), 1).0 == pairs(group_step(wv, wh, start, groups, m.index, m.direction as int)),
{
    let moves = seq![m];
    let rest = Seq::<Action>::empty();
    assert(solution_actions(moves, rest) =~= seq![Action::Group(m)]);
    assert(solution_actions(moves, rest).map_values(|a: Action| action_of(a)) =~= seq![action_of(Action::Group(m))]);
    assert(same_solution(inst, jo, wv, wh, start, groups, moves, rest));
    lemma_group_part(inst, jo, wv, wh, start, groups, moves, rest, 1);
    assert(moves.take(1) =~= moves);
    assert(moves.drop_last() =~= Seq::<Move>::empty());
    assert(run_group_moves(wv, wh, start, groups, moves.drop_last()) == start);
}

/// A solution of single-robot actions that the solver scores as `score` (its number of
/// actions plus 100 times the distance left after the solver's own replay) gets that same
/// score from the judge, when the robots start on distinct cells.
pub proof fn law_solver_score_is_judge_score(
    inst: crate::tools::Input,
    jo: crate::tools::Output,
    wv: Map2d<bool>,
    wh: Map2d<bool>,
    start: Seq<Coord>,
    dest: Seq<Coord>,
    groups: Seq<usize>,
    rest: Seq<Action>,
    score: int,
)
    requires
        inst.N == MAP_SIZE,
        inst.K == start.len(),
        inst.ss@ == pairs(start),
        inst.ts@ == pairs(dest),
        walls_match(jo.wall_v@, jo.wall_h@, wv, wh),
        all_valid(start),
        distinct_cells(start),
        dest.len() == start.len(),
        groups.len() == start.len(),
        jo.group@ == groups,
        jo.out@ == rest.map_values(|a: Action| action_of(a)),
        run_robot_actions(wv, wh, start, rest) matches Some(p) && score == rest.len() + 100 * total_manhattan(
            p,
            dest,
            start.len(),
        ),
    ensures
        score == judge_score(inst, jo, jo.out@.len()),
{
    let moves = Seq::<Move>::empty();
    assert(solution_actions(moves, rest) =~= rest);
    assert(same_solution(inst, jo, wv, wh, start, groups, moves, rest));
    assert(run_group_moves(wv, wh, start, groups, moves) == start);
    law_judge_agrees(inst, jo, wv, wh, start, dest, groups, moves, rest);
}

} // verus!
