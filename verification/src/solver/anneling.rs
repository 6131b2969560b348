use vstd::prelude::*;

use crate::grid::{Coord, Map2d, CELL_COUNT, MAP_SIZE};
use crate::problem::{lemma_run_robot_actions_congruent, neighbor, run_robot_actions, Action, Input, Move, Output};
use crate::rng::{gen_index, gen_index_inclusive};
use crate::solver::naive::{build_graph, greedy_run, solve_greedy_with_order, GREEDY_SCORE_BOUND};
use crate::solver::naive_fast::{lemma_total_manhattan_bound, total_manhattan};
use crate::solver::rand_greedy::{group_step, run_group_moves};
use rand_pcg::Mcg128Xsl64;

verus! {

/// The number of groups the search works with.
pub const MAX_GROUP: usize = 5;

/// What the search does not change: the instance and the number of groups.
pub struct Env {
    pub input: Input,
    pub max_group: usize,
}

impl Env {
    /// The environment of the search.
    pub fn new(input: Input, max_group: usize) -> (env: Env)
        ensures
            env.input == input,
            env.max_group == max_group,
    {
        Env { input, max_group }
    }

    /// The environment is usable: a well-formed instance and at least one group.
    pub open spec fn wf(&self) -> bool {
        &&& self.input.wf()
        &&& self.max_group >= 1
    }
}

/// `perm` holds `0, .., n - 1`, each once.
pub open spec fn is_permutation(perm: Seq<usize>, n: nat) -> bool {
    &&& perm.len() == n
    &&& forall|i: int| 0 <= i < perm.len() ==> #[trigger] perm[i] < n
    &&& forall|i: int, j: int| 0 <= i < j < perm.len() ==> #[trigger] perm[i] != #[trigger] perm[j]
}

/// A candidate solution: the order in which the greedy completion takes the robots, the
/// walls, the group of each robot, and the group moves made first.
pub struct State {
    pub perm: Vec<usize>,
    pub wall_v: Map2d<bool>,
    pub wall_h: Map2d<bool>,
    pub groups: Vec<usize>,
    pub group_actions: Vec<Move>,
}

/// `s` with the entries at `i` and `j` exchanged.
pub open spec fn swapped<T>(s: Seq<T>, i: int, j: int) -> Seq<T> {
    s.update(i, s[j]).update(j, s[i])
}

/// Exchanges the entries at `i` and `j`.
fn swap_entries<T: Copy>(v: &mut Vec<T>, i: usize, j: usize)
    requires
        i < old(v)@.len(),
        j < old(v)@.len(),
    ensures
        final(v)@ == swapped(old(v)@, i as int, j as int),
{
    let a = v[i];
    let b = v[j];
    v.set(i, b);
    v.set(j, a);
}

/// `walls` with the entry of cell `c` flipped.
pub open spec fn toggled(walls: Seq<bool>, c: Coord) -> Seq<bool> {
    walls.update(c.index_of(), !walls[c.index_of()])
}

/// Where the robots of `input` end, and how many single moves the greedy completion makes,
/// for a state: its group moves on its walls, then the greedy in the order `perm`.
pub open spec fn state_result(input: Input, s: State) -> (Seq<Coord>, nat) {
    greedy_run(
        s.wall_v.map@,
        s.wall_h.map@,
        run_group_moves(s.wall_v, s.wall_h, input.init_robots@, s.groups@, s.group_actions@),
        input.destinations@,
        s.perm@,
    )
}

/// The cost of a state: its group moves, the greedy's single moves, and 100 for each cell of
/// distance left.
pub open spec fn state_cost(input: Input, s: State) -> nat {
    s.group_actions@.len() + state_result(input, s).1 + 100 * total_manhattan(
        state_result(input, s).0,
        input.destinations@,
        input.robot_count as nat,
    )
}

impl State {
    /// The state is usable with `env`: `perm` orders all robots, each robot has a group
    /// below `env.max_group`, the walls cover the board, and every group move has a direction.
    pub open spec fn wf(&self, env: &Env) -> bool {
        &&& is_permutation(self.perm@, env.input.robot_count as nat)
        &&& self.wall_v.wf()
        &&& self.wall_h.wf()
        &&& self.groups@.len() == env.input.robot_count
        &&& forall|i: int| 0 <= i < self.groups@.len() ==> #[trigger] self.groups@[i] < env.max_group
        &&& forall|t: int| 0 <= t < self.group_actions@.len() ==> (#[trigger] self.group_actions@[t]).direction < 4
    }

    /// A state with `input`'s walls, the given order and groups, and no group move.
    pub fn new(input: &Input, perm: Vec<usize>, groups: Vec<usize>) -> (state: State)
        requires
            input.wf(),
        ensures
            state.perm == perm,
            state.wall_v.map@ == input.init_walls_v.map@,
            state.wall_h.map@ == input.init_walls_h.map@,
            state.groups == groups,
            state.group_actions@.len() == 0,
    {
        State {
            perm,
            wall_v: input.init_walls_v.copy(),
            wall_h: input.init_walls_h.copy(),
            groups,
            group_actions: Vec::new(),
        }
    }

    /// Moves the robots of group `mv.index` one cell in direction `mv.direction`, front first.
    pub fn move_group(&self, input: &mut Input, mv: &Move)
        requires
            old(input).wf(),
            self.groups@.len() >= old(input).robot_count,
            mv.direction < 4,
        ensures
            final(input).wf(),
            final(input).init_robots@ == group_step(
                old(input).init_walls_v,
                old(input).init_walls_h,
                old(input).init_robots@,
                self.groups@,
                mv.index,
                mv.direction as int,
            ),
            final(input).robot_count == old(input).robot_count,
            final(input).destinations == old(input).destinations,
            final(input).init_walls_v == old(input).init_walls_v,
            final(input).init_walls_h == old(input).init_walls_h,
            final(input).init_graph == old(input).init_graph,
            forall|i: int| 0 <= i < old(input).robot_count && self.groups@[i] != mv.index ==> #[trigger] final(input).init_robots@[i]
                == old(input).init_robots@[i],
            forall|i: int|
                0 <= i < old(input).robot_count && self.groups@[i] == mv.index ==> #[trigger] final(input).init_robots@[i]
                    == old(input).init_robots@[i] || neighbor(
                    old(input).init_walls_v,
                    old(input).init_walls_h,
                    old(input).init_robots@[i].row as int,
                    old(input).init_robots@[i].col as int,
                    mv.direction as int,
                ) == Some(final(input).init_robots@[i]),
    {
        crate::solver::rand_greedy::move_group(input, &self.groups, mv.index, mv.direction);
    }

    /// `input` on the state's walls, with every group move of the state made.
    fn moved_input(&self, input: &Input) -> (moved: Input)
        requires
            input.wf(),
            self.wall_v.wf(),
            self.wall_h.wf(),
            self.groups@.len() >= input.robot_count,
            forall|t: int| 0 <= t < self.group_actions@.len() ==> (#[trigger] self.group_actions@[t]).direction < 4,
        ensures
            moved.wf(),
            moved.robot_count == input.robot_count,
            moved.destinations@ == input.destinations@,
            moved.init_walls_v.map@ == self.wall_v.map@,
            moved.init_walls_h.map@ == self.wall_h.map@,
            moved.init_robots@ == run_group_moves(
                moved.init_walls_v,
                moved.init_walls_h,
                input.init_robots@,
                self.groups@,
                self.group_actions@,
            ),
    {
        let base = input.copy();
        let wall_v = self.wall_v.copy();
        let wall_h = self.wall_h.copy();
        let graph = build_graph(&wall_v, &wall_h);
        let mut moved = Input {
            robot_count: base.robot_count,
            init_robots: base.init_robots,
            robot_maps: base.robot_maps,
            destinations: base.destinations,
            init_walls_v: wall_v,
            init_walls_h: wall_h,
            init_graph: graph,
        };
        let ghost w0 = moved;
        let mut t: usize = 0;
        while t < self.group_actions.len()
            invariant
                t <= self.group_actions@.len(),
                moved.wf(),
                self.groups@.len() >= moved.robot_count,
                forall|u: int| 0 <= u < self.group_actions@.len() ==> (#[trigger] self.group_actions@[u]).direction < 4,
                moved.robot_count == input.robot_count,
                moved.destinations@ == input.destinations@,
                moved.init_walls_v == w0.init_walls_v,
                moved.init_walls_h == w0.init_walls_h,
                moved.init_graph == w0.init_graph,
                moved.init_walls_v.map@ == self.wall_v.map@,
                moved.init_walls_h.map@ == self.wall_h.map@,
                moved.init_robots@ == run_group_moves(
                    w0.init_walls_v,
                    w0.init_walls_h,
                    input.init_robots@,
                    self.groups@,
                    self.group_actions@.subrange(0, t as int),
                ),
            decreases self.group_actions@.len() - t,
        {
            let mv = self.group_actions[t];
            assert(self.group_actions@[t as int].direction < 4);
            self.move_group(&mut moved, &mv);
            proof {
                assert(self.group_actions@.subrange(0, t + 1).drop_last() =~= self.group_actions@.subrange(0, t as int));
                assert(self.group_actions@.subrange(0, t + 1).last() == mv);
            }
            t += 1;
        }
        assert(self.group_actions@.subrange(0, self.group_actions@.len() as int) =~= self.group_actions@);
        moved
    }

    /// The solution of the state: its walls and groups, its group moves, then the greedy
    /// completion with the robots taken in the order `perm`. The score is that of the greedy
    /// completion.
    pub fn to_output(&self, input: &Input) -> (output: Output)
        requires
            input.wf(),
            self.wall_v.wf(),
            self.wall_h.wf(),
            self.groups@.len() >= input.robot_count,
            forall|t: int| 0 <= t < self.group_actions@.len() ==> (#[trigger] self.group_actions@[t]).direction < 4,
            self.perm@.len() <= CELL_COUNT,
            forall|j: int| 0 <= j < self.perm@.len() ==> #[trigger] self.perm@[j] < input.robot_count,
        ensures
            output.walls_v.map@ == self.wall_v.map@,
            output.walls_h.map@ == self.wall_h.map@,
            output.groups@ == self.groups@,
            output.actions@.len() >= self.group_actions@.len(),
            forall|t: int| 0 <= t < self.group_actions@.len() ==> #[trigger] output.actions@[t] == Action::Group(self.group_actions@[t]),
            run_robot_actions(
                output.walls_v,
                output.walls_h,
                run_group_moves(output.walls_v, output.walls_h, input.init_robots@, self.groups@, self.group_actions@),
                output.actions@.skip(self.group_actions@.len() as int),
            ) matches Some(p) && output.score == output.actions@.len() - self.group_actions@.len() + 100 * total_manhattan(
                p,
                input.destinations@,
                input.robot_count as nat,
            ),
        run_robot_actions(
            output.walls_v,
            output.walls_h,
            run_group_moves(output.walls_v, output.walls_h, input.init_robots@, self.groups@, self.group_actions@),
            output.actions@.skip(self.group_actions@.len() as int),
        ) == Some(state_result(*input, *self).0),
        output.actions@.len() == self.group_actions@.len() + state_result(*input, *self).1,
        output.actions@.len() + 100 * total_manhattan(state_result(*input, *self).0, input.destinations@, input.robot_count as nat)
            == state_cost(*input, *self),
    {
        let moved = self.moved_input(input);
        let greedy = solve_greedy_with_order(&moved, &self.perm);
        let mut actions: Vec<Action> = Vec::new();
        let mut t: usize = 0;
        while t < self.group_actions.len()
            invariant
                t <= self.group_actions@.len(),
                actions@.len() == t,
                forall|u: int| 0 <= u < t ==> #[trigger] actions@[u] == Action::Group(self.group_actions@[u]),
            decreases self.group_actions@.len() - t,
        {
            actions.push(Action::Group(self.group_actions[t]));
            t += 1;
        }
        let ghost rest = greedy.actions@;
        let mut robot_actions = greedy.actions;
        actions.append(&mut robot_actions);
        let output = Output::new(greedy.walls_v, greedy.walls_h, self.groups.clone(), actions, greedy.score);
        proof {
            assert(output.groups@ =~= self.groups@);
            assert(output.actions@.skip(self.group_actions@.len() as int) =~= rest);
            crate::problem::lemma_neighbor_congruent(output.walls_v, output.walls_h, moved.init_walls_v, moved.init_walls_h);
            crate::solver::rand_greedy::lemma_run_group_moves_congruent(
                output.walls_v, output.walls_h, moved.init_walls_v, moved.init_walls_h,
                input.init_robots@, self.groups@, self.group_actions@,
            );
            crate::solver::rand_greedy::lemma_run_group_moves_congruent(
                self.wall_v, self.wall_h, moved.init_walls_v, moved.init_walls_h,
                input.init_robots@, self.groups@, self.group_actions@,
            );
            lemma_run_robot_actions_congruent(
                output.walls_v, output.walls_h, moved.init_walls_v, moved.init_walls_h,
                moved.init_robots@, rest,
            );
        }
        output
    }

    /// The cost of the state: the score of its greedy completion plus one for each group move.
    pub fn score(&self, env: &Env) -> (score: u32)
        requires
            env.wf(),
            self.wf(env),
            self.group_actions@.len() <= u32::MAX - GREEDY_SCORE_BOUND,
        ensures
            score == state_cost(env.input, *self),
    {
        let moved = self.moved_input(&env.input);
        let greedy = solve_greedy_with_order(&moved, &self.perm);
        proof {
            let rest = greedy.actions@;
            let p = run_robot_actions(moved.init_walls_v, moved.init_walls_h, moved.init_robots@, rest)->0;
            lemma_total_manhattan_bound(p, env.input.destinations@, env.input.robot_count as nat);
            crate::solver::rand_greedy::lemma_run_group_moves_congruent(
                self.wall_v, self.wall_h, moved.init_walls_v, moved.init_walls_h,
                env.input.init_robots@, self.groups@, self.group_actions@,
            );
            lemma_run_robot_actions_congruent(
                self.wall_v, self.wall_h, moved.init_walls_v, moved.init_walls_h,
                moved.init_robots@, rest,
            );
            assert(state_result(env.input, *self) == (p, rest.len()));
            assert(rest.len() <= 899 * 900) by (nonlinear_arith)
                requires rest.len() <= 899 * self.perm@.len(), self.perm@.len() <= 900;
            assert(greedy.score <= GREEDY_SCORE_BOUND);
        }
        greedy.score + self.group_actions.len() as u32
    }
}

/// The search's starting point: `input` with `MAX_GROUP` groups, the robots in index order,
/// robot `i` in group `i % MAX_GROUP`, the walls of `input` and no group move.
pub fn initial_state(env: &Env) -> (state: State)
    requires
        env.wf(),
    ensures
        state.wf(env),
        forall|i: int| 0 <= i < env.input.robot_count ==> #[trigger] state.perm@[i] == i,
        forall|i: int| 0 <= i < env.input.robot_count ==> #[trigger] state.groups@[i] == i % (env.max_group as int),
        state.wall_v.map@ == env.input.init_walls_v.map@,
        state.wall_h.map@ == env.input.init_walls_h.map@,
        state.group_actions@.len() == 0,
{
    let n = env.input.robot_count;
    let mut perm: Vec<usize> = Vec::new();
    let mut groups: Vec<usize> = Vec::new();
    let mut i: usize = 0;
    while i < n
        invariant
            i <= n,
            env.max_group >= 1,
            perm@.len() == i,
            groups@.len() == i,
            forall|j: int| 0 <= j < i ==> #[trigger] perm@[j] == j,
            forall|j: int| 0 <= j < i ==> #[trigger] groups@[j] == j % (env.max_group as int),
        decreases n - i,
    {
        perm.push(i);
        groups.push(i % env.max_group);
        i += 1;
    }
    let state = State::new(&env.input, perm, groups);
    assert forall|j: int| 0 <= j < state.groups@.len() implies #[trigger] state.groups@[j] < env.max_group by {
        assert(state.groups@[j] == j % (env.max_group as int));
    }
    state
}

/// What a state is, for the neighbors: order, vertical walls, horizontal walls, groups and
/// group moves.
pub type StateView = (Seq<usize>, Seq<bool>, Seq<bool>, Seq<usize>, Seq<Move>);

impl View for State {
    type V = StateView;

    open spec fn view(&self) -> StateView {
        (self.perm@, self.wall_v.map@, self.wall_h.map@, self.groups@, self.group_actions@)
    }
}

/// Inserts the group move `mv` at position `index`.
#[derive(Clone, Copy, Debug)]
pub struct AddActionNeigh {
    pub index: usize,
    pub mv: Move,
}

impl AddActionNeigh {
    /// The state after the change.
    pub open spec fn applied(&self, v: StateView) -> StateView {
        (v.0, v.1, v.2, v.3, v.4.insert(self.index as int, self.mv))
    }

    /// The state after the change is taken back.
    pub open spec fn undone(&self, v: StateView) -> StateView {
        (v.0, v.1, v.2, v.3, v.4.remove(self.index as int))
    }

    /// A position `0..=len`, a group below `env.max_group` and a direction, drawn from `rng`.
    pub fn generate(env: &Env, state: &State, rng: &mut Mcg128Xsl64) -> (n: Option<AddActionNeigh>)
        requires
            env.wf(),
        ensures
            n matches Some(a) && a.index <= state.group_actions@.len() && a.mv.index < env.max_group
                && a.mv.direction < 4,
    {
        let index = gen_index_inclusive(rng, 0, state.group_actions.len());
        let group_id = gen_index(rng, 0, env.max_group);
        let dir = gen_index(rng, 0, 4);
        Some(AddActionNeigh { index, mv: Move::new(group_id, dir) })
    }

    /// Makes the change.
    pub fn preprocess(&mut self, env: &Env, state: &mut State)
        requires
            old(state).wf(env),
            old(self).index <= old(state).group_actions@.len(),
            old(self).mv.direction < 4,
        ensures
            final(state).wf(env),
            final(state)@ == old(self).applied(old(state)@),
            *final(self) == *old(self),
    {
        state.group_actions.insert(self.index, self.mv);
    }

    /// Keeps the change: nothing is left to do.
    pub fn postprocess(self, env: &Env, state: &mut State)
        ensures
            *final(state) == *old(state),
    {
    }

    /// Takes the change back.
    pub fn rollback(self, env: &Env, state: &mut State)
        requires
            old(state).wf(env),
            self.index < old(state).group_actions@.len(),
        ensures
            final(state).wf(env),
            final(state)@ == self.undone(old(state)@),
    {
        state.group_actions.remove(self.index);
    }
}

/// Removes the group move at position `index`, which is `mv`.
#[derive(Clone, Copy, Debug)]
pub struct RemoveActionNeigh {
    pub index: usize,
    pub mv: Move,
}

impl RemoveActionNeigh {
    /// The state after the change.
    pub open spec fn applied(&self, v: StateView) -> StateView {
        (v.0, v.1, v.2, v.3, v.4.remove(self.index as int))
    }

    /// The state after the change is taken back.
    pub open spec fn undone(&self, v: StateView) -> StateView {
        (v.0, v.1, v.2, v.3, v.4.insert(self.index as int, self.mv))
    }

    /// A group move of the state drawn from `rng`; `None` when there is none.
    pub fn generate(env: &Env, state: &State, rng: &mut Mcg128Xsl64) -> (n: Option<RemoveActionNeigh>)
        ensures
            n is None <==> state.group_actions@.len() == 0,
            n matches Some(a) ==> a.index < state.group_actions@.len() && a.mv == state.group_actions@[a.index as int],
    {
        if state.group_actions.len() == 0 {
            return None;
        }
        let index = gen_index(rng, 0, state.group_actions.len());
        let mv = state.group_actions[index];
        Some(RemoveActionNeigh { index, mv })
    }

    /// Makes the change.
    pub fn preprocess(&mut self, env: &Env, state: &mut State)
        requires
            old(state).wf(env),
            old(self).index < old(state).group_actions@.len(),
        ensures
            final(state).wf(env),
            final(state)@ == old(self).applied(old(state)@),
            *final(self) == *old(self),
    {
        state.group_actions.remove(self.index);
    }

    /// Keeps the change: nothing is left to do.
    pub fn postprocess(self, env: &Env, state: &mut State)
        ensures
            *final(state) == *old(state),
    {
    }

    /// Takes the change back.
    pub fn rollback(self, env: &Env, state: &mut State)
        requires
            old(state).wf(env),
            self.index <= old(state).group_actions@.len(),
            self.mv.direction < 4,
        ensures
            final(state).wf(env),
            final(state)@ == self.undone(old(state)@),
    {
        state.group_actions.insert(self.index, self.mv);
    }
}

/// Moves robot `index` from group `old_group` to group `new_group`.
#[derive(Clone, Copy, Debug)]
pub struct ChangeGroupNeigh {
    pub index: usize,
    pub old_group: usize,
    pub new_group: usize,
}

impl ChangeGroupNeigh {
    /// The state after the change.
    pub open spec fn applied(&self, v: StateView) -> StateView {
        (v.0, v.1, v.2, v.3.update(self.index as int, self.new_group), v.4)
    }

    /// The state after the change is taken back.
    pub open spec fn undone(&self, v: StateView) -> StateView {
        (v.0, v.1, v.2, v.3.update(self.index as int, self.old_group), v.4)
    }

    /// A robot drawn from `rng` and another group for it, drawn evenly among the other
    /// groups.
    pub fn generate(env: &Env, state: &State, rng: &mut Mcg128Xsl64) -> (n: Option<ChangeGroupNeigh>)
        requires
            env.wf(),
            state.wf(env),
            env.max_group >= 2,
            env.input.robot_count >= 1,
        ensures
            n matches Some(a) && a.index < state.groups@.len() && a.old_group == state.groups@[a.index as int]
                && a.new_group < env.max_group && a.new_group != a.old_group,
    {
        let index = gen_index(rng, 0, state.groups.len());
        let old_group = state.groups[index];
        let r = gen_index(rng, 0, env.max_group - 1);
        let new_group = skip_over(r, old_group);
        Some(ChangeGroupNeigh { index, old_group, new_group })
    }

    /// Makes the change.
    pub fn preprocess(&mut self, env: &Env, state: &mut State)
        requires
            old(state).wf(env),
            old(self).index < old(state).groups@.len(),
            old(self).new_group < env.max_group,
        ensures
            final(state).wf(env),
            final(state)@ == old(self).applied(old(state)@),
            *final(self) == *old(self),
    {
        state.groups.set(self.index, self.new_group);
    }

    /// Keeps the change: nothing is left to do.
    pub fn postprocess(self, env: &Env, state: &mut State)
        ensures
            *final(state) == *old(state),
    {
    }

    /// Takes the change back.
    pub fn rollback(self, env: &Env, state: &mut State)
        requires
            old(state).wf(env),
            self.index < old(state).groups@.len(),
            self.old_group < env.max_group,
        ensures
            final(state).wf(env),
            final(state)@ == self.undone(old(state)@),
    {
        state.groups.set(self.index, self.old_group);
    }
}

/// Exchanges two places of the greedy order.
#[derive(Clone, Copy, Debug)]
pub struct SwapPermNeigh {
    pub index0: usize,
    pub index1: usize,
}

/// The `k`-th value other than `skip`: a draw among `n - 1` values turned into one among
/// the `n` values but `skip`.
pub fn skip_over(k: usize, skip: usize) -> (v: usize)
    requires
        k < usize::MAX,
    ensures
        v == if k >= skip { k + 1 } else { k as int },
{
    if k >= skip {
        k + 1
    } else {
        k
    }
}

/// Two distinct places below `n`, drawn evenly among the ordered pairs: the first, then the
/// second among the other places.
fn draw_pair(rng: &mut Mcg128Xsl64, n: usize) -> (r: (usize, usize))
    requires
        n >= 2,
    ensures
        r.0 < n,
        r.1 < n,
        r.0 != r.1,
{
    let index0 = gen_index(rng, 0, n);
    let k = gen_index(rng, 0, n - 1);
    let index1 = skip_over(k, index0);
    (index0, index1)
}

/// Swapping two entries keeps a permutation a permutation.
pub proof fn lemma_swap_permutation(perm: Seq<usize>, n: nat, i: int, j: int)
    requires
        is_permutation(perm, n),
        0 <= i < perm.len(),
        0 <= j < perm.len(),
    ensures
        is_permutation(swapped(perm, i, j), n),
{
    let s = swapped(perm, i, j);
    assert forall|a: int, b: int| 0 <= a < b < s.len() implies #[trigger] s[a] != #[trigger] s[b] by {
        let pa = if a == j { i } else if a == i { j } else { a };
        let pb = if b == j { i } else if b == i { j } else { b };
        assert(s[a] == perm[pa]);
        assert(s[b] == perm[pb]);
        if pa < pb {
            assert(perm[pa] != perm[pb]);
        } else {
            assert(perm[pb] != perm[pa]);
        }
    }
}

impl SwapPermNeigh {
    /// The state after the change.
    pub open spec fn applied(&self, v: StateView) -> StateView {
        (swapped(v.0, self.index0 as int, self.index1 as int), v.1, v.2, v.3, v.4)
    }

    /// The state after the change is taken back.
    pub open spec fn undone(&self, v: StateView) -> StateView {
        (swapped(v.0, self.index0 as int, self.index1 as int), v.1, v.2, v.3, v.4)
    }

    /// Two distinct places of the order, drawn from `rng`.
    pub fn generate(env: &Env, state: &State, rng: &mut Mcg128Xsl64) -> (n: Option<SwapPermNeigh>)
        requires
            state.perm@.len() >= 2,
        ensures
            n matches Some(a) && a.index0 < state.perm@.len() && a.index1 < state.perm@.len() && a.index0
                != a.index1,
    {
        let (index0, index1) = draw_pair(rng, state.perm.len());
        Some(SwapPermNeigh { index0, index1 })
    }

    /// Makes the change.
    pub fn preprocess(&mut self, env: &Env, state: &mut State)
        requires
            old(state).wf(env),
            old(self).index0 < old(state).perm@.len(),
            old(self).index1 < old(state).perm@.len(),
        ensures
            final(state).wf(env),
            final(state)@ == old(self).applied(old(state)@),
            *final(self) == *old(self),
    {
        proof {
            lemma_swap_permutation(state.perm@, env.input.robot_count as nat, self.index0 as int, self.index1 as int);
        }
        swap_entries(&mut state.perm, self.index0, self.index1);
    }

    /// Keeps the change: nothing is left to do.
    pub fn postprocess(self, env: &Env, state: &mut State)
        ensures
            *final(state) == *old(state),
    {
    }

    /// Takes the change back.
    pub fn rollback(self, env: &Env, state: &mut State)
        requires
            old(state).wf(env),
            self.index0 < old(state).perm@.len(),
            self.index1 < old(state).perm@.len(),
        ensures
            final(state).wf(env),
            final(state)@ == self.undone(old(state)@),
    {
        proof {
            lemma_swap_permutation(state.perm@, env.input.robot_count as nat, self.index0 as int, self.index1 as int);
        }
        swap_entries(&mut state.perm, self.index0, self.index1);
    }
}

/// Puts a wall next to cell `coord`: on its right side when `is_vertical`, below it
/// otherwise; taking it away again is the same flip.
#[derive(Clone, Copy, Debug)]
pub struct ToggleWall {
    pub coord: Coord,
    pub is_vertical: bool,
}

/// Some place where a wall could be put holds none: right of a cell left of the last column,
/// or below a cell above the last row.
pub open spec fn free_place_exists(wall_v: Map2d<bool>, wall_h: Map2d<bool>) -> bool {
    ||| exists|c: Coord| c.valid() && c.col < MAP_SIZE - 1 && !#[trigger] wall_v.at_coord(c)
    ||| exists|c: Coord| c.valid() && c.row < MAP_SIZE - 1 && !#[trigger] wall_h.at_coord(c)
}

impl ToggleWall {
    /// The state after the change.
    pub open spec fn applied(&self, v: StateView) -> StateView {
        if self.is_vertical {
            (v.0, toggled(v.1, self.coord), v.2, v.3, v.4)
        } else {
            (v.0, v.1, toggled(v.2, self.coord), v.3, v.4)
        }
    }

    /// The state after the change is taken back.
    pub open spec fn undone(&self, v: StateView) -> StateView {
        self.applied(v)
    }

    /// A wall place drawn from `rng` where no wall stands yet: each draw picks a vertical
    /// place (a column left of the last) or a horizontal one (a row above the last) with even
    /// chance, and draws are repeated until the place is free. After `u64::MAX` draws that all
    /// hit walls, the places are gone through in order, vertical ones first. `None` exactly
    /// when every place holds a wall.
    pub fn generate(env: &Env, state: &State, rng: &mut Mcg128Xsl64) -> (n: Option<ToggleWall>)
        requires
            state.wall_v.wf(),
            state.wall_h.wf(),
        ensures
            n matches Some(t) ==> t.coord.valid() && (if t.is_vertical {
                t.coord.col < MAP_SIZE - 1 && !state.wall_v.at_coord(t.coord)
            } else {
                t.coord.row < MAP_SIZE - 1 && !state.wall_h.at_coord(t.coord)
            }),
            n is Some <==> free_place_exists(state.wall_v, state.wall_h),
    {
        let mut draws: u64 = 0;
        while draws < u64::MAX
            invariant
                state.wall_v.wf(),
                state.wall_h.wf(),
            decreases u64::MAX - draws,
        {
            draws += 1;
            if gen_index(rng, 0, 2) == 1 {
                let row = gen_index(rng, 0, MAP_SIZE);
                let col = gen_index(rng, 0, MAP_SIZE - 1);
                let c = Coord::new(row, col);
                if !*state.wall_v.get(c) {
                    return Some(ToggleWall { coord: c, is_vertical: true });
                }
            } else {
                let row = gen_index(rng, 0, MAP_SIZE - 1);
                let col = gen_index(rng, 0, MAP_SIZE);
                let c = Coord::new(row, col);
                if !*state.wall_h.get(c) {
                    return Some(ToggleWall { coord: c, is_vertical: false });
                }
            }
        }
        let mut row: usize = 0;
        while row < MAP_SIZE
            invariant
                state.wall_v.wf(),
                row <= MAP_SIZE,
                forall|c: Coord| c.valid() && c.col < MAP_SIZE - 1 && c.row < row ==> #[trigger] state.wall_v.at_coord(c),
            decreases MAP_SIZE - row,
        {
            let mut col: usize = 0;
            while col < MAP_SIZE - 1
                invariant
                    state.wall_v.wf(),
                    row < MAP_SIZE,
                    col <= MAP_SIZE - 1,
                    forall|c: Coord|
                        c.valid() && c.col < MAP_SIZE - 1 && (c.row < row || (c.row == row && c.col < col))
                            ==> #[trigger] state.wall_v.at_coord(c),
                decreases MAP_SIZE - 1 - col,
            {
                let c = Coord::new(row, col);
                if !*state.wall_v.get(c) {
                    return Some(ToggleWall { coord: c, is_vertical: true });
                }
                col += 1;
            }
            row += 1;
        }
        let mut row: usize = 0;
        while row < MAP_SIZE - 1
            invariant
                state.wall_h.wf(),
                row <= MAP_SIZE - 1,
                forall|c: Coord| c.valid() && c.col < MAP_SIZE - 1 ==> #[trigger] state.wall_v.at_coord(c),
                forall|c: Coord| c.valid() && c.row < row ==> #[trigger] state.wall_h.at_coord(c),
            decreases MAP_SIZE - 1 - row,
        {
            let mut col: usize = 0;
            while col < MAP_SIZE
                invariant
                    state.wall_h.wf(),
                    row < MAP_SIZE - 1,
                    col <= MAP_SIZE,
                    forall|c: Coord| c.valid() && c.col < MAP_SIZE - 1 ==> #[trigger] state.wall_v.at_coord(c),
                    forall|c: Coord| c.valid() && (c.row < row || (c.row == row && c.col < col)) ==> #[trigger] state.wall_h.at_coord(c),
                decreases MAP_SIZE - col,
            {
                let c = Coord::new(row, col);
                if !*state.wall_h.get(c) {
                    return Some(ToggleWall { coord: c, is_vertical: false });
                }
                col += 1;
            }
            row += 1;
        }
        None
    }

    fn flip(&self, state: &mut State)
        requires
            old(state).wall_v.wf(),
            old(state).wall_h.wf(),
            self.coord.valid(),
        ensures
            final(state)@ == self.applied(old(state)@),
            final(state).wall_v.wf(),
            final(state).wall_h.wf(),
            final(state).perm == old(state).perm,
            final(state).groups == old(state).groups,
            final(state).group_actions == old(state).group_actions,
    {
        if self.is_vertical {
            let w = *state.wall_v.get(self.coord);
            state.wall_v.set(self.coord, !w);
        } else {
            let w = *state.wall_h.get(self.coord);
            state.wall_h.set(self.coord, !w);
        }
    }

    /// Makes the change.
    pub fn preprocess(&mut self, env: &Env, state: &mut State)
        requires
            old(state).wf(env),
            old(self).coord.valid(),
        ensures
            final(state).wf(env),
            final(state)@ == old(self).applied(old(state)@),
            *final(self) == *old(self),
    {
        self.flip(state);
    }

    /// Keeps the change: nothing is left to do.
    pub fn postprocess(self, env: &Env, state: &mut State)
        ensures
            *final(state) == *old(state),
    {
    }

    /// Takes the change back.
    pub fn rollback(self, env: &Env, state: &mut State)
        requires
            old(state).wf(env),
            self.coord.valid(),
        ensures
            final(state).wf(env),
            final(state)@ == self.undone(old(state)@),
    {
        self.flip(state);
    }
}

/// Exchanges two group moves.
#[derive(Clone, Copy, Debug)]
pub struct SwapActionOrderNeigh {
    pub index0: usize,
    pub index1: usize,
}

impl SwapActionOrderNeigh {
    /// The state after the change.
    pub open spec fn applied(&self, v: StateView) -> StateView {
        (v.0, v.1, v.2, v.3, swapped(v.4, self.index0 as int, self.index1 as int))
    }

    /// The state after the change is taken back.
    pub open spec fn undone(&self, v: StateView) -> StateView {
        (v.0, v.1, v.2, v.3, swapped(v.4, self.index0 as int, self.index1 as int))
    }

    /// Two distinct group moves drawn from `rng`; `None` when there are fewer than two.
    pub fn generate(env: &Env, state: &State, rng: &mut Mcg128Xsl64) -> (n: Option<SwapActionOrderNeigh>)
        ensures
            n is None <==> state.group_actions@.len() < 2,
            n matches Some(a) ==> a.index0 < state.group_actions@.len() && a.index1 < state.group_actions@.len()
                && a.index0 != a.index1,
    {
        if state.group_actions.len() < 2 {
            return None;
        }
        let (index0, index1) = draw_pair(rng, state.group_actions.len());
        Some(SwapActionOrderNeigh { index0, index1 })
    }

    /// Makes the change.
    pub fn preprocess(&mut self, env: &Env, state: &mut State)
        requires
            old(state).wf(env),
            old(self).index0 < old(state).group_actions@.len(),
            old(self).index1 < old(state).group_actions@.len(),
        ensures
            final(state).wf(env),
            final(state)@ == old(self).applied(old(state)@),
            *final(self) == *old(self),
    {
        swap_entries(&mut state.group_actions, self.index0, self.index1);
    }

    /// Keeps the change: nothing is left to do.
    pub fn postprocess(self, env: &Env, state: &mut State)
        ensures
            *final(state) == *old(state),
    {
    }

    /// Takes the change back.
    pub fn rollback(self, env: &Env, state: &mut State)
        requires
            old(state).wf(env),
            self.index0 < old(state).group_actions@.len(),
            self.index1 < old(state).group_actions@.len(),
        ensures
            final(state).wf(env),
            final(state)@ == self.undone(old(state)@),
    {
        swap_entries(&mut state.group_actions, self.index0, self.index1);
    }
}

/// One change of a state that the search tries.
#[derive(Clone, Copy, Debug)]
pub enum Neighbor {
    AddAction(AddActionNeigh),
    RemoveAction(RemoveActionNeigh),
    ChangeGroup(ChangeGroupNeigh),
    SwapPerm(SwapPermNeigh),
    ToggleWall(ToggleWall),
    SwapActionOrder(SwapActionOrderNeigh),
}

/// What a change of kind `kind` drawn for the state `v` with `max_group` groups is: 0 adds a
/// group move at a place `0..=len`, of a group below `max_group`, in one of the four
/// directions; 1 removes a group move, and is `None` exactly when there is none; 2 moves a
/// robot to another group below `max_group`; 3 exchanges two distinct places of the order; 4
/// exchanges two distinct group moves, and is `None` exactly when there are fewer than two.
pub open spec fn kind_result(n: Option<Neighbor>, kind: int, v: StateView, max_group: usize) -> bool {
    if kind == 0 {
        n matches Some(Neighbor::AddAction(a)) && a.index <= v.4.len() && a.mv.index < max_group && a.mv.direction < 4
    } else if kind == 1 {
        if v.4.len() == 0 {
            n is None
        } else {
            n matches Some(Neighbor::RemoveAction(a)) && a.index < v.4.len() && a.mv == v.4[a.index as int]
        }
    } else if kind == 2 {
        n matches Some(Neighbor::ChangeGroup(c)) && c.index < v.3.len() && c.old_group == v.3[c.index as int]
            && c.new_group < max_group && c.new_group != c.old_group
    } else if kind == 3 {
        n matches Some(Neighbor::SwapPerm(p)) && p.index0 < v.0.len() && p.index1 < v.0.len() && p.index0 != p.index1
    } else {
        if v.4.len() < 2 {
            n is None
        } else {
            n matches Some(Neighbor::SwapActionOrder(p)) && p.index0 < v.4.len() && p.index1 < v.4.len() && p.index0
                != p.index1
        }
    }
}

impl Neighbor {
    /// The state after the change.
    pub open spec fn applied(&self, v: StateView) -> StateView {
        match *self {
            Neighbor::AddAction(a) => a.applied(v),
            Neighbor::RemoveAction(a) => a.applied(v),
            Neighbor::ChangeGroup(a) => a.applied(v),
            Neighbor::SwapPerm(a) => a.applied(v),
            Neighbor::ToggleWall(a) => a.applied(v),
            Neighbor::SwapActionOrder(a) => a.applied(v),
        }
    }

    /// The state after the change is taken back.
    pub open spec fn undone(&self, v: StateView) -> StateView {
        match *self {
            Neighbor::AddAction(a) => a.undone(v),
            Neighbor::RemoveAction(a) => a.undone(v),
            Neighbor::ChangeGroup(a) => a.undone(v),
            Neighbor::SwapPerm(a) => a.undone(v),
            Neighbor::ToggleWall(a) => a.undone(v),
            Neighbor::SwapActionOrder(a) => a.undone(v),
        }
    }

    /// The change can be made to a state `v` with `max_group` groups.
    pub open spec fn fits(&self, v: StateView, max_group: usize) -> bool {
        match *self {
            Neighbor::AddAction(a) => a.index <= v.4.len() && a.mv.direction < 4,
            Neighbor::RemoveAction(a) => a.index < v.4.len() && a.mv == v.4[a.index as int] && a.mv.direction < 4,
            Neighbor::ChangeGroup(a) => a.index < v.3.len() && a.old_group == v.3[a.index as int] && a.old_group
                < max_group && a.new_group < max_group,
            Neighbor::SwapPerm(a) => a.index0 < v.0.len() && a.index1 < v.0.len(),
            Neighbor::ToggleWall(a) => a.coord.valid() && v.1.len() == CELL_COUNT && v.2.len() == CELL_COUNT,
            Neighbor::SwapActionOrder(a) => a.index0 < v.4.len() && a.index1 < v.4.len(),
        }
    }

    /// The change can be taken back from a state `v` with `max_group` groups.
    pub open spec fn fits_back(&self, v: StateView, max_group: usize) -> bool {
        match *self {
            Neighbor::AddAction(a) => a.index < v.4.len(),
            Neighbor::RemoveAction(a) => a.index <= v.4.len() && a.mv.direction < 4,
            Neighbor::ChangeGroup(a) => a.index < v.3.len() && a.old_group < max_group,
            Neighbor::SwapPerm(a) => a.index0 < v.0.len() && a.index1 < v.0.len(),
            Neighbor::ToggleWall(a) => a.coord.valid() && v.1.len() == CELL_COUNT && v.2.len() == CELL_COUNT,
            Neighbor::SwapActionOrder(a) => a.index0 < v.4.len() && a.index1 < v.4.len(),
        }
    }

    /// A change of kind `kind` drawn from `rng`: 0 adds a group move, 1 removes one, 2
    /// changes a robot's group, 3 exchanges two places of the order, 4 exchanges two group
    /// moves. `None` when the kind has nothing to work on.
    pub fn of_kind(kind: usize, env: &Env, state: &State, rng: &mut Mcg128Xsl64) -> (n: Option<Neighbor>)
        requires
            kind < 5,
            env.wf(),
            state.wf(env),
            env.max_group >= 2,
            env.input.robot_count >= 2,
        ensures
            kind_result(n, kind as int, state@, env.max_group),
            n matches Some(x) ==> x.fits(state@, env.max_group),
    {
        if kind == 0 {
            match AddActionNeigh::generate(env, state, rng) {
                Some(a) => Some(Neighbor::AddAction(a)),
                None => None,
            }
        } else if kind == 1 {
            match RemoveActionNeigh::generate(env, state, rng) {
                Some(a) => {
                    assert(state.group_actions@[a.index as int].direction < 4);
                    Some(Neighbor::RemoveAction(a))
                },
                None => None,
            }
        } else if kind == 2 {
            match ChangeGroupNeigh::generate(env, state, rng) {
                Some(a) => {
                    assert(state.groups@[a.index as int] < env.max_group);
                    Some(Neighbor::ChangeGroup(a))
                },
                None => None,
            }
        } else if kind == 3 {
            match SwapPermNeigh::generate(env, state, rng) {
                Some(a) => Some(Neighbor::SwapPerm(a)),
                None => None,
            }
        } else {
            match SwapActionOrderNeigh::generate(env, state, rng) {
                Some(a) => Some(Neighbor::SwapActionOrder(a)),
                None => None,
            }
        }
    }

    /// A change drawn from `rng`: its kind is drawn among the five with even chance, then the
    /// change of that kind (`of_kind`).
    pub fn generate(env: &Env, state: &State, rng: &mut Mcg128Xsl64) -> (n: Option<Neighbor>)
        requires
            env.wf(),
            state.wf(env),
            env.max_group >= 2,
            env.input.robot_count >= 2,
        ensures
            exists|kind: int| 0 <= kind < 5 && #[trigger] kind_result(n, kind, state@, env.max_group),
            n matches Some(x) ==> x.fits(state@, env.max_group),
            state.group_actions@.len() >= 2 ==> n is Some,
    {
        let kind = gen_index(rng, 0, 5);
        let n = Neighbor::of_kind(kind, env, state, rng);
        assert(kind_result(n, kind as int, state@, env.max_group));
        n
    }

    /// Makes the change.
    pub fn preprocess(&mut self, env: &Env, state: &mut State)
        requires
            old(state).wf(env),
            old(self).fits(old(state)@, env.max_group),
        ensures
            final(state).wf(env),
            final(state)@ == old(self).applied(old(state)@),
            *final(self) == *old(self),
    {
        match self {
            Neighbor::AddAction(a) => a.preprocess(env, state),
            Neighbor::RemoveAction(a) => a.preprocess(env, state),
            Neighbor::ChangeGroup(a) => a.preprocess(env, state),
            Neighbor::SwapPerm(a) => a.preprocess(env, state),
            Neighbor::ToggleWall(a) => a.preprocess(env, state),
            Neighbor::SwapActionOrder(a) => a.preprocess(env, state),
        }
    }

    /// Keeps the change.
    pub fn postprocess(self, env: &Env, state: &mut State)
        ensures
            *final(state) == *old(state),
    {
        match self {
            Neighbor::AddAction(a) => a.postprocess(env, state),
            Neighbor::RemoveAction(a) => a.postprocess(env, state),
            Neighbor::ChangeGroup(a) => a.postprocess(env, state),
            Neighbor::SwapPerm(a) => a.postprocess(env, state),
            Neighbor::ToggleWall(a) => a.postprocess(env, state),
            Neighbor::SwapActionOrder(a) => a.postprocess(env, state),
        }
    }

    /// Takes the change back.
    pub fn rollback(self, env: &Env, state: &mut State)
        requires
            old(state).wf(env),
            self.fits_back(old(state)@, env.max_group),
        ensures
            final(state).wf(env),
            final(state)@ == self.undone(old(state)@),
    {
        match self {
            Neighbor::AddAction(a) => a.rollback(env, state),
            Neighbor::RemoveAction(a) => a.rollback(env, state),
            Neighbor::ChangeGroup(a) => a.rollback(env, state),
            Neighbor::SwapPerm(a) => a.rollback(env, state),
            Neighbor::ToggleWall(a) => a.rollback(env, state),
            Neighbor::SwapActionOrder(a) => a.rollback(env, state),
        }
    }
}

/// Taking a change back right after making it gives back the state it was made to, and a
/// change that could be made can then be taken back.
pub proof fn law_rollback_restores(v: StateView, n: Neighbor, max_group: usize)
    requires
        n.fits(v, max_group),
    ensures
        n.fits_back(n.applied(v), max_group),
        n.undone(n.applied(v)) == v,
{
    match n {
        Neighbor::AddAction(a) => {
            assert(v.4.insert(a.index as int, a.mv).remove(a.index as int) =~= v.4);
        },
        Neighbor::RemoveAction(a) => {
            assert(v.4.remove(a.index as int).insert(a.index as int, a.mv) =~= v.4);
        },
        Neighbor::ChangeGroup(a) => {
            assert(v.3.update(a.index as int, a.new_group).update(a.index as int, a.old_group) =~= v.3);
        },
        Neighbor::SwapPerm(a) => {
            assert(swapped(swapped(v.0, a.index0 as int, a.index1 as int), a.index0 as int, a.index1 as int) =~= v.0);
        },
        Neighbor::ToggleWall(a) => {
            assert(toggled(toggled(v.1, a.coord), a.coord) =~= v.1);
            assert(toggled(toggled(v.2, a.coord), a.coord) =~= v.2);
        },
        Neighbor::SwapActionOrder(a) => {
            assert(swapped(swapped(v.4, a.index0 as int, a.index1 as int), a.index0 as int, a.index1 as int) =~= v.4);
        },
    }
}

/// Adding a group move puts `mv` at place `index`, keeps the moves before it, shifts the
/// moves after it one place on, and leaves the rest of the state as it was; taking it back
/// drops the move at `index` again.
pub proof fn law_add_action_effect(a: AddActionNeigh, v: StateView)
    requires
        a.index <= v.4.len(),
    ensures
        a.applied(v).4.len() == v.4.len() + 1,
        a.applied(v).4[a.index as int] == a.mv,
        forall|t: int| 0 <= t < a.index ==> #[trigger] a.applied(v).4[t] == v.4[t],
        forall|t: int| a.index < t <= v.4.len() ==> #[trigger] a.applied(v).4[t] == v.4[t - 1],
        a.applied(v).0 == v.0 && a.applied(v).1 == v.1 && a.applied(v).2 == v.2 && a.applied(v).3 == v.3,
        a.undone(a.applied(v)) == v,
{
    assert(a.applied(v).4.remove(a.index as int) =~= v.4);
}

/// Removing a group move drops the move at `index`, keeps the moves before it, shifts the
/// moves after it one place back, and leaves the rest of the state as it was.
pub proof fn law_remove_action_effect(a: RemoveActionNeigh, v: StateView)
    requires
        a.index < v.4.len(),
        a.mv == v.4[a.index as int],
    ensures
        a.applied(v).4.len() == v.4.len() - 1,
        forall|t: int| 0 <= t < a.index ==> #[trigger] a.applied(v).4[t] == v.4[t],
        forall|t: int| a.index <= t < v.4.len() - 1 ==> #[trigger] a.applied(v).4[t] == v.4[t + 1],
        a.applied(v).0 == v.0 && a.applied(v).1 == v.1 && a.applied(v).2 == v.2 && a.applied(v).3 == v.3,
        a.undone(a.applied(v)) == v,
{
    assert(a.applied(v).4.insert(a.index as int, a.mv) =~= v.4);
}

/// Changing a robot's group puts robot `index` in `new_group`, which differs from the group
/// it was in, and leaves every other robot's group and the rest of the state as they were;
/// taking it back puts the robot in `old_group` again.
pub proof fn law_change_group_effect(a: ChangeGroupNeigh, v: StateView)
    requires
        a.index < v.3.len(),
        a.old_group == v.3[a.index as int],
        a.new_group != a.old_group,
    ensures
        a.applied(v).3.len() == v.3.len(),
        a.applied(v).3[a.index as int] == a.new_group,
        a.applied(v).3 != v.3,
        forall|r: int| 0 <= r < v.3.len() && r != a.index ==> #[trigger] a.applied(v).3[r] == v.3[r],
        a.applied(v).0 == v.0 && a.applied(v).1 == v.1 && a.applied(v).2 == v.2 && a.applied(v).4 == v.4,
        a.undone(a.applied(v)) == v,
{
    assert(a.applied(v).3[a.index as int] != v.3[a.index as int]);
    assert(a.applied(v).3.update(a.index as int, a.old_group) =~= v.3);
}

/// Exchanging two places of the order puts each of the two entries at the other's place and
/// leaves the other entries and the rest of the state as they were; doing it again undoes it.
pub proof fn law_swap_perm_effect(a: SwapPermNeigh, v: StateView)
    requires
        a.index0 < v.0.len(),
        a.index1 < v.0.len(),
    ensures
        a.applied(v).0.len() == v.0.len(),
        a.applied(v).0[a.index0 as int] == v.0[a.index1 as int],
        a.applied(v).0[a.index1 as int] == v.0[a.index0 as int],
        forall|t: int| 0 <= t < v.0.len() && t != a.index0 && t != a.index1 ==> #[trigger] a.applied(v).0[t] == v.0[t],
        a.applied(v).1 == v.1 && a.applied(v).2 == v.2 && a.applied(v).3 == v.3 && a.applied(v).4 == v.4,
        a.undone(a.applied(v)) == v,
{
    assert(swapped(swapped(v.0, a.index0 as int, a.index1 as int), a.index0 as int, a.index1 as int) =~= v.0);
}

/// Exchanging two group moves puts each of the two moves at the other's place and leaves
/// the other moves and the rest of the state as they were; doing it again undoes it.
pub proof fn law_swap_action_order_effect(a: SwapActionOrderNeigh, v: StateView)
    requires
        a.index0 < v.4.len(),
        a.index1 < v.4.len(),
    ensures
        a.applied(v).4.len() == v.4.len(),
        a.applied(v).4[a.index0 as int] == v.4[a.index1 as int],
        a.applied(v).4[a.index1 as int] == v.4[a.index0 as int],
        forall|t: int| 0 <= t < v.4.len() && t != a.index0 && t != a.index1 ==> #[trigger] a.applied(v).4[t] == v.4[t],
        a.applied(v).0 == v.0 && a.applied(v).1 == v.1 && a.applied(v).2 == v.2 && a.applied(v).3 == v.3,
        a.undone(a.applied(v)) == v,
{
    assert(swapped(swapped(v.4, a.index0 as int, a.index1 as int), a.index0 as int, a.index1 as int) =~= v.4);
}

/// Toggling a wall flips the wall of its place on its board (vertical or horizontal) and
/// leaves every other place and the rest of the state as they were; doing it again undoes it.
pub proof fn law_toggle_wall_effect(a: ToggleWall, v: StateView)
    requires
        a.coord.valid(),
        v.1.len() == CELL_COUNT,
        v.2.len() == CELL_COUNT,
    ensures
        a.is_vertical ==> a.applied(v).1[a.coord.index_of()] == !v.1[a.coord.index_of()] && a.applied(v).2 == v.2,
        !a.is_vertical ==> a.applied(v).2[a.coord.index_of()] == !v.2[a.coord.index_of()] && a.applied(v).1 == v.1,
        a.applied(v).1.len() == CELL_COUNT && a.applied(v).2.len() == CELL_COUNT,
        forall|t: int| 0 <= t < CELL_COUNT && t != a.coord.index_of() ==> #[trigger] a.applied(v).1[t] == v.1[t] && a.applied(v).2[t] == v.2[t],
        a.applied(v).0 == v.0 && a.applied(v).3 == v.3 && a.applied(v).4 == v.4,
        a.undone(a.applied(v)) == v,
{
    assert(0 <= a.coord.index_of() < CELL_COUNT);
    if a.is_vertical {
        assert(toggled(toggled(v.1, a.coord), a.coord) =~= v.1);
    } else {
        assert(toggled(toggled(v.2, a.coord), a.coord) =~= v.2);
    }
}

} // verus!
