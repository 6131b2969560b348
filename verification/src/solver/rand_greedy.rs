use vstd::prelude::*;

use crate::grid::{Coord, D, L, R, U};
use crate::grid::Map2d;
use crate::generator::occurrences;
use crate::problem::{lemma_robots_step_congruent, neighbor, robot_step, robots_step, Action, Input, Move, Output};
use crate::sorting::insert_by;
use crate::rng::{gen_index, gen_index_inclusive};
use crate::sorting::{key_of, lemma_sort_by_congruent, sort_by, sort_by_keys};
use crate::tools::members_below;
use rand_pcg::Mcg128Xsl64;

verus! {

/// The order of a group move in direction `dir`: the robots in front move first
/// (up: top row first; right: right column first; down: bottom row first; left: left column first).
pub open spec fn front_key(pos: Seq<Coord>, dir: int) -> spec_fn(usize) -> int {
    |i: usize|
        if dir == U as int {
            pos[i as int].row as int
        } else if dir == R as int {
            -(pos[i as int].col as int)
        } else if dir == D as int {
            -(pos[i as int].row as int)
        } else {
            pos[i as int].col as int
        }
}

/// The robots of group `group_id`, front first.
pub open spec fn group_order(pos: Seq<Coord>, groups: Seq<usize>, group_id: usize, dir: int) -> Seq<usize> {
    sort_by(members_below(groups, group_id, pos.len()), front_key(pos, dir))
}

/// The positions after every robot of group `group_id` tries one move in direction `dir`,
/// front first.
pub open spec fn group_step(
    walls_v: Map2d<bool>,
    walls_h: Map2d<bool>,
    pos: Seq<Coord>,
    groups: Seq<usize>,
    group_id: usize,
    dir: int,
) -> Seq<Coord> {
    robots_step(walls_v, walls_h, pos, group_order(pos, groups, group_id, dir), dir)
}

proof fn lemma_insert_by_occurrences(sorted: Seq<usize>, x: usize, key: spec_fn(usize) -> int, y: usize)
    ensures
        occurrences(insert_by(sorted, x, key), y) == occurrences(sorted, y) + if x == y { 1nat } else { 0nat },
    decreases sorted.len(),
{
    let r = insert_by(sorted, x, key);
    if sorted.len() == 0 {
        assert(r.drop_last() =~= sorted);
    } else if key(sorted.last()) <= key(x) {
        assert(r.drop_last() =~= sorted);
    } else {
        lemma_insert_by_occurrences(sorted.drop_last(), x, key, y);
        assert(r.drop_last() =~= insert_by(sorted.drop_last(), x, key));
    }
}

proof fn lemma_sort_by_occurrences(rs: Seq<usize>, key: spec_fn(usize) -> int, y: usize)
    ensures
        occurrences(sort_by(rs, key), y) == occurrences(rs, y),
    decreases rs.len(),
{
    if rs.len() > 0 {
        lemma_sort_by_occurrences(rs.drop_last(), key, y);
        lemma_insert_by_occurrences(sort_by(rs.drop_last(), key), rs.last(), key, y);
    }
}

proof fn lemma_members_occurrences(groups: Seq<usize>, g: usize, n: nat, y: usize)
    requires
        n <= usize::MAX,
    ensures
        occurrences(members_below(groups, g, n), y) == if y < n && groups[y as int] == g { 1nat } else { 0nat },
    decreases n,
{
    if n > 0 {
        lemma_members_occurrences(groups, g, (n - 1) as nat, y);
        let m = members_below(groups, g, (n - 1) as nat);
        assert(((n - 1) as usize) as int == n - 1);
        if groups[n - 1] == g {
            assert(m.push((n - 1) as usize).drop_last() =~= m);
        }
    }
}

proof fn lemma_robots_step_moves(walls_v: Map2d<bool>, walls_h: Map2d<bool>, pos: Seq<Coord>, order: Seq<usize>, dir: int, i: int)
    requires
        0 <= i < pos.len(),
        forall|k: int| 0 <= k < order.len() ==> #[trigger] order[k] < pos.len(),
    ensures
        robots_step(walls_v, walls_h, pos, order, dir).len() == pos.len(),
        occurrences(order, i as usize) == 0 ==> robots_step(walls_v, walls_h, pos, order, dir)[i] == pos[i],
        occurrences(order, i as usize) == 1 ==> robots_step(walls_v, walls_h, pos, order, dir)[i] == pos[i] || neighbor(
            walls_v,
            walls_h,
            pos[i].row as int,
            pos[i].col as int,
            dir,
        ) == Some(robots_step(walls_v, walls_h, pos, order, dir)[i]),
    decreases order.len(),
{
    if order.len() > 0 {
        let rest = order.drop_last();
        let last = order.last();
        assert(last == order[order.len() - 1]);
        lemma_robots_step_moves(walls_v, walls_h, pos, rest, dir, i);
        let q = robots_step(walls_v, walls_h, pos, rest, dir);
        let q2 = robot_step(walls_v, walls_h, q, last as int, dir);
        if last as int != i {
            assert(q2[i] == q[i]);
        }
    }
}

/// A group move leaves every robot outside the group where it stands, and moves each robot of
/// the group at most one cell: to the neighbouring cell in the move's direction, where no wall
/// stands between.
pub proof fn law_group_step_moves_members(
    walls_v: Map2d<bool>,
    walls_h: Map2d<bool>,
    pos: Seq<Coord>,
    groups: Seq<usize>,
    group_id: usize,
    dir: int,
)
    requires
        groups.len() >= pos.len(),
        pos.len() <= usize::MAX,
    ensures
        group_step(walls_v, walls_h, pos, groups, group_id, dir).len() == pos.len(),
        forall|i: int| 0 <= i < pos.len() && groups[i] != group_id ==> #[trigger] group_step(walls_v, walls_h, pos, groups, group_id, dir)[i] == pos[i],
        forall|i: int|
            0 <= i < pos.len() && groups[i] == group_id ==> #[trigger] group_step(walls_v, walls_h, pos, groups, group_id, dir)[i] == pos[i]
                || neighbor(walls_v, walls_h, pos[i].row as int, pos[i].col as int, dir) == Some(
                group_step(walls_v, walls_h, pos, groups, group_id, dir)[i],
            ),
{
    let ms = members_below(groups, group_id, pos.len());
    let order = group_order(pos, groups, group_id, dir);
    lemma_members_below_bound(groups, group_id, pos.len());
    lemma_sort_by_congruent(ms, front_key(pos, dir), front_key(pos, dir), pos.len());
    if pos.len() == 0 {
        assert(ms.len() == 0);
        assert(order.len() == 0);
    } else {
        lemma_robots_step_moves(walls_v, walls_h, pos, order, dir, 0);
    }
    assert forall|i: int| 0 <= i < pos.len() implies {
        &&& group_step(walls_v, walls_h, pos, groups, group_id, dir).len() == pos.len()
        &&& (groups[i] != group_id ==> #[trigger] group_step(walls_v, walls_h, pos, groups, group_id, dir)[i] == pos[i])
        &&& (groups[i] == group_id ==> group_step(walls_v, walls_h, pos, groups, group_id, dir)[i] == pos[i] || neighbor(
            walls_v,
            walls_h,
            pos[i].row as int,
            pos[i].col as int,
            dir,
        ) == Some(group_step(walls_v, walls_h, pos, groups, group_id, dir)[i]))
    } by {
        lemma_members_occurrences(groups, group_id, pos.len(), i as usize);
        lemma_sort_by_occurrences(ms, front_key(pos, dir), i as usize);
        lemma_robots_step_moves(walls_v, walls_h, pos, order, dir, i);
    }
}

/// The positions after the group moves `moves`, one after another.
pub open spec fn run_group_moves(
    walls_v: Map2d<bool>,
    walls_h: Map2d<bool>,
    pos: Seq<Coord>,
    groups: Seq<usize>,
    moves: Seq<Move>,
) -> Seq<Coord>
    decreases moves.len(),
{
    if moves.len() == 0 {
        pos
    } else {
        group_step(
            walls_v,
            walls_h,
            run_group_moves(walls_v, walls_h, pos, groups, moves.drop_last()),
            groups,
            moves.last().index,
            moves.last().direction as int,
        )
    }
}

/// Group moves end the same on two boards whose walls hold the same values.
pub proof fn lemma_run_group_moves_congruent(
    wv1: Map2d<bool>,
    wh1: Map2d<bool>,
    wv2: Map2d<bool>,
    wh2: Map2d<bool>,
    pos: Seq<Coord>,
    groups: Seq<usize>,
    moves: Seq<Move>,
)
    requires
        wv1.map@ == wv2.map@,
        wh1.map@ == wh2.map@,
    ensures
        run_group_moves(wv1, wh1, pos, groups, moves) == run_group_moves(wv2, wh2, pos, groups, moves),
    decreases moves.len(),
{
    if moves.len() > 0 {
        lemma_run_group_moves_congruent(wv1, wh1, wv2, wh2, pos, groups, moves.drop_last());
        let p = run_group_moves(wv1, wh1, pos, groups, moves.drop_last());
        let m = moves.last();
        lemma_robots_step_congruent(wv1, wh1, wv2, wh2, p, group_order(p, groups, m.index, m.direction as int), m.direction as int);
    }
}

/// The group moves of `moves` whose group has a robot below `n`.
pub open spec fn kept_moves(groups: Seq<usize>, moves: Seq<Move>, n: nat) -> Seq<Move>
    decreases moves.len(),
{
    if moves.len() == 0 {
        seq![]
    } else {
        let k = kept_moves(groups, moves.drop_last(), n);
        if has_member(groups, moves.last().index, n) {
            k.push(moves.last())
        } else {
            k
        }
    }
}

/// Robots moved one after another stay as many.
pub proof fn lemma_robots_step_len(wv: Map2d<bool>, wh: Map2d<bool>, pos: Seq<Coord>, order: Seq<usize>, dir: int)
    requires
        forall|k: int| 0 <= k < order.len() ==> #[trigger] order[k] < pos.len(),
    ensures
        robots_step(wv, wh, pos, order, dir).len() == pos.len(),
    decreases order.len(),
{
    if order.len() > 0 {
        lemma_robots_step_len(wv, wh, pos, order.drop_last(), dir);
        assert(order.last() == order[order.len() - 1]);
    }
}

/// Group moves keep the number of robots.
pub proof fn lemma_run_group_moves_len(wv: Map2d<bool>, wh: Map2d<bool>, pos: Seq<Coord>, groups: Seq<usize>, moves: Seq<Move>)
    ensures
        run_group_moves(wv, wh, pos, groups, moves).len() == pos.len(),
    decreases moves.len(),
{
    if moves.len() > 0 {
        lemma_run_group_moves_len(wv, wh, pos, groups, moves.drop_last());
        let p = run_group_moves(wv, wh, pos, groups, moves.drop_last());
        let m = moves.last();
        let key = front_key(p, m.direction as int);
        lemma_members_below_bound(groups, m.index, p.len());
        lemma_sort_by_congruent(members_below(groups, m.index, p.len()), key, key, p.len());
        lemma_robots_step_len(wv, wh, p, group_order(p, groups, m.index, m.direction as int), m.direction as int);
    }
}

/// Moves of groups without robots change nothing: the kept moves, as actions, are the kept
/// group actions, and they end where all the moves do.
pub proof fn lemma_kept_moves(wv: Map2d<bool>, wh: Map2d<bool>, pos: Seq<Coord>, groups: Seq<usize>, moves: Seq<Move>)
    ensures
        kept_group_actions(groups, moves, pos.len()) == kept_moves(groups, moves, pos.len()).map_values(
            |m: Move| Action::Group(m),
        ),
        run_group_moves(wv, wh, pos, groups, moves) == run_group_moves(
            wv,
            wh,
            pos,
            groups,
            kept_moves(groups, moves, pos.len()),
        ),
    decreases moves.len(),
{
    let n = pos.len();
    if moves.len() == 0 {
        assert(kept_moves(groups, moves, n).map_values(|m: Move| Action::Group(m)) =~= Seq::<Action>::empty());
    } else {
        let rest = moves.drop_last();
        let m = moves.last();
        lemma_kept_moves(wv, wh, pos, groups, rest);
        let k = kept_moves(groups, rest, n);
        let p = run_group_moves(wv, wh, pos, groups, rest);
        lemma_run_group_moves_len(wv, wh, pos, groups, rest);
        if has_member(groups, m.index, n) {
            let k2 = k.push(m);
            assert(k2.drop_last() =~= k);
            assert(k2.last() == m);
            assert(k2.map_values(|m: Move| Action::Group(m)) =~= k.map_values(|m: Move| Action::Group(m)).push(
                Action::Group(m),
            ));
        } else {
            lemma_members_below_bound(groups, m.index, n);
            let members = members_below(groups, m.index, p.len());
            assert(members.len() == 0);
            assert(sort_by(members, front_key(p, m.direction as int)) == members);
            assert(group_order(p, groups, m.index, m.direction as int) =~= Seq::<usize>::empty());
        }
    }
}

/// Some robot below `n` belongs to group `g`.
pub open spec fn has_member(groups: Seq<usize>, g: usize, n: nat) -> bool {
    exists|i: int| 0 <= i < n && #[trigger] groups[i] == g
}

/// The group moves of `moves` whose group has a robot below `n`, as actions.
pub open spec fn kept_group_actions(groups: Seq<usize>, moves: Seq<Move>, n: nat) -> Seq<Action>
    decreases moves.len(),
{
    if moves.len() == 0 {
        seq![]
    } else {
        let k = kept_group_actions(groups, moves.drop_last(), n);
        if has_member(groups, moves.last().index, n) {
            k.push(Action::Group(moves.last()))
        } else {
            k
        }
    }
}

pub proof fn lemma_members_below_bound(groups: Seq<usize>, g: usize, n: nat)
    ensures
        forall|k: int| 0 <= k < members_below(groups, g, n).len() ==> #[trigger] members_below(groups, g, n)[k] < n,
        (members_below(groups, g, n).len() > 0) == (exists|i: int| 0 <= i < n && #[trigger] groups[i] == g),
    decreases n,
{
    if n > 0 {
        lemma_members_below_bound(groups, g, (n - 1) as nat);
        if exists|i: int| 0 <= i < n && #[trigger] groups[i] == g {
            let i = choose|i: int| 0 <= i < n && #[trigger] groups[i] == g;
            if i < n - 1 {
                assert(exists|i: int| 0 <= i < n - 1 && #[trigger] groups[i] == g);
            }
        }
    }
}

fn members_of(groups: &Vec<usize>, group_id: usize, n: usize) -> (m: Vec<usize>)
    requires
        n <= groups@.len(),
    ensures
        m@ == members_below(groups@, group_id, n as nat),
{
    let mut m: Vec<usize> = Vec::new();
    let mut i: usize = 0;
    while i < n
        invariant
            i <= n,
            n <= groups@.len(),
            m@ == members_below(groups@, group_id, i as nat),
        decreases n - i,
    {
        if groups[i] == group_id {
            m.push(i);
        }
        i += 1;
    }
    m
}

/// The sort keys of all robots for a move in direction `dir`.
fn front_keys(input: &Input, dir: usize) -> (keys: Vec<i64>)
    requires
        input.wf(),
        dir < 4,
    ensures
        keys@.len() == input.robot_count,
        forall|i: int| 0 <= i < input.robot_count ==> #[trigger] keys@[i] as int == front_key(input.init_robots@, dir as int)(i as usize),
{
    let mut keys: Vec<i64> = Vec::new();
    let mut i: usize = 0;
    while i < input.robot_count
        invariant
            input.wf(),
            dir < 4,
            i <= input.robot_count,
            keys@.len() == i,
            forall|j: int| 0 <= j < i ==> #[trigger] keys@[j] as int == front_key(input.init_robots@, dir as int)(j as usize),
        decreases input.robot_count - i,
    {
        let c = input.init_robots[i];
        assert(input.init_robots@[i as int].valid());
        let k: i64 = if dir == U {
            c.row as i64
        } else if dir == R {
            -(c.col as i64)
        } else if dir == D {
            -(c.row as i64)
        } else {
            c.col as i64
        };
        keys.push(k);
        i += 1;
    }
    keys
}

/// Moves every robot of group `group_id` one cell in direction `dir`, front first, each one
/// only where the cell exists, is not behind a wall and holds no robot. Tells whether the
/// group has robots.
pub fn move_group(input: &mut Input, groups: &Vec<usize>, group_id: usize, dir: usize) -> (moved: bool)
    requires
        old(input).wf(),
        groups@.len() >= old(input).robot_count,
        dir < 4,
    ensures
        final(input).wf(),
        moved == has_member(groups@, group_id, old(input).robot_count as nat),
        final(input).init_robots@ == group_step(
            old(input).init_walls_v,
            old(input).init_walls_h,
            old(input).init_robots@,
            groups@,
            group_id,
            dir as int,
        ),
        final(input).robot_count == old(input).robot_count,
        final(input).destinations == old(input).destinations,
        final(input).init_walls_v == old(input).init_walls_v,
        final(input).init_walls_h == old(input).init_walls_h,
        final(input).init_graph == old(input).init_graph,
        forall|i: int| 0 <= i < old(input).robot_count && groups@[i] != group_id ==> #[trigger] final(input).init_robots@[i]
            == old(input).init_robots@[i],
        forall|i: int|
            0 <= i < old(input).robot_count && groups@[i] == group_id ==> #[trigger] final(input).init_robots@[i]
                == old(input).init_robots@[i] || neighbor(
                old(input).init_walls_v,
                old(input).init_walls_h,
                old(input).init_robots@[i].row as int,
                old(input).init_robots@[i].col as int,
                dir as int,
            ) == Some(final(input).init_robots@[i]),
{
    let robots = members_of(groups, group_id, input.robot_count);
    proof {
        lemma_members_below_bound(groups@, group_id, input.robot_count as nat);
        law_group_step_moves_members(input.init_walls_v, input.init_walls_h, input.init_robots@, groups@, group_id, dir as int);
    }
    if robots.len() == 0 {
        assert(sort_by(robots@, front_key(input.init_robots@, dir as int)) =~= robots@);
        return false;
    }
    let keys = front_keys(input, dir);
    proof {
        assert forall|i: usize| i < input.robot_count implies #[trigger] key_of(keys@)(i) == front_key(input.init_robots@, dir as int)(i) by {
            assert(keys@[i as int] as int == front_key(input.init_robots@, dir as int)(i));
        }
        lemma_sort_by_congruent(robots@, key_of(keys@), front_key(input.init_robots@, dir as int), input.robot_count as nat);
    }
    let order = sort_by_keys(&robots, &keys);
    input.move_robots(&order, dir);
    true
}

/// Applies the group moves `moves` one after another; returns, as actions, those whose group
/// has robots.
pub fn group_phase(input: &mut Input, groups: &Vec<usize>, moves: &Vec<Move>) -> (actions: Vec<Action>)
    requires
        old(input).wf(),
        groups@.len() >= old(input).robot_count,
        forall|t: int| 0 <= t < moves@.len() ==> (#[trigger] moves@[t]).direction < 4,
    ensures
        final(input).wf(),
        final(input).init_robots@ == run_group_moves(
            old(input).init_walls_v,
            old(input).init_walls_h,
            old(input).init_robots@,
            groups@,
            moves@,
        ),
        actions@ == kept_group_actions(groups@, moves@, old(input).robot_count as nat),
        final(input).robot_count == old(input).robot_count,
        final(input).destinations == old(input).destinations,
        final(input).init_walls_v == old(input).init_walls_v,
        final(input).init_walls_h == old(input).init_walls_h,
        final(input).init_graph == old(input).init_graph,
{
    let mut actions: Vec<Action> = Vec::new();
    let mut t: usize = 0;
    while t < moves.len()
        invariant
            t <= moves@.len(),
            input.wf(),
            groups@.len() >= input.robot_count,
            forall|u: int| 0 <= u < moves@.len() ==> (#[trigger] moves@[u]).direction < 4,
            input.init_robots@ == run_group_moves(
                old(input).init_walls_v,
                old(input).init_walls_h,
                old(input).init_robots@,
                groups@,
                moves@.subrange(0, t as int),
            ),
            actions@ == kept_group_actions(groups@, moves@.subrange(0, t as int), old(input).robot_count as nat),
            input.robot_count == old(input).robot_count,
            input.destinations == old(input).destinations,
            input.init_walls_v == old(input).init_walls_v,
            input.init_walls_h == old(input).init_walls_h,
            input.init_graph == old(input).init_graph,
        decreases moves@.len() - t,
    {
        let mv = moves[t];
        assert(moves@[t as int].direction < 4);
        let moved = move_group(input, groups, mv.index, mv.direction);
        if moved {
            actions.push(Action::Group(mv));
        }
        proof {
            assert(moves@.subrange(0, t + 1).drop_last() =~= moves@.subrange(0, t as int));
            assert(moves@.subrange(0, t + 1).last() == mv);
        }
        t += 1;
    }
    assert(moves@.subrange(0, moves@.len() as int) =~= moves@);
    actions
}

/// Draws a number of groups `1..=10` and a group below it for each of `n` robots.
pub fn draw_groups(rng: &mut Mcg128Xsl64, n: usize) -> (r: (usize, Vec<usize>))
    ensures
        1 <= r.0 <= 10,
        r.1@.len() == n,
        forall|i: int| 0 <= i < n ==> #[trigger] r.1@[i] < r.0,
{
    let group_count = gen_index_inclusive(rng, 1, 10);
    let mut groups: Vec<usize> = Vec::new();
    let mut i: usize = 0;
    while i < n
        invariant
            i <= n,
            1 <= group_count <= 10,
            groups@.len() == i,
            forall|j: int| 0 <= j < i ==> #[trigger] groups@[j] < group_count,
        decreases n - i,
    {
        let g = gen_index(rng, 0, group_count);
        groups.push(g);
        i += 1;
    }
    (group_count, groups)
}

/// Draws `count` group moves: a group below `group_count` and a direction each.
pub fn draw_moves(rng: &mut Mcg128Xsl64, group_count: usize, count: usize) -> (moves: Vec<Move>)
    requires
        group_count >= 1,
    ensures
        moves@.len() == count,
        forall|t: int| 0 <= t < count ==> (#[trigger] moves@[t]).index < group_count && moves@[t].direction < 4,
{
    let mut moves: Vec<Move> = Vec::new();
    let mut t: usize = 0;
    while t < count
        invariant
            t <= count,
            group_count >= 1,
            moves@.len() == t,
            forall|u: int| 0 <= u < t ==> (#[trigger] moves@[u]).index < group_count && moves@[u].direction < 4,
        decreases count - t,
    {
        let group = gen_index(rng, 0, group_count);
        let dir = gen_index(rng, 0, 4);
        moves.push(Move::new(group, dir));
        t += 1;
    }
    moves
}

/// Random groups and group moves for one attempt: the robots split into up to 10 groups,
/// then 30 random group moves from `input`'s start. Returns the instance after the moves, the
/// groups, and the moves that moved a group with robots.
pub fn prepare(input: &Input, rng: &mut Mcg128Xsl64) -> (r: (Input, Vec<usize>, Vec<Action>))
    requires
        input.wf(),
    ensures
        r.0.wf(),
        r.0.robot_count == input.robot_count,
        r.0.destinations@ == input.destinations@,
        r.0.init_walls_v.map@ == input.init_walls_v.map@,
        r.0.init_walls_h.map@ == input.init_walls_h.map@,
        r.1@.len() == input.robot_count,
        forall|i: int| 0 <= i < input.robot_count ==> #[trigger] r.1@[i] < 10,
        exists|moves: Seq<Move>| {
            &&& moves.len() == 30
            &&& forall|t: int| 0 <= t < 30 ==> (#[trigger] moves[t]).index < 10 && moves[t].direction < 4
            &&& r.0.init_robots@ == run_group_moves(r.0.init_walls_v, r.0.init_walls_h, input.init_robots@, r.1@, moves)
            &&& r.2@ == kept_group_actions(r.1@, moves, input.robot_count as nat)
            &&& r.0.init_robots@ == run_group_moves(
                r.0.init_walls_v,
                r.0.init_walls_h,
                input.init_robots@,
                r.1@,
                kept_moves(r.1@, moves, input.robot_count as nat),
            )
            &&& r.2@ == kept_moves(r.1@, moves, input.robot_count as nat).map_values(|m: Move| Action::Group(m))
        },
{
    let mut working = input.copy();
    let (group_count, groups) = draw_groups(rng, input.robot_count);
    let moves = draw_moves(rng, group_count, 30);
    let ghost w0 = working;
    let actions = group_phase(&mut working, &groups, &moves);
    proof {
        lemma_kept_moves(working.init_walls_v, working.init_walls_h, input.init_robots@, groups@, moves@);
    }
    assert(forall|t: int| 0 <= t < 30 ==> (#[trigger] moves@[t]).index < 10 && moves@[t].direction < 4);
    (working, groups, actions)
}

/// The solution of one attempt: `input`'s walls, the `groups`, the `group_actions` followed
/// by the single-robot actions of `robots`, and the score of `robots`.
pub fn finish(input: &Input, groups: Vec<usize>, group_actions: Vec<Action>, robots: Output) -> (output: Output)
    requires
        input.wf(),
    ensures
        output.walls_v.map@ == input.init_walls_v.map@,
        output.walls_h.map@ == input.init_walls_h.map@,
        output.groups@ == groups@,
        output.actions@ == group_actions@ + robots.actions@,
        output.score == robots.score,
{
    let mut actions = group_actions;
    let mut rest = robots.actions;
    actions.append(&mut rest);
    Output::new(input.init_walls_v.copy(), input.init_walls_h.copy(), groups, actions, robots.score)
}

} // verus!
