#![allow(non_snake_case)]

use vstd::prelude::*;

use crate::text::{
    append_chars, chars_of, decimal, decimal_of, ends_ws, is_word, is_ws, lemma_decimal, lemma_parse_decimal,
    lemma_words_append, lemma_words_of_word, parse_usize, parse_usize_of, split_words, string_of, views, words,
};

verus! {

/// An instance as the judge sees it: an `N` by `N` board, `K` robots going from `ss[i]` to
/// `ts[i]`, and walls: `wall_v[i][j]` between `(i, j)` and `(i, j + 1)`, `wall_h[i][j]`
/// between `(i, j)` and `(i + 1, j)`. `W` is the number of long walls the generator drew.
pub struct Input {
    pub N: usize,
    pub K: usize,
    pub W: usize,
    pub ss: Vec<(usize, usize)>,
    pub ts: Vec<(usize, usize)>,
    pub wall_v: Vec<Vec<bool>>,
    pub wall_h: Vec<Vec<bool>>,
}

/// A solution as the judge reads it: the walls (the instance's and the added ones), the group
/// of each robot, and the actions `(kind, index, direction)` where kind `'g'` moves group
/// `index`, any other kind moves robot `index`, and direction is `0..4` for `U`, `D`, `L`, `R`.
pub struct Output {
    pub wall_v: Vec<Vec<bool>>,
    pub wall_h: Vec<Vec<bool>>,
    pub group: Vec<usize>,
    pub out: Vec<(char, usize, usize)>,
}

/// A board of `rows` rows of `cols` entries.
pub open spec fn is_matrix(m: Seq<Vec<bool>>, rows: int, cols: int) -> bool {
    &&& m.len() == rows
    &&& forall|i: int| 0 <= i < rows ==> (#[trigger] m[i])@.len() == cols
}

/// A cell of an `n` by `n` board.
pub open spec fn on_board(p: (usize, usize), n: int) -> bool {
    p.0 < n && p.1 < n
}

/// Every one of the positions is a cell of an `n` by `n` board.
pub open spec fn all_on_board(pos: Seq<(usize, usize)>, n: int) -> bool {
    forall|i: int| 0 <= i < pos.len() ==> on_board(#[trigger] pos[i], n)
}

/// No two robots share a cell.
pub open spec fn apart(pos: Seq<(usize, usize)>) -> bool {
    forall|i: int, j: int| 0 <= i < pos.len() && 0 <= j < pos.len() && i != j ==> #[trigger] pos[i] != #[trigger] pos[j]
}

impl Input {
    /// The wall boards have the instance's shape: `N` rows of `N - 1` vertical walls and
    /// `N - 1` rows of `N` horizontal walls, on a board at least one cell wide.
    pub open spec fn walls_shaped(&self) -> bool {
        &&& 1 <= self.N
        &&& is_matrix(self.wall_v@, self.N as int, self.N - 1)
        &&& is_matrix(self.wall_h@, self.N - 1, self.N as int)
    }

    /// A board at least one cell wide, with `K` starts and `K` targets.
    pub open spec fn robots_shaped(&self) -> bool {
        &&& 1 <= self.N
        &&& self.ss@.len() == self.K
        &&& self.ts@.len() == self.K
    }

    /// All shapes agree: the wall boards, and `K` starts and `K` targets.
    pub open spec fn shaped(&self) -> bool {
        &&& self.walls_shaped()
        &&& self.robots_shaped()
    }

    /// Every robot starts on the board.
    pub open spec fn starts_on_board(&self) -> bool {
        forall|i: int| 0 <= i < self.K ==> on_board(#[trigger] self.ss@[i], self.N as int)
    }

    /// A well-formed instance: all shapes agree, every cell lies on the board, and the robots
    /// start on distinct cells, so that there are at most `N * N` of them.
    pub open spec fn wf(&self) -> bool {
        &&& self.shaped()
        &&& self.K <= self.N * self.N
        &&& self.starts_on_board()
        &&& forall|i: int| 0 <= i < self.K ==> on_board(#[trigger] self.ts@[i], self.N as int)
        &&& apart(self.ss@)
    }
}

impl Output {
    /// A solution that fits `input`: wall shapes agree, groups and indices are below `K`,
    /// and every direction is one of the four.
    pub open spec fn fits(&self, input: &Input) -> bool {
        &&& is_matrix(self.wall_v@, input.N as int, input.N - 1)
        &&& is_matrix(self.wall_h@, input.N - 1, input.N as int)
        &&& self.group@.len() == input.K
        &&& forall|i: int| 0 <= i < input.K ==> #[trigger] self.group@[i] < input.K
        &&& forall|t: int| 0 <= t < self.out@.len() ==> (#[trigger] self.out@[t]).1 < input.K && self.out@[t].2 < 4
    }
}

/// Row and column offsets of direction `d` (`U`, `D`, `L`, `R`).
pub open spec fn offset(d: int) -> (int, int) {
    if d == 0 {
        (-1, 0)
    } else if d == 1 {
        (1, 0)
    } else if d == 2 {
        (0, -1)
    } else {
        (0, 1)
    }
}

/// Some robot stands on `(x, y)`.
pub open spec fn occupies(pos: Seq<(usize, usize)>, x: int, y: int) -> bool {
    exists|i: int| 0 <= i < pos.len() && #[trigger] pos[i].0 == x && pos[i].1 == y
}

/// The cells on which some robot stands.
pub open spec fn cells_of(pos: Seq<(usize, usize)>) -> Set<(int, int)> {
    Set::new(|c: (int, int)| occupies(pos, c.0, c.1))
}

/// What the judge keeps while it replays a solution: the robots' positions, and the cells it
/// has marked as taken.
pub type JudgeState = (Seq<(usize, usize)>, Set<(int, int)>);

/// Robot `r` tries one step in direction `d`: it moves unless it would leave the board, enter
/// a cell marked as taken, or cross a wall. When it moves, its old cell is unmarked and its
/// new cell marked.
pub open spec fn judge_step(
    n: int,
    wall_v: Seq<Vec<bool>>,
    wall_h: Seq<Vec<bool>>,
    st: JudgeState,
    r: int,
    d: int,
) -> JudgeState {
    let pos = st.0;
    let (x, y) = (pos[r].0 as int, pos[r].1 as int);
    let (di, dj) = offset(d);
    let (x2, y2) = (x + di, y + dj);
    if x2 < 0 || x2 >= n || y2 < 0 || y2 >= n || st.1.contains((x2, y2)) {
        st
    } else if di == 0 && wall_v[x]@[if y < y2 { y } else { y2 }] {
        st
    } else if di != 0 && wall_h[if x < x2 { x } else { x2 }]@[y] {
        st
    } else {
        (pos.update(r, (x2 as usize, y2 as usize)), st.1.remove((x, y)).insert((x2, y2)))
    }
}

/// The robots `rs`, in order, each try one step in direction `d`.
pub open spec fn judge_steps(
    n: int,
    wall_v: Seq<Vec<bool>>,
    wall_h: Seq<Vec<bool>>,
    st: JudgeState,
    rs: Seq<usize>,
    d: int,
) -> JudgeState
    decreases rs.len(),
{
    if rs.len() == 0 {
        st
    } else {
        judge_step(n, wall_v, wall_h, judge_steps(n, wall_v, wall_h, st, rs.drop_last(), d), rs.last() as int, d)
    }
}

/// The order in which robots move in direction `d`: the ones in front first.
pub open spec fn front_key(p: (usize, usize), d: int) -> int {
    let (di, dj) = offset(d);
    -(p.0 * di + p.1 * dj)
}

/// `sorted` with `x` put after every entry whose key is not larger than its own, assuming
/// `sorted` is ordered by key.
pub open spec fn insert_by_key(sorted: Seq<usize>, x: usize, pos: Seq<(usize, usize)>, d: int) -> Seq<usize>
    decreases sorted.len(),
{
    if sorted.len() == 0 {
        seq![x]
    } else if front_key(pos[sorted.last() as int], d) <= front_key(pos[x as int], d) {
        sorted.push(x)
    } else {
        insert_by_key(sorted.drop_last(), x, pos, d).push(sorted.last())
    }
}

/// `rs` in stable order of key.
pub open spec fn sort_by_key(rs: Seq<usize>, pos: Seq<(usize, usize)>, d: int) -> Seq<usize>
    decreases rs.len(),
{
    if rs.len() == 0 {
        rs
    } else {
        insert_by_key(sort_by_key(rs.drop_last(), pos, d), rs.last(), pos, d)
    }
}

/// The robots among the first `n` whose group is `g`, in increasing order.
pub open spec fn members_below(group: Seq<usize>, g: usize, n: nat) -> Seq<usize>
    decreases n,
{
    if n == 0 {
        seq![]
    } else {
        let m = members_below(group, g, (n - 1) as nat);
        if group[n - 1] == g {
            m.push((n - 1) as usize)
        } else {
            m
        }
    }
}

/// The robots of group `g`, in increasing order.
pub open spec fn members(group: Seq<usize>, g: usize) -> Seq<usize> {
    members_below(group, g, group.len())
}

/// The robots an action moves.
pub open spec fn movers(group: Seq<usize>, a: (char, usize, usize)) -> Seq<usize> {
    if a.0 == 'g' {
        members(group, a.1)
    } else {
        seq![a.1]
    }
}

/// What the judge holds after the first `t` actions of `out`, from the positions `start`
/// with their cells marked: each action moves its robots one after another, the ones in
/// front first.
pub open spec fn judge_run(input: Input, out: Output, start: Seq<(usize, usize)>, t: nat) -> JudgeState
    decreases t,
{
    if t == 0 {
        (start, cells_of(start))
    } else {
        let st = judge_run(input, out, start, (t - 1) as nat);
        let a = out.out@[t - 1];
        judge_steps(
            input.N as int,
            out.wall_v@,
            out.wall_h@,
            st,
            sort_by_key(movers(out.group@, a), st.0, a.2 as int),
            a.2 as int,
        )
    }
}

/// Sum over the first `k` robots of their distance, along rows plus along columns, to the target.
pub open spec fn distance_sum(pos: Seq<(usize, usize)>, ts: Seq<(usize, usize)>, k: nat) -> nat
    decreases k,
{
    if k == 0 {
        0
    } else {
        let a = pos[k - 1];
        let b = ts[k - 1];
        let dx = if a.0 >= b.0 { a.0 - b.0 } else { b.0 - a.0 };
        let dy = if a.1 >= b.1 { a.1 - b.1 } else { b.1 - a.1 };
        distance_sum(pos, ts, (k - 1) as nat) + (dx + dy) as nat
    }
}

/// The farthest a coordinate of an `n` by `n` board can be from `v`.
pub open spec fn reach(v: usize, n: int) -> nat {
    if v >= n - 1 {
        v as nat
    } else {
        (n - 1) as nat
    }
}

/// The largest value `distance_sum` can take over the first `k` targets, wherever the robots
/// stand on an `n` by `n` board.
pub open spec fn distance_cap(ts: Seq<(usize, usize)>, n: int, k: nat) -> nat
    decreases k,
{
    if k == 0 {
        0
    } else {
        distance_cap(ts, n, (k - 1) as nat) + reach(ts[k - 1].0, n) + reach(ts[k - 1].1, n)
    }
}


/// An element-by-element copy.
pub fn copy_vec<T: Copy>(v: &Vec<T>) -> (r: Vec<T>)
    ensures
        r@ == v@,
{
    let mut r: Vec<T> = Vec::new();
    let mut i: usize = 0;
    while i < v.len()
        invariant
            i <= v@.len(),
            r@ == v@.subrange(0, i as int),
        decreases v@.len() - i,
    {
        r.push(v[i]);
        i += 1;
    }
    assert(v@.subrange(0, v@.len() as int) =~= v@);
    r
}

/// A square board of `false` entries.
fn bool_matrix(rows: usize, cols: usize) -> (m: Vec<Vec<bool>>)
    ensures
        is_matrix(m@, rows as int, cols as int),
        forall|i: int, j: int| 0 <= i < rows && 0 <= j < cols ==> !(#[trigger] m@[i]@[j]),
{
    let mut m: Vec<Vec<bool>> = Vec::new();
    let mut i: usize = 0;
    while i < rows
        invariant
            i <= rows,
            m@.len() == i,
            forall|a: int| 0 <= a < i ==> (#[trigger] m@[a])@.len() == cols,
            forall|a: int, b: int| 0 <= a < i && 0 <= b < cols ==> !(#[trigger] m@[a]@[b]),
        decreases rows - i,
    {
        let row: Vec<bool> = vec![false; cols];
        m.push(row);
        i += 1;
    }
    m
}

/// Sets entry `(x, y)` of a board.
fn set_entry(m: &mut Vec<Vec<bool>>, x: usize, y: usize, v: bool)
    requires
        x < old(m)@.len(),
        y < old(m)@[x as int]@.len(),
    ensures
        final(m)@.len() == old(m)@.len(),
        final(m)@[x as int]@ == old(m)@[x as int]@.update(y as int, v),
        forall|i: int| 0 <= i < old(m)@.len() && i != x ==> #[trigger] final(m)@[i] == old(m)@[i],
{
    let mut row = m[x].clone();
    assert(row@ =~= m@[x as int]@);
    row.set(y, v);
    m.set(x, row);
}

/// Row and column offsets of a direction, in wrapping arithmetic (`!0` stands for -1).
fn dij(d: usize) -> (r: (usize, usize))
    requires
        d < 4,
    ensures
        r.0 == if offset(d as int).0 == -1 { usize::MAX as int } else { offset(d as int).0 },
        r.1 == if offset(d as int).1 == -1 { usize::MAX as int } else { offset(d as int).1 },
{
    if d == 0 {
        (usize::MAX, 0)
    } else if d == 1 {
        (1, 0)
    } else if d == 2 {
        (0, usize::MAX)
    } else {
        (0, 1)
    }
}

fn front_key_of(p: (usize, usize), d: usize) -> (k: i128)
    requires
        d < 4,
    ensures
        k == front_key(p, d as int),
{
    let (x, y) = p;
    proof {
        let (di, dj) = offset(d as int);
        assert(x * di + y * dj == if d == 0 { -x } else if d == 1 { x as int } else if d == 2 { -y } else { y as int }) by (nonlinear_arith)
            requires
                d < 4,
                (di, dj) == offset(d as int),
        ;
    }
    if d == 0 {
        x as i128
    } else if d == 1 {
        -(x as i128)
    } else if d == 2 {
        y as i128
    } else {
        -(y as i128)
    }
}

/// All indices are robots.
pub open spec fn indices_ok(rs: Seq<usize>, pos: Seq<(usize, usize)>) -> bool {
    forall|i: int| 0 <= i < rs.len() ==> (#[trigger] rs[i]) < pos.len()
}

fn insert_front(sorted: Vec<usize>, x: usize, pos: &Vec<(usize, usize)>, d: usize) -> (r: Vec<usize>)
    requires
        d < 4,
        x < pos@.len(),
        indices_ok(sorted@, pos@),
    ensures
        r@ == insert_by_key(sorted@, x, pos@, d as int),
        r@.len() == sorted@.len() + 1,
        forall|i: int| 0 <= i < r@.len() ==> (#[trigger] r@[i] == x || sorted@.contains(r@[i])),
    decreases sorted@.len(),
{
    let mut sorted = sorted;
    if sorted.len() == 0 {
        let mut r: Vec<usize> = Vec::new();
        r.push(x);
        assert(r@ =~= seq![x]);
        return r;
    }
    let last = sorted[sorted.len() - 1];
    assert(sorted@.last() == last);
    if front_key_of(pos[last], d) <= front_key_of(pos[x], d) {
        sorted.push(x);
        sorted
    } else {
        let ghost s0 = sorted@;
        sorted.pop();
        assert(sorted@ == s0.drop_last());
        let mut r = insert_front(sorted, x, pos, d);
        r.push(last);
        proof {
            assert forall|i: int| 0 <= i < r@.len() implies (#[trigger] r@[i] == x || s0.contains(r@[i])) by {
                if i < r@.len() - 1 {
                    if r@[i] != x {
                        let k = choose|k: int| 0 <= k < s0.len() - 1 && s0.drop_last()[k] == r@[i];
                        assert(s0[k] == r@[i]);
                    }
                } else {
                    assert(s0[s0.len() - 1] == r@[i]);
                }
            }
        }
        r
    }
}

/// Sorts robots so that the ones in front in direction `d` come first, keeping the given
/// order among robots level with each other.
fn sort_front_first(rs: &Vec<usize>, pos: &Vec<(usize, usize)>, d: usize) -> (r: Vec<usize>)
    requires
        d < 4,
        indices_ok(rs@, pos@),
    ensures
        r@ == sort_by_key(rs@, pos@, d as int),
        indices_ok(r@, pos@),
{
    let mut sorted: Vec<usize> = Vec::new();
    let mut i: usize = 0;
    while i < rs.len()
        invariant
            i <= rs@.len(),
            d < 4,
            indices_ok(rs@, pos@),
            indices_ok(sorted@, pos@),
            sorted@ == sort_by_key(rs@.subrange(0, i as int), pos@, d as int),
        decreases rs@.len() - i,
    {
        let x = rs[i];
        let ghost before = sorted@;
        sorted = insert_front(sorted, x, pos, d);
        proof {
            assert(rs@.subrange(0, i + 1).drop_last() =~= rs@.subrange(0, i as int));
            assert forall|k: int| 0 <= k < sorted@.len() implies (#[trigger] sorted@[k]) < pos@.len() by {
                if sorted@[k] != x {
                    let j = choose|j: int| 0 <= j < before.len() && before[j] == sorted@[k];
                }
            }
        }
        i += 1;
    }
    assert(rs@.subrange(0, rs@.len() as int) =~= rs@);
    sorted
}

/// The robots of every group, each list in increasing order.
fn group_members(group: &Vec<usize>, k: usize) -> (gs: Vec<Vec<usize>>)
    requires
        group@.len() == k,
        forall|i: int| 0 <= i < k ==> #[trigger] group@[i] < k,
    ensures
        gs@.len() == k,
        forall|g: int| 0 <= g < k ==> (#[trigger] gs@[g])@ == members(group@, g as usize),
{
    let mut gs: Vec<Vec<usize>> = Vec::new();
    let mut g: usize = 0;
    while g < k
        invariant
            g <= k,
            gs@.len() == g,
            forall|a: int| 0 <= a < g ==> (#[trigger] gs@[a])@ == Seq::<usize>::empty(),
        decreases k - g,
    {
        gs.push(Vec::new());
        g += 1;
    }
    let mut i: usize = 0;
    while i < k
        invariant
            i <= k,
            group@.len() == k,
            forall|j: int| 0 <= j < k ==> #[trigger] group@[j] < k,
            gs@.len() == k,
            forall|a: int| 0 <= a < k ==> (#[trigger] gs@[a])@ == members_below(group@, a as usize, i as nat),
        decreases k - i,
    {
        let g = group[i];
        let mut list = gs[g].clone();
        assert(list@ =~= gs@[g as int]@);
        list.push(i);
        let ghost before = gs@;
        gs.set(g, list);
        proof {
            assert forall|a: int| 0 <= a < k implies (#[trigger] gs@[a])@ == members_below(group@, a as usize, (i + 1) as nat) by {
                if a != g {
                    assert(gs@[a] == before[a]);
                }
            }
        }
        i += 1;
    }
    gs
}


/// The positions lie on the board, and the occupancy board marks exactly the cells of `marked`.
pub open spec fn board_agrees(n: int, pos: Seq<(usize, usize)>, used: Seq<Vec<bool>>, marked: Set<(int, int)>) -> bool {
    &&& is_matrix(used, n, n)
    &&& all_on_board(pos, n)
    &&& forall|x: int, y: int| 0 <= x < n && 0 <= y < n ==> (#[trigger] used[x]@[y]) == marked.contains((x, y))
}

/// Robot `r` tries one step in direction `d`, as the judge does it.
fn judge_move(
    n: usize,
    wall_v: &Vec<Vec<bool>>,
    wall_h: &Vec<Vec<bool>>,
    pos: &mut Vec<(usize, usize)>,
    used: &mut Vec<Vec<bool>>,
    Ghost(marked): Ghost<Set<(int, int)>>,
    r: usize,
    d: usize,
)
    requires
        1 <= n,
        d < 4,
        r < old(pos)@.len(),
        is_matrix(wall_v@, n as int, n - 1),
        is_matrix(wall_h@, n - 1, n as int),
        board_agrees(n as int, old(pos)@, old(used)@, marked),
    ensures
        final(pos)@ == judge_step(n as int, wall_v@, wall_h@, (old(pos)@, marked), r as int, d as int).0,
        board_agrees(
            n as int,
            final(pos)@,
            final(used)@,
            judge_step(n as int, wall_v@, wall_h@, (old(pos)@, marked), r as int, d as int).1,
        ),
{
    let ghost p0 = pos@;
    let (x, y) = pos[r];
    assert(on_board(p0[r as int], n as int));
    let (di, dj) = dij(d);
    let x2 = x.wrapping_add(di);
    let y2 = y.wrapping_add(dj);
    let ghost (odi, odj) = offset(d as int);
    assert(x2 as int == x + odi || (x == 0 && odi == -1 && x2 == usize::MAX));
    assert(y2 as int == y + odj || (y == 0 && odj == -1 && y2 == usize::MAX));
    if x2 >= n || y2 >= n || used[x2][y2] {
        return;
    }
    if di == 0 {
        let c = if y < y2 { y } else { y2 };
        if wall_v[x][c] {
            return;
        }
    } else {
        let c = if x < x2 { x } else { x2 };
        if wall_h[c][y] {
            return;
        }
    }
    pos.set(r, (x2, y2));
    set_entry(used, x, y, false);
    set_entry(used, x2, y2, true);
    proof {
        let p1 = pos@;
        let m1 = marked.remove((x as int, y as int)).insert((x2 as int, y2 as int));
        assert(p1 == p0.update(r as int, (x2, y2)));
        assert forall|i: int| 0 <= i < p1.len() implies on_board(#[trigger] p1[i], n as int) by {
            if i != r {
                assert(p1[i] == p0[i]);
            }
        }
        assert forall|a: int, b: int| 0 <= a < n && 0 <= b < n implies (#[trigger] used@[a]@[b]) == m1.contains((a, b)) by {
            if a == x2 && b == y2 {
            } else if a == x && b == y {
            } else {
                assert(used@[a]@[b] == old(used)@[a]@[b]);
            }
        }
    }
}

proof fn lemma_insert_bound(sorted: Seq<usize>, x: usize, pos: Seq<(usize, usize)>, d: int, b: int)
    requires
        x < b,
        forall|k: int| 0 <= k < sorted.len() ==> #[trigger] sorted[k] < b,
    ensures
        forall|k: int| 0 <= k < insert_by_key(sorted, x, pos, d).len() ==> #[trigger] insert_by_key(sorted, x, pos, d)[k] < b,
    decreases sorted.len(),
{
    let r = insert_by_key(sorted, x, pos, d);
    if sorted.len() == 0 {
        assert(r == seq![x]);
    } else {
        assert(sorted.last() == sorted[sorted.len() - 1]);
        if front_key(pos[sorted.last() as int], d) <= front_key(pos[x as int], d) {
            assert(r == sorted.push(x));
            assert forall|k: int| 0 <= k < r.len() implies #[trigger] r[k] < b by {
                if k < sorted.len() {
                    assert(r[k] == sorted[k]);
                }
            }
        } else {
            let m = insert_by_key(sorted.drop_last(), x, pos, d);
            lemma_insert_bound(sorted.drop_last(), x, pos, d, b);
            assert(r == m.push(sorted.last()));
            assert forall|k: int| 0 <= k < r.len() implies #[trigger] r[k] < b by {
                if k < m.len() {
                    assert(r[k] == m[k]);
                }
            }
        }
    }
}

proof fn lemma_sort_bound(rs: Seq<usize>, pos: Seq<(usize, usize)>, d: int, b: int)
    requires
        forall|k: int| 0 <= k < rs.len() ==> #[trigger] rs[k] < b,
    ensures
        forall|k: int| 0 <= k < sort_by_key(rs, pos, d).len() ==> #[trigger] sort_by_key(rs, pos, d)[k] < b,
    decreases rs.len(),
{
    if rs.len() > 0 {
        assert(rs.last() == rs[rs.len() - 1]);
        lemma_sort_bound(rs.drop_last(), pos, d, b);
        lemma_insert_bound(sort_by_key(rs.drop_last(), pos, d), rs.last(), pos, d, b);
    }
}

/// From robots on distinct cells of the board, with exactly their cells marked, one step keeps
/// them on distinct cells of the board, with exactly their cells marked.
pub proof fn lemma_step_apart(n: int, wall_v: Seq<Vec<bool>>, wall_h: Seq<Vec<bool>>, pos: Seq<(usize, usize)>, r: int, d: int)
    requires
        n <= usize::MAX,
        apart(pos),
        all_on_board(pos, n),
        0 <= r < pos.len(),
    ensures
        judge_step(n, wall_v, wall_h, (pos, cells_of(pos)), r, d).1 == cells_of(judge_step(n, wall_v, wall_h, (pos, cells_of(pos)), r, d).0),
        apart(judge_step(n, wall_v, wall_h, (pos, cells_of(pos)), r, d).0),
        all_on_board(judge_step(n, wall_v, wall_h, (pos, cells_of(pos)), r, d).0, n),
        judge_step(n, wall_v, wall_h, (pos, cells_of(pos)), r, d).0.len() == pos.len(),
{
    let st = judge_step(n, wall_v, wall_h, (pos, cells_of(pos)), r, d);
    let (x, y) = (pos[r].0 as int, pos[r].1 as int);
    let (di, dj) = offset(d);
    let (x2, y2) = (x + di, y + dj);
    let blocked = x2 < 0 || x2 >= n || y2 < 0 || y2 >= n || cells_of(pos).contains((x2, y2)) || (di == 0
        && wall_v[x]@[if y < y2 { y } else { y2 }]) || (di != 0 && wall_h[if x < x2 { x } else { x2 }]@[y]);
    if !blocked {
        let p1 = pos.update(r, (x2 as usize, y2 as usize));
        assert(st.0 == p1);
        assert(st.1 == cells_of(pos).remove((x, y)).insert((x2, y2)));
        assert(!occupies(pos, x2, y2));
        assert(on_board(pos[r], n));
        assert forall|i: int| 0 <= i < p1.len() implies on_board(#[trigger] p1[i], n) by {
            if i != r {
                assert(p1[i] == pos[i]);
            }
        }
        assert forall|i: int, j: int| 0 <= i < p1.len() && 0 <= j < p1.len() && i != j implies #[trigger] p1[i] != #[trigger] p1[j] by {
            if i == r {
                assert(pos[j] == p1[j]);
                assert(!(pos[j].0 == x2 && pos[j].1 == y2));
            } else if j == r {
                assert(pos[i] == p1[i]);
                assert(!(pos[i].0 == x2 && pos[i].1 == y2));
            } else {
                assert(pos[i] == p1[i] && pos[j] == p1[j]);
            }
        }
        assert forall|c: (int, int)| #[trigger] st.1.contains(c) == cells_of(p1).contains(c) by {
            if occupies(p1, c.0, c.1) {
                let i = choose|i: int| 0 <= i < p1.len() && #[trigger] p1[i].0 == c.0 && p1[i].1 == c.1;
                if i != r {
                    assert(p1[i] == pos[i]);
                    assert(occupies(pos, c.0, c.1));
                    assert(pos[i] != pos[r]);
                }
            }
            if occupies(pos, c.0, c.1) && c != (x, y) {
                let i = choose|i: int| 0 <= i < pos.len() && #[trigger] pos[i].0 == c.0 && pos[i].1 == c.1;
                assert(i != r);
                assert(p1[i] == pos[i]);
            }
            if c == (x2, y2) {
                assert(p1[r].0 == x2 && p1[r].1 == y2);
            }
            if c == (x, y) && c != (x2, y2) && occupies(p1, c.0, c.1) {
                let i = choose|i: int| 0 <= i < p1.len() && #[trigger] p1[i].0 == c.0 && p1[i].1 == c.1;
                assert(i != r);
                assert(pos[i] == p1[i]);
                assert(pos[i] == pos[r]);
            }
        }
        assert(st.1 =~= cells_of(p1));
    }
}

/// Robots stepping one after another keep to distinct cells of the board, with exactly their
/// cells marked, when they start so.
pub proof fn lemma_steps_apart(
    n: int,
    wall_v: Seq<Vec<bool>>,
    wall_h: Seq<Vec<bool>>,
    pos: Seq<(usize, usize)>,
    rs: Seq<usize>,
    d: int,
)
    requires
        n <= usize::MAX,
        apart(pos),
        all_on_board(pos, n),
        indices_ok(rs, pos),
    ensures
        judge_steps(n, wall_v, wall_h, (pos, cells_of(pos)), rs, d).1 == cells_of(judge_steps(n, wall_v, wall_h, (pos, cells_of(pos)), rs, d).0),
        apart(judge_steps(n, wall_v, wall_h, (pos, cells_of(pos)), rs, d).0),
        all_on_board(judge_steps(n, wall_v, wall_h, (pos, cells_of(pos)), rs, d).0, n),
        judge_steps(n, wall_v, wall_h, (pos, cells_of(pos)), rs, d).0.len() == pos.len(),
    decreases rs.len(),
{
    if rs.len() > 0 {
        lemma_steps_apart(n, wall_v, wall_h, pos, rs.drop_last(), d);
        let st = judge_steps(n, wall_v, wall_h, (pos, cells_of(pos)), rs.drop_last(), d);
        assert(st == (st.0, cells_of(st.0)));
        assert(rs.last() == rs[rs.len() - 1]);
        lemma_step_apart(n, wall_v, wall_h, st.0, rs.last() as int, d);
    }
}

/// Replaying a solution whose robots start on distinct cells of the board keeps them on
/// distinct cells of the board after every action, and the cells the judge marks as taken are
/// exactly those where a robot stands.
pub proof fn law_judge_keeps_robots_apart(input: Input, out: Output, t: nat)
    requires
        input.robots_shaped(),
        input.starts_on_board(),
        apart(input.ss@),
        out.fits(&input),
        t <= out.out@.len(),
    ensures
        judge_run(input, out, input.ss@, t).1 == cells_of(judge_run(input, out, input.ss@, t).0),
        apart(judge_run(input, out, input.ss@, t).0),
        all_on_board(judge_run(input, out, input.ss@, t).0, input.N as int),
        judge_run(input, out, input.ss@, t).0.len() == input.K,
    decreases t,
{
    if t > 0 {
        law_judge_keeps_robots_apart(input, out, (t - 1) as nat);
        let st = judge_run(input, out, input.ss@, (t - 1) as nat);
        let a = out.out@[t - 1];
        let rs = movers(out.group@, a);
        assert forall|k: int| 0 <= k < rs.len() implies #[trigger] rs[k] < st.0.len() by {
            if a.0 == 'g' {
                lemma_members_below_bound(out.group@, a.1, input.K as nat, k);
            }
        }
        lemma_sort_bound(rs, st.0, a.2 as int, st.0.len() as int);
        assert(st == (st.0, cells_of(st.0)));
        lemma_steps_apart(input.N as int, out.wall_v@, out.wall_h@, st.0, sort_by_key(rs, st.0, a.2 as int), a.2 as int);
    }
}

/// The judge's score after the first `t` actions of `out`: `t` plus 100 times the remaining
/// row and column distances of the robots to their targets.
pub open spec fn judge_score(input: Input, out: Output, t: nat) -> int {
    (t + 100 * distance_sum(judge_run(input, out, input.ss@, t).0, input.ts@, input.K as nat)) as int
}

proof fn lemma_cap_mono(ts: Seq<(usize, usize)>, n: int, a: nat, b: nat)
    requires
        a <= b,
    ensures
        distance_cap(ts, n, a) <= distance_cap(ts, n, b),
    decreases b,
{
    if a < b {
        lemma_cap_mono(ts, n, a, (b - 1) as nat);
    }
}

/// Replays the first `t` actions of `out` on `input` as the judge does and returns the score
/// (`t` plus 100 times the remaining row and column distances), an error message (always
/// empty here), and the final robot positions, which lie on the board, and on distinct cells
/// when the robots start on distinct cells. The score must fit in 64 bits.
pub fn compute_score_details(input: &Input, out: &Output, t: usize) -> (res: (i64, String, Vec<(usize, usize)>))
    requires
        input.robots_shaped(),
        input.starts_on_board(),
        out.fits(input),
        t <= out.out@.len(),
        t + 100 * distance_cap(input.ts@, input.N as int, input.K as nat) <= i64::MAX,
    ensures
        res.2@ == judge_run(*input, *out, input.ss@, t as nat).0,
        res.2@.len() == input.K,
        all_on_board(res.2@, input.N as int),
        apart(input.ss@) ==> apart(res.2@),
        res.0 == t + 100 * distance_sum(res.2@, input.ts@, input.K as nat),
        res.0 == judge_score(*input, *out, t as nat),
        res.1@ == Seq::<char>::empty(),
{
    let n = input.N;
    let mut pos = copy_vec(&input.ss);
    let mut used = bool_matrix(n, n);
    let mut i: usize = 0;
    while i < pos.len()
        invariant
            input.robots_shaped(),
            input.starts_on_board(),
            n == input.N,
            pos@ == input.ss@,
            i <= pos@.len(),
            is_matrix(used@, n as int, n as int),
            forall|x: int, y: int| 0 <= x < n && 0 <= y < n ==> (#[trigger] used@[x]@[y]) == occupies(pos@.subrange(0, i as int), x, y),
        decreases pos@.len() - i,
    {
        let (x, y) = pos[i];
        assert(on_board(input.ss@[i as int], n as int));
        let ghost before = used@;
        set_entry(&mut used, x, y, true);
        proof {
            let pre = pos@.subrange(0, i as int);
            let post = pos@.subrange(0, i + 1);
            assert forall|a: int, b: int| 0 <= a < n && 0 <= b < n implies (#[trigger] used@[a]@[b]) == occupies(post, a, b) by {
                if occupies(pre, a, b) {
                    let j = choose|j: int| 0 <= j < pre.len() && #[trigger] pre[j].0 == a && pre[j].1 == b;
                    assert(post[j] == pre[j]);
                }
                if occupies(post, a, b) {
                    let j = choose|j: int| 0 <= j < post.len() && #[trigger] post[j].0 == a && post[j].1 == b;
                    if j < i {
                        assert(pre[j] == post[j]);
                    }
                }
                assert(post[i as int] == (x, y));
                if a != x {
                    assert(used@[a] == before[a]);
                }
            }
        }
        i += 1;
    }
    assert(pos@.subrange(0, pos@.len() as int) =~= pos@);
    let ghost mut marked: Set<(int, int)> = cells_of(pos@);
    assert forall|k: int| 0 <= k < pos@.len() implies on_board(#[trigger] pos@[k], n as int) by {
        assert(on_board(input.ss@[k], n as int));
    }
    let gs = group_members(&out.group, input.K);
    let mut s: usize = 0;
    while s < t
        invariant
            input.robots_shaped(),
            out.fits(input),
            n == input.N,
            s <= t,
            t <= out.out@.len(),
            gs@.len() == input.K,
            forall|g: int| 0 <= g < input.K ==> (#[trigger] gs@[g])@ == members(out.group@, g as usize),
            pos@.len() == input.K,
            board_agrees(n as int, pos@, used@, marked),
            (pos@, marked) == judge_run(*input, *out, input.ss@, s as nat),
        decreases t - s,
    {
        let (a, b, d) = out.out[s];
        assert(out.out@[s as int].1 < input.K && out.out@[s as int].2 < 4);
        let rs: Vec<usize> = if a == 'g' {
            let c = gs[b].clone();
            assert(c@ =~= gs@[b as int]@);
            c
        } else {
            let mut v: Vec<usize> = Vec::new();
            v.push(b);
            assert(v@ =~= seq![b]);
            v
        };
        proof {
            assert forall|k: int| 0 <= k < rs@.len() implies (#[trigger] rs@[k]) < pos@.len() by {
                if a == 'g' {
                    lemma_members_below_bound(out.group@, b, input.K as nat, k);
                }
            }
        }
        let order = sort_front_first(&rs, &pos, d);
        let ghost p_start = pos@;
        let ghost m_start = marked;
        let mut u: usize = 0;
        while u < order.len()
            invariant
                input.robots_shaped(),
                out.fits(input),
                n == input.N,
                d < 4,
                u <= order@.len(),
                indices_ok(order@, p_start),
                pos@.len() == input.K,
                p_start.len() == input.K,
                board_agrees(n as int, pos@, used@, marked),
                (pos@, marked) == judge_steps(n as int, out.wall_v@, out.wall_h@, (p_start, m_start), order@.subrange(0, u as int), d as int),
            decreases order@.len() - u,
        {
            let r = order[u];
            let ghost p_before = pos@;
            judge_move(n, &out.wall_v, &out.wall_h, &mut pos, &mut used, Ghost(marked), r, d);
            proof {
                marked = judge_step(n as int, out.wall_v@, out.wall_h@, (p_before, marked), r as int, d as int).1;
                assert(order@.subrange(0, u + 1).drop_last() =~= order@.subrange(0, u as int));
            }
            u += 1;
        }
        proof {
            assert(order@.subrange(0, order@.len() as int) =~= order@);
            assert(out.out@[s as int] == (a, b, d));
        }
        s += 1;
    }
    let mut score: i64 = t as i64;
    let mut k: usize = 0;
    while k < input.K
        invariant
            input.robots_shaped(),
            n == input.N,
            k <= input.K,
            pos@.len() == input.K,
            all_on_board(pos@, n as int),
            t + 100 * distance_cap(input.ts@, n as int, input.K as nat) <= i64::MAX,
            score == t + 100 * distance_sum(pos@, input.ts@, k as nat),
            distance_sum(pos@, input.ts@, k as nat) <= distance_cap(input.ts@, n as int, k as nat),
        decreases input.K - k,
    {
        let p = pos[k];
        let q = input.ts[k];
        assert(on_board(pos@[k as int], n as int));
        let dx = if p.0 >= q.0 { p.0 - q.0 } else { q.0 - p.0 };
        let dy = if p.1 >= q.1 { p.1 - q.1 } else { q.1 - p.1 };
        proof {
            lemma_cap_mono(input.ts@, n as int, (k + 1) as nat, input.K as nat);
            assert(dx <= reach(q.0, n as int));
            assert(dy <= reach(q.1, n as int));
            assert(distance_sum(pos@, input.ts@, (k + 1) as nat) == distance_sum(pos@, input.ts@, k as nat) + dx + dy);
        }
        score = score + (dx as i64) * 100 + (dy as i64) * 100;
        k += 1;
    }
    proof {
        if apart(input.ss@) {
            law_judge_keeps_robots_apart(*input, *out, t as nat);
        }
    }
    (score, String::new(), pos)
}

proof fn lemma_members_below_bound(group: Seq<usize>, g: usize, n: nat, k: int)
    requires
        0 <= k < members_below(group, g, n).len(),
    ensures
        members_below(group, g, n)[k] < n,
    decreases n,
{
    if n > 0 {
        let m = members_below(group, g, (n - 1) as nat);
        if k < m.len() {
            lemma_members_below_bound(group, g, (n - 1) as nat, k);
        }
    }
}

/// The score of a whole solution, the one `compute_score_details` gives after all its
/// actions, and the judge's error message (empty here). The score must fit in 64 bits.
pub fn compute_score(input: &Input, out: &Output) -> (res: (i64, String))
    requires
        input.robots_shaped(),
        input.starts_on_board(),
        out.fits(input),
        out.out@.len() + 100 * distance_cap(input.ts@, input.N as int, input.K as nat) <= i64::MAX,
    ensures
        res.0 == judge_score(*input, *out, out.out@.len()),
        res.1@ == Seq::<char>::empty(),
{
    let (mut score, err, _) = compute_score_details(input, out, out.out.len());
    if !err.as_str().is_empty() {
        score = 0;
    }
    (score, err)
}


/// The number a word stands for, where it is one.
pub open spec fn num(w: Seq<char>) -> int {
    match parse_usize(w) {
        Some(v) => v as int,
        None => 0,
    }
}

/// `'1'` marks a wall.
pub open spec fn wall_row(w: Seq<char>) -> Seq<bool> {
    w.map_values(|c: char| c == '1')
}

/// The words of an instance text: `N K`, then `K` lines `sx sy tx ty`, then `N` rows of
/// vertical walls and `N - 1` rows of horizontal walls. Words after those are ignored.
pub open spec fn instance_words_ok(w: Seq<Seq<char>>) -> bool {
    &&& w.len() >= 2
    &&& parse_usize(w[0]) is Some
    &&& parse_usize(w[1]) is Some
    &&& num(w[0]) >= 1
    &&& w.len() >= 2 + 4 * num(w[1]) + 2 * num(w[0]) - 1
    &&& forall|j: int| 2 <= j < 2 + 4 * num(w[1]) ==> (#[trigger] parse_usize(w[j])) is Some
}

/// `input` holds what the words of an instance text say.
pub open spec fn parsed_instance(w: Seq<Seq<char>>, input: Input) -> bool {
    let n = num(w[0]);
    let k = num(w[1]);
    &&& input.N == n
    &&& input.K == k
    &&& input.W == 0
    &&& input.ss@.len() == k
    &&& input.ts@.len() == k
    &&& forall|i: int| 0 <= i < k ==> #[trigger] input.ss@[i] == (num(w[2 + 4 * i]) as usize, num(w[3 + 4 * i]) as usize)
    &&& forall|i: int| 0 <= i < k ==> #[trigger] input.ts@[i] == (num(w[4 + 4 * i]) as usize, num(w[5 + 4 * i]) as usize)
    &&& input.wall_v@.len() == n
    &&& forall|i: int| 0 <= i < n ==> (#[trigger] input.wall_v@[i])@ == wall_row(w[2 + 4 * k + i])
    &&& input.wall_h@.len() == n - 1
    &&& forall|i: int| 0 <= i < n - 1 ==> (#[trigger] input.wall_h@[i])@ == wall_row(w[2 + 4 * k + n + i])
}

fn wall_row_of(w: &Vec<char>) -> (r: Vec<bool>)
    ensures
        r@ == wall_row(w@),
{
    let mut r: Vec<bool> = Vec::new();
    let mut i: usize = 0;
    while i < w.len()
        invariant
            i <= w@.len(),
            r@ == wall_row(w@.subrange(0, i as int)),
        decreases w@.len() - i,
    {
        r.push(w[i] == '1');
        proof {
            assert(wall_row(w@.subrange(0, i + 1)) =~= wall_row(w@.subrange(0, i as int)).push(w@[i as int] == '1'));
        }
        i += 1;
    }
    assert(w@.subrange(0, w@.len() as int) =~= w@);
    r
}

fn number_at(ws: &Vec<Vec<char>>, j: usize) -> (v: usize)
    requires
        j < ws@.len(),
        parse_usize(ws@[j as int]@) is Some,
    ensures
        v == num(ws@[j as int]@),
{
    match parse_usize_of(&ws[j]) {
        Some(v) => v,
        None => 0,
    }
}

/// Reads an instance from the words of its text.
fn instance_of_words(ws: &Vec<Vec<char>>) -> (input: Input)
    requires
        instance_words_ok(views(ws@)),
    ensures
        parsed_instance(views(ws@), input),
{
    let ghost w = views(ws@);
    assert(w[0] == ws@[0]@ && w[1] == ws@[1]@);
    assert(w.len() == ws@.len());
    let _len = ws.len();
    let n = number_at(ws, 0);
    let k = number_at(ws, 1);
    let mut ss: Vec<(usize, usize)> = Vec::new();
    let mut ts: Vec<(usize, usize)> = Vec::new();
    let mut i: usize = 0;
    while i < k
        invariant
            w == views(ws@),
            w.len() == ws@.len(),
            ws@.len() <= usize::MAX,
            instance_words_ok(w),
            n == num(w[0]),
            k == num(w[1]),
            i <= k,
            ss@.len() == i,
            ts@.len() == i,
            forall|a: int| 0 <= a < i ==> #[trigger] ss@[a] == (num(w[2 + 4 * a]) as usize, num(w[3 + 4 * a]) as usize),
            forall|a: int| 0 <= a < i ==> #[trigger] ts@[a] == (num(w[4 + 4 * a]) as usize, num(w[5 + 4 * a]) as usize),
        decreases k - i,
    {
        let base = 2 + 4 * i;
        assert(parse_usize(w[base as int]) is Some);
        assert(parse_usize(w[base + 1]) is Some);
        assert(parse_usize(w[base + 2]) is Some);
        assert(parse_usize(w[base + 3]) is Some);
        let sx = number_at(ws, base);
        let sy = number_at(ws, base + 1);
        let tx = number_at(ws, base + 2);
        let ty = number_at(ws, base + 3);
        ss.push((sx, sy));
        ts.push((tx, ty));
        i += 1;
    }
    let mut wall_v: Vec<Vec<bool>> = Vec::new();
    let mut r: usize = 0;
    while r < n
        invariant
            w == views(ws@),
            w.len() == ws@.len(),
            ws@.len() <= usize::MAX,
            instance_words_ok(w),
            n == num(w[0]),
            k == num(w[1]),
            r <= n,
            wall_v@.len() == r,
            forall|a: int| 0 <= a < r ==> (#[trigger] wall_v@[a])@ == wall_row(w[2 + 4 * k + a]),
        decreases n - r,
    {
        let row = wall_row_of(&ws[2 + 4 * k + r]);
        wall_v.push(row);
        r += 1;
    }
    let mut wall_h: Vec<Vec<bool>> = Vec::new();
    let mut r: usize = 0;
    while r < n - 1
        invariant
            w == views(ws@),
            w.len() == ws@.len(),
            ws@.len() <= usize::MAX,
            instance_words_ok(w),
            n == num(w[0]),
            k == num(w[1]),
            r <= n - 1,
            wall_h@.len() == r,
            forall|a: int| 0 <= a < r ==> (#[trigger] wall_h@[a])@ == wall_row(w[2 + 4 * k + n + a]),
        decreases n - 1 - r,
    {
        let row = wall_row_of(&ws[2 + 4 * k + n + r]);
        wall_h.push(row);
        r += 1;
    }
    Input { N: n, K: k, W: 0, ss, ts, wall_v, wall_h }
}

/// Whether the words make an instance text.
fn instance_words_check(ws: &Vec<Vec<char>>) -> (b: bool)
    ensures
        b == instance_words_ok(views(ws@)),
{
    let ghost w = views(ws@);
    assert(w.len() == ws@.len());
    if ws.len() < 2 {
        return false;
    }
    assert(w[0] == ws@[0]@ && w[1] == ws@[1]@);
    let n = match parse_usize_of(&ws[0]) {
        Some(v) => v,
        None => { return false; },
    };
    let k = match parse_usize_of(&ws[1]) {
        Some(v) => v,
        None => { return false; },
    };
    if n < 1 {
        return false;
    }
    // the words must hold 4 k numbers and 2 n - 1 rows after the first two
    let len = ws.len();
    if k > (len - 2) / 4 {
        return false;
    }
    let after = len - 2 - 4 * k;
    if after < n || after - n < n - 1 {
        return false;
    }
    let mut j: usize = 2;
    while j < 2 + 4 * k
        invariant
            w == views(ws@),
            w.len() == ws@.len(),
            ws@.len() <= usize::MAX,
            2 <= j <= 2 + 4 * k,
            2 + 4 * k <= ws@.len(),
            k == num(w[1]),
            forall|a: int| 2 <= a < j ==> (#[trigger] parse_usize(w[a])) is Some,
        decreases 2 + 4 * k - j,
    {
        assert(w[j as int] == ws@[j as int]@);
        if parse_usize_of(&ws[j]).is_none() {
            return false;
        }
        j += 1;
    }
    true
}

/// Reads an instance text. The text must follow the instance format (`instance_words_ok`);
/// words after the instance are ignored.
pub fn parse_input(f: &str) -> (input: Input)
    requires
        instance_words_ok(words(f@)),
    ensures
        parsed_instance(words(f@), input),
{
    let chars = chars_of(f);
    let ws = split_words(&chars);
    instance_of_words(&ws)
}

/// Reads an instance text; `None` exactly when it does not follow the instance format.
pub fn try_parse_input(f: &str) -> (input: Option<Input>)
    ensures
        input is None <==> !instance_words_ok(words(f@)),
        input matches Some(i) ==> parsed_instance(words(f@), i),
{
    let chars = chars_of(f);
    let ws = split_words(&chars);
    if instance_words_check(&ws) {
        Some(instance_of_words(&ws))
    } else {
        None
    }
}


/// The word at `i`, if there is one.
pub open spec fn word_at(toks: Seq<Seq<char>>, i: int) -> Option<Seq<char>> {
    if 0 <= i < toks.len() {
        Some(toks[i])
    } else {
        None
    }
}

/// What `read` gives for a number in `low..high`.
pub open spec fn read_usize_spec(tok: Option<Seq<char>>, low: usize, high: usize) -> Result<usize, Seq<char>> {
    match tok {
        None => Err("Unexpected EOF"@),
        Some(t) => match parse_usize(t) {
            None => Err("Parse error: "@ + t),
            Some(v) => if low <= v < high {
                Ok(v)
            } else {
                Err("Out of range: "@ + decimal(v as nat))
            },
        },
    }
}

/// What `read` gives for a character in `low..=high`: a word of exactly one character.
pub open spec fn read_char_spec(tok: Option<Seq<char>>, low: char, high: char) -> Result<char, Seq<char>> {
    match tok {
        None => Err("Unexpected EOF"@),
        Some(t) => if t.len() != 1 {
            Err("Parse error: "@ + t)
        } else if low <= t[0] <= high {
            Ok(t[0])
        } else {
            Err("Out of range: "@ + seq![t[0]])
        },
    }
}

fn message(text: &str) -> (s: String)
    ensures
        s@ == text@,
{
    String::from_str(text)
}

fn message_with(text: &str, tail: &Vec<char>) -> (s: String)
    ensures
        s@ == text@ + tail@,
{
    let mut v = chars_of(text);
    append_chars(&mut v, tail);
    string_of(&v)
}

/// Reads a number in `low..high` from a word: the error says what went wrong.
pub fn read(token: Option<&Vec<char>>, low: usize, high: usize) -> (r: Result<usize, String>)
    ensures
        match (r, read_usize_spec(
            match token {
                Some(t) => Some(t@),
                None => None,
            },
            low,
            high,
        )) {
            (Ok(a), Ok(b)) => a == b,
            (Err(a), Err(b)) => a@ == b,
            _ => false,
        },
{
    match token {
        None => Err(message("Unexpected EOF")),
        Some(t) => match parse_usize_of(t) {
            None => Err(message_with("Parse error: ", t)),
            Some(v) => if low <= v && v < high {
                Ok(v)
            } else {
                Err(message_with("Out of range: ", &decimal_of(v)))
            },
        },
    }
}

/// Reads a character in `low..=high` from a word of one character.
pub fn read_char(token: Option<&Vec<char>>, low: char, high: char) -> (r: Result<char, String>)
    ensures
        match (r, read_char_spec(
            match token {
                Some(t) => Some(t@),
                None => None,
            },
            low,
            high,
        )) {
            (Ok(a), Ok(b)) => a == b,
            (Err(a), Err(b)) => a@ == b,
            _ => false,
        },
{
    match token {
        None => Err(message("Unexpected EOF")),
        Some(t) => if t.len() != 1 {
            Err(message_with("Parse error: ", t))
        } else if low <= t[0] && t[0] <= high {
            Ok(t[0])
        } else {
            let mut c: Vec<char> = Vec::new();
            c.push(t[0]);
            assert(c@ =~= seq![t@[0]]);
            Err(message_with("Out of range: ", &c))
        },
    }
}

/// The first character of `s` that is neither `'0'` nor `'1'`.
pub open spec fn first_bad(s: Seq<char>) -> Option<char>
    decreases s.len(),
{
    if s.len() == 0 {
        None
    } else if s[0] != '0' && s[0] != '1' {
        Some(s[0])
    } else {
        first_bad(s.drop_first())
    }
}

/// A wall row with the walls marked `'1'` in `s` added.
pub open spec fn add_walls(row: Seq<bool>, s: Seq<char>) -> Seq<bool> {
    Seq::new(row.len(), |j: int| row[j] || (j < s.len() && s[j] == '1'))
}

/// Reads rows `i..n_rows` of a wall board from the words at `start + i`: each must have
/// exactly `width` characters, all `'0'` or `'1'`; the walls marked `'1'` are added to `rows`.
pub open spec fn walls_stage(
    toks: Seq<Seq<char>>,
    start: int,
    rows: Seq<Seq<bool>>,
    n_rows: nat,
    width: nat,
    size_msg: Seq<char>,
    char_msg: Seq<char>,
    i: nat,
) -> Result<Seq<Seq<bool>>, Seq<char>>
    decreases n_rows - i,
{
    if i >= n_rows {
        Ok(rows)
    } else if start + i >= toks.len() {
        Err("Unexpected EOF"@)
    } else {
        let s = toks[start + i];
        if s.len() != width {
            Err(size_msg)
        } else {
            match first_bad(s) {
                Some(c) => Err(char_msg + seq![c]),
                None => walls_stage(toks, start, rows.update(i as int, add_walls(rows[i as int], s)), n_rows, width, size_msg, char_msg, i + 1),
            }
        }
    }
}

/// Reads the groups `i..k` from the words at `start + i`.
pub open spec fn groups_stage(toks: Seq<Seq<char>>, start: int, k: usize, i: nat, acc: Seq<usize>) -> Result<Seq<usize>, Seq<char>>
    decreases k - i,
{
    if i >= k {
        Ok(acc)
    } else {
        match read_usize_spec(word_at(toks, start + i), 0, k) {
            Err(e) => Err(e),
            Ok(g) => groups_stage(toks, start, k, i + 1, acc.push(g)),
        }
    }
}

/// The number of a direction letter: `U`, `D`, `L`, `R`.
pub open spec fn dir_index(c: char) -> Option<usize> {
    if c == 'U' {
        Some(0)
    } else if c == 'D' {
        Some(1)
    } else if c == 'L' {
        Some(2)
    } else if c == 'R' {
        Some(3)
    } else {
        None
    }
}

/// Reads actions from the word at `pos` on, three words each, while words remain.
pub open spec fn moves_stage(toks: Seq<Seq<char>>, pos: int, k: usize, limit: int, acc: Seq<(char, usize, usize)>) -> Result<Seq<(char, usize, usize)>, Seq<char>>
    decreases toks.len() - pos,
{
    if pos >= toks.len() || pos < 0 {
        Ok(acc)
    } else {
        match read_char_spec(word_at(toks, pos), 'a', 'z') {
            Err(e) => Err(e),
            Ok(a) => if a != 'g' && a != 'i' {
                Err("Invalid a[t] character: "@ + seq![a])
            } else {
                match read_usize_spec(word_at(toks, pos + 1), 0, k) {
                    Err(e) => Err(e),
                    Ok(b) => match read_char_spec(word_at(toks, pos + 2), 'A', 'Z') {
                        Err(e) => Err(e),
                        Ok(dir) => match dir_index(dir) {
                            None => Err("Invalid direction: "@ + seq![dir]),
                            Some(d) => if acc.len() + 1 > limit {
                                Err("Too many moves"@)
                            } else {
                                moves_stage(toks, pos + 3, k, limit, acc.push((a, b, d)))
                            },
                        },
                    },
                }
            }
        }
    }
}

/// What reading a solution text gives: the walls of `input` with the walls of the text added,
/// the groups, and the actions, or the first error met.
pub open spec fn parse_output_spec(
    input: Input,
    toks: Seq<Seq<char>>,
) -> Result<(Seq<Seq<bool>>, Seq<Seq<bool>>, Seq<usize>, Seq<(char, usize, usize)>), Seq<char>> {
    let n = input.N as nat;
    let k = input.K;
    match walls_stage(toks, 0, views_b(input.wall_v@), n, (n - 1) as nat, "Illegal output format for v"@, "Invalid character in v: "@, 0) {
        Err(e) => Err(e),
        Ok(wv) => match walls_stage(toks, n as int, views_b(input.wall_h@), (n - 1) as nat, n, "Illegal output format for h"@, "Invalid character in h: "@, 0) {
            Err(e) => Err(e),
            Ok(wh) => match groups_stage(toks, 2 * n - 1, k, 0, seq![]) {
                Err(e) => Err(e),
                Ok(g) => match moves_stage(toks, 2 * n - 1 + k, k, k * n * n, seq![]) {
                    Err(e) => Err(e),
                    Ok(out) => Ok((wv, wh, g, out)),
                },
            },
        },
    }
}

/// The views of the rows of a board.
pub open spec fn views_b(m: Seq<Vec<bool>>) -> Seq<Seq<bool>> {
    m.map_values(|v: Vec<bool>| v@)
}


fn word_ref(toks: &Vec<Vec<char>>, i: usize) -> (r: Option<&Vec<char>>)
    ensures
        match r {
            Some(t) => word_at(views(toks@), i as int) == Some(t@),
            None => word_at(views(toks@), i as int) is None,
        },
{
    if i < toks.len() {
        Some(&toks[i])
    } else {
        None
    }
}

fn first_bad_of(s: &Vec<char>) -> (r: Option<char>)
    ensures
        r == first_bad(s@),
{
    let mut j: usize = 0;
    assert(s@.skip(0) =~= s@);
    while j < s.len()
        invariant
            j <= s@.len(),
            first_bad(s@) == first_bad(s@.skip(j as int)),
        decreases s@.len() - j,
    {
        assert(s@.skip(j as int)[0] == s@[j as int]);
        if s[j] != '0' && s[j] != '1' {
            return Some(s[j]);
        }
        assert(s@.skip(j as int).drop_first() =~= s@.skip(j + 1));
        j += 1;
    }
    assert(s@.skip(j as int) =~= Seq::<char>::empty());
    None
}

fn add_walls_of(row: &Vec<bool>, s: &Vec<char>) -> (r: Vec<bool>)
    ensures
        r@ == add_walls(row@, s@),
{
    let mut r: Vec<bool> = Vec::new();
    let mut j: usize = 0;
    while j < row.len()
        invariant
            j <= row@.len(),
            r@.len() == j,
            forall|a: int| 0 <= a < j ==> #[trigger] r@[a] == (row@[a] || (a < s@.len() && s@[a] == '1')),
        decreases row@.len() - j,
    {
        let w = row[j] || (j < s.len() && s[j] == '1');
        r.push(w);
        j += 1;
    }
    assert(r@ =~= add_walls(row@, s@));
    r
}

fn copy_rows(m: &Vec<Vec<bool>>) -> (r: Vec<Vec<bool>>)
    ensures
        views_b(r@) == views_b(m@),
        r@.len() == m@.len(),
{
    let mut r: Vec<Vec<bool>> = Vec::new();
    let mut i: usize = 0;
    while i < m.len()
        invariant
            i <= m@.len(),
            r@.len() == i,
            forall|a: int| 0 <= a < i ==> (#[trigger] r@[a])@ == m@[a]@,
        decreases m@.len() - i,
    {
        r.push(copy_vec(&m[i]));
        i += 1;
    }
    assert(views_b(r@) =~= views_b(m@));
    r
}

fn read_walls(
    toks: &Vec<Vec<char>>,
    start: usize,
    rows: &mut Vec<Vec<bool>>,
    n_rows: usize,
    width: usize,
    size_msg: &str,
    char_msg: &str,
) -> (r: Result<(), String>)
    requires
        old(rows)@.len() == n_rows,
        start + n_rows <= usize::MAX,
    ensures
        final(rows)@.len() == n_rows,
        match (r, walls_stage(views(toks@), start as int, views_b(old(rows)@), n_rows as nat, width as nat, size_msg@, char_msg@, 0)) {
            (Ok(_), Ok(wv)) => views_b(final(rows)@) == wv,
            (Err(e), Err(m)) => e@ == m,
            _ => false,
        },
{
    let ghost w = views(toks@);
    let ghost init = views_b(rows@);
    let mut i: usize = 0;
    while i < n_rows
        invariant
            w == views(toks@),
            init == views_b(old(rows)@),
            w.len() == toks@.len(),
            i <= n_rows,
            start + n_rows <= usize::MAX,
            rows@.len() == n_rows,
            walls_stage(w, start as int, init, n_rows as nat, width as nat, size_msg@, char_msg@, 0)
                == walls_stage(w, start as int, views_b(rows@), n_rows as nat, width as nat, size_msg@, char_msg@, i as nat),
        decreases n_rows - i,
    {
        if start + i >= toks.len() {
            assert(walls_stage(w, start as int, views_b(rows@), n_rows as nat, width as nat, size_msg@, char_msg@, i as nat) == Err::<Seq<Seq<bool>>, Seq<char>>("Unexpected EOF"@));
            return Err(message("Unexpected EOF"));
        }
        let s = &toks[start + i];
        assert(w[start + i] == s@);
        if s.len() != width {
            assert(walls_stage(w, start as int, views_b(rows@), n_rows as nat, width as nat, size_msg@, char_msg@, i as nat) == Err::<Seq<Seq<bool>>, Seq<char>>(size_msg@));
            return Err(message(size_msg));
        }
        match first_bad_of(s) {
            Some(c) => {
                let mut cv: Vec<char> = Vec::new();
                cv.push(c);
                assert(cv@ =~= seq![c]);
                assert(walls_stage(w, start as int, views_b(rows@), n_rows as nat, width as nat, size_msg@, char_msg@, i as nat) == Err::<Seq<Seq<bool>>, Seq<char>>(char_msg@ + seq![c]));
                return Err(message_with(char_msg, &cv));
            },
            None => {
                let new_row = add_walls_of(&rows[i], s);
                let ghost before = views_b(rows@);
                rows.set(i, new_row);
                proof {
                    assert(views_b(rows@) =~= before.update(i as int, add_walls(before[i as int], s@)));
                }
            },
        }
        i += 1;
    }
    Ok(())
}

/// Reads a solution text for `input`: `N` rows of vertical walls (`N - 1` characters
/// `'0'`/`'1'` each) and `N - 1` rows of horizontal walls (`N` characters), `K` group numbers
/// below `K`, then actions `kind index direction` with kind `g` or `i`, index below `K` and
/// direction one of `U D L R`, at most `K N N` of them. Returns the first error met otherwise.
pub fn parse_output(input: &Input, f: &str) -> (r: Result<Output, String>)
    requires
        input.walls_shaped(),
        input.K * input.N * input.N <= usize::MAX,
        2 * input.N + input.K <= usize::MAX,
    ensures
        match (r, parse_output_spec(*input, words(f@))) {
            (Ok(o), Ok(res)) => views_b(o.wall_v@) == res.0 && views_b(o.wall_h@) == res.1 && o.group@ == res.2 && o.out@ == res.3,
            (Err(e), Err(m)) => e@ == m,
            _ => false,
        },
{
    let chars = chars_of(f);
    let toks = split_words(&chars);
    let ghost w = views(toks@);
    assert(w.len() == toks@.len());
    let _len = toks.len();
    let n = input.N;
    let k = input.K;
    let mut wall_v = copy_rows(&input.wall_v);
    let mut wall_h = copy_rows(&input.wall_h);
    match read_walls(&toks, 0, &mut wall_v, n, n - 1, "Illegal output format for v", "Invalid character in v: ") {
        Err(e) => { return Err(e); },
        Ok(_) => {},
    }
    match read_walls(&toks, n, &mut wall_h, n - 1, n, "Illegal output format for h", "Invalid character in h: ") {
        Err(e) => { return Err(e); },
        Ok(_) => {},
    }
    let ghost wv = views_b(wall_v@);
    let ghost wh = views_b(wall_h@);
    let ghost nn = n as nat;
    assert(walls_stage(w, 0, views_b(input.wall_v@), nn, (nn - 1) as nat, "Illegal output format for v"@, "Invalid character in v: "@, 0) == Ok::<Seq<Seq<bool>>, Seq<char>>(wv));
    assert(walls_stage(w, nn as int, views_b(input.wall_h@), (nn - 1) as nat, nn, "Illegal output format for h"@, "Invalid character in h: "@, 0) == Ok::<Seq<Seq<bool>>, Seq<char>>(wh));
    let gstart = 2 * n - 1;
    let mut group: Vec<usize> = Vec::new();
    let mut i: usize = 0;
    while i < k
        invariant
            w == views(toks@),
            w == words(f@),
            w.len() == toks@.len(),
            toks@.len() <= usize::MAX,
            input.walls_shaped(),
            2 * input.N + input.K <= usize::MAX,
            input.K * input.N * input.N <= usize::MAX,
            n == input.N,
            k == input.K,
            gstart == 2 * n - 1,
            nn == n,
            wv == views_b(wall_v@),
            wh == views_b(wall_h@),
            walls_stage(w, 0, views_b(input.wall_v@), nn, (nn - 1) as nat, "Illegal output format for v"@, "Invalid character in v: "@, 0) == Ok::<Seq<Seq<bool>>, Seq<char>>(wv),
            walls_stage(w, nn as int, views_b(input.wall_h@), (nn - 1) as nat, nn, "Illegal output format for h"@, "Invalid character in h: "@, 0) == Ok::<Seq<Seq<bool>>, Seq<char>>(wh),
            i <= k,
            group@.len() == i,
            groups_stage(w, gstart as int, k, 0, seq![]) == groups_stage(w, gstart as int, k, i as nat, group@),
        decreases k - i,
    {
        let tok = if gstart + i < toks.len() { word_ref(&toks, gstart + i) } else { None };
        assert(word_at(w, gstart + i) == match tok { Some(t) => Some(t@), None => None::<Seq<char>> });
        match read(tok, 0, k) {
            Err(e) => {
                proof {
                    assert(groups_stage(w, gstart as int, k, i as nat, group@) == Err::<Seq<usize>, Seq<char>>(e@));
                    assert(parse_output_spec(*input, w) == Err::<(Seq<Seq<bool>>, Seq<Seq<bool>>, Seq<usize>, Seq<(char, usize, usize)>), Seq<char>>(e@));
                }
                return Err(e);
            },
            Ok(g) => { group.push(g); },
        }
        i += 1;
    }
    proof {
        assert(k * n <= k * n * n) by (nonlinear_arith)
            requires
                n >= 1,
        ;
    }
    let limit = k * n * n;
    let ghost g_all = group@;
    assert(groups_stage(w, gstart as int, k, 0, seq![]) == Ok::<Seq<usize>, Seq<char>>(g_all));
    let mut out: Vec<(char, usize, usize)> = Vec::new();
    let mut pos: usize = if gstart + k <= toks.len() { gstart + k } else { toks.len() };
    let ghost mstart = (gstart + k) as int;
    proof {
        if gstart + k > toks@.len() {
            assert(moves_stage(w, mstart, k, limit as int, seq![]) == moves_stage(w, pos as int, k, limit as int, out@));
        }
    }
    while pos < toks.len()
        invariant
            w == views(toks@),
            w == words(f@),
            w.len() == toks@.len(),
            toks@.len() <= usize::MAX,
            pos <= toks@.len(),
            limit == k * n * n,
            input.walls_shaped(),
            n == input.N,
            k == input.K,
            nn == n,
            gstart == 2 * n - 1,
            wv == views_b(wall_v@),
            wh == views_b(wall_h@),
            g_all == group@,
            mstart == gstart + k,
            walls_stage(w, 0, views_b(input.wall_v@), nn, (nn - 1) as nat, "Illegal output format for v"@, "Invalid character in v: "@, 0) == Ok::<Seq<Seq<bool>>, Seq<char>>(wv),
            walls_stage(w, nn as int, views_b(input.wall_h@), (nn - 1) as nat, nn, "Illegal output format for h"@, "Invalid character in h: "@, 0) == Ok::<Seq<Seq<bool>>, Seq<char>>(wh),
            groups_stage(w, gstart as int, k, 0, seq![]) == Ok::<Seq<usize>, Seq<char>>(g_all),
            out@.len() <= limit,
            moves_stage(w, mstart, k, limit as int, seq![]) == moves_stage(w, pos as int, k, limit as int, out@),
        decreases toks@.len() - pos,
    {
        proof {
            assert(parse_output_spec(*input, w) == match moves_stage(w, pos as int, k, limit as int, out@) {
                Err(e) => Err(e),
                Ok(o) => Ok((wv, wh, g_all, o)),
            });
        }
        let a = match read_char(word_ref(&toks, pos), 'a', 'z') {
            Err(e) => { return Err(e); },
            Ok(a) => a,
        };
        if a != 'g' && a != 'i' {
            let mut cv: Vec<char> = Vec::new();
            cv.push(a);
            assert(cv@ =~= seq![a]);
            return Err(message_with("Invalid a[t] character: ", &cv));
        }
        let b = match read(word_ref(&toks, pos + 1), 0, k) {
            Err(e) => { return Err(e); },
            Ok(b) => b,
        };
        let dir = match read_char(word_ref(&toks, pos + 2), 'A', 'Z') {
            Err(e) => { return Err(e); },
            Ok(c) => c,
        };
        let d: usize = if dir == 'U' { 0 } else if dir == 'D' { 1 } else if dir == 'L' { 2 } else if dir == 'R' { 3 } else {
            let mut cv: Vec<char> = Vec::new();
            cv.push(dir);
            assert(cv@ =~= seq![dir]);
            return Err(message_with("Invalid direction: ", &cv));
        };
        out.push((a, b, d));
        if out.len() > limit {
            return Err(message("Too many moves"));
        }
        pos = if pos + 3 <= toks.len() { pos + 3 } else { toks.len() };
        proof {
            if pos as int == toks@.len() {
                assert(moves_stage(w, pos as int, k, limit as int, out@) == Ok::<Seq<(char, usize, usize)>, Seq<char>>(out@));
            }
        }
    }
    Ok(Output { wall_v, wall_h, group, out })
}


/// A wall row written as `'1'` (wall) and `'0'` (none).
pub open spec fn row_text(v: Seq<bool>) -> Seq<char> {
    v.map_values(|b: bool| if b { '1' } else { '0' })
}

/// The lines `sx sy tx ty` of the first `k` robots.
pub open spec fn robot_lines(ss: Seq<(usize, usize)>, ts: Seq<(usize, usize)>, k: nat) -> Seq<char>
    decreases k,
{
    if k == 0 {
        seq![]
    } else {
        let i = k - 1;
        robot_lines(ss, ts, (k - 1) as nat) + decimal(ss[i].0 as nat) + seq![' '] + decimal(ss[i].1 as nat)
            + seq![' '] + decimal(ts[i].0 as nat) + seq![' '] + decimal(ts[i].1 as nat) + seq!['\n']
    }
}

/// The first `k` rows of a wall board, one line each.
pub open spec fn row_lines(m: Seq<Vec<bool>>, k: nat) -> Seq<char>
    decreases k,
{
    if k == 0 {
        seq![]
    } else {
        row_lines(m, (k - 1) as nat) + row_text(m[k - 1]@) + seq!['\n']
    }
}

/// The text of an instance: `N K`, the robots, the vertical then the horizontal walls.
pub open spec fn instance_text(input: Input) -> Seq<char> {
    decimal(input.N as nat) + seq![' '] + decimal(input.K as nat) + seq!['\n'] + robot_lines(
        input.ss@,
        input.ts@,
        input.K as nat,
    ) + row_lines(input.wall_v@, input.N as nat) + row_lines(input.wall_h@, (input.N - 1) as nat)
}

fn push_char(v: &mut Vec<char>, c: char)
    ensures
        final(v)@ == old(v)@ + seq![c],
{
    v.push(c);
    assert(v@ =~= old(v)@ + seq![c]);
}

fn push_row(v: &mut Vec<char>, row: &Vec<bool>)
    ensures
        final(v)@ == old(v)@ + row_text(row@),
{
    let ghost start = v@;
    let mut j: usize = 0;
    while j < row.len()
        invariant
            j <= row@.len(),
            v@ == start + row_text(row@.subrange(0, j as int)),
        decreases row@.len() - j,
    {
        v.push(if row[j] { '1' } else { '0' });
        proof {
            assert(row_text(row@.subrange(0, j + 1)) =~= row_text(row@.subrange(0, j as int)).push(if row@[j as int] { '1' } else { '0' }));
        }
        j += 1;
    }
    assert(row@.subrange(0, row@.len() as int) =~= row@);
}

impl Input {
    /// The instance in the text format that `parse_input` reads.
    pub fn to_text(&self) -> (s: String)
        requires
            self.N >= 1,
            self.ss@.len() >= self.K,
            self.ts@.len() >= self.K,
            self.wall_v@.len() >= self.N,
            self.wall_h@.len() >= self.N - 1,
        ensures
            s@ == instance_text(*self),
    {
        let mut v: Vec<char> = decimal_of(self.N);
        push_char(&mut v, ' ');
        append_chars(&mut v, &decimal_of(self.K));
        push_char(&mut v, '\n');
        let ghost head = v@;
        let mut i: usize = 0;
        while i < self.K
            invariant
                i <= self.K,
                self.ss@.len() >= self.K,
                self.ts@.len() >= self.K,
                v@ == head + robot_lines(self.ss@, self.ts@, i as nat),
            decreases self.K - i,
        {
            append_chars(&mut v, &decimal_of(self.ss[i].0));
            push_char(&mut v, ' ');
            append_chars(&mut v, &decimal_of(self.ss[i].1));
            push_char(&mut v, ' ');
            append_chars(&mut v, &decimal_of(self.ts[i].0));
            push_char(&mut v, ' ');
            append_chars(&mut v, &decimal_of(self.ts[i].1));
            push_char(&mut v, '\n');
            proof {
                assert(v@ =~= head + robot_lines(self.ss@, self.ts@, (i + 1) as nat));
            }
            i += 1;
        }
        let ghost mid = v@;
        let mut r: usize = 0;
        while r < self.N
            invariant
                r <= self.N,
                self.wall_v@.len() >= self.N,
                v@ == mid + row_lines(self.wall_v@, r as nat),
            decreases self.N - r,
        {
            push_row(&mut v, &self.wall_v[r]);
            push_char(&mut v, '\n');
            proof {
                assert(v@ =~= mid + row_lines(self.wall_v@, (r + 1) as nat));
            }
            r += 1;
        }
        let ghost mid2 = v@;
        let mut r: usize = 0;
        while r < self.N - 1
            invariant
                self.N >= 1,
                r <= self.N - 1,
                self.wall_h@.len() >= self.N - 1,
                v@ == mid2 + row_lines(self.wall_h@, r as nat),
            decreases self.N - 1 - r,
        {
            push_row(&mut v, &self.wall_h[r]);
            push_char(&mut v, '\n');
            proof {
                assert(v@ =~= mid2 + row_lines(self.wall_h@, (r + 1) as nat));
            }
            r += 1;
        }
        proof {
            assert(v@ =~= instance_text(*self));
        }
        string_of(&v)
    }

    /// Whether the instance is well formed (`wf`).
    pub fn check(&self) -> (b: bool)
        ensures
            b == self.wf(),
    {
        if self.N < 1 {
            return false;
        }
        let n = self.N;
        match n.checked_mul(n) {
            Some(cells) => {
                if self.K > cells {
                    return false;
                }
            },
            None => {},
        }
        if self.ss.len() != self.K || self.ts.len() != self.K {
            return false;
        }
        let k = self.K;
        let mut i: usize = 0;
        while i < k
            invariant
                i <= k,
                k == self.K,
                n == self.N,
                self.ss@.len() == k,
                self.ts@.len() == k,
                forall|a: int| 0 <= a < i ==> on_board(#[trigger] self.ss@[a], n as int),
                forall|a: int| 0 <= a < i ==> on_board(#[trigger] self.ts@[a], n as int),
                forall|a: int, b: int| 0 <= a < i && 0 <= b < k && a != b ==> #[trigger] self.ss@[a] != #[trigger] self.ss@[b],
            decreases k - i,
        {
            if self.ss[i].0 >= n || self.ss[i].1 >= n || self.ts[i].0 >= n || self.ts[i].1 >= n {
                return false;
            }
            let mut j: usize = 0;
            while j < k
                invariant
                    i < k,
                    j <= k,
                    k == self.K,
                    self.ss@.len() == k,
                    forall|b: int| 0 <= b < j && b != i ==> self.ss@[i as int] != #[trigger] self.ss@[b],
                decreases k - j,
            {
                if j != i && self.ss[i].0 == self.ss[j].0 && self.ss[i].1 == self.ss[j].1 {
                    return false;
                }
                j += 1;
            }
            i += 1;
        }
        if !rows_of_len(&self.wall_v, n, n - 1) || !rows_of_len(&self.wall_h, n - 1, n) {
            return false;
        }
        true
    }
}

/// The letter of a judge direction.
pub open spec fn dir_letter(d: int) -> char {
    if d == 0 {
        'U'
    } else if d == 1 {
        'D'
    } else if d == 2 {
        'L'
    } else {
        'R'
    }
}

/// The first `k` numbers of `g`, separated by single spaces.
pub open spec fn numbers_text(g: Seq<usize>, k: nat) -> Seq<char>
    decreases k,
{
    if k == 0 {
        seq![]
    } else if k == 1 {
        decimal(g[0] as nat)
    } else {
        numbers_text(g, (k - 1) as nat) + seq![' '] + decimal(g[k - 1] as nat)
    }
}

/// The lines `kind index direction` of the first `k` actions.
pub open spec fn action_lines(out: Seq<(char, usize, usize)>, k: nat) -> Seq<char>
    decreases k,
{
    if k == 0 {
        seq![]
    } else {
        let a = out[k - 1];
        action_lines(out, (k - 1) as nat) + seq![a.0, ' '] + decimal(a.1 as nat) + seq![' ', dir_letter(a.2 as int), '\n']
    }
}

/// The text of a solution: the vertical then the horizontal walls, the groups on one line,
/// then one line per action.
pub open spec fn output_text(out: Output) -> Seq<char> {
    row_lines(out.wall_v@, out.wall_v@.len()) + row_lines(out.wall_h@, out.wall_h@.len()) + numbers_text(
        out.group@,
        out.group@.len(),
    ) + seq!['\n'] + action_lines(out.out@, out.out@.len())
}

fn dir_letter_of(d: usize) -> (c: char)
    ensures
        c == dir_letter(d as int),
{
    if d == 0 {
        'U'
    } else if d == 1 {
        'D'
    } else if d == 2 {
        'L'
    } else {
        'R'
    }
}

impl Output {
    /// The solution in the text format that `parse_output` reads.
    pub fn to_text(&self) -> (s: String)
        ensures
            s@ == output_text(*self),
    {
        let mut v: Vec<char> = Vec::new();
        let mut r: usize = 0;
        while r < self.wall_v.len()
            invariant
                r <= self.wall_v@.len(),
                v@ == row_lines(self.wall_v@, r as nat),
            decreases self.wall_v@.len() - r,
        {
            push_row(&mut v, &self.wall_v[r]);
            push_char(&mut v, '\n');
            proof {
                assert(v@ =~= row_lines(self.wall_v@, (r + 1) as nat));
            }
            r += 1;
        }
        let ghost mid = v@;
        let mut r: usize = 0;
        while r < self.wall_h.len()
            invariant
                r <= self.wall_h@.len(),
                v@ == mid + row_lines(self.wall_h@, r as nat),
            decreases self.wall_h@.len() - r,
        {
            push_row(&mut v, &self.wall_h[r]);
            push_char(&mut v, '\n');
            proof {
                assert(v@ =~= mid + row_lines(self.wall_h@, (r + 1) as nat));
            }
            r += 1;
        }
        let ghost mid2 = v@;
        let mut i: usize = 0;
        while i < self.group.len()
            invariant
                i <= self.group@.len(),
                v@ == mid2 + numbers_text(self.group@, i as nat),
            decreases self.group@.len() - i,
        {
            if i > 0 {
                push_char(&mut v, ' ');
            }
            append_chars(&mut v, &decimal_of(self.group[i]));
            proof {
                assert(v@ =~= mid2 + numbers_text(self.group@, (i + 1) as nat));
            }
            i += 1;
        }
        push_char(&mut v, '\n');
        let ghost mid3 = v@;
        let mut t: usize = 0;
        while t < self.out.len()
            invariant
                t <= self.out@.len(),
                v@ == mid3 + action_lines(self.out@, t as nat),
            decreases self.out@.len() - t,
        {
            let (a, b, d) = self.out[t];
            push_char(&mut v, a);
            push_char(&mut v, ' ');
            append_chars(&mut v, &decimal_of(b));
            push_char(&mut v, ' ');
            push_char(&mut v, dir_letter_of(d));
            push_char(&mut v, '\n');
            proof {
                assert(v@ =~= mid3 + action_lines(self.out@, (t + 1) as nat));
            }
            t += 1;
        }
        proof {
            assert(v@ =~= output_text(*self));
        }
        string_of(&v)
    }
}

/// The words of the first `k` robot lines: `sx sy tx ty` for each robot.
pub open spec fn robot_words(ss: Seq<(usize, usize)>, ts: Seq<(usize, usize)>, k: nat) -> Seq<Seq<char>>
    decreases k,
{
    if k == 0 {
        seq![]
    } else {
        let i = k - 1;
        robot_words(ss, ts, (k - 1) as nat) + seq![
            decimal(ss[i].0 as nat),
            decimal(ss[i].1 as nat),
            decimal(ts[i].0 as nat),
            decimal(ts[i].1 as nat),
        ]
    }
}

/// The words of the first `k` rows of a wall board: one per row.
pub open spec fn row_words(m: Seq<Vec<bool>>, k: nat) -> Seq<Seq<char>>
    decreases k,
{
    if k == 0 {
        seq![]
    } else {
        row_words(m, (k - 1) as nat).push(row_text(m[k - 1]@))
    }
}

proof fn lemma_ends_ws_append(x: Seq<char>, y: Seq<char>)
    requires
        ends_ws(x),
        ends_ws(y),
    ensures
        ends_ws(x + y),
{
    if y.len() == 0 {
        assert(x + y =~= x);
    } else {
        assert((x + y).last() == y.last());
    }
}

proof fn lemma_four_words(a: nat, b: nat, c: nat, d: nat)
    ensures
        words(decimal(a) + seq![' '] + decimal(b) + seq![' '] + decimal(c) + seq![' '] + decimal(d) + seq!['\n'])
            == seq![decimal(a), decimal(b), decimal(c), decimal(d)],
        ends_ws(decimal(a) + seq![' '] + decimal(b) + seq![' '] + decimal(c) + seq![' '] + decimal(d) + seq!['\n']),
{
    lemma_decimal(a);
    lemma_decimal(b);
    lemma_decimal(c);
    lemma_decimal(d);
    let p1 = decimal(a).push(' ');
    let p2 = decimal(b).push(' ');
    let p3 = decimal(c).push(' ');
    let p4 = decimal(d).push('\n');
    let line = decimal(a) + seq![' '] + decimal(b) + seq![' '] + decimal(c) + seq![' '] + decimal(d) + seq!['\n'];
    assert(line =~= p1 + (p2 + (p3 + p4)));
    lemma_words_append(p1, p2 + (p3 + p4));
    lemma_words_append(p2, p3 + p4);
    lemma_words_append(p3, p4);
    lemma_words_of_word(decimal(a), ' ');
    lemma_words_of_word(decimal(b), ' ');
    lemma_words_of_word(decimal(c), ' ');
    lemma_words_of_word(decimal(d), '\n');
    assert(seq![decimal(a)] + (seq![decimal(b)] + (seq![decimal(c)] + seq![decimal(d)])) =~= seq![
        decimal(a),
        decimal(b),
        decimal(c),
        decimal(d),
    ]);
    assert(line.last() == '\n');
}

proof fn lemma_robot_words_index(ss: Seq<(usize, usize)>, ts: Seq<(usize, usize)>, k: nat, i: int)
    requires
        0 <= i < k,
    ensures
        robot_words(ss, ts, k).len() == 4 * k,
        robot_words(ss, ts, k)[4 * i] == decimal(ss[i].0 as nat),
        robot_words(ss, ts, k)[4 * i + 1] == decimal(ss[i].1 as nat),
        robot_words(ss, ts, k)[4 * i + 2] == decimal(ts[i].0 as nat),
        robot_words(ss, ts, k)[4 * i + 3] == decimal(ts[i].1 as nat),
    decreases k,
{
    lemma_robot_words_len(ss, ts, (k - 1) as nat);
    if i < k - 1 {
        lemma_robot_words_index(ss, ts, (k - 1) as nat, i);
    }
}

proof fn lemma_robot_words_len(ss: Seq<(usize, usize)>, ts: Seq<(usize, usize)>, k: nat)
    ensures
        robot_words(ss, ts, k).len() == 4 * k,
    decreases k,
{
    if k > 0 {
        lemma_robot_words_len(ss, ts, (k - 1) as nat);
    }
}

proof fn lemma_robot_words(ss: Seq<(usize, usize)>, ts: Seq<(usize, usize)>, k: nat)
    requires
        k <= ss.len(),
        k <= ts.len(),
    ensures
        words(robot_lines(ss, ts, k)) == robot_words(ss, ts, k),
        ends_ws(robot_lines(ss, ts, k)),
    decreases k,
{
    if k == 0 {
        assert(words(Seq::<char>::empty()) == Seq::<Seq<char>>::empty());
    } else {
        let i = k - 1;
        lemma_robot_words(ss, ts, (k - 1) as nat);
        let prev = robot_lines(ss, ts, (k - 1) as nat);
        let line = decimal(ss[i].0 as nat) + seq![' '] + decimal(ss[i].1 as nat) + seq![' '] + decimal(ts[i].0 as nat)
            + seq![' '] + decimal(ts[i].1 as nat) + seq!['\n'];
        assert(robot_lines(ss, ts, k) =~= prev + line);
        lemma_four_words(ss[i].0 as nat, ss[i].1 as nat, ts[i].0 as nat, ts[i].1 as nat);
        lemma_words_append(prev, line);
        lemma_ends_ws_append(prev, line);
    }
}

proof fn lemma_row_words(m: Seq<Vec<bool>>, k: nat)
    requires
        k <= m.len(),
        forall|i: int| 0 <= i < k ==> (#[trigger] m[i])@.len() > 0,
    ensures
        words(row_lines(m, k)) == row_words(m, k),
        ends_ws(row_lines(m, k)),
        row_words(m, k).len() == k,
        forall|i: int| 0 <= i < k ==> #[trigger] row_words(m, k)[i] == row_text(m[i]@),
    decreases k,
{
    if k == 0 {
        assert(words(Seq::<char>::empty()) == Seq::<Seq<char>>::empty());
    } else {
        lemma_row_words(m, (k - 1) as nat);
        let prev = row_lines(m, (k - 1) as nat);
        let t = row_text(m[k - 1]@);
        assert(m[k - 1]@.len() > 0);
        assert(is_word(t)) by {
            assert forall|i: int| 0 <= i < t.len() implies !is_ws(#[trigger] t[i]) by {
                assert(t[i] == '0' || t[i] == '1');
            }
        }
        assert(row_lines(m, k) =~= prev + t.push('\n'));
        lemma_words_of_word(t, '\n');
        lemma_words_append(prev, t.push('\n'));
        lemma_ends_ws_append(prev, t.push('\n'));
        assert(row_words(m, (k - 1) as nat) + seq![t] =~= row_words(m, k));
    }
}

/// Reading back a wall row written as `'0'` and `'1'` gives the row.
proof fn lemma_wall_row_text(v: Seq<bool>)
    ensures
        wall_row(row_text(v)) == v,
{
    assert(wall_row(row_text(v)) =~= v);
}

/// The two instances agree in everything the text format holds.
pub open spec fn same_instance(x: Input, y: Input) -> bool {
    &&& x.N == y.N
    &&& x.K == y.K
    &&& x.ss@ == y.ss@
    &&& x.ts@ == y.ts@
    &&& views_b(x.wall_v@) == views_b(y.wall_v@)
    &&& views_b(x.wall_h@) == views_b(y.wall_h@)
}

/// Writing an instance whose shapes agree and whose board is at least 2 wide, and reading
/// the text back, gives the same instance.
pub proof fn law_instance_text_round_trip(input: Input)
    requires
        input.shaped(),
        input.N >= 2,
    ensures
        instance_words_ok(words(instance_text(input))),
        forall|x: Input| parsed_instance(words(instance_text(input)), x) ==> same_instance(x, input),
{
    let n = input.N;
    let k = input.K;
    let head = decimal(n as nat).push(' ') + decimal(k as nat).push('\n');
    let b = robot_lines(input.ss@, input.ts@, k as nat);
    let c = row_lines(input.wall_v@, n as nat);
    let d = row_lines(input.wall_h@, (n - 1) as nat);
    assert(instance_text(input) =~= head + (b + (c + d)));
    lemma_decimal(n as nat);
    lemma_decimal(k as nat);
    lemma_parse_decimal(n);
    lemma_parse_decimal(k);
    lemma_words_of_word(decimal(n as nat), ' ');
    lemma_words_of_word(decimal(k as nat), '\n');
    lemma_words_append(decimal(n as nat).push(' '), decimal(k as nat).push('\n'));
    assert(head.last() == '\n');
    lemma_robot_words(input.ss@, input.ts@, k as nat);
    lemma_row_words(input.wall_v@, n as nat);
    lemma_row_words(input.wall_h@, (n - 1) as nat);
    lemma_words_append(head, b + (c + d));
    lemma_words_append(b, c + d);
    lemma_words_append(c, d);
    let hw = seq![decimal(n as nat), decimal(k as nat)];
    let rw = robot_words(input.ss@, input.ts@, k as nat);
    let vw = row_words(input.wall_v@, n as nat);
    let zw = row_words(input.wall_h@, (n - 1) as nat);
    let w = words(instance_text(input));
    assert(words(head) =~= hw);
    assert(w =~= hw + (rw + (vw + zw)));
    assert(w[0] == decimal(n as nat));
    assert(w[1] == decimal(k as nat));
    assert(num(w[0]) == n);
    assert(num(w[1]) == k);
    lemma_robot_words_len(input.ss@, input.ts@, k as nat);
    assert forall|i: int| 0 <= i < k implies {
        &&& #[trigger] w[2 + 4 * i] == decimal(input.ss@[i].0 as nat)
        &&& w[3 + 4 * i] == decimal(input.ss@[i].1 as nat)
        &&& w[4 + 4 * i] == decimal(input.ts@[i].0 as nat)
        &&& w[5 + 4 * i] == decimal(input.ts@[i].1 as nat)
    } by {
        lemma_robot_words_index(input.ss@, input.ts@, k as nat, i);
        assert(w[2 + 4 * i] == rw[4 * i]);
        assert(w[3 + 4 * i] == rw[4 * i + 1]);
        assert(w[4 + 4 * i] == rw[4 * i + 2]);
        assert(w[5 + 4 * i] == rw[4 * i + 3]);
    }
    assert forall|j: int| 2 <= j < 2 + 4 * num(w[1]) implies (#[trigger] parse_usize(w[j])) is Some by {
        let i = (j - 2) / 4;
        let r = (j - 2) % 4;
        assert(j == 2 + 4 * i + r);
        assert(0 <= i < k);
        assert(w[2 + 4 * i] == decimal(input.ss@[i].0 as nat));
        lemma_parse_decimal(input.ss@[i].0);
        lemma_parse_decimal(input.ss@[i].1);
        lemma_parse_decimal(input.ts@[i].0);
        lemma_parse_decimal(input.ts@[i].1);
    }
    assert forall|i: int| 0 <= i < n implies #[trigger] w[2 + 4 * k + i] == row_text(input.wall_v@[i]@) by {
        assert(w[2 + 4 * k + i] == vw[i]);
    }
    assert forall|i: int| 0 <= i < n - 1 implies #[trigger] w[2 + 4 * k + n + i] == row_text(input.wall_h@[i]@) by {
        assert(w[2 + 4 * k + n + i] == zw[i]);
    }
    assert forall|x: Input| parsed_instance(w, x) implies same_instance(x, input) by {
        assert forall|i: int| 0 <= i < k implies #[trigger] x.ss@[i] == input.ss@[i] by {
            assert(w[2 + 4 * i] == decimal(input.ss@[i].0 as nat));
            lemma_parse_decimal(input.ss@[i].0);
            lemma_parse_decimal(input.ss@[i].1);
        }
        assert forall|i: int| 0 <= i < k implies #[trigger] x.ts@[i] == input.ts@[i] by {
            assert(w[2 + 4 * i] == decimal(input.ss@[i].0 as nat));
            lemma_parse_decimal(input.ts@[i].0);
            lemma_parse_decimal(input.ts@[i].1);
        }
        assert(x.ss@ =~= input.ss@);
        assert(x.ts@ =~= input.ts@);
        assert forall|i: int| 0 <= i < n implies #[trigger] views_b(x.wall_v@)[i] == views_b(input.wall_v@)[i] by {
            lemma_wall_row_text(input.wall_v@[i]@);
            assert(x.wall_v@[i]@ == wall_row(w[2 + 4 * k + i]));
        }
        assert forall|i: int| 0 <= i < n - 1 implies #[trigger] views_b(x.wall_h@)[i] == views_b(input.wall_h@)[i] by {
            lemma_wall_row_text(input.wall_h@[i]@);
            assert(x.wall_h@[i]@ == wall_row(w[2 + 4 * k + n + i]));
        }
        assert(views_b(x.wall_v@) =~= views_b(input.wall_v@));
        assert(views_b(x.wall_h@) =~= views_b(input.wall_h@));
    }
}

/// The words of the first `k` numbers of `g`.
pub open spec fn number_words(g: Seq<usize>, k: nat) -> Seq<Seq<char>>
    decreases k,
{
    if k == 0 {
        seq![]
    } else {
        number_words(g, (k - 1) as nat).push(decimal(g[k - 1] as nat))
    }
}

/// The words of the first `k` action lines.
pub open spec fn action_words(out: Seq<(char, usize, usize)>, k: nat) -> Seq<Seq<char>>
    decreases k,
{
    if k == 0 {
        seq![]
    } else {
        let a = out[k - 1];
        action_words(out, (k - 1) as nat) + seq![seq![a.0], decimal(a.1 as nat), seq![dir_letter(a.2 as int)]]
    }
}

proof fn lemma_number_words(g: Seq<usize>, k: nat, c: char)
    requires
        k <= g.len(),
        is_ws(c),
    ensures
        words(numbers_text(g, k) + seq![c]) == number_words(g, k),
        number_words(g, k).len() == k,
        forall|i: int| 0 <= i < k ==> #[trigger] number_words(g, k)[i] == decimal(g[i] as nat),
    decreases k,
{
    if k == 0 {
        assert(numbers_text(g, k) + seq![c] =~= seq![c]);
        assert(seq![c].drop_first() =~= Seq::<char>::empty());
        assert(seq![c][0] == c);
        assert(words(seq![c]) == words(Seq::<char>::empty()));
        assert(words(Seq::<char>::empty()) == Seq::<Seq<char>>::empty());
        assert(number_words(g, k) == Seq::<Seq<char>>::empty());
    } else {
        lemma_decimal(g[k - 1] as nat);
        lemma_words_of_word(decimal(g[k - 1] as nat), c);
        if k == 1 {
            assert(numbers_text(g, k) + seq![c] =~= decimal(g[0] as nat).push(c));
            assert(number_words(g, 0) =~= Seq::<Seq<char>>::empty());
            assert(number_words(g, 1) =~= seq![decimal(g[0] as nat)]);
        } else {
            lemma_number_words(g, (k - 1) as nat, ' ');
            let t = numbers_text(g, (k - 1) as nat) + seq![' '];
            assert(numbers_text(g, k) + seq![c] =~= t + decimal(g[k - 1] as nat).push(c));
            assert(t.last() == ' ');
            lemma_words_append(t, decimal(g[k - 1] as nat).push(c));
            assert(number_words(g, (k - 1) as nat) + seq![decimal(g[k - 1] as nat)] =~= number_words(g, k));
        }
        lemma_number_words_index(g, k);
    }
}

proof fn lemma_number_words_index(g: Seq<usize>, k: nat)
    ensures
        number_words(g, k).len() == k,
        forall|i: int| 0 <= i < k ==> #[trigger] number_words(g, k)[i] == decimal(g[i] as nat),
    decreases k,
{
    if k > 0 {
        lemma_number_words_index(g, (k - 1) as nat);
    }
}

proof fn lemma_action_line_words(a: (char, usize, usize))
    requires
        !is_ws(a.0),
    ensures
        words(seq![a.0, ' '] + decimal(a.1 as nat) + seq![' ', dir_letter(a.2 as int), '\n']) == seq![
            seq![a.0],
            decimal(a.1 as nat),
            seq![dir_letter(a.2 as int)],
        ],
        ends_ws(seq![a.0, ' '] + decimal(a.1 as nat) + seq![' ', dir_letter(a.2 as int), '\n']),
{
    let p1 = seq![a.0].push(' ');
    let p2 = decimal(a.1 as nat).push(' ');
    let p3 = seq![dir_letter(a.2 as int)].push('\n');
    let line = seq![a.0, ' '] + decimal(a.1 as nat) + seq![' ', dir_letter(a.2 as int), '\n'];
    assert(line =~= p1 + (p2 + p3));
    lemma_decimal(a.1 as nat);
    assert(is_word(seq![a.0]));
    assert(is_word(seq![dir_letter(a.2 as int)]));
    lemma_words_of_word(seq![a.0], ' ');
    lemma_words_of_word(decimal(a.1 as nat), ' ');
    lemma_words_of_word(seq![dir_letter(a.2 as int)], '\n');
    lemma_words_append(p1, p2 + p3);
    lemma_words_append(p2, p3);
    assert(line.last() == '\n');
    assert(seq![seq![a.0]] + (seq![decimal(a.1 as nat)] + seq![seq![dir_letter(a.2 as int)]]) =~= seq![
        seq![a.0],
        decimal(a.1 as nat),
        seq![dir_letter(a.2 as int)],
    ]);
}

proof fn lemma_action_words(out: Seq<(char, usize, usize)>, k: nat)
    requires
        k <= out.len(),
        forall|t: int| 0 <= t < k ==> !is_ws((#[trigger] out[t]).0),
    ensures
        words(action_lines(out, k)) == action_words(out, k),
        ends_ws(action_lines(out, k)),
    decreases k,
{
    if k == 0 {
        assert(words(Seq::<char>::empty()) == Seq::<Seq<char>>::empty());
    } else {
        lemma_action_words(out, (k - 1) as nat);
        let a = out[k - 1];
        let prev = action_lines(out, (k - 1) as nat);
        let line = seq![a.0, ' '] + decimal(a.1 as nat) + seq![' ', dir_letter(a.2 as int), '\n'];
        assert(action_lines(out, k) =~= prev + line);
        lemma_action_line_words(a);
        lemma_words_append(prev, line);
        lemma_ends_ws_append(prev, line);
        assert(action_words(out, (k - 1) as nat) + seq![
            seq![a.0],
            decimal(a.1 as nat),
            seq![dir_letter(a.2 as int)],
        ] =~= action_words(out, k));
    }
}

proof fn lemma_action_words_index(out: Seq<(char, usize, usize)>, k: nat, t: int)
    requires
        0 <= t < k,
    ensures
        action_words(out, k).len() == 3 * k,
        action_words(out, k)[3 * t] == seq![out[t].0],
        action_words(out, k)[3 * t + 1] == decimal(out[t].1 as nat),
        action_words(out, k)[3 * t + 2] == seq![dir_letter(out[t].2 as int)],
    decreases k,
{
    lemma_action_words_len(out, (k - 1) as nat);
    if t < k - 1 {
        lemma_action_words_index(out, (k - 1) as nat, t);
    }
}

proof fn lemma_action_words_len(out: Seq<(char, usize, usize)>, k: nat)
    ensures
        action_words(out, k).len() == 3 * k,
    decreases k,
{
    if k > 0 {
        lemma_action_words_len(out, (k - 1) as nat);
    }
}

/// Each row of `a` with the walls of the same row of `b` added.
pub open spec fn or_rows(a: Seq<Seq<bool>>, b: Seq<Seq<bool>>) -> Seq<Seq<bool>> {
    Seq::new(a.len(), |i: int| add_walls(a[i], row_text(b[i])))
}

proof fn lemma_first_bad_row_text(v: Seq<bool>)
    ensures
        first_bad(row_text(v)) is None,
    decreases v.len(),
{
    if v.len() > 0 {
        lemma_first_bad_row_text(v.drop_first());
        assert(row_text(v).drop_first() =~= row_text(v.drop_first()));
    }
}

proof fn lemma_walls_stage(
    toks: Seq<Seq<char>>,
    start: int,
    orig: Seq<Seq<bool>>,
    m: Seq<Seq<bool>>,
    rows: Seq<Seq<bool>>,
    n_rows: nat,
    width: nat,
    size_msg: Seq<char>,
    char_msg: Seq<char>,
    i: nat,
)
    requires
        i <= n_rows,
        0 <= start,
        start + n_rows <= toks.len(),
        orig.len() == n_rows,
        m.len() == n_rows,
        rows.len() == n_rows,
        forall|j: int| 0 <= j < n_rows ==> (#[trigger] m[j]).len() == width,
        forall|j: int| 0 <= j < n_rows ==> #[trigger] toks[start + j] == row_text(m[j]),
        forall|j: int| 0 <= j < i ==> #[trigger] rows[j] == or_rows(orig, m)[j],
        forall|j: int| i <= j < n_rows ==> #[trigger] rows[j] == orig[j],
    ensures
        walls_stage(toks, start, rows, n_rows, width, size_msg, char_msg, i) == Ok::<Seq<Seq<bool>>, Seq<char>>(
            or_rows(orig, m),
        ),
    decreases n_rows - i,
{
    if i >= n_rows {
        assert(rows =~= or_rows(orig, m));
    } else {
        let s = toks[start + i];
        assert(s == row_text(m[i as int]));
        lemma_first_bad_row_text(m[i as int]);
        let rows2 = rows.update(i as int, add_walls(rows[i as int], s));
        assert forall|j: int| 0 <= j < i + 1 implies #[trigger] rows2[j] == or_rows(orig, m)[j] by {
            if j == i {
                assert(rows[j] == orig[j]);
            }
        }
        lemma_walls_stage(toks, start, orig, m, rows2, n_rows, width, size_msg, char_msg, i + 1);
    }
}

proof fn lemma_groups_stage(toks: Seq<Seq<char>>, start: int, g: Seq<usize>, k: usize, i: nat)
    requires
        i <= k,
        g.len() == k,
        0 <= start,
        start + k <= toks.len(),
        forall|j: int| 0 <= j < k ==> #[trigger] g[j] < k,
        forall|j: int| 0 <= j < k ==> #[trigger] toks[start + j] == decimal(g[j] as nat),
    ensures
        groups_stage(toks, start, k, i, g.take(i as int)) == Ok::<Seq<usize>, Seq<char>>(g),
    decreases k - i,
{
    if i >= k {
        assert(g.take(i as int) =~= g);
    } else {
        assert(word_at(toks, start + i) == Some(decimal(g[i as int] as nat)));
        lemma_parse_decimal(g[i as int]);
        assert(g.take(i as int).push(g[i as int]) =~= g.take((i + 1) as int));
        lemma_groups_stage(toks, start, g, k, i + 1);
    }
}

proof fn lemma_moves_stage(
    toks: Seq<Seq<char>>,
    base: int,
    out: Seq<(char, usize, usize)>,
    k: usize,
    limit: int,
    done: nat,
)
    requires
        0 <= base,
        done <= out.len(),
        out.len() <= limit,
        toks.len() == base + 3 * out.len(),
        forall|t: int| 0 <= t < out.len() ==> {
            &&& ((#[trigger] out[t]).0 == 'g' || out[t].0 == 'i')
            &&& out[t].1 < k
            &&& out[t].2 < 4
        },
        forall|t: int| 0 <= t < out.len() ==> {
            &&& #[trigger] toks[base + 3 * t] == seq![out[t].0]
            &&& toks[base + 3 * t + 1] == decimal(out[t].1 as nat)
            &&& toks[base + 3 * t + 2] == seq![dir_letter(out[t].2 as int)]
        },
    ensures
        moves_stage(toks, base + 3 * done, k, limit, out.take(done as int)) == Ok::<
            Seq<(char, usize, usize)>,
            Seq<char>,
        >(out),
    decreases out.len() - done,
{
    let pos = base + 3 * done;
    if done >= out.len() {
        assert(out.take(done as int) =~= out);
    } else {
        let a = out[done as int];
        assert(toks[pos] == seq![a.0]);
        assert(toks[pos + 1] == decimal(a.1 as nat));
        assert(toks[pos + 2] == seq![dir_letter(a.2 as int)]);
        assert(word_at(toks, pos) == Some(seq![a.0]));
        assert(word_at(toks, pos + 1) == Some(decimal(a.1 as nat)));
        assert(word_at(toks, pos + 2) == Some(seq![dir_letter(a.2 as int)]));
        lemma_parse_decimal(a.1);
        assert(seq![a.0][0] == a.0);
        assert(seq![dir_letter(a.2 as int)][0] == dir_letter(a.2 as int));
        assert(dir_index(dir_letter(a.2 as int)) == Some(a.2));
        assert(out.take(done as int).push(a) =~= out.take((done + 1) as int));
        assert(pos + 3 == base + 3 * (done + 1));
        lemma_moves_stage(toks, base, out, k, limit, done + 1);
    }
}

/// Writing a solution that fits the instance, with actions of kind `'g'` or `'i'` and no more
/// of them than the judge allows, and reading the text back gives the same groups and
/// actions, and the instance's walls with the solution's walls added.
pub proof fn law_output_text_round_trip(input: Input, out: Output)
    requires
        input.walls_shaped(),
        input.N >= 2,
        out.fits(&input),
        out.out@.len() <= input.K * input.N * input.N,
        forall|t: int| 0 <= t < out.out@.len() ==> ((#[trigger] out.out@[t]).0 == 'g' || out.out@[t].0 == 'i'),
    ensures
        parse_output_spec(input, words(output_text(out))) == Ok::<
            (Seq<Seq<bool>>, Seq<Seq<bool>>, Seq<usize>, Seq<(char, usize, usize)>),
            Seq<char>,
        >((
            or_rows(views_b(input.wall_v@), views_b(out.wall_v@)),
            or_rows(views_b(input.wall_h@), views_b(out.wall_h@)),
            out.group@,
            out.out@,
        )),
{
    let n = input.N;
    let k = input.K;
    let a = row_lines(out.wall_v@, n as nat);
    let b = row_lines(out.wall_h@, (n - 1) as nat);
    let c = numbers_text(out.group@, k as nat) + seq!['\n'];
    let d = action_lines(out.out@, out.out@.len());
    assert(output_text(out) =~= a + (b + (c + d)));
    lemma_row_words(out.wall_v@, n as nat);
    lemma_row_words(out.wall_h@, (n - 1) as nat);
    lemma_number_words(out.group@, k as nat, '\n');
    assert forall|t: int| 0 <= t < out.out@.len() implies !is_ws((#[trigger] out.out@[t]).0) by {}
    lemma_action_words(out.out@, out.out@.len());
    lemma_action_words_len(out.out@, out.out@.len());
    assert(c.last() == '\n');
    lemma_words_append(a, b + (c + d));
    lemma_words_append(b, c + d);
    lemma_words_append(c, d);
    let vw = row_words(out.wall_v@, n as nat);
    let hw = row_words(out.wall_h@, (n - 1) as nat);
    let gw = number_words(out.group@, k as nat);
    let aw = action_words(out.out@, out.out@.len());
    let w = words(output_text(out));
    assert(w =~= vw + (hw + (gw + aw)));
    let ov = views_b(out.wall_v@);
    let oh = views_b(out.wall_h@);
    assert forall|j: int| 0 <= j < n implies #[trigger] w[0 + j] == row_text(ov[j]) by {
        assert(w[j] == vw[j]);
    }
    assert forall|j: int| 0 <= j < n - 1 implies #[trigger] w[n + j] == row_text(oh[j]) by {
        assert(w[n + j] == hw[j]);
    }
    lemma_walls_stage(
        w,
        0,
        views_b(input.wall_v@),
        ov,
        views_b(input.wall_v@),
        n as nat,
        (n - 1) as nat,
        "Illegal output format for v"@,
        "Invalid character in v: "@,
        0,
    );
    lemma_walls_stage(
        w,
        n as int,
        views_b(input.wall_h@),
        oh,
        views_b(input.wall_h@),
        (n - 1) as nat,
        n as nat,
        "Illegal output format for h"@,
        "Invalid character in h: "@,
        0,
    );
    let gstart = 2 * n - 1;
    assert forall|j: int| 0 <= j < k implies #[trigger] w[gstart + j] == decimal(out.group@[j] as nat) by {
        assert(w[gstart + j] == gw[j]);
    }
    lemma_groups_stage(w, gstart, out.group@, k, 0);
    assert(out.group@.take(0) =~= Seq::<usize>::empty());
    let base = gstart + k;
    assert forall|t: int| 0 <= t < out.out@.len() implies {
        &&& #[trigger] w[base + 3 * t] == seq![out.out@[t].0]
        &&& w[base + 3 * t + 1] == decimal(out.out@[t].1 as nat)
        &&& w[base + 3 * t + 2] == seq![dir_letter(out.out@[t].2 as int)]
    } by {
        lemma_action_words_index(out.out@, out.out@.len(), t);
        assert(w[base + 3 * t] == aw[3 * t]);
        assert(w[base + 3 * t + 1] == aw[3 * t + 1]);
        assert(w[base + 3 * t + 2] == aw[3 * t + 2]);
    }
    lemma_moves_stage(w, base, out.out@, k, k * n * n, 0);
    assert(out.out@.take(0) =~= Seq::<(char, usize, usize)>::empty());
}

fn rows_of_len(m: &Vec<Vec<bool>>, rows: usize, cols: usize) -> (b: bool)
    ensures
        b == is_matrix(m@, rows as int, cols as int),
{
    if m.len() != rows {
        return false;
    }
    let mut i: usize = 0;
    while i < rows
        invariant
            i <= rows,
            m@.len() == rows,
            forall|a: int| 0 <= a < i ==> (#[trigger] m@[a])@.len() == cols,
        decreases rows - i,
    {
        if m[i].len() != cols {
            return false;
        }
        i += 1;
    }
    true
}

/// `*x = min(*x, v)`, telling whether `x` changed.
pub trait SetMinMax: Sized {
    fn setmin(&mut self, v: Self) -> bool;

    fn setmax(&mut self, v: Self) -> bool;
}

impl SetMinMax for i64 {
    fn setmin(&mut self, v: i64) -> (changed: bool)
        ensures
            changed == (*old(self) > v),
            *final(self) == if *old(self) > v { v } else { *old(self) },
    {
        if *self > v {
            *self = v;
            true
        } else {
            false
        }
    }

    fn setmax(&mut self, v: i64) -> (changed: bool)
        ensures
            changed == (*old(self) < v),
            *final(self) == if *old(self) < v { v } else { *old(self) },
    {
        if *self < v {
            *self = v;
            true
        } else {
            false
        }
    }
}

impl SetMinMax for usize {
    fn setmin(&mut self, v: usize) -> (changed: bool)
        ensures
            changed == (*old(self) > v),
            *final(self) == if *old(self) > v { v } else { *old(self) },
    {
        if *self > v {
            *self = v;
            true
        } else {
            false
        }
    }

    fn setmax(&mut self, v: usize) -> (changed: bool)
        ensures
            changed == (*old(self) < v),
            *final(self) == if *old(self) < v { v } else { *old(self) },
    {
        if *self < v {
            *self = v;
            true
        } else {
            false
        }
    }
}

} // verus!
