use vstd::prelude::*;

use crate::grid::{in_board, Coord};
use crate::rng::{chacha_from_seed, chacha_gen_below, chacha_gen_range, chacha_shuffle};
use crate::search::reach;
use crate::solver::naive::{count_true, lemma_count_true_bound, lemma_count_true_set, lemma_count_true_zero};
use crate::tools::{is_matrix, on_board, Input};
use rand_chacha::ChaCha20Rng;

verus! {

/// Side of the generated boards.
pub const GEN_N: usize = 30;

/// Every cell may be entered.
pub open spec fn all_free() -> spec_fn(int, int) -> bool {
    |r: int, c: int| true
}

/// A side is open when the wall board has no wall there.
pub open spec fn open_rows(m: Seq<Vec<bool>>) -> spec_fn(int, int) -> bool {
    |r: int, c: int| !m[r]@[c]
}

/// `(r, c)` can be reached from the top-left cell.
pub open spec fn reachable(wall_v: Seq<Vec<bool>>, wall_h: Seq<Vec<bool>>, r: int, c: int) -> bool {
    exists|k: nat| reach(k, Coord { row: 0, col: 0 }, all_free(), open_rows(wall_v), open_rows(wall_h), r, c)
}

/// Every cell of the board can be reached from every other (all from the top-left cell).
pub open spec fn connected(wall_v: Seq<Vec<bool>>, wall_h: Seq<Vec<bool>>) -> bool {
    forall|r: int, c: int| in_board(r, c) ==> #[trigger] reachable(wall_v, wall_h, r, c)
}

/// Number of occurrences of `x`.
pub open spec fn occurrences<A>(s: Seq<A>, x: A) -> nat
    decreases s.len(),
{
    if s.len() == 0 {
        0
    } else {
        occurrences(s.drop_last(), x) + if s.last() == x {
            1nat
        } else {
            0nat
        }
    }
}

proof fn lemma_occurrences_multiset<A>(s: Seq<A>, x: A)
    ensures
        s.to_multiset().count(x) == occurrences(s, x),
    decreases s.len(),
{
    broadcast use vstd::multiset::group_multiset_axioms;
    if s.len() > 0 {
        lemma_occurrences_multiset(s.drop_last(), x);
        vstd::seq_lib::to_multiset_build(s.drop_last(), s.last());
        assert(s.drop_last().push(s.last()) =~= s);
    } else {
        vstd::seq_lib::to_multiset_len(s);
        vstd::multiset::lemma_multiset_empty_len(s.to_multiset());
    }
}

proof fn lemma_occurrences_two<A>(s: Seq<A>, i: int, j: int)
    requires
        0 <= i < j < s.len(),
        s[i] == s[j],
    ensures
        occurrences(s, s[i]) >= 2,
    decreases s.len(),
{
    if j < s.len() - 1 {
        lemma_occurrences_two(s.drop_last(), i, j);
    } else {
        lemma_occurrences_one(s.drop_last(), i);
    }
}

proof fn lemma_occurrences_one<A>(s: Seq<A>, i: int)
    requires
        0 <= i < s.len(),
    ensures
        occurrences(s, s[i]) >= 1,
    decreases s.len(),
{
    if i < s.len() - 1 {
        lemma_occurrences_one(s.drop_last(), i);
    }
}

proof fn lemma_occurrences_distinct<A>(s: Seq<A>, x: A)
    requires
        forall|i: int, j: int| 0 <= i < s.len() && 0 <= j < s.len() && i != j ==> s[i] != s[j],
    ensures
        occurrences(s, x) <= 1,
    decreases s.len(),
{
    if s.len() > 0 {
        lemma_occurrences_distinct(s.drop_last(), x);
        if s.last() == x && occurrences(s.drop_last(), x) >= 1 {
            lemma_occurrences_pos(s.drop_last(), x);
            let i = choose|i: int| 0 <= i < s.len() - 1 && s.drop_last()[i] == x;
            assert(s[i] == s[s.len() - 1]);
        }
    }
}

proof fn lemma_occurrences_pos<A>(s: Seq<A>, x: A)
    requires
        occurrences(s, x) >= 1,
    ensures
        exists|i: int| 0 <= i < s.len() && s[i] == x,
    decreases s.len(),
{
    if s.last() != x {
        lemma_occurrences_pos(s.drop_last(), x);
        let i = choose|i: int| 0 <= i < s.len() - 1 && s.drop_last()[i] == x;
        assert(s[i] == x);
    }
}

/// A rearrangement of distinct elements has distinct elements, all taken from the list it rearranges.
proof fn lemma_permutation_distinct<A>(s: Seq<A>, t: Seq<A>)
    requires
        s.to_multiset() == t.to_multiset(),
        forall|i: int, j: int| 0 <= i < t.len() && 0 <= j < t.len() && i != j ==> t[i] != t[j],
    ensures
        forall|i: int, j: int| 0 <= i < s.len() && 0 <= j < s.len() && i != j ==> s[i] != s[j],
        forall|i: int| 0 <= i < s.len() ==> t.contains(#[trigger] s[i]),
{
    assert forall|i: int, j: int| 0 <= i < s.len() && 0 <= j < s.len() && i != j implies s[i] != s[j] by {
        if s[i] == s[j] {
            if i < j {
                lemma_occurrences_two(s, i, j);
            } else {
                lemma_occurrences_two(s, j, i);
            }
            lemma_occurrences_multiset(s, s[i]);
            lemma_occurrences_multiset(t, s[i]);
            lemma_occurrences_distinct(t, s[i]);
        }
    }
    assert forall|i: int| 0 <= i < s.len() implies t.contains(#[trigger] s[i]) by {
        lemma_occurrences_one(s, i);
        lemma_occurrences_multiset(s, s[i]);
        lemma_occurrences_multiset(t, s[i]);
        lemma_occurrences_pos(t, s[i]);
    }
}

/// All cells of the board, row after row.
fn all_cells() -> (ps: Vec<(usize, usize)>)
    ensures
        ps@.len() == GEN_N * GEN_N,
        forall|i: int| 0 <= i < ps@.len() ==> on_board(#[trigger] ps@[i], GEN_N as int),
        forall|i: int, j: int| 0 <= i < ps@.len() && 0 <= j < ps@.len() && i != j ==> ps@[i] != ps@[j],
{
    let mut ps: Vec<(usize, usize)> = Vec::new();
    let mut i: usize = 0;
    while i < GEN_N
        invariant
            i <= GEN_N,
            ps@.len() == i * GEN_N,
            forall|a: int| 0 <= a < ps@.len() ==> #[trigger] ps@[a] == ((a / 30) as usize, (a % 30) as usize),
        decreases GEN_N - i,
    {
        let mut j: usize = 0;
        while j < GEN_N
            invariant
                i < GEN_N,
                j <= GEN_N,
                ps@.len() == i * GEN_N + j,
                forall|a: int| 0 <= a < ps@.len() ==> #[trigger] ps@[a] == ((a / 30) as usize, (a % 30) as usize),
            decreases GEN_N - j,
        {
            ps.push((i, j));
            j += 1;
        }
        i += 1;
    }
    assert forall|a: int, b: int| 0 <= a < ps@.len() && 0 <= b < ps@.len() && a != b implies ps@[a] != ps@[b] by {
        assert(ps@[a] == ((a / 30) as usize, (a % 30) as usize));
        assert(ps@[b] == ((b / 30) as usize, (b % 30) as usize));
    }
    ps
}

/// The first `k` entries.
fn prefix(v: &Vec<(usize, usize)>, k: usize) -> (r: Vec<(usize, usize)>)
    requires
        k <= v@.len(),
    ensures
        r@ == v@.subrange(0, k as int),
{
    let mut r: Vec<(usize, usize)> = Vec::new();
    let mut i: usize = 0;
    while i < k
        invariant
            i <= k,
            k <= v@.len(),
            r@ == v@.subrange(0, i as int),
        decreases k - i,
    {
        r.push(v[i]);
        i += 1;
    }
    r
}


/// The wall boards of a generated instance.
pub open spec fn gen_walls_ok(wall_v: Seq<Vec<bool>>, wall_h: Seq<Vec<bool>>) -> bool {
    &&& is_matrix(wall_v, GEN_N as int, GEN_N - 1)
    &&& is_matrix(wall_h, GEN_N - 1, GEN_N as int)
}

proof fn lemma_count_true_full(s: Seq<bool>)
    requires
        count_true(s) == s.len(),
    ensures
        forall|i: int| 0 <= i < s.len() ==> s[i],
    decreases s.len(),
{
    if s.len() > 0 {
        lemma_count_true_bound(s.drop_last());
        lemma_count_true_full(s.drop_last());
        assert forall|i: int| 0 <= i < s.len() implies s[i] by {
            if i < s.len() - 1 {
                assert(s[i] == s.drop_last()[i]);
            }
        }
    }
}

/// One step from a reached cell reaches the neighbour.
proof fn lemma_step_reach(
    wall_v: Seq<Vec<bool>>,
    wall_h: Seq<Vec<bool>>,
    k: nat,
    i: int,
    j: int,
    i2: int,
    j2: int,
)
    requires
        in_board(i, j),
        in_board(i2, j2),
        reach(k, Coord { row: 0, col: 0 }, all_free(), open_rows(wall_v), open_rows(wall_h), i, j),
        (i2 == i - 1 && j2 == j && !wall_h[i2]@[j])
        || (i2 == i + 1 && j2 == j && !wall_h[i]@[j])
        || (i2 == i && j2 == j - 1 && !wall_v[i]@[j2])
        || (i2 == i && j2 == j + 1 && !wall_v[i]@[j]),
    ensures
        reach(k + 1, Coord { row: 0, col: 0 }, all_free(), open_rows(wall_v), open_rows(wall_h), i2, j2),
{
}

/// The cell one step from `(i, j)` in direction `d`: up, down, left, right.
pub open spec fn step_cell(i: int, j: int, d: int) -> (int, int) {
    if d == 0 {
        (i - 1, j)
    } else if d == 1 {
        (i + 1, j)
    } else if d == 2 {
        (i, j - 1)
    } else {
        (i, j + 1)
    }
}

/// The step from `(i, j)` in direction `d` stays on the board and crosses no wall.
pub open spec fn step_open(wall_v: Seq<Vec<bool>>, wall_h: Seq<Vec<bool>>, i: int, j: int, d: int) -> bool {
    let (i2, j2) = step_cell(i, j, d);
    &&& in_board(i2, j2)
    &&& if d == 0 {
        !wall_h[i2]@[j]
    } else if d == 1 {
        !wall_h[i]@[j]
    } else if d == 2 {
        !wall_v[i]@[j2]
    } else {
        !wall_v[i]@[j]
    }
}

/// Every open step from `(i, j)` leads to a marked cell.
pub open spec fn closed_at(wall_v: Seq<Vec<bool>>, wall_h: Seq<Vec<bool>>, visited: Seq<bool>, i: int, j: int) -> bool {
    forall|d: int| 0 <= d < 4 && #[trigger] step_open(wall_v, wall_h, i, j, d) ==> visited[step_cell(i, j, d).0 * 30
        + step_cell(i, j, d).1]
}

/// The number of cells among the first `k` (row by row) that can be reached from the
/// top-left cell.
pub open spec fn reachable_cells(wall_v: Seq<Vec<bool>>, wall_h: Seq<Vec<bool>>, k: nat) -> nat
    decreases k,
{
    if k == 0 {
        0
    } else {
        reachable_cells(wall_v, wall_h, (k - 1) as nat) + if reachable(
            wall_v,
            wall_h,
            (k - 1) / 30,
            (k - 1) % 30,
        ) {
            1nat
        } else {
            0nat
        }
    }
}

/// Counting the marks counts the reachable cells when exactly those are marked.
proof fn lemma_count_reachable_cells(wall_v: Seq<Vec<bool>>, wall_h: Seq<Vec<bool>>, s: Seq<bool>, k: nat)
    requires
        k <= s.len(),
        forall|a: int| 0 <= a < s.len() ==> #[trigger] s[a] == reachable(wall_v, wall_h, a / 30, a % 30),
    ensures
        count_true(s.subrange(0, k as int)) == reachable_cells(wall_v, wall_h, k),
    decreases k,
{
    if k > 0 {
        lemma_count_reachable_cells(wall_v, wall_h, s, (k - 1) as nat);
        assert(s.subrange(0, k as int).drop_last() =~= s.subrange(0, k - 1));
        assert(s.subrange(0, k as int).last() == s[k - 1]);
    }
}

/// When every marked cell is closed and the top-left cell is marked, every reachable cell is
/// marked.
proof fn lemma_reach_marked(
    wall_v: Seq<Vec<bool>>,
    wall_h: Seq<Vec<bool>>,
    visited: Seq<bool>,
    k: nat,
    r: int,
    c: int,
)
    requires
        gen_walls_ok(wall_v, wall_h),
        visited.len() == 900,
        visited[0],
        forall|a: int| 0 <= a < 900 && #[trigger] visited[a] ==> closed_at(wall_v, wall_h, visited, a / 30, a % 30),
        reach(k, Coord { row: 0, col: 0 }, all_free(), open_rows(wall_v), open_rows(wall_h), r, c),
    ensures
        in_board(r, c),
        visited[r * 30 + c],
    decreases k,
{
    let o = Coord { row: 0, col: 0 };
    let fv = open_rows(wall_v);
    let fh = open_rows(wall_h);
    if k == 0 {
    } else {
        let k1 = (k - 1) as nat;
        if reach(k1, o, all_free(), fv, fh, r, c) {
            lemma_reach_marked(wall_v, wall_h, visited, k1, r, c);
        } else {
            let (pr, pc, d) = if r + 1 < 30 && reach(k1, o, all_free(), fv, fh, r + 1, c) && fh(r, c) {
                (r + 1, c, 0int)
            } else if r >= 1 && reach(k1, o, all_free(), fv, fh, r - 1, c) && fh(r - 1, c) {
                (r - 1, c, 1int)
            } else if c + 1 < 30 && reach(k1, o, all_free(), fv, fh, r, c + 1) && fv(r, c) {
                (r, c + 1, 2int)
            } else {
                (r, c - 1, 3int)
            };
            lemma_reach_marked(wall_v, wall_h, visited, k1, pr, pc);
            let a = pr * 30 + pc;
            assert(a / 30 == pr && a % 30 == pc);
            assert(closed_at(wall_v, wall_h, visited, pr, pc));
            assert(step_cell(pr, pc, d) == (r, c));
            assert(step_open(wall_v, wall_h, pr, pc, d));
        }
    }
}

/// Counts the cells reachable from the top-left cell with a depth-first search; every cell
/// counts when the result is the number of cells.
fn count_reachable(wall_v: &Vec<Vec<bool>>, wall_h: &Vec<Vec<bool>>) -> (num: usize)
    requires
        gen_walls_ok(wall_v@, wall_h@),
    ensures
        num == reachable_cells(wall_v@, wall_h@, (GEN_N * GEN_N) as nat),
        num <= GEN_N * GEN_N,
        num == GEN_N * GEN_N ==> connected(wall_v@, wall_h@),
{
    let n = GEN_N;
    let ghost wv = wall_v@;
    let ghost wh = wall_h@;
    let ghost origin = Coord { row: 0, col: 0 };
    let mut visited: Vec<bool> = vec![false; 900];
    proof {
        assert(count_true(visited@) == 0) by {
            lemma_count_true_zero(visited@, 900);
            assert(visited@.subrange(0, 900) =~= visited@);
        }
        lemma_count_true_set(visited@, 0);
    }
    visited.set(0, true);
    let mut stack: Vec<(usize, usize)> = Vec::new();
    stack.push((0, 0));
    let mut num: usize = 0;
    proof {
        assert(reach(0, origin, all_free(), open_rows(wv), open_rows(wh), 0, 0));
        assert forall|a: int| 0 <= a < 900 && #[trigger] visited@[a] implies reachable(wv, wh, a / 30, a % 30) by {
            assert(a == 0);
            assert(reach(0, origin, all_free(), open_rows(wv), open_rows(wh), 0, 0));
        }
        assert forall|a: int| 0 <= a < 900 && #[trigger] visited@[a] implies (exists|t: int| 0 <= t < stack@.len() && stack@[t].0 * 30
            + stack@[t].1 == a) || closed_at(wv, wh, visited@, a / 30, a % 30) by {
            assert(a == 0);
            assert(stack@[0] == (0usize, 0usize));
        }
    }
    while stack.len() > 0
        invariant
            n == GEN_N,
            wv == wall_v@,
            wh == wall_h@,
            gen_walls_ok(wv, wh),
            visited@.len() == 900,
            count_true(visited@) == num + stack@.len(),
            count_true(visited@) <= 900,
            forall|t: int| 0 <= t < stack@.len() ==> on_board(#[trigger] stack@[t], 30) && visited@[stack@[t].0 * 30 + stack@[t].1],
            forall|a: int| 0 <= a < 900 && #[trigger] visited@[a] ==> reachable(wv, wh, a / 30, a % 30),
            visited@[0],
            forall|a: int| 0 <= a < 900 && #[trigger] visited@[a] ==> (exists|t: int| 0 <= t < stack@.len() && stack@[t].0 * 30
                + stack@[t].1 == a) || closed_at(wv, wh, visited@, a / 30, a % 30),
        decreases (900 - count_true(visited@)) + stack@.len(),
    {
        let ghost old_stack = stack@;
        let (i, j) = match stack.pop() {
            Some(p) => p,
            None => (0, 0),
        };
        proof {
            assert(old_stack[old_stack.len() - 1] == (i, j));
            assert forall|a: int| 0 <= a < 900 && #[trigger] visited@[a] implies a == i * 30 + j || (exists|t: int| 0 <= t
                < stack@.len() && stack@[t].0 * 30 + stack@[t].1 == a) || closed_at(wv, wh, visited@, a / 30, a % 30) by {
                if exists|t: int| 0 <= t < old_stack.len() && old_stack[t].0 * 30 + old_stack[t].1 == a {
                    let t = choose|t: int| 0 <= t < old_stack.len() && old_stack[t].0 * 30 + old_stack[t].1 == a;
                    if t < old_stack.len() - 1 {
                        assert(stack@[t] == old_stack[t]);
                    }
                }
            }
        }
        num += 1;
        let mut d: usize = 0;
        while d < 4
            invariant
                n == GEN_N,
                wv == wall_v@,
                wh == wall_h@,
                gen_walls_ok(wv, wh),
                i < 30,
                j < 30,
                visited@[i * 30 + j],
                visited@.len() == 900,
                count_true(visited@) == num + stack@.len(),
                count_true(visited@) <= 900,
                forall|t: int| 0 <= t < stack@.len() ==> on_board(#[trigger] stack@[t], 30) && visited@[stack@[t].0 * 30 + stack@[t].1],
                forall|a: int| 0 <= a < 900 && #[trigger] visited@[a] ==> reachable(wv, wh, a / 30, a % 30),
                d <= 4,
                visited@[0],
                forall|a: int| 0 <= a < 900 && #[trigger] visited@[a] ==> a == i * 30 + j || (exists|t: int| 0 <= t
                    < stack@.len() && stack@[t].0 * 30 + stack@[t].1 == a) || closed_at(wv, wh, visited@, a / 30, a % 30),
                forall|e: int| 0 <= e < d && #[trigger] step_open(wv, wh, i as int, j as int, e) ==> visited@[step_cell(
                    i as int,
                    j as int,
                    e,
                ).0 * 30 + step_cell(i as int, j as int, e).1],
            decreases 4 - d,
        {
            let ghost dd = d as int;
            let (i2, j2): (usize, usize) = if d == 0 {
                (i.wrapping_sub(1), j)
            } else if d == 1 {
                (i + 1, j)
            } else if d == 2 {
                (i, j.wrapping_sub(1))
            } else {
                (i, j + 1)
            };
            d += 1;
            proof {
                let sc = step_cell(i as int, j as int, dd);
                if in_board(sc.0, sc.1) {
                    assert(i2 == sc.0 && j2 == sc.1);
                } else {
                    assert(i2 >= n || j2 >= n);
                }
            }
            if i2 >= n || j2 >= n || visited[i2 * 30 + j2] {
                continue;
            }
            if i2 == i {
                let c = if j < j2 { j } else { j2 };
                if wall_v[i][c] {
                    continue;
                }
            } else {
                let r = if i < i2 { i } else { i2 };
                if wall_h[r][j] {
                    continue;
                }
            }
            assert(step_open(wv, wh, i as int, j as int, dd));
            proof {
                lemma_count_true_set(visited@, i2 * 30 + j2);
                lemma_count_true_bound(visited@.update(i2 * 30 + j2, true));
                assert(visited@[i * 30 + j]);
                assert(reachable(wv, wh, i as int, j as int)) by {
                    assert((i * 30 + j) / 30 == i && (i * 30 + j) % 30 == j);
                }
                let k = choose|k: nat| reach(k, Coord { row: 0, col: 0 }, all_free(), open_rows(wv), open_rows(wh), i as int, j as int);
                lemma_step_reach(wv, wh, k, i as int, j as int, i2 as int, j2 as int);
                assert(reachable(wv, wh, i2 as int, j2 as int));
            }
            let ghost old_visited = visited@;
            let ghost old_st = stack@;
            visited.set(i2 * 30 + j2, true);
            stack.push((i2, j2));
            proof {
                assert forall|a: int| 0 <= a < 900 && #[trigger] visited@[a] implies reachable(wv, wh, a / 30, a % 30) by {
                    if a != i2 * 30 + j2 {
                        assert(old_visited[a]);
                    } else {
                        assert(a / 30 == i2 && a % 30 == j2);
                    }
                }
                assert forall|t: int| 0 <= t < stack@.len() implies on_board(#[trigger] stack@[t], 30) && visited@[stack@[t].0 * 30 + stack@[t].1] by {
                    if t < stack@.len() - 1 {
                        assert(old_visited[stack@[t].0 * 30 + stack@[t].1]);
                    }
                }
                assert forall|a: int| 0 <= a < 900 && #[trigger] visited@[a] implies a == i * 30 + j || (exists|t: int| 0 <= t
                    < stack@.len() && stack@[t].0 * 30 + stack@[t].1 == a) || closed_at(wv, wh, visited@, a / 30, a % 30) by {
                    if a == i2 * 30 + j2 {
                        assert(stack@[stack@.len() - 1] == (i2, j2));
                    } else {
                        assert(old_visited[a]);
                        if exists|t: int| 0 <= t < old_st.len() && old_st[t].0 * 30 + old_st[t].1 == a {
                            let t = choose|t: int| 0 <= t < old_st.len() && old_st[t].0 * 30 + old_st[t].1 == a;
                            assert(stack@[t] == old_st[t]);
                        } else if a != i * 30 + j {
                            assert(closed_at(wv, wh, old_visited, a / 30, a % 30));
                            assert forall|e: int| 0 <= e < 4 && #[trigger] step_open(wv, wh, a / 30, a % 30, e) implies visited@[step_cell(a / 30, a % 30, e).0 * 30 + step_cell(a / 30, a % 30, e).1] by {
                                assert(old_visited[step_cell(a / 30, a % 30, e).0 * 30 + step_cell(a / 30, a % 30, e).1]);
                            }
                        }
                    }
                }
                assert forall|e: int| 0 <= e < d && #[trigger] step_open(wv, wh, i as int, j as int, e) implies visited@[step_cell(
                    i as int,
                    j as int,
                    e,
                ).0 * 30 + step_cell(i as int, j as int, e).1] by {
                    if e < dd {
                        assert(old_visited[step_cell(i as int, j as int, e).0 * 30 + step_cell(i as int, j as int, e).1]);
                    }
                }
            }
        }
        proof {
            assert((i * 30 + j) / 30 == i && (i * 30 + j) % 30 == j);
            assert(closed_at(wv, wh, visited@, i as int, j as int));
        }
    }
    proof {
        assert forall|a: int| 0 <= a < 900 implies #[trigger] visited@[a] == reachable(wv, wh, a / 30, a % 30) by {
            if reachable(wv, wh, a / 30, a % 30) {
                let r = a / 30;
                let c = a % 30;
                let k = choose|k: nat| reach(k, Coord { row: 0, col: 0 }, all_free(), open_rows(wv), open_rows(wh), r, c);
                lemma_reach_marked(wv, wh, visited@, k, r, c);
                assert(r * 30 + c == a);
            }
        }
        lemma_count_reachable_cells(wv, wh, visited@, 900);
        assert(visited@.subrange(0, 900) =~= visited@);
        if num == 900 {
            lemma_count_true_full(visited@);
            assert forall|r: int, c: int| in_board(r, c) implies #[trigger] reachable(wv, wh, r, c) by {
                assert(visited@[r * 30 + c]);
                assert((r * 30 + c) / 30 == r && (r * 30 + c) % 30 == c);
            }
        }
    }
    num
}


fn false_rows(rows: usize, cols: usize) -> (m: Vec<Vec<bool>>)
    ensures
        is_matrix(m@, rows as int, cols as int),
        forall|i: int, j: int| 0 <= i < rows && 0 <= j < cols ==> !(#[trigger] m@[i]@[j]),
{
    let mut m: Vec<Vec<bool>> = Vec::new();
    let mut i: usize = 0;
    while i < rows
        invariant
            i <= rows,
            m@.len() == i,
            forall|a: int| 0 <= a < i ==> (#[trigger] m@[a])@.len() == cols,
            forall|a: int, b: int| 0 <= a < i && 0 <= b < cols ==> !(#[trigger] m@[a]@[b]),
        decreases rows - i,
    {
        m.push(vec![false; cols]);
        i += 1;
    }
    m
}

/// Puts a wall at entry `(x, y)` of a wall board; the other entries stay.
fn set_true(m: &mut Vec<Vec<bool>>, x: usize, y: usize)
    requires
        x < old(m)@.len(),
        y < old(m)@[x as int]@.len(),
    ensures
        final(m)@.len() == old(m)@.len(),
        forall|i: int| 0 <= i < old(m)@.len() ==> (#[trigger] final(m)@[i])@.len() == old(m)@[i]@.len(),
        final(m)@[x as int]@ == old(m)@[x as int]@.update(y as int, true),
        forall|i: int| 0 <= i < old(m)@.len() && i != x ==> #[trigger] final(m)@[i] == old(m)@[i],
{
    let mut row = crate::tools::copy_vec(&m[x]);
    row.set(y, true);
    m.set(x, row);
}

/// Whether `x` is among the `l` places that a wall starting at `start` covers: going towards
/// 0 (`towards_zero`) or away from it, on a board side of `GEN_N`.
pub open spec fn on_run(towards_zero: bool, start: int, l: int, x: int) -> bool {
    &&& 0 <= x < GEN_N
    &&& if towards_zero { start - l < x <= start } else { start <= x < start + l }
}

/// `new` is `old` with every entry `(r, c)` for which `added(r, c)` holds set to a wall.
pub open spec fn walls_added(old: Seq<Vec<bool>>, new: Seq<Vec<bool>>, added: spec_fn(int, int) -> bool) -> bool {
    &&& new.len() == old.len()
    &&& forall|r: int| 0 <= r < old.len() ==> (#[trigger] new[r])@.len() == old[r]@.len()
    &&& forall|r: int, c: int| 0 <= r < old.len() && 0 <= c < old[r]@.len() ==> #[trigger] new[r]@[c] == (old[r]@[c]
        || added(r, c))
}

/// `new` is `old` with the places `center - 4 ..= center + 4` claimed.
pub open spec fn band_claimed(old: Seq<bool>, new: Seq<bool>, center: int) -> bool {
    &&& new.len() == old.len()
    &&& forall|x: int| 0 <= x < old.len() ==> #[trigger] new[x] == (old[x] || (center - 4 <= x <= center + 4))
}

/// The vertical wall of length `l` at column `j`, from row `i` upwards (`dir` 0) or
/// downwards (`dir` 1), was added and its columns claimed.
pub open spec fn vertical_wall_placed(
    old_v: Seq<Vec<bool>>,
    new_v: Seq<Vec<bool>>,
    old_used: Seq<bool>,
    new_used: Seq<bool>,
    dir: int,
    i: int,
    j: int,
    l: int,
) -> bool {
    &&& 0 <= dir < 2
    &&& 5 <= i <= 25
    &&& 4 <= j <= 24
    &&& 10 <= l <= 20
    &&& !old_used[j]
    &&& walls_added(old_v, new_v, |r: int, c: int| c == j && on_run(dir == 0, i, l, r))
    &&& band_claimed(old_used, new_used, j)
}

/// The horizontal wall of length `l` at row `i`, from column `j` leftwards (`dir` 2) or
/// rightwards (`dir` 3), was added and its rows claimed.
pub open spec fn horizontal_wall_placed(
    old_h: Seq<Vec<bool>>,
    new_h: Seq<Vec<bool>>,
    old_used: Seq<bool>,
    new_used: Seq<bool>,
    dir: int,
    i: int,
    j: int,
    l: int,
) -> bool {
    &&& 2 <= dir < 4
    &&& 4 <= i <= 24
    &&& 5 <= j <= 25
    &&& 10 <= l <= 20
    &&& !old_used[i]
    &&& walls_added(old_h, new_h, |r: int, c: int| r == i && on_run(dir == 2, j, l, c))
    &&& band_claimed(old_used, new_used, i)
}

/// A long wall as the generator draws it, `(dir, i, j, l)`: vertical (`dir` 0 upwards, 1
/// downwards) at column `j` from row `i`, or horizontal (`dir` 2 leftwards, 3 rightwards) at
/// row `i` from column `j`, of length `l` between 10 and 20.
pub open spec fn long_wall_ok(w: (int, int, int, int)) -> bool {
    &&& 10 <= w.3 <= 20
    &&& ((0 <= w.0 < 2 && 5 <= w.1 <= 25 && 4 <= w.2 <= 24) || (2 <= w.0 < 4 && 4 <= w.1 <= 24 && 5 <= w.2 <= 25))
}

/// Place `(r, c)` of the vertical walls lies on long wall `w`.
pub open spec fn on_vertical(w: (int, int, int, int), r: int, c: int) -> bool {
    w.0 < 2 && c == w.2 && on_run(w.0 == 0, w.1, w.3, r)
}

/// Place `(r, c)` of the horizontal walls lies on long wall `w`.
pub open spec fn on_horizontal(w: (int, int, int, int), r: int, c: int) -> bool {
    w.0 >= 2 && r == w.1 && on_run(w.0 == 2, w.2, w.3, c)
}

/// Vertical long walls stand at least 5 columns apart, horizontal ones at least 5 rows apart.
pub open spec fn spread(ws: Seq<(int, int, int, int)>) -> bool {
    forall|a: int, b: int|
        0 <= a < ws.len() && 0 <= b < ws.len() && a != b ==> {
            &&& ((#[trigger] ws[a]).0 < 2 && (#[trigger] ws[b]).0 < 2 ==> ws[a].2 - ws[b].2 >= 5 || ws[b].2 - ws[a].2 >= 5)
            &&& (ws[a].0 >= 2 && ws[b].0 >= 2 ==> ws[a].1 - ws[b].1 >= 5 || ws[b].1 - ws[a].1 >= 5)
        }
}

/// The wall boards hold exactly the places of the long walls `ws`, which are drawn as the
/// generator draws them and spread apart.
pub open spec fn made_of(wall_v: Seq<Vec<bool>>, wall_h: Seq<Vec<bool>>, ws: Seq<(int, int, int, int)>) -> bool {
    &&& gen_walls_ok(wall_v, wall_h)
    &&& forall|k: int| 0 <= k < ws.len() ==> long_wall_ok(#[trigger] ws[k])
    &&& spread(ws)
    &&& forall|r: int, c: int|
        0 <= r < GEN_N && 0 <= c < GEN_N - 1 ==> #[trigger] wall_v[r]@[c] == exists|k: int|
            0 <= k < ws.len() && on_vertical(#[trigger] ws[k], r, c)
    &&& forall|r: int, c: int|
        0 <= r < GEN_N - 1 && 0 <= c < GEN_N ==> #[trigger] wall_h[r]@[c] == exists|k: int|
            0 <= k < ws.len() && on_horizontal(#[trigger] ws[k], r, c)
}

/// Column `x` is within 4 of a vertical long wall of `ws`.
pub open spec fn claimed_v(ws: Seq<(int, int, int, int)>, x: int) -> bool {
    exists|k: int| 0 <= k < ws.len() && (#[trigger] ws[k]).0 < 2 && ws[k].2 - 4 <= x <= ws[k].2 + 4
}

/// Row `x` is within 4 of a horizontal long wall of `ws`.
pub open spec fn claimed_h(ws: Seq<(int, int, int, int)>, x: int) -> bool {
    exists|k: int| 0 <= k < ws.len() && (#[trigger] ws[k]).0 >= 2 && ws[k].1 - 4 <= x <= ws[k].1 + 4
}

/// No wall at all.
pub open spec fn open_walls(wall_v: Seq<Vec<bool>>, wall_h: Seq<Vec<bool>>) -> bool {
    &&& forall|i: int, j: int| 0 <= i < GEN_N && 0 <= j < GEN_N - 1 ==> !(#[trigger] wall_v[i]@[j])
    &&& forall|i: int, j: int| 0 <= i < GEN_N - 1 && 0 <= j < GEN_N ==> !(#[trigger] wall_h[i]@[j])
}

/// Adding a drawn wall to boards made of `ws` gives boards made of `ws` and that wall.
proof fn lemma_add_long_wall(
    wv0: Seq<Vec<bool>>,
    wh0: Seq<Vec<bool>>,
    uv0: Seq<bool>,
    uh0: Seq<bool>,
    wv1: Seq<Vec<bool>>,
    wh1: Seq<Vec<bool>>,
    uv1: Seq<bool>,
    uh1: Seq<bool>,
    ws: Seq<(int, int, int, int)>,
    w: (int, int, int, int),
)
    requires
        made_of(wv0, wh0, ws),
        uv0.len() == GEN_N - 1,
        uh0.len() == GEN_N - 1,
        forall|x: int| 0 <= x < GEN_N - 1 ==> #[trigger] uv0[x] == claimed_v(ws, x),
        forall|x: int| 0 <= x < GEN_N - 1 ==> #[trigger] uh0[x] == claimed_h(ws, x),
        vertical_wall_placed(wv0, wv1, uv0, uv1, w.0, w.1, w.2, w.3) && wh1 == wh0 && uh1 == uh0
            || horizontal_wall_placed(wh0, wh1, uh0, uh1, w.0, w.1, w.2, w.3) && wv1 == wv0 && uv1 == uv0,
    ensures
        made_of(wv1, wh1, ws.push(w)),
        uv1.len() == GEN_N - 1,
        uh1.len() == GEN_N - 1,
        forall|x: int| 0 <= x < GEN_N - 1 ==> #[trigger] uv1[x] == claimed_v(ws.push(w), x),
        forall|x: int| 0 <= x < GEN_N - 1 ==> #[trigger] uh1[x] == claimed_h(ws.push(w), x),
{
    let ws2 = ws.push(w);
    assert(ws2[ws.len() as int] == w);
    assert forall|k: int| 0 <= k < ws.len() implies #[trigger] ws2[k] == ws[k] by {}
    if w.0 < 2 {
        assert(!claimed_v(ws, w.2));
    } else {
        assert(!claimed_h(ws, w.1));
    }
    assert forall|k: int| 0 <= k < ws2.len() implies long_wall_ok(#[trigger] ws2[k]) by {
        if k < ws.len() {
            assert(ws2[k] == ws[k]);
        }
    }
    assert forall|a: int, b: int| 0 <= a < ws2.len() && 0 <= b < ws2.len() && a != b implies {
        &&& ((#[trigger] ws2[a]).0 < 2 && (#[trigger] ws2[b]).0 < 2 ==> ws2[a].2 - ws2[b].2 >= 5 || ws2[b].2 - ws2[a].2 >= 5)
        &&& (ws2[a].0 >= 2 && ws2[b].0 >= 2 ==> ws2[a].1 - ws2[b].1 >= 5 || ws2[b].1 - ws2[a].1 >= 5)
    } by {
        if a == ws.len() {
            assert(ws2[b] == ws[b]);
            if w.0 < 2 && ws[b].0 < 2 && w.2 - ws[b].2 < 5 && ws[b].2 - w.2 < 5 {
                assert(claimed_v(ws, w.2));
            }
            if w.0 >= 2 && ws[b].0 >= 2 && w.1 - ws[b].1 < 5 && ws[b].1 - w.1 < 5 {
                assert(claimed_h(ws, w.1));
            }
        } else if b == ws.len() {
            assert(ws2[a] == ws[a]);
            if w.0 < 2 && ws[a].0 < 2 && w.2 - ws[a].2 < 5 && ws[a].2 - w.2 < 5 {
                assert(claimed_v(ws, w.2));
            }
            if w.0 >= 2 && ws[a].0 >= 2 && w.1 - ws[a].1 < 5 && ws[a].1 - w.1 < 5 {
                assert(claimed_h(ws, w.1));
            }
        } else {
            assert(ws2[a] == ws[a] && ws2[b] == ws[b]);
        }
    }
    assert forall|r: int, c: int| 0 <= r < GEN_N && 0 <= c < GEN_N - 1 implies #[trigger] wv1[r]@[c] == exists|k: int|
        0 <= k < ws2.len() && on_vertical(#[trigger] ws2[k], r, c) by {
        if exists|k: int| 0 <= k < ws.len() && on_vertical(#[trigger] ws[k], r, c) {
            let k = choose|k: int| 0 <= k < ws.len() && on_vertical(#[trigger] ws[k], r, c);
            assert(ws2[k] == ws[k]);
        }
        if exists|k: int| 0 <= k < ws2.len() && on_vertical(#[trigger] ws2[k], r, c) {
            let k = choose|k: int| 0 <= k < ws2.len() && on_vertical(#[trigger] ws2[k], r, c);
            if k < ws.len() {
                assert(ws2[k] == ws[k]);
            }
        }
    }
    assert forall|r: int, c: int| 0 <= r < GEN_N - 1 && 0 <= c < GEN_N implies #[trigger] wh1[r]@[c] == exists|k: int|
        0 <= k < ws2.len() && on_horizontal(#[trigger] ws2[k], r, c) by {
        if exists|k: int| 0 <= k < ws.len() && on_horizontal(#[trigger] ws[k], r, c) {
            let k = choose|k: int| 0 <= k < ws.len() && on_horizontal(#[trigger] ws[k], r, c);
            assert(ws2[k] == ws[k]);
        }
        if exists|k: int| 0 <= k < ws2.len() && on_horizontal(#[trigger] ws2[k], r, c) {
            let k = choose|k: int| 0 <= k < ws2.len() && on_horizontal(#[trigger] ws2[k], r, c);
            if k < ws.len() {
                assert(ws2[k] == ws[k]);
            }
        }
    }
    assert forall|x: int| 0 <= x < GEN_N - 1 implies #[trigger] uv1[x] == claimed_v(ws2, x) by {
        if claimed_v(ws, x) {
            let k = choose|k: int| 0 <= k < ws.len() && (#[trigger] ws[k]).0 < 2 && ws[k].2 - 4 <= x <= ws[k].2 + 4;
            assert(ws2[k] == ws[k]);
        }
        if claimed_v(ws2, x) {
            let k = choose|k: int| 0 <= k < ws2.len() && (#[trigger] ws2[k]).0 < 2 && ws2[k].2 - 4 <= x <= ws2[k].2 + 4;
            if k < ws.len() {
                assert(ws2[k] == ws[k]);
            }
        }
    }
    assert forall|x: int| 0 <= x < GEN_N - 1 implies #[trigger] uh1[x] == claimed_h(ws2, x) by {
        if claimed_h(ws, x) {
            let k = choose|k: int| 0 <= k < ws.len() && (#[trigger] ws[k]).0 >= 2 && ws[k].1 - 4 <= x <= ws[k].1 + 4;
            assert(ws2[k] == ws[k]);
        }
        if claimed_h(ws2, x) {
            let k = choose|k: int| 0 <= k < ws2.len() && (#[trigger] ws2[k]).0 >= 2 && ws2[k].1 - 4 <= x <= ws2[k].1 + 4;
            if k < ws.len() {
                assert(ws2[k] == ws[k]);
            }
        }
    }
}

/// Draws one long wall, as the generator does: a direction and a length, then a start; a
/// vertical wall at a column, or a horizontal wall at a row, that another wall already
/// claimed is drawn again. The wall claims the 9 columns (rows) around it. Returns whether a
/// wall was placed: nothing changes only when `u64::MAX` draws all hit claimed places.
fn place_wall(rng: &mut ChaCha20Rng, wall_v: &mut Vec<Vec<bool>>, wall_h: &mut Vec<Vec<bool>>, used_v: &mut Vec<bool>, used_h: &mut Vec<bool>) -> (placed: bool)
    requires
        gen_walls_ok(old(wall_v)@, old(wall_h)@),
        old(used_v)@.len() == GEN_N - 1,
        old(used_h)@.len() == GEN_N - 1,
    ensures
        gen_walls_ok(final(wall_v)@, final(wall_h)@),
        final(used_v)@.len() == GEN_N - 1,
        final(used_h)@.len() == GEN_N - 1,
        !placed ==> final(wall_v)@ == old(wall_v)@ && final(wall_h)@ == old(wall_h)@ && final(used_v)@ == old(used_v)@
            && final(used_h)@ == old(used_h)@,
        placed ==> ({
            ||| (exists|dir: int, i: int, j: int, l: int| vertical_wall_placed(
                old(wall_v)@,
                final(wall_v)@,
                old(used_v)@,
                final(used_v)@,
                dir,
                i,
                j,
                l,
            )) && final(wall_h)@ == old(wall_h)@ && final(used_h)@ == old(used_h)@
            ||| (exists|dir: int, i: int, j: int, l: int| horizontal_wall_placed(
                old(wall_h)@,
                final(wall_h)@,
                old(used_h)@,
                final(used_h)@,
                dir,
                i,
                j,
                l,
            )) && final(wall_v)@ == old(wall_v)@ && final(used_v)@ == old(used_v)@
        }),
{
    let n = GEN_N;
    let ghost wv0 = wall_v@;
    let ghost wh0 = wall_h@;
    let ghost uv0 = used_v@;
    let ghost uh0 = used_h@;
    let mut tries: u64 = 0;
    while tries < u64::MAX
        invariant
            wall_v@ == wv0,
            wall_h@ == wh0,
            used_v@ == uv0,
            used_h@ == uh0,
            wv0 == old(wall_v)@,
            wh0 == old(wall_h)@,
            uv0 == old(used_v)@,
            uh0 == old(used_h)@,
            n == GEN_N,
            gen_walls_ok(wv0, wh0),
            uv0.len() == GEN_N - 1,
            uh0.len() == GEN_N - 1,
        decreases u64::MAX - tries,
    {
        tries += 1;
        let dir = chacha_gen_below(rng, 0, 4) as usize;
        let l = chacha_gen_range(rng, 10, 20) as usize;
        if dir / 2 == 0 {
            // vertical
            let i = chacha_gen_range(rng, 5, n as i32 - 5) as usize;
            let j = chacha_gen_range(rng, 4, n as i32 - 6) as usize;
            if used_v[j] {
                continue;
            }
            let mut k: usize = 0;
            while k < 9
                invariant
                    n == GEN_N,
                    4 <= j <= 24,
                    k <= 9,
                    uv0.len() == GEN_N - 1,
                    used_v@.len() == GEN_N - 1,
                    forall|x: int| 0 <= x < uv0.len() ==> #[trigger] used_v@[x] == (uv0[x] || (j - 4 <= x < j - 4 + k)),
                decreases 9 - k,
            {
                if j - 4 + k < n - 1 {
                    used_v.set(j - 4 + k, true);
                }
                k += 1;
            }
            let mut k: usize = 0;
            while k < l
                invariant
                    n == GEN_N,
                    5 <= i <= 25,
                    4 <= j <= 24,
                    10 <= l <= 20,
                    k <= l,
                    dir < 2,
                    gen_walls_ok(wall_v@, wall_h@),
                    gen_walls_ok(wv0, wh0),
                    walls_added(wv0, wall_v@, |r: int, c: int| c == j && on_run(dir == 0, i as int, k as int, r)),
                decreases l - k,
            {
                let ghost before = wall_v@;
                let ii = if dir == 0 { i.wrapping_sub(k) } else { i + k };
                if ii < n {
                    set_true(wall_v, ii, j);
                }
                proof {
                    assert forall|r: int, c: int| 0 <= r < wv0.len() && 0 <= c < wv0[r]@.len() implies #[trigger] wall_v@[r]@[c]
                        == (wv0[r]@[c] || (c == j && on_run(dir == 0, i as int, (k + 1) as int, r))) by {
                        if r != ii {
                            assert(wall_v@[r] == before[r]);
                        }
                    }
                }
                k += 1;
            }
            proof {
                assert(vertical_wall_placed(wv0, wall_v@, uv0, used_v@, dir as int, i as int, j as int, l as int));
            }
        } else {
            // horizontal
            let i = chacha_gen_range(rng, 4, n as i32 - 6) as usize;
            let j = chacha_gen_range(rng, 5, n as i32 - 5) as usize;
            if used_h[i] {
                continue;
            }
            let mut k: usize = 0;
            while k < 9
                invariant
                    n == GEN_N,
                    4 <= i <= 24,
                    k <= 9,
                    uh0.len() == GEN_N - 1,
                    used_h@.len() == GEN_N - 1,
                    forall|x: int| 0 <= x < uh0.len() ==> #[trigger] used_h@[x] == (uh0[x] || (i - 4 <= x < i - 4 + k)),
                decreases 9 - k,
            {
                if i - 4 + k < n - 1 {
                    used_h.set(i - 4 + k, true);
                }
                k += 1;
            }
            let mut k: usize = 0;
            while k < l
                invariant
                    n == GEN_N,
                    4 <= i <= 24,
                    5 <= j <= 25,
                    10 <= l <= 20,
                    k <= l,
                    2 <= dir < 4,
                    gen_walls_ok(wall_v@, wall_h@),
                    gen_walls_ok(wv0, wh0),
                    walls_added(wh0, wall_h@, |r: int, c: int| r == i && on_run(dir == 2, j as int, k as int, c)),
                decreases l - k,
            {
                let ghost before = wall_h@;
                let jj = if dir == 2 { j.wrapping_sub(k) } else { j + k };
                if jj < n {
                    set_true(wall_h, i, jj);
                }
                proof {
                    assert forall|r: int, c: int| 0 <= r < wh0.len() && 0 <= c < wh0[r]@.len() implies #[trigger] wall_h@[r]@[c]
                        == (wh0[r]@[c] || (r == i && on_run(dir == 2, j as int, (k + 1) as int, c))) by {
                        if r != i {
                            assert(wall_h@[r] == before[r]);
                        }
                    }
                }
                k += 1;
            }
            proof {
                assert(horizontal_wall_placed(wh0, wall_h@, uh0, used_h@, dir as int, i as int, j as int, l as int));
            }
        }
        return true;
    }
    false
}

/// With no walls every cell is reached, going down and then right.
proof fn lemma_open_board(wall_v: Seq<Vec<bool>>, wall_h: Seq<Vec<bool>>)
    requires
        gen_walls_ok(wall_v, wall_h),
        forall|i: int, j: int| 0 <= i < GEN_N && 0 <= j < GEN_N - 1 ==> !(#[trigger] wall_v[i]@[j]),
        forall|i: int, j: int| 0 <= i < GEN_N - 1 && 0 <= j < GEN_N ==> !(#[trigger] wall_h[i]@[j]),
    ensures
        connected(wall_v, wall_h),
{
    assert forall|r: int, c: int| in_board(r, c) implies #[trigger] reachable(wall_v, wall_h, r, c) by {
        lemma_open_reach(wall_v, wall_h, r, c);
    }
}

proof fn lemma_open_reach(wall_v: Seq<Vec<bool>>, wall_h: Seq<Vec<bool>>, r: int, c: int)
    requires
        gen_walls_ok(wall_v, wall_h),
        forall|i: int, j: int| 0 <= i < GEN_N && 0 <= j < GEN_N - 1 ==> !(#[trigger] wall_v[i]@[j]),
        forall|i: int, j: int| 0 <= i < GEN_N - 1 && 0 <= j < GEN_N ==> !(#[trigger] wall_h[i]@[j]),
        in_board(r, c),
    ensures
        reach((r + c) as nat, Coord { row: 0, col: 0 }, all_free(), open_rows(wall_v), open_rows(wall_h), r, c),
    decreases r + c,
{
    if c > 0 {
        lemma_open_reach(wall_v, wall_h, r, c - 1);
        lemma_step_reach(wall_v, wall_h, (r + c - 1) as nat, r, c - 1, r, c);
    } else if r > 0 {
        lemma_open_reach(wall_v, wall_h, r - 1, c);
        lemma_step_reach(wall_v, wall_h, (r - 1 + c) as nat, r - 1, c, r, c);
    }
}

/// Generates an instance from `seed`, as the contest's generator does: a 30 by 30 board,
/// `K` robots (drawn in `10..=100` unless `fix_K` fixes it) with distinct starts and distinct
/// targets, and `W` long walls (drawn in `0..=2` unless `fix_W` fixes it), drawn again until
/// every cell can be reached. Where the draws fail `u64::MAX` times in a row, the board is
/// left without walls.
pub fn gen(seed: u64, fix_K: Option<usize>, fix_W: Option<usize>) -> (input: Input)
    requires
        fix_K matches Some(k) ==> k <= GEN_N * GEN_N,
        fix_W matches Some(w) ==> w <= 2,
    ensures
        input.N == GEN_N,
        match fix_K {
            Some(k) => input.K == k,
            None => 10 <= input.K <= 100,
        },
        match fix_W {
            Some(w) => input.W == w,
            None => input.W <= 2,
        },
        input.wf(),
        forall|i: int, j: int| 0 <= i < input.K && 0 <= j < input.K && i != j ==> #[trigger] input.ts@[i] != #[trigger] input.ts@[j],
        connected(input.wall_v@, input.wall_h@),
        (exists|ws: Seq<(int, int, int, int)>| ws.len() == input.W && made_of(input.wall_v@, input.wall_h@, ws))
            || open_walls(input.wall_v@, input.wall_h@),
        input.W == 0 ==> open_walls(input.wall_v@, input.wall_h@),
{
    let mut rng = chacha_from_seed(seed ^ 24);
    let n = GEN_N;
    let mut k = chacha_gen_range(&mut rng, 10, 100) as usize;
    if let Some(fixed) = fix_K {
        k = fixed;
    }
    let mut w = chacha_gen_range(&mut rng, 0, 2) as usize;
    if let Some(fixed) = fix_W {
        w = fixed;
    }
    let mut ps = all_cells();
    let ghost cells = ps@;
    chacha_shuffle(&mut ps, &mut rng);
    proof {
        lemma_permutation_distinct(ps@, cells);
    }
    let ss = prefix(&ps, k);
    let ghost cells2 = ps@;
    chacha_shuffle(&mut ps, &mut rng);
    proof {
        lemma_permutation_distinct(ps@, cells2);
    }
    let ts = prefix(&ps, k);
    proof {
        assert forall|i: int| 0 <= i < k implies on_board(#[trigger] ss@[i], n as int) by {
            assert(cells.contains(ss@[i]));
        }
        assert forall|i: int| 0 <= i < k implies on_board(#[trigger] ts@[i], n as int) by {
            assert(cells2.contains(ts@[i]));
            let a = choose|a: int| 0 <= a < cells2.len() && cells2[a] == ts@[i];
            assert(cells.contains(cells2[a]));
        }
    }
    let mut attempts: u64 = 0;
    loop
        invariant
            n == GEN_N,
            k <= 900,
            ss@.len() == k,
            ts@.len() == k,
            match fix_K {
                Some(x) => k == x,
                None => 10 <= k <= 100,
            },
            match fix_W {
                Some(x) => w == x,
                None => w <= 2,
            },
            forall|i: int| 0 <= i < k ==> on_board(#[trigger] ss@[i], n as int),
            forall|i: int| 0 <= i < k ==> on_board(#[trigger] ts@[i], n as int),
            forall|i: int, j: int| 0 <= i < k && 0 <= j < k && i != j ==> #[trigger] ss@[i] != #[trigger] ss@[j],
            forall|i: int, j: int| 0 <= i < k && 0 <= j < k && i != j ==> #[trigger] ts@[i] != #[trigger] ts@[j],
        decreases u64::MAX - attempts,
    {
        let mut wall_v = false_rows(n, n - 1);
        let mut wall_h = false_rows(n - 1, n);
        if attempts == u64::MAX {
            // every draw so far cut the board: fall back to the open board
            proof {
                lemma_open_board(wall_v@, wall_h@);
            }
            return Input { N: n, K: k, W: w, ss, ts, wall_v, wall_h };
        }
        attempts += 1;
        let mut used_v: Vec<bool> = vec![false; n - 1];
        let mut used_h: Vec<bool> = vec![false; n - 1];
        let ghost mut ws: Seq<(int, int, int, int)> = Seq::empty();
        proof {
            assert(made_of(wall_v@, wall_h@, ws));
        }
        let mut t: usize = 0;
        let mut gave_up = false;
        while t < w
            invariant
                made_of(wall_v@, wall_h@, ws),
                gave_up || ws.len() == t,
                used_v@.len() == GEN_N - 1,
                used_h@.len() == GEN_N - 1,
                forall|x: int| 0 <= x < GEN_N - 1 ==> #[trigger] used_v@[x] == claimed_v(ws, x),
                forall|x: int| 0 <= x < GEN_N - 1 ==> #[trigger] used_h@[x] == claimed_h(ws, x),
                t <= w,
            decreases w - t,
        {
            let ghost (wv0, wh0, uv0, uh0) = (wall_v@, wall_h@, used_v@, used_h@);
            if place_wall(&mut rng, &mut wall_v, &mut wall_h, &mut used_v, &mut used_h) {
                proof {
                    let w1 = if exists|dir: int, i: int, j: int, l: int| vertical_wall_placed(wv0, wall_v@, uv0, used_v@, dir, i, j, l) {
                        choose|dir: int, i: int, j: int, l: int| vertical_wall_placed(wv0, wall_v@, uv0, used_v@, dir, i, j, l)
                    } else {
                        choose|dir: int, i: int, j: int, l: int| horizontal_wall_placed(wh0, wall_h@, uh0, used_h@, dir, i, j, l)
                    };
                    lemma_add_long_wall(wv0, wh0, uv0, uh0, wall_v@, wall_h@, used_v@, used_h@, ws, w1);
                    ws = ws.push(w1);
                }
                t += 1;
            } else {
                // no room was found for the wall
                gave_up = true;
                t = w;
            }
        }
        if gave_up {
            // leave the board without walls
            let open_v = false_rows(n, n - 1);
            let open_h = false_rows(n - 1, n);
            proof {
                lemma_open_board(open_v@, open_h@);
            }
            return Input { N: n, K: k, W: w, ss, ts, wall_v: open_v, wall_h: open_h };
        }
        if count_reachable(&wall_v, &wall_h) == n * n {
            return Input { N: n, K: k, W: w, ss, ts, wall_v, wall_h };
        }
    }
}

} // verus!
