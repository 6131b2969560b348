use vstd::prelude::*;

use crate::bits::has_bit;
use crate::grid::{in_board, Coord, MAP_SIZE};

verus! {

/// Cells reachable from `start` in at most `k` moves: a move goes to a side-adjacent
/// cell on the board that is `free`, through an open side. `open_v(r, c)` tells whether
/// `(r, c)` and `(r, c + 1)` are connected, `open_h(r, c)` whether `(r, c)` and `(r + 1, c)` are.
/// The start cell counts as reached even when it is not free.
pub open spec fn reach(
    k: nat,
    start: Coord,
    free: spec_fn(int, int) -> bool,
    open_v: spec_fn(int, int) -> bool,
    open_h: spec_fn(int, int) -> bool,
    r: int,
    c: int,
) -> bool
    decreases k,
{
    if k == 0 {
        r == start.row && c == start.col
    } else {
        let k1 = (k - 1) as nat;
        reach(k1, start, free, open_v, open_h, r, c) || (in_board(r, c) && free(r, c) && ((r + 1
            < MAP_SIZE && reach(k1, start, free, open_v, open_h, r + 1, c) && open_h(r, c)) || (r
            >= 1 && reach(k1, start, free, open_v, open_h, r - 1, c) && open_h(r - 1, c)) || (c + 1
            < MAP_SIZE && reach(k1, start, free, open_v, open_h, r, c + 1) && open_v(r, c)) || (c
            >= 1 && reach(k1, start, free, open_v, open_h, r, c - 1) && open_v(r, c - 1))))
    }
}

/// Step `k` reaches a cell that step `k - 1` did not.
pub open spec fn grows(
    k: nat,
    start: Coord,
    free: spec_fn(int, int) -> bool,
    open_v: spec_fn(int, int) -> bool,
    open_h: spec_fn(int, int) -> bool,
) -> bool {
    exists|r: int, c: int|
        #![trigger reach(k, start, free, open_v, open_h, r, c)]
        in_board(r, c) && reach(k, start, free, open_v, open_h, r, c) && !reach(
            (k - 1) as nat,
            start,
            free,
            open_v,
            open_h,
            r,
            c,
        )
}

/// The search stops after step `k`: nothing new was reached, or the goal was.
pub open spec fn stops(
    k: nat,
    start: Coord,
    goal: Coord,
    free: spec_fn(int, int) -> bool,
    open_v: spec_fn(int, int) -> bool,
    open_h: spec_fn(int, int) -> bool,
) -> bool {
    !grows(k, start, free, open_v, open_h) || reach(
        k,
        start,
        free,
        open_v,
        open_h,
        goal.row as int,
        goal.col as int,
    )
}

/// `k` is the first step, counting from 1, after which the search stops.
pub open spec fn is_first_stop(
    k: nat,
    start: Coord,
    goal: Coord,
    free: spec_fn(int, int) -> bool,
    open_v: spec_fn(int, int) -> bool,
    open_h: spec_fn(int, int) -> bool,
) -> bool {
    &&& k >= 1
    &&& stops(k, start, goal, free, open_v, open_h)
    &&& forall|j: nat| 1 <= j < k ==> !#[trigger] stops(j, start, goal, free, open_v, open_h)
}

/// The outcome of a layer-by-layer search from `start` to a free `goal`: the number of the
/// step that first reaches the goal, or `None` when the reached region stops growing first.
pub open spec fn search_outcome(
    start: Coord,
    goal: Coord,
    free: spec_fn(int, int) -> bool,
    open_v: spec_fn(int, int) -> bool,
    open_h: spec_fn(int, int) -> bool,
) -> Option<nat> {
    if exists|k: nat| is_first_stop(k, start, goal, free, open_v, open_h) {
        let k = choose|k: nat| is_first_stop(k, start, goal, free, open_v, open_h);
        if grows(k, start, free, open_v, open_h) {
            Some(k)
        } else {
            None
        }
    } else {
        None
    }
}

/// Only board cells are reached.
pub proof fn lemma_reach_in_board(
    k: nat,
    start: Coord,
    free: spec_fn(int, int) -> bool,
    open_v: spec_fn(int, int) -> bool,
    open_h: spec_fn(int, int) -> bool,
    r: int,
    c: int,
)
    requires
        start.valid(),
        reach(k, start, free, open_v, open_h, r, c),
    ensures
        in_board(r, c),
    decreases k,
{
    if k > 0 {
        if reach((k - 1) as nat, start, free, open_v, open_h, r, c) {
            lemma_reach_in_board((k - 1) as nat, start, free, open_v, open_h, r, c);
        }
    }
}

/// What is reached once stays reached.
pub proof fn lemma_reach_mono(
    j: nat,
    k: nat,
    start: Coord,
    free: spec_fn(int, int) -> bool,
    open_v: spec_fn(int, int) -> bool,
    open_h: spec_fn(int, int) -> bool,
    r: int,
    c: int,
)
    requires
        j <= k,
        reach(j, start, free, open_v, open_h, r, c),
    ensures
        reach(k, start, free, open_v, open_h, r, c),
    decreases k - j,
{
    if j < k {
        lemma_reach_mono(j, (k - 1) as nat, start, free, open_v, open_h, r, c);
    }
}

/// Once a step adds nothing, no later step adds anything.
pub proof fn lemma_reach_stable(
    k: nat,
    m: nat,
    start: Coord,
    free: spec_fn(int, int) -> bool,
    open_v: spec_fn(int, int) -> bool,
    open_h: spec_fn(int, int) -> bool,
    r: int,
    c: int,
)
    requires
        k >= 1,
        k <= m,
        start.valid(),
        !grows(k, start, free, open_v, open_h),
    ensures
        reach(m, start, free, open_v, open_h, r, c) == reach(
            (k - 1) as nat,
            start,
            free,
            open_v,
            open_h,
            r,
            c,
        ),
    decreases m - k,
{
    let k1 = (k - 1) as nat;
    assert forall|rr: int, cc: int| #[trigger]
        reach(k, start, free, open_v, open_h, rr, cc) == reach(
            k1,
            start,
            free,
            open_v,
            open_h,
            rr,
            cc,
        ) by {
        if reach(k, start, free, open_v, open_h, rr, cc) {
            lemma_reach_in_board(k, start, free, open_v, open_h, rr, cc);
        }
        if reach(k1, start, free, open_v, open_h, rr, cc) {
            lemma_reach_mono(k1, k, start, free, open_v, open_h, rr, cc);
        }
    }
    if m == k {
    } else {
        lemma_reach_stable(k, (m - 1) as nat, start, free, open_v, open_h, r, c);
        let m1 = (m - 1) as nat;
        // step m is computed from step m - 1, which equals step k - 1, whose step is step k
        assert forall|rr: int, cc: int| #[trigger]
            reach(m1, start, free, open_v, open_h, rr, cc) == reach(
                k1,
                start,
                free,
                open_v,
                open_h,
                rr,
                cc,
            ) by {
            lemma_reach_stable(k, m1, start, free, open_v, open_h, rr, cc);
        }
        assert(reach(m1, start, free, open_v, open_h, r, c) == reach(k1, start, free, open_v, open_h, r, c));
        assert(reach(m1, start, free, open_v, open_h, r + 1, c) == reach(k1, start, free, open_v, open_h, r + 1, c));
        assert(reach(m1, start, free, open_v, open_h, r - 1, c) == reach(k1, start, free, open_v, open_h, r - 1, c));
        assert(reach(m1, start, free, open_v, open_h, r, c + 1) == reach(k1, start, free, open_v, open_h, r, c + 1));
        assert(reach(m1, start, free, open_v, open_h, r, c - 1) == reach(k1, start, free, open_v, open_h, r, c - 1));
        assert(reach(m, start, free, open_v, open_h, r, c) == reach(
            k,
            start,
            free,
            open_v,
            open_h,
            r,
            c,
        ));
    }
}

/// The step at which the search first stops is unique.
pub proof fn lemma_first_stop_unique(
    k: nat,
    start: Coord,
    goal: Coord,
    free: spec_fn(int, int) -> bool,
    open_v: spec_fn(int, int) -> bool,
    open_h: spec_fn(int, int) -> bool,
)
    requires
        is_first_stop(k, start, goal, free, open_v, open_h),
    ensures
        search_outcome(start, goal, free, open_v, open_h) == if grows(
            k,
            start,
            free,
            open_v,
            open_h,
        ) {
            Some(k)
        } else {
            None::<nat>
        },
{
    let k2 = choose|k2: nat| is_first_stop(k2, start, goal, free, open_v, open_h);
    assert(is_first_stop(k2, start, goal, free, open_v, open_h));
    if k2 < k {
        assert(!stops(k2, start, goal, free, open_v, open_h));
    }
    if k < k2 {
        assert(!stops(k, start, goal, free, open_v, open_h));
    }
}


/// Two boards that agree on every cell give the same search.
pub open spec fn same_board(
    free1: spec_fn(int, int) -> bool,
    open_v1: spec_fn(int, int) -> bool,
    open_h1: spec_fn(int, int) -> bool,
    free2: spec_fn(int, int) -> bool,
    open_v2: spec_fn(int, int) -> bool,
    open_h2: spec_fn(int, int) -> bool,
) -> bool {
    forall|r: int, c: int|
        #![trigger free1(r, c)]
        #![trigger free2(r, c)]
        #![trigger open_v1(r, c)]
        #![trigger open_v2(r, c)]
        #![trigger open_h1(r, c)]
        #![trigger open_h2(r, c)]
        in_board(r, c) ==> free1(r, c) == free2(r, c) && open_v1(r, c) == open_v2(r, c) && open_h1(
            r,
            c,
        ) == open_h2(r, c)
}

pub proof fn lemma_reach_congruent(
    k: nat,
    start: Coord,
    free1: spec_fn(int, int) -> bool,
    open_v1: spec_fn(int, int) -> bool,
    open_h1: spec_fn(int, int) -> bool,
    free2: spec_fn(int, int) -> bool,
    open_v2: spec_fn(int, int) -> bool,
    open_h2: spec_fn(int, int) -> bool,
    r: int,
    c: int,
)
    requires
        same_board(free1, open_v1, open_h1, free2, open_v2, open_h2),
    ensures
        reach(k, start, free1, open_v1, open_h1, r, c) == reach(k, start, free2, open_v2, open_h2, r, c),
    decreases k,
{
    if k > 0 {
        let k1 = (k - 1) as nat;
        lemma_reach_congruent(k1, start, free1, open_v1, open_h1, free2, open_v2, open_h2, r, c);
        lemma_reach_congruent(k1, start, free1, open_v1, open_h1, free2, open_v2, open_h2, r + 1, c);
        lemma_reach_congruent(k1, start, free1, open_v1, open_h1, free2, open_v2, open_h2, r - 1, c);
        lemma_reach_congruent(k1, start, free1, open_v1, open_h1, free2, open_v2, open_h2, r, c + 1);
        lemma_reach_congruent(k1, start, free1, open_v1, open_h1, free2, open_v2, open_h2, r, c - 1);
        if in_board(r, c) {
            assert(free1(r, c) == free2(r, c));
            assert(open_v1(r, c) == open_v2(r, c));
            assert(open_h1(r, c) == open_h2(r, c));
        }
        if in_board(r - 1, c) {
            assert(open_h1(r - 1, c) == open_h2(r - 1, c));
        }
        if in_board(r, c - 1) {
            assert(open_v1(r, c - 1) == open_v2(r, c - 1));
        }
    }
}

proof fn lemma_first_stop_congruent(
    k: nat,
    start: Coord,
    goal: Coord,
    free1: spec_fn(int, int) -> bool,
    open_v1: spec_fn(int, int) -> bool,
    open_h1: spec_fn(int, int) -> bool,
    free2: spec_fn(int, int) -> bool,
    open_v2: spec_fn(int, int) -> bool,
    open_h2: spec_fn(int, int) -> bool,
)
    requires
        same_board(free1, open_v1, open_h1, free2, open_v2, open_h2),
    ensures
        grows(k, start, free1, open_v1, open_h1) == grows(k, start, free2, open_v2, open_h2),
        stops(k, start, goal, free1, open_v1, open_h1) == stops(k, start, goal, free2, open_v2, open_h2),
{
    assert forall|r: int, c: int| #[trigger] reach(k, start, free1, open_v1, open_h1, r, c) == reach(k, start, free2, open_v2, open_h2, r, c)
        && reach((k - 1) as nat, start, free1, open_v1, open_h1, r, c) == reach((k - 1) as nat, start, free2, open_v2, open_h2, r, c) by {
        lemma_reach_congruent(k, start, free1, open_v1, open_h1, free2, open_v2, open_h2, r, c);
        lemma_reach_congruent((k - 1) as nat, start, free1, open_v1, open_h1, free2, open_v2, open_h2, r, c);
    }
    if grows(k, start, free1, open_v1, open_h1) {
        let (r, c) = choose|r: int, c: int| in_board(r, c) && reach(k, start, free1, open_v1, open_h1, r, c) && !reach((k - 1) as nat, start, free1, open_v1, open_h1, r, c);
        assert(reach(k, start, free2, open_v2, open_h2, r, c));
    }
    if grows(k, start, free2, open_v2, open_h2) {
        let (r, c) = choose|r: int, c: int| in_board(r, c) && reach(k, start, free2, open_v2, open_h2, r, c) && !reach((k - 1) as nat, start, free2, open_v2, open_h2, r, c);
        assert(reach(k, start, free1, open_v1, open_h1, r, c));
    }
    lemma_reach_congruent(k, start, free1, open_v1, open_h1, free2, open_v2, open_h2, goal.row as int, goal.col as int);
}

/// Two boards that agree on every cell give the same search outcome.
pub proof fn lemma_outcome_congruent(
    start: Coord,
    goal: Coord,
    free1: spec_fn(int, int) -> bool,
    open_v1: spec_fn(int, int) -> bool,
    open_h1: spec_fn(int, int) -> bool,
    free2: spec_fn(int, int) -> bool,
    open_v2: spec_fn(int, int) -> bool,
    open_h2: spec_fn(int, int) -> bool,
)
    requires
        same_board(free1, open_v1, open_h1, free2, open_v2, open_h2),
    ensures
        search_outcome(start, goal, free1, open_v1, open_h1) == search_outcome(start, goal, free2, open_v2, open_h2),
{
    assert forall|k: nat| #[trigger] is_first_stop(k, start, goal, free1, open_v1, open_h1) == is_first_stop(k, start, goal, free2, open_v2, open_h2) by {
        lemma_first_stop_congruent(k, start, goal, free1, open_v1, open_h1, free2, open_v2, open_h2);
        if is_first_stop(k, start, goal, free1, open_v1, open_h1) {
            assert forall|j: nat| 1 <= j < k implies !#[trigger] stops(j, start, goal, free2, open_v2, open_h2) by {
                lemma_first_stop_congruent(j, start, goal, free1, open_v1, open_h1, free2, open_v2, open_h2);
            }
        }
        if is_first_stop(k, start, goal, free2, open_v2, open_h2) {
            assert forall|j: nat| 1 <= j < k implies !#[trigger] stops(j, start, goal, free1, open_v1, open_h1) by {
                lemma_first_stop_congruent(j, start, goal, free1, open_v1, open_h1, free2, open_v2, open_h2);
            }
        }
    }
    if exists|k: nat| is_first_stop(k, start, goal, free1, open_v1, open_h1) {
        let k = choose|k: nat| is_first_stop(k, start, goal, free1, open_v1, open_h1);
        lemma_first_stop_unique(k, start, goal, free1, open_v1, open_h1);
        lemma_first_stop_unique(k, start, goal, free2, open_v2, open_h2);
        lemma_first_stop_congruent(k, start, goal, free1, open_v1, open_h1, free2, open_v2, open_h2);
    } else if exists|k: nat| is_first_stop(k, start, goal, free2, open_v2, open_h2) {
        let k = choose|k: nat| is_first_stop(k, start, goal, free2, open_v2, open_h2);
        assert(is_first_stop(k, start, goal, free1, open_v1, open_h1));
    }
}

/// Without a first stop, the search never stops.
proof fn lemma_no_stop(
    k: nat,
    start: Coord,
    goal: Coord,
    free: spec_fn(int, int) -> bool,
    open_v: spec_fn(int, int) -> bool,
    open_h: spec_fn(int, int) -> bool,
)
    requires
        !exists|m: nat| is_first_stop(m, start, goal, free, open_v, open_h),
    ensures
        forall|j: nat| 1 <= j <= k ==> !#[trigger] stops(j, start, goal, free, open_v, open_h),
    decreases k,
{
    if k >= 1 {
        lemma_no_stop((k - 1) as nat, start, goal, free, open_v, open_h);
        if stops(k, start, goal, free, open_v, open_h) {
            assert(is_first_stop(k, start, goal, free, open_v, open_h));
        }
    }
}

/// The search's answer is the length of a shortest path: the goal is reached in that many
/// steps and in no fewer; when the answer is `None`, no number of steps reaches the goal.
pub proof fn law_search_shortest(
    start: Coord,
    goal: Coord,
    free: spec_fn(int, int) -> bool,
    open_v: spec_fn(int, int) -> bool,
    open_h: spec_fn(int, int) -> bool,
)
    requires
        start.valid(),
        start != goal,
    ensures
        search_outcome(start, goal, free, open_v, open_h) matches Some(d) ==> {
            &&& reach(d, start, free, open_v, open_h, goal.row as int, goal.col as int)
            &&& forall|j: nat| j < d ==> !#[trigger] reach(j, start, free, open_v, open_h, goal.row as int, goal.col as int)
        },
        search_outcome(start, goal, free, open_v, open_h) is None ==> forall|k: nat|
            !#[trigger] reach(k, start, free, open_v, open_h, goal.row as int, goal.col as int),
{
    let gr = goal.row as int;
    let gc = goal.col as int;
    if exists|k: nat| is_first_stop(k, start, goal, free, open_v, open_h) {
        let k = choose|k: nat| is_first_stop(k, start, goal, free, open_v, open_h);
        lemma_first_stop_unique(k, start, goal, free, open_v, open_h);
        assert forall|j: nat| j < k implies !#[trigger] reach(j, start, free, open_v, open_h, gr, gc) by {
            if j >= 1 {
                assert(!stops(j, start, goal, free, open_v, open_h));
            }
        }
        if !grows(k, start, free, open_v, open_h) {
            assert forall|m: nat| !#[trigger] reach(m, start, free, open_v, open_h, gr, gc) by {
                if m >= k {
                    lemma_reach_stable(k, m, start, free, open_v, open_h, gr, gc);
                } else if reach(m, start, free, open_v, open_h, gr, gc) {
                    lemma_reach_mono(m, (k - 1) as nat, start, free, open_v, open_h, gr, gc);
                }
            }
        }
    } else {
        assert forall|m: nat| !#[trigger] reach(m, start, free, open_v, open_h, gr, gc) by {
            if m >= 1 {
                lemma_no_stop(m, start, goal, free, open_v, open_h);
                assert(!stops(m, start, goal, free, open_v, open_h));
            }
        }
    }
}

} // verus!
