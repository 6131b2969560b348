use vstd::prelude::*;

use crate::bits::{
    has_bit, lemma_bit_and, lemma_bit_not, lemma_bit_or, lemma_bit_shl1, lemma_bit_shl1_zero,
    lemma_bit_shr1, lemma_mask_test, lemma_nonzero_has_bit, lemma_popcount_bound,
    lemma_popcount_mono, lemma_small_no_high_bit, popcount_below,
};
use crate::grid::{in_board, manhattan, Coord, Map2d, MAP_SIZE};
use crate::problem::{all_valid, distinct_cells, occupied_by, Input};
use crate::search::{
    grows, is_first_stop, lemma_first_stop_unique, lemma_outcome_congruent, lemma_reach_in_board,
    reach, same_board, search_outcome, stops,
};

verus! {

/// Bits 30 and 31 of a row mask: they stand for cells beyond the right border.
pub const BORDER_BITS: u32 = 0xC000_0000;

/// A cell `(r, c)` is free when its bit in the occupancy masks is clear.
pub open spec fn bits_free(occ: Seq<u32>) -> spec_fn(int, int) -> bool {
    |r: int, c: int| !has_bit(occ[r], c as u32)
}

/// A side is open when its bit in the wall masks is clear.
pub open spec fn bits_open(walls: Seq<u32>) -> spec_fn(int, int) -> bool {
    |r: int, c: int| !has_bit(walls[r], c as u32)
}

/// Masks of one per board row, each with the two border bits set.
pub open spec fn occupancy_ok(occ: Seq<u32>) -> bool {
    &&& occ.len() == MAP_SIZE
    &&& forall|r: int| 0 <= r < MAP_SIZE ==> #[trigger] occ[r] & BORDER_BITS == BORDER_BITS
}

/// Masks of one per board row, using the board's columns only.
pub open spec fn rows_ok(v: Seq<u32>) -> bool {
    &&& v.len() == MAP_SIZE
    &&& forall|r: int| 0 <= r < MAP_SIZE ==> #[trigger] v[r] < 0x4000_0000
}

/// The bits of `v` are exactly the cells reached in `k` steps.
pub open spec fn matches_reach(
    v: Seq<u32>,
    k: nat,
    start: Coord,
    occ: Seq<u32>,
    wall_v: Seq<u32>,
    wall_h: Seq<u32>,
) -> bool {
    forall|r: int, c: int|
        #![trigger has_bit(v[r], c as u32)]
        #![trigger reach(k, start, bits_free(occ), bits_open(wall_v), bits_open(wall_h), r, c)]
        in_board(r, c) ==> (has_bit(v[r], c as u32) == reach(
            k,
            start,
            bits_free(occ),
            bits_open(wall_v),
            bits_open(wall_h),
            r,
            c,
        ))
}

/// Cells of row `r` entered from the row below.
pub open spec fn up_into(v: Seq<u32>, occ: Seq<u32>, wall_h: Seq<u32>, r: int) -> u32 {
    if r + 1 < MAP_SIZE {
        v[r + 1] & !wall_h[r] & !occ[r]
    } else {
        0
    }
}

/// Cells of row `r` entered from the row above.
pub open spec fn down_into(v: Seq<u32>, occ: Seq<u32>, wall_h: Seq<u32>, r: int) -> u32 {
    if r >= 1 {
        v[r - 1] & !wall_h[r - 1] & !occ[r]
    } else {
        0
    }
}

/// Cells of row `r` entered from their right neighbour.
pub open spec fn left_into(v: Seq<u32>, occ: Seq<u32>, wall_v: Seq<u32>, r: int) -> u32 {
    (v[r] >> 1u32) & !wall_v[r] & !occ[r]
}

/// Cells of row `r` entered from their left neighbour.
pub open spec fn right_into(v: Seq<u32>, occ: Seq<u32>, wall_v: Seq<u32>, r: int) -> u32 {
    ((v[r] & !wall_v[r]) << 1u32) & !occ[r]
}

/// Row `r` after one more step of the search.
pub open spec fn step_row(
    v: Seq<u32>,
    occ: Seq<u32>,
    wall_v: Seq<u32>,
    wall_h: Seq<u32>,
    r: int,
) -> u32 {
    v[r] | up_into(v, occ, wall_h, r) | down_into(v, occ, wall_h, r) | left_into(v, occ, wall_v, r)
        | right_into(v, occ, wall_v, r)
}

/// Number of reached cells over all rows.
pub open spec fn count_cells(v: Seq<u32>) -> nat
    decreases v.len(),
{
    if v.len() == 0 {
        0
    } else {
        count_cells(v.drop_last()) + popcount_below(v.last(), 30)
    }
}

proof fn lemma_masked_small(x: u32, o: u32)
    requires
        o & BORDER_BITS == BORDER_BITS,
    ensures
        x & !o < 0x4000_0000,
{
    assert((o & 0xC000_0000u32) == 0xC000_0000u32 ==> (x & !o) < 0x4000_0000u32) by (bit_vector);
}

proof fn lemma_or_small(a: u32, b: u32)
    requires
        a < 0x4000_0000,
        b < 0x4000_0000,
    ensures
        a | b < 0x4000_0000,
{
    assert(a < 0x4000_0000u32 && b < 0x4000_0000u32 ==> (a | b) < 0x4000_0000u32) by (bit_vector);
}

/// One step of the bit-parallel search computes the next layer of `reach`.
proof fn lemma_step_row(
    v: Seq<u32>,
    k: nat,
    start: Coord,
    occ: Seq<u32>,
    wall_v: Seq<u32>,
    wall_h: Seq<u32>,
    r: int,
)
    requires
        start.valid(),
        0 <= r < MAP_SIZE,
        rows_ok(v),
        occupancy_ok(occ),
        wall_v.len() == MAP_SIZE,
        wall_h.len() == MAP_SIZE,
        matches_reach(v, k, start, occ, wall_v, wall_h),
    ensures
        step_row(v, occ, wall_v, wall_h, r) < 0x4000_0000,
        forall|c: int|
            0 <= c < MAP_SIZE ==> #[trigger] has_bit(step_row(v, occ, wall_v, wall_h, r), c as u32)
                == reach(
                k + 1,
                start,
                bits_free(occ),
                bits_open(wall_v),
                bits_open(wall_h),
                r,
                c,
            ),
{
    let free = bits_free(occ);
    let ov = bits_open(wall_v);
    let oh = bits_open(wall_h);
    let up = up_into(v, occ, wall_h, r);
    let down = down_into(v, occ, wall_h, r);
    let left = left_into(v, occ, wall_v, r);
    let right = right_into(v, occ, wall_v, r);
    let s = step_row(v, occ, wall_v, wall_h, r);
    // range
    if r + 1 < MAP_SIZE {
        lemma_masked_small(v[r + 1] & !wall_h[r], occ[r]);
    }
    if r >= 1 {
        lemma_masked_small(v[r - 1] & !wall_h[r - 1], occ[r]);
    }
    lemma_masked_small((v[r] >> 1u32) & !wall_v[r], occ[r]);
    lemma_masked_small((v[r] & !wall_v[r]) << 1u32, occ[r]);
    assert(0u32 < 0x4000_0000u32);
    lemma_or_small(v[r], up);
    lemma_or_small(v[r] | up, down);
    lemma_or_small(v[r] | up | down, left);
    lemma_or_small(v[r] | up | down | left, right);
    assert forall|c: int| 0 <= c < MAP_SIZE implies #[trigger] has_bit(s, c as u32) == reach(
        k + 1,
        start,
        free,
        ov,
        oh,
        r,
        c,
    ) by {
        let cu = c as u32;
        lemma_bit_or(v[r] | up | down | left, right, cu);
        lemma_bit_or(v[r] | up | down, left, cu);
        lemma_bit_or(v[r] | up, down, cu);
        lemma_bit_or(v[r], up, cu);
        lemma_bit_not(occ[r], cu);
        // from below
        if r + 1 < MAP_SIZE {
            lemma_bit_and(v[r + 1] & !wall_h[r], !occ[r], cu);
            lemma_bit_and(v[r + 1], !wall_h[r], cu);
            lemma_bit_not(wall_h[r], cu);
            assert(has_bit(v[r + 1], cu) == reach(k, start, free, ov, oh, r + 1, c));
        } else {
            crate::bits::lemma_bit_zero(cu);
        }
        // from above
        if r >= 1 {
            lemma_bit_and(v[r - 1] & !wall_h[r - 1], !occ[r], cu);
            lemma_bit_and(v[r - 1], !wall_h[r - 1], cu);
            lemma_bit_not(wall_h[r - 1], cu);
            assert(has_bit(v[r - 1], cu) == reach(k, start, free, ov, oh, r - 1, c));
        } else {
            crate::bits::lemma_bit_zero(cu);
        }
        // from the right
        lemma_bit_and((v[r] >> 1u32) & !wall_v[r], !occ[r], cu);
        lemma_bit_and(v[r] >> 1u32, !wall_v[r], cu);
        lemma_bit_not(wall_v[r], cu);
        lemma_bit_shr1(v[r], cu);
        if c + 1 < MAP_SIZE {
            assert(has_bit(v[r], (cu + 1) as u32) == reach(k, start, free, ov, oh, r, c + 1));
        } else {
            lemma_small_no_high_bit(v[r], (cu + 1) as u32);
            if reach(k, start, free, ov, oh, r, c + 1) {
                lemma_reach_in_board(k, start, free, ov, oh, r, c + 1);
            }
        }
        // from the left
        lemma_bit_and((v[r] & !wall_v[r]) << 1u32, !occ[r], cu);
        if c >= 1 {
            lemma_bit_shl1(v[r] & !wall_v[r], cu);
            lemma_bit_and(v[r], !wall_v[r], (cu - 1) as u32);
            lemma_bit_not(wall_v[r], (cu - 1) as u32);
            assert(has_bit(v[r], (cu - 1) as u32) == reach(k, start, free, ov, oh, r, c - 1));
        } else {
            lemma_bit_shl1_zero(v[r] & !wall_v[r]);
        }
        assert(has_bit(v[r], cu) == reach(k, start, free, ov, oh, r, c));
    }
}


proof fn lemma_track(nv: u32, u: u32, vt: u32, b: u32)
    requires
        u & vt == vt,
    ensures
        ((nv | (b & !vt)) == 0) == (nv == 0 && (b & !vt) == 0),
        ((u | b) == vt) == (u == vt && (b & !vt) == 0),
        (u | b) & vt == vt,
{
    assert(((nv | (b & !vt)) == 0u32) == (nv == 0u32 && (b & !vt) == 0u32)) by (bit_vector);
    assert((u & vt) == vt ==> (((u | b) == vt) == (u == vt && (b & !vt) == 0u32))) by (bit_vector);
    assert((u & vt) == vt ==> ((u | b) & vt) == vt) by (bit_vector);
}

/// Keeps track of whether any row changed while rows are widened one at a time.
proof fn lemma_nv_step(old_vu: Seq<u32>, vu: Seq<u32>, v: Seq<u32>, t: int, b: u32, old_nv: u32, nv: u32)
    requires
        0 <= t < MAP_SIZE,
        old_vu.len() == MAP_SIZE,
        v.len() == MAP_SIZE,
        vu == old_vu.update(t, old_vu[t] | b),
        nv == old_nv | (b & !v[t]),
        forall|r: int| 0 <= r < MAP_SIZE ==> #[trigger] old_vu[r] & v[r] == v[r],
        (old_nv == 0) == (forall|r: int| 0 <= r < MAP_SIZE ==> #[trigger] old_vu[r] == v[r]),
    ensures
        forall|r: int| 0 <= r < MAP_SIZE ==> #[trigger] vu[r] & v[r] == v[r],
        (nv == 0) == (forall|r: int| 0 <= r < MAP_SIZE ==> #[trigger] vu[r] == v[r]),
{
    lemma_track(old_nv, old_vu[t], v[t], b);
    assert(old_vu[t] & v[t] == v[t]);
    assert forall|r: int| 0 <= r < MAP_SIZE implies #[trigger] vu[r] & v[r] == v[r] by {
        if r != t {
            assert(vu[r] == old_vu[r]);
            assert(old_vu[r] & v[r] == v[r]);
        }
    }
    let all_new = forall|r: int| 0 <= r < MAP_SIZE ==> #[trigger] vu[r] == v[r];
    let all_old = forall|r: int| 0 <= r < MAP_SIZE ==> #[trigger] old_vu[r] == v[r];
    let x = b & !v[t];
    if all_old && x == 0 {
        assert forall|r: int| 0 <= r < MAP_SIZE implies #[trigger] vu[r] == v[r] by {
            if r != t {
                assert(old_vu[r] == v[r]);
            } else {
                assert(old_vu[t] == v[t]);
            }
        }
    }
    if all_new {
        assert(vu[t] == v[t]);
        assert forall|r: int| 0 <= r < MAP_SIZE implies #[trigger] old_vu[r] == v[r] by {
            if r != t {
                assert(vu[r] == v[r]);
            }
        }
    }
}

proof fn lemma_or_zero(x: u32)
    ensures
        x | 0u32 == x,
{
    assert(x | 0u32 == x) by (bit_vector);
}

/// A row that gained bits gained a board cell.
proof fn lemma_changed_row(u: u32, v: u32) -> (c: u32)
    requires
        u & v == v,
        u != v,
        u < 0x4000_0000,
    ensures
        c < 30,
        has_bit(u, c),
        !has_bit(v, c),
{
    assert((u & v) == v && u != v ==> (u & !v) != 0u32) by (bit_vector);
    let c = lemma_nonzero_has_bit(u & !v);
    lemma_bit_and(u, !v, c);
    lemma_bit_not(v, c);
    if c >= 30 {
        lemma_small_no_high_bit(u, c);
    }
    c
}

proof fn lemma_self_and(x: u32)
    ensures
        x & x == x,
{
    assert(x & x == x) by (bit_vector);
}

/// Adding bits to the rows never lowers the count, and adding a board cell raises it.
proof fn lemma_count_mono(v: Seq<u32>, u: Seq<u32>)
    requires
        v.len() == u.len(),
        forall|r: int, c: u32| 0 <= r < v.len() && c < 30 && has_bit(v[r], c) ==> has_bit(u[r], c),
    ensures
        count_cells(v) <= count_cells(u),
        (exists|r: int, c: u32| 0 <= r < v.len() && c < 30 && has_bit(u[r], c) && !has_bit(v[r], c))
            ==> count_cells(v) < count_cells(u),
    decreases v.len(),
{
    if v.len() > 0 {
        let n = v.len() - 1;
        lemma_count_mono(v.drop_last(), u.drop_last());
        lemma_popcount_mono(v.last(), u.last(), 30);
        if exists|r: int, c: u32| 0 <= r < v.len() && c < 30 && has_bit(u[r], c) && !has_bit(v[r], c) {
            let (r, c) = choose|r: int, c: u32| 0 <= r < v.len() && c < 30 && has_bit(u[r], c) && !has_bit(v[r], c);
            if r < n {
                assert(has_bit(u.drop_last()[r], c) && !has_bit(v.drop_last()[r], c));
            } else {
                assert(exists|c: u32| c < 30 && has_bit(u.last(), c) && !has_bit(v.last(), c));
            }
        }
    }
}

proof fn lemma_count_bound(v: Seq<u32>)
    ensures
        count_cells(v) <= 30 * v.len(),
    decreases v.len(),
{
    if v.len() > 0 {
        lemma_count_bound(v.drop_last());
        lemma_popcount_bound(v.last(), 30);
    }
}

/// The length, counted in moves, of a shortest way from `start` to `goal` that avoids the
/// cells whose bit is set in `occupied_bits` and crosses no side whose bit is set in the wall
/// masks (`wall_bits_v` row `r` bit `c`: between `(r, c)` and `(r, c + 1)`; `wall_bits_h` row
/// `r` bit `c`: between `(r, c)` and `(r + 1, c)`). `None` when the goal is occupied or cannot
/// be reached.
pub fn find_dist(
    start: Coord,
    goal: Coord,
    occupied_bits: &Vec<u32>,
    wall_bits_v: &Vec<u32>,
    wall_bits_h: &Vec<u32>,
) -> (res: Option<u32>)
    requires
        start.valid(),
        goal.valid(),
        occupancy_ok(occupied_bits@),
        wall_bits_v@.len() == MAP_SIZE,
        wall_bits_h@.len() == MAP_SIZE,
    ensures
        has_bit(occupied_bits@[goal.row as int], goal.col as u32) ==> res is None,
        !has_bit(occupied_bits@[goal.row as int], goal.col as u32) ==> match res {
            Some(d) => search_outcome(
                start,
                goal,
                bits_free(occupied_bits@),
                bits_open(wall_bits_v@),
                bits_open(wall_bits_h@),
            ) == Some(d as nat),
            None => search_outcome(
                start,
                goal,
                bits_free(occupied_bits@),
                bits_open(wall_bits_v@),
                bits_open(wall_bits_h@),
            ) is None,
        },
        res matches Some(d) ==> 1 <= d <= 900,
{
    let ghost occ = occupied_bits@;
    let ghost wv = wall_bits_v@;
    let ghost wh = wall_bits_h@;
    let ghost free = bits_free(occ);
    let ghost ov = bits_open(wv);
    let ghost oh = bits_open(wh);
    proof {
        lemma_mask_test(occupied_bits[goal.row as int], goal.col as u32);
    }
    if occupied_bits[goal.row] & (1u32 << goal.col) != 0 {
        return None;
    }
    let mut visited: Vec<u32> = vec![0u32; MAP_SIZE];
    let first = visited[start.row] | (1u32 << start.col);
    visited.set(start.row, first);
    proof {
        assert forall|r: int, c: int| in_board(r, c) implies (has_bit(visited@[r], c as u32) == reach(
            0,
            start,
            free,
            ov,
            oh,
            r,
            c,
        )) by {
            crate::bits::lemma_bit_zero(c as u32);
            lemma_bit_or(0u32, 1u32 << start.col as u32, c as u32);
            crate::bits::lemma_bit_one_shl(start.col as u32, c as u32);
        }
        assert(visited@[start.row as int] < 0x4000_0000) by {
            let sc = start.col as u32;
            assert(sc < 30 ==> (0u32 | (1u32 << sc)) < 0x4000_0000u32) by (bit_vector);
        }
        assert(has_bit(visited@[start.row as int], start.col as u32));
        assert forall|r: int, c: u32| 0 <= r < 30 && c < 30 && has_bit(Seq::new(30, |i: int| 0u32)[r], c)
            implies has_bit(visited@[r], c) by {
            crate::bits::lemma_bit_zero(c);
        }
        lemma_count_mono(Seq::new(30, |i: int| 0u32), visited@);
        assert(exists|r: int, c: u32| 0 <= r < 30 && c < 30 && has_bit(visited@[r], c) && !has_bit(Seq::new(30, |i: int| 0u32)[r], c)) by {
            crate::bits::lemma_bit_zero(start.col as u32);
            assert(has_bit(visited@[start.row as int], start.col as u32) && !has_bit(Seq::new(30, |i: int| 0u32)[start.row as int], start.col as u32));
        }
        lemma_count_bound(visited@);
    }
    let mut dist: u32 = 1;
    loop
        invariant
            start.valid(),
            goal.valid(),
            occ == occupied_bits@,
            wv == wall_bits_v@,
            wh == wall_bits_h@,
            free == bits_free(occ),
            ov == bits_open(wv),
            oh == bits_open(wh),
            occupancy_ok(occ),
            wv.len() == MAP_SIZE,
            wh.len() == MAP_SIZE,
            !has_bit(occ[goal.row as int], goal.col as u32),
            rows_ok(visited@),
            1 <= dist <= count_cells(visited@) <= 900,
            matches_reach(visited@, (dist - 1) as nat, start, occ, wv, wh),
            forall|j: nat| 1 <= j < dist ==> !#[trigger] stops(j, start, goal, free, ov, oh),
        decreases 900 - count_cells(visited@),
    {
        let ghost v = visited@;
        let ghost k = (dist - 1) as nat;
        let mut visited_updated = visited.clone();
        assert(visited_updated@ =~= visited@);
        let mut new_visited: u32 = 0;
        proof {
            assert forall|r: int| 0 <= r < 30 implies #[trigger] visited_updated@[r] & v[r] == v[r] by {
                lemma_self_and(v[r]);
            }
        }
        // moves up
        let mut row: usize = 1;
        while row < MAP_SIZE
            invariant
                1 <= row <= MAP_SIZE,
                v == visited@,
                rows_ok(v),
                occupancy_ok(occ),
                occ == occupied_bits@,
                wv == wall_bits_v@,
                wh == wall_bits_h@,
                wv.len() == MAP_SIZE,
                wh.len() == MAP_SIZE,
                visited_updated@.len() == MAP_SIZE,
                forall|r: int| 0 <= r < MAP_SIZE ==> #[trigger] visited_updated@[r] == if r < row - 1 {
                    v[r] | up_into(v, occ, wh, r)
                } else {
                    v[r]
                },
                forall|r: int| 0 <= r < MAP_SIZE ==> #[trigger] visited_updated@[r] & v[r] == v[r],
                (new_visited == 0) == (forall|r: int| 0 <= r < MAP_SIZE ==> #[trigger] visited_updated@[r] == v[r]),
            decreases MAP_SIZE - row,
        {
            let bit = visited[row] & !wall_bits_h[row - 1] & !occupied_bits[row - 1];
            let t = row - 1;
            let ghost old_vu = visited_updated@;
            let ghost old_nv = new_visited;
            proof {
                lemma_track(new_visited, visited_updated@[t as int], v[t as int], bit);
            }
            new_visited = new_visited | (bit & !visited[t]);
            let nb = visited_updated[t] | bit;
            visited_updated.set(t, nb);
            proof {
                assert(bit == up_into(v, occ, wh, t as int));
                lemma_nv_step(old_vu, visited_updated@, v, t as int, bit, old_nv, new_visited);
            }
            row += 1;
        }
        proof {
            assert forall|r: int| 0 <= r < MAP_SIZE implies #[trigger] visited_updated@[r] == v[r] | up_into(v, occ, wh, r) by {
                if r == MAP_SIZE - 1 { lemma_or_zero(v[r]); }
            }
        }
        // moves down
        let mut row: usize = 0;
        while row < MAP_SIZE - 1
            invariant
                0 <= row <= MAP_SIZE - 1,
                v == visited@,
                rows_ok(v),
                occupancy_ok(occ),
                occ == occupied_bits@,
                wv == wall_bits_v@,
                wh == wall_bits_h@,
                wv.len() == MAP_SIZE,
                wh.len() == MAP_SIZE,
                visited_updated@.len() == MAP_SIZE,
                forall|r: int| 0 <= r < MAP_SIZE ==> #[trigger] visited_updated@[r] == if 1 <= r <= row { v[r] | up_into(v, occ, wh, r) | down_into(v, occ, wh, r) } else { v[r] | up_into(v, occ, wh, r) },
                forall|r: int| 0 <= r < MAP_SIZE ==> #[trigger] visited_updated@[r] & v[r] == v[r],
                (new_visited == 0) == (forall|r: int| 0 <= r < MAP_SIZE ==> #[trigger] visited_updated@[r] == v[r]),
            decreases MAP_SIZE - 1 - row,
        {
            let bit = visited[row] & !wall_bits_h[row] & !occupied_bits[row + 1];
            let t = row + 1;
            let ghost old_vu = visited_updated@;
            let ghost old_nv = new_visited;
            new_visited = new_visited | (bit & !visited[t]);
            let nb = visited_updated[t] | bit;
            visited_updated.set(t, nb);
            proof {
                assert(bit == down_into(v, occ, wh, t as int));
                lemma_nv_step(old_vu, visited_updated@, v, t as int, bit, old_nv, new_visited);
            }
            row += 1;
        }
        proof {
            assert forall|r: int| 0 <= r < MAP_SIZE implies #[trigger] visited_updated@[r] == v[r] | up_into(v, occ, wh, r) | down_into(v, occ, wh, r) by {
                if r == 0 { lemma_or_zero(v[r] | up_into(v, occ, wh, r)); }
            }
        }
        // moves left
        let mut row: usize = 0;
        while row < MAP_SIZE
            invariant
                0 <= row <= MAP_SIZE,
                v == visited@,
                rows_ok(v),
                occupancy_ok(occ),
                occ == occupied_bits@,
                wv == wall_bits_v@,
                wh == wall_bits_h@,
                wv.len() == MAP_SIZE,
                wh.len() == MAP_SIZE,
                visited_updated@.len() == MAP_SIZE,
                forall|r: int| 0 <= r < MAP_SIZE ==> #[trigger] visited_updated@[r] == if r < row { v[r] | up_into(v, occ, wh, r) | down_into(v, occ, wh, r) | left_into(v, occ, wv, r) } else { v[r] | up_into(v, occ, wh, r) | down_into(v, occ, wh, r) },
                forall|r: int| 0 <= r < MAP_SIZE ==> #[trigger] visited_updated@[r] & v[r] == v[r],
                (new_visited == 0) == (forall|r: int| 0 <= r < MAP_SIZE ==> #[trigger] visited_updated@[r] == v[r]),
            decreases MAP_SIZE - row,
        {
            let bit = (visited[row] >> 1u32) & !wall_bits_v[row] & !occupied_bits[row];
            let t = row;
            let ghost old_vu = visited_updated@;
            let ghost old_nv = new_visited;
            new_visited = new_visited | (bit & !visited[t]);
            let nb = visited_updated[t] | bit;
            visited_updated.set(t, nb);
            proof {
                assert(bit == left_into(v, occ, wv, t as int));
                lemma_nv_step(old_vu, visited_updated@, v, t as int, bit, old_nv, new_visited);
            }
            row += 1;
        }
        // moves right
        let mut row: usize = 0;
        while row < MAP_SIZE
            invariant
                0 <= row <= MAP_SIZE,
                v == visited@,
                rows_ok(v),
                occupancy_ok(occ),
                occ == occupied_bits@,
                wv == wall_bits_v@,
                wh == wall_bits_h@,
                wv.len() == MAP_SIZE,
                wh.len() == MAP_SIZE,
                visited_updated@.len() == MAP_SIZE,
                forall|r: int| 0 <= r < MAP_SIZE ==> #[trigger] visited_updated@[r] == if r < row { step_row(v, occ, wv, wh, r) } else { v[r] | up_into(v, occ, wh, r) | down_into(v, occ, wh, r) | left_into(v, occ, wv, r) },
                forall|r: int| 0 <= r < MAP_SIZE ==> #[trigger] visited_updated@[r] & v[r] == v[r],
                (new_visited == 0) == (forall|r: int| 0 <= r < MAP_SIZE ==> #[trigger] visited_updated@[r] == v[r]),
            decreases MAP_SIZE - row,
        {
            let bit = ((visited[row] & !wall_bits_v[row]) << 1u32) & !occupied_bits[row];
            let t = row;
            let ghost old_vu = visited_updated@;
            let ghost old_nv = new_visited;
            new_visited = new_visited | (bit & !visited[t]);
            let nb = visited_updated[t] | bit;
            visited_updated.set(t, nb);
            proof {
                assert(bit == right_into(v, occ, wv, t as int));
                lemma_nv_step(old_vu, visited_updated@, v, t as int, bit, old_nv, new_visited);
            }
            row += 1;
        }
        proof {
            assert forall|r: int| 0 <= r < MAP_SIZE implies #[trigger] visited_updated@[r] == step_row(v, occ, wv, wh, r) by {}
            assert forall|r: int| 0 <= r < MAP_SIZE implies #[trigger] visited_updated@[r] < 0x4000_0000 by {
                lemma_step_row(v, k, start, occ, wv, wh, r);
            }
            assert(matches_reach(visited_updated@, k + 1, start, occ, wv, wh)) by {
                assert forall|r: int, c: int| in_board(r, c) implies (has_bit(visited_updated@[r], c as u32) == reach(
                    k + 1, start, bits_free(occ), bits_open(wv), bits_open(wh), r, c)) by {
                    lemma_step_row(v, k, start, occ, wv, wh, r);
                }
            }
            assert forall|r: int, c: u32| 0 <= r < 30 && c < 30 && has_bit(v[r], c) implies has_bit(visited_updated@[r], c) by {
                lemma_bit_and(visited_updated@[r], v[r], c);
            }
            lemma_count_mono(v, visited_updated@);
            lemma_count_bound(visited_updated@);
        }
        let ghost vu = visited_updated@;
        visited = visited_updated;
        if new_visited == 0 {
            proof {
                assert forall|r: int, c: int| #![trigger reach(dist as nat, start, free, ov, oh, r, c)]
                    in_board(r, c) && reach(dist as nat, start, free, ov, oh, r, c) implies reach(k, start, free, ov, oh, r, c) by {
                    assert(vu[r] == v[r]);
                }
                assert(!grows(dist as nat, start, free, ov, oh));
                assert(stops(dist as nat, start, goal, free, ov, oh));
                lemma_first_stop_unique(dist as nat, start, goal, free, ov, oh);
            }
            return None;
        }
        proof {
            let r = choose|r: int| 0 <= r < MAP_SIZE && #[trigger] vu[r] != v[r];
            let c = lemma_changed_row(vu[r], v[r]);
            assert(reach(dist as nat, start, free, ov, oh, r, c as int) && !reach(k, start, free, ov, oh, r, c as int));
            assert(grows(dist as nat, start, free, ov, oh));
            lemma_mask_test(visited@[goal.row as int], goal.col as u32);
        }
        if visited[goal.row] & (1u32 << goal.col) != 0 {
            proof {
                assert(stops(dist as nat, start, goal, free, ov, oh));
                lemma_first_stop_unique(dist as nat, start, goal, free, ov, oh);
            }
            return Some(dist);
        }
        proof {
            assert(!stops(dist as nat, start, goal, free, ov, oh));
        }
        dist += 1;
    }
}


/// Cells that hold no robot are free.
pub open spec fn free_of(positions: Seq<Coord>) -> spec_fn(int, int) -> bool {
    |r: int, c: int| !occupied_by(positions, r, c)
}

/// Sides without a wall are open.
pub open spec fn open_of(walls: Map2d<bool>) -> spec_fn(int, int) -> bool {
    |r: int, c: int| !walls.at(r, c)
}

/// One greedy move of robot `i`: when it is away from its destination and the destination is
/// free, it is taken there if the search reaches the destination, and the search's step count
/// is added. The third component tells whether the robot moved.
pub open spec fn greedy_move(
    pos: Seq<Coord>,
    dest: Seq<Coord>,
    i: int,
    walls_v: Map2d<bool>,
    walls_h: Map2d<bool>,
) -> (Seq<Coord>, nat, bool) {
    if pos[i] == dest[i] || occupied_by(pos, dest[i].row as int, dest[i].col as int) {
        (pos, 0, false)
    } else {
        match search_outcome(pos[i], dest[i], free_of(pos), open_of(walls_v), open_of(walls_h)) {
            Some(d) => (pos.update(i, dest[i]), d, true),
            None => (pos, 0, false),
        }
    }
}

/// Greedy moves of the robots `order[0..n]`, one after another.
pub open spec fn greedy_round(
    pos: Seq<Coord>,
    dest: Seq<Coord>,
    order: Seq<usize>,
    n: nat,
    walls_v: Map2d<bool>,
    walls_h: Map2d<bool>,
) -> (Seq<Coord>, nat, bool)
    decreases n,
{
    if n == 0 {
        (pos, 0, false)
    } else {
        let (p, t, f) = greedy_round(pos, dest, order, (n - 1) as nat, walls_v, walls_h);
        let (p2, t2, f2) = greedy_move(p, dest, order[n - 1] as int, walls_v, walls_h);
        (p2, t + t2, f || f2)
    }
}

/// Every robot stands on its destination.
pub open spec fn all_arrived(pos: Seq<Coord>, dest: Seq<Coord>) -> bool {
    forall|i: int| 0 <= i < pos.len() ==> #[trigger] pos[i] == dest[i]
}

/// Rounds of greedy moves, repeated while some robot is away and the last round moved one,
/// at most `fuel` of them: the final positions and the sum of the step counts.
pub open spec fn greedy_rounds(
    pos: Seq<Coord>,
    dest: Seq<Coord>,
    order: Seq<usize>,
    fuel: nat,
    walls_v: Map2d<bool>,
    walls_h: Map2d<bool>,
) -> (Seq<Coord>, nat)
    decreases fuel,
{
    if fuel == 0 || all_arrived(pos, dest) {
        (pos, 0)
    } else {
        let (p, t, f) = greedy_round(pos, dest, order, order.len(), walls_v, walls_h);
        if !f {
            (p, 0)
        } else {
            let (p2, t2) = greedy_rounds(p, dest, order, (fuel - 1) as nat, walls_v, walls_h);
            (p2, t + t2)
        }
    }
}

/// Number of robots among the first `n` that are away from their destination.
pub open spec fn count_away(pos: Seq<Coord>, dest: Seq<Coord>, n: nat) -> nat
    decreases n,
{
    if n == 0 {
        0
    } else {
        count_away(pos, dest, (n - 1) as nat) + if pos[n - 1] != dest[n - 1] {
            1nat
        } else {
            0nat
        }
    }
}

/// Sum of the Manhattan distances of the first `n` robots to their destinations.
pub open spec fn total_manhattan(pos: Seq<Coord>, dest: Seq<Coord>, n: nat) -> nat
    decreases n,
{
    if n == 0 {
        0
    } else {
        total_manhattan(pos, dest, (n - 1) as nat) + manhattan(pos[n - 1], dest[n - 1])
    }
}

proof fn lemma_count_away_bound(pos: Seq<Coord>, dest: Seq<Coord>, n: nat)
    ensures
        count_away(pos, dest, n) <= n,
        (forall|i: int| 0 <= i < n ==> #[trigger] pos[i] == dest[i]) ==> count_away(pos, dest, n) == 0,
        (exists|i: int| 0 <= i < n && #[trigger] pos[i] != dest[i]) ==> count_away(pos, dest, n) > 0,
    decreases n,
{
    if n > 0 {
        lemma_count_away_bound(pos, dest, (n - 1) as nat);
        if exists|i: int| 0 <= i < n && #[trigger] pos[i] != dest[i] {
            let i = choose|i: int| 0 <= i < n && #[trigger] pos[i] != dest[i];
            if i < n - 1 {
                assert(exists|i: int| 0 <= i < n - 1 && #[trigger] pos[i] != dest[i]);
            }
        }
    }
}

/// Taking an away robot to its destination lowers the count by one.
proof fn lemma_count_away_arrive(pos: Seq<Coord>, dest: Seq<Coord>, i: int, n: nat)
    requires
        0 <= i < pos.len(),
        n <= pos.len(),
        pos[i] != dest[i],
    ensures
        count_away(pos.update(i, dest[i]), dest, n) == count_away(pos, dest, n) - if i < n {
            1int
        } else {
            0int
        },
    decreases n,
{
    if n > 0 {
        lemma_count_away_arrive(pos, dest, i, (n - 1) as nat);
    }
}

pub proof fn lemma_total_manhattan_bound(pos: Seq<Coord>, dest: Seq<Coord>, n: nat)
    requires
        n <= pos.len(),
        n <= dest.len(),
        all_valid(pos),
        all_valid(dest),
    ensures
        total_manhattan(pos, dest, n) <= 58 * n,
    decreases n,
{
    if n > 0 {
        lemma_total_manhattan_bound(pos, dest, (n - 1) as nat);
        assert(pos[n - 1].valid() && dest[n - 1].valid());
    }
}

/// The wall masks of a board: bit `c` of row `r` is set when `walls` has a wall at `(r, c)`.
fn wall_bits(walls: &Map2d<bool>) -> (bits: Vec<u32>)
    requires
        walls.wf(),
    ensures
        bits@.len() == MAP_SIZE,
        forall|r: int, c: int| in_board(r, c) ==> #[trigger] has_bit(bits@[r], c as u32) == walls.at(r, c),
{
    let mut bits: Vec<u32> = vec![0u32; MAP_SIZE];
    let mut row: usize = 0;
    while row < MAP_SIZE
        invariant
            row <= MAP_SIZE,
            walls.wf(),
            bits@.len() == MAP_SIZE,
            forall|r: int, c: int| 0 <= r < row && 0 <= c < MAP_SIZE ==> #[trigger] has_bit(bits@[r], c as u32) == walls.at(r, c),
            forall|r: int| row <= r < MAP_SIZE ==> #[trigger] bits@[r] == 0,
        decreases MAP_SIZE - row,
    {
        let mut col: usize = 0;
        proof {
            assert forall|c: int| 0 <= c < MAP_SIZE implies #[trigger] has_bit(bits@[row as int], c as u32) == (c < col && walls.at(row as int, c)) by {
                crate::bits::lemma_bit_zero(c as u32);
            }
        }
        while col < MAP_SIZE
            invariant
                row < MAP_SIZE,
                col <= MAP_SIZE,
                walls.wf(),
                bits@.len() == MAP_SIZE,
                forall|r: int, c: int| 0 <= r < row && 0 <= c < MAP_SIZE ==> #[trigger] has_bit(bits@[r], c as u32) == walls.at(r, c),
                forall|c: int| 0 <= c < MAP_SIZE ==> #[trigger] has_bit(bits@[row as int], c as u32) == (c < col && walls.at(row as int, c)),
                forall|r: int| row < r < MAP_SIZE ==> #[trigger] bits@[r] == 0,
            decreases MAP_SIZE - col,
        {
            let w = *walls.get(Coord::new(row, col));
            let old_row = bits[row];
            let b = (if w { 1u32 } else { 0u32 }) << col;
            bits.set(row, old_row | b);
            proof {
                assert forall|c: int| 0 <= c < MAP_SIZE implies #[trigger] has_bit(bits@[row as int], c as u32) == (c < col + 1 && walls.at(row as int, c)) by {
                    lemma_bit_or(old_row, b, c as u32);
                    crate::bits::lemma_bool_bit(w, col as u32, c as u32);
                }
            }
            col += 1;
        }
        proof {
            assert forall|r: int, c: int| 0 <= r < row + 1 && 0 <= c < MAP_SIZE implies #[trigger] has_bit(bits@[r], c as u32) == walls.at(r, c) by {
                if r < row {
                } else {
                    assert(has_bit(bits@[row as int], c as u32) == (c < MAP_SIZE && walls.at(row as int, c)));
                }
            }
        }
        row += 1;
    }
    bits
}

proof fn lemma_set_cell(x: u32, k: u32)
    requires
        k < 30,
        x & BORDER_BITS == BORDER_BITS,
    ensures
        (x | (1u32 << k)) & BORDER_BITS == BORDER_BITS,
        (x & !(1u32 << k)) & BORDER_BITS == BORDER_BITS,
        forall|c: u32| c < 32 ==> #[trigger] has_bit(x | (1u32 << k), c) == (has_bit(x, c) || c == k),
        forall|c: u32| c < 32 ==> #[trigger] has_bit(x & !(1u32 << k), c) == (has_bit(x, c) && c != k),
{
    assert(k < 30 && (x & 0xC000_0000u32) == 0xC000_0000u32 ==> ((x | (1u32 << k)) & 0xC000_0000u32) == 0xC000_0000u32) by (bit_vector);
    assert(k < 30 && (x & 0xC000_0000u32) == 0xC000_0000u32 ==> ((x & !(1u32 << k)) & 0xC000_0000u32) == 0xC000_0000u32) by (bit_vector);
    assert forall|c: u32| c < 32 implies #[trigger] has_bit(x | (1u32 << k), c) == (has_bit(x, c) || c == k) by {
        lemma_bit_or(x, 1u32 << k, c);
        crate::bits::lemma_bit_one_shl(k, c);
    }
    assert forall|c: u32| c < 32 implies #[trigger] has_bit(x & !(1u32 << k), c) == (has_bit(x, c) && c != k) by {
        lemma_bit_and(x, !(1u32 << k), c);
        lemma_bit_not(1u32 << k, c);
        crate::bits::lemma_bit_one_shl(k, c);
    }
}

/// The occupancy masks of robots standing at `positions`.
fn occupancy_bits(positions: &Vec<Coord>) -> (occ: Vec<u32>)
    requires
        all_valid(positions@),
    ensures
        occupancy_ok(occ@),
        forall|r: int, c: int| in_board(r, c) ==> #[trigger] has_bit(occ@[r], c as u32) == occupied_by(positions@, r, c),
{
    let mut occ: Vec<u32> = vec![BORDER_BITS; MAP_SIZE];
    let mut i: usize = 0;
    proof {
        assert forall|r: int, c: int| in_board(r, c) implies #[trigger] has_bit(occ@[r], c as u32) == occupied_by(positions@.subrange(0, 0), r, c) by {
            assert(has_bit(BORDER_BITS, c as u32) == false) by {
                let cu = c as u32;
                assert(cu < 30 ==> !((0xC000_0000u32 >> cu) & 1u32 == 1u32)) by (bit_vector);
            }
        }
        assert(occ@[0] & BORDER_BITS == BORDER_BITS) by {
            assert(0xC000_0000u32 & 0xC000_0000u32 == 0xC000_0000u32) by (bit_vector);
        }
    }
    while i < positions.len()
        invariant
            i <= positions@.len(),
            all_valid(positions@),
            occupancy_ok(occ@),
            forall|r: int, c: int| in_board(r, c) ==> #[trigger] has_bit(occ@[r], c as u32) == occupied_by(positions@.subrange(0, i as int), r, c),
        decreases positions@.len() - i,
    {
        let p = positions[i];
        assert(positions@[i as int].valid());
        let old = occ[p.row];
        proof {
            lemma_set_cell(old, p.col as u32);
        }
        occ.set(p.row, old | (1u32 << p.col));
        proof {
            let pre = positions@.subrange(0, i as int);
            let post = positions@.subrange(0, i + 1);
            assert forall|r: int, c: int| in_board(r, c) implies #[trigger] has_bit(occ@[r], c as u32) == occupied_by(post, r, c) by {
                if occupied_by(pre, r, c) {
                    let j = choose|j: int| 0 <= j < pre.len() && #[trigger] pre[j].row == r && pre[j].col == c;
                    assert(post[j] == pre[j]);
                }
                if occupied_by(post, r, c) {
                    let j = choose|j: int| 0 <= j < post.len() && #[trigger] post[j].row == r && post[j].col == c;
                    if j < i {
                        assert(pre[j] == post[j]);
                    }
                }
                assert(post[i as int] == p);
            }
            assert forall|r: int| 0 <= r < MAP_SIZE implies #[trigger] occ@[r] & BORDER_BITS == BORDER_BITS by {}
        }
        i += 1;
    }
    proof {
        assert(positions@.subrange(0, positions@.len() as int) =~= positions@);
    }
    occ
}


/// A round in which no robot moved leaves everything as it was.
proof fn lemma_round_still(
    pos: Seq<Coord>,
    dest: Seq<Coord>,
    order: Seq<usize>,
    n: nat,
    walls_v: Map2d<bool>,
    walls_h: Map2d<bool>,
)
    ensures
        !greedy_round(pos, dest, order, n, walls_v, walls_h).2 ==> greedy_round(pos, dest, order, n, walls_v, walls_h).0 == pos
            && greedy_round(pos, dest, order, n, walls_v, walls_h).1 == 0,
    decreases n,
{
    if n > 0 {
        lemma_round_still(pos, dest, order, (n - 1) as nat, walls_v, walls_h);
    }
}

/// No robot of `order` can make a greedy move from `pos`: each is on its destination, or its
/// destination holds a robot, or the search finds no way there.
pub open spec fn greedy_stuck(
    pos: Seq<Coord>,
    dest: Seq<Coord>,
    order: Seq<usize>,
    walls_v: Map2d<bool>,
    walls_h: Map2d<bool>,
) -> bool {
    forall|j: int|
        0 <= j < order.len() ==> {
            let i = #[trigger] order[j] as int;
            ||| pos[i] == dest[i]
            ||| occupied_by(pos, dest[i].row as int, dest[i].col as int)
            ||| search_outcome(pos[i], dest[i], free_of(pos), open_of(walls_v), open_of(walls_h)) is None
        }
}

/// A round in which no robot moved found every robot of the round unable to move.
proof fn lemma_still_round_stuck(
    pos: Seq<Coord>,
    dest: Seq<Coord>,
    order: Seq<usize>,
    n: nat,
    walls_v: Map2d<bool>,
    walls_h: Map2d<bool>,
)
    requires
        n <= order.len(),
        !greedy_round(pos, dest, order, n, walls_v, walls_h).2,
    ensures
        greedy_stuck(pos, dest, order.take(n as int), walls_v, walls_h),
    decreases n,
{
    if n > 0 {
        lemma_round_still(pos, dest, order, (n - 1) as nat, walls_v, walls_h);
        lemma_still_round_stuck(pos, dest, order, (n - 1) as nat, walls_v, walls_h);
        let o = order.take(n as int);
        let o1 = order.take(n - 1);
        assert forall|j: int| 0 <= j < o.len() implies {
            let i = #[trigger] o[j] as int;
            ||| pos[i] == dest[i]
            ||| occupied_by(pos, dest[i].row as int, dest[i].col as int)
            ||| search_outcome(pos[i], dest[i], free_of(pos), open_of(walls_v), open_of(walls_h)) is None
        } by {
            if j < n - 1 {
                assert(o[j] == o1[j]);
            } else {
                assert(o[j] == order[n - 1]);
            }
        }
    }
}

/// A round never takes a robot away from its destination, and one in which a robot moved
/// brought that robot to its destination.
proof fn lemma_round_progress(
    pos: Seq<Coord>,
    dest: Seq<Coord>,
    order: Seq<usize>,
    n: nat,
    walls_v: Map2d<bool>,
    walls_h: Map2d<bool>,
)
    requires
        n <= order.len(),
        dest.len() == pos.len(),
        forall|j: int| 0 <= j < order.len() ==> #[trigger] order[j] < pos.len(),
    ensures
        greedy_round(pos, dest, order, n, walls_v, walls_h).0.len() == pos.len(),
        count_away(greedy_round(pos, dest, order, n, walls_v, walls_h).0, dest, pos.len()) <= count_away(pos, dest, pos.len()),
        greedy_round(pos, dest, order, n, walls_v, walls_h).2 ==> count_away(
            greedy_round(pos, dest, order, n, walls_v, walls_h).0,
            dest,
            pos.len(),
        ) < count_away(pos, dest, pos.len()),
    decreases n,
{
    if n > 0 {
        lemma_round_progress(pos, dest, order, (n - 1) as nat, walls_v, walls_h);
        let p = greedy_round(pos, dest, order, (n - 1) as nat, walls_v, walls_h).0;
        let i = order[n - 1] as int;
        if greedy_move(p, dest, i, walls_v, walls_h).2 {
            lemma_count_away_arrive(p, dest, i, pos.len());
        }
    }
}

/// The greedy stops only where it has to: when its rounds end, every robot has arrived, or
/// no robot of the order can make a greedy move, so that another round would move none.
pub proof fn law_greedy_ends_stuck(
    pos: Seq<Coord>,
    dest: Seq<Coord>,
    order: Seq<usize>,
    fuel: nat,
    walls_v: Map2d<bool>,
    walls_h: Map2d<bool>,
)
    requires
        dest.len() == pos.len(),
        forall|j: int| 0 <= j < order.len() ==> #[trigger] order[j] < pos.len(),
        count_away(pos, dest, pos.len()) <= fuel,
    ensures
        all_arrived(greedy_rounds(pos, dest, order, fuel, walls_v, walls_h).0, dest) || greedy_stuck(
            greedy_rounds(pos, dest, order, fuel, walls_v, walls_h).0,
            dest,
            order,
            walls_v,
            walls_h,
        ),
    decreases fuel,
{
    if fuel == 0 {
        if !all_arrived(pos, dest) {
            let i = choose|i: int| 0 <= i < pos.len() && pos[i] != dest[i];
            lemma_count_away_bound(pos, dest, pos.len());
        }
    } else if !all_arrived(pos, dest) {
        let (p, t, f) = greedy_round(pos, dest, order, order.len(), walls_v, walls_h);
        lemma_round_progress(pos, dest, order, order.len(), walls_v, walls_h);
        if !f {
            lemma_round_still(pos, dest, order, order.len(), walls_v, walls_h);
            lemma_still_round_stuck(pos, dest, order, order.len(), walls_v, walls_h);
            assert(order.take(order.len() as int) =~= order);
        } else {
            law_greedy_ends_stuck(p, dest, order, (fuel - 1) as nat, walls_v, walls_h);
        }
    }
}

/// Whether some robot is away from its destination.
fn any_away(positions: &Vec<Coord>, destinations: &Vec<Coord>) -> (b: bool)
    requires
        positions@.len() == destinations@.len(),
    ensures
        b == !all_arrived(positions@, destinations@),
{
    let mut i: usize = 0;
    while i < positions.len()
        invariant
            i <= positions@.len(),
            positions@.len() == destinations@.len(),
            forall|j: int| 0 <= j < i ==> #[trigger] positions@[j] == destinations@[j],
        decreases positions@.len() - i,
    {
        if positions[i] != destinations[i] {
            return true;
        }
        i += 1;
    }
    false
}

/// The board seen through masks agrees with the board seen through positions and walls.
proof fn lemma_bits_board(
    occ: Seq<u32>,
    wv: Seq<u32>,
    wh: Seq<u32>,
    pos: Seq<Coord>,
    walls_v: Map2d<bool>,
    walls_h: Map2d<bool>,
)
    requires
        forall|r: int, c: int| in_board(r, c) ==> #[trigger] has_bit(occ[r], c as u32) == occupied_by(pos, r, c),
        forall|r: int, c: int| in_board(r, c) ==> #[trigger] has_bit(wv[r], c as u32) == walls_v.at(r, c),
        forall|r: int, c: int| in_board(r, c) ==> #[trigger] has_bit(wh[r], c as u32) == walls_h.at(r, c),
    ensures
        same_board(bits_free(occ), bits_open(wv), bits_open(wh), free_of(pos), open_of(walls_v), open_of(walls_h)),
{
    assert forall|r: int, c: int| in_board(r, c) implies #[trigger] bits_free(occ)(r, c) == free_of(pos)(r, c)
        && bits_open(wv)(r, c) == open_of(walls_v)(r, c) && bits_open(wh)(r, c) == open_of(walls_h)(r, c) by {
        assert(has_bit(occ[r], c as u32) == occupied_by(pos, r, c));
        assert(has_bit(wv[r], c as u32) == walls_v.at(r, c));
        assert(has_bit(wh[r], c as u32) == walls_h.at(r, c));
    }
}

/// Greedily takes robots, in the given order and round after round, straight to their
/// destinations along shortest ways around walls and the other robots. Returns the total
/// length of the ways taken and the sum of the Manhattan distances that remain when no robot
/// can move any more.
pub fn solve_greedy(input: &Input, robot_order: &[usize]) -> (res: (u32, u32))
    requires
        input.wf(),
        forall|j: int| 0 <= j < robot_order@.len() ==> #[trigger] robot_order@[j] < input.robot_count,
    ensures
        ({
            let (p, t) = greedy_rounds(
                input.init_robots@,
                input.destinations@,
                robot_order@,
                input.robot_count as nat,
                input.init_walls_v,
                input.init_walls_h,
            );
            &&& res.0 == t
            &&& res.1 == total_manhattan(p, input.destinations@, input.robot_count as nat)
            &&& all_arrived(p, input.destinations@) || greedy_stuck(
                p,
                input.destinations@,
                robot_order@,
                input.init_walls_v,
                input.init_walls_h,
            )
        }),
{
    let mut current_positions = input.init_robots.clone();
    assert(current_positions@ =~= input.init_robots@);
    let mut occupied_bits = occupancy_bits(&current_positions);
    let wall_bits_v = wall_bits(&input.init_walls_v);
    let wall_bits_h = wall_bits(&input.init_walls_h);
    let mut total_dist: u32 = 0;
    let ghost init = input.init_robots@;
    let ghost dest = input.destinations@;
    let ghost order = robot_order@;
    let ghost walls_v = input.init_walls_v;
    let ghost walls_h = input.init_walls_h;
    let ghost n = input.robot_count as nat;
    let ghost mut fuel: nat = n;
    proof {
        lemma_count_away_bound(init, dest, n);
    }
    loop
        invariant_except_break
            greedy_rounds(init, dest, order, n, walls_v, walls_h) == (
                greedy_rounds(current_positions@, dest, order, fuel, walls_v, walls_h).0,
                (total_dist + greedy_rounds(current_positions@, dest, order, fuel, walls_v, walls_h).1) as nat,
            ),
            count_away(current_positions@, dest, n) <= fuel,
        invariant
            input.wf(),
            init == input.init_robots@,
            dest == input.destinations@,
            order == robot_order@,
            walls_v == input.init_walls_v,
            walls_h == input.init_walls_h,
            n == input.robot_count,
            forall|j: int| 0 <= j < order.len() ==> #[trigger] order[j] < n,
            current_positions@.len() == n,
            all_valid(current_positions@),
            distinct_cells(current_positions@),
            occupancy_ok(occupied_bits@),
            forall|r: int, c: int| in_board(r, c) ==> #[trigger] has_bit(occupied_bits@[r], c as u32) == occupied_by(current_positions@, r, c),
            wall_bits_v@.len() == MAP_SIZE,
            wall_bits_h@.len() == MAP_SIZE,
            forall|r: int, c: int| in_board(r, c) ==> #[trigger] has_bit(wall_bits_v@[r], c as u32) == walls_v.at(r, c),
            forall|r: int, c: int| in_board(r, c) ==> #[trigger] has_bit(wall_bits_h@[r], c as u32) == walls_h.at(r, c),
            total_dist <= 900 * (n - count_away(current_positions@, dest, n)),
        ensures
            greedy_rounds(init, dest, order, n, walls_v, walls_h) == (current_positions@, total_dist as nat),
        decreases count_away(current_positions@, dest, n),
    {
        if !any_away(&current_positions, &input.destinations) {
            break;
        }
        proof {
            lemma_count_away_bound(current_positions@, dest, n);
        }
        let ghost cur0 = current_positions@;
        let ghost total0 = total_dist;
        let mut found = false;
        let mut j: usize = 0;
        while j < robot_order.len()
            invariant
                j <= order.len(),
                input.wf(),
                dest == input.destinations@,
                order == robot_order@,
                walls_v == input.init_walls_v,
                walls_h == input.init_walls_h,
                n == input.robot_count,
                forall|j: int| 0 <= j < order.len() ==> #[trigger] order[j] < n,
                greedy_round(cur0, dest, order, j as nat, walls_v, walls_h) == (
                    current_positions@,
                    (total_dist - total0) as nat,
                    found,
                ),
                total0 <= total_dist,
                current_positions@.len() == n,
                all_valid(current_positions@),
                distinct_cells(current_positions@),
                occupancy_ok(occupied_bits@),
                forall|r: int, c: int| in_board(r, c) ==> #[trigger] has_bit(occupied_bits@[r], c as u32) == occupied_by(current_positions@, r, c),
                wall_bits_v@.len() == MAP_SIZE,
                wall_bits_h@.len() == MAP_SIZE,
                forall|r: int, c: int| in_board(r, c) ==> #[trigger] has_bit(wall_bits_v@[r], c as u32) == walls_v.at(r, c),
                forall|r: int, c: int| in_board(r, c) ==> #[trigger] has_bit(wall_bits_h@[r], c as u32) == walls_h.at(r, c),
                count_away(current_positions@, dest, n) <= count_away(cur0, dest, n),
                found ==> count_away(current_positions@, dest, n) < count_away(cur0, dest, n),
                total_dist <= 900 * (n - count_away(current_positions@, dest, n)),
            decreases order.len() - j,
        {
            let robot_id = robot_order[j];
            let ghost pos = current_positions@;
            let ghost i = robot_id as int;
            assert(pos[i].valid() && dest[i].valid());
            if current_positions[robot_id] != input.destinations[robot_id] {
                let goal = input.destinations[robot_id];
                let res = find_dist(
                    current_positions[robot_id],
                    goal,
                    &occupied_bits,
                    &wall_bits_v,
                    &wall_bits_h,
                );
                proof {
                    lemma_bits_board(occupied_bits@, wall_bits_v@, wall_bits_h@, pos, walls_v, walls_h);
                    lemma_outcome_congruent(
                        pos[i],
                        dest[i],
                        bits_free(occupied_bits@),
                        bits_open(wall_bits_v@),
                        bits_open(wall_bits_h@),
                        free_of(pos),
                        open_of(walls_v),
                        open_of(walls_h),
                    );
                    assert(has_bit(occupied_bits@[goal.row as int], goal.col as u32) == occupied_by(pos, goal.row as int, goal.col as int));
                }
                match res {
                    Some(dist) => {
                        let old = current_positions[robot_id];
                        let x = occupied_bits[old.row] & !(1u32 << old.col);
                        proof {
                            lemma_set_cell(occupied_bits@[old.row as int], old.col as u32);
                        }
                        occupied_bits.set(old.row, x);
                        let ghost occ1 = occupied_bits@;
                        let y = occupied_bits[goal.row] | (1u32 << goal.col);
                        proof {
                            lemma_set_cell(occupied_bits@[goal.row as int], goal.col as u32);
                        }
                        occupied_bits.set(goal.row, y);
                        current_positions.set(robot_id, goal);
                        proof {
                            lemma_count_away_arrive(pos, dest, i, n);
                            let post = current_positions@;
                            assert(post == pos.update(i, dest[i]));
                            assert forall|r: int| 0 <= r < MAP_SIZE implies #[trigger] occupied_bits@[r] & BORDER_BITS == BORDER_BITS by {
                                if r != goal.row {
                                    assert(occupied_bits@[r] == occ1[r]);
                                }
                            }
                            assert forall|r: int, c: int| in_board(r, c) implies #[trigger] has_bit(occupied_bits@[r], c as u32) == occupied_by(post, r, c) by {
                                if occupied_by(post, r, c) {
                                    let k = choose|k: int| 0 <= k < post.len() && #[trigger] post[k].row == r && post[k].col == c;
                                    if k != i {
                                        assert(pos[k] == post[k]);
                                        assert(occupied_by(pos, r, c));
                                        assert(pos[k] != pos[i]);
                                    }
                                }
                                if occupied_by(pos, r, c) && !(r == old.row && c == old.col) {
                                    let k = choose|k: int| 0 <= k < pos.len() && #[trigger] pos[k].row == r && pos[k].col == c;
                                    assert(k != i);
                                    assert(post[k] == pos[k]);
                                }
                                if r == goal.row && c == goal.col {
                                    assert(post[i].row == r && post[i].col == c);
                                }
                            }
                            assert forall|a: int, b: int| 0 <= a < post.len() && 0 <= b < post.len() && a != b implies #[trigger] post[a] != #[trigger] post[b] by {
                                if a == i {
                                    assert(!occupied_by(pos, goal.row as int, goal.col as int));
                                    assert(pos[b].row == post[b].row && pos[b].col == post[b].col);
                                } else if b == i {
                                    assert(!occupied_by(pos, goal.row as int, goal.col as int));
                                    assert(pos[a].row == post[a].row && pos[a].col == post[a].col);
                                }
                            }
                            assert(all_valid(post)) by {
                                assert forall|k: int| 0 <= k < post.len() implies #[trigger] post[k].valid() by {
                                    if k != i { assert(post[k] == pos[k]); }
                                }
                            }
                        }
                        total_dist = total_dist + dist;
                        found = true;
                    },
                    None => {},
                }
            }
            j += 1;
        }
        if !found {
            proof {
                lemma_round_still(cur0, dest, order, order.len(), walls_v, walls_h);
                assert(fuel > 0);
            }
            break;
        }
        proof {
            fuel = (fuel - 1) as nat;
        }
    }
    let mut remaining_dist: u32 = 0;
    let mut i: usize = 0;
    proof {
        lemma_total_manhattan_bound(current_positions@, dest, n);
        lemma_count_away_bound(init, dest, n);
        law_greedy_ends_stuck(init, dest, order, n, walls_v, walls_h);
    }
    while i < input.robot_count
        invariant
            i <= n,
            n == input.robot_count,
            input.wf(),
            dest == input.destinations@,
            current_positions@.len() == n,
            all_valid(current_positions@),
            total_manhattan(current_positions@, dest, n) <= 58 * n,
            remaining_dist == total_manhattan(current_positions@, dest, i as nat),
        decreases n - i,
    {
        proof {
            lemma_total_manhattan_bound(current_positions@, dest, (i + 1) as nat);
            assert(current_positions@[i as int].valid() && dest[i as int].valid());
        }
        remaining_dist = remaining_dist + current_positions[i].dist(&input.destinations[i]) as u32;
        i += 1;
    }
    (total_dist, remaining_dist)
}

} // verus!
