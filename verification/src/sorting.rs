use vstd::prelude::*;

verus! {

/// `sorted` with `x` put after every entry whose key is not larger than its own, assuming
/// `sorted` is ordered by key.
pub open spec fn insert_by(sorted: Seq<usize>, x: usize, key: spec_fn(usize) -> int) -> Seq<usize>
    decreases sorted.len(),
{
    if sorted.len() == 0 {
        seq![x]
    } else if key(sorted.last()) <= key(x) {
        sorted.push(x)
    } else {
        insert_by(sorted.drop_last(), x, key).push(sorted.last())
    }
}

/// `rs` in increasing order of key; entries with equal keys keep their order.
pub open spec fn sort_by(rs: Seq<usize>, key: spec_fn(usize) -> int) -> Seq<usize>
    decreases rs.len(),
{
    if rs.len() == 0 {
        rs
    } else {
        insert_by(sort_by(rs.drop_last(), key), rs.last(), key)
    }
}

/// Keys given as a list: entry `i` is the key of `i`.
pub open spec fn key_of(keys: Seq<i64>) -> spec_fn(usize) -> int {
    |i: usize| keys[i as int] as int
}

/// Entries of `insert_by` stay below a bound that `sorted` and `x` stay below.
pub proof fn lemma_insert_by_bound(sorted: Seq<usize>, x: usize, key: spec_fn(usize) -> int, n: nat)
    requires
        x < n,
        forall|i: int| 0 <= i < sorted.len() ==> (#[trigger] sorted[i]) < n,
    ensures
        forall|i: int| 0 <= i < insert_by(sorted, x, key).len() ==> (#[trigger] insert_by(sorted, x, key)[i]) < n,
    decreases sorted.len(),
{
    let r = insert_by(sorted, x, key);
    if sorted.len() > 0 && key(sorted.last()) > key(x) {
        lemma_insert_by_bound(sorted.drop_last(), x, key, n);
        let q = insert_by(sorted.drop_last(), x, key);
        assert(r == q.push(sorted.last()));
        assert(sorted.last() == sorted[sorted.len() - 1]);
        assert forall|i: int| 0 <= i < r.len() implies (#[trigger] r[i]) < n by {
            if i < q.len() {
                assert(r[i] == q[i]);
            }
        }
    } else if sorted.len() > 0 {
        assert forall|i: int| 0 <= i < r.len() implies (#[trigger] r[i]) < n by {
            if i < sorted.len() {
                assert(r[i] == sorted[i]);
            }
        }
    }
}

/// `insert_by` depends on the keys below a bound only.
pub proof fn lemma_insert_by_congruent(sorted: Seq<usize>, x: usize, k1: spec_fn(usize) -> int, k2: spec_fn(usize) -> int, n: nat)
    requires
        x < n,
        forall|i: int| 0 <= i < sorted.len() ==> (#[trigger] sorted[i]) < n,
        forall|i: usize| i < n ==> #[trigger] k1(i) == k2(i),
    ensures
        insert_by(sorted, x, k1) == insert_by(sorted, x, k2),
    decreases sorted.len(),
{
    if sorted.len() > 0 {
        assert(k1(sorted.last()) == k2(sorted.last()));
        assert(k1(x) == k2(x));
        lemma_insert_by_congruent(sorted.drop_last(), x, k1, k2, n);
    }
}

/// `sort_by` depends on the keys below a bound only, and keeps entries below it.
pub proof fn lemma_sort_by_congruent(rs: Seq<usize>, k1: spec_fn(usize) -> int, k2: spec_fn(usize) -> int, n: nat)
    requires
        forall|i: int| 0 <= i < rs.len() ==> (#[trigger] rs[i]) < n,
        forall|i: usize| i < n ==> #[trigger] k1(i) == k2(i),
    ensures
        sort_by(rs, k1) == sort_by(rs, k2),
        forall|i: int| 0 <= i < sort_by(rs, k1).len() ==> (#[trigger] sort_by(rs, k1)[i]) < n,
    decreases rs.len(),
{
    if rs.len() > 0 {
        lemma_sort_by_congruent(rs.drop_last(), k1, k2, n);
        lemma_insert_by_congruent(sort_by(rs.drop_last(), k1), rs.last(), k1, k2, n);
        lemma_insert_by_bound(sort_by(rs.drop_last(), k1), rs.last(), k1, n);
    }
}

fn insert_keyed(sorted: Vec<usize>, x: usize, keys: &Vec<i64>) -> (r: Vec<usize>)
    requires
        x < keys@.len(),
        forall|i: int| 0 <= i < sorted@.len() ==> (#[trigger] sorted@[i]) < keys@.len(),
    ensures
        r@ == insert_by(sorted@, x, key_of(keys@)),
        forall|i: int| 0 <= i < r@.len() ==> (#[trigger] r@[i]) < keys@.len(),
    decreases sorted@.len(),
{
    let mut sorted = sorted;
    if sorted.len() == 0 {
        let mut r: Vec<usize> = Vec::new();
        r.push(x);
        assert(r@ =~= seq![x]);
        return r;
    }
    let last = sorted[sorted.len() - 1];
    if keys[last] <= keys[x] {
        sorted.push(x);
        sorted
    } else {
        let ghost s0 = sorted@;
        sorted.pop();
        assert(sorted@ == s0.drop_last());
        let mut r = insert_keyed(sorted, x, keys);
        r.push(last);
        r
    }
}

/// Sorts `rs` by `keys`, keeping the order of entries with equal keys.
pub fn sort_by_keys(rs: &Vec<usize>, keys: &Vec<i64>) -> (r: Vec<usize>)
    requires
        forall|i: int| 0 <= i < rs@.len() ==> (#[trigger] rs@[i]) < keys@.len(),
    ensures
        r@ == sort_by(rs@, key_of(keys@)),
        forall|i: int| 0 <= i < r@.len() ==> (#[trigger] r@[i]) < keys@.len(),
{
    let mut sorted: Vec<usize> = Vec::new();
    let mut i: usize = 0;
    while i < rs.len()
        invariant
            i <= rs@.len(),
            forall|j: int| 0 <= j < rs@.len() ==> (#[trigger] rs@[j]) < keys@.len(),
            forall|j: int| 0 <= j < sorted@.len() ==> (#[trigger] sorted@[j]) < keys@.len(),
            sorted@ == sort_by(rs@.subrange(0, i as int), key_of(keys@)),
        decreases rs@.len() - i,
    {
        sorted = insert_keyed(sorted, rs[i], keys);
        proof {
            assert(rs@.subrange(0, i + 1).drop_last() =~= rs@.subrange(0, i as int));
        }
        i += 1;
    }
    assert(rs@.subrange(0, rs@.len() as int) =~= rs@);
    sorted
}

} // verus!
