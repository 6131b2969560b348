use vstd::prelude::*;

use crate::data_structures::IndexSet;
use crate::problem::Input;
use crate::rng::gen_index;
use rand_pcg::Mcg128Xsl64;

verus! {

/// What the clustering does not change: the instance and the number of clusters.
pub struct Env {
    pub input: Input,
    pub cluster_cnt: usize,
}

impl Env {
    /// The environment of the clustering.
    pub fn new(input: Input, cluster_cnt: usize) -> (env: Env)
        ensures
            env.input == input,
            env.cluster_cnt == cluster_cnt,
    {
        Env { input, cluster_cnt }
    }

    /// The environment is usable: a well-formed instance and at least one cluster.
    pub open spec fn wf(&self) -> bool {
        &&& self.input.wf()
        &&& self.cluster_cnt >= 1
    }
}

/// A split of the robots into clusters: the members of each cluster, and the cluster of
/// each robot.
pub struct State {
    pub clusters: Vec<IndexSet>,
    pub cluster_ids: Vec<usize>,
}

/// What a split is: the set of members of each cluster, and the cluster of each robot.
pub type StateView = (Seq<Set<usize>>, Seq<usize>);

impl View for State {
    type V = StateView;

    open spec fn view(&self) -> StateView {
        (self.clusters@.map_values(|c: IndexSet| c@), self.cluster_ids@)
    }
}

impl State {
    /// Every robot of `env` is in exactly the cluster that `cluster_ids` names.
    pub open spec fn wf(&self, env: &Env) -> bool {
        &&& self.clusters@.len() == env.cluster_cnt
        &&& self.cluster_ids@.len() == env.input.robot_count
        &&& forall|c: int| 0 <= c < self.clusters@.len() ==> (#[trigger] self.clusters@[c]).wf()
            && self.clusters@[c].capacity() == env.input.robot_count
        &&& forall|r: int| 0 <= r < self.cluster_ids@.len() ==> #[trigger] self.cluster_ids@[r] < env.cluster_cnt
        &&& forall|c: int, r: usize| 0 <= c < self.clusters@.len() ==> (#[trigger] self.clusters@[c]@.contains(r)
            <==> (r < env.input.robot_count && self.cluster_ids@[r as int] == c))
    }

    /// All robots in the first cluster, the other clusters empty.
    pub fn new(env: &Env) -> (state: State)
        requires
            env.wf(),
        ensures
            state.wf(env),
            forall|r: int| 0 <= r < env.input.robot_count ==> #[trigger] state.cluster_ids@[r] == 0,
    {
        let n = env.input.robot_count;
        let mut clusters: Vec<IndexSet> = Vec::new();
        let mut k: usize = 0;
        while k < env.cluster_cnt
            invariant
                k <= env.cluster_cnt,
                clusters@.len() == k,
                forall|c: int| 0 <= c < k ==> (#[trigger] clusters@[c]).wf() && clusters@[c].capacity() == n
                    && clusters@[c]@ == Set::<usize>::empty(),
            decreases env.cluster_cnt - k,
        {
            clusters.push(IndexSet::new(n));
            k += 1;
        }
        let mut first = clusters.remove(0);
        let mut cluster_ids: Vec<usize> = Vec::new();
        let mut i: usize = 0;
        while i < n
            invariant
                i <= n,
                first.wf(),
                first.capacity() == n,
                forall|r: usize| #[trigger] first@.contains(r) <==> r < i,
                cluster_ids@.len() == i,
                forall|r: int| 0 <= r < i ==> #[trigger] cluster_ids@[r] == 0,
            decreases n - i,
        {
            first.add(i);
            cluster_ids.push(0);
            i += 1;
        }
        clusters.insert(0, first);
        let state = State { clusters, cluster_ids };
        proof {
            assert forall|c: int, r: usize| 0 <= c < state.clusters@.len() implies (#[trigger] state.clusters@[c]@.contains(r)
                <==> (r < n && state.cluster_ids@[r as int] == c)) by {
                if c > 0 {
                    assert(state.clusters@[c]@ == Set::<usize>::empty());
                }
            }
        }
        state
    }

    /// Whether some cluster has no robot.
    pub fn has_empty_cluster(&self, env: &Env) -> (b: bool)
        requires
            self.wf(env),
        ensures
            b == exists|c: int| 0 <= c < self.clusters@.len() && (#[trigger] self.clusters@[c])@.len() == 0,
    {
        let mut c: usize = 0;
        while c < self.clusters.len()
            invariant
                c <= self.clusters@.len(),
                forall|k: int| 0 <= k < self.clusters@.len() ==> (#[trigger] self.clusters@[k]).wf(),
                forall|k: int| 0 <= k < c ==> (#[trigger] self.clusters@[k])@.len() != 0,
            decreases self.clusters@.len() - c,
        {
            if self.clusters[c].len() == 0 {
                return true;
            }
            c += 1;
        }
        false
    }

    /// The members of each cluster, each robot once.
    pub fn cluster_lists(&self, env: &Env) -> (lists: Vec<Vec<usize>>)
        requires
            self.wf(env),
        ensures
            lists@.len() == self.clusters@.len(),
            forall|c: int| 0 <= c < lists@.len() ==> (#[trigger] lists@[c])@.no_duplicates()
                && lists@[c]@.to_set() == self.clusters@[c]@,
    {
        let mut lists: Vec<Vec<usize>> = Vec::new();
        let mut c: usize = 0;
        while c < self.clusters.len()
            invariant
                c <= self.clusters@.len(),
                forall|k: int| 0 <= k < self.clusters@.len() ==> (#[trigger] self.clusters@[k]).wf(),
                lists@.len() == c,
                forall|k: int| 0 <= k < c ==> (#[trigger] lists@[k])@.no_duplicates()
                    && lists@[k]@.to_set() == self.clusters@[k]@,
            decreases self.clusters@.len() - c,
        {
            lists.push(self.clusters[c].to_vec());
            c += 1;
        }
        lists
    }
}

/// Moves robot `robot` from cluster `from` to cluster `to`.
#[derive(Clone, Copy, Debug)]
pub struct MoveCluster {
    pub robot: usize,
    pub from: usize,
    pub to: usize,
}

impl MoveCluster {
    /// The state after the change.
    pub open spec fn applied(&self, v: StateView) -> StateView {
        let (sets, ids) = v;
        let f = self.from as int;
        let t = self.to as int;
        (sets.update(f, sets[f].remove(self.robot)).update(t, sets[t].insert(self.robot)), ids.update(
            self.robot as int,
            self.to,
        ))
    }

    /// The state after the change is taken back.
    pub open spec fn undone(&self, v: StateView) -> StateView {
        let (sets, ids) = v;
        let f = self.from as int;
        let t = self.to as int;
        (sets.update(t, sets[t].remove(self.robot)).update(f, sets[f].insert(self.robot)), ids.update(
            self.robot as int,
            self.from,
        ))
    }

    /// The move can be made to a split `v`: the robot is in `from` and not in `to`.
    pub open spec fn fits(&self, v: StateView) -> bool {
        &&& self.from != self.to
        &&& self.from < v.0.len()
        &&& self.to < v.0.len()
        &&& self.robot < v.1.len()
        &&& v.1[self.robot as int] == self.from
        &&& v.0[self.from as int].contains(self.robot)
        &&& !v.0[self.to as int].contains(self.robot)
    }

    /// A robot drawn from `rng`, and another cluster for it drawn evenly among the others.
    pub fn generate(env: &Env, state: &State, rng: &mut Mcg128Xsl64) -> (m: Option<MoveCluster>)
        requires
            env.wf(),
            state.wf(env),
            env.input.robot_count >= 1,
            env.cluster_cnt >= 2,
        ensures
            m matches Some(x) && x.robot < env.input.robot_count && x.from == state.cluster_ids@[x.robot as int]
                && x.to < env.cluster_cnt && x.to != x.from,
    {
        let robot = gen_index(rng, 0, env.input.robot_count);
        let from = state.cluster_ids[robot];
        let k = gen_index(rng, 0, env.cluster_cnt - 1);
        let to = if k >= from { k + 1 } else { k };
        Some(MoveCluster { robot, from, to })
    }

    fn shift(&self, env: &Env, state: &mut State, from: usize, to: usize)
        requires
            old(state).wf(env),
            self.robot < env.input.robot_count,
            from < env.cluster_cnt,
            to < env.cluster_cnt,
            from != to,
            old(state).cluster_ids@[self.robot as int] == from,
        ensures
            final(state).wf(env),
            final(state)@ == (MoveCluster { robot: self.robot, from, to }).applied(old(state)@),
    {
        let ghost v0 = state@;
        let ghost n = env.input.robot_count;
        assert(state.clusters@[from as int]@.contains(self.robot));
        assert(!state.clusters@[to as int]@.contains(self.robot));
        let mut a = state.clusters.remove(from);
        a.remove(self.robot);
        state.clusters.insert(from, a);
        let mut b = state.clusters.remove(to);
        b.add(self.robot);
        state.clusters.insert(to, b);
        state.cluster_ids.set(self.robot, to);
        proof {
            let sets = state.clusters@;
            let c0 = old(state).clusters@;
            assert forall|c: int| 0 <= c < sets.len() implies #[trigger] sets[c] == if c == to {
                b
            } else if c == from {
                a
            } else {
                c0[c]
            } by {}
            assert(state@.0 =~= (MoveCluster { robot: self.robot, from, to }).applied(v0).0);
            assert(state@.1 =~= (MoveCluster { robot: self.robot, from, to }).applied(v0).1);
            assert forall|c: int, r: usize| 0 <= c < sets.len() implies (#[trigger] sets[c]@.contains(r) <==> (r < n
                && state.cluster_ids@[r as int] == c)) by {
                if r != self.robot {
                    assert(c0[c]@.contains(r) <==> (r < n && old(state).cluster_ids@[r as int] == c));
                }
            }
        }
    }

    /// Makes the change.
    pub fn preprocess(&mut self, env: &Env, state: &mut State)
        requires
            old(state).wf(env),
            old(self).robot < env.input.robot_count,
            old(self).to < env.cluster_cnt,
            old(self).from != old(self).to,
            old(state).cluster_ids@[old(self).robot as int] == old(self).from,
        ensures
            final(state).wf(env),
            final(state)@ == old(self).applied(old(state)@),
            *final(self) == *old(self),
    {
        self.shift(env, state, self.from, self.to);
    }

    /// Keeps the change: nothing is left to do.
    pub fn postprocess(self, env: &Env, state: &mut State)
        ensures
            *final(state) == *old(state),
    {
    }

    /// Takes the change back.
    pub fn rollback(self, env: &Env, state: &mut State)
        requires
            old(state).wf(env),
            self.robot < env.input.robot_count,
            self.from < env.cluster_cnt,
            self.from != self.to,
            old(state).cluster_ids@[self.robot as int] == self.to,
        ensures
            final(state).wf(env),
            final(state)@ == self.undone(old(state)@),
    {
        self.shift(env, state, self.to, self.from);
    }
}

/// Moving a robot back right after moving it gives back the split it was moved in.
pub proof fn law_move_cluster_undone(v: StateView, m: MoveCluster)
    requires
        m.fits(v),
    ensures
        m.undone(m.applied(v)) == v,
{
    let w = m.undone(m.applied(v));
    let f = m.from as int;
    let t = m.to as int;
    assert(w.0[f] =~= v.0[f]);
    assert(w.0[t] =~= v.0[t]);
    assert(w.0 =~= v.0);
    assert(w.1 =~= v.1);
}

} // verus!
