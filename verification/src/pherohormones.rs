//! The pheromone trail: a directed weighted graph over task ids, independent
//! of the precedence graph's edges. An edge weight is the learned desirability
//! of starting task B right after completing task A, as a fixed-point number.
//!
//! Invariant: a weight of zero is never stored — an edge that evaporates to
//! zero is removed outright.

use vstd::prelude::*;

verus! {

/// One outgoing pheromone edge, as handed to callers of
/// [`Pherohormones::find_paths`].
pub struct Path {
    pub task: usize,
    pub weight: u64,
}

/// A directed weighted graph over the task ids `0..n_tasks`, stored as an
/// edge list with pairwise-distinct (source, target) keys and positive
/// weights.
pub struct Pherohormones {
    edges: Vec<(usize, usize, u64)>,
    /// Cached sum of all edge weights. It is recomputed by
    /// [`Self::update_pherohormones_sum`] (evaporation does so), not kept
    /// fresh by deposits.
    pheromones_sum: u64,
    n_tasks: usize,
}

/// `x + y`, stopped at the top of `u64`.
pub open spec fn sat_add64(x: u64, y: u64) -> u64 {
    if x + y <= u64::MAX {
        (x + y) as u64
    } else {
        u64::MAX
    }
}

/// The sum of the weights of an edge list.
pub open spec fn sum_weights(s: Seq<(usize, usize, u64)>) -> int
    decreases s.len(),
{
    if s.len() == 0 {
        0
    } else {
        sum_weights(s.drop_last()) + s.last().2
    }
}

/// A sound edge list: keys pairwise distinct, weights positive, endpoints
/// within `0..n_tasks`.
pub open spec fn edges_wf(s: Seq<(usize, usize, u64)>, n_tasks: int) -> bool {
    &&& forall|i: int, j: int|
        0 <= i < s.len() && 0 <= j < s.len() && i != j
            ==> Pherohormones::key(#[trigger] s[i]) != Pherohormones::key(#[trigger] s[j])
    &&& forall|i: int| 0 <= i < s.len() ==> (#[trigger] s[i]).2 >= 1
    &&& forall|i: int| 0 <= i < s.len() ==> (#[trigger] s[i]).0 < n_tasks && s[i].1 < n_tasks
}

/// The map after one deposit of `rate` on edge `(a, b)`: accumulate on an
/// existing edge (stopped at the top of `u64`), create an absent one.
pub open spec fn deposited(m: Map<(int, int), u64>, a: int, b: int, rate: u64) -> Map<
    (int, int),
    u64,
> {
    if m.contains_key((a, b)) {
        m.insert((a, b), sat_add64(m[(a, b)], rate))
    } else {
        m.insert((a, b), rate)
    }
}

/// The map after one evaporation step: every weight drops by `rate`, and any
/// edge that would reach zero (or below) disappears.
pub open spec fn evaporated(m: Map<(int, int), u64>, rate: u64) -> Map<(int, int), u64> {
    Map::new(
        |k: (int, int)| m.contains_key(k) && m[k] > rate,
        |k: (int, int)| (m[k] - rate) as u64,
    )
}

impl Pherohormones {
    /// The abstract trail: a finite-support map from a directed task pair to
    /// its pheromone weight.
    pub closed spec fn view(&self) -> Map<(int, int), u64> {
        Map::new(
            |k: (int, int)| exists|i: int| 0 <= i < self.edges@.len() && Self::key(self.edges@[i]) == k,
            |k: (int, int)| self.edges@[Self::index_of(self.edges@, k)].2,
        )
    }

    pub open spec fn key(e: (usize, usize, u64)) -> (int, int) {
        (e.0 as int, e.1 as int)
    }

    pub closed spec fn index_of(s: Seq<(usize, usize, u64)>, k: (int, int)) -> int {
        choose|i: int| 0 <= i < s.len() && Self::key(s[i]) == k
    }

    /// The stored edge list is sound: keys pairwise distinct,
    /// weights positive, endpoints within `0..n_tasks`.
    pub closed spec fn wf(&self) -> bool {
        edges_wf(self.edges@, self.n_tasks as int)
    }

    /// The (not necessarily fresh) sum of all stored edge weights.
    pub closed spec fn weights_sum(&self) -> int {
        sum_weights(self.edges@)
    }

    pub closed spec fn spec_n_tasks(&self) -> int {
        self.n_tasks as int
    }

    pub closed spec fn spec_pheromones_sum(&self) -> u64 {
        self.pheromones_sum
    }

    /// The number of task ids the trail ranges over.
    pub fn n_tasks(&self) -> (r: usize)
        ensures
            r == self.spec_n_tasks(),
    {
        self.n_tasks
    }

    /// The cached sum of all edge weights, as last recomputed.
    pub fn pheromones_sum(&self) -> (r: u64)
        ensures
            r == self.spec_pheromones_sum(),
    {
        self.pheromones_sum
    }

    proof fn lemma_view_entries(&self)
        requires
            self.wf(),
        ensures
            forall|i: int|
                0 <= i < self.edges@.len() ==> #[trigger] self@.contains_key(
                    Self::key(self.edges@[i]),
                ) && self@[Self::key(self.edges@[i])] == self.edges@[i].2,
            forall|k: (int, int)| #[trigger]
                self@.contains_key(k) ==> exists|i: int|
                    0 <= i < self.edges@.len() && Self::key(#[trigger] self.edges@[i]) == k,
    {
        assert forall|i: int| 0 <= i < self.edges@.len() implies #[trigger] self@.contains_key(
            Self::key(self.edges@[i]),
        ) && self@[Self::key(self.edges@[i])] == self.edges@[i].2 by {
            let k = Self::key(self.edges@[i]);
            assert(self@.contains_key(k));
            let j = Self::index_of(self.edges@, k);
            assert(0 <= j < self.edges@.len() && Self::key(self.edges@[j]) == k);
            assert(j == i);
        }
    }

    /// An empty trail over `n_tasks` task ids.
    pub fn new(n_tasks: usize) -> (r: Pherohormones)
        ensures
            r@ =~= Map::<(int, int), u64>::empty(),
            r.spec_n_tasks() == n_tasks,
            r.spec_pheromones_sum() == 0,
            r.wf(),
    {
        Pherohormones { edges: Vec::new(), pheromones_sum: 0, n_tasks }
    }

    /// Resets the trail to its starting state: no edges, zero cached sum.
    pub fn initialize(&mut self)
        ensures
            final(self)@ =~= Map::<(int, int), u64>::empty(),
            final(self).spec_n_tasks() == old(self).spec_n_tasks(),
            final(self).spec_pheromones_sum() == 0,
            final(self).wf(),
    {
        self.edges = Vec::new();
        self.pheromones_sum = 0;
    }

    /// An exact copy of the trail.
    #[verifier::loop_isolation(false)]
    pub fn duplicate(&self) -> (r: Pherohormones)
        ensures
            r@ == self@,
            r.spec_n_tasks() == self.spec_n_tasks(),
            r.spec_pheromones_sum() == self.spec_pheromones_sum(),
            r.wf() <==> self.wf(),
            r.weights_sum() == self.weights_sum(),
    {
        let mut edges: Vec<(usize, usize, u64)> = Vec::new();
        let n = self.edges.len();
        for i in 0..n
            invariant
                n == self.edges@.len(),
                edges@ =~= self.edges@.take(i as int),
        {
            edges.push(self.edges[i]);
        }
        proof {
            assert(edges@ =~= self.edges@);
            assert(edges@ == self.edges@);
        }
        Pherohormones { edges, pheromones_sum: self.pheromones_sum, n_tasks: self.n_tasks }
    }

    /// Adds `deposit_rate` to the weight of the edge `task_completed ->
    /// next_task`, creating the edge when it is absent. The cached sum is left
    /// alone.
    #[verifier::loop_isolation(false)]
    pub fn deposit_pherohormones(
        &mut self,
        task_completed: usize,
        next_task: usize,
        deposit_rate: u64,
    )
        requires
            old(self).wf(),
            deposit_rate >= 1,
            task_completed < old(self).spec_n_tasks(),
            next_task < old(self).spec_n_tasks(),
        ensures
            final(self)@ =~= deposited(
                old(self)@,
                task_completed as int,
                next_task as int,
                deposit_rate,
            ),
            final(self).wf(),
            final(self).spec_n_tasks() == old(self).spec_n_tasks(),
            final(self).spec_pheromones_sum() == old(self).spec_pheromones_sum(),
    {
        proof {
            self.lemma_view_entries();
        }
        let ghost k = (task_completed as int, next_task as int);
        let n = self.edges.len();
        let mut i: usize = 0;
        while i < n
            invariant
                self == old(self),
                n == self.edges@.len(),
                i <= n,
                forall|j: int| 0 <= j < i ==> Self::key(#[trigger] self.edges@[j]) != k,
            decreases n - i,
        {
            let e = self.edges[i];
            if e.0 == task_completed && e.1 == next_task {
                let w = e.2;
                let w2 = if w <= u64::MAX - deposit_rate {
                    w + deposit_rate
                } else {
                    u64::MAX
                };
                proof {
                    assert(Self::key(old(self).edges@[i as int]) == k);
                }
                self.edges.set(i, (task_completed, next_task, w2));
                proof {
                    assert(old(self)@.contains_key(k));
                    assert(old(self)@[k] == w);
                    assert(w2 == sat_add64(w, deposit_rate));
                    self.lemma_view_entries();
                    assert forall|k2: (int, int)| #[trigger] final(self)@.contains_key(k2) implies
                        deposited(old(self)@, k.0, k.1, deposit_rate).contains_key(k2)
                        && final(self)@[k2] == deposited(old(self)@, k.0, k.1, deposit_rate)[k2] by {
                        let j = choose|j: int|
                            0 <= j < self.edges@.len() && Self::key(self.edges@[j]) == k2;
                        if j == i {
                            assert(final(self)@[k2] == w2);
                        } else {
                            assert(Self::key(old(self).edges@[j]) == k2);
                        }
                    }
                    assert forall|k2: (int, int)|
                        deposited(old(self)@, k.0, k.1, deposit_rate).contains_key(k2) implies
                        final(self)@.contains_key(k2) by {
                        if k2 == k {
                            assert(Self::key(self.edges@[i as int]) == k2);
                        } else {
                            let j = choose|j: int|
                                0 <= j < old(self).edges@.len()
                                    && Self::key(old(self).edges@[j]) == k2;
                            assert(Self::key(self.edges@[j]) == k2);
                        }
                    }
                }
                return ;
            }
            i = i + 1;
        }
        proof {
            assert(!old(self)@.contains_key(k));
        }
        let ghost prev = self.edges@;
        self.edges.push((task_completed, next_task, deposit_rate));
        proof {
            assert(self.edges@ == prev.push((task_completed, next_task, deposit_rate)));
            assert(forall|j: int| 0 <= j < prev.len() ==> self.edges@[j] == prev[j]);
            assert(Self::key(self.edges@[prev.len() as int]) == k);
            self.lemma_view_entries();
            assert forall|k2: (int, int)| #[trigger] final(self)@.contains_key(k2) implies
                deposited(old(self)@, k.0, k.1, deposit_rate).contains_key(k2)
                && final(self)@[k2] == deposited(old(self)@, k.0, k.1, deposit_rate)[k2] by {
                let j = choose|j: int|
                    0 <= j < self.edges@.len() && Self::key(self.edges@[j]) == k2;
                if j == self.edges@.len() - 1 {
                    assert(final(self)@[k2] == deposit_rate);
                } else {
                    assert(Self::key(old(self).edges@[j]) == k2);
                }
            }
            assert forall|k2: (int, int)|
                deposited(old(self)@, k.0, k.1, deposit_rate).contains_key(k2) implies
                final(self)@.contains_key(k2) by {
                if k2 == k {
                    assert(Self::key(self.edges@[self.edges@.len() - 1]) == k2);
                } else {
                    let j = choose|j: int|
                        0 <= j < old(self).edges@.len() && Self::key(old(self).edges@[j]) == k2;
                    assert(Self::key(self.edges@[j]) == k2);
                }
            }
        }
    }

    /// The weight of the edge `a -> b`, or zero when the trail has no such
    /// edge.
    #[verifier::loop_isolation(false)]
    pub fn edge_weight(&self, a: usize, b: usize) -> (r: u64)
        requires
            self.wf(),
        ensures
            r == if self@.contains_key((a as int, b as int)) {
                self@[(a as int, b as int)]
            } else {
                0
            },
    {
        proof {
            self.lemma_view_entries();
        }
        let ghost k = (a as int, b as int);
        let n = self.edges.len();
        let mut i: usize = 0;
        while i < n
            invariant
                n == self.edges@.len(),
                i <= n,
                forall|j: int| 0 <= j < i ==> Self::key(#[trigger] self.edges@[j]) != k,
            decreases n - i,
        {
            let e = self.edges[i];
            if e.0 == a && e.1 == b {
                proof {
                    assert(Self::key(self.edges@[i as int]) == k);
                    assert(self@.contains_key(k) && self@[k] == e.2);
                }
                return e.2;
            }
            i = i + 1;
        }
        proof {
            assert(!self@.contains_key(k));
        }
        0
    }

    /// All outgoing pheromone edges of `task_completed`, each once, with its
    /// weight.
    #[verifier::loop_isolation(false)]
    pub fn find_paths(&self, task_completed: usize) -> (r: Vec<Path>)
        requires
            self.wf(),
        ensures
            forall|i: int|
                0 <= i < r@.len() ==> self@.contains_key(
                    (task_completed as int, #[trigger] r@[i].task as int),
                ) && r@[i].weight == self@[(task_completed as int, r@[i].task as int)],
            forall|b: int|
                self@.contains_key((task_completed as int, b)) ==> exists|i: int|
                    0 <= i < r@.len() && #[trigger] r@[i].task as int == b,
            forall|p: int, q: int|
                0 <= p < r@.len() && 0 <= q < r@.len() && p != q ==> (#[trigger] r@[p]).task != (
                #[trigger] r@[q]).task,
    {
        proof {
            self.lemma_view_entries();
        }
        let mut r: Vec<Path> = Vec::new();
        let ghost mut src: Seq<int> = Seq::empty();
        let n = self.edges.len();
        let mut i: usize = 0;
        while i < n
            invariant
                self.wf(),
                n == self.edges@.len(),
                i <= n,
                src.len() == r@.len(),
                forall|p: int|
                    0 <= p < r@.len() ==> 0 <= #[trigger] src[p] < i && self.edges@[src[p]].0
                        == task_completed && self.edges@[src[p]].1 == r@[p].task,
                forall|p: int, q: int| 0 <= p < q < r@.len() ==> #[trigger] src[p] < #[trigger] src[q],
                forall|p: int|
                    0 <= p < r@.len() ==> self@.contains_key(
                        (task_completed as int, #[trigger] r@[p].task as int),
                    ) && r@[p].weight == self@[(task_completed as int, r@[p].task as int)],
                forall|j: int|
                    0 <= j < i && (#[trigger] self.edges@[j]).0 == task_completed
                        ==> exists|p: int|
                        0 <= p < r@.len() && #[trigger] r@[p].task == self.edges@[j].1,
            decreases n - i,
        {
            proof {
                self.lemma_view_entries();
            }
            let e = self.edges[i];
            if e.0 == task_completed {
                proof {
                    assert(Self::key(self.edges@[i as int]) == (task_completed as int, e.1 as int));
                    assert(self@.contains_key((task_completed as int, e.1 as int)));
                }
                let ghost prev = r@;
                r.push(Path { task: e.1, weight: e.2 });
                proof {
                    src = src.push(i as int);
                    assert(forall|p: int| 0 <= p < prev.len() ==> r@[p] == prev[p]);
                    assert(r@[prev.len() as int].task == e.1);
                    assert(src[prev.len() as int] == i as int);
                }
            }
            i = i + 1;
        }
        proof {
            self.lemma_view_entries();
            assert forall|b: int| self@.contains_key((task_completed as int, b)) implies exists|p: int|
                0 <= p < r@.len() && #[trigger] r@[p].task as int == b by {
                let j = choose|j: int|
                    0 <= j < self.edges@.len() && Self::key(self.edges@[j]) == (
                    task_completed as int,
                    b,
                    );
                assert(self.edges@[j].0 == task_completed);
                let p = choose|p: int|
                    0 <= p < r@.len() && #[trigger] r@[p].task == self.edges@[j].1;
                assert(r@[p].task as int == b);
            }
            assert forall|p: int, q: int|
                0 <= p < r@.len() && 0 <= q < r@.len() && p != q implies (#[trigger] r@[p]).task
                != (#[trigger] r@[q]).task by {
                assert(src[p] != src[q]);
                assert(Self::key(self.edges@[src[p]]) != Self::key(self.edges@[src[q]]));
            }
        }
        r
    }

    /// Recomputes the cached sum of all edge weights, stopped at the top of
    /// `u64`.
    #[verifier::loop_isolation(false)]
    pub fn update_pherohormones_sum(&mut self)
        ensures
            final(self).spec_pheromones_sum() == if old(self).weights_sum() <= u64::MAX {
                old(self).weights_sum()
            } else {
                u64::MAX as int
            },
            final(self)@ == old(self)@,
            final(self).wf() <==> old(self).wf(),
            final(self).spec_n_tasks() == old(self).spec_n_tasks(),
            final(self).weights_sum() == old(self).weights_sum(),
    {
        let n = self.edges.len();
        let mut acc: u64 = 0;
        let mut i: usize = 0;
        while i < n
            invariant
                n == self.edges@.len(),
                i <= n,
                acc == if sum_weights(self.edges@.take(i as int)) <= u64::MAX {
                    sum_weights(self.edges@.take(i as int))
                } else {
                    u64::MAX as int
                },
            decreases n - i,
        {
            proof {
                lemma_sum_weights_take_step(self.edges@, i as int);
                lemma_sum_weights_nonneg(self.edges@.take(i as int));
            }
            let w = self.edges[i].2;
            acc = if acc <= u64::MAX - w {
                acc + w
            } else {
                u64::MAX
            };
            i = i + 1;
        }
        proof {
            assert(self.edges@.take(n as int) =~= self.edges@);
        }
        self.pheromones_sum = acc;
    }

    /// Subtracts `evaporation_rate` from every edge weight, floored at zero;
    /// an edge at or below zero is removed entirely. The cached sum is
    /// recomputed afterwards.
    #[verifier::loop_isolation(false)]
    pub fn evaporate_pherohormones(&mut self, evaporation_rate: u64)
        requires
            old(self).wf(),
        ensures
            final(self)@ =~= evaporated(old(self)@, evaporation_rate),
            final(self).wf(),
            final(self).spec_n_tasks() == old(self).spec_n_tasks(),
            final(self).spec_pheromones_sum() == if final(self).weights_sum() <= u64::MAX {
                final(self).weights_sum()
            } else {
                u64::MAX as int
            },
            final(self).weights_sum() <= old(self).weights_sum(),
            final(self).weights_sum() >= 0,
    {
        proof {
            self.lemma_view_entries();
        }
        let mut kept: Vec<(usize, usize, u64)> = Vec::new();
        let ghost mut src: Seq<int> = Seq::empty();
        let n = self.edges.len();
        let mut i: usize = 0;
        while i < n
            invariant
                old(self).wf(),
                self == old(self),
                n == self.edges@.len(),
                i <= n,
                sum_weights(kept@) <= sum_weights(self.edges@.take(i as int)),
                sum_weights(kept@) >= 0,
                src.len() == kept@.len(),
                forall|p: int|
                    0 <= p < kept@.len() ==> 0 <= #[trigger] src[p] < i,
                forall|p: int|
                    0 <= p < kept@.len() ==> Self::key(#[trigger] kept@[p]) == Self::key(
                        self.edges@[src[p]],
                    ) && kept@[p].2 + evaporation_rate == self.edges@[src[p]].2
                        && self.edges@[src[p]].2 > evaporation_rate,
                forall|p: int, q: int|
                    0 <= p < q < kept@.len() ==> #[trigger] src[p] < #[trigger] src[q],
                forall|j: int|
                    0 <= j < i && (#[trigger] self.edges@[j]).2 > evaporation_rate
                        ==> exists|p: int|
                        0 <= p < kept@.len() && Self::key(#[trigger] kept@[p]) == Self::key(
                        self.edges@[j],
                        ),
            decreases n - i,
        {
            let e = self.edges[i];
            let ghost prev = kept@;
            proof {
                lemma_sum_weights_take_step(self.edges@, i as int);
            }
            if e.2 > evaporation_rate {
                kept.push((e.0, e.1, e.2 - evaporation_rate));
                proof {
                    src = src.push(i as int);
                    assert(kept@.drop_last() =~= prev);
                    assert(kept@.drop_last() == prev);
                    assert(sum_weights(kept@) == sum_weights(prev) + (e.2 - evaporation_rate));
                    assert(forall|p: int| 0 <= p < prev.len() ==> kept@[p] == prev[p]);
                    assert(Self::key(kept@[prev.len() as int]) == Self::key(
                        self.edges@[i as int],
                    ));
                    assert(kept@[prev.len() as int].2 + evaporation_rate == self.edges@[
                        i as int
                    ].2);
                    assert(src[prev.len() as int] == i as int);
                    assert forall|j: int|
                        0 <= j < i + 1 && (#[trigger] self.edges@[j]).2 > evaporation_rate
                            implies exists|p: int|
                        0 <= p < kept@.len() && Self::key(#[trigger] kept@[p]) == Self::key(
                        self.edges@[j],
                        ) by {
                        if j < i {
                            let pp = choose|p: int|
                                0 <= p < prev.len() && Self::key(#[trigger] prev[p])
                                    == Self::key(self.edges@[j]);
                            assert(0 <= pp < kept@.len() && Self::key(kept@[pp]) == Self::key(
                                self.edges@[j],
                            ));
                        } else {
                            assert(Self::key(kept@[prev.len() as int]) == Self::key(
                                self.edges@[j],
                            ));
                        }
                    }
                }
            }
            i = i + 1;
        }
        proof {
            assert(self.edges@.take(n as int) =~= self.edges@);
        }
        let ghost before = *self;
        self.edges = kept;
        proof {
            assert forall|p: int, q: int|
                0 <= p < self.edges@.len() && 0 <= q < self.edges@.len() && p != q implies
                Self::key(#[trigger] self.edges@[p]) != Self::key(#[trigger] self.edges@[q]) by {
                assert(src[p] != src[q]);
                assert(Self::key(before.edges@[src[p]]) != Self::key(before.edges@[src[q]]));
            }
            assert forall|p: int| 0 <= p < self.edges@.len() implies (#[trigger] self.edges@[
                p
            ]).2 >= 1 && self.edges@[p].0 < self.n_tasks && self.edges@[p].1 < self.n_tasks by {
                assert(before.edges@[src[p]].0 < self.n_tasks && before.edges@[src[p]].1
                    < self.n_tasks);
                assert(self.edges@[p].0 as int == before.edges@[src[p]].0 as int);
                assert(self.edges@[p].1 as int == before.edges@[src[p]].1 as int);
            }
            assert(self.wf());
            old(self).lemma_view_entries();
            self.lemma_view_entries();
            assert forall|k: (int, int)| #[trigger] self@.contains_key(k) implies evaporated(
                old(self)@,
                evaporation_rate,
            ).contains_key(k) && self@[k] == evaporated(old(self)@, evaporation_rate)[k] by {
                let p = choose|p: int|
                    0 <= p < self.edges@.len() && Self::key(#[trigger] self.edges@[p]) == k;
                assert(Self::key(old(self).edges@[src[p]]) == k);
                assert(old(self)@.contains_key(k) && old(self)@[k] == old(self).edges@[src[p]].2);
            }
            assert forall|k: (int, int)|
                evaporated(old(self)@, evaporation_rate).contains_key(k) implies self@.contains_key(
                k,
            ) by {
                let jj = choose|j: int|
                    0 <= j < old(self).edges@.len() && Self::key(
                        #[trigger] old(self).edges@[j],
                    ) == k;
                assert(old(self).edges@[jj].2 == old(self)@[k]);
                assert(old(self).edges@[jj].2 > evaporation_rate);
                let pp = choose|p: int|
                    0 <= p < self.edges@.len() && Self::key(#[trigger] self.edges@[p])
                        == Self::key(before.edges@[jj]);
                assert(self@.contains_key(Self::key(self.edges@[pp])));
            }
        }
        self.update_pherohormones_sum();
    }

}

proof fn lemma_sum_weights_take_step(s: Seq<(usize, usize, u64)>, i: int)
    requires
        0 <= i < s.len(),
    ensures
        sum_weights(s.take(i + 1)) == sum_weights(s.take(i)) + s[i].2,
{
    assert(s.take(i + 1).drop_last() =~= s.take(i));
    assert(s.take(i + 1).last() == s[i]);
}

proof fn lemma_sum_weights_nonneg(s: Seq<(usize, usize, u64)>)
    ensures
        sum_weights(s) >= 0,
    decreases s.len(),
{
    if s.len() > 0 {
        lemma_sum_weights_nonneg(s.drop_last());
    }
}

/// A sound trail holds only positive weights: every edge its map (and so
/// [`Pherohormones::find_paths`] or [`Pherohormones::edge_weight`]) reports
/// carries a weight of at least one.
pub proof fn lemma_trail_weights_positive(ph: &Pherohormones)
    requires
        ph.wf(),
    ensures
        forall|k: (int, int)| #[trigger] ph@.contains_key(k) ==> ph@[k] >= 1,
{
    ph.lemma_view_entries();
    assert forall|k: (int, int)| #[trigger] ph@.contains_key(k) implies ph@[k] >= 1 by {
        let i = choose|i: int|
            0 <= i < ph.edges@.len() && Pherohormones::key(#[trigger] ph.edges@[i]) == k;
        assert(ph@[k] == ph.edges@[i].2);
    }
}

/// The stored weight sum is never negative.
pub proof fn lemma_weights_sum_nonneg(ph: &Pherohormones)
    ensures
        ph.weights_sum() >= 0,
{
    lemma_sum_weights_nonneg(ph.edges@);
}

/// Every single edge weight is at most the stored weight sum, so the
/// recomputed cached sum bounds each edge of the trail's map.
pub proof fn lemma_weight_le_weights_sum(ph: &Pherohormones, a: int, b: int)
    requires
        ph.wf(),
        ph@.contains_key((a, b)),
    ensures
        ph@[(a, b)] <= ph.weights_sum(),
{
    ph.lemma_view_entries();
    let i = choose|i: int|
        0 <= i < ph.edges@.len() && Pherohormones::key(ph.edges@[i]) == (a, b);
    lemma_sum_weights_elem(ph.edges@, i);
}

proof fn lemma_sum_weights_elem(s: Seq<(usize, usize, u64)>, i: int)
    requires
        0 <= i < s.len(),
    ensures
        s[i].2 <= sum_weights(s),
    decreases s.len(),
{
    if i == s.len() - 1 {
        lemma_sum_weights_nonneg(s.drop_last());
    } else {
        lemma_sum_weights_elem(s.drop_last(), i);
        assert(s.drop_last()[i] == s[i]);
    }
}

/// An empty trail (no edges in its map) carries a zero stored weight sum.
pub proof fn lemma_weights_sum_empty(ph: &Pherohormones)
    requires
        ph.wf(),
        ph@ =~= Map::<(int, int), u64>::empty(),
    ensures
        ph.weights_sum() == 0,
{
    ph.lemma_view_entries();
    if ph.edges@.len() > 0 {
        assert(ph@.contains_key(Pherohormones::key(ph.edges@[0])));
    }
}

/// The evaporation floor: after one evaporation step every surviving edge's
/// weight is positive, and any edge whose weight would reach zero (or below)
/// is absent from all subsequent lookups.
pub proof fn lemma_evaporation_floor(m: Map<(int, int), u64>, rate: u64)
    ensures
        forall|k: (int, int)| #[trigger]
            evaporated(m, rate).contains_key(k) ==> evaporated(m, rate)[k] >= 1,
        forall|k: (int, int)|
            m.contains_key(k) && #[trigger] m[k] <= rate ==> !evaporated(m, rate).contains_key(k),
{
}

/// Deposits accumulate: two deposits of the same rate on one initially
/// absent edge leave it with exactly twice that rate — the second deposit
/// adds to the first rather than overwriting it.
pub proof fn lemma_deposit_accumulates(m: Map<(int, int), u64>, a: int, b: int, rate: u64)
    requires
        !m.contains_key((a, b)),
        2 * rate <= u64::MAX,
    ensures
        deposited(deposited(m, a, b, rate), a, b, rate)[(a, b)] == 2 * rate,
{
}

} // verus!
