use vstd::prelude::*;

use crate::graph::Graph;
use crate::op::{ArrRepr, Op, OpError};
use crate::runtime::{install_prefix, lemma_gather_err_stays, op_answered, EvalError, Feed, Outcomes};

verus! {

impl<A, O> Graph<A, O> {
    /// Determinism: when every op answers equal inputs with equal outputs (as
    /// `f` says), a node's result is fixed by the graph and the feeds alone.
    pub proof fn lemma_determinism(
        &self,
        feeds: Seq<Feed<A>>,
        f: spec_fn(int, Seq<A>) -> Seq<Option<Result<ArrRepr<A>, OpError>>>,
        o1: Outcomes<A>,
        o2: Outcomes<A>,
        n: int,
    )
        requires
            self.wf(),
            0 <= n < self.len(),
            self.is_computed(n),
            forall|m: int|
                self.reaches(n, m) && self.is_computed(m) && #[trigger] self.gather(feeds, o1, m, self.edges(m).len() as int) is Ok
                    ==> o1(m) == f(m, self.gather(feeds, o1, m, self.edges(m).len() as int)->Ok_0),
            forall|m: int|
                self.reaches(n, m) && self.is_computed(m) && #[trigger] self.gather(feeds, o2, m, self.edges(m).len() as int) is Ok
                    ==> o2(m) == f(m, self.gather(feeds, o2, m, self.edges(m).len() as int)->Ok_0),
        ensures
            self.node_res(feeds, o1, n) == self.node_res(feeds, o2, n),
        decreases n, self.edges(n).len() + 1,
    {
        self.lemma_determinism_gather(feeds, f, o1, o2, n, self.edges(n).len() as int);
        assert(self.reaches(n, n));
    }

    proof fn lemma_determinism_gather(
        &self,
        feeds: Seq<Feed<A>>,
        f: spec_fn(int, Seq<A>) -> Seq<Option<Result<ArrRepr<A>, OpError>>>,
        o1: Outcomes<A>,
        o2: Outcomes<A>,
        n: int,
        k: int,
    )
        requires
            self.wf(),
            0 <= n < self.len(),
            0 <= k <= self.edges(n).len(),
            forall|m: int|
                self.reaches(n, m) && self.is_computed(m) && #[trigger] self.gather(feeds, o1, m, self.edges(m).len() as int) is Ok
                    ==> o1(m) == f(m, self.gather(feeds, o1, m, self.edges(m).len() as int)->Ok_0),
            forall|m: int|
                self.reaches(n, m) && self.is_computed(m) && #[trigger] self.gather(feeds, o2, m, self.edges(m).len() as int) is Ok
                    ==> o2(m) == f(m, self.gather(feeds, o2, m, self.edges(m).len() as int)->Ok_0),
        ensures
            self.gather(feeds, o1, n, k) == self.gather(feeds, o2, n, k),
        decreases n, k,
    {
        if k > 0 {
            self.lemma_determinism_gather(feeds, f, o1, o2, n, k - 1);
            let e = self.edges(n)[k - 1];
            let s = e.id as int;
            assert(s < n);
            if self.is_computed(s) {
                self.lemma_reaches_input(n, k - 1);
                assert forall|m: int| self.reaches(s, m) implies self.reaches(n, m) by {
                    self.lemma_reaches_trans(n, s, m);
                }
                self.lemma_determinism(feeds, f, o1, o2, s);
            }
            assert(self.input_value(feeds, o1, e) == self.input_value(feeds, o2, e));
        }
    }

    /// Error isolation: let `bad` fail with `e` under `o1`, and let `o2` differ
    /// from `o1` only at `bad`, with every computed node that `n` reaches
    /// succeeding under `o2`. Then `n` fails with `e` if it depends on `bad`,
    /// and otherwise gets what it gets under `o2`, a success.
    pub proof fn lemma_error_isolation(
        &self,
        feeds: Seq<Feed<A>>,
        o1: Outcomes<A>,
        o2: Outcomes<A>,
        bad: int,
        e: OpError,
        n: int,
    )
        requires
            self.wf(),
            0 <= n < self.len(),
            self.is_computed(n),
            0 <= bad < self.len(),
            self.is_computed(bad),
            forall|k: int| k != bad ==> #[trigger] o1(k) == o2(k),
            self.node_res(feeds, o1, bad) == Err::<Seq<Option<A>>, OpError>(e),
            forall|m: int| self.reaches(n, m) && self.is_computed(m) ==> (#[trigger] self.node_res(feeds, o2, m)) is Ok,
        ensures
            self.reaches(n, bad) ==> self.node_res(feeds, o1, n) == Err::<Seq<Option<A>>, OpError>(e),
            !self.reaches(n, bad) ==> self.node_res(feeds, o1, n) == self.node_res(feeds, o2, n),
            !self.reaches(n, bad) ==> self.node_res(feeds, o1, n) is Ok,
        decreases n, self.edges(n).len() + 1,
    {
        assert(self.reaches(n, n));
        if !self.reaches(n, bad) {
            assert forall|m: int| self.reaches(n, m) implies o1(m) == o2(m) by {
                if m == bad {
                    assert(self.reaches(n, bad));
                }
            }
            self.lemma_frame(feeds, o1, o2, n);
        } else if n != bad {
            let len = self.edges(n).len() as int;
            assert(self.node_res(feeds, o2, n) is Ok);
            self.lemma_isolation_gather(feeds, o1, o2, bad, e, n, len);
            let q = choose|q: int|
                0 <= q < self.edges(n).len() && 0 <= (#[trigger] self.edges(n)[q]).id < n
                    && self.reaches(self.edges(n)[q].id as int, bad);
            assert(self.edges_reach_before(n, bad, len));
        }
    }

    /// Some edge of `n` before position `k` reads a node that reaches `bad`.
    spec fn edges_reach_before(&self, n: int, bad: int, k: int) -> bool {
        exists|q: int| 0 <= q < k && q < self.edges(n).len() && self.reaches((#[trigger] self.edges(n)[q]).id as int, bad)
    }

    proof fn lemma_isolation_gather(
        &self,
        feeds: Seq<Feed<A>>,
        o1: Outcomes<A>,
        o2: Outcomes<A>,
        bad: int,
        e: OpError,
        n: int,
        k: int,
    )
        requires
            self.wf(),
            0 <= n < self.len(),
            self.is_computed(n),
            n != bad,
            0 <= bad < self.len(),
            self.is_computed(bad),
            0 <= k <= self.edges(n).len(),
            forall|x: int| x != bad ==> #[trigger] o1(x) == o2(x),
            self.node_res(feeds, o1, bad) == Err::<Seq<Option<A>>, OpError>(e),
            forall|m: int| self.reaches(n, m) && self.is_computed(m) ==> (#[trigger] self.node_res(feeds, o2, m)) is Ok,
        ensures
            self.edges_reach_before(n, bad, k) ==> self.gather(feeds, o1, n, k) == Err::<Seq<A>, OpError>(e),
            !self.edges_reach_before(n, bad, k) ==> self.gather(feeds, o1, n, k) == self.gather(feeds, o2, n, k),
            self.gather(feeds, o2, n, k) is Ok,
        decreases n, k,
    {
        let len = self.edges(n).len() as int;
        assert(self.reaches(n, n));
        assert(self.node_res(feeds, o2, n) is Ok);
        assert(self.gather(feeds, o2, n, len) is Ok);
        if k > 0 {
            self.lemma_isolation_gather(feeds, o1, o2, bad, e, n, k - 1);
            if self.gather(feeds, o2, n, k) is Err {
                lemma_gather_err_stays(self, feeds, o2, n, k, len);
            }
            let ed = self.edges(n)[k - 1];
            let s = ed.id as int;
            assert(s < n);
            self.lemma_reaches_input(n, k - 1);
            if self.edges_reach_before(n, bad, k - 1) {
                let q = choose|q: int| 0 <= q < k - 1 && q < self.edges(n).len() && self.reaches((#[trigger] self.edges(n)[q]).id as int, bad);
                assert(self.edges_reach_before(n, bad, k));
            } else {
                if self.reaches(s, bad) {
                    assert(self.edges_reach_before(n, bad, k));
                    if s != bad {
                        let w = choose|w: int|
                            0 <= w < self.edges(s).len() && 0 <= (#[trigger] self.edges(s)[w]).id < s
                                && self.reaches(self.edges(s)[w].id as int, bad);
                        assert(self.is_computed(s));
                        assert forall|m: int| self.reaches(s, m) && self.is_computed(m) implies (#[trigger] self.node_res(feeds, o2, m)) is Ok by {
                            self.lemma_reaches_trans(n, s, m);
                        }
                        self.lemma_error_isolation(feeds, o1, o2, bad, e, s);
                    }
                    assert(self.input_value(feeds, o1, ed) == Err::<A, OpError>(e));
                } else {
                    assert(!self.edges_reach_before(n, bad, k));
                    if self.is_computed(s) {
                        assert forall|m: int| self.reaches(s, m) && self.is_computed(m) implies (#[trigger] self.node_res(feeds, o2, m)) is Ok by {
                            self.lemma_reaches_trans(n, s, m);
                        }
                        self.lemma_error_isolation(feeds, o1, o2, bad, e, s);
                    }
                    assert(self.input_value(feeds, o1, ed) == self.input_value(feeds, o2, ed));
                }
            }
        }
    }

    /// Delegation: a node whose op delegates to input `k` has one output, the
    /// value of that input.
    pub proof fn lemma_delegate(&self, feeds: Seq<Feed<A>>, outs: Outcomes<A>, n: int, k: usize)
        requires
            self.wf(),
            0 <= n < self.len(),
            self.gather(feeds, outs, n, self.edges(n).len() as int) is Ok,
            k < self.gather(feeds, outs, n, self.edges(n).len() as int)->Ok_0.len(),
            outs(n).len() > 0,
            install_prefix(outs(n), outs(n).len() as int) == Err::<Seq<Option<A>>, OpError>(OpError::Delegate { to: k }),
        ensures
            self.node_res(feeds, outs, n) == Ok::<Seq<Option<A>>, OpError>(
                seq![Some(self.gather(feeds, outs, n, self.edges(n).len() as int)->Ok_0[k as int])],
            ),
    {
    }
}

impl<A: Clone, O: Op<A>> Graph<A, O> {
    /// Error isolation for `eval`: let node `bad` fail with `e` in an
    /// evaluation whose ops answered `o1`, and let `o2`, which differs from
    /// `o1` only at `bad`, make every needed node succeed with a primary
    /// output for every target. Then a target that depends on `bad` gets
    /// `e`, and every other target gets a value.
    pub proof fn lemma_eval_error_isolation(
        &self,
        feeds: Seq<Feed<A>>,
        targets: Seq<usize>,
        o1: Outcomes<A>,
        o2: Outcomes<A>,
        r: Seq<Result<A, EvalError>>,
        bad: int,
        e: OpError,
        i: int,
    )
        requires
            self.wf(),
            forall|k: int| 0 <= k < targets.len() ==> (#[trigger] targets[k]) < self.len(),
            self.evaluated(feeds, o1, targets, r),
            0 <= bad < self.len(),
            self.is_computed(bad),
            forall|k: int| k != bad ==> #[trigger] o1(k) == o2(k),
            self.node_res(feeds, o1, bad) == Err::<Seq<Option<A>>, OpError>(e),
            forall|m: int|
                0 <= m < self.len() && self.is_computed(m) && self.needed(targets, m) ==> (#[trigger] self.node_res(
                    feeds,
                    o2,
                    m,
                )) is Ok,
            forall|k: int|
                0 <= k < targets.len() && self.is_computed(#[trigger] targets[k] as int) ==> ({
                    let slots = self.node_res(feeds, o2, targets[k] as int)->Ok_0;
                    slots.len() > 0 && slots[0] is Some
                }),
            0 <= i < targets.len(),
        ensures
            self.reaches(targets[i] as int, bad) ==> r[i] == Err::<A, EvalError>(EvalError::OpError(e)),
            !self.reaches(targets[i] as int, bad) ==> r[i] is Ok,
    {
        let t = targets[i] as int;
        assert(self.delivered(feeds, o1, t, r[i]));
        if self.is_computed(t) {
            assert forall|m: int| self.reaches(t, m) && self.is_computed(m) implies (#[trigger] self.node_res(
                feeds,
                o2,
                m,
            )) is Ok by {
                self.lemma_reaches_earlier(t, m);
                assert(self.needed(targets, m));
            }
            self.lemma_error_isolation(feeds, o1, o2, bad, e, t);
        } else if self.reaches(t, bad) {
            if t != bad {
                let k = choose|k: int|
                    0 <= k < self.edges(t).len() && 0 <= (#[trigger] self.edges(t)[k]).id < t
                        && self.reaches(self.edges(t)[k].id as int, bad);
            }
        }
    }
}

/// `op` answers equal inputs with equal outputs.
pub open spec fn answers_functional<A, O: Op<A>>(op: O) -> bool {
    forall|ins: Seq<A>, y1: Seq<Option<Result<ArrRepr<A>, OpError>>>, y2: Seq<Option<Result<ArrRepr<A>, OpError>>>|
        #[trigger] op_answered(op, ins, y1) && #[trigger] op_answered(op, ins, y2) ==> y1 == y2
}

impl<A: Clone, O: Op<A>> Graph<A, O> {
    /// Determinism of `eval`: when every op of the graph answers equal inputs
    /// equally, two evaluations of the same targets with the same feeds give
    /// each target the same error, or copies of the same value.
    pub proof fn lemma_eval_deterministic(
        &self,
        feeds: Seq<Feed<A>>,
        targets: Seq<usize>,
        o1: Outcomes<A>,
        o2: Outcomes<A>,
        r1: Seq<Result<A, EvalError>>,
        r2: Seq<Result<A, EvalError>>,
        i: int,
    )
        requires
            self.wf(),
            forall|k: int| 0 <= k < targets.len() ==> (#[trigger] targets[k]) < self.len(),
            forall|m: int| 0 <= m < self.len() && self.is_computed(m) ==> answers_functional(#[trigger] self.source(m).op()),
            self.evaluated(feeds, o1, targets, r1),
            self.evaluated(feeds, o2, targets, r2),
            0 <= i < targets.len(),
        ensures
            r1[i] is Ok <==> r2[i] is Ok,
            r1[i] is Err ==> r1[i] == r2[i],
            r1[i] is Ok ==> exists|v: A| cloned(v, r1[i]->Ok_0) && cloned(v, r2[i]->Ok_0),
    {
        let t = targets[i] as int;
        assert(self.delivered(feeds, o1, t, r1[i]));
        assert(self.delivered(feeds, o2, t, r2[i]));
        if self.is_computed(t) {
            let f = |m: int, ins: Seq<A>| choose|y: Seq<Option<Result<ArrRepr<A>, OpError>>>| op_answered(self.source(m).op(), ins, y);
            assert forall|m: int|
                self.reaches(t, m) && self.is_computed(m) && #[trigger] self.gather(feeds, o1, m, self.edges(m).len() as int) is Ok
                    implies o1(m) == f(m, self.gather(feeds, o1, m, self.edges(m).len() as int)->Ok_0) by {
                self.lemma_reaches_earlier(t, m);
                assert(self.needed(targets, m));
                let ins = self.gather(feeds, o1, m, self.edges(m).len() as int)->Ok_0;
                assert(op_answered(self.source(m).op(), ins, o1(m)));
                assert(answers_functional(self.source(m).op()));
            }
            assert forall|m: int|
                self.reaches(t, m) && self.is_computed(m) && #[trigger] self.gather(feeds, o2, m, self.edges(m).len() as int) is Ok
                    implies o2(m) == f(m, self.gather(feeds, o2, m, self.edges(m).len() as int)->Ok_0) by {
                self.lemma_reaches_earlier(t, m);
                assert(self.needed(targets, m));
                let ins = self.gather(feeds, o2, m, self.edges(m).len() as int)->Ok_0;
                assert(op_answered(self.source(m).op(), ins, o2(m)));
                assert(answers_functional(self.source(m).op()));
            }
            self.lemma_determinism(feeds, f, o1, o2, t);
        }
    }
}

} // verus!
