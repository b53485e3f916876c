use vstd::prelude::*;

verus! {

/// An input edge: which node to read, and which of its outputs.
///
/// `mut_usage` records that the consumer means to write through the edge; the
/// graph accepts it only on an edge that reads a variable. It grants no write
/// access: the evaluator hands every input to an op by shared reference, and
/// variable arrays do not change during an evaluation.
#[derive(Debug, Clone, Copy, PartialEq, Eq, Structural)]
pub struct Edge {
    pub id: usize,
    pub input_index: usize,
    pub mut_usage: bool,
}

/// Where a node's value comes from.
pub enum Source<A, O> {
    /// Supplied at evaluation time by a feed.
    Placeholder,
    /// A mutable array owned by the node, kept across evaluations.
    Variable(A),
    /// An immutable array owned by the node.
    Constant(A),
    /// The outputs of the node's op.
    Computed(O),
}

impl<A, O> Source<A, O> {
    pub fn is_computed_exec(&self) -> (r: bool)
        ensures
            r == (*self is Computed),
    {
        match self {
            Source::Computed(_) => true,
            _ => false,
        }
    }

    pub open spec fn is_persistent(self) -> bool {
        self is Variable || self is Constant
    }

    pub open spec fn op(self) -> O
        recommends
            self is Computed,
    {
        match self {
            Source::Computed(op) => op,
            _ => arbitrary(),
        }
    }

    pub open spec fn persistent_value(self) -> A
        recommends
            self.is_persistent(),
    {
        match self {
            Source::Variable(a) => a,
            Source::Constant(a) => a,
            _ => arbitrary(),
        }
    }
}

/// A node of the graph. Its id is its position in `Graph::nodes`.
pub struct Node<A, O> {
    pub in_edges: Vec<Edge>,
    pub source: Source<A, O>,
    /// The declared shape of a placeholder; a negative dimension is a wildcard.
    pub placeholder_shape: Option<Vec<isize>>,
}

/// A directed acyclic graph of nodes, numbered in the order they were added:
/// every edge reads a node added earlier.
pub struct Graph<A, O> {
    pub nodes: Vec<Node<A, O>>,
}

impl<A, O> Graph<A, O> {
    pub open spec fn len(&self) -> int {
        self.nodes@.len() as int
    }

    pub open spec fn source(&self, n: int) -> Source<A, O> {
        self.nodes@[n].source
    }

    pub open spec fn is_computed(&self, n: int) -> bool {
        self.nodes@[n].source is Computed
    }

    pub open spec fn edges(&self, n: int) -> Seq<Edge> {
        self.nodes@[n].in_edges@
    }

    /// Edges read earlier nodes only (so the graph is acyclic), only computed
    /// nodes have inputs, and only a variable is read for writing.
    pub open spec fn wf(&self) -> bool {
        forall|n: int, j: int|
            0 <= n < self.len() && 0 <= j < self.edges(n).len() ==> {
                &&& (#[trigger] self.edges(n)[j]).id < n
                &&& self.is_computed(n)
                &&& self.edges(n)[j].mut_usage ==> self.source(self.edges(n)[j].id as int) is Variable
            }
    }

    /// `to` is `from`, or a node that `from` reads, directly or through other
    /// computed nodes.
    pub open spec fn reaches(&self, from: int, to: int) -> bool
        decreases from,
    {
        if from == to {
            true
        } else if 0 <= from < self.len() {
            exists|j: int|
                0 <= j < self.edges(from).len() && 0 <= (#[trigger] self.edges(from)[j]).id < from
                    && self.reaches(self.edges(from)[j].id as int, to)
        } else {
            false
        }
    }

    /// Some target reaches `m`.
    pub open spec fn needed(&self, targets: Seq<usize>, m: int) -> bool {
        exists|i: int| 0 <= i < targets.len() && self.reaches(#[trigger] targets[i] as int, m)
    }

    pub fn new() -> (r: Self)
        ensures
            r.wf(),
            r.len() == 0,
    {
        Graph { nodes: Vec::new() }
    }

    fn push_node(&mut self, node: Node<A, O>) -> (r: usize)
        requires
            old(self).wf(),
            old(self).len() < usize::MAX,
            node.in_edges@.len() > 0 ==> node.source is Computed,
            forall|j: int| 0 <= j < node.in_edges@.len() ==> (#[trigger] node.in_edges@[j]).id < old(self).len(),
            forall|j: int|
                0 <= j < node.in_edges@.len() && (#[trigger] node.in_edges@[j]).mut_usage ==> old(self).source(
                    node.in_edges@[j].id as int,
                ) is Variable,
        ensures
            final(self).wf(),
            r == old(self).len(),
            final(self).nodes@ == old(self).nodes@.push(node),
    {
        let r = self.nodes.len();
        self.nodes.push(node);
        proof {
            assert forall|n: int, j: int|
                0 <= n < self.len() && 0 <= j < self.edges(n).len() implies {
                    &&& (#[trigger] self.edges(n)[j]).id < n
                    &&& self.is_computed(n)
                    &&& self.edges(n)[j].mut_usage ==> self.source(self.edges(n)[j].id as int) is Variable
                } by {
                if n < r {
                    assert(self.edges(n) == old(self).edges(n));
                }
                assert(self.nodes@[self.edges(n)[j].id as int] == old(self).nodes@[self.edges(n)[j].id as int]);
            }
        }
        r
    }

    /// Adds a placeholder of the given declared shape (negative dimensions
    /// match any size) and returns its id.
    pub fn placeholder(&mut self, shape: Vec<isize>) -> (r: usize)
        requires
            old(self).wf(),
            old(self).len() < usize::MAX,
        ensures
            final(self).wf(),
            r == old(self).len(),
            final(self).len() == old(self).len() + 1,
            forall|n: int| 0 <= n < old(self).len() ==> final(self).nodes@[n] == old(self).nodes@[n],
            final(self).source(r as int) is Placeholder,
            final(self).nodes@[r as int].placeholder_shape == Some(shape),
            final(self).edges(r as int).len() == 0,
    {
        self.push_node(Node { in_edges: Vec::new(), source: Source::Placeholder, placeholder_shape: Some(shape) })
    }

    /// Adds a variable holding `arr` and returns its id.
    pub fn variable(&mut self, arr: A) -> (r: usize)
        requires
            old(self).wf(),
            old(self).len() < usize::MAX,
        ensures
            final(self).wf(),
            r == old(self).len(),
            final(self).len() == old(self).len() + 1,
            forall|n: int| 0 <= n < old(self).len() ==> final(self).nodes@[n] == old(self).nodes@[n],
            final(self).source(r as int) == Source::<A, O>::Variable(arr),
            final(self).edges(r as int).len() == 0,
    {
        self.push_node(Node { in_edges: Vec::new(), source: Source::Variable(arr), placeholder_shape: None })
    }

    /// Adds a constant holding `arr` and returns its id.
    pub fn constant(&mut self, arr: A) -> (r: usize)
        requires
            old(self).wf(),
            old(self).len() < usize::MAX,
        ensures
            final(self).wf(),
            r == old(self).len(),
            final(self).len() == old(self).len() + 1,
            forall|n: int| 0 <= n < old(self).len() ==> final(self).nodes@[n] == old(self).nodes@[n],
            final(self).source(r as int) == Source::<A, O>::Constant(arr),
            final(self).edges(r as int).len() == 0,
    {
        self.push_node(Node { in_edges: Vec::new(), source: Source::Constant(arr), placeholder_shape: None })
    }

    /// Adds a node computed by `op` from the given input edges and returns its
    /// id; `None`, with the graph unchanged, when an edge names no existing
    /// node, or asks to write to a node that is not a variable.
    pub fn add_op(&mut self, op: O, in_edges: Vec<Edge>) -> (r: Option<usize>)
        requires
            old(self).wf(),
            old(self).len() < usize::MAX,
        ensures
            final(self).wf(),
            (forall|j: int|
                0 <= j < in_edges@.len() ==> (#[trigger] in_edges@[j]).id < old(self).len() && (in_edges@[j].mut_usage
                    ==> old(self).source(in_edges@[j].id as int) is Variable)) <==> r is Some,
            r is None ==> final(self).nodes@ == old(self).nodes@,
            r is Some ==> {
                &&& r->0 == old(self).len()
                &&& final(self).len() == old(self).len() + 1
                &&& forall|n: int| 0 <= n < old(self).len() ==> final(self).nodes@[n] == old(self).nodes@[n]
                &&& final(self).source(r->0 as int) == Source::<A, O>::Computed(op)
                &&& final(self).edges(r->0 as int) == in_edges@
            },
    {
        let n = self.nodes.len();
        let mut j: usize = 0;
        while j < in_edges.len()
            invariant
                0 <= j <= in_edges@.len(),
                n == self.len(),
                self.wf(),
                self.nodes@ == old(self).nodes@,
                forall|k: int|
                    0 <= k < j ==> (#[trigger] in_edges@[k]).id < n && (in_edges@[k].mut_usage ==> self.source(
                        in_edges@[k].id as int,
                    ) is Variable),
            decreases in_edges@.len() - j,
        {
            let e = in_edges[j];
            if e.id >= n {
                return None;
            }
            if e.mut_usage {
                match &self.nodes[e.id].source {
                    Source::Variable(_) => {},
                    _ => {
                        return None;
                    },
                }
            }
            j = j + 1;
        }
        Some(self.push_node(Node { in_edges, source: Source::Computed(op), placeholder_shape: None }))
    }

    proof fn lemma_reaches_edge(&self, from: int, n: int, j: int)
        requires
            self.wf(),
            0 <= n < self.len(),
            0 <= j < self.edges(n).len(),
            0 <= from < self.len(),
            self.reaches(from, n),
        ensures
            self.reaches(from, self.edges(n)[j].id as int),
        decreases from,
    {
        let s = self.edges(n)[j].id as int;
        assert(self.reaches(s, s));
        if from != n {
            let k = choose|k: int|
                0 <= k < self.edges(from).len() && 0 <= (#[trigger] self.edges(from)[k]).id < from
                    && self.reaches(self.edges(from)[k].id as int, n);
            self.lemma_reaches_edge(self.edges(from)[k].id as int, n, j);
            assert(self.reaches(self.edges(from)[k].id as int, s));
        }
    }

    pub proof fn lemma_reaches_trans(&self, a: int, b: int, c: int)
        requires
            self.wf(),
            self.reaches(a, b),
            self.reaches(b, c),
        ensures
            self.reaches(a, c),
        decreases a,
    {
        if a != b {
            let k = choose|k: int|
                0 <= k < self.edges(a).len() && 0 <= (#[trigger] self.edges(a)[k]).id < a
                    && self.reaches(self.edges(a)[k].id as int, b);
            self.lemma_reaches_trans(self.edges(a)[k].id as int, b, c);
        }
    }

    /// A node reaches only itself and nodes added before it.
    pub proof fn lemma_reaches_earlier(&self, a: int, b: int)
        requires
            self.wf(),
            self.reaches(a, b),
        ensures
            b <= a,
            0 <= a ==> 0 <= b,
        decreases a,
    {
        if a != b {
            let k = choose|k: int|
                0 <= k < self.edges(a).len() && 0 <= (#[trigger] self.edges(a)[k]).id < a
                    && self.reaches(self.edges(a)[k].id as int, b);
            self.lemma_reaches_earlier(self.edges(a)[k].id as int, b);
        }
    }

    /// A node reaches the node each of its edges reads.
    pub proof fn lemma_reaches_input(&self, n: int, j: int)
        requires
            self.wf(),
            0 <= n < self.len(),
            0 <= j < self.edges(n).len(),
        ensures
            self.reaches(n, self.edges(n)[j].id as int),
    {
        let s = self.edges(n)[j].id as int;
        assert(self.reaches(s, s));
    }

    /// A set of nodes that holds every input of its members holds every node
    /// that one of its members reaches.
    proof fn lemma_closed_reaches(&self, marks: Seq<bool>, from: int, to: int)
        requires
            self.wf(),
            marks.len() == self.len(),
            0 <= from < self.len(),
            marks[from],
            self.reaches(from, to),
            forall|p: int, j: int|
                0 <= p < self.len() && marks[p] && 0 <= j < self.edges(p).len() ==> marks[(
                #[trigger] self.edges(p)[j]).id as int],
        ensures
            0 <= to < self.len(),
            marks[to],
        decreases from,
    {
        if from != to {
            let k = choose|k: int|
                0 <= k < self.edges(from).len() && 0 <= (#[trigger] self.edges(from)[k]).id < from
                    && self.reaches(self.edges(from)[k].id as int, to);
            self.lemma_closed_reaches(marks, self.edges(from)[k].id as int, to);
        }
    }

    /// `r` lists, by increasing id, exactly the computed nodes that the
    /// targets need.
    pub open spec fn is_schedule(&self, targets: Seq<usize>, r: Seq<usize>) -> bool {
        &&& forall|i: int, j: int| 0 <= i < j < r.len() ==> r[i] < r[j]
        &&& forall|i: int|
            0 <= i < r.len() ==> {
                &&& (#[trigger] r[i]) < self.len()
                &&& self.is_computed(r[i] as int)
                &&& self.needed(targets, r[i] as int)
            }
        &&& forall|m: int|
            0 <= m < self.len() && self.is_computed(m) && self.needed(targets, m) ==> #[trigger] r.contains(m as usize)
    }

    /// Each op of a schedule runs once: no node appears twice in it.
    pub proof fn lemma_schedule_once(&self, targets: Seq<usize>, r: Seq<usize>, i: int, j: int)
        requires
            self.is_schedule(targets, r),
            0 <= i < r.len(),
            0 <= j < r.len(),
            i != j,
        ensures
            r[i] != r[j],
    {
    }

    /// A schedule runs each op after every computed node it reads; the other
    /// inputs are feeds or persistent arrays.
    pub proof fn lemma_schedule_post_order(&self, targets: Seq<usize>, r: Seq<usize>, i: int, j: int)
        requires
            self.wf(),
            self.is_schedule(targets, r),
            0 <= i < r.len(),
            0 <= j < self.edges(r[i] as int).len(),
        ensures
            self.is_computed(self.edges(r[i] as int)[j].id as int) ==> exists|a: int|
                0 <= a < i && r[a] == self.edges(r[i] as int)[j].id,
            !self.is_computed(self.edges(r[i] as int)[j].id as int) ==> self.source(self.edges(r[i] as int)[j].id as int) is Placeholder
                || self.source(self.edges(r[i] as int)[j].id as int).is_persistent(),
    {
        let n = r[i] as int;
        let s = self.edges(n)[j].id as int;
        if self.is_computed(s) {
            self.lemma_reaches_input(n, j);
            let t = choose|t: int| 0 <= t < targets.len() && self.reaches(#[trigger] targets[t] as int, n);
            self.lemma_reaches_trans(targets[t] as int, n, s);
            assert(self.needed(targets, s));
            assert(r.contains(s as usize));
            let a = choose|a: int| 0 <= a < r.len() && r[a] == s as usize;
            if a >= i {
                assert(r[i] <= r[a]);
            }
        }
    }

    /// The computed nodes that the targets need, by increasing id: the order
    /// in which the evaluator runs their ops.
    pub fn schedule(&self, targets: &Vec<usize>) -> (r: Vec<usize>)
        requires
            self.wf(),
            forall|i: int| 0 <= i < targets@.len() ==> (#[trigger] targets@[i]) < self.len(),
        ensures
            self.is_schedule(targets@, r@),
    {
        let n = self.nodes.len();
        let mut marks: Vec<bool> = Vec::new();
        while marks.len() < n
            invariant
                marks@.len() <= n,
                forall|m: int| 0 <= m < marks@.len() ==> !marks@[m],
            decreases n - marks@.len(),
        {
            marks.push(false);
        }
        let mut t: usize = 0;
        while t < targets.len()
            invariant
                0 <= t <= targets@.len(),
                marks@.len() == n,
                n == self.len(),
                forall|i: int| 0 <= i < targets@.len() ==> (#[trigger] targets@[i]) < self.len(),
                forall|i: int| 0 <= i < t ==> marks@[(#[trigger] targets@[i]) as int],
                forall|m: int| 0 <= m < n && #[trigger] marks@[m] ==> self.needed(targets@, m),
            decreases targets@.len() - t,
        {
            let id = targets[t];
            proof {
                assert(self.reaches(id as int, id as int));
                assert(self.needed(targets@, id as int));
            }
            marks.set(id, true);
            t = t + 1;
        }
        let mut i: usize = n;
        while i > 0
            invariant
                0 <= i <= n,
                marks@.len() == n,
                n == self.len(),
                self.wf(),
                forall|k: int| 0 <= k < targets@.len() ==> (#[trigger] targets@[k]) < self.len(),
                forall|k: int| 0 <= k < targets@.len() ==> marks@[(#[trigger] targets@[k]) as int],
                forall|m: int| 0 <= m < n && #[trigger] marks@[m] ==> self.needed(targets@, m),
                forall|p: int, j: int|
                    i <= p < n && marks@[p] && 0 <= j < self.edges(p).len() ==> marks@[(
                    #[trigger] self.edges(p)[j]).id as int],
            decreases i,
        {
            let id = i - 1;
            if marks[id] {
                let edges = &self.nodes[id].in_edges;
                let mut k: usize = 0;
                while k < edges.len()
                    invariant
                        0 <= k <= edges@.len(),
                        edges@ == self.edges(id as int),
                        0 < i <= n,
                        id == i - 1,
                        marks@.len() == n,
                        n == self.len(),
                        self.wf(),
                        marks@[id as int],
                        forall|q: int| 0 <= q < targets@.len() ==> (#[trigger] targets@[q]) < self.len(),
                        forall|q: int| 0 <= q < targets@.len() ==> marks@[(#[trigger] targets@[q]) as int],
                        forall|m: int| 0 <= m < n && #[trigger] marks@[m] ==> self.needed(targets@, m),
                        forall|p: int, j: int|
                            i <= p < n && marks@[p] && 0 <= j < self.edges(p).len() ==> marks@[(
                            #[trigger] self.edges(p)[j]).id as int],
                        forall|j: int| 0 <= j < k ==> marks@[(#[trigger] self.edges(id as int)[j]).id as int],
                    decreases edges@.len() - k,
                {
                    let src = edges[k].id;
                    proof {
                        assert(self.edges(id as int)[k as int].id < id);
                        let q = choose|q: int| 0 <= q < targets@.len() && self.reaches(#[trigger] targets@[q] as int, id as int);
                        self.lemma_reaches_edge(targets@[q] as int, id as int, k as int);
                        assert(self.needed(targets@, src as int));
                    }
                    marks.set(src, true);
                    k = k + 1;
                }
            }
            i = i - 1;
        }
        let mut r: Vec<usize> = Vec::new();
        let mut m: usize = 0;
        while m < n
            invariant
                0 <= m <= n,
                marks@.len() == n,
                n == self.len(),
                forall|a: int, b: int| 0 <= a < b < r@.len() ==> r@[a] < r@[b],
                forall|a: int| 0 <= a < r@.len() ==> (#[trigger] r@[a]) < m,
                forall|a: int|
                    0 <= a < r@.len() ==> {
                        &&& self.is_computed((#[trigger] r@[a]) as int)
                        &&& marks@[r@[a] as int]
                    },
                forall|q: int| 0 <= q < m && self.is_computed(q) && marks@[q] ==> #[trigger] r@.contains(q as usize),
            decreases n - m,
        {
            if marks[m] && self.nodes[m].source.is_computed_exec() {
                let ghost r0 = r@;
                r.push(m);
                proof {
                    assert(r@[r@.len() - 1] == m);
                    assert forall|q: int| 0 <= q <= m && self.is_computed(q) && marks@[q] implies #[trigger] r@.contains(
                        q as usize) by {
                        if q < m {
                            assert(r0.contains(q as usize));
                            let a = choose|a: int| 0 <= a < r0.len() && r0[a] == q as usize;
                            assert(r@[a] == q as usize);
                        }
                    }
                }
            }
            m = m + 1;
        }
        proof {
            assert forall|q: int|
                0 <= q < self.len() && self.is_computed(q) && self.needed(targets@, q) implies #[trigger] r@.contains(
                q as usize) by {
                let k = choose|k: int| 0 <= k < targets@.len() && self.reaches(#[trigger] targets@[k] as int, q);
                self.lemma_closed_reaches(marks@, targets@[k] as int, q);
            }
        }
        r
    }

    pub fn num_nodes(&self) -> (r: usize)
        ensures
            r == self.len(),
    {
        self.nodes.len()
    }
}

} // verus!
