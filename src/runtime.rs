use vstd::prelude::*;

use crate::graph::{Edge, Graph, Source};
use crate::op::{ArrRepr, Malformed, Op, OpError};

verus! {

/// Links a placeholder to its value for one evaluation.
pub struct Feed<A> {
    /// The id of the placeholder node.
    pub placeholder_id: usize,
    /// The value it takes.
    pub value: A,
    /// The shape of `value`, checked against the placeholder's declared shape.
    pub shape: Vec<usize>,
}

impl<A> Feed<A> {
    pub fn new(placeholder_id: usize, value: A, shape: Vec<usize>) -> (r: Self)
        ensures
            r.placeholder_id == placeholder_id,
            r.value == value,
            r.shape@ == shape@,
    {
        Feed { placeholder_id, value, shape }
    }
}

/// A shape fits a declared shape: same rank, and equal dimensions where the
/// declared one is not a wildcard (negative).
pub open spec fn shape_fits(declared: Seq<isize>, actual: Seq<usize>) -> bool {
    &&& declared.len() == actual.len()
    &&& forall|i: int| 0 <= i < declared.len() ==> (#[trigger] declared[i]) < 0 || declared[i] == actual[i]
}

/// What the ops answered, node by node.
pub type Outcomes<A> = spec_fn(int) -> Seq<Option<Result<ArrRepr<A>, OpError>>>;

/// A node's result: one entry per output slot, `None` for an empty slot.
pub type NodeResult<A> = Result<Seq<Option<A>>, OpError>;

/// `i` is the first feed for placeholder `id`.
pub open spec fn is_first_feed<A>(feeds: Seq<Feed<A>>, id: int, i: int) -> bool {
    &&& 0 <= i < feeds.len()
    &&& feeds[i].placeholder_id == id
    &&& forall|j: int| 0 <= j < i ==> (#[trigger] feeds[j]).placeholder_id != id
}

pub open spec fn has_feed<A>(feeds: Seq<Feed<A>>, id: int) -> bool {
    exists|i: int| 0 <= i < feeds.len() && (#[trigger] feeds[i]).placeholder_id == id
}

/// The value that the first feed for `id` gives.
pub open spec fn fed_value<A>(feeds: Seq<Feed<A>>, id: int) -> A {
    feeds[choose|i: int| is_first_feed(feeds, id, i)].value
}

/// The first `k` output slots of an op's answer, stored in order; the first
/// error met is the answer's error.
pub open spec fn install_prefix<A>(ys: Seq<Option<Result<ArrRepr<A>, OpError>>>, k: int) -> NodeResult<A>
    decreases k,
{
    if k <= 0 {
        Ok(seq![])
    } else {
        match install_prefix(ys, k - 1) {
            Err(e) => Err(e),
            Ok(vs) => match ys[k - 1] {
                None => Ok(vs.push(None)),
                Some(Ok(a)) => Ok(vs.push(Some(a.value()))),
                Some(Err(e)) => Err(e),
            },
        }
    }
}

/// Once the stored prefix of an answer meets an error, longer prefixes keep it.
pub proof fn lemma_install_err_stays<A>(ys: Seq<Option<Result<ArrRepr<A>, OpError>>>, k1: int, k2: int)
    requires
        k1 <= k2,
        install_prefix(ys, k1) is Err,
    ensures
        install_prefix(ys, k2) == install_prefix(ys, k1),
    decreases k2 - k1,
{
    if k1 < k2 {
        lemma_install_err_stays(ys, k1, k2 - 1);
    }
}

/// The result of a node whose op answered `ys` on inputs `ins`: an answer
/// with no slot is malformed, and a delegation makes input `to` the single output.
pub open spec fn op_result<A>(ys: Seq<Option<Result<ArrRepr<A>, OpError>>>, ins: Seq<A>) -> NodeResult<A> {
    if ys.len() == 0 {
        Err(OpError::Malformed(Malformed::NoOutputs))
    } else {
        match install_prefix(ys, ys.len() as int) {
            Err(OpError::Delegate { to }) => if to < ins.len() {
                Ok(seq![Some(ins[to as int])])
            } else {
                Err(OpError::Malformed(Malformed::DelegateOutOfRange))
            },
            r => r,
        }
    }
}

impl<A, O> Graph<A, O> {
    /// The values of the first `k` inputs of node `n`, or the error of the
    /// first input that has none.
    pub open spec fn gather(&self, feeds: Seq<Feed<A>>, outs: Outcomes<A>, n: int, k: int) -> Result<Seq<A>, OpError>
        decreases n, k,
    {
        if k <= 0 || n < 0 || k > self.edges(n).len() {
            Ok(seq![])
        } else {
            match self.gather(feeds, outs, n, k - 1) {
                Err(e) => Err(e),
                Ok(vs) => {
                    let e = self.edges(n)[k - 1];
                    if e.id >= n {
                        Err(OpError::Malformed(Malformed::EmptyInput))
                    } else {
                        match self.input_value(feeds, outs, e) {
                            Err(x) => Err(x),
                            Ok(v) => Ok(vs.push(v)),
                        }
                    }
                }
            }
        }
    }

    /// The value that edge `e` reads.
    pub open spec fn input_value(&self, feeds: Seq<Feed<A>>, outs: Outcomes<A>, e: Edge) -> Result<A, OpError>
        decreases e.id, self.edges(e.id as int).len() + 2,
    {
        match self.source(e.id as int) {
            Source::Placeholder => Ok(fed_value(feeds, e.id as int)),
            Source::Variable(a) => Ok(a),
            Source::Constant(a) => Ok(a),
            Source::Computed(_) => match self.node_res(feeds, outs, e.id as int) {
                Err(x) => Err(x),
                Ok(slots) => if e.input_index < slots.len() && slots[e.input_index as int] is Some {
                    Ok(slots[e.input_index as int]->0)
                } else {
                    Err(OpError::Malformed(Malformed::EmptyInput))
                },
            },
        }
    }

    /// The result of computed node `n`, given what each op answered.
    pub open spec fn node_res(&self, feeds: Seq<Feed<A>>, outs: Outcomes<A>, n: int) -> NodeResult<A>
        decreases n, self.edges(n).len() + 1,
    {
        if n < 0 {
            Err(OpError::Malformed(Malformed::EmptyInput))
        } else {
            match self.gather(feeds, outs, n, self.edges(n).len() as int) {
                Err(e) => Err(e),
                Ok(ins) => op_result(outs(n), ins),
            }
        }
    }
}

impl<A, O> Graph<A, O> {
    /// A node's result depends only on what the ops of the nodes it reaches answered.
    pub proof fn lemma_frame(&self, feeds: Seq<Feed<A>>, o1: Outcomes<A>, o2: Outcomes<A>, n: int)
        requires
            self.wf(),
            0 <= n < self.len(),
            forall|m: int| self.reaches(n, m) ==> o1(m) == o2(m),
        ensures
            self.node_res(feeds, o1, n) == self.node_res(feeds, o2, n),
        decreases n, self.edges(n).len() + 1,
    {
        self.lemma_frame_gather(feeds, o1, o2, n, self.edges(n).len() as int);
        assert(self.reaches(n, n));
    }

    pub proof fn lemma_frame_gather(&self, feeds: Seq<Feed<A>>, o1: Outcomes<A>, o2: Outcomes<A>, n: int, k: int)
        requires
            self.wf(),
            0 <= n < self.len(),
            0 <= k <= self.edges(n).len(),
            forall|m: int| self.reaches(n, m) && m != n ==> o1(m) == o2(m),
        ensures
            self.gather(feeds, o1, n, k) == self.gather(feeds, o2, n, k),
        decreases n, k,
    {
        if k > 0 {
            self.lemma_frame_gather(feeds, o1, o2, n, k - 1);
            let e = self.edges(n)[k - 1];
            let s = e.id as int;
            assert(s < n);
            if self.source(s) is Computed {
                self.lemma_reaches_input(n, k - 1);
                assert forall|m: int| self.reaches(s, m) implies o1(m) == o2(m) by {
                    self.lemma_reaches_trans(n, s, m);
                    self.lemma_reaches_earlier(s, m);
                }
                self.lemma_frame(feeds, o1, o2, s);
            }
            assert(self.input_value(feeds, o1, e) == self.input_value(feeds, o2, e));
        }
    }
}

/// Gathers targets and feeds, then evaluates them in one batch.
pub struct Eval<'g, 'f, A, O> {
    pub scope: &'g Graph<A, O>,
    pub buf: Vec<usize>,
    pub feeds: Option<&'f Vec<Feed<A>>>,
}

impl<'g, 'f, A, O> Eval<'g, 'f, A, O> {
    /// The feeds the batch will use: none until `feed` is called.
    pub open spec fn feed_seq(&self) -> Seq<Feed<A>> {
        match self.feeds {
            Some(f) => f@,
            None => seq![],
        }
    }

    /// Starts an empty batch on `scope`.
    pub fn new(scope: &'g Graph<A, O>) -> (r: Self)
        ensures
            r.scope == scope,
            r.buf@ == Seq::<usize>::empty(),
            r.feeds is None,
    {
        Eval { feeds: None, scope, buf: Vec::new() }
    }

    /// Appends a target to the back of the batch.
    pub fn push(&mut self, x: usize) -> (r: &mut Self)
        ensures
            r.scope == old(self).scope,
            r.buf@ == old(self).buf@.push(x),
            r.feeds == old(self).feeds,
            *final(self) == *final(r),
    {
        self.buf.push(x);
        self
    }

    /// Sets the feeds of the batch, replacing any given before.
    pub fn feed(&mut self, feeds: &'f Vec<Feed<A>>) -> (r: &mut Self)
        ensures
            r.scope == old(self).scope,
            r.buf@ == old(self).buf@,
            r.feeds == Some(feeds),
            *final(self) == *final(r),
    {
        self.feeds = Some(feeds);
        self
    }

    /// Appends the targets `xs`, in order, to the back of the batch.
    pub fn extend(&mut self, xs: &Vec<usize>) -> (r: &mut Self)
        ensures
            r.scope == old(self).scope,
            r.buf@ == old(self).buf@ + xs@,
            r.feeds == old(self).feeds,
            *final(self) == *final(r),
    {
        let mut i: usize = 0;
        while i < xs.len()
            invariant
                0 <= i <= xs@.len(),
                self.scope == old(self).scope,
                self.feeds == old(self).feeds,
                self.buf@ == old(self).buf@ + xs@.subrange(0, i as int),
            decreases xs@.len() - i,
        {
            self.buf.push(xs[i]);
            i = i + 1;
            proof {
                assert(xs@.subrange(0, i as int) == xs@.subrange(0, i - 1).push(xs@[i - 1]));
            }
        }
        proof {
            assert(xs@.subrange(0, xs@.len() as int) == xs@);
        }
        self
    }
}

/// Why a target has no value.
#[derive(Debug, PartialEq, Eq)]
pub enum EvalError {
    /// The target's op, or an op it depends on, failed.
    OpError(OpError),
    /// The target's primary output slot is empty.
    Empty,
}

impl Clone for EvalError {
    fn clone(&self) -> (r: Self)
        ensures
            r == *self,
    {
        match self {
            EvalError::OpError(e) => EvalError::OpError(e.clone()),
            EvalError::Empty => EvalError::Empty,
        }
    }
}

#[derive(Debug, Clone, Copy, PartialEq, Eq, Structural)]
enum ValueType {
    /// An array in the owned bucket of the storage.
    Owned,
    /// An array in the view bucket of the storage.
    View,
    /// An output slot that carries nothing.
    Empty,
    /// The value of a feed, aliased.
    Fed,
    /// The array of a variable or constant node, aliased.
    Persistent,
}

/// A handle to one value of the current evaluation.
#[derive(Debug, Clone, Copy, PartialEq, Eq, Structural)]
struct ValueInfo {
    ty: ValueType,
    key: usize,
}

impl ValueInfo {
    fn new(ty: ValueType, key: usize) -> (r: Self)
        ensures
            r.ty == ty,
            r.key == key,
    {
        ValueInfo { ty, key }
    }
}

/// The outputs produced during one evaluation, in two buckets.
struct OutputStorage<A> {
    owned: Vec<Option<A>>,
    views: Vec<A>,
}

impl<A> OutputStorage<A> {
    fn new() -> (r: Self)
        ensures
            r.owned@.len() == 0,
            r.views@.len() == 0,
    {
        OutputStorage { owned: Vec::new(), views: Vec::new() }
    }

    /// Every owned entry is still in place.
    spec fn full(&self) -> bool {
        forall|k: int| 0 <= k < self.owned@.len() ==> (#[trigger] self.owned@[k]) is Some
    }

    /// `self` holds every entry of `prev` at the same key.
    spec fn extends(&self, prev: &Self) -> bool {
        &&& prev.owned@.len() <= self.owned@.len()
        &&& prev.views@.len() <= self.views@.len()
        &&& forall|k: int| 0 <= k < prev.owned@.len() ==> self.owned@[k] == #[trigger] prev.owned@[k]
        &&& forall|k: int| 0 <= k < prev.views@.len() ==> self.views@[k] == #[trigger] prev.views@[k]
    }
}

impl<A, O> Graph<A, O> {
    spec fn vi_valid(&self, feeds: Seq<Feed<A>>, st: &OutputStorage<A>, vi: ValueInfo) -> bool {
        match vi.ty {
            ValueType::Owned => vi.key < st.owned@.len() && st.owned@[vi.key as int] is Some,
            ValueType::View => vi.key < st.views@.len(),
            ValueType::Empty => true,
            ValueType::Fed => vi.key < feeds.len(),
            ValueType::Persistent => vi.key < self.len() && self.source(vi.key as int).is_persistent(),
        }
    }

    spec fn resolve(&self, feeds: Seq<Feed<A>>, st: &OutputStorage<A>, vi: ValueInfo) -> Option<A> {
        match vi.ty {
            ValueType::Owned => st.owned@[vi.key as int],
            ValueType::View => Some(st.views@[vi.key as int]),
            ValueType::Empty => None,
            ValueType::Fed => Some(feeds[vi.key as int].value),
            ValueType::Persistent => Some(self.source(vi.key as int).persistent_value()),
        }
    }

    /// `vis` stands for the output slots `slots`.
    spec fn slots_rep(&self, feeds: Seq<Feed<A>>, st: &OutputStorage<A>, vis: Seq<ValueInfo>, slots: Seq<Option<A>>) -> bool {
        &&& vis.len() == slots.len()
        &&& forall|j: int|
            0 <= j < vis.len() ==> self.vi_valid(feeds, st, #[trigger] vis[j]) && self.resolve(feeds, st, vis[j])
                == slots[j]
    }

    /// The recorded entry `r` stands for the node result `nr`.
    spec fn represents(&self, feeds: Seq<Feed<A>>, st: &OutputStorage<A>, r: Result<Vec<ValueInfo>, OpError>, nr: NodeResult<A>) -> bool {
        match r {
            Err(a) => nr == Err::<Seq<Option<A>>, OpError>(a),
            Ok(vis) => nr is Ok && self.slots_rep(feeds, st, vis@, nr->Ok_0),
        }
    }

    proof fn lemma_extends_rep(&self, feeds: Seq<Feed<A>>, st0: &OutputStorage<A>, st1: &OutputStorage<A>, vis: Seq<ValueInfo>, slots: Seq<Option<A>>)
        requires
            self.slots_rep(feeds, st0, vis, slots),
            st1.extends(st0),
        ensures
            self.slots_rep(feeds, st1, vis, slots),
    {
        assert forall|j: int| 0 <= j < vis.len() implies self.vi_valid(feeds, st1, #[trigger] vis[j]) && self.resolve(
            feeds,
            st1,
            vis[j],
        ) == slots[j] by {
            assert(self.vi_valid(feeds, st0, vis[j]));
        }
    }
}

/// The arrays that the first `k` slots of an answer put in the owned bucket, in order.
spec fn owned_outputs<A>(ys: Seq<Option<Result<ArrRepr<A>, OpError>>>, k: int) -> Seq<Option<A>>
    decreases k,
{
    if k <= 0 {
        seq![]
    } else {
        owned_outputs(ys, k - 1) + match ys[k - 1] {
            Some(Ok(ArrRepr::Owned(a))) => seq![Some(a)],
            _ => Seq::<Option<A>>::empty(),
        }
    }
}

/// The arrays that the first `k` slots of an answer put in the view bucket, in order.
spec fn view_outputs<A>(ys: Seq<Option<Result<ArrRepr<A>, OpError>>>, k: int) -> Seq<A>
    decreases k,
{
    if k <= 0 {
        seq![]
    } else {
        view_outputs(ys, k - 1) + match ys[k - 1] {
            Some(Ok(ArrRepr::View(v))) => seq![v],
            _ => Seq::<A>::empty(),
        }
    }
}

proof fn lemma_outputs_grow<A>(ys: Seq<Option<Result<ArrRepr<A>, OpError>>>, i: int, j: int)
    requires
        0 <= i <= j,
    ensures
        owned_outputs(ys, i).len() <= owned_outputs(ys, j).len(),
        view_outputs(ys, i).len() <= view_outputs(ys, j).len(),
    decreases j - i,
{
    if i < j {
        lemma_outputs_grow(ys, i, j - 1);
    }
}

/// The handle that slot `j` of answer `ys` gets when the buckets held
/// `owned_len` and `views_len` entries before the answer was stored.
spec fn slot_handle<A>(ys: Seq<Option<Result<ArrRepr<A>, OpError>>>, j: int, owned_len: int, views_len: int) -> ValueInfo {
    match ys[j] {
        Some(Ok(ArrRepr::Owned(_))) => ValueInfo { ty: ValueType::Owned, key: (owned_len + owned_outputs(ys, j).len()) as usize },
        Some(Ok(ArrRepr::View(_))) => ValueInfo { ty: ValueType::View, key: (views_len + view_outputs(ys, j).len()) as usize },
        _ => ValueInfo { ty: ValueType::Empty, key: 0 },
    }
}

/// Stores the outputs of one op call and returns their handles, slot by slot;
/// when a slot holds an error, the first such error is returned and nothing
/// is stored.
fn install_compute_results<A>(results: Vec<Option<Result<ArrRepr<A>, OpError>>>, storage: &mut OutputStorage<A>) -> (r: Result<Vec<ValueInfo>, OpError>)
    requires
        old(storage).full(),
    ensures
        final(storage).full(),
        final(storage).extends(old(storage)),
        r is Err ==> *final(storage) == *old(storage),
        r is Ok ==> {
            &&& final(storage).owned@ == old(storage).owned@ + owned_outputs(results@, results@.len() as int)
            &&& final(storage).views@ == old(storage).views@ + view_outputs(results@, results@.len() as int)
        },
        r matches Ok(vis) ==> {
            &&& vis@.len() == results@.len()
            &&& forall|j: int|
                0 <= j < vis@.len() ==> #[trigger] vis@[j] == slot_handle(
                    results@,
                    j,
                    old(storage).owned@.len() as int,
                    old(storage).views@.len() as int,
                ) && match results@[j] {
                    Some(Ok(ArrRepr::Owned(a))) => final(storage).owned@[vis@[j].key as int] == Some(a),
                    Some(Ok(ArrRepr::View(v))) => final(storage).views@[vis@[j].key as int] == v,
                    Some(Err(_)) => false,
                    None => true,
                }
            &&& forall|a: int, b: int|
                0 <= a < b < vis@.len() && !(vis@[a].ty is Empty) && !(vis@[b].ty is Empty) ==> vis@[a] != vis@[b]
        },
        match (r, install_prefix(results@, results@.len() as int)) {
            (Err(a), Err(b)) => a == b,
            (Ok(vis), Ok(slots)) => {
                &&& vis@.len() == slots.len()
                &&& forall|j: int|
                    0 <= j < vis@.len() ==> {
                        &&& (#[trigger] vis@[j]).ty is Owned || vis@[j].ty is View || vis@[j].ty is Empty
                        &&& vis@[j].ty is Owned ==> vis@[j].key < final(storage).owned@.len()
                            && final(storage).owned@[vis@[j].key as int] == slots[j]
                        &&& vis@[j].ty is View ==> vis@[j].key < final(storage).views@.len()
                            && Some(final(storage).views@[vis@[j].key as int]) == slots[j]
                        &&& vis@[j].ty is Empty ==> slots[j] is None
                    }
            },
            _ => false,
        },
{
    let total = results.len();
    let ghost ys0 = results@;
    let ghost st0 = *storage;
    let mut k: usize = 0;
    while k < total
        invariant
            0 <= k <= total,
            ys0.len() == total,
            ys0 == results@,
            install_prefix(ys0, k as int) is Ok,
            st0 == *old(storage),
            *storage == st0,
            st0.full(),
        decreases total - k,
    {
        match &results[k] {
            Some(Err(e)) => {
                proof {
                    assert(install_prefix(ys0, k + 1) == Err::<Seq<Option<A>>, OpError>(*e));
                    lemma_install_err_stays(ys0, k + 1, ys0.len() as int);
                }
                return Err(e.clone());
            },
            _ => {},
        }
        k = k + 1;
    }
    let mut rest = results;
    let mut value_info_list: Vec<ValueInfo> = Vec::new();
    let mut i: usize = 0;
    while rest.len() > 0
        invariant
            rest@ == ys0.subrange(i as int, ys0.len() as int),
            0 <= i <= ys0.len(),
            ys0.len() == total,
            ys0 == results@,
            st0 == *old(storage),
            install_prefix(ys0, total as int) is Ok,
            storage.full(),
            storage.owned@ == st0.owned@ + owned_outputs(ys0, i as int),
            storage.views@ == st0.views@ + view_outputs(ys0, i as int),
            install_prefix(ys0, i as int) is Ok,
            ({
                let slots = install_prefix(ys0, i as int)->Ok_0;
                &&& value_info_list@.len() == slots.len()
                &&& value_info_list@.len() == i
                &&& forall|j: int|
                    0 <= j < value_info_list@.len() ==> {
                        &&& #[trigger] value_info_list@[j] == slot_handle(
                            ys0,
                            j,
                            st0.owned@.len() as int,
                            st0.views@.len() as int,
                        )
                        &&& match ys0[j] {
                            Some(Ok(ArrRepr::Owned(a))) => storage.owned@[value_info_list@[j].key as int] == Some(a),
                            Some(Ok(ArrRepr::View(v))) => storage.views@[value_info_list@[j].key as int] == v,
                            Some(Err(_)) => false,
                            None => true,
                        }
                        &&& value_info_list@[j].ty is Owned ==> value_info_list@[j].key < storage.owned@.len()
                            && storage.owned@[value_info_list@[j].key as int] == slots[j]
                        &&& value_info_list@[j].ty is View ==> value_info_list@[j].key < storage.views@.len()
                            && Some(storage.views@[value_info_list@[j].key as int]) == slots[j]
                        &&& value_info_list@[j].ty is Empty ==> slots[j] is None
                    }
            }),
        decreases rest@.len(),
    {
        let y = rest.remove(0);
        proof {
            assert(y == ys0[i as int]);
            if i + 1 < total {
                lemma_install_ok_prefix(ys0, i + 1, total as int);
            }
        }
        match y {
            Some(Ok(ArrRepr::Owned(val))) => {
                storage.owned.push(Some(val));
                value_info_list.push(ValueInfo::new(ValueType::Owned, storage.owned.len() - 1));
            },
            Some(Ok(ArrRepr::View(val))) => {
                storage.views.push(val);
                value_info_list.push(ValueInfo::new(ValueType::View, storage.views.len() - 1));
            },
            Some(Err(e)) => {
                return Err(e);
            },
            None => {
                value_info_list.push(ValueInfo::new(ValueType::Empty, 0));
            },
        }
        i = i + 1;
    }
    let owned_len = storage.owned.len();
    let views_len = storage.views.len();
    proof {
        assert(ys0.subrange(i as int, ys0.len() as int).len() == 0);
        assert forall|a: int, b: int|
            0 <= a < b < value_info_list@.len() && !(value_info_list@[a].ty is Empty) && !(
            value_info_list@[b].ty is Empty) implies value_info_list@[a] != value_info_list@[b] by {
            assert(value_info_list@[a] == slot_handle(ys0, a, st0.owned@.len() as int, st0.views@.len() as int));
            assert(value_info_list@[b] == slot_handle(ys0, b, st0.owned@.len() as int, st0.views@.len() as int));
            lemma_outputs_grow(ys0, a + 1, b);
            lemma_outputs_grow(ys0, b, total as int);
            assert(owned_outputs(ys0, a + 1).len() == owned_outputs(ys0, a).len() + (if ys0[a] matches Some(
                Ok(ArrRepr::Owned(_)),
            ) {
                1int
            } else {
                0int
            }));
            assert(view_outputs(ys0, a + 1).len() == view_outputs(ys0, a).len() + (if ys0[a] matches Some(
                Ok(ArrRepr::View(_)),
            ) {
                1int
            } else {
                0int
            }));
            assert(storage.owned@.len() == owned_len);
            assert(storage.views@.len() == views_len);
        }
    }
    Ok(value_info_list)
}

/// A prefix of an answer without errors has no errors.
proof fn lemma_install_ok_prefix<A>(ys: Seq<Option<Result<ArrRepr<A>, OpError>>>, k1: int, k2: int)
    requires
        k1 <= k2,
        install_prefix(ys, k2) is Ok,
    ensures
        install_prefix(ys, k1) is Ok,
{
    if install_prefix(ys, k1) is Err {
        lemma_install_err_stays(ys, k1, k2);
    }
}

impl<A, O> Graph<A, O> {
    /// Every feed names a node of the graph, and fits the shape it declares, if any.
    pub open spec fn feeds_valid(&self, feeds: Seq<Feed<A>>) -> bool {
        forall|i: int|
            0 <= i < feeds.len() ==> {
                &&& (#[trigger] feeds[i]).placeholder_id < self.len()
                &&& self.nodes@[feeds[i].placeholder_id as int].placeholder_shape matches Some(d) ==> shape_fits(
                    d@,
                    feeds[i].shape@,
                )
            }
    }
}

fn shape_fits_exec(declared: &Vec<isize>, actual: &Vec<usize>) -> (r: bool)
    ensures
        r == shape_fits(declared@, actual@),
{
    if declared.len() != actual.len() {
        return false;
    }
    let mut i: usize = 0;
    while i < declared.len()
        invariant
            0 <= i <= declared@.len(),
            declared@.len() == actual@.len(),
            forall|j: int| 0 <= j < i ==> (#[trigger] declared@[j]) < 0 || declared@[j] == actual@[j],
        decreases declared@.len() - i,
    {
        let d = declared[i];
        if d >= 0 && d as usize != actual[i] {
            return false;
        }
        i = i + 1;
    }
    true
}

/// Checks every feed against the graph before evaluation.
pub fn validate_feed_shapes<A, O>(feeds: &Vec<Feed<A>>, g: &Graph<A, O>) -> (r: bool)
    ensures
        r == g.feeds_valid(feeds@),
{
    let mut i: usize = 0;
    while i < feeds.len()
        invariant
            0 <= i <= feeds@.len(),
            forall|j: int|
                0 <= j < i ==> {
                    &&& (#[trigger] feeds@[j]).placeholder_id < g.len()
                    &&& g.nodes@[feeds@[j].placeholder_id as int].placeholder_shape matches Some(d) ==> shape_fits(
                        d@,
                        feeds@[j].shape@,
                    )
                },
        decreases feeds@.len() - i,
    {
        let id = feeds[i].placeholder_id;
        if id >= g.nodes.len() {
            return false;
        }
        match &g.nodes[id].placeholder_shape {
            Some(d) => {
                if !shape_fits_exec(d, &feeds[i].shape) {
                    return false;
                }
            },
            None => {},
        }
        i = i + 1;
    }
    true
}

/// The position of the first feed for placeholder `in_node_id`.
fn retrieve_feed<A>(feeds: &Vec<Feed<A>>, in_node_id: usize) -> (r: usize)
    requires
        has_feed(feeds@, in_node_id as int),
    ensures
        is_first_feed(feeds@, in_node_id as int, r as int),
        fed_value(feeds@, in_node_id as int) == feeds@[r as int].value,
{
    let mut i: usize = 0;
    while i < feeds.len()
        invariant
            0 <= i <= feeds@.len(),
            has_feed(feeds@, in_node_id as int),
            forall|j: int| 0 <= j < i ==> (#[trigger] feeds@[j]).placeholder_id != in_node_id,
        decreases feeds@.len() - i,
    {
        if feeds[i].placeholder_id == in_node_id {
            proof {
                let c = choose|c: int| is_first_feed(feeds@, in_node_id as int, c);
                assert(is_first_feed(feeds@, in_node_id as int, i as int));
                if c < i {
                    assert(feeds@[c].placeholder_id != in_node_id);
                } else if c > i {
                    assert(feeds@[i as int].placeholder_id != in_node_id);
                }
            }
            return i;
        }
        i = i + 1;
    }
    proof {
        let j = choose|j: int| 0 <= j < feeds@.len() && (#[trigger] feeds@[j]).placeholder_id == in_node_id;
        assert(feeds@[j].placeholder_id != in_node_id);
    }
    0
}

/// The gathered prefix of a node's inputs keeps its first error.
pub proof fn lemma_gather_err_stays<A, O>(g: &Graph<A, O>, feeds: Seq<Feed<A>>, outs: Outcomes<A>, n: int, k1: int, k2: int)
    requires
        0 <= n,
        0 < k1 <= k2 <= g.edges(n).len(),
        g.gather(feeds, outs, n, k1) is Err,
    ensures
        g.gather(feeds, outs, n, k2) == g.gather(feeds, outs, n, k1),
    decreases k2 - k1,
{
    if k1 < k2 {
        lemma_gather_err_stays(g, feeds, outs, n, k1, k2 - 1);
    }
}

/// A reference to the value a handle stands for; `None` for an empty slot.
fn lookup<'a, A, O>(g: &'a Graph<A, O>, feeds: &'a Vec<Feed<A>>, storage: &'a OutputStorage<A>, vi: ValueInfo) -> (r: Option<&'a A>)
    requires
        g.vi_valid(feeds@, storage, vi),
    ensures
        match r {
            Some(x) => g.resolve(feeds@, storage, vi) == Some(*x),
            None => g.resolve(feeds@, storage, vi) is None,
        },
{
    match vi.ty {
        ValueType::Owned => match &storage.owned[vi.key] {
            Some(a) => Some(a),
            None => None,
        },
        ValueType::View => Some(&storage.views[vi.key]),
        ValueType::Empty => None,
        ValueType::Fed => Some(&feeds[vi.key].value),
        ValueType::Persistent => match &g.nodes[vi.key].source {
            Source::Variable(a) => Some(a),
            Source::Constant(a) => Some(a),
            _ => None,
        },
    }
}

/// The inputs of computed node `n`, in edge order, with a handle for each; or
/// the error of the first input that has no value.
fn aggregate_op_inputs<'a, A, O>(
    g: &'a Graph<A, O>,
    n: usize,
    node_info_map: &Vec<Option<Result<Vec<ValueInfo>, OpError>>>,
    feeds: &'a Vec<Feed<A>>,
    storage: &'a OutputStorage<A>,
    Ghost(outs): Ghost<Outcomes<A>>,
) -> (r: Result<(Vec<&'a A>, Vec<ValueInfo>), OpError>)
    requires
        g.wf(),
        n < g.len(),
        node_info_map@.len() == g.len(),
        forall|j: int|
            0 <= j < g.edges(n as int).len() ==> {
                let s = (#[trigger] g.edges(n as int)[j]).id as int;
                &&& g.source(s) is Computed ==> node_info_map@[s] is Some && g.represents(
                    feeds@,
                    storage,
                    node_info_map@[s]->0,
                    g.node_res(feeds@, outs, s),
                )
                &&& g.source(s) is Placeholder ==> has_feed(feeds@, s)
            },
    ensures
        match (r, g.gather(feeds@, outs, n as int, g.edges(n as int).len() as int)) {
            (Err(a), Err(b)) => a == b,
            (Ok(p), Ok(ins)) => {
                &&& p.0@.len() == ins.len()
                &&& g.slots_rep(feeds@, storage, p.1@, ins.map_values(|v: A| Some(v)))
                &&& forall|j: int| 0 <= j < ins.len() ==> *(#[trigger] p.0@[j]) == ins[j]
            },
            _ => false,
        },
{
    let edges = &g.nodes[n].in_edges;
    let mut xs: Vec<&'a A> = Vec::new();
    let mut vis: Vec<ValueInfo> = Vec::new();
    let mut j: usize = 0;
    while j < edges.len()
        invariant
            0 <= j <= edges@.len(),
            edges@ == g.edges(n as int),
            g.wf(),
            n < g.len(),
            node_info_map@.len() == g.len(),
            forall|q: int|
                0 <= q < g.edges(n as int).len() ==> {
                    let s = (#[trigger] g.edges(n as int)[q]).id as int;
                    &&& g.source(s) is Computed ==> node_info_map@[s] is Some && g.represents(
                        feeds@,
                        storage,
                        node_info_map@[s]->0,
                        g.node_res(feeds@, outs, s),
                    )
                    &&& g.source(s) is Placeholder ==> has_feed(feeds@, s)
                },
            g.gather(feeds@, outs, n as int, j as int) is Ok,
            ({
                let ins = g.gather(feeds@, outs, n as int, j as int)->Ok_0;
                &&& xs@.len() == ins.len()
                &&& g.slots_rep(feeds@, storage, vis@, ins.map_values(|v: A| Some(v)))
                &&& forall|q: int| 0 <= q < ins.len() ==> *(#[trigger] xs@[q]) == ins[q]
            }),
        decreases edges@.len() - j,
    {
        let e = edges[j];
        let s = e.id;
        proof {
            assert(g.edges(n as int)[j as int] == e);
            assert(e.id < n);
        }
        let ghost ins0 = g.gather(feeds@, outs, n as int, j as int)->Ok_0;
        let (x, vi): (&'a A, ValueInfo) = match &g.nodes[s].source {
            Source::Placeholder => {
                let i = retrieve_feed(feeds, s);
                (&feeds[i].value, ValueInfo::new(ValueType::Fed, i))
            },
            Source::Variable(a) => (a, ValueInfo::new(ValueType::Persistent, s)),
            Source::Constant(a) => (a, ValueInfo::new(ValueType::Persistent, s)),
            Source::Computed(_) => {
                match &node_info_map[s] {
                    Some(Ok(list)) => {
                        let ghost slots = g.node_res(feeds@, outs, s as int)->Ok_0;
                        proof {
                            assert(g.slots_rep(feeds@, storage, list@, slots));
                        }
                        if e.input_index < list.len() {
                            let vi = list[e.input_index];
                            proof {
                                assert(g.vi_valid(feeds@, storage, list@[e.input_index as int]));
                                assert(g.resolve(feeds@, storage, vi) == slots[e.input_index as int]);
                            }
                            match lookup(g, feeds, storage, vi) {
                                Some(x) => {
                                    proof {
                                        assert(g.input_value(feeds@, outs, e) == Ok::<A, OpError>(*x));
                                    }
                                    (x, vi)
                                },
                                None => {
                                    proof {
                                        assert(g.gather(feeds@, outs, n as int, j as int + 1)
                                            == Err::<Seq<A>, OpError>(OpError::Malformed(Malformed::EmptyInput)));
                                        lemma_gather_err_stays(g, feeds@, outs, n as int, j as int + 1, edges@.len() as int);
                                    }
                                    return Err(OpError::Malformed(Malformed::EmptyInput));
                                },
                            }
                        } else {
                            proof {
                                assert(g.gather(feeds@, outs, n as int, j as int + 1)
                                    == Err::<Seq<A>, OpError>(OpError::Malformed(Malformed::EmptyInput)));
                                lemma_gather_err_stays(g, feeds@, outs, n as int, j as int + 1, edges@.len() as int);
                            }
                            return Err(OpError::Malformed(Malformed::EmptyInput));
                        }
                    },
                    Some(Err(e)) => {
                        proof {
                            assert(g.gather(feeds@, outs, n as int, j as int + 1) == Err::<Seq<A>, OpError>(*e));
                            lemma_gather_err_stays(g, feeds@, outs, n as int, j as int + 1, edges@.len() as int);
                        }
                        return Err(e.clone());
                    },
                    None => {
                        return Err(OpError::Malformed(Malformed::EmptyInput));
                    },
                }
            },
        };
        xs.push(x);
        vis.push(vi);
        proof {
            let ins1 = g.gather(feeds@, outs, n as int, j as int + 1)->Ok_0;
            assert(ins1 == ins0.push(*x));
            assert(ins1.map_values(|v: A| Some(v)) =~= ins0.map_values(|v: A| Some(v)).push(Some(*x)));
        }
        j = j + 1;
    }
    Ok((xs, vis))
}

impl<A: Clone, O> Graph<A, O> {
    /// `r` is what evaluating target `t` delivers: a copy of a persistent
    /// array or of a feed, or the primary output of a computed node, its
    /// error, or `Empty` for an empty primary slot.
    pub open spec fn delivered(&self, feeds: Seq<Feed<A>>, outs: Outcomes<A>, t: int, r: Result<A, EvalError>) -> bool {
        match self.source(t) {
            Source::Placeholder => r is Ok && cloned(fed_value(feeds, t), r->Ok_0),
            Source::Variable(a) => r is Ok && cloned(a, r->Ok_0),
            Source::Constant(a) => r is Ok && cloned(a, r->Ok_0),
            Source::Computed(_) => match self.node_res(feeds, outs, t) {
                Err(e) => r == Err::<A, EvalError>(EvalError::OpError(e)),
                Ok(slots) => if slots.len() > 0 && slots[0] is Some {
                    r is Ok && cloned(slots[0]->0, r->Ok_0)
                } else {
                    r == Err::<A, EvalError>(EvalError::Empty)
                },
            },
        }
    }
}

/// `ys` is an answer that `op` gave when called on inputs `ins`.
pub open spec fn op_answered<A, O: Op<A>>(op: O, ins: Seq<A>, ys: Seq<Option<Result<ArrRepr<A>, OpError>>>) -> bool {
    exists|xs: Vec<&A>, r: Vec<Option<Result<ArrRepr<A>, OpError>>>|
        #[trigger] call_ensures(<O as Op<A>>::compute, (&op, &xs), r) && r@ == ys && xs@.len() == ins.len()
            && forall|j: int| 0 <= j < ins.len() ==> *(#[trigger] xs@[j]) == ins[j]
}

impl<A, O: Op<A>> Graph<A, O> {
    /// Every op that ran was called on the inputs the graph gives it, and
    /// `outs` records what it answered.
    pub open spec fn answers_recorded(&self, feeds: Seq<Feed<A>>, outs: Outcomes<A>, targets: Seq<usize>) -> bool {
        forall|m: int|
            0 <= m < self.len() && self.needed(targets, m) && self.is_computed(m) && #[trigger] self.gather(
                feeds,
                outs,
                m,
                self.edges(m).len() as int,
            ) is Ok ==> op_answered(
                self.source(m).op(),
                self.gather(feeds, outs, m, self.edges(m).len() as int)->Ok_0,
                outs(m),
            )
    }
}

impl<A: Clone, O> Graph<A, O> {
    /// Each target gets what `delivered` says, given what the ops answered.
    pub open spec fn all_delivered(&self, feeds: Seq<Feed<A>>, outs: Outcomes<A>, targets: Seq<usize>, r: Seq<Result<A, EvalError>>) -> bool {
        &&& r.len() == targets.len()
        &&& forall|i: int| 0 <= i < targets.len() ==> self.delivered(feeds, outs, (#[trigger] targets[i]) as int, r[i])
    }
}

/// The node needs no computing now: its value comes from a feed or from its
/// own array, or it was computed already.
fn would_not_visit<A, O>(g: &Graph<A, O>, id: usize, info_map: &Vec<Option<Result<Vec<ValueInfo>, OpError>>>) -> (r: bool)
    requires
        id < g.len(),
        info_map@.len() == g.len(),
    ensures
        r == (!(g.source(id as int) is Computed) || info_map@[id as int] is Some),
{
    !g.nodes[id].source.is_computed_exec() || info_map[id].is_some()
}

/// The handle of the primary output of a node recorded as a success.
spec fn primary(info: Seq<Option<Result<Vec<ValueInfo>, OpError>>>, t: int) -> Option<ValueInfo> {
    match info[t] {
        Some(Ok(vis)) => if vis@.len() > 0 {
            Some(vis@[0])
        } else {
            None
        },
        _ => None,
    }
}

/// Some target after position `i` has `vi` as its primary output.
fn used_later(info_map: &Vec<Option<Result<Vec<ValueInfo>, OpError>>>, targets: &Vec<usize>, i: usize, vi: ValueInfo) -> (r: bool)
    requires
        forall|k: int| 0 <= k < targets@.len() ==> (#[trigger] targets@[k]) < info_map@.len(),
    ensures
        r == exists|j: int| i < j < targets@.len() && primary(info_map@, (#[trigger] targets@[j]) as int) == Some(vi),
{
    if i >= targets.len() {
        return false;
    }
    let mut j: usize = i + 1;
    while j < targets.len()
        invariant
            i < j <= targets@.len(),
            forall|k: int| 0 <= k < targets@.len() ==> (#[trigger] targets@[k]) < info_map@.len(),
            forall|k: int| i < k < j ==> primary(info_map@, (#[trigger] targets@[k]) as int) != Some(vi),
        decreases targets@.len() - j,
    {
        match &info_map[targets[j]] {
            Some(Ok(vis)) => {
                if vis.len() > 0 && vis[0] == vi {
                    return true;
                }
            },
            _ => {},
        }
        j = j + 1;
    }
    false
}

impl<A: Clone, O: Op<A>> Graph<A, O> {
    /// `r` is what evaluating `targets` delivers when the ops answered `outs`,
    /// and each op that ran did answer so.
    pub open spec fn evaluated(&self, feeds: Seq<Feed<A>>, outs: Outcomes<A>, targets: Seq<usize>, r: Seq<Result<A, EvalError>>) -> bool {
        &&& self.all_delivered(feeds, outs, targets, r)
        &&& self.answers_recorded(feeds, outs, targets)
    }

    /// Evaluates the targets, in order, with the given feeds.
    ///
    /// Only the computed nodes that some target reaches are computed, each
    /// once, after all of its inputs. A node whose input failed fails with the
    /// same error without running its op; its op's own failure otherwise.
    pub fn eval(&self, targets: &Vec<usize>, feeds: &Vec<Feed<A>>) -> (r: Vec<Result<A, EvalError>>)
        requires
            self.wf(),
            forall|i: int| 0 <= i < targets@.len() ==> (#[trigger] targets@[i]) < self.len(),
            self.feeds_valid(feeds@),
            forall|m: int|
                0 <= m < self.len() && self.source(m) is Placeholder && self.needed(targets@, m) ==> has_feed(
                    feeds@,
                    m,
                ),
        ensures
            r@.len() == targets@.len(),
            exists|outs: Outcomes<A>| #[trigger] self.evaluated(feeds@, outs, targets@, r@),
    {
        let n = self.nodes.len();
        let sched = self.schedule(targets);
        let mut node_info_map: Vec<Option<Result<Vec<ValueInfo>, OpError>>> = Vec::new();
        while node_info_map.len() < n
            invariant
                node_info_map@.len() <= n,
                forall|m: int| 0 <= m < node_info_map@.len() ==> (#[trigger] node_info_map@[m]) is None,
            decreases n - node_info_map@.len(),
        {
            node_info_map.push(None);
        }
        let mut storage: OutputStorage<A> = OutputStorage::new();
        let ghost mut outs: Outcomes<A> = |k: int| Seq::<Option<Result<ArrRepr<A>, OpError>>>::empty();
        let mut idx: usize = 0;
        while idx < sched.len()
            invariant
                0 <= idx <= sched@.len(),
                n == self.len(),
                self.wf(),
                forall|i: int| 0 <= i < targets@.len() ==> (#[trigger] targets@[i]) < self.len(),
                forall|m: int|
                    0 <= m < self.len() && self.source(m) is Placeholder && self.needed(targets@, m) ==> has_feed(
                        feeds@,
                        m,
                    ),
                forall|a: int, b: int| 0 <= a < b < sched@.len() ==> sched@[a] < sched@[b],
                forall|a: int|
                    0 <= a < sched@.len() ==> {
                        &&& (#[trigger] sched@[a]) < self.len()
                        &&& self.is_computed(sched@[a] as int)
                        &&& self.needed(targets@, sched@[a] as int)
                    },
                forall|m: int|
                    0 <= m < self.len() && self.is_computed(m) && self.needed(targets@, m) ==> #[trigger] sched@.contains(
                        m as usize),
                node_info_map@.len() == n,
                storage.full(),
                forall|a: int| 0 <= a < idx ==> node_info_map@[(#[trigger] sched@[a]) as int] is Some,
                forall|m: int|
                    0 <= m < n && (#[trigger] node_info_map@[m]) is Some ==> {
                        &&& self.is_computed(m)
                        &&& exists|a: int| 0 <= a < idx && sched@[a] == m
                        &&& self.represents(feeds@, &storage, node_info_map@[m]->0, self.node_res(feeds@, outs, m))
                        &&& self.gather(feeds@, outs, m, self.edges(m).len() as int) is Ok ==> op_answered(
                            self.source(m).op(),
                            self.gather(feeds@, outs, m, self.edges(m).len() as int)->Ok_0,
                            outs(m),
                        )
                    },
            decreases sched@.len() - idx,
        {
            let id = sched[idx];
            if !would_not_visit(self, id, &node_info_map) {
                proof {
                    assert forall|j: int| 0 <= j < self.edges(id as int).len() implies {
                        let s = (#[trigger] self.edges(id as int)[j]).id as int;
                        &&& self.source(s) is Computed ==> node_info_map@[s] is Some && self.represents(
                            feeds@,
                            &storage,
                            node_info_map@[s]->0,
                            self.node_res(feeds@, outs, s),
                        )
                        &&& self.source(s) is Placeholder ==> has_feed(feeds@, s)
                    } by {
                        let s = self.edges(id as int)[j].id as int;
                        self.lemma_reaches_input(id as int, j);
                        let t = choose|t: int| 0 <= t < targets@.len() && self.reaches(#[trigger] targets@[t] as int, id as int);
                        self.lemma_reaches_trans(targets@[t] as int, id as int, s);
                        assert(self.needed(targets@, s));
                        if self.source(s) is Computed {
                            assert(sched@.contains(s as usize));
                            let a = choose|a: int| 0 <= a < sched@.len() && sched@[a] == s as usize;
                            if a >= idx {
                                assert(sched@[idx as int] <= sched@[a]);
                            }
                        }
                    }
                }
                let aggregated = aggregate_op_inputs(self, id, &node_info_map, feeds, &storage, Ghost(outs));
                let ghost st0 = storage;
                let ghost outs0 = outs;
                let installed: Result<Vec<ValueInfo>, OpError> = match aggregated {
                    Err(e) => Err(e),
                    Ok((xs, vis)) => {
                        let ghost ins = self.gather(feeds@, outs0, id as int, self.edges(id as int).len() as int)->Ok_0;
                        let ys = match &self.nodes[id].source {
                            Source::Computed(op) => {
                                let ys = op.compute(&xs);
                                proof {
                                    assert(op_answered(self.source(id as int).op(), ins, ys@));
                                }
                                ys
                            },
                            _ => Vec::new(),
                        };
                        proof {
                            outs = |k: int| if k == id as int { ys@ } else { outs0(k) };
                            assert(outs(id as int) == ys@);
                            assert(op_answered(self.source(id as int).op(), ins, outs(id as int)));
                        }
                        if ys.len() == 0 {
                            Err(OpError::Malformed(Malformed::NoOutputs))
                        } else {
                            match install_compute_results(ys, &mut storage) {
                                Err(OpError::Delegate { to }) => {
                                    if to < vis.len() {
                                        let mut one: Vec<ValueInfo> = Vec::new();
                                        one.push(vis[to]);
                                        Ok(one)
                                    } else {
                                        Err(OpError::Malformed(Malformed::DelegateOutOfRange))
                                    }
                                },
                                other => other,
                            }
                        }
                    },
                };
                proof {
                    assert forall|m: int| 0 <= m < n && m != id && (#[trigger] node_info_map@[m]) is Some implies
                        self.represents(feeds@, &storage, node_info_map@[m]->0, self.node_res(feeds@, outs, m))
                        && (self.gather(feeds@, outs, m, self.edges(m).len() as int) is Ok ==> op_answered(
                            self.source(m).op(),
                            self.gather(feeds@, outs, m, self.edges(m).len() as int)->Ok_0,
                            outs(m),
                        )) by {
                        let a = choose|a: int| 0 <= a < idx && sched@[a] == m;
                        assert forall|k: int| self.reaches(m, k) implies outs0(k) == outs(k) by {
                            self.lemma_reaches_earlier(m, k);
                        }
                        self.lemma_frame(feeds@, outs0, outs, m);
                        self.lemma_frame_gather(feeds@, outs0, outs, m, self.edges(m).len() as int);
                        match node_info_map@[m]->0 {
                            Ok(vis) => {
                                self.lemma_extends_rep(feeds@, &st0, &storage, vis@, self.node_res(feeds@, outs, m)->Ok_0);
                            },
                            Err(_) => {},
                        }
                    }
                    assert forall|k: int| self.reaches(id as int, k) && k != id implies outs0(k) == outs(k) by {}
                    self.lemma_frame_gather(feeds@, outs0, outs, id as int, self.edges(id as int).len() as int);
                    let len = self.edges(id as int).len() as int;
                    assert(self.gather(feeds@, outs, id as int, len) is Ok ==> op_answered(
                        self.source(id as int).op(),
                        self.gather(feeds@, outs, id as int, len)->Ok_0,
                        outs(id as int),
                    ));
                }
                node_info_map.set(id, Some(installed));
            }
            idx = idx + 1;
        }
        let ghost st_c = storage;
        let ghost info = node_info_map@;
        proof {
            assert forall|k: int| 0 <= k < targets@.len() && self.is_computed(#[trigger] targets@[k] as int) implies {
                &&& info[targets@[k] as int] is Some
                &&& self.represents(feeds@, &st_c, info[targets@[k] as int]->0, self.node_res(feeds@, outs, targets@[k] as int))
            } by {
                let t = targets@[k] as int;
                assert(self.reaches(t, t));
                assert(self.needed(targets@, t));
                assert(sched@.contains(t as usize));
                let a = choose|a: int| 0 <= a < sched@.len() && sched@[a] == t as usize;
            }
            assert forall|k: int| 0 <= k < targets@.len() && self.source(#[trigger] targets@[k] as int) is Placeholder implies
                has_feed(feeds@, targets@[k] as int) by {
                let t = targets@[k] as int;
                assert(self.reaches(t, t));
                assert(self.needed(targets@, t));
            }
        }
        let mut ret: Vec<Result<A, EvalError>> = Vec::new();
        let mut i: usize = 0;
        while i < targets.len()
            invariant
                0 <= i <= targets@.len(),
                ret@.len() == i,
                n == self.len(),
                node_info_map@ == info,
                info.len() == n,
                forall|k: int| 0 <= k < targets@.len() ==> (#[trigger] targets@[k]) < self.len(),
                forall|k: int| 0 <= k < i ==> self.delivered(feeds@, outs, (#[trigger] targets@[k]) as int, ret@[k]),
                storage.views@ == st_c.views@,
                storage.owned@.len() == st_c.owned@.len(),
                st_c.full(),
                forall|k: int| 0 <= k < targets@.len() && self.is_computed(#[trigger] targets@[k] as int) ==> {
                    &&& info[targets@[k] as int] is Some
                    &&& self.represents(feeds@, &st_c, info[targets@[k] as int]->0, self.node_res(feeds@, outs, targets@[k] as int))
                },
                forall|k: int| 0 <= k < targets@.len() && self.source(#[trigger] targets@[k] as int) is Placeholder ==>
                    has_feed(feeds@, targets@[k] as int),
                forall|k: int|
                    0 <= k < st_c.owned@.len() ==> (#[trigger] storage.owned@[k]) == st_c.owned@[k] || forall|j: int|
                        i <= j < targets@.len() ==> primary(info, (#[trigger] targets@[j]) as int) != Some(
                            ValueInfo { ty: ValueType::Owned, key: k as usize },
                        ),
            decreases targets@.len() - i,
        {
            let t = targets[i];
            proof {
                assert(self.source(targets@[i as int] as int) == self.source(t as int));
            }
            let res: Result<A, EvalError> = match &self.nodes[t].source {
                Source::Variable(a) => Ok(a.clone()),
                Source::Constant(a) => Ok(a.clone()),
                Source::Placeholder => {
                    let f = retrieve_feed(feeds, t);
                    Ok(feeds[f].value.clone())
                },
                Source::Computed(_) => {
                    match &node_info_map[t] {
                        Some(Err(e)) => Err(EvalError::OpError(e.clone())),
                        Some(Ok(vis)) => {
                            if vis.len() == 0 {
                                Err(EvalError::Empty)
                            } else {
                                let vi = vis[0];
                                proof {
                                    let slots = self.node_res(feeds@, outs, t as int)->Ok_0;
                                    assert(self.slots_rep(feeds@, &st_c, vis@, slots));
                                    assert(self.vi_valid(feeds@, &st_c, vis@[0]));
                                    assert(primary(info, targets@[i as int] as int) == Some(vi));
                                    if vi.ty is Owned {
                                        assert(storage.owned@[vi.key as int] == st_c.owned@[vi.key as int]);
                                    }
                                    assert(self.vi_valid(feeds@, &storage, vi));
                                    assert(self.resolve(feeds@, &storage, vi) == self.resolve(feeds@, &st_c, vi));
                                }
                                if vi.ty == ValueType::Owned && !used_later(&node_info_map, targets, i, vi) {
                                    let mut slot: Option<A> = None;
                                    storage.owned.set_and_swap(vi.key, &mut slot);
                                    match slot {
                                        Some(a) => Ok(a),
                                        None => Err(EvalError::Empty),
                                    }
                                } else {
                                    match lookup(self, feeds, &storage, vi) {
                                        Some(x) => Ok(x.clone()),
                                        None => Err(EvalError::Empty),
                                    }
                                }
                            }
                        },
                        None => Err(EvalError::Empty),
                    }
                },
            };
            proof {
                assert(self.delivered(feeds@, outs, t as int, res));
            }
            ret.push(res);
            i = i + 1;
        }
        proof {
            assert(self.all_delivered(feeds@, outs, targets@, ret@));
            assert forall|m: int|
                0 <= m < self.len() && self.needed(targets@, m) && self.is_computed(m) && #[trigger] self.gather(
                    feeds@,
                    outs,
                    m,
                    self.edges(m).len() as int,
                ) is Ok implies op_answered(
                self.source(m).op(),
                self.gather(feeds@, outs, m, self.edges(m).len() as int)->Ok_0,
                outs(m),
            ) by {
                assert(sched@.contains(m as usize));
                let a = choose|a: int| 0 <= a < sched@.len() && sched@[a] == m as usize;
            }
            assert(self.evaluated(feeds@, outs, targets@, ret@));
        }
        ret
    }
}

impl<'g, 'f, A: Clone, O: Op<A>> Eval<'g, 'f, A, O> {
    /// Evaluates the batch: the same as `Graph::eval` on its targets and feeds.
    pub fn run(&self) -> (r: Vec<Result<A, EvalError>>)
        requires
            self.scope.wf(),
            forall|i: int| 0 <= i < self.buf@.len() ==> (#[trigger] self.buf@[i]) < self.scope.len(),
            self.scope.feeds_valid(self.feed_seq()),
            forall|m: int|
                0 <= m < self.scope.len() && self.scope.source(m) is Placeholder && self.scope.needed(self.buf@, m)
                    ==> has_feed(self.feed_seq(), m),
        ensures
            r@.len() == self.buf@.len(),
            exists|outs: Outcomes<A>| #[trigger] self.scope.evaluated(self.feed_seq(), outs, self.buf@, r@),
    {
        match self.feeds {
            Some(f) => self.scope.eval(&self.buf, f),
            None => {
                let none: Vec<Feed<A>> = Vec::new();
                self.scope.eval(&self.buf, &none)
            },
        }
    }
}

} // verus!
