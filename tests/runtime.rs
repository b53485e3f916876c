use autograd::graph::{Edge, Graph};
use autograd::op::{ArrRepr, ComputeResults, Malformed, Op, OpError};
use autograd::ops::StopGradient;
use autograd::runtime::{validate_feed_shapes, Eval, EvalError, Feed};
use ndarray::{ArrayD, IxDyn};
use std::cell::Cell;

type Arr = ArrayD<f32>;

enum TestOp {
    Ones(Vec<usize>),
    Sigmoid,
    Double,
    Add,
    Fail,
    NoOutputs,
    EmptySlot,
    Pair,
    AliasFirst,
    Stop(StopGradient),
    DelegateTo(usize),
    Counted(Cell<usize>),
    PartlyFailed,
}

impl Op<Arr> for TestOp {
    fn name(&self) -> &str {
        match self {
            TestOp::Ones(_) => "Ones",
            TestOp::Sigmoid => "Sigmoid",
            TestOp::Double => "Double",
            TestOp::Add => "Add",
            TestOp::Fail => "Fail",
            TestOp::NoOutputs => "NoOutputs",
            TestOp::EmptySlot => "EmptySlot",
            TestOp::Pair => "Pair",
            TestOp::AliasFirst => "AliasFirst",
            TestOp::Stop(s) => Op::<Arr>::name(s),
            TestOp::DelegateTo(_) => "DelegateTo",
            TestOp::Counted(_) => "Counted",
            TestOp::PartlyFailed => "PartlyFailed",
        }
    }

    fn compute(&self, xs: &Vec<&Arr>) -> ComputeResults<Arr> {
        match self {
            TestOp::Ones(shape) => vec![Some(Ok(ArrRepr::Owned(ArrayD::ones(IxDyn(shape)))))],
            TestOp::Sigmoid => {
                vec![Some(Ok(ArrRepr::Owned(xs[0].mapv(|a| 1.0 / (1.0 + (-a).exp())))))]
            }
            TestOp::Double => vec![Some(Ok(ArrRepr::Owned(xs[0].mapv(|a| a * 2.0))))],
            TestOp::Add => vec![Some(Ok(ArrRepr::Owned(xs[0] + xs[1])))],
            TestOp::Fail => vec![Some(Err(OpError::Other("boom".to_string())))],
            TestOp::NoOutputs => vec![],
            TestOp::EmptySlot => vec![None],
            TestOp::Pair => vec![
                Some(Ok(ArrRepr::Owned(xs[0].mapv(|a| a + 1.0)))),
                Some(Ok(ArrRepr::Owned(xs[0].mapv(|a| a + 2.0)))),
            ],
            TestOp::AliasFirst => vec![Some(Ok(ArrRepr::View(xs[0].clone())))],
            TestOp::Stop(s) => s.compute(xs),
            TestOp::DelegateTo(k) => vec![Some(Err(OpError::Delegate { to: *k }))],
            TestOp::PartlyFailed => vec![
                Some(Ok(ArrRepr::Owned(xs[0].clone()))),
                None,
                Some(Err(OpError::Type("first".to_string()))),
                Some(Err(OpError::Other("second".to_string()))),
            ],
            TestOp::Counted(c) => {
                c.set(c.get() + 1);
                vec![Some(Ok(ArrRepr::Owned(xs[0].clone())))]
            }
        }
    }
}

fn edge(id: usize) -> Edge {
    Edge { id, input_index: 0, mut_usage: false }
}

fn arr1(v: &[f32]) -> Arr {
    ndarray::arr1(v).into_dyn()
}

fn op(g: &mut Graph<Arr, TestOp>, o: TestOp, inputs: &[usize]) -> usize {
    g.add_op(o, inputs.iter().map(|&i| edge(i)).collect()).unwrap()
}

#[test]
fn test_eval2() {
    let mut g: Graph<Arr, TestOp> = Graph::new();
    let a = op(&mut g, TestOp::Ones(vec![1, 1]), &[]);
    let b = op(&mut g, TestOp::Sigmoid, &[a]);
    let r = g.eval(&vec![b], &vec![]);
    let v = r[0].as_ref().unwrap();
    assert_eq!(v.shape(), &[1, 1]);
    assert!((v[[0, 0]] - 0.7310586).abs() < 1e-6);
}

#[test]
fn test_variable_eval() {
    let mut g: Graph<Arr, TestOp> = Graph::new();
    let arr = arr1(&[0., 0., 0.]);
    let v = g.variable(arr.clone());
    assert_eq!(Ok(arr.clone()), g.eval(&vec![v], &vec![]).remove(0));
    assert_eq!(Ok(arr), g.eval(&vec![v], &vec![]).remove(0));
}

#[test]
fn test_constant_eval() {
    let mut g: Graph<Arr, TestOp> = Graph::new();
    let arr = arr1(&[0., 0., 0.]);
    let c = g.constant(arr.clone());
    assert_eq!(Ok(arr), g.eval(&vec![c], &vec![]).remove(0));
}

#[test]
fn test_placeholder_eval() {
    let mut g: Graph<Arr, TestOp> = Graph::new();
    let arr: Arr = ArrayD::ones(IxDyn(&[3, 2, 1]));
    let v = g.placeholder(vec![3, 2, 1]);
    let feeds = vec![Feed::new(v, arr.clone(), vec![3, 2, 1])];
    assert!(validate_feed_shapes(&feeds, &g));
    assert_eq!(Ok(arr), g.eval(&vec![v], &feeds).remove(0));
}

#[test]
fn placeholder_feeds_computed_node() {
    let mut g: Graph<Arr, TestOp> = Graph::new();
    let x = g.placeholder(vec![-1]);
    let y = op(&mut g, TestOp::Double, &[x]);
    let feeds = vec![Feed::new(x, arr1(&[1., 2.]), vec![2])];
    assert!(validate_feed_shapes(&feeds, &g));
    assert_eq!(g.eval(&vec![y], &feeds), vec![Ok(arr1(&[2., 4.]))]);
}

#[test]
fn first_feed_wins() {
    let mut g: Graph<Arr, TestOp> = Graph::new();
    let x = g.placeholder(vec![-1]);
    let feeds = vec![Feed::new(x, arr1(&[1.]), vec![1]), Feed::new(x, arr1(&[5.]), vec![1])];
    assert_eq!(g.eval(&vec![x], &feeds), vec![Ok(arr1(&[1.]))]);
}

#[test]
fn feed_shape_validation() {
    let mut g: Graph<Arr, TestOp> = Graph::new();
    let x = g.placeholder(vec![3, -1]);
    let ok = vec![Feed::new(x, ArrayD::zeros(IxDyn(&[3, 7])), vec![3, 7])];
    assert!(validate_feed_shapes(&ok, &g));
    let wrong_dim = vec![Feed::new(x, ArrayD::zeros(IxDyn(&[2, 7])), vec![2, 7])];
    assert!(!validate_feed_shapes(&wrong_dim, &g));
    let wrong_rank = vec![Feed::new(x, ArrayD::zeros(IxDyn(&[3])), vec![3])];
    assert!(!validate_feed_shapes(&wrong_rank, &g));
    let unknown = vec![Feed::new(x + 5, ArrayD::zeros(IxDyn(&[3, 1])), vec![3, 1])];
    assert!(!validate_feed_shapes(&unknown, &g));
}

#[test]
fn each_op_runs_once_despite_fan_out() {
    let mut g: Graph<Arr, TestOp> = Graph::new();
    let c = g.constant(arr1(&[1.]));
    let shared = op(&mut g, TestOp::Counted(Cell::new(0)), &[c]);
    let left = op(&mut g, TestOp::Double, &[shared]);
    let right = op(&mut g, TestOp::Double, &[shared]);
    let sum = op(&mut g, TestOp::Add, &[left, right]);
    let r = g.eval(&vec![sum, left, shared], &vec![]);
    assert_eq!(r, vec![Ok(arr1(&[4.])), Ok(arr1(&[2.])), Ok(arr1(&[1.]))]);
    match &g.nodes[shared].source {
        autograd::graph::Source::Computed(TestOp::Counted(n)) => assert_eq!(n.get(), 1),
        _ => panic!("not the counted op"),
    }
}

#[test]
fn schedule_is_post_order_of_needed_nodes() {
    let mut g: Graph<Arr, TestOp> = Graph::new();
    let c = g.constant(arr1(&[1.]));
    let a = op(&mut g, TestOp::Double, &[c]);
    let unused = op(&mut g, TestOp::Double, &[c]);
    let b = op(&mut g, TestOp::Double, &[a]);
    assert_eq!(g.schedule(&vec![b]), vec![a, b]);
    assert_eq!(g.schedule(&vec![unused, c]), vec![unused]);
    assert_eq!(g.schedule(&vec![c]), Vec::<usize>::new());
}

#[test]
fn error_is_isolated_to_dependents() {
    let mut g: Graph<Arr, TestOp> = Graph::new();
    let c = g.constant(arr1(&[1.]));
    let bad = op(&mut g, TestOp::Fail, &[c]);
    let dependent = op(&mut g, TestOp::Double, &[bad]);
    let indirect = op(&mut g, TestOp::Add, &[c, dependent]);
    let sibling = op(&mut g, TestOp::Double, &[c]);
    let r = g.eval(&vec![dependent, sibling, indirect, bad], &vec![]);
    let boom = Err(EvalError::OpError(OpError::Other("boom".to_string())));
    assert_eq!(r[0], boom);
    assert_eq!(r[1], Ok(arr1(&[2.])));
    assert_eq!(r[2], boom);
    assert_eq!(r[3], boom);
}

#[test]
fn same_owned_target_twice_and_across_calls() {
    let mut g: Graph<Arr, TestOp> = Graph::new();
    let c = g.constant(arr1(&[3.]));
    let y = op(&mut g, TestOp::Double, &[c]);
    let first = g.eval(&vec![y, y], &vec![]);
    assert_eq!(first, vec![Ok(arr1(&[6.])), Ok(arr1(&[6.]))]);
    let second = g.eval(&vec![y, y], &vec![]);
    assert_eq!(first, second);
}

#[test]
fn stop_gradient_delegates_to_its_input() {
    let mut g: Graph<Arr, TestOp> = Graph::new();
    let x = g.placeholder(vec![2]);
    let stop = op(&mut g, TestOp::Stop(StopGradient), &[x]);
    let y = op(&mut g, TestOp::Double, &[stop]);
    let direct = op(&mut g, TestOp::Double, &[x]);
    let feeds = vec![Feed::new(x, arr1(&[1., -1.]), vec![2])];
    let r = g.eval(&vec![y, direct, stop], &feeds);
    assert_eq!(r[0], r[1]);
    assert_eq!(r[0], Ok(arr1(&[2., -2.])));
    assert_eq!(r[2], Ok(arr1(&[1., -1.])));
}

#[test]
fn delegate_to_computed_input_aliases_its_output() {
    let mut g: Graph<Arr, TestOp> = Graph::new();
    let c = g.constant(arr1(&[1.]));
    let a = op(&mut g, TestOp::Double, &[c]);
    let d = op(&mut g, TestOp::DelegateTo(1), &[c, a]);
    let r = g.eval(&vec![d, a], &vec![]);
    assert_eq!(r, vec![Ok(arr1(&[2.])), Ok(arr1(&[2.]))]);
}

#[test]
fn delegate_out_of_range_is_malformed() {
    let mut g: Graph<Arr, TestOp> = Graph::new();
    let c = g.constant(arr1(&[1.]));
    let d = op(&mut g, TestOp::DelegateTo(3), &[c]);
    assert_eq!(
        g.eval(&vec![d], &vec![]),
        vec![Err(EvalError::OpError(OpError::Malformed(Malformed::DelegateOutOfRange)))]
    );
}

#[test]
fn empty_primary_slot_gives_empty() {
    let mut g: Graph<Arr, TestOp> = Graph::new();
    let c = g.constant(arr1(&[1.]));
    let e = op(&mut g, TestOp::EmptySlot, &[c]);
    assert_eq!(g.eval(&vec![e], &vec![]), vec![Err(EvalError::Empty)]);
}

#[test]
fn reading_an_empty_slot_is_malformed() {
    let mut g: Graph<Arr, TestOp> = Graph::new();
    let c = g.constant(arr1(&[1.]));
    let e = op(&mut g, TestOp::EmptySlot, &[c]);
    let y = op(&mut g, TestOp::Double, &[e]);
    assert_eq!(
        g.eval(&vec![y], &vec![]),
        vec![Err(EvalError::OpError(OpError::Malformed(Malformed::EmptyInput)))]
    );
}

#[test]
fn op_without_outputs_is_malformed() {
    let mut g: Graph<Arr, TestOp> = Graph::new();
    let c = g.constant(arr1(&[1.]));
    let e = op(&mut g, TestOp::NoOutputs, &[c]);
    assert_eq!(
        g.eval(&vec![e], &vec![]),
        vec![Err(EvalError::OpError(OpError::Malformed(Malformed::NoOutputs)))]
    );
}

#[test]
fn second_output_is_selected_by_input_index() {
    let mut g: Graph<Arr, TestOp> = Graph::new();
    let c = g.constant(arr1(&[1.]));
    let p = op(&mut g, TestOp::Pair, &[c]);
    let second = g
        .add_op(TestOp::Double, vec![Edge { id: p, input_index: 1, mut_usage: false }])
        .unwrap();
    let out_of_range = g
        .add_op(TestOp::Double, vec![Edge { id: p, input_index: 2, mut_usage: false }])
        .unwrap();
    let r = g.eval(&vec![second, p, out_of_range], &vec![]);
    assert_eq!(r[0], Ok(arr1(&[6.])));
    assert_eq!(r[1], Ok(arr1(&[2.])));
    assert_eq!(r[2], Err(EvalError::OpError(OpError::Malformed(Malformed::EmptyInput))));
}

#[test]
fn view_outputs_are_delivered_as_copies() {
    let mut g: Graph<Arr, TestOp> = Graph::new();
    let c = g.constant(arr1(&[4., 5.]));
    let v = op(&mut g, TestOp::AliasFirst, &[c]);
    let y = op(&mut g, TestOp::Double, &[v]);
    assert_eq!(g.eval(&vec![v, y, v], &vec![]), vec![
        Ok(arr1(&[4., 5.])),
        Ok(arr1(&[8., 10.])),
        Ok(arr1(&[4., 5.]))
    ]);
}

#[test]
fn add_op_rejects_unknown_inputs() {
    let mut g: Graph<Arr, TestOp> = Graph::new();
    let c = g.constant(arr1(&[1.]));
    assert_eq!(g.add_op(TestOp::Double, vec![edge(c + 1)]), None);
    assert_eq!(g.num_nodes(), 1);
    assert_eq!(g.add_op(TestOp::Double, vec![edge(c)]), Some(1));
}

#[test]
fn eval_batch_matches_graph_eval() {
    let mut g: Graph<Arr, TestOp> = Graph::new();
    let x = g.placeholder(vec![]);
    let y = op(&mut g, TestOp::Double, &[x]);
    let z = op(&mut g, TestOp::Add, &[x, y]);
    let feeds = vec![Feed::new(x, ndarray::arr0(2.0f32).into_dyn(), vec![])];
    let mut batch = Eval::new(&g);
    batch.push(y).extend(&vec![z, x]).feed(&feeds);
    assert_eq!(batch.buf, vec![y, z, x]);
    let r = batch.run();
    assert_eq!(r, g.eval(&vec![y, z, x], &feeds));
    assert_eq!(r[1], Ok(ndarray::arr0(6.0f32).into_dyn()));
}

#[test]
fn eval_batch_without_feeds() {
    let mut g: Graph<Arr, TestOp> = Graph::new();
    let c = g.constant(arr1(&[1.]));
    let mut batch = Eval::new(&g);
    batch.push(c);
    assert_eq!(batch.run(), vec![Ok(arr1(&[1.]))]);
}

#[test]
fn writes_are_only_declared_on_variables() {
    let mut g: Graph<Arr, TestOp> = Graph::new();
    let c = g.constant(arr1(&[1.]));
    let v = g.variable(arr1(&[2.]));
    let on_constant = Edge { id: c, input_index: 0, mut_usage: true };
    assert_eq!(g.add_op(TestOp::Double, vec![on_constant]), None);
    let on_variable = Edge { id: v, input_index: 0, mut_usage: true };
    let y = g.add_op(TestOp::Double, vec![on_variable]).unwrap();
    assert_eq!(g.eval(&vec![y], &vec![]), vec![Ok(arr1(&[4.]))]);
}

#[test]
fn first_error_of_an_answer_fails_the_whole_node() {
    let mut g: Graph<Arr, TestOp> = Graph::new();
    let c = g.constant(arr1(&[1.]));
    let p = op(&mut g, TestOp::PartlyFailed, &[c]);
    let y = op(&mut g, TestOp::Double, &[p]);
    let sibling = op(&mut g, TestOp::Double, &[c]);
    let first = Err(EvalError::OpError(OpError::Type("first".to_string())));
    assert_eq!(g.eval(&vec![p, y, sibling], &vec![]), vec![first.clone(), first, Ok(arr1(&[2.]))]);
}
