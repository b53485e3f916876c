use vstd::prelude::*;

verus! {

/// A failure the evaluator itself finds in what an op handed back, or in what
/// a consumer asked of it.
#[derive(Debug, Clone, Copy, PartialEq, Eq, Structural)]
pub enum Malformed {
    /// The op returned no output slot at all.
    NoOutputs,
    /// A consumer read an output slot that is `None`, or that does not exist.
    EmptyInput,
    /// The op delegated to an input position it does not have.
    DelegateOutOfRange,
}

/// Why an op failed, or, for `Delegate`, which of its inputs stands for its output.
#[derive(Debug, PartialEq, Eq)]
pub enum OpError {
    Shape(String),
    Type(String),
    Delegate { to: usize },
    Other(String),
    Malformed(Malformed),
}

impl Clone for OpError {
    fn clone(&self) -> (r: Self)
        ensures
            r == *self,
    {
        match self {
            OpError::Shape(m) => OpError::Shape(m.clone()),
            OpError::Type(m) => OpError::Type(m.clone()),
            OpError::Delegate { to } => OpError::Delegate { to: *to },
            OpError::Other(m) => OpError::Other(m.clone()),
            OpError::Malformed(k) => OpError::Malformed(*k),
        }
    }
}

/// One output of an op: an array it made, or a cheap alias of data it read.
#[derive(Debug, Clone)]
pub enum ArrRepr<A> {
    Owned(A),
    View(A),
}

impl<A> ArrRepr<A> {
    pub open spec fn value(self) -> A {
        match self {
            ArrRepr::Owned(a) => a,
            ArrRepr::View(a) => a,
        }
    }
}

/// What one call of `compute` yields, slot by slot: an array, an explicitly
/// empty slot (`None`), or an error for the whole op.
pub type ComputeResults<A> = Vec<Option<Result<ArrRepr<A>, OpError>>>;

/// The interface every operation of a graph implements.
///
/// `compute` receives its inputs, in edge order, as shared references that live
/// at least as long as the call.
pub trait Op<A> {
    fn name(&self) -> &str;

    fn compute(&self, xs: &Vec<&A>) -> ComputeResults<A>;
}

} // verus!
