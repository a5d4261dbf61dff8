//! The mathematical model: run lists, the array a run list stands for, and the
//! canonical run list of an array.

use vstd::prelude::*;

verus! {

/// One run of a run list: `length` consecutive copies of `value`.
///
/// The length is an unbounded integer so that the model can speak of run lists
/// that no machine integer could hold; a run of the executable type always has
/// a length that fits `i32`.
pub struct Run {
    pub length: int,
    pub value: i32,
}

/// The run list that two parallel arrays describe. It has one run for each
/// entry of `lengths`.
pub open spec fn run_seq(lengths: Seq<i32>, values: Seq<i32>) -> Seq<Run> {
    Seq::new(lengths.len(), |i: int| Run { length: lengths[i] as int, value: values[i] })
}

/// Every run has at least one element.
pub open spec fn positive(runs: Seq<Run>) -> bool {
    forall|i: int| 0 <= i < runs.len() ==> (#[trigger] runs[i]).length >= 1
}

/// No two neighbouring runs carry the same value.
pub open spec fn canonical(runs: Seq<Run>) -> bool {
    forall|i: int, j: int|
        0 <= i < runs.len() && j == i + 1 && j < runs.len() ==> (#[trigger] runs[i]).value != (
        #[trigger] runs[j]).value
}

/// A run list that the executable type can hold: every run has at least one
/// element, and the array it stands for has at most `i32::MAX` elements.
pub open spec fn representable(runs: Seq<Run>) -> bool {
    positive(runs) && total_len(runs) <= i32::MAX
}

/// `n` copies of `v`; nothing when `n` is not positive.
pub open spec fn repeat(v: i32, n: int) -> Seq<i32> {
    Seq::new(if n > 0 { n as nat } else { 0 }, |i: int| v)
}

/// The position in the expanded array at which run `i` starts, which is the sum
/// of the lengths of the runs before it.
pub open spec fn start(runs: Seq<Run>, i: int) -> int
    decreases i,
{
    if i <= 0 {
        0
    } else {
        start(runs, i - 1) + runs[i - 1].length
    }
}

/// The size of the array that `runs` stands for.
pub open spec fn total_len(runs: Seq<Run>) -> int {
    start(runs, runs.len() as int)
}

/// The array that `runs` stands for: each run unfolded in order.
pub open spec fn expand(runs: Seq<Run>) -> Seq<i32>
    decreases runs.len(),
{
    if runs.len() == 0 {
        Seq::empty()
    } else {
        expand(runs.drop_last()) + repeat(runs.last().value, runs.last().length)
    }
}

/// `runs` followed by `n` more copies of `v`, keeping neighbouring runs
/// distinct: the last run grows when it already carries `v`, otherwise a new
/// run is added.
pub open spec fn extend_run(runs: Seq<Run>, n: int, v: i32) -> Seq<Run> {
    if runs.len() > 0 && runs.last().value == v {
        runs.drop_last().push(Run { length: runs.last().length + n, value: v })
    } else {
        runs.push(Run { length: n, value: v })
    }
}

/// The canonical run list of the array `s`: maximal blocks of equal elements,
/// in order.
pub open spec fn encode(s: Seq<i32>) -> Seq<Run>
    decreases s.len(),
{
    if s.len() == 0 {
        Seq::empty()
    } else {
        extend_run(encode(s.drop_last()), 1, s.last())
    }
}

/// `runs` with every group of neighbouring runs of one value merged into a
/// single run whose length is the sum of theirs.
pub open spec fn normalize(runs: Seq<Run>) -> Seq<Run>
    decreases runs.len(),
{
    if runs.len() == 0 {
        Seq::empty()
    } else {
        extend_run(normalize(runs.drop_last()), runs.last().length, runs.last().value)
    }
}

/// The array whose element at each position is `f` of the elements of `a` and
/// `b` at that position. It is as long as `a`.
pub open spec fn pointwise(f: spec_fn(i32, i32) -> i32, a: Seq<i32>, b: Seq<i32>) -> Seq<i32> {
    Seq::new(a.len(), |k: int| f(a[k], b[k]))
}

/// The canonical run list of the element-wise combination of the arrays that
/// `a` and `b` stand for.
pub open spec fn merge(a: Seq<Run>, b: Seq<Run>, f: spec_fn(i32, i32) -> i32) -> Seq<Run> {
    encode(pointwise(f, expand(a), expand(b)))
}

/// `op` may be called on every pair of elements that `a` and `b` hold at one
/// position.
pub open spec fn callable_on<F: Fn(i32, i32) -> i32>(op: F, a: Seq<i32>, b: Seq<i32>) -> bool {
    forall|k: int| 0 <= k < a.len() ==> call_requires(op, (#[trigger] a[k], b[k]))
}

/// `out` is an outcome of applying `op` element by element: it is as long as
/// `a`, and each of its elements is something that `op` may return on the
/// elements of `a` and `b` at that position.
pub open spec fn elementwise<F: Fn(i32, i32) -> i32>(
    op: F,
    a: Seq<i32>,
    b: Seq<i32>,
    out: Seq<i32>,
) -> bool {
    &&& out.len() == a.len()
    &&& forall|k: int| 0 <= k < out.len() ==> call_ensures(op, (a[k], b[k]), #[trigger] out[k])
}

/// `f` says what `op` returns on every pair of elements that `a` and `b` hold
/// at one position: whatever `op` may return there is `f` of the pair.
pub open spec fn computes_on<F: Fn(i32, i32) -> i32>(
    op: F,
    f: spec_fn(i32, i32) -> i32,
    a: Seq<i32>,
    b: Seq<i32>,
) -> bool {
    forall|k: int, c: i32|
        0 <= k < a.len() && #[trigger] call_ensures(op, (a[k], b[k]), c) ==> c == f(a[k], b[k])
}

} // verus!
