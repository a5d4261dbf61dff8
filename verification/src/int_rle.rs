//! The executable run-length-encoded sequence.

use crate::error::RleError;
use crate::laws::{
    lemma_expand_index, lemma_expand_len, lemma_expand_prepend, lemma_expand_push,
    lemma_merge_unique, lemma_normalize_fixed, lemma_normalize_sound, lemma_start_agree,
    lemma_start_increases,
};
use crate::model::{
    callable_on, canonical, computes_on, elementwise, expand, merge, normalize, pointwise,
    positive, repeat, representable, run_seq, start, total_len, Run,
};
use vstd::prelude::*;

verus! {

/// A sequence of `i32` stored as runs: run `i` is `lengths[i]` consecutive
/// copies of `values[i]`.
///
/// The fields are open, so a value can be put together by hand;
/// [`IntRle::well_formed`] says which values are sequences, and the operations
/// of this type ask for it and keep it.
#[derive(Debug, PartialEq, Eq)]
pub struct IntRle {
    pub lengths: Vec<i32>,
    pub values: Vec<i32>,
}

/// Each element of `out` is something that `op` may return on the elements of
/// `a` and `b` that lie `from` positions further on.
spec fn combines<F: Fn(i32, i32) -> i32>(
    op: F,
    a: Seq<i32>,
    b: Seq<i32>,
    out: Seq<i32>,
    from: int,
) -> bool {
    forall|k: int|
        0 <= k < out.len() ==> call_ensures(op, (a[from + k], b[from + k]), #[trigger] out[k])
}

/// A copy of `v` in the opposite order.
fn reversed(v: &Vec<i32>) -> (r: Vec<i32>)
    ensures
        r@ == v@.reverse(),
{
    let mut r: Vec<i32> = Vec::new();
    let mut i: usize = v.len();
    while i > 0
        invariant
            i <= v.len(),
            r.len() == v.len() - i,
            forall|k: int| 0 <= k < r.len() ==> r[k] == v[v.len() - 1 - k],
        decreases i,
    {
        i = i - 1;
        r.push(v[i]);
    }
    r
}

impl View for IntRle {
    type V = Seq<Run>;

    /// The run list, with one run for each entry of `lengths`.
    open spec fn view(&self) -> Seq<Run> {
        run_seq(self.lengths@, self.values@)
    }
}

impl IntRle {
    /// The shape of a sequence: as many lengths as values, at least one run,
    /// every run at least one element long, and at most `i32::MAX` elements in
    /// all.
    pub open spec fn well_formed(&self) -> bool {
        &&& self.lengths@.len() == self.values@.len()
        &&& self.lengths@.len() >= 1
        &&& representable(self@)
    }

    /// No two neighbouring runs carry the same value.
    pub open spec fn is_canonical(&self) -> bool {
        canonical(self@)
    }

    /// The number of elements of the array that the sequence stands for.
    pub open spec fn total(&self) -> int {
        total_len(self@)
    }

    /// The array that the sequence stands for.
    pub open spec fn decoded(&self) -> Seq<i32> {
        expand(self@)
    }

    /// A sequence in canonical form: well formed, and no two neighbouring runs
    /// carry the same value.
    pub open spec fn valid(&self) -> bool {
        self.well_formed() && self.is_canonical()
    }

    /// Tells whether `new` may be called on these arrays: either their sizes
    /// differ, which `new` refuses by itself, or every run length is positive
    /// and the lengths add up to at most `i32::MAX`.
    pub fn can_hold(lengths: &Vec<i32>, values: &Vec<i32>) -> (b: bool)
        ensures
            b == (lengths@.len() == values@.len() ==> representable(run_seq(lengths@, values@))),
    {
        if lengths.len() != values.len() {
            return true;
        }
        let ghost runs = run_seq(lengths@, values@);
        let mut sum: i32 = 0;
        let mut i: usize = 0;
        while i < lengths.len()
            invariant
                i <= lengths.len(),
                lengths.len() == values.len(),
                runs == run_seq(lengths@, values@),
                sum == start(runs, i as int),
                0 <= sum,
                forall|k: int| 0 <= k < i ==> (#[trigger] runs[k]).length >= 1,
            decreases lengths.len() - i,
        {
            let l = lengths[i];
            if l < 1 {
                assert(runs[i as int].length < 1);
                return false;
            }
            if l > i32::MAX - sum {
                proof {
                    if positive(runs) {
                        lemma_start_increases(runs, i + 1, runs.len() as int);
                    }
                }
                return false;
            }
            sum = sum + l;
            i = i + 1;
        }
        true
    }

    /// Tells whether the value is a sequence in canonical form. This is the
    /// question to ask of a value put together by hand, or of one whose buffers
    /// foreign code may have written to, before it is used.
    pub fn is_valid(&self) -> (b: bool)
        ensures
            b == self.valid(),
    {
        let n = self.lengths.len();
        if n != self.values.len() || n == 0 {
            return false;
        }
        if !IntRle::can_hold(&self.lengths, &self.values) {
            return false;
        }
        let mut i: usize = 1;
        while i < n
            invariant
                1 <= i <= n,
                n == self.lengths.len(),
                n == self.values.len(),
                forall|k: int, m: int|
                    0 <= k < i - 1 && m == k + 1 ==> (#[trigger] self@[k]).value != (
                    #[trigger] self@[m]).value,
            decreases n - i,
        {
            if self.values[i] == self.values[i - 1] {
                assert(self@[i - 1].value == self@[i as int].value);
                return false;
            }
            i = i + 1;
        }
        true
    }

    /// Builds the canonical sequence of a raw run list, given as two parallel
    /// arrays: neighbouring runs of one value become a single run whose length
    /// is the sum of theirs. The array that the runs stand for stays the same.
    ///
    /// Arrays of different sizes are refused with `LengthMismatch`, two empty
    /// arrays with `EmptyInput`. The run lengths must be positive and add up to
    /// at most `i32::MAX`.
    pub fn new(lengths: Vec<i32>, values: Vec<i32>) -> (result: Result<IntRle, RleError>)
        requires
            lengths@.len() == values@.len() ==> representable(run_seq(lengths@, values@)),
        ensures
            lengths@.len() != values@.len() ==> result == Err::<IntRle, RleError>(
                RleError::LengthMismatch,
            ),
            lengths@.len() == 0 && values@.len() == 0 ==> result == Err::<IntRle, RleError>(
                RleError::EmptyInput,
            ),
            lengths@.len() == values@.len() && lengths@.len() > 0 ==> result is Ok,
            result matches Ok(r) ==> r@ == normalize(run_seq(lengths@, values@)),
            result matches Ok(r) ==> r.well_formed() && r.is_canonical(),
            result matches Ok(r) ==> r.decoded() == expand(run_seq(lengths@, values@)),
            result matches Ok(r) ==> r.total() == total_len(run_seq(lengths@, values@)),
            result matches Ok(r) ==> (canonical(run_seq(lengths@, values@)) ==> r@ == run_seq(
                lengths@,
                values@,
            )),
            lengths@.len() == 1 && values@.len() == 1 ==> result == Ok::<IntRle, RleError>(
                (IntRle { lengths, values }),
            ),
    {
        if lengths.len() != values.len() {
            return Err(RleError::LengthMismatch);
        }
        if lengths.len() == 0 {
            return Err(RleError::EmptyInput);
        }
        let ghost runs = run_seq(lengths@, values@);
        proof {
            lemma_normalize_sound(runs);
            if canonical(runs) {
                lemma_normalize_fixed(runs);
            }
        }
        if lengths.len() == 1 {
            return Ok(IntRle { lengths, values });
        }
        let mut new_lengths: Vec<i32> = Vec::new();
        let mut new_values: Vec<i32> = Vec::new();
        let mut prev_v: i32 = values[0];
        let mut sum_l: i32 = lengths[0];
        let mut i: usize = 1;
        proof {
            // One run has been seen, and it is the open run.
            let first = runs.take(1);
            assert(normalize(first.drop_last()) =~= Seq::<Run>::empty());
        }
        while i < lengths.len()
            invariant
                1 <= i <= lengths.len(),
                lengths.len() == values.len(),
                runs == run_seq(lengths@, values@),
                representable(runs),
                new_lengths.len() == new_values.len(),
                normalize(runs.take(i as int)) == run_seq(new_lengths@, new_values@).push(
                    Run { length: sum_l as int, value: prev_v },
                ),
            decreases lengths.len() - i,
        {
            let l = lengths[i];
            let v = values[i];
            proof {
                let seen = runs.take(i as int);
                let next = runs.take(i + 1);
                let closed = run_seq(new_lengths@, new_values@);
                let open = Run { length: sum_l as int, value: prev_v };
                assert(next.drop_last() =~= seen);
                // The open run is no longer than what has been seen, and what
                // has been seen together with the next run fits.
                lemma_normalize_sound(seen);
                lemma_start_agree(seen, runs, i as int);
                lemma_start_increases(closed.push(open), 0, closed.len() as int);
                lemma_start_increases(runs, i + 1, runs.len() as int);
            }
            if v == prev_v {
                sum_l = sum_l + l;
            } else {
                new_lengths.push(sum_l);
                new_values.push(prev_v);
                sum_l = l;
                prev_v = v;
            }
            i = i + 1;
        }
        proof {
            assert(runs.take(i as int) =~= runs);
        }
        new_lengths.push(sum_l);
        new_values.push(prev_v);
        Ok(IntRle { lengths: new_lengths, values: new_values })
    }

    /// The number of elements of the array that the sequence stands for: the
    /// sum of the run lengths.
    pub fn total_length(&self) -> (n: i32)
        requires
            self.well_formed(),
        ensures
            n == self.total(),
            n == self.decoded().len(),
            n >= 1,
    {
        let mut n: i32 = 0;
        let mut i: usize = 0;
        while i < self.lengths.len()
            invariant
                i <= self.lengths.len(),
                self.well_formed(),
                n == start(self@, i as int),
            decreases self.lengths.len() - i,
        {
            proof {
                lemma_start_increases(self@, i + 1, self.lengths.len() as int);
            }
            n = n + self.lengths[i];
            i = i + 1;
        }
        proof {
            lemma_expand_len(self@);
        }
        n
    }

    /// Applies `op` to the two arrays element by element and returns the
    /// canonical sequence of the outcome, without expanding either operand:
    /// the runs of both are walked from the last to the first, a run is split
    /// where the other operand's run ends, and `op` is called once for each
    /// stretch on which both operands are constant.
    ///
    /// Operands whose arrays differ in size are refused with `LengthMismatch`,
    /// before `op` is called at all.
    pub fn op_int<F>(&self, other: &IntRle, op: F) -> (result: Result<IntRle, RleError>) where
        F: Fn(i32, i32) -> i32,

        requires
            self.well_formed(),
            other.well_formed(),
            self.total() == other.total() ==> callable_on(op, self.decoded(), other.decoded()),
        ensures
            self.total() != other.total() ==> result == Err::<IntRle, RleError>(
                RleError::LengthMismatch,
            ),
            self.total() == other.total() ==> result is Ok,
            result matches Ok(r) ==> r.well_formed() && r.is_canonical(),
            result matches Ok(r) ==> r.total() == self.total(),
            result matches Ok(r) ==> elementwise(op, self.decoded(), other.decoded(), r.decoded()),
            result matches Ok(r) ==> forall|f: spec_fn(i32, i32) -> i32| #[trigger]
                computes_on(op, f, self.decoded(), other.decoded()) ==> r.decoded() == pointwise(
                    f,
                    self.decoded(),
                    other.decoded(),
                ) && r@ == merge(self@, other@, f),
    {
        let total_a = self.total_length();
        let total_b = other.total_length();
        if total_a != total_b {
            return Err(RleError::LengthMismatch);
        }
        let ghost a = self@;
        let ghost b = other@;
        let ghost da = expand(a);
        let ghost db = expand(b);
        let mut out_lengths: Vec<i32> = Vec::new();
        let mut out_values: Vec<i32> = Vec::new();
        let mut i: usize = self.lengths.len();
        let mut j: usize = other.lengths.len();
        let mut left_a: i32 = self.lengths[i - 1];
        let mut left_b: i32 = other.lengths[j - 1];
        // The runs emitted so far, first run first, and the number of
        // positions that are still to be covered. The arrays are of one size,
        // so both walks reach their first run together.
        let ghost mut emitted: Seq<Run> = Seq::empty();
        let ghost mut todo: int = total_a as int;
        while i > 0
            invariant
                self.well_formed(),
                other.well_formed(),
                a == self@,
                b == other@,
                da == expand(a),
                db == expand(b),
                da.len() == total_len(a),
                db.len() == total_len(b),
                total_len(a) == total_len(b),
                callable_on(op, da, db),
                i <= self.lengths.len(),
                j <= other.lengths.len(),
                (i == 0) == (j == 0),
                i > 0 ==> 1 <= left_a <= self.lengths[i - 1],
                j > 0 ==> 1 <= left_b <= other.lengths[j - 1],
                i > 0 ==> todo == start(a, i - 1) + left_a,
                j > 0 ==> todo == start(b, j - 1) + left_b,
                i == 0 ==> todo == 0,
                0 <= todo,
                out_lengths.len() == emitted.len(),
                out_values.len() == emitted.len(),
                forall|k: int|
                    0 <= k < emitted.len() ==> #[trigger] emitted[k] == (Run {
                        length: out_lengths[emitted.len() - 1 - k] as int,
                        value: out_values[emitted.len() - 1 - k],
                    }),
                positive(emitted),
                total_len(emitted) + todo == total_len(a),
                expand(emitted).len() == total_len(emitted),
                combines(op, da, db, expand(emitted), todo),
            decreases i + j,
        {
            let va = self.values[i - 1];
            let vb = other.values[j - 1];
            let ghost old_todo = todo;
            let ghost old_left_a = left_a;
            let ghost old_left_b = left_b;
            let ghost ia = i - 1;
            let ghost jb = j - 1;
            proof {
                // The two values sit at the last position still to be covered,
                // which is where `op` has to be callable.
                lemma_expand_index(a, ia, left_a - 1);
                lemma_expand_index(b, jb, left_b - 1);
                assert(da[todo - 1] == va && db[todo - 1] == vb);
                lemma_start_increases(a, 0, ia);
                lemma_start_increases(b, 0, jb);
            }
            let r = op(va, vb);
            let m: i32;
            if left_a == left_b {
                m = left_a;
                i = i - 1;
                j = j - 1;
                if i > 0 {
                    left_a = self.lengths[i - 1];
                }
                if j > 0 {
                    left_b = other.lengths[j - 1];
                }
            } else if left_a < left_b {
                m = left_a;
                left_b = left_b - left_a;
                i = i - 1;
                if i > 0 {
                    left_a = self.lengths[i - 1];
                }
            } else {
                m = left_b;
                left_a = left_a - left_b;
                j = j - 1;
                if j > 0 {
                    left_b = other.lengths[j - 1];
                }
            }
            out_lengths.push(m);
            out_values.push(r);
            proof {
                let run = Run { length: m as int, value: r };
                let before = emitted;
                emitted = seq![run] + before;
                todo = old_todo - m;
                lemma_expand_prepend(run, before);
                assert forall|k: int| 0 <= k < expand(emitted).len() implies call_ensures(
                    op,
                    (da[todo + k], db[todo + k]),
                    #[trigger] expand(emitted)[k],
                ) by {
                    if k < m {
                        lemma_expand_index(a, ia, old_left_a - m + k);
                        lemma_expand_index(b, jb, old_left_b - m + k);
                    }
                }
            }
        }
        let lengths = reversed(&out_lengths);
        let values = reversed(&out_values);
        proof {
            assert(run_seq(lengths@, values@) =~= emitted);
        }
        let result = IntRle::new(lengths, values);
        proof {
            let r = result->Ok_0;
            assert forall|f: spec_fn(i32, i32) -> i32| #[trigger]
                computes_on(op, f, da, db) implies r.decoded() == pointwise(f, da, db) && r@
                == merge(a, b, f) by {
                assert(r.decoded() =~= pointwise(f, da, db));
                lemma_merge_unique(a, b, f, r@);
            }
        }
        result
    }

    /// The array that the sequence stands for, written out in full.
    pub fn decode(&self) -> (out: Vec<i32>)
        requires
            self.well_formed(),
        ensures
            out@ == self.decoded(),
    {
        let mut out: Vec<i32> = Vec::new();
        let mut i: usize = 0;
        while i < self.lengths.len()
            invariant
                i <= self.lengths.len(),
                self.well_formed(),
                out@ == expand(self@.take(i as int)),
            decreases self.lengths.len() - i,
        {
            let l = self.lengths[i];
            let v = self.values[i];
            let ghost before = out@;
            let mut t: i32 = 0;
            assert(self@[i as int].length == l);
            while t < l
                invariant
                    0 <= t <= l,
                    out@ == before + repeat(v, t as int),
                decreases l - t,
            {
                out.push(v);
                t = t + 1;
            }
            proof {
                assert(self@.take(i + 1) =~= self@.take(i as int).push(self@[i as int]));
                lemma_expand_push(self@.take(i as int), self@[i as int]);
            }
            i = i + 1;
        }
        proof {
            assert(self@.take(i as int) =~= self@);
        }
        out
    }

    /// The number of run lengths, as the 32-bit count that foreign callers
    /// take. It cannot exceed the size of the array, so it fits.
    pub fn lengths_size(&self) -> (n: i32)
        requires
            self.well_formed(),
        ensures
            n == self.lengths@.len(),
            n == self@.len(),
            1 <= n <= self.total(),
    {
        proof {
            lemma_expand_len(self@);
        }
        self.lengths.len() as i32
    }

    /// The number of run values, as the 32-bit count that foreign callers
    /// take. It is the number of run lengths.
    pub fn values_size(&self) -> (n: i32)
        requires
            self.well_formed(),
        ensures
            n == self.values@.len(),
            n == self@.len(),
            1 <= n <= self.total(),
    {
        proof {
            lemma_expand_len(self@);
        }
        self.values.len() as i32
    }

    /// Resolves a handle that may name nothing: the sequence it names if that
    /// is a sequence in canonical form, `InvalidHandle` otherwise.
    pub fn from_handle(handle: Option<&IntRle>) -> (result: Result<&IntRle, RleError>)
        ensures
            handle matches Some(rle) ==> (rle.valid() ==> result == Ok::<&IntRle, RleError>(rle)),
            handle matches Some(rle) ==> (!rle.valid() ==> result == Err::<&IntRle, RleError>(
                RleError::InvalidHandle,
            )),
            handle is None ==> result == Err::<&IntRle, RleError>(RleError::InvalidHandle),
    {
        match handle {
            Some(rle) => {
                if rle.is_valid() {
                    Ok(rle)
                } else {
                    Err(RleError::InvalidHandle)
                }
            },
            None => Err(RleError::InvalidHandle),
        }
    }
}

} // verus!
