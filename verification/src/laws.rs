//! Lemmas about the model: how positions, expansion and the canonical encoding
//! fit together.

use crate::model::{
    canonical, encode, expand, extend_run, merge, normalize, pointwise, positive, repeat, start,
    total_len, Run,
};
use vstd::prelude::*;

verus! {

/// The start of run `i` depends only on the runs before it.
pub proof fn lemma_start_agree(a: Seq<Run>, b: Seq<Run>, i: int)
    requires
        0 <= i <= a.len(),
        i <= b.len(),
        forall|k: int| 0 <= k < i ==> a[k] == b[k],
    ensures
        start(a, i) == start(b, i),
    decreases i,
{
    if i > 0 {
        lemma_start_agree(a, b, i - 1);
    }
}

/// With runs of at least one element each, later runs start later: run `j`
/// starts at least `j - i` positions after run `i`.
pub proof fn lemma_start_increases(runs: Seq<Run>, i: int, j: int)
    requires
        positive(runs),
        0 <= i <= j <= runs.len(),
    ensures
        start(runs, j) - start(runs, i) >= j - i,
        start(runs, i) >= i,
    decreases j,
{
    if i < j {
        lemma_start_increases(runs, i, j - 1);
    } else if i > 0 {
        lemma_start_increases(runs, i - 1, i - 1);
    }
}

/// Adding a run at the end adds its copies at the end of the array.
pub proof fn lemma_expand_push(runs: Seq<Run>, r: Run)
    ensures
        expand(runs.push(r)) == expand(runs) + repeat(r.value, r.length),
        total_len(runs.push(r)) == total_len(runs) + r.length,
{
    assert(runs.push(r).drop_last() =~= runs);
    lemma_start_agree(runs.push(r), runs, runs.len() as int);
}

/// Adding a run at the front adds its copies at the front of the array.
pub proof fn lemma_expand_prepend(r: Run, runs: Seq<Run>)
    ensures
        expand(seq![r] + runs) == repeat(r.value, r.length) + expand(runs),
        total_len(seq![r] + runs) == r.length + total_len(runs),
        r.length >= 1 && positive(runs) ==> positive(seq![r] + runs),
    decreases runs.len(),
{
    let whole = seq![r] + runs;
    if runs.len() == 0 {
        lemma_expand_push(Seq::<Run>::empty(), r);
    } else {
        lemma_expand_prepend(r, runs.drop_last());
        assert(runs =~= runs.drop_last().push(runs.last()));
        lemma_expand_push(seq![r] + runs.drop_last(), runs.last());
        lemma_expand_push(runs.drop_last(), runs.last());
    }
}

/// With runs of at least one element each, the array has as many elements as
/// the run lengths add up to.
pub proof fn lemma_expand_len(runs: Seq<Run>)
    requires
        positive(runs),
    ensures
        expand(runs).len() == total_len(runs),
        total_len(runs) >= runs.len(),
    decreases runs.len(),
{
    if runs.len() > 0 {
        lemma_expand_len(runs.drop_last());
        lemma_start_agree(runs, runs.drop_last(), runs.len() - 1);
    }
}

/// Element `t` of run `i` sits at position `start(runs, i) + t` of the array.
pub proof fn lemma_expand_index(runs: Seq<Run>, i: int, t: int)
    requires
        positive(runs),
        0 <= i < runs.len(),
        0 <= t < runs[i].length,
    ensures
        0 <= start(runs, i) + t < expand(runs).len(),
        expand(runs)[start(runs, i) + t] == runs[i].value,
    decreases runs.len(),
{
    let front = runs.drop_last();
    let n = runs.len() as int;
    lemma_expand_len(front);
    lemma_start_agree(runs, front, n - 1);
    if i < n - 1 {
        lemma_expand_index(front, i, t);
        lemma_start_agree(runs, front, i);
    }
}

/// What `extend_run` does to a run list: the array gains `n` copies of `v` at
/// its end, and the run list stays positive and, if it was, canonical.
pub proof fn lemma_extend_run(runs: Seq<Run>, n: int, v: i32)
    requires
        positive(runs),
        n >= 1,
    ensures
        positive(extend_run(runs, n, v)),
        canonical(runs) ==> canonical(extend_run(runs, n, v)),
        expand(extend_run(runs, n, v)) == expand(runs) + repeat(v, n),
        total_len(extend_run(runs, n, v)) == total_len(runs) + n,
        extend_run(runs, n, v).len() > 0,
        extend_run(runs, n, v).last().value == v,
{
    if runs.len() > 0 && runs.last().value == v {
        let front = runs.drop_last();
        let grown = Run { length: runs.last().length + n, value: v };
        assert(runs =~= front.push(runs.last()));
        lemma_expand_push(front, runs.last());
        lemma_expand_push(front, grown);
    } else {
        lemma_expand_push(runs, Run { length: n, value: v });
    }
}

/// The canonical encoding is a faithful one: it is positive and canonical, and
/// expanding it gives the array back.
pub proof fn lemma_encode_sound(s: Seq<i32>)
    ensures
        positive(encode(s)),
        canonical(encode(s)),
        expand(encode(s)) == s,
        total_len(encode(s)) == s.len(),
        s.len() > 0 ==> encode(s).len() > 0 && encode(s).last().value == s.last(),
        s.len() == 0 ==> encode(s).len() == 0,
    decreases s.len(),
{
    if s.len() > 0 {
        lemma_encode_sound(s.drop_last());
        lemma_extend_run(encode(s.drop_last()), 1, s.last());
    }
}

/// Encoding an array that ends in `n` copies of `v` is encoding what comes
/// before them and growing the result by those copies.
pub proof fn lemma_encode_append(s: Seq<i32>, v: i32, n: int)
    requires
        n >= 1,
    ensures
        encode(s + repeat(v, n)) == extend_run(encode(s), n, v),
    decreases n,
{
    let whole = s + repeat(v, n);
    if n == 1 {
        assert(whole.drop_last() =~= s);
    } else {
        assert(whole.drop_last() =~= s + repeat(v, n - 1));
        lemma_encode_append(s, v, n - 1);
    }
}

/// Merging neighbouring runs of one value gives the canonical encoding of the
/// array that the run list stands for.
pub proof fn lemma_normalize_is_encode(runs: Seq<Run>)
    requires
        positive(runs),
    ensures
        normalize(runs) == encode(expand(runs)),
    decreases runs.len(),
{
    if runs.len() > 0 {
        lemma_normalize_is_encode(runs.drop_last());
        lemma_encode_append(expand(runs.drop_last()), runs.last().value, runs.last().length);
    }
}

/// Merging neighbouring runs of one value leaves no two neighbours alike, and
/// keeps the last value and the sum of the lengths.
pub proof fn lemma_normalize_canonical(runs: Seq<Run>)
    ensures
        canonical(normalize(runs)),
        normalize(runs).len() <= runs.len(),
        runs.len() > 0 ==> normalize(runs).len() > 0 && normalize(runs).last().value
            == runs.last().value,
        total_len(normalize(runs)) == total_len(runs),
    decreases runs.len(),
{
    if runs.len() > 0 {
        let front = runs.drop_last();
        let done = normalize(front);
        lemma_normalize_canonical(front);
        lemma_start_agree(runs, front, runs.len() - 1);
        if done.len() > 0 && done.last().value == runs.last().value {
            let grown = Run {
                length: done.last().length + runs.last().length,
                value: runs.last().value,
            };
            assert(done =~= done.drop_last().push(done.last()));
            lemma_expand_push(done.drop_last(), done.last());
            lemma_expand_push(done.drop_last(), grown);
        } else {
            lemma_expand_push(done, runs.last());
        }
    }
}

/// A run list without equal neighbours is left as it is.
pub proof fn lemma_normalize_fixed(runs: Seq<Run>)
    requires
        canonical(runs),
    ensures
        normalize(runs) == runs,
    decreases runs.len(),
{
    if runs.len() > 0 {
        lemma_normalize_fixed(runs.drop_last());
    }
}

/// Normalizing twice is normalizing once.
pub proof fn lemma_normalize_idempotent(runs: Seq<Run>)
    ensures
        normalize(normalize(runs)) == normalize(runs),
{
    lemma_normalize_canonical(runs);
    lemma_normalize_fixed(normalize(runs));
}

/// Normalizing keeps the array and yields a positive run list.
pub proof fn lemma_normalize_sound(runs: Seq<Run>)
    requires
        positive(runs),
    ensures
        positive(normalize(runs)),
        canonical(normalize(runs)),
        expand(normalize(runs)) == expand(runs),
        total_len(normalize(runs)) == total_len(runs),
        runs.len() > 0 ==> normalize(runs).len() > 0,
{
    lemma_normalize_is_encode(runs);
    lemma_encode_sound(expand(runs));
    lemma_normalize_canonical(runs);
}

/// An array has one canonical encoding only: two positive run lists without
/// equal neighbours that stand for the same array are the same run list.
pub proof fn lemma_canonical_unique(a: Seq<Run>, b: Seq<Run>)
    requires
        positive(a),
        canonical(a),
        positive(b),
        canonical(b),
        expand(a) == expand(b),
    ensures
        a == b,
{
    lemma_normalize_fixed(a);
    lemma_normalize_fixed(b);
    lemma_normalize_is_encode(a);
    lemma_normalize_is_encode(b);
}

/// Merging gives a faithful canonical encoding of the combined array: the
/// outcome is positive and canonical, it stands for the array that holds `f` of
/// the operands' elements at each position, and that array is as long as the
/// first operand's.
pub proof fn lemma_merge_sound(a: Seq<Run>, b: Seq<Run>, f: spec_fn(i32, i32) -> i32)
    requires
        positive(a),
    ensures
        positive(merge(a, b, f)),
        canonical(merge(a, b, f)),
        expand(merge(a, b, f)) == pointwise(f, expand(a), expand(b)),
        total_len(merge(a, b, f)) == total_len(a),
{
    lemma_encode_sound(pointwise(f, expand(a), expand(b)));
    lemma_expand_len(a);
}

/// Merging yields the only canonical encoding there is: a positive run list
/// without equal neighbours that stands for the combined array is the outcome
/// of merging.
pub proof fn lemma_merge_unique(
    a: Seq<Run>,
    b: Seq<Run>,
    f: spec_fn(i32, i32) -> i32,
    c: Seq<Run>,
)
    requires
        positive(c),
        canonical(c),
        expand(c) == pointwise(f, expand(a), expand(b)),
    ensures
        c == merge(a, b, f),
{
    lemma_encode_sound(pointwise(f, expand(a), expand(b)));
    lemma_canonical_unique(c, merge(a, b, f));
}

} // verus!
