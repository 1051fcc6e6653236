//! Mathematical model of dense arrays and of the packed index/value pairs
//! that stand for them.
use vstd::prelude::*;

verus! {

/// Whether `v` can be held in an `i64`.
pub open spec fn in_i64(v: int) -> bool {
    i64::MIN <= v <= i64::MAX
}

/// A dense array read as mathematical integers.
pub open spec fn widen(s: Seq<i64>) -> Seq<int> {
    s.map_values(|e: i64| e as int)
}

/// Widening keeps the length and each entry.
pub proof fn lemma_widen(s: Seq<i64>)
    ensures
        widen(s).len() == s.len(),
        forall|i: int| 0 <= i < s.len() ==> #[trigger] widen(s)[i] == s[i] as int,
{
}

/// Every position is strictly smaller than the one after it.
pub open spec fn strictly_ascending(s: Seq<usize>) -> bool {
    forall|a: int, b: int| 0 <= a < b < s.len() ==> s[a] < s[b]
}

/// The value that the pairs `(idx[k], vals[k])` give to position `i`:
/// the value of the last pair at `i`, or zero when no pair is at `i`.
pub open spec fn value_at(idx: Seq<usize>, vals: Seq<i64>, i: int) -> int
    decreases idx.len(),
{
    if idx.len() == 0 || vals.len() == 0 {
        0
    } else if idx.last() == i {
        vals.last() as int
    } else {
        value_at(idx.drop_last(), vals.drop_last(), i)
    }
}

/// Whether some pair of `idx` is at position `i`.
pub open spec fn holds_position(idx: Seq<usize>, i: int) -> bool {
    exists|k: int| 0 <= k < idx.len() && idx[k] == i
}

/// The positions of the nonzero entries of `s`, in ascending order.
pub open spec fn nonzero_positions(s: Seq<i64>) -> Seq<usize>
    decreases s.len(),
{
    if s.len() == 0 {
        Seq::empty()
    } else if s.last() != 0 {
        nonzero_positions(s.drop_last()).push((s.len() - 1) as usize)
    } else {
        nonzero_positions(s.drop_last())
    }
}

/// The nonzero entries of `s`, in the order of their positions.
pub open spec fn nonzero_values(s: Seq<i64>) -> Seq<i64>
    decreases s.len(),
{
    if s.len() == 0 {
        Seq::empty()
    } else if s.last() != 0 {
        nonzero_values(s.drop_last()).push(s.last())
    } else {
        nonzero_values(s.drop_last())
    }
}

/// How many entries of `s` are nonzero.
pub open spec fn count_nonzero(s: Seq<i64>) -> nat
    decreases s.len(),
{
    if s.len() == 0 {
        0
    } else if s.last() != 0 {
        count_nonzero(s.drop_last()) + 1
    } else {
        count_nonzero(s.drop_last())
    }
}

/// The array `x + alpha * y`, position by position.
pub open spec fn axpy(x: Seq<int>, y: Seq<int>, alpha: int) -> Seq<int> {
    Seq::new(x.len(), |i: int| x[i] + alpha * y[i])
}

/// Whether `x[i] + alpha * y[i]`, or the product inside it, leaves `i64`.
pub open spec fn axpy_overflows_at(x: Seq<int>, y: Seq<int>, alpha: int, i: int) -> bool {
    !in_i64(alpha * y[i]) || !in_i64(x[i] + alpha * y[i])
}

/// Whether `x + alpha * y` leaves `i64` at some position.
pub open spec fn axpy_overflows(x: Seq<int>, y: Seq<int>, alpha: int) -> bool {
    exists|i: int| 0 <= i < x.len() && axpy_overflows_at(x, y, alpha, i)
}

/// `sum(a[i] * b[i])` over the positions `0 <= i < k`.
pub open spec fn dot_upto(a: Seq<int>, b: Seq<int>, k: int) -> int
    decreases k,
{
    if k <= 0 {
        0
    } else {
        dot_upto(a, b, k - 1) + a[k - 1] * b[k - 1]
    }
}

/// The elementwise dot product of two arrays of one length.
pub open spec fn dot_dense(a: Seq<int>, b: Seq<int>) -> int {
    dot_upto(a, b, a.len() as int)
}

/// Whether some partial sum `dot_upto(a, b, k)`, `k <= a.len()`, leaves `i64`.
pub open spec fn dot_overflows(a: Seq<int>, b: Seq<int>) -> bool {
    exists|k: int| 0 <= k <= a.len() && !in_i64(#[trigger] dot_upto(a, b, k))
}

/// `sum(a[i] * b[i])` over the positions both arrays have.
pub open spec fn sum_of_products(a: Seq<i64>, b: Seq<i64>) -> int
    decreases a.len(),
{
    if a.len() == 0 || b.len() == 0 {
        0
    } else {
        sum_of_products(a.drop_last(), b.drop_last()) + (a.last() as int) * (b.last() as int)
    }
}

/// The position at cursor `k` of `s`, or `n` once the cursor is past the end.
pub open spec fn next_pos(s: Seq<usize>, k: int, n: int) -> int {
    if k < s.len() {
        s[k] as int
    } else {
        n
    }
}

/// The smallest position not yet reached by two merge cursors.
pub open spec fn frontier(a: Seq<usize>, ka: int, b: Seq<usize>, kb: int, n: int) -> int {
    let pa = next_pos(a, ka, n);
    let pb = next_pos(b, kb, n);
    if pa <= pb {
        pa
    } else {
        pb
    }
}

/// A pushed position is held, and every position held before still is.
pub proof fn lemma_push_holds(s: Seq<usize>, p: usize, i: int)
    ensures
        holds_position(s.push(p), i) <==> (holds_position(s, i) || p == i),
{
    if holds_position(s.push(p), i) {
        let k = choose|k: int| 0 <= k < s.push(p).len() && s.push(p)[k] == i;
        if k < s.len() {
            assert(s[k] == i);
        }
    }
    if holds_position(s, i) {
        let k = choose|k: int| 0 <= k < s.len() && s[k] == i;
        assert(s.push(p)[k] == i);
    }
    if p == i {
        assert(s.push(p)[s.len() as int] == i);
    }
}

/// A pushed pair gives its value to its position and leaves the others.
pub proof fn lemma_push_value(idx: Seq<usize>, vals: Seq<i64>, p: usize, v: i64, i: int)
    ensures
        value_at(idx.push(p), vals.push(v), i) == if p == i {
            v as int
        } else {
            value_at(idx, vals, i)
        },
{
    assert(idx.push(p).drop_last() =~= idx);
    assert(vals.push(v).drop_last() =~= vals);
}

/// A position with no pair has the value zero.
pub proof fn lemma_value_absent(idx: Seq<usize>, vals: Seq<i64>, i: int)
    requires
        !holds_position(idx, i),
    ensures
        value_at(idx, vals, i) == 0,
    decreases idx.len(),
{
    if idx.len() > 0 && vals.len() > 0 {
        assert(idx[idx.len() - 1] != i);
        let shorter = idx.drop_last();
        assert forall|k: int| 0 <= k < shorter.len() implies shorter[k] != i by {
            assert(shorter[k] == idx[k]);
        }
        lemma_value_absent(shorter, vals.drop_last(), i);
    }
}

/// Every value given to a position fits in an `i64`.
pub proof fn lemma_value_in_i64(idx: Seq<usize>, vals: Seq<i64>, i: int)
    ensures
        in_i64(value_at(idx, vals, i)),
    decreases idx.len(),
{
    if idx.len() > 0 && vals.len() > 0 && idx.last() != i {
        lemma_value_in_i64(idx.drop_last(), vals.drop_last(), i);
    }
}

/// With ascending positions each pair gives its own value to its position.
pub proof fn lemma_value_present(idx: Seq<usize>, vals: Seq<i64>, k: int)
    requires
        idx.len() == vals.len(),
        strictly_ascending(idx),
        0 <= k < idx.len(),
    ensures
        value_at(idx, vals, idx[k] as int) == vals[k],
    decreases idx.len(),
{
    let last = idx.len() - 1;
    if k < last {
        assert(idx[k] < idx[last]);
        let shorter = idx.drop_last();
        assert(shorter[k] == idx[k]);
        lemma_value_present(shorter, vals.drop_last(), k);
    }
}

/// Over positions where one of the two arrays is zero the partial sums stay put.
pub proof fn lemma_dot_flat(a: Seq<int>, b: Seq<int>, lo: int, hi: int)
    requires
        0 <= lo <= hi,
        forall|i: int| lo <= i < hi ==> a[i] == 0 || b[i] == 0,
    ensures
        forall|k: int| lo <= k <= hi ==> #[trigger] dot_upto(a, b, k) == dot_upto(a, b, lo),
    decreases hi - lo,
{
    if lo < hi {
        lemma_dot_flat(a, b, lo, hi - 1);
        assert(a[hi - 1] == 0 || b[hi - 1] == 0);
        assert(a[hi - 1] * b[hi - 1] == 0);
        assert(dot_upto(a, b, hi) == dot_upto(a, b, hi - 1) + a[hi - 1] * b[hi - 1]);
    }
}

/// In an ascending sequence no position lies strictly between what the
/// cursor `k` has passed and the position at the cursor.
pub proof fn lemma_gap(s: Seq<usize>, k: int, n: int, i: int)
    requires
        strictly_ascending(s),
        0 <= k <= s.len(),
        forall|j: int| 0 <= j < k ==> s[j] < i,
        i < next_pos(s, k, n),
    ensures
        !holds_position(s, i),
{
    assert forall|j: int| 0 <= j < s.len() implies s[j] != i by {
        if j >= k {
            if j > k {
                assert(s[k] < s[j]);
            }
        }
    }
}

} // verus!
