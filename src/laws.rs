//! Laws that tie the operations together, stated over the results that
//! their contracts describe.
use vstd::prelude::*;
use crate::dense::{
    axpy, axpy_overflows, count_nonzero, dot_dense, dot_upto, in_i64, lemma_value_in_i64, lemma_widen,
    nonzero_positions, sum_of_products, widen,
};
use crate::packed_vector::PackedVec;

verus! {

/// Scattering a gathered array gives the array back, entry for entry.
pub proof fn lemma_round_trip(v: Seq<i64>, packed: PackedVec, back: Seq<i64>)
    requires
        packed.dense() == widen(v),
        widen(back) == packed.dense(),
    ensures
        back == v,
{
    lemma_widen(v);
    lemma_widen(back);
    assert forall|i: int| 0 <= i < v.len() implies back[i] == v[i] by {
        assert(widen(back)[i] == widen(v)[i]);
        assert(i < back.len());
        assert(widen(back)[i] == back[i] as int);
        assert(widen(v)[i] == v[i] as int);
    }
    assert(back =~= v);
}

proof fn lemma_positions_counted(v: Seq<i64>)
    ensures
        nonzero_positions(v).len() == count_nonzero(v),
    decreases v.len(),
{
    if v.len() > 0 {
        lemma_positions_counted(v.drop_last());
    }
}

proof fn lemma_no_nonzero(v: Seq<i64>)
    ensures
        count_nonzero(v) == 0 <==> forall|i: int| 0 <= i < v.len() ==> v[i] == 0,
    decreases v.len(),
{
    if v.len() > 0 {
        let w = v.drop_last();
        lemma_no_nonzero(w);
        if count_nonzero(v) == 0 {
            assert forall|i: int| 0 <= i < v.len() implies v[i] == 0 by {
                if i < w.len() {
                    assert(w[i] == v[i]);
                }
            }
        }
        if forall|i: int| 0 <= i < v.len() ==> v[i] == 0 {
            assert(v[v.len() - 1] == 0);
            assert forall|i: int| 0 <= i < w.len() implies w[i] == 0 by {
                assert(w[i] == v[i]);
            }
        }
    }
}

/// A gathered array stores one entry per nonzero entry of the array, and
/// stores none exactly when every entry is zero.
pub proof fn lemma_nonzero_accounting(v: Seq<i64>, packed: PackedVec)
    requires
        packed.well_formed(),
        packed.indices() == nonzero_positions(v),
    ensures
        packed.values().len() == count_nonzero(v),
        (packed.values().len() == 0) <==> count_nonzero(v) == 0,
        (packed.values().len() == 0) <==> forall|i: int| 0 <= i < v.len() ==> v[i] == 0,
{
    lemma_positions_counted(v);
    lemma_no_nonzero(v);
}

/// Accumulating `alpha` times a gathered `b` into a gathered `a` and
/// scattering the result gives `a[i] + alpha * b[i]` at every position.
pub proof fn lemma_accumulate(
    a: Seq<i64>,
    b: Seq<i64>,
    alpha: i64,
    x: PackedVec,
    y: PackedVec,
    z: PackedVec,
    back: Seq<i64>,
)
    requires
        a.len() == b.len(),
        x.dense() == widen(a),
        y.dense() == widen(b),
        z.dense() == axpy(x.dense(), y.dense(), alpha as int),
        widen(back) == z.dense(),
    ensures
        back.len() == a.len(),
        forall|i: int| 0 <= i < a.len() ==> back[i] == a[i] + alpha * b[i],
{
    lemma_widen(a);
    lemma_widen(b);
    lemma_widen(back);
    assert forall|i: int| 0 <= i < a.len() implies back[i] == a[i] + alpha * b[i] by {
        assert(widen(back)[i] == z.dense()[i]);
        assert(y.dense()[i] == b[i] as int);
        assert(alpha * y.dense()[i] == alpha * b[i]);
        assert(z.dense()[i] == a[i] + alpha * b[i]);
    }
}

proof fn lemma_dot_upto_widened(a: Seq<i64>, b: Seq<i64>, k: int)
    requires
        a.len() == b.len(),
        0 <= k <= a.len(),
    ensures
        dot_upto(widen(a), widen(b), k) == sum_of_products(a.subrange(0, k), b.subrange(0, k)),
    decreases k,
{
    if k > 0 {
        lemma_dot_upto_widened(a, b, k - 1);
        assert(a.subrange(0, k).drop_last() =~= a.subrange(0, k - 1));
        assert(b.subrange(0, k).drop_last() =~= b.subrange(0, k - 1));
    }
}

/// The inner product of two gathered arrays of one length is the
/// elementwise dot product of the arrays.
pub proof fn lemma_dot_of_gathered(a: Seq<i64>, b: Seq<i64>, x: PackedVec, y: PackedVec, s: int)
    requires
        a.len() == b.len(),
        x.dense() == widen(a),
        y.dense() == widen(b),
        s == dot_dense(x.dense(), y.dense()),
    ensures
        s == sum_of_products(a, b),
{
    lemma_dot_upto_widened(a, b, a.len() as int);
    assert(a.subrange(0, a.len() as int) =~= a);
    assert(b.subrange(0, b.len() as int) =~= b);
}

proof fn lemma_dense_in_i64(x: PackedVec)
    ensures
        forall|i: int| 0 <= i < x.dense().len() ==> in_i64(#[trigger] x.dense()[i]),
{
    assert forall|i: int| 0 <= i < x.dense().len() implies in_i64(
        #[trigger] x.dense()[i],
    ) by {
        lemma_value_in_i64(x.indices(), x.values(), i);
    }
}

/// Accumulating with `alpha == 0` never overflows and leaves the array that
/// the vector stands for unchanged (zero entries may be added to storage).
pub proof fn lemma_zero_alpha(x: PackedVec, y: PackedVec, z: PackedVec)
    requires
        x.dim() == y.dim(),
        z.dense() == axpy(x.dense(), y.dense(), 0),
    ensures
        !axpy_overflows(x.dense(), y.dense(), 0),
        z.dense() == x.dense(),
{
    lemma_dense_in_i64(x);
    assert(z.dense() =~= x.dense());
}

} // verus!
