//! The packed sparse vector and its operations.
use vstd::prelude::*;
use crate::dense::{
    axpy, axpy_overflows, axpy_overflows_at, count_nonzero, dot_dense, dot_overflows, dot_upto,
    frontier, holds_position, in_i64, lemma_dot_flat, lemma_gap, lemma_push_holds,
    lemma_push_value, lemma_value_absent, lemma_value_in_i64, lemma_value_present, next_pos,
    nonzero_positions, nonzero_values, strictly_ascending, value_at, widen,
};

verus! {

/// A sparse vector held as (position, value) pairs instead of a full-length
/// array, together with the length of the array it stands for.
///
/// The positions are kept strictly ascending and below the full length, so
/// that each position is stored at most once and two vectors can be merged
/// in one pass.
#[derive(Clone, Debug)]
pub struct PackedVec {
    index: Vec<usize>,
    data: Vec<i64>,
    full_length: usize,
}

/// Why an operation on two packed vectors was refused.
#[derive(Clone, Copy, Debug, PartialEq, Eq, Structural)]
pub enum PackedError {
    /// The two vectors stand for arrays of different lengths.
    LengthMismatch,
    /// A value of the result does not fit in an `i64`.
    Overflow,
}

/// What holds while `x + alpha * y` is merged into `(idx, vals)` with the
/// cursors `kx` and `ky`: every position below the frontier is done.
spec fn merge_inv(
    xi: Seq<usize>,
    xv: Seq<i64>,
    yi: Seq<usize>,
    yv: Seq<i64>,
    alpha: int,
    n: int,
    kx: int,
    ky: int,
    idx: Seq<usize>,
    vals: Seq<i64>,
) -> bool {
    let f = frontier(xi, kx, yi, ky, n);
    &&& 0 <= kx <= xi.len()
    &&& 0 <= ky <= yi.len()
    &&& 0 <= f <= n
    &&& idx.len() == vals.len()
    &&& strictly_ascending(idx)
    &&& forall|m: int| 0 <= m < idx.len() ==> idx[m] < f
    &&& forall|j: int| 0 <= j < kx ==> xi[j] < f
    &&& forall|j: int| 0 <= j < ky ==> yi[j] < f
    &&& forall|i: int|
        0 <= i < f ==> (#[trigger] holds_position(idx, i) <==> (holds_position(xi, i)
            || holds_position(yi, i)))
    &&& forall|i: int|
        0 <= i < f ==> #[trigger] value_at(idx, vals, i) == value_at(xi, xv, i) + alpha
            * value_at(yi, yv, i)
    &&& forall|i: int| 0 <= i < f ==> in_i64(alpha * #[trigger] value_at(yi, yv, i))
}

/// The values of `x` and `y` at the frontier `p`, where the cursor that
/// stands on `p` (one or both) says so.
proof fn lemma_frontier_values(
    xi: Seq<usize>,
    xv: Seq<i64>,
    yi: Seq<usize>,
    yv: Seq<i64>,
    alpha: int,
    n: int,
    kx: int,
    ky: int,
    idx: Seq<usize>,
    vals: Seq<i64>,
)
    requires
        merge_inv(xi, xv, yi, yv, alpha, n, kx, ky, idx, vals),
        xi.len() == xv.len(),
        yi.len() == yv.len(),
        strictly_ascending(xi),
        strictly_ascending(yi),
        frontier(xi, kx, yi, ky, n) < n,
    ensures
        ({
            let p = frontier(xi, kx, yi, ky, n);
            &&& value_at(xi, xv, p) == if kx < xi.len() && xi[kx] == p {
                xv[kx] as int
            } else {
                0
            }
            &&& value_at(yi, yv, p) == if ky < yi.len() && yi[ky] == p {
                yv[ky] as int
            } else {
                0
            }
        }),
{
    let p = frontier(xi, kx, yi, ky, n);
    if kx < xi.len() && xi[kx] == p {
        lemma_value_present(xi, xv, kx);
    } else {
        lemma_gap(xi, kx, n, p);
        lemma_value_absent(xi, xv, p);
    }
    if ky < yi.len() && yi[ky] == p {
        lemma_value_present(yi, yv, ky);
    } else {
        lemma_gap(yi, ky, n, p);
        lemma_value_absent(yi, yv, p);
    }
}

/// Pushing the entry at the frontier, and moving past it each cursor that
/// stands on it, keeps the merge invariant.
proof fn lemma_merge_step(
    xi: Seq<usize>,
    xv: Seq<i64>,
    yi: Seq<usize>,
    yv: Seq<i64>,
    alpha: int,
    n: int,
    kx: int,
    ky: int,
    idx: Seq<usize>,
    vals: Seq<i64>,
    kx2: int,
    ky2: int,
    v: i64,
)
    requires
        merge_inv(xi, xv, yi, yv, alpha, n, kx, ky, idx, vals),
        xi.len() == xv.len(),
        yi.len() == yv.len(),
        strictly_ascending(xi),
        strictly_ascending(yi),
        forall|j: int| 0 <= j < xi.len() ==> xi[j] < n,
        forall|j: int| 0 <= j < yi.len() ==> yi[j] < n,
        frontier(xi, kx, yi, ky, n) < n,
        kx2 == if kx < xi.len() && xi[kx] == frontier(xi, kx, yi, ky, n) {
            kx + 1
        } else {
            kx
        },
        ky2 == if ky < yi.len() && yi[ky] == frontier(xi, kx, yi, ky, n) {
            ky + 1
        } else {
            ky
        },
        v == value_at(xi, xv, frontier(xi, kx, yi, ky, n)) + alpha * value_at(
            yi,
            yv,
            frontier(xi, kx, yi, ky, n),
        ),
        in_i64(alpha * value_at(yi, yv, frontier(xi, kx, yi, ky, n))),
    ensures
        merge_inv(
            xi,
            xv,
            yi,
            yv,
            alpha,
            n,
            kx2,
            ky2,
            idx.push(frontier(xi, kx, yi, ky, n) as usize),
            vals.push(v),
        ),
{
    let f = frontier(xi, kx, yi, ky, n);
    let p = f as usize;
    let f2 = frontier(xi, kx2, yi, ky2, n);
    let idx2 = idx.push(p);
    let vals2 = vals.push(v);
    assert(kx2 + ky2 > kx + ky);
    if kx2 < xi.len() {
        if kx2 > kx {
            assert(xi[kx] < xi[kx2]);
        }
    }
    if ky2 < yi.len() {
        if ky2 > ky {
            assert(yi[ky] < yi[ky2]);
        }
    }
    assert(f < f2);
    assert forall|a: int, b: int| 0 <= a < b < idx2.len() implies idx2[a] < idx2[b] by {
        if b < idx.len() {
            assert(idx[a] < idx[b]);
        }
    }
    assert forall|m: int| 0 <= m < idx2.len() implies idx2[m] < f2 by {
        if m < idx.len() {
            assert(idx[m] < f);
        }
    }
    assert forall|j: int| 0 <= j < kx2 implies xi[j] < f2 by {
        if j < kx {
            assert(xi[j] < f);
        }
    }
    assert forall|j: int| 0 <= j < ky2 implies yi[j] < f2 by {
        if j < ky {
            assert(yi[j] < f);
        }
    }
    assert forall|i: int|
        #![trigger holds_position(idx2, i)]
        #![trigger value_at(idx2, vals2, i)]
        #![trigger value_at(yi, yv, i)]
        0 <= i < f2 implies {
        &&& (holds_position(idx2, i) <==> (holds_position(xi, i) || holds_position(yi, i)))
        &&& value_at(idx2, vals2, i) == value_at(xi, xv, i) + alpha * value_at(yi, yv, i)
        &&& in_i64(alpha * value_at(yi, yv, i))
    } by {
        lemma_push_holds(idx, p, i);
        lemma_push_value(idx, vals, p, v, i);
        if i < f {
            assert(holds_position(idx, i) <==> (holds_position(xi, i) || holds_position(yi, i)));
            assert(value_at(idx, vals, i) == value_at(xi, xv, i) + alpha * value_at(yi, yv, i));
            assert(in_i64(alpha * value_at(yi, yv, i)));
        } else if i == f {
            if kx2 > kx {
                assert(holds_position(xi, i));
            } else {
                assert(holds_position(yi, i));
            }

        } else {
            assert(forall|j: int| 0 <= j < kx2 ==> xi[j] < i);
            assert(forall|j: int| 0 <= j < ky2 ==> yi[j] < i);
            lemma_gap(xi, kx2, n, i);
            lemma_gap(yi, ky2, n, i);
            assert forall|m: int| 0 <= m < idx.len() implies idx[m] != i by {
                assert(idx[m] < f);
            }
            lemma_value_absent(idx, vals, i);
            lemma_value_absent(xi, xv, i);
            lemma_value_absent(yi, yv, i);
            assert(alpha * value_at(yi, yv, i) == 0);
        }
    }
}

/// Before the first step nothing is merged and no position lies below the
/// frontier.
proof fn lemma_merge_start(
    xi: Seq<usize>,
    xv: Seq<i64>,
    yi: Seq<usize>,
    yv: Seq<i64>,
    alpha: int,
    n: int,
)
    requires
        0 <= n,
        strictly_ascending(xi),
        strictly_ascending(yi),
        forall|j: int| 0 <= j < xi.len() ==> xi[j] < n,
        forall|j: int| 0 <= j < yi.len() ==> yi[j] < n,
    ensures
        merge_inv(xi, xv, yi, yv, alpha, n, 0, 0, Seq::empty(), Seq::empty()),
{
    let f = frontier(xi, 0, yi, 0, n);
    if xi.len() > 0 {
        assert(xi[0] < n);
    }
    if yi.len() > 0 {
        assert(yi[0] < n);
    }
    assert forall|i: int|
        #![trigger holds_position(Seq::<usize>::empty(), i)]
        #![trigger value_at(Seq::<usize>::empty(), Seq::<i64>::empty(), i)]
        #![trigger value_at(yi, yv, i)]
        0 <= i < f implies {
        &&& (holds_position(Seq::<usize>::empty(), i) <==> (holds_position(xi, i)
            || holds_position(yi, i)))
        &&& value_at(Seq::<usize>::empty(), Seq::<i64>::empty(), i) == value_at(xi, xv, i)
            + alpha * value_at(yi, yv, i)
        &&& in_i64(alpha * value_at(yi, yv, i))
    } by {
        lemma_gap(xi, 0, n, i);
        lemma_gap(yi, 0, n, i);
        lemma_value_absent(xi, xv, i);
        lemma_value_absent(yi, yv, i);
        assert(alpha * value_at(yi, yv, i) == 0);
    }
}

/// Once both cursors are past the end, the merged pairs stand for
/// `x + alpha * y` on every position below `n`.
proof fn lemma_merge_done(
    xi: Seq<usize>,
    xv: Seq<i64>,
    yi: Seq<usize>,
    yv: Seq<i64>,
    alpha: int,
    n: int,
    idx: Seq<usize>,
    vals: Seq<i64>,
)
    requires
        merge_inv(xi, xv, yi, yv, alpha, n, xi.len() as int, yi.len() as int, idx, vals),
    ensures
        forall|m: int| 0 <= m < idx.len() ==> idx[m] < n,
        forall|i: int|
            0 <= i < n ==> (#[trigger] holds_position(idx, i) <==> (holds_position(xi, i)
                || holds_position(yi, i))),
        forall|i: int|
            0 <= i < n ==> #[trigger] value_at(idx, vals, i) == value_at(xi, xv, i) + alpha
                * value_at(yi, yv, i),
        forall|i: int| 0 <= i < n ==> in_i64(alpha * #[trigger] value_at(yi, yv, i)),
{
}

impl PackedVec {
    /// The stored positions, in storage order.
    pub closed spec fn indices(&self) -> Seq<usize> {
        self.index@
    }

    /// The stored values; `values()[k]` belongs to position `indices()[k]`.
    pub closed spec fn values(&self) -> Seq<i64> {
        self.data@
    }

    /// The length of the array that this vector stands for.
    pub closed spec fn dim(&self) -> nat {
        self.full_length as nat
    }

    /// The representation invariant.
    pub open spec fn well_formed(&self) -> bool {
        &&& self.indices().len() == self.values().len()
        &&& strictly_ascending(self.indices())
        &&& forall|k: int| 0 <= k < self.indices().len() ==> self.indices()[k] < self.dim()
    }

    /// Whether position `i` has a stored entry.
    pub open spec fn stores(&self, i: int) -> bool {
        holds_position(self.indices(), i)
    }

    /// The full-length array that this vector stands for.
    pub open spec fn dense(&self) -> Seq<int> {
        Seq::new(self.dim(), |i: int| value_at(self.indices(), self.values(), i))
    }

    /// An empty vector of length zero.
    pub fn new() -> (r: Self)
        ensures
            r.well_formed(),
            r.dim() == 0,
            r.indices().len() == 0,
    {
        PackedVec { index: Vec::new(), data: Vec::new(), full_length: 0 }
    }

    /// The stored positions.
    pub fn index(&self) -> (r: &[usize])
        ensures
            r@ == self.indices(),
    {
        self.index.as_slice()
    }

    /// The stored values, in the order of `index`.
    pub fn data(&self) -> (r: &[i64])
        ensures
            r@ == self.values(),
    {
        self.data.as_slice()
    }

    /// The length of the array that this vector stands for.
    pub fn full_length(&self) -> (r: usize)
        ensures
            r == self.dim(),
    {
        self.full_length
    }

    /// Whether at least half of the positions are stored, so that the packed
    /// form takes no less room than the dense array.
    pub fn is_dense(&self) -> (r: bool)
        ensures
            r == (self.dim() <= 2 * self.values().len()),
    {
        (self.full_length as u128) <= 2 * (self.data.len() as u128)
    }

    /// The number of stored entries.
    pub fn len(&self) -> (r: usize)
        ensures
            r == self.values().len(),
    {
        self.data.len()
    }

    /// Whether no entry is stored.
    pub fn is_empty(&self) -> (r: bool)
        ensures
            r == (self.values().len() == 0),
    {
        self.data.len() == 0
    }

    /// Packs a dense array: the positions of its nonzero entries, in
    /// ascending order, with their values.
    pub fn gather(original: &[i64]) -> (r: Self)
        ensures
            r.well_formed(),
            r.dim() == original@.len(),
            r.indices() == nonzero_positions(original@),
            r.values() == nonzero_values(original@),
            r.indices().len() == count_nonzero(original@),
            r.dense() == widen(original@),
    {
        let n = original.len();
        let mut idx: Vec<usize> = Vec::new();
        let mut vals: Vec<i64> = Vec::new();
        let mut i: usize = 0;
        while i < n
            invariant
                i <= n,
                n == original@.len(),
                idx@ == nonzero_positions(original@.subrange(0, i as int)),
                vals@ == nonzero_values(original@.subrange(0, i as int)),
                idx@.len() == count_nonzero(original@.subrange(0, i as int)),
                idx@.len() == vals@.len(),
                strictly_ascending(idx@),
                forall|m: int| 0 <= m < idx@.len() ==> idx@[m] < i,
                forall|j: int| 0 <= j < i ==> #[trigger] value_at(idx@, vals@, j) == original@[j],
            decreases n - i,
        {
            let ghost before = original@.subrange(0, i as int);
            let ghost after = original@.subrange(0, i + 1);
            let ghost idx0 = idx@;
            let ghost vals0 = vals@;
            assert(after.drop_last() =~= before);
            let e = original[i];
            if e != 0 {
                idx.push(i);
                vals.push(e);
            }
            proof {
                assert forall|j: int| 0 <= j < i + 1 implies #[trigger] value_at(idx@, vals@, j)
                    == original@[j] by {
                    if e != 0 {
                        lemma_push_value(idx0, vals0, i, e, j);
                    } else if j == i {
                        assert forall|m: int| 0 <= m < idx0.len() implies idx0[m] != j by {
                            assert(idx0[m] < i);
                        }
                        lemma_value_absent(idx0, vals0, j);
                    }
                }
                assert forall|a: int, b: int| 0 <= a < b < idx@.len() implies idx@[a] < idx@[b] by {
                    if b < idx0.len() {
                        assert(idx0[a] < idx0[b]);
                    } else {
                        assert(idx0[a] < i);
                    }
                }
            }
            i = i + 1;
        }
        proof {
            assert(original@.subrange(0, n as int) =~= original@);
        }
        let r = PackedVec { index: idx, data: vals, full_length: n };
        proof {
            assert(r.dense() =~= widen(original@));
        }
        r
    }

    /// Unpacks into the dense array that this vector stands for.
    pub fn scatter(&self) -> (r: Vec<i64>)
        requires
            self.well_formed(),
        ensures
            widen(r@) == self.dense(),
    {
        let n = self.full_length;
        let mut out: Vec<i64> = Vec::new();
        let mut i: usize = 0;
        while i < n
            invariant
                i <= n,
                out@.len() == i,
                forall|j: int| 0 <= j < i ==> out@[j] == 0,
            decreases n - i,
        {
            out.push(0);
            i = i + 1;
        }
        let len = self.index.len();
        let mut k: usize = 0;
        while k < len
            invariant
                self.well_formed(),
                len == self.index@.len(),
                n == self.full_length,
                k <= len,
                out@.len() == n,
                forall|j: int|
                    0 <= j < n ==> out@[j] == value_at(
                        self.index@.subrange(0, k as int),
                        self.data@.subrange(0, k as int),
                        j,
                    ),
            decreases len - k,
        {
            let ghost idx0 = self.index@.subrange(0, k as int);
            let ghost vals0 = self.data@.subrange(0, k as int);
            assert(self.index@.subrange(0, k + 1) =~= idx0.push(self.index@[k as int]));
            assert(self.data@.subrange(0, k + 1) =~= vals0.push(self.data@[k as int]));
            let ix = self.index[k];
            assert(ix < n);
            out.set(ix, self.data[k]);
            proof {
                assert forall|j: int| 0 <= j < n implies out@[j] == value_at(
                    self.index@.subrange(0, k + 1),
                    self.data@.subrange(0, k + 1),
                    j,
                ) by {
                    lemma_push_value(idx0, vals0, ix, self.data@[k as int], j);
                }
            }
            k = k + 1;
        }
        proof {
            assert(self.index@.subrange(0, len as int) =~= self.index@);
            assert(self.data@.subrange(0, len as int) =~= self.data@);
            assert(widen(out@) =~= self.dense());
        }
        out
    }

    /// The inner product `sum(x[i] * y[i])`, found by a merge-join over the
    /// two ascending runs of positions.
    ///
    /// The products are summed in ascending order of position; the result is
    /// refused when one of those partial sums leaves `i64`.
    pub fn dot(&self, rhs: &Self) -> (r: Result<i64, PackedError>)
        requires
            self.well_formed(),
            rhs.well_formed(),
        ensures
            (r == Err::<i64, PackedError>(PackedError::LengthMismatch)) <==> self.dim()
                != rhs.dim(),
            (r == Err::<i64, PackedError>(PackedError::Overflow)) <==> (self.dim() == rhs.dim()
                && dot_overflows(self.dense(), rhs.dense())),
            r is Ok <==> (self.dim() == rhs.dim() && !dot_overflows(self.dense(), rhs.dense())),
            r matches Ok(s) ==> s == dot_dense(self.dense(), rhs.dense()),
    {
        let n = self.full_length;
        if n != rhs.full_length {
            return Err(PackedError::LengthMismatch);
        }
        let ghost xi = self.index@;
        let ghost xv = self.data@;
        let ghost yi = rhs.index@;
        let ghost yv = rhs.data@;
        let ghost da = self.dense();
        let ghost db = rhs.dense();
        let xl = self.index.len();
        let yl = rhs.index.len();
        let mut kx: usize = 0;
        let mut ky: usize = 0;
        let mut acc: i64 = 0;
        proof {
            let f = frontier(xi, 0, yi, 0, n as int);
            if xl > 0 {
                assert(xi[0] < n);
            }
            if yl > 0 {
                assert(yi[0] < n);
            }
            assert forall|i: int| 0 <= i < f implies da[i] == 0 || db[i] == 0 by {
                lemma_gap(xi, 0, n as int, i);
                lemma_value_absent(xi, xv, i);
            }
            lemma_dot_flat(da, db, 0, f);
        }
        while kx < xl && ky < yl
            invariant
                xi == self.index@,
                xv == self.data@,
                yi == rhs.index@,
                yv == rhs.data@,
                da == self.dense(),
                db == rhs.dense(),
                self.well_formed(),
                rhs.well_formed(),
                xl == xi.len(),
                yl == yi.len(),
                n == self.full_length,
                n == rhs.full_length,
                kx <= xl,
                ky <= yl,
                forall|j: int| 0 <= j < kx ==> xi[j] < frontier(xi, kx as int, yi, ky as int, n as int),
                forall|j: int| 0 <= j < ky ==> yi[j] < frontier(xi, kx as int, yi, ky as int, n as int),
                acc == dot_upto(da, db, frontier(xi, kx as int, yi, ky as int, n as int)),
                forall|k: int|
                    0 <= k <= frontier(xi, kx as int, yi, ky as int, n as int) ==> in_i64(
                        #[trigger] dot_upto(da, db, k),
                    ),
            decreases (xl - kx) + (yl - ky),
        {
            let ghost f = frontier(xi, kx as int, yi, ky as int, n as int);
            let ix = self.index[kx];
            let iy = rhs.index[ky];
            proof {
                assert(ix < n && iy < n);
            }
            if ix < iy {
                kx = kx + 1;
            } else if iy < ix {
                ky = ky + 1;
            } else {
                let a = self.data[kx];
                let b = rhs.data[ky];
                proof {
                    lemma_value_present(xi, xv, kx as int);
                    lemma_value_present(yi, yv, ky as int);
                    assert(-0x4000_0000_0000_0000_0000_0000_0000_0000 <= a * b <= 0x4000_0000_0000_0000_0000_0000_0000_0000)
                        by (nonlinear_arith)
                        requires
                            -0x8000_0000_0000_0000 <= a <= 0x7fff_ffff_ffff_ffff,
                            -0x8000_0000_0000_0000 <= b <= 0x7fff_ffff_ffff_ffff,
                    ;
                }
                let sum: i128 = acc as i128 + (a as i128) * (b as i128);
                proof {
                    assert(da[ix as int] == a && db[ix as int] == b);
                    assert(sum == dot_upto(da, db, ix + 1));
                }
                if sum < i64::MIN as i128 || sum > i64::MAX as i128 {
                    return Err(PackedError::Overflow);
                }
                acc = sum as i64;
                kx = kx + 1;
                ky = ky + 1;
            }
            proof {
                let f2 = frontier(xi, kx as int, yi, ky as int, n as int);
                if kx < xl {
                    assert(xi[kx as int] < n);
                    if kx > 0 {
                        assert(xi[kx - 1] < xi[kx as int]);
                    }
                }
                if ky < yl {
                    assert(yi[ky as int] < n);
                    if ky > 0 {
                        assert(yi[ky - 1] < yi[ky as int]);
                    }
                }
                let lo = if ix == iy { f + 1 } else { f };
                assert forall|i: int| lo <= i < f2 implies da[i] == 0 || db[i] == 0 by {
                    if ix <= iy {
                        lemma_gap(yi, ky as int, n as int, i);
                        lemma_value_absent(yi, yv, i);
                    } else {
                        lemma_gap(xi, kx as int, n as int, i);
                        lemma_value_absent(xi, xv, i);
                    }
                }
                lemma_dot_flat(da, db, lo, f2);
            }
        }
        proof {
            let f = frontier(xi, kx as int, yi, ky as int, n as int);
            assert forall|i: int| f <= i < n implies da[i] == 0 || db[i] == 0 by {
                if kx == xl {
                    lemma_gap(xi, kx as int, n as int, i);
                    lemma_value_absent(xi, xv, i);
                } else {
                    lemma_gap(yi, ky as int, n as int, i);
                    lemma_value_absent(yi, yv, i);
                }
            }
            lemma_dot_flat(da, db, f, n as int);
        }
        Ok(acc)
    }

    /// Adds `alpha` times `y_vec` to this vector, position by position:
    /// `x[i] += alpha * y[i]`.
    ///
    /// The two ascending runs of positions are merged in one pass, so the
    /// result stays strictly ascending; it stores every position that either
    /// vector stored (an entry may become zero, for instance when `alpha` is
    /// zero). On an error the vector is left as it was.
    pub fn mul_add(&mut self, y_vec: &Self, alpha: i64) -> (r: Result<(), PackedError>)
        requires
            old(self).well_formed(),
            y_vec.well_formed(),
        ensures
            (r == Err::<(), PackedError>(PackedError::LengthMismatch)) <==> old(self).dim()
                != y_vec.dim(),
            (r == Err::<(), PackedError>(PackedError::Overflow)) <==> (old(self).dim()
                == y_vec.dim() && axpy_overflows(old(self).dense(), y_vec.dense(), alpha as int)),
            r is Ok <==> (old(self).dim() == y_vec.dim() && !axpy_overflows(
                old(self).dense(),
                y_vec.dense(),
                alpha as int,
            )),
            r is Err ==> *final(self) == *old(self),
            r is Ok ==> {
                &&& final(self).well_formed()
                &&& final(self).dim() == old(self).dim()
                &&& final(self).dense() == axpy(old(self).dense(), y_vec.dense(), alpha as int)
                &&& forall|i: int|
                    #[trigger] final(self).stores(i) <==> (old(self).stores(i) || y_vec.stores(
                        i,
                    ))
            },
    {
        let n = self.full_length;
        if n != y_vec.full_length {
            return Err(PackedError::LengthMismatch);
        }
        let ghost xi = self.index@;
        let ghost xv = self.data@;
        let ghost yi = y_vec.index@;
        let ghost yv = y_vec.data@;
        let ghost a = alpha as int;
        let xl = self.index.len();
        let yl = y_vec.index.len();
        let mut idx: Vec<usize> = Vec::new();
        let mut vals: Vec<i64> = Vec::new();
        let mut kx: usize = 0;
        let mut ky: usize = 0;
        proof {
            lemma_merge_start(xi, xv, yi, yv, a, n as int);
        }
        while kx < xl || ky < yl
            invariant
                a == alpha as int,
                xi == self.index@,
                xv == self.data@,
                yi == y_vec.index@,
                yv == y_vec.data@,
                *self == *old(self),
                xl == xi.len(),
                yl == yi.len(),
                n == self.full_length,
                n == y_vec.full_length,
                self.well_formed(),
                y_vec.well_formed(),
                merge_inv(xi, xv, yi, yv, a, n as int, kx as int, ky as int, idx@, vals@),
            decreases (xl - kx) + (yl - ky),
        {
            proof {
                lemma_frontier_values(xi, xv, yi, yv, a, n as int, kx as int, ky as int, idx@, vals@);
            }
            let ghost p = frontier(xi, kx as int, yi, ky as int, n as int);
            let at_x = kx < xl && (ky == yl || self.index[kx] <= y_vec.index[ky]);
            let at_y = ky < yl && (kx == xl || y_vec.index[ky] <= self.index[kx]);
            let pos: usize;
            let v: i64;
            proof {
                if kx < xl {
                    assert(xi[kx as int] < n);
                }
                if ky < yl {
                    assert(yi[ky as int] < n);
                }
                assert(self.dense()[p] == value_at(xi, xv, p));
                assert(y_vec.dense()[p] == value_at(yi, yv, p));
            }
            if at_x && !at_y {
                pos = self.index[kx];
                v = self.data[kx];
                assert(a * value_at(yi, yv, p) == 0);
            } else {
                pos = y_vec.index[ky];
                let yk = y_vec.data[ky];
                let prod = match alpha.checked_mul(yk) {
                    Some(prod) => prod,
                    None => {
                        proof {
                            assert(axpy_overflows_at(self.dense(), y_vec.dense(), a, p));
                        }
                        return Err(PackedError::Overflow);
                    },
                };
                proof {
                    assert(a * value_at(yi, yv, p) == prod);
                }
                if at_x {
                    v = match self.data[kx].checked_add(prod) {
                        Some(v) => v,
                        None => {
                            proof {
                                assert(axpy_overflows_at(self.dense(), y_vec.dense(), a, p));
                            }
                            return Err(PackedError::Overflow);
                        },
                    };
                } else {
                    v = prod;
                }
            }
            proof {
                lemma_merge_step(
                    xi,
                    xv,
                    yi,
                    yv,
                    a,
                    n as int,
                    kx as int,
                    ky as int,
                    idx@,
                    vals@,
                    if at_x { kx + 1 } else { kx as int },
                    if at_y { ky + 1 } else { ky as int },
                    v,
                );
            }
            idx.push(pos);
            vals.push(v);
            if at_x {
                kx = kx + 1;
            }
            if at_y {
                ky = ky + 1;
            }
        }
        proof {
            lemma_merge_done(xi, xv, yi, yv, a, n as int, idx@, vals@);
        }
        *self = PackedVec { index: idx, data: vals, full_length: n };
        proof {
            let x0 = old(self).dense();
            let y0 = y_vec.dense();
            assert(self.dense() =~= axpy(x0, y0, a));
            assert forall|i: int| 0 <= i < x0.len() implies !axpy_overflows_at(x0, y0, a, i) by {
                lemma_value_in_i64(idx@, vals@, i);
            }
            assert forall|i: int|
                #[trigger] self.stores(i) <==> (old(self).stores(i) || y_vec.stores(i)) by {
                if !(0 <= i < n) {
                    if self.stores(i) {
                        let m = choose|m: int| 0 <= m < idx@.len() && idx@[m] == i;
                        assert(idx@[m] < n);
                    }
                    if old(self).stores(i) {
                        let m = choose|m: int| 0 <= m < xi.len() && xi[m] == i;
                        assert(xi[m] < n);
                    }
                    if y_vec.stores(i) {
                        let m = choose|m: int| 0 <= m < yi.len() && yi[m] == i;
                        assert(yi[m] < n);
                    }
                }
            }
        }
        Ok(())
    }
}

impl Default for PackedVec {
    fn default() -> (r: Self)
        ensures
            r.well_formed(),
            r.dim() == 0,
            r.indices().len() == 0,
    {
        Self::new()
    }
}

} // verus!
