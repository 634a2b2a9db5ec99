//! Tensor sharding: split a 2-D [`NumTensor`] across peers and reassemble it.
//!
//! Row-parallel sharding hands each peer a block of whole rows; column-parallel
//! sharding hands each peer the same window of columns from every row.
//! [`plan_shards`] splits one dimension into contiguous, near-equal pieces,
//! [`shard_tensor`] cuts one piece out and [`gather_shards`] puts the pieces
//! back together; `law_gather_inverts_shard` states that the last undoes the
//! first two.

use crate::computation_graph::GraphError;
use crate::numeric_exec::{shape_size, NumTensor};
use vstd::prelude::*;

verus! {

/// How a tensor is split across peers.
#[derive(Debug, Clone, Copy, PartialEq, Eq, Structural)]
pub enum ShardStrategy {
    /// Split along rows (dim 0) — e.g. the output features of a weight matrix.
    RowParallel,
    /// Split along columns (dim 1) — e.g. the input features of a weight matrix.
    ColumnParallel,
}

/// The dimension a strategy splits.
pub open spec fn dim_of(strategy: ShardStrategy) -> usize {
    match strategy {
        ShardStrategy::RowParallel => 0,
        ShardStrategy::ColumnParallel => 1,
    }
}

impl ShardStrategy {
    /// The tensor dimension this strategy splits.
    pub fn shard_dim(self) -> (d: usize)
        ensures
            d == dim_of(self),
    {
        match self {
            ShardStrategy::RowParallel => 0,
            ShardStrategy::ColumnParallel => 1,
        }
    }
}

/// Describes the contiguous slice of a tensor that one peer owns.
#[derive(Debug, Clone, PartialEq, Eq)]
pub struct ShardSpec {
    /// Dimension that is split (0 = rows, 1 = columns).
    pub shard_dim: usize,
    /// Start index along `shard_dim` (inclusive).
    pub start: usize,
    /// Length of this shard along `shard_dim`.
    pub len: usize,
    /// Full extent of `shard_dim` before splitting.
    pub dim_total: usize,
    /// Strategy that produced this shard.
    pub strategy: ShardStrategy,
}

// ─── Planning ─────────────────────────────────────────────────────────────────

/// The length of shard `i` when `total` is split into `n` shards: the first
/// `total % n` shards are one longer than the rest.
pub open spec fn shard_len(total: nat, n: nat, i: nat) -> nat {
    total / n + if i < total % n {
        1nat
    } else {
        0nat
    }
}

/// Where shard `i` starts: the lengths of the shards before it, added up.
pub open spec fn shard_start(total: nat, n: nat, i: nat) -> nat {
    i * (total / n) + if i < total % n {
        i
    } else {
        total % n
    }
}

/// The shards `plan_shards` describes for `total` split `n` ways.
pub open spec fn planned(total: usize, n: nat, strategy: ShardStrategy) -> Seq<ShardSpec> {
    Seq::new(
        n,
        |i: int|
            ShardSpec {
                shard_dim: dim_of(strategy),
                start: shard_start(total as nat, n, i as nat) as usize,
                len: shard_len(total as nat, n, i as nat) as usize,
                dim_total: total,
                strategy,
            },
    )
}

/// Each shard starts where the one before it ends, inside `0..total`; its
/// length is `total / n`, one more for the first `total % n` shards.
pub proof fn lemma_shard_step(total: nat, n: nat, i: nat)
    requires
        n > 0,
        i < n,
    ensures
        shard_start(total, n, i + 1) == shard_start(total, n, i) + shard_len(total, n, i),
        shard_start(total, n, i) + shard_len(total, n, i) <= total,
        shard_len(total, n, i) == total / n + if i < total % n {
            1nat
        } else {
            0nat
        },
{
    let b = total / n;
    let r = total % n;
    assert((i + 1) * b == i * b + b) by (nonlinear_arith);
    assert(n * b + r == total) by (nonlinear_arith)
        requires
            n > 0,
            b == total / n,
            r == total % n,
    ;
    assert(r < n) by (nonlinear_arith)
        requires
            n > 0,
            r == total % n,
    ;
    assert((i + 1) * b <= n * b) by (nonlinear_arith)
        requires
            i < n,
    ;
}

/// Shards planned for `total` tile `0..total`: the first starts at 0, each
/// starts where the previous one ends, the last ends at `total`, and no two
/// lengths differ by more than one.
pub proof fn law_plan_shards_tile(total: nat, n: nat)
    requires
        n > 0,
    ensures
        shard_start(total, n, 0) == 0,
        forall|i: nat| i < n ==> shard_start(total, n, i + 1) == shard_start(total, n, i) + shard_len(total, n, i),
        shard_start(total, n, n) == total,
        forall|i: nat, j: nat| i < n && j < n ==> shard_len(total, n, i) <= shard_len(total, n, j) + 1,
{
    assert forall|i: nat| i < n implies shard_start(total, n, i + 1) == shard_start(total, n, i)
        + shard_len(total, n, i) by {
        lemma_shard_step(total, n, i);
    }
    let b = total / n;
    let r = total % n;
    assert(n * b + r == total) by (nonlinear_arith)
        requires
            n > 0,
            b == total / n,
            r == total % n,
    ;
    assert(r < n) by (nonlinear_arith)
        requires
            n > 0,
            r == total % n,
    ;
}

/// Plan an even split of `dim_total` into `num_shards` contiguous shards.
///
/// Sizes differ by at most one element: the first `dim_total % num_shards`
/// shards are one larger than the rest, so the shards cover `0..dim_total`
/// exactly. Fails with `ExecutionError` when `num_shards` is zero.
pub fn plan_shards(dim_total: usize, num_shards: usize, strategy: ShardStrategy) -> (r: Result<
    Vec<ShardSpec>,
    GraphError,
>)
    ensures
        num_shards == 0 ==> r matches Err(GraphError::ExecutionError(_)),
        num_shards > 0 ==> (r matches Ok(v) && v@ == planned(dim_total, num_shards as nat, strategy)),
{
    if num_shards == 0 {
        return Err(GraphError::ExecutionError("plan_shards: num_shards must be > 0".to_owned()));
    }
    let base = dim_total / num_shards;
    let rem = dim_total % num_shards;
    let mut specs: Vec<ShardSpec> = Vec::new();
    let mut start: usize = 0;
    let mut i: usize = 0;
    while i < num_shards
        invariant
            num_shards > 0,
            i <= num_shards,
            base == dim_total / num_shards,
            rem == dim_total % num_shards,
            start == shard_start(dim_total as nat, num_shards as nat, i as nat),
            start <= dim_total,
            specs@ =~= planned(dim_total, num_shards as nat, strategy).take(i as int),
        decreases num_shards - i,
    {
        proof {
            lemma_shard_step(dim_total as nat, num_shards as nat, i as nat);
        }
        let len = base + if i < rem {
            1
        } else {
            0
        };
        specs.push(ShardSpec { shard_dim: strategy.shard_dim(), start, len, dim_total, strategy });
        start = start + len;
        i += 1;
    }
    Ok(specs)
}

// ─── Cutting and joining ─────────────────────────────────────────────────────

/// The `q`-th run of `w` consecutive elements of `s`.
pub open spec fn chunk<T>(s: Seq<T>, q: int, w: int) -> Seq<T> {
    s.subrange(q * w, (q + 1) * w)
}

/// Row `r` of a 2-D tensor.
pub open spec fn row_piece<T>(t: NumTensor<T>, r: int) -> Seq<T> {
    t.data@.subrange(r * t.shape@[1], (r + 1) * t.shape@[1])
}

/// `o` is the slice of the 2-D tensor `t` that `spec` describes: whole rows
/// `start..start + len`, or the columns `start..start + len` of every row.
pub open spec fn slice_of<T>(t: NumTensor<T>, spec: ShardSpec, o: NumTensor<T>) -> bool {
    let rows = t.shape@[0] as int;
    let cols = t.shape@[1] as int;
    &&& o.well_formed()
    &&& if spec.shard_dim == 0 {
        &&& o.shape@ == seq![spec.len, cols as usize]
        &&& o.data@ == t.data@.subrange(spec.start * cols, (spec.start + spec.len) * cols)
    } else {
        &&& o.shape@ == seq![rows as usize, spec.len]
        &&& forall|r: int|
            0 <= r < rows ==> #[trigger] row_piece(o, r) == t.data@.subrange(
                r * cols + spec.start,
                r * cols + spec.start + spec.len,
            )
    }
}

/// The elements of all tensors of `ts`, one after the other.
pub open spec fn concat_data<T>(ts: Seq<NumTensor<T>>) -> Seq<T>
    decreases ts.len(),
{
    if ts.len() == 0 {
        Seq::empty()
    } else {
        concat_data(ts.drop_last()) + ts.last().data@
    }
}

/// The extents of dimension `d` of the tensors of `ts`, added up.
pub open spec fn sum_dim<T>(ts: Seq<NumTensor<T>>, d: int) -> nat
    decreases ts.len(),
{
    if ts.len() == 0 {
        0
    } else {
        sum_dim(ts.drop_last(), d) + ts.last().shape@[d] as nat
    }
}

/// Row `r` of every tensor of `ts`, side by side.
pub open spec fn joined_row<T>(ts: Seq<NumTensor<T>>, r: int) -> Seq<T>
    decreases ts.len(),
{
    if ts.len() == 0 {
        Seq::empty()
    } else {
        joined_row(ts.drop_last(), r) + row_piece(ts.last(), r)
    }
}

/// The first `rows` joined rows of `ts`, one after the other.
pub open spec fn joined_rows<T>(ts: Seq<NumTensor<T>>, rows: nat) -> Seq<T>
    decreases rows,
{
    if rows == 0 {
        Seq::empty()
    } else {
        joined_rows(ts, (rows - 1) as nat) + joined_row(ts, rows - 1)
    }
}

/// Every tensor of `ts` is 2-D.
pub open spec fn all_2d<T>(ts: Seq<NumTensor<T>>) -> bool {
    forall|k: int| 0 <= k < ts.len() ==> (#[trigger] ts[k]).shape@.len() == 2
}

/// Every tensor of `ts` has the extent of the first along dimension `d`.
pub open spec fn agree_on<T>(ts: Seq<NumTensor<T>>, d: int) -> bool {
    forall|k: int| 0 <= k < ts.len() ==> (#[trigger] ts[k]).shape@[d] == ts[0].shape@[d]
}

/// The dimension whose extent all shards of a strategy share.
pub open spec fn shared_dim(strategy: ShardStrategy) -> int {
    match strategy {
        ShardStrategy::RowParallel => 1,
        ShardStrategy::ColumnParallel => 0,
    }
}

/// `o` is `shards` put back together: rows stacked for row-parallel shards,
/// rows joined side by side for column-parallel ones.
pub open spec fn gathered<T>(shards: Seq<NumTensor<T>>, strategy: ShardStrategy, o: NumTensor<T>) -> bool {
    &&& o.well_formed()
    &&& match strategy {
        ShardStrategy::RowParallel => {
            &&& o.shape@ == seq![sum_dim(shards, 0) as usize, shards[0].shape@[1]]
            &&& o.data@ == concat_data(shards)
        },
        ShardStrategy::ColumnParallel => {
            &&& o.shape@ == seq![shards[0].shape@[0], sum_dim(shards, 1) as usize]
            &&& o.data@ == joined_rows(shards, shards[0].shape@[0] as nat)
        },
    }
}

proof fn lemma_shape2_size(a: usize, b: usize)
    ensures
        shape_size(seq![a, b]) == a * b,
{
    let s = seq![a, b];
    assert(s.drop_last() =~= seq![a]);
    assert(seq![a].drop_last() =~= Seq::<usize>::empty());
    assert(shape_size(Seq::<usize>::empty()) == 1);
    assert(shape_size(seq![a]) == 1 * (a as nat));
    assert(shape_size(s) == shape_size(seq![a]) * (b as nat));
    assert(1 * (a as nat) == a as nat) by (nonlinear_arith);
}

proof fn lemma_row_bounds(r: int, rows: int, cols: int)
    requires
        0 <= r < rows,
        0 <= cols,
    ensures
        (r + 1) * cols <= rows * cols,
        r * cols + cols == (r + 1) * cols,
        0 <= r * cols,
{
    assert((r + 1) * cols <= rows * cols) by (nonlinear_arith)
        requires
            r + 1 <= rows,
            0 <= cols,
    ;
    assert(r * cols + cols == (r + 1) * cols) by (nonlinear_arith);
    assert(0 <= r * cols) by (nonlinear_arith)
        requires
            0 <= r,
            0 <= cols,
    ;
}

/// Extract the slice described by `spec` from a 2-D tensor.
///
/// Fails with `ShapeMismatch` when the tensor is not 2-D, when `spec.dim_total`
/// is not the tensor's extent along `spec.shard_dim`, or when the slice runs
/// past it; with `ExecutionError` when `spec.shard_dim` is neither 0 nor 1.
pub fn shard_tensor<T: Copy>(t: &NumTensor<T>, spec: &ShardSpec) -> (r: Result<NumTensor<T>, GraphError>)
    requires
        t.well_formed(),
        t.shape@.len() == 2 && spec.shard_dim < 2 && spec.dim_total == t.shape@[spec.shard_dim as int]
            ==> spec.start + spec.len <= usize::MAX,
    ensures
        t.shape@.len() != 2 ==> r matches Err(GraphError::ShapeMismatch(_)),
        t.shape@.len() == 2 && spec.shard_dim >= 2 ==> r matches Err(GraphError::ExecutionError(_)),
        t.shape@.len() == 2 && spec.shard_dim < 2 && spec.dim_total != t.shape@[spec.shard_dim as int]
            ==> r matches Err(GraphError::ShapeMismatch(_)),
        t.shape@.len() == 2 && spec.shard_dim < 2 && spec.dim_total == t.shape@[spec.shard_dim as int]
            ==> (spec.start + spec.len > spec.dim_total ==> r matches Err(GraphError::ShapeMismatch(_)))
            && (spec.start + spec.len <= spec.dim_total ==> (r matches Ok(o) && slice_of(*t, *spec, o))),
{
    if t.shape.len() != 2 {
        return Err(GraphError::ShapeMismatch("shard_tensor: only 2-D tensors supported".to_owned()));
    }
    let rows = t.shape[0];
    let cols = t.shape[1];
    if spec.shard_dim >= 2 {
        return Err(GraphError::ExecutionError("shard_tensor: bad shard_dim".to_owned()));
    }
    let axis_total = t.shape[spec.shard_dim];
    if spec.dim_total != axis_total {
        return Err(GraphError::ShapeMismatch("shard_tensor: spec.dim_total differs from the tensor dimension".to_owned()));
    }
    if spec.start + spec.len > axis_total {
        return Err(GraphError::ShapeMismatch("shard_tensor: slice out of bounds".to_owned()));
    }
    let dlen = t.data.len();
    proof {
        assert(t.shape@ =~= seq![rows, cols]);
        lemma_shape2_size(rows, cols);
    }
    let ghost src = t.data@;
    if spec.shard_dim == 0 {
        proof {
            if spec.start + spec.len > 0 {
                lemma_row_bounds(spec.start + spec.len - 1, rows as int, cols as int);
            }
            assert(spec.start * cols <= (spec.start + spec.len) * cols) by (nonlinear_arith)
                requires
                    0 <= cols,
            ;
            assert((spec.start + spec.len) * cols - spec.start * cols == spec.len * cols) by (nonlinear_arith);
        }
        let lo = spec.start * cols;
        let hi = (spec.start + spec.len) * cols;
        let mut data: Vec<T> = Vec::new();
        let mut p = lo;
        while p < hi
            invariant
                lo <= p <= hi,
                hi <= src.len(),
                src == t.data@,
                data@ == src.subrange(lo as int, p as int),
            decreases hi - p,
        {
            data.push(t.data[p]);
            assert(data@ =~= src.subrange(lo as int, p + 1));
            p += 1;
        }
        proof {
            lemma_shape2_size(spec.len, cols);
        }
        let shape = vec![spec.len, cols];
        let out = NumTensor { data, shape };
        assert(out.shape@ =~= seq![spec.len, cols]);
        Ok(out)
    } else {
        let len = spec.len;
        let start = spec.start;
        let mut data: Vec<T> = Vec::new();
        let mut r: usize = 0;
        while r < rows
            invariant
                r <= rows,
                rows == t.shape@[0],
                cols == t.shape@[1],
                src == t.data@,
                src.len() == rows * cols,
                src.len() == dlen,
                start + len <= cols,
                data@.len() == r * len,
                forall|q: int|
                    0 <= q < r ==> #[trigger] chunk(data@, q, len as int) == src.subrange(
                        q * cols + start,
                        q * cols + start + len,
                    ),
            decreases rows - r,
        {
            proof {
                lemma_row_bounds(r as int, rows as int, cols as int);
            }
            let base = r * cols + start;
            let ghost before = data@;
            let mut c: usize = 0;
            while c < len
                invariant
                    c <= len,
                    base + len <= src.len(),
                    src.len() == dlen,
                    src == t.data@,
                    data@.len() == before.len() + c,
                    forall|k: int| 0 <= k < before.len() ==> data@[k] == before[k],
                    data@.subrange(before.len() as int, before.len() + c) == src.subrange(
                        base as int,
                        base + c,
                    ),
                decreases len - c,
            {
                data.push(t.data[base + c]);
                assert(data@.subrange(before.len() as int, before.len() + c + 1) =~= src.subrange(
                    base as int,
                    base + c + 1,
                ));
                c += 1;
            }
            proof {
                assert((r + 1) * len == r * len + len) by (nonlinear_arith);
                assert forall|q: int| 0 <= q < r + 1 implies #[trigger] chunk(data@, q, len as int)
                    == src.subrange(q * cols + start, q * cols + start + len) by {
                    assert(before.len() == r * len);
                    if q < r {
                        assert((q + 1) * len <= r * len) by (nonlinear_arith)
                            requires
                                q + 1 <= r,
                                0 <= len,
                        ;
                        assert(0 <= q * len) by (nonlinear_arith)
                            requires
                                0 <= q,
                                0 <= len,
                        ;
                        assert((q + 1) * len == q * len + len) by (nonlinear_arith);
                        assert(data@.subrange(q * len, (q + 1) * len) =~= before.subrange(
                            q * len,
                            (q + 1) * len,
                        ));
                        assert(chunk(before, q, len as int) == src.subrange(
                            q * cols + start,
                            q * cols + start + len,
                        ));
                    } else {
                        assert(data@.subrange(q * len, (q + 1) * len) =~= data@.subrange(
                            before.len() as int,
                            before.len() + len,
                        ));
                    }
                }
            }
            r += 1;
        }
        proof {
            lemma_shape2_size(rows, len);
        }
        let shape = vec![rows, len];
        let out = NumTensor { data, shape };
        proof {
            assert(out.shape@ =~= seq![rows, len]);
            assert forall|q: int| 0 <= q < rows implies #[trigger] row_piece(out, q) == src.subrange(
                q * cols + start,
                q * cols + start + len,
            ) by {
                assert(row_piece(out, q) == chunk(data@, q, len as int));
            }
        }
        Ok(out)
    }
}

proof fn lemma_sum_dim_prefix<T>(ts: Seq<NumTensor<T>>, d: int, k: int)
    requires
        0 <= k <= ts.len(),
    ensures
        sum_dim(ts.take(k), d) <= sum_dim(ts, d),
    decreases ts.len(),
{
    if k < ts.len() {
        assert(ts.drop_last().take(k) =~= ts.take(k));
        lemma_sum_dim_prefix(ts.drop_last(), d, k);
    } else {
        assert(ts.take(k) =~= ts);
    }
}

proof fn lemma_concat_prefix<T>(ts: Seq<NumTensor<T>>, k: int)
    requires
        0 <= k <= ts.len(),
    ensures
        concat_data(ts.take(k)).len() <= concat_data(ts).len(),
    decreases ts.len(),
{
    if k < ts.len() {
        assert(ts.drop_last().take(k) =~= ts.take(k));
        lemma_concat_prefix(ts.drop_last(), k);
    } else {
        assert(ts.take(k) =~= ts);
    }
}

/// With a common extent `e` along dimension `d`, the elements of well-formed
/// 2-D tensors number `e` times the other extents added up.
proof fn lemma_concat_len<T>(ts: Seq<NumTensor<T>>, d: int, e: nat)
    requires
        d == 0 || d == 1,
        all_2d(ts),
        forall|k: int| 0 <= k < ts.len() ==> (#[trigger] ts[k]).well_formed(),
        forall|k: int| 0 <= k < ts.len() ==> (#[trigger] ts[k]).shape@[d] == e,
    ensures
        concat_data(ts).len() as int == (e as int) * (sum_dim(ts, 1 - d) as int),
    decreases ts.len(),
{
    if ts.len() > 0 {
        let rest = ts.drop_last();
        assert forall|k: int| 0 <= k < rest.len() implies (#[trigger] rest[k]).well_formed()
            && rest[k].shape@.len() == 2 && rest[k].shape@[d] == e by {
            assert(rest[k] == ts[k]);
        }
        lemma_concat_len(rest, d, e);
        let t = ts.last();
        assert(t == ts[ts.len() - 1]);
        assert(t.shape@ =~= seq![t.shape@[0], t.shape@[1]]);
        lemma_shape2_size(t.shape@[0], t.shape@[1]);
        let a = sum_dim(rest, 1 - d);
        let b = t.shape@[1 - d] as nat;
        let s0 = t.shape@[0] as nat;
        let s1 = t.shape@[1] as nat;
        assert(t.data@.len() == s0 * s1);
        assert(s0 * s1 == e * b) by (nonlinear_arith)
            requires
                (d == 0 && s0 == e && b == s1) || (d == 1 && s1 == e && b == s0),
        ;
        assert(e * a + e * b == e * (a + b)) by (nonlinear_arith);
        assert(sum_dim(ts, 1 - d) == a + b);
        assert(concat_data(ts) == concat_data(rest) + t.data@);
        assert(e * (a + b) >= 0) by (nonlinear_arith);
    } else {
        let z = sum_dim(ts, 1 - d) as int;
        assert((e as int) * z == 0) by (nonlinear_arith)
            requires
                z == 0,
        ;
    }
}

/// Row `r` of every shard, joined, is as long as the column extents added up.
proof fn lemma_joined_row_len<T>(ts: Seq<NumTensor<T>>, rows: nat, r: int)
    requires
        all_2d(ts),
        forall|k: int| 0 <= k < ts.len() ==> (#[trigger] ts[k]).well_formed(),
        forall|k: int| 0 <= k < ts.len() ==> (#[trigger] ts[k]).shape@[0] == rows,
        0 <= r < rows,
    ensures
        joined_row(ts, r).len() == sum_dim(ts, 1),
    decreases ts.len(),
{
    if ts.len() > 0 {
        let rest = ts.drop_last();
        assert forall|k: int| 0 <= k < rest.len() implies (#[trigger] rest[k]).well_formed()
            && rest[k].shape@.len() == 2 && rest[k].shape@[0] == rows by {
            assert(rest[k] == ts[k]);
        }
        lemma_joined_row_len(rest, rows, r);
        let t = ts.last();
        assert(t == ts[ts.len() - 1]);
        assert(t.shape@ =~= seq![t.shape@[0], t.shape@[1]]);
        lemma_shape2_size(t.shape@[0], t.shape@[1]);
        lemma_row_bounds(r, rows as int, t.shape@[1] as int);
    }
}

proof fn lemma_joined_rows_len<T>(ts: Seq<NumTensor<T>>, rows: nat, rr: nat)
    requires
        all_2d(ts),
        forall|k: int| 0 <= k < ts.len() ==> (#[trigger] ts[k]).well_formed(),
        forall|k: int| 0 <= k < ts.len() ==> (#[trigger] ts[k]).shape@[0] == rows,
        rr <= rows,
    ensures
        joined_rows(ts, rr).len() as int == (rr as int) * (sum_dim(ts, 1) as int),
    decreases rr,
{
    if rr > 0 {
        lemma_joined_rows_len(ts, rows, (rr - 1) as nat);
        lemma_joined_row_len(ts, rows, rr - 1);
        let c = sum_dim(ts, 1);
        assert((rr - 1) * c + c == rr * c) by (nonlinear_arith);
        assert(joined_rows(ts, rr) == joined_rows(ts, (rr - 1) as nat) + joined_row(ts, rr - 1));
        assert(rr * c >= 0) by (nonlinear_arith);
    } else {
        let c = sum_dim(ts, 1) as int;
        assert(0 * c == 0) by (nonlinear_arith);
    }
}

/// Reassemble shards (in peer order) back into the full 2-D tensor.
///
/// Row-parallel shards are stacked; column-parallel shards are joined row by
/// row. Fails with `ExecutionError` when there is no shard, and with
/// `ShapeMismatch` when a shard is not 2-D or when the shards disagree on the
/// extent they must share (columns for row-parallel, rows for column-parallel).
pub fn gather_shards<T: Copy>(shards: &[NumTensor<T>], strategy: ShardStrategy) -> (r: Result<
    NumTensor<T>,
    GraphError,
>)
    requires
        forall|k: int| 0 <= k < shards@.len() ==> (#[trigger] shards@[k]).well_formed(),
        all_2d(shards@) ==> sum_dim(shards@, 1 - shared_dim(strategy)) <= usize::MAX,
        concat_data(shards@).len() <= usize::MAX,
    ensures
        shards@.len() == 0 ==> r matches Err(GraphError::ExecutionError(_)),
        shards@.len() > 0 && !all_2d(shards@) ==> r matches Err(GraphError::ShapeMismatch(_)),
        shards@.len() > 0 && all_2d(shards@) ==> {
            &&& agree_on(shards@, shared_dim(strategy)) ==> (r matches Ok(o) && gathered(shards@, strategy, o))
            &&& !agree_on(shards@, shared_dim(strategy)) ==> r matches Err(GraphError::ShapeMismatch(_))
        },
{
    if shards.len() == 0 {
        return Err(GraphError::ExecutionError("gather_shards: no shards to gather".to_owned()));
    }
    let n = shards.len();
    let mut k: usize = 0;
    while k < n
        invariant
            k <= n,
            n == shards@.len(),
            forall|j: int| 0 <= j < k ==> (#[trigger] shards@[j]).shape@.len() == 2,
        decreases n - k,
    {
        if shards[k].shape.len() != 2 {
            return Err(GraphError::ShapeMismatch("gather_shards: only 2-D shards supported".to_owned()));
        }
        k += 1;
    }
    assert(all_2d(shards@));
    match strategy {
        ShardStrategy::RowParallel => {
            let cols = shards[0].shape[1];
            let mut data: Vec<T> = Vec::new();
            let mut total_rows: usize = 0;
            k = 0;
            while k < n
                invariant
                    k <= n,
                    n == shards@.len(),
                    n > 0,
                    all_2d(shards@),
                    strategy == ShardStrategy::RowParallel,
                    cols == shards@[0].shape@[1],
                    forall|j: int| 0 <= j < k ==> (#[trigger] shards@[j]).shape@[1] == cols,
                    sum_dim(shards@, 0) <= usize::MAX,
                    concat_data(shards@).len() <= usize::MAX,
                    total_rows == sum_dim(shards@.take(k as int), 0),
                    data@ == concat_data(shards@.take(k as int)),
                decreases n - k,
            {
                if shards[k].shape[1] != cols {
                    assert(shards@[k as int].shape@[1] != shards@[0].shape@[1]);
                    assert(!agree_on(shards@, 1));
                    return Err(GraphError::ShapeMismatch("gather_shards(row): column mismatch".to_owned()));
                }
                proof {
                    assert(shards@.take(k + 1).drop_last() =~= shards@.take(k as int));
                    assert(shards@.take(k + 1).last() == shards@[k as int]);
                    lemma_sum_dim_prefix(shards@, 0, k + 1);
                    lemma_concat_prefix(shards@, k + 1);
                }
                total_rows = total_rows + shards[k].shape[0];
                let ghost before = data@;
                let src = &shards[k].data;
                let mut p: usize = 0;
                while p < src.len()
                    invariant
                        p <= src@.len(),
                        src@ == shards@[k as int].data@,
                        before + src@ == concat_data(shards@.take(k + 1)),
                        concat_data(shards@.take(k + 1)).len() <= usize::MAX,
                        data@ == before + src@.subrange(0, p as int),
                    decreases src@.len() - p,
                {
                    data.push(src[p]);
                    assert(data@ =~= before + src@.subrange(0, p + 1));
                    p += 1;
                }
                assert(src@.subrange(0, src@.len() as int) =~= src@);
                k += 1;
            }
            proof {
                assert(shards@.take(n as int) =~= shards@);
                lemma_concat_len(shards@, 1, cols as nat);
                lemma_shape2_size(total_rows, cols);
                assert((cols as int) * (total_rows as int) == (total_rows as int) * (cols as int)) by (nonlinear_arith);
            }
            let shape = vec![total_rows, cols];
            let out = NumTensor { data, shape };
            assert(out.shape@ =~= seq![total_rows, cols]);
            Ok(out)
        },
        ShardStrategy::ColumnParallel => {
            let rows = shards[0].shape[0];
            let mut total_cols: usize = 0;
            k = 0;
            while k < n
                invariant
                    k <= n,
                    n == shards@.len(),
                    n > 0,
                    all_2d(shards@),
                    strategy == ShardStrategy::ColumnParallel,
                    rows == shards@[0].shape@[0],
                    forall|j: int| 0 <= j < k ==> (#[trigger] shards@[j]).shape@[0] == rows,
                    sum_dim(shards@, 1) <= usize::MAX,
                    total_cols == sum_dim(shards@.take(k as int), 1),
                decreases n - k,
            {
                if shards[k].shape[0] != rows {
                    assert(shards@[k as int].shape@[0] != shards@[0].shape@[0]);
                    assert(!agree_on(shards@, 0));
                    return Err(GraphError::ShapeMismatch("gather_shards(col): row mismatch".to_owned()));
                }
                proof {
                    assert(shards@.take(k + 1).drop_last() =~= shards@.take(k as int));
                    lemma_sum_dim_prefix(shards@, 1, k + 1);
                }
                total_cols = total_cols + shards[k].shape[1];
                k += 1;
            }
            proof {
                assert(shards@.take(n as int) =~= shards@);
                lemma_concat_len(shards@, 0, rows as nat);
                lemma_joined_rows_len(shards@, rows as nat, rows as nat);
            }
            let mut data: Vec<T> = Vec::new();
            let mut r: usize = 0;
            while r < rows
                invariant
                    r <= rows,
                    n == shards@.len(),
                    all_2d(shards@),
                    forall|j: int| 0 <= j < n ==> (#[trigger] shards@[j]).well_formed(),
                    forall|j: int| 0 <= j < n ==> (#[trigger] shards@[j]).shape@[0] == rows,
                    joined_rows(shards@, rows as nat).len() <= usize::MAX,
                    data@ == joined_rows(shards@, r as nat),
                decreases rows - r,
            {
                let ghost before = data@;
                proof {
                    lemma_joined_rows_len(shards@, rows as nat, (r + 1) as nat);
                    lemma_joined_rows_len(shards@, rows as nat, rows as nat);
                    assert((r + 1) * sum_dim(shards@, 1) <= rows * sum_dim(shards@, 1)) by (nonlinear_arith)
                        requires
                            r + 1 <= rows,
                    ;
                }
                k = 0;
                while k < n
                    invariant
                        k <= n,
                        r < rows,
                        n == shards@.len(),
                        all_2d(shards@),
                        forall|j: int| 0 <= j < n ==> (#[trigger] shards@[j]).well_formed(),
                        forall|j: int| 0 <= j < n ==> (#[trigger] shards@[j]).shape@[0] == rows,
                        before == joined_rows(shards@, r as nat),
                        joined_rows(shards@, (r + 1) as nat).len() <= usize::MAX,
                        data@ == before + joined_row(shards@.take(k as int), r as int),
                    decreases n - k,
                {
                    let s = &shards[k];
                    let c = s.shape[1];
                    let slen = s.data.len();
                    proof {
                        assert(s.shape@ =~= seq![rows, c]);
                        lemma_shape2_size(rows, c);
                        lemma_row_bounds(r as int, rows as int, c as int);
                        assert(shards@.take(k + 1).drop_last() =~= shards@.take(k as int));
                        assert(shards@.take(k + 1).last() == shards@[k as int]);
                        let tk1 = shards@.take(k + 1);
                        assert forall|j: int| 0 <= j < tk1.len() implies (#[trigger] tk1[j]).well_formed()
                            && tk1[j].shape@.len() == 2 && tk1[j].shape@[0] == rows by {
                            assert(tk1[j] == shards@[j]);
                        }
                        lemma_joined_row_len(tk1, rows as nat, r as int);
                        lemma_joined_row_len(shards@, rows as nat, r as int);
                        lemma_sum_dim_prefix(shards@, 1, k + 1);
                    }
                    let lo = r * c;
                    let hi = lo + c;
                    let ghost mid = data@;
                    let mut p = lo;
                    while p < hi
                        invariant
                            lo <= p <= hi,
                            hi <= slen,
                            slen == s.data@.len(),
                            mid.len() + (hi - lo) <= usize::MAX,
                            data@ == mid + s.data@.subrange(lo as int, p as int),
                        decreases hi - p,
                    {
                        data.push(s.data[p]);
                        assert(data@ =~= mid + s.data@.subrange(lo as int, p + 1));
                        p += 1;
                    }
                    proof {
                        assert(row_piece(*s, r as int) =~= s.data@.subrange(lo as int, hi as int));
                        assert(data@ =~= before + joined_row(shards@.take(k + 1), r as int));
                    }
                    k += 1;
                }
                proof {
                    assert(shards@.take(n as int) =~= shards@);
                }
                r += 1;
            }
            proof {
                lemma_shape2_size(rows, total_cols);
            }
            let shape = vec![rows, total_cols];
            let out = NumTensor { data, shape };
            assert(out.shape@ =~= seq![rows, total_cols]);
            Ok(out)
        },
    }
}

// ─── Gathering undoes sharding ───────────────────────────────────────────────

proof fn lemma_row_shards_concat<T>(m: NumTensor<T>, n: nat, shards: Seq<NumTensor<T>>, k: nat)
    requires
        m.well_formed(),
        m.shape@.len() == 2,
        n > 0,
        k <= n,
        shards.len() == n,
        forall|i: int|
            0 <= i < n ==> slice_of(
                m,
                #[trigger] planned(m.shape@[0], n, ShardStrategy::RowParallel)[i],
                shards[i],
            ),
    ensures
        concat_data(shards.take(k as int)) == m.data@.subrange(
            0,
            shard_start(m.shape@[0] as nat, n, k) * m.shape@[1],
        ),
        sum_dim(shards.take(k as int), 0) == shard_start(m.shape@[0] as nat, n, k),
    decreases k,
{
    let rows = m.shape@[0] as nat;
    let cols = m.shape@[1] as nat;
    assert(m.shape@ =~= seq![m.shape@[0], m.shape@[1]]);
    lemma_shape2_size(m.shape@[0], m.shape@[1]);
    if k == 0 {
        law_plan_shards_tile(rows, n);
        assert(shard_start(rows, n, k) == 0);
        let z = shard_start(rows, n, k) as int;
        assert(z * (cols as int) == 0) by (nonlinear_arith)
            requires
                z == 0,
        ;
        assert(shards.take(0) =~= Seq::<NumTensor<T>>::empty());
        assert(m.data@.subrange(0, 0) =~= Seq::<T>::empty());
    } else {
        let i = (k - 1) as nat;
        lemma_row_shards_concat(m, n, shards, i);
        lemma_shard_step(rows, n, i);
        let spec = planned(m.shape@[0], n, ShardStrategy::RowParallel)[i as int];
        assert(slice_of(m, spec, shards[i as int]));
        let a = shard_start(rows, n, i);
        let b = shard_start(rows, n, k);
        assert(shards.take(k as int).drop_last() =~= shards.take(i as int));
        assert(shards.take(k as int).last() == shards[i as int]);
        assert(a * cols <= b * cols) by (nonlinear_arith)
            requires
                a <= b,
        ;
        assert(b * cols <= rows * cols) by (nonlinear_arith)
            requires
                b <= rows,
        ;
        assert(0 <= a * cols) by (nonlinear_arith);
        assert(concat_data(shards.take(k as int)) =~= m.data@.subrange(0, (b * cols) as int));
    }
}

proof fn lemma_col_shards_row<T>(m: NumTensor<T>, n: nat, shards: Seq<NumTensor<T>>, r: int, k: nat)
    requires
        m.well_formed(),
        m.shape@.len() == 2,
        n > 0,
        k <= n,
        0 <= r < m.shape@[0],
        shards.len() == n,
        forall|i: int|
            0 <= i < n ==> slice_of(
                m,
                #[trigger] planned(m.shape@[1], n, ShardStrategy::ColumnParallel)[i],
                shards[i],
            ),
    ensures
        joined_row(shards.take(k as int), r) == m.data@.subrange(
            r * m.shape@[1],
            r * m.shape@[1] + shard_start(m.shape@[1] as nat, n, k),
        ),
        sum_dim(shards.take(k as int), 1) == shard_start(m.shape@[1] as nat, n, k),
    decreases k,
{
    let rows = m.shape@[0] as int;
    let cols = m.shape@[1] as nat;
    assert(m.shape@ =~= seq![m.shape@[0], m.shape@[1]]);
    lemma_shape2_size(m.shape@[0], m.shape@[1]);
    lemma_row_bounds(r, rows, cols as int);
    if k == 0 {
        law_plan_shards_tile(cols, n);
        assert(shard_start(cols, n, k) == 0);
        assert(shards.take(0) =~= Seq::<NumTensor<T>>::empty());
        assert(m.data@.subrange(r * cols, r * cols) =~= Seq::<T>::empty());
    } else {
        let i = (k - 1) as nat;
        lemma_col_shards_row(m, n, shards, r, i);
        lemma_shard_step(cols, n, i);
        let spec = planned(m.shape@[1], n, ShardStrategy::ColumnParallel)[i as int];
        assert(slice_of(m, spec, shards[i as int]));
        assert(row_piece(shards[i as int], r) == m.data@.subrange(
            r * cols + spec.start,
            r * cols + spec.start + spec.len,
        ));
        assert(shards.take(k as int).drop_last() =~= shards.take(i as int));
        assert(shards.take(k as int).last() == shards[i as int]);
        assert(joined_row(shards.take(k as int), r) =~= m.data@.subrange(
            r * cols,
            r * cols + shard_start(cols, n, k),
        ));
    }
}

proof fn lemma_col_shards_rows<T>(m: NumTensor<T>, n: nat, shards: Seq<NumTensor<T>>, rr: nat)
    requires
        m.well_formed(),
        m.shape@.len() == 2,
        n > 0,
        rr <= m.shape@[0],
        shards.len() == n,
        forall|i: int|
            0 <= i < n ==> slice_of(
                m,
                #[trigger] planned(m.shape@[1], n, ShardStrategy::ColumnParallel)[i],
                shards[i],
            ),
    ensures
        joined_rows(shards, rr) == m.data@.subrange(0, rr * m.shape@[1]),
    decreases rr,
{
    let cols = m.shape@[1] as nat;
    let rows = m.shape@[0] as int;
    assert(m.shape@ =~= seq![m.shape@[0], m.shape@[1]]);
    lemma_shape2_size(m.shape@[0], m.shape@[1]);
    law_plan_shards_tile(cols, n);
    if rr == 0 {
        assert(m.data@.subrange(0, (0 * cols) as int) =~= Seq::<T>::empty()) by {
            assert(0 * cols == 0) by (nonlinear_arith);
        }
    } else {
        let r = rr - 1;
        lemma_col_shards_rows(m, n, shards, (rr - 1) as nat);
        lemma_col_shards_row(m, n, shards, r, n);
        assert(shards.take(n as int) =~= shards);
        lemma_row_bounds(r, rows, cols as int);
        assert(joined_rows(shards, rr) =~= m.data@.subrange(0, (rr * cols) as int));
    }
}

/// Gathering undoes sharding: cut a well-formed 2-D tensor into the `n > 0`
/// shards that `plan_shards` describes for the strategy's dimension, and
/// gathering the pieces gives back the tensor's elements and shape.
pub proof fn law_gather_inverts_shard<T>(
    m: NumTensor<T>,
    strategy: ShardStrategy,
    n: nat,
    shards: Seq<NumTensor<T>>,
    o: NumTensor<T>,
)
    requires
        m.well_formed(),
        m.shape@.len() == 2,
        n > 0,
        shards.len() == n,
        forall|i: int|
            0 <= i < n ==> slice_of(
                m,
                #[trigger] planned(m.shape@[dim_of(strategy) as int], n, strategy)[i],
                shards[i],
            ),
        gathered(shards, strategy, o),
    ensures
        o.data@ == m.data@,
        o.shape@ == m.shape@,
{
    assert(m.shape@ =~= seq![m.shape@[0], m.shape@[1]]);
    lemma_shape2_size(m.shape@[0], m.shape@[1]);
    match strategy {
        ShardStrategy::RowParallel => {
            let rows = m.shape@[0] as nat;
            lemma_row_shards_concat(m, n, shards, n);
            law_plan_shards_tile(rows, n);
            assert(shards.take(n as int) =~= shards);
            assert(m.data@.subrange(0, (rows * m.shape@[1]) as int) =~= m.data@);
            let spec0 = planned(m.shape@[0], n, strategy)[0];
            assert(slice_of(m, spec0, shards[0]));
            assert(o.shape@ =~= m.shape@);
        },
        ShardStrategy::ColumnParallel => {
            let cols = m.shape@[1] as nat;
            lemma_col_shards_rows(m, n, shards, m.shape@[0] as nat);
            law_plan_shards_tile(cols, n);
            let spec0 = planned(m.shape@[1], n, strategy)[0];
            assert(slice_of(m, spec0, shards[0]));
            assert(m.data@.subrange(0, (m.shape@[0] * cols) as int) =~= m.data@);
            if m.shape@[0] > 0 {
                lemma_col_shards_row(m, n, shards, 0, n);
            } else {
                lemma_col_sum(m, n, shards, n);
            }
            assert(shards.take(n as int) =~= shards);
            assert(o.shape@ =~= m.shape@);
        },
    }
}

proof fn lemma_col_sum<T>(m: NumTensor<T>, n: nat, shards: Seq<NumTensor<T>>, k: nat)
    requires
        m.shape@.len() == 2,
        n > 0,
        k <= n,
        shards.len() == n,
        forall|i: int|
            0 <= i < n ==> slice_of(
                m,
                #[trigger] planned(m.shape@[1], n, ShardStrategy::ColumnParallel)[i],
                shards[i],
            ),
    ensures
        sum_dim(shards.take(k as int), 1) == shard_start(m.shape@[1] as nat, n, k),
    decreases k,
{
    if k == 0 {
        law_plan_shards_tile(m.shape@[1] as nat, n);
        assert(shard_start(m.shape@[1] as nat, n, k) == 0);
        assert(shards.take(0) =~= Seq::<NumTensor<T>>::empty());
    } else {
        let i = (k - 1) as nat;
        lemma_col_sum(m, n, shards, i);
        lemma_shard_step(m.shape@[1] as nat, n, i);
        let spec = planned(m.shape@[1], n, ShardStrategy::ColumnParallel)[i as int];
        assert(slice_of(m, spec, shards[i as int]));
        assert(shards.take(k as int).drop_last() =~= shards.take(i as int));
        assert(shards.take(k as int).last() == shards[i as int]);
    }
}

/// The shards that `plan_shards` describes, cut from a well-formed 2-D tensor,
/// are what `gather_shards` accepts and gathers: each is a well-formed 2-D
/// tensor, they agree on the extent they share, and their extents along the
/// split dimension add up to the tensor's.
pub proof fn law_planned_shards_gather<T>(m: NumTensor<T>, strategy: ShardStrategy, n: nat, shards: Seq<NumTensor<T>>)
    requires
        m.well_formed(),
        m.shape@.len() == 2,
        m.data@.len() <= usize::MAX,
        n > 0,
        shards.len() == n,
        forall|i: int|
            0 <= i < n ==> slice_of(
                m,
                #[trigger] planned(m.shape@[dim_of(strategy) as int], n, strategy)[i],
                shards[i],
            ),
    ensures
        forall|k: int| 0 <= k < shards.len() ==> (#[trigger] shards[k]).well_formed(),
        all_2d(shards),
        agree_on(shards, shared_dim(strategy)),
        sum_dim(shards, 1 - shared_dim(strategy)) == m.shape@[dim_of(strategy) as int],
        concat_data(shards).len() == m.data@.len(),
{
    let rows = m.shape@[0];
    let cols = m.shape@[1];
    assert(m.shape@ =~= seq![rows, cols]);
    lemma_shape2_size(rows, cols);
    assert forall|k: int| 0 <= k < shards.len() implies (#[trigger] shards[k]).well_formed()
        && shards[k].shape@.len() == 2 && shards[k].shape@[shared_dim(strategy)] == m.shape@[shared_dim(strategy)] by {
        let spec = planned(m.shape@[dim_of(strategy) as int], n, strategy)[k];
        assert(slice_of(m, spec, shards[k]));
    }
    assert(shards.take(n as int) =~= shards);
    match strategy {
        ShardStrategy::RowParallel => {
            lemma_row_shards_concat(m, n, shards, n);
            law_plan_shards_tile(rows as nat, n);
            lemma_concat_len(shards, 1, cols as nat);
            assert((cols as int) * (rows as int) == (rows as int) * (cols as int)) by (nonlinear_arith);
        },
        ShardStrategy::ColumnParallel => {
            lemma_col_sum(m, n, shards, n);
            law_plan_shards_tile(cols as nat, n);
            lemma_concat_len(shards, 0, rows as nat);
        },
    }
}

} // verus!
