//! Collective operations over [`NumTensor`]s for distributed execution.
//!
//! All-gather stacks every peer's shard along the leading axis. All-reduce and
//! reduce-scatter combine elements arithmetically; the element arithmetic is
//! the caller's, while the shape checks they start with and the split that
//! ends a reduce-scatter are here: [`check_same_shape`] and
//! [`scatter_leading`].

use crate::computation_graph::GraphError;
use crate::distributed::sharding::{concat_data, law_plan_shards_tile, shard_len, shard_start, sum_dim};
use crate::numeric_exec::{checked_shape_size, shape_size, NumTensor};
use vstd::prelude::*;

verus! {

/// Element-wise reduction applied across the tensors contributed by each peer.
#[derive(Debug, Clone, Copy, PartialEq, Eq, Structural)]
pub enum ReduceOp {
    /// Sum across peers.
    Sum,
    /// Arithmetic mean across peers.
    Mean,
    /// Element-wise maximum.
    Max,
    /// Element-wise minimum.
    Min,
    /// Element-wise product.
    Product,
}

/// The dimensions after the leading one.
pub open spec fn trailing(shape: Seq<usize>) -> Seq<usize> {
    shape.subrange(1, shape.len() as int)
}

/// Every tensor has a leading axis and the trailing dimensions of the first.
pub open spec fn stackable<T>(ts: Seq<NumTensor<T>>) -> bool {
    forall|k: int|
        0 <= k < ts.len() ==> (#[trigger] ts[k]).shape@.len() >= 1 && trailing(ts[k].shape@)
            == trailing(ts[0].shape@)
}

/// Every tensor has the shape of the first.
pub open spec fn same_shape<T>(ts: Seq<NumTensor<T>>) -> bool {
    forall|k: int| 0 <= k < ts.len() ==> (#[trigger] ts[k]).shape@ == ts[0].shape@
}

proof fn lemma_shape_size_prepend(l: usize, tr: Seq<usize>)
    ensures
        shape_size(seq![l] + tr) == (l as nat) * shape_size(tr),
    decreases tr.len(),
{
    if tr.len() == 0 {
        assert(seq![l] + tr =~= seq![l]);
        assert(seq![l].drop_last() =~= Seq::<usize>::empty());
        assert(shape_size(Seq::<usize>::empty()) == 1);
        assert(seq![l].last() == l);
        assert(shape_size(seq![l]) == 1 * (l as nat));
        assert(1 * (l as nat) == (l as nat) * 1) by (nonlinear_arith);
    } else {
        lemma_shape_size_prepend(l, tr.drop_last());
        assert((seq![l] + tr).drop_last() =~= seq![l] + tr.drop_last());
        assert((seq![l] + tr).last() == tr.last());
        let a = l as nat;
        let b = shape_size(tr.drop_last());
        let c = tr.last() as nat;
        assert((a * b) * c == a * (b * c)) by (nonlinear_arith);
    }
}

proof fn lemma_stack_len<T>(ts: Seq<NumTensor<T>>, tr: Seq<usize>)
    requires
        forall|k: int| 0 <= k < ts.len() ==> (#[trigger] ts[k]).well_formed(),
        forall|k: int|
            0 <= k < ts.len() ==> (#[trigger] ts[k]).shape@.len() >= 1 && trailing(ts[k].shape@) == tr,
    ensures
        concat_data(ts).len() as int == (sum_dim(ts, 0) as int) * (shape_size(tr) as int),
    decreases ts.len(),
{
    if ts.len() == 0 {
        let p = shape_size(tr) as int;
        assert(0 * p == 0) by (nonlinear_arith);
    } else {
        let rest = ts.drop_last();
        assert forall|k: int| 0 <= k < rest.len() implies (#[trigger] rest[k]).well_formed()
            && rest[k].shape@.len() >= 1 && trailing(rest[k].shape@) == tr by {
            assert(rest[k] == ts[k]);
        }
        lemma_stack_len(rest, tr);
        let t = ts.last();
        assert(t == ts[ts.len() - 1]);
        assert(t.shape@ =~= seq![t.shape@[0]] + tr);
        lemma_shape_size_prepend(t.shape@[0], tr);
        let a = sum_dim(rest, 0) as int;
        let b = t.shape@[0] as int;
        let p = shape_size(tr) as int;
        assert(a * p + b * p == (a + b) * p) by (nonlinear_arith);
    }
}

/// Check that there is at least one tensor and that every tensor has the
/// shape of the first: `ExecutionError` when there is none, `ShapeMismatch`
/// when the shapes differ.
pub fn check_same_shape<T>(tensors: &[NumTensor<T>]) -> (r: Result<(), GraphError>)
    ensures
        tensors@.len() == 0 ==> r matches Err(GraphError::ExecutionError(_)),
        tensors@.len() > 0 && same_shape(tensors@) ==> r is Ok,
        tensors@.len() > 0 && !same_shape(tensors@) ==> r matches Err(GraphError::ShapeMismatch(_)),
{
    if tensors.len() == 0 {
        return Err(GraphError::ExecutionError("all_reduce: no tensors to reduce".to_owned()));
    }
    let first = &tensors[0].shape;
    let mut k: usize = 1;
    while k < tensors.len()
        invariant
            1 <= k <= tensors@.len(),
            first@ == tensors@[0].shape@,
            forall|j: int| 0 <= j < k ==> (#[trigger] tensors@[j]).shape@ == tensors@[0].shape@,
        decreases tensors@.len() - k,
    {
        let s = &tensors[k].shape;
        let mut same = s.len() == first.len();
        let mut d: usize = 0;
        while same && d < s.len()
            invariant
                d <= s@.len(),
                same ==> s@.len() == first@.len(),
                same ==> forall|e: int| 0 <= e < d ==> s@[e] == first@[e],
                !same ==> s@ != first@,
            decreases s@.len() - d,
        {
            if s[d] != first[d] {
                same = false;
            }
            d += 1;
        }
        if !same {
            assert(tensors@[k as int].shape@ != tensors@[0].shape@);
            return Err(GraphError::ShapeMismatch("all_reduce: shapes differ".to_owned()));
        }
        assert(s@ =~= first@);
        k += 1;
    }
    Ok(())
}

/// All-gather: concatenate each peer's shard along the leading axis (dim 0),
/// yielding the full tensor. All shards must share their trailing dimensions.
///
/// Fails with `ExecutionError` when there is no shard and with `ShapeMismatch`
/// when the first shard is a scalar or when some shard is a scalar or has other
/// trailing dimensions than the first.
pub fn all_gather<T: Copy>(shards: &[NumTensor<T>]) -> (r: Result<NumTensor<T>, GraphError>)
    requires
        forall|k: int| 0 <= k < shards@.len() ==> (#[trigger] shards@[k]).well_formed(),
        stackable(shards@) ==> sum_dim(shards@, 0) <= usize::MAX,
        concat_data(shards@).len() <= usize::MAX,
    ensures
        shards@.len() == 0 ==> r matches Err(GraphError::ExecutionError(_)),
        shards@.len() > 0 && !stackable(shards@) ==> r matches Err(GraphError::ShapeMismatch(_)),
        shards@.len() > 0 && stackable(shards@) ==> (r matches Ok(o) && o.well_formed() && o.data@
            == concat_data(shards@) && o.shape@ == seq![sum_dim(shards@, 0) as usize] + trailing(
            shards@[0].shape@,
        )),
{
    if shards.len() == 0 {
        return Err(GraphError::ExecutionError("all_gather: no shards to gather".to_owned()));
    }
    let first = &shards[0].shape;
    if first.len() == 0 {
        return Err(GraphError::ShapeMismatch("all_gather: scalar shards have no leading axis".to_owned()));
    }
    let ghost tr = trailing(first@);
    let n = shards.len();
    let mut k: usize = 0;
    while k < n
        invariant
            k <= n,
            n == shards@.len(),
            first@ == shards@[0].shape@,
            first@.len() >= 1,
            tr == trailing(first@),
            forall|j: int|
                0 <= j < k ==> (#[trigger] shards@[j]).shape@.len() >= 1 && trailing(shards@[j].shape@)
                    == tr,
        decreases n - k,
    {
        let s = &shards[k].shape;
        let mut same = s.len() == first.len() && s.len() >= 1;
        let mut d: usize = 1;
        while same && d < s.len()
            invariant
                1 <= d,
                same ==> s@.len() == first@.len() && s@.len() >= 1 && d <= s@.len(),
                same ==> forall|e: int| 1 <= e < d ==> s@[e] == first@[e],
                !same ==> s@.len() == 0 || trailing(s@) != trailing(first@),
            decreases s@.len() - d,
        {
            if s[d] != first[d] {
                assert(trailing(s@)[d - 1] != trailing(first@)[d - 1]);
                same = false;
            }
            d += 1;
        }
        if !same {
            assert(!stackable(shards@)) by {
                assert(shards@[k as int].shape@ == s@);
            }
            return Err(GraphError::ShapeMismatch("all_gather: trailing dims incompatible".to_owned()));
        }
        assert(trailing(s@) =~= trailing(first@));
        k += 1;
    }
    assert(stackable(shards@));
    let mut data: Vec<T> = Vec::new();
    let mut lead_total: usize = 0;
    k = 0;
    while k < n
        invariant
            k <= n,
            n == shards@.len(),
            stackable(shards@),
            sum_dim(shards@, 0) <= usize::MAX,
            concat_data(shards@).len() <= usize::MAX,
            lead_total == sum_dim(shards@.take(k as int), 0),
            data@ == concat_data(shards@.take(k as int)),
        decreases n - k,
    {
        proof {
            assert(shards@.take(k + 1).drop_last() =~= shards@.take(k as int));
            assert(shards@.take(k + 1).last() == shards@[k as int]);
            lemma_sum_dim_prefix0(shards@, k + 1);
            lemma_concat_prefix0(shards@, k + 1);
        }
        lead_total = lead_total + shards[k].shape[0];
        let src = &shards[k].data;
        let ghost before = data@;
        let mut p: usize = 0;
        while p < src.len()
            invariant
                p <= src@.len(),
                src@ == shards@[k as int].data@,
                before + src@ == concat_data(shards@.take(k + 1)),
                concat_data(shards@.take(k + 1)).len() <= usize::MAX,
                data@ == before + src@.subrange(0, p as int),
            decreases src@.len() - p,
        {
            data.push(src[p]);
            assert(data@ =~= before + src@.subrange(0, p + 1));
            p += 1;
        }
        assert(src@.subrange(0, src@.len() as int) =~= src@);
        k += 1;
    }
    let mut shape: Vec<usize> = Vec::new();
    shape.push(lead_total);
    let mut d: usize = 1;
    while d < first.len()
        invariant
            1 <= d <= first@.len(),
            shape@ == seq![lead_total] + first@.subrange(1, d as int),
        decreases first@.len() - d,
    {
        shape.push(first[d]);
        assert(shape@ =~= seq![lead_total] + first@.subrange(1, d + 1));
        d += 1;
    }
    proof {
        assert(shards@.take(n as int) =~= shards@);
        assert forall|j: int| 0 <= j < shards@.len() implies (#[trigger] shards@[j]).shape@.len() >= 1
            && trailing(shards@[j].shape@) == tr by {
        }
        lemma_stack_len(shards@, tr);
        lemma_shape_size_prepend(lead_total, tr);
        let a = sum_dim(shards@, 0) as int;
        let p = shape_size(tr) as int;
        assert(a * p == (lead_total as nat) * shape_size(tr));
    }
    let out = NumTensor { data, shape };
    Ok(out)
}

proof fn lemma_sum_dim_prefix0<T>(ts: Seq<NumTensor<T>>, k: int)
    requires
        0 <= k <= ts.len(),
    ensures
        sum_dim(ts.take(k), 0) <= sum_dim(ts, 0),
    decreases ts.len(),
{
    if k < ts.len() {
        assert(ts.drop_last().take(k) =~= ts.take(k));
        lemma_sum_dim_prefix0(ts.drop_last(), k);
    } else {
        assert(ts.take(k) =~= ts);
    }
}

proof fn lemma_concat_prefix0<T>(ts: Seq<NumTensor<T>>, k: int)
    requires
        0 <= k <= ts.len(),
    ensures
        concat_data(ts.take(k)).len() <= concat_data(ts).len(),
    decreases ts.len(),
{
    if k < ts.len() {
        assert(ts.drop_last().take(k) =~= ts.take(k));
        lemma_concat_prefix0(ts.drop_last(), k);
    } else {
        assert(ts.take(k) =~= ts);
    }
}

/// Piece `i` of `t` split `n` ways along its leading axis.
pub open spec fn leading_piece<T>(t: NumTensor<T>, n: nat, i: nat, o: NumTensor<T>) -> bool {
    let lead = t.shape@[0] as nat;
    let tr = trailing(t.shape@);
    let inner = shape_size(tr);
    let start = shard_start(lead, n, i);
    let len = shard_len(lead, n, i);
    &&& o.well_formed()
    &&& o.shape@ == seq![len as usize] + tr
    &&& o.data@ == t.data@.subrange((start * inner) as int, ((start + len) * inner) as int)
}

/// Split `t` along its leading axis into `num_chunks` contiguous pieces
/// whose lengths differ by at most one, the first `lead % num_chunks` being
/// the longer ones; this is how a reduce-scatter hands out the reduced tensor.
///
/// Fails with `ExecutionError` when `num_chunks` is zero and with
/// `ShapeMismatch` when `t` is a scalar.
pub fn scatter_leading<T: Copy>(t: &NumTensor<T>, num_chunks: usize) -> (r: Result<
    Vec<NumTensor<T>>,
    GraphError,
>)
    requires
        t.well_formed(),
        t.shape@.len() >= 1 ==> shape_size(trailing(t.shape@)) <= usize::MAX,
        t.shape@.len() >= 1 && shape_size(trailing(t.shape@)) == 0 ==> t.shape@[0] == 0,
    ensures
        num_chunks == 0 ==> r matches Err(GraphError::ExecutionError(_)),
        num_chunks > 0 && t.shape@.len() == 0 ==> r matches Err(GraphError::ShapeMismatch(_)),
        num_chunks > 0 && t.shape@.len() >= 1 ==> (r matches Ok(v) && v@.len() == num_chunks && (forall|i: int|
            0 <= i < num_chunks ==> leading_piece(*t, num_chunks as nat, i as nat, #[trigger] v@[i]))),
{
    if num_chunks == 0 {
        return Err(GraphError::ExecutionError("reduce_scatter: num_chunks must be > 0".to_owned()));
    }
    if t.shape.len() == 0 {
        return Err(GraphError::ShapeMismatch("reduce_scatter: scalar has no leading axis to scatter".to_owned()));
    }
    let lead = t.shape[0];
    let ghost tr = trailing(t.shape@);
    let mut trail: Vec<usize> = Vec::new();
    let mut d: usize = 1;
    while d < t.shape.len()
        invariant
            1 <= d <= t.shape@.len(),
            trail@ == t.shape@.subrange(1, d as int),
        decreases t.shape@.len() - d,
    {
        trail.push(t.shape[d]);
        assert(trail@ =~= t.shape@.subrange(1, d + 1));
        d += 1;
    }
    let p = match checked_shape_size(&trail) {
        Some(p) => p,
        None => 0,
    };
    let inner = if p == 0 {
        1
    } else {
        p
    };
    let dlen = t.data.len();
    proof {
        assert(t.shape@ =~= seq![lead] + tr);
        lemma_shape_size_prepend(lead, tr);
        law_plan_shards_tile(lead as nat, num_chunks as nat);
    }
    let base = lead / num_chunks;
    let rem = lead % num_chunks;
    let mut out: Vec<NumTensor<T>> = Vec::new();
    let mut start: usize = 0;
    let mut i: usize = 0;
    while i < num_chunks
        invariant
            num_chunks > 0,
            i <= num_chunks,
            lead == t.shape@[0],
            t.shape@.len() >= 1,
            tr == trailing(t.shape@),
            trail@ == tr,
            p == shape_size(tr),
            inner == if p == 0 { 1 } else { p },
            p == 0 ==> lead == 0,
            dlen == t.data@.len(),
            t.data@.len() == (lead as nat) * shape_size(tr),
            base == lead / num_chunks,
            rem == lead % num_chunks,
            start == shard_start(lead as nat, num_chunks as nat, i as nat),
            start <= lead,
            out@.len() == i,
            forall|j: int| 0 <= j < i ==> leading_piece(*t, num_chunks as nat, j as nat, #[trigger] out@[j]),
        decreases num_chunks - i,
    {
        proof {
            crate::distributed::sharding::lemma_shard_step(lead as nat, num_chunks as nat, i as nat);
        }
        let len = base + if i < rem {
            1
        } else {
            0
        };
        proof {
            let e = (start + len) as int;
            assert(start * (inner as int) <= e * (inner as int)) by (nonlinear_arith)
                requires
                    start <= e,
                    0 <= inner,
            ;
            assert(e * (inner as int) <= (lead as int) * (inner as int)) by (nonlinear_arith)
                requires
                    e <= lead,
                    0 <= inner,
            ;
            if p == 0 {
                assert(start == 0 && len == 0);
            }
        }
        let lo = start * inner;
        let hi = (start + len) * inner;
        let mut data: Vec<T> = Vec::new();
        let mut q = lo;
        while q < hi
            invariant
                lo <= q <= hi,
                hi <= dlen,
                dlen == t.data@.len(),
                data@ == t.data@.subrange(lo as int, q as int),
            decreases hi - q,
        {
            data.push(t.data[q]);
            assert(data@ =~= t.data@.subrange(lo as int, q + 1));
            q += 1;
        }
        let mut shape: Vec<usize> = Vec::new();
        shape.push(len);
        let mut k: usize = 0;
        while k < trail.len()
            invariant
                k <= trail@.len(),
                shape@ == seq![len] + trail@.subrange(0, k as int),
            decreases trail@.len() - k,
        {
            shape.push(trail[k]);
            assert(shape@ =~= seq![len] + trail@.subrange(0, k + 1));
            k += 1;
        }
        let piece = NumTensor { data, shape };
        proof {
            assert(trail@.subrange(0, trail@.len() as int) =~= trail@);
            lemma_shape_size_prepend(len, tr);
            assert((hi - lo) as int == (len as int) * (inner as int)) by (nonlinear_arith)
                requires
                    lo == start * inner,
                    hi == (start + len) * inner,
            ;
            if p == 0 {
                assert((len as int) * (p as int) == 0) by (nonlinear_arith)
                    requires
                        len == 0,
                ;
                assert(start * p == 0 && (start + len) * p == 0) by (nonlinear_arith)
                    requires
                        start == 0,
                        len == 0,
                ;
                assert(lo == 0 && hi == 0) by (nonlinear_arith)
                    requires
                        lo == start * inner,
                        hi == (start + len) * inner,
                        start == 0,
                        len == 0,
                ;
            }
            assert(leading_piece(*t, num_chunks as nat, i as nat, piece));
        }
        out.push(piece);
        start = start + len;
        i += 1;
    }
    Ok(out)
}

} // verus!
