//! Batched matrix multiplication with rank promotion.
//!
//! Operands of rank two or more multiply over their two trailing axes while
//! the leading axes broadcast as batch axes; rank-one operands are promoted
//! to a row or a column and the inserted axis is squeezed off the result;
//! rank-zero operands scale the other operand.

use crate::rat::{rat_add, rat_mul, rat_zero, Rat};
use crate::shape::{idx_from_lin, in_shape, lemma_idx_of_lin, lemma_idx_of_lin_of,
    lemma_lin_of_bounds, lemma_stride_sum_insert, max_idx, numel_checked, numel_of, idx_of,
    seq_int};
use crate::tensor::{bshape_of, bshape_ok, bsrc_idx, can_broadcast_to, lemma_bsrc_in_shape,
    lemma_elem_in_bounds, lemma_numel_pos_dims, project_idx, ShapeError, Tensor};
use crate::trace::{appended, node_shape, node_value, tensor_eqv, Node, NodeId, Trace, VjpRule};
use vstd::arithmetic::mul::lemma_mul_basics;
use vstd::arithmetic::mul::lemma_mul_inequality;
use vstd::arithmetic::mul::lemma_mul_is_commutative;
use vstd::prelude::*;

verus! {

/// Dot product of row `ia` of `a` with column `jb` of `b` over the first `p`
/// contraction positions: both operands of rank two or more.
pub open spec fn mm_dot(a: Tensor, b: Tensor, ia: Seq<int>, ib: Seq<int>, jb: int, p: int) -> Rat
    decreases p,
{
    if p <= 0 {
        rat_zero()
    } else {
        rat_add(
            mm_dot(a, b, ia, ib, jb, p - 1),
            rat_mul(a.elem(ia.push(p - 1)), b.elem(ib.push(p - 1).push(jb))),
        )
    }
}

/// Dot product of row `ia` of `a` with a rank-one `b`.
pub open spec fn mv_dot(a: Tensor, b: Tensor, ia: Seq<int>, p: int) -> Rat
    decreases p,
{
    if p <= 0 {
        rat_zero()
    } else {
        rat_add(
            mv_dot(a, b, ia, p - 1),
            rat_mul(a.elem(ia.push(p - 1)), b.elem(seq![p - 1])),
        )
    }
}

/// Dot product of a rank-one `a` with column `jb` of `b`.
pub open spec fn vm_dot(a: Tensor, b: Tensor, ib: Seq<int>, jb: int, p: int) -> Rat
    decreases p,
{
    if p <= 0 {
        rat_zero()
    } else {
        rat_add(
            vm_dot(a, b, ib, jb, p - 1),
            rat_mul(a.elem(seq![p - 1]), b.elem(ib.push(p - 1).push(jb))),
        )
    }
}

/// Dot product of two rank-one operands.
pub open spec fn vv_dot(a: Tensor, b: Tensor, p: int) -> Rat
    decreases p,
{
    if p <= 0 {
        rat_zero()
    } else {
        rat_add(vv_dot(a, b, p - 1), rat_mul(a.elem(seq![p - 1]), b.elem(seq![p - 1])))
    }
}

/// Batch part of a shape: everything but the two trailing axes.
pub open spec fn mm_batch(s: Seq<usize>) -> Seq<usize> {
    s.take(s.len() - 2)
}

/// The result shape of a rank-two-or-more product: the broadcast batch shape
/// followed by the outer dimensions.
pub open spec fn mmh_shape(sa: Seq<usize>, sb: Seq<usize>) -> Seq<usize> {
    bshape_of(mm_batch(sa), mm_batch(sb)).push(sa[sa.len() - 2]).push(sb[sb.len() - 1])
}

/// A rank-two-or-more product is defined: the contracted axes agree and the
/// batch shapes are reconcilable.
pub open spec fn mmh_ok(sa: Seq<usize>, sb: Seq<usize>) -> bool {
    &&& sa[sa.len() - 1] == sb[sb.len() - 2]
    &&& bshape_ok(mm_batch(sa), mm_batch(sb))
}

/// Machine-size side conditions of a rank-two-or-more product: the batch
/// shapes really broadcast to their common shape (a degenerate zero-versus-one
/// axis can prevent it) and the result fits the address space.
pub open spec fn mmh_req(sa: Seq<usize>, sb: Seq<usize>) -> bool {
    mmh_ok(sa, sb) ==> {
        &&& can_broadcast_to(mm_batch(sa), bshape_of(mm_batch(sa), mm_batch(sb)))
        &&& can_broadcast_to(mm_batch(sb), bshape_of(mm_batch(sa), mm_batch(sb)))
        &&& numel_of(mmh_shape(sa, sb)) <= usize::MAX
    }
}

/// The entry of the rank-two-or-more product at result index `oidx`.
pub open spec fn mm_entry(a: Tensor, b: Tensor, oidx: Seq<int>) -> Rat {
    let n = oidx.len() as int;
    let bidx = oidx.take(n - 2);
    mm_dot(
        a,
        b,
        bsrc_idx(bidx, mm_batch(a.shape@)).push(oidx[n - 2]),
        bsrc_idx(bidx, mm_batch(b.shape@)),
        oidx[n - 1],
        a.shape@[a.rank() - 1] as int,
    )
}

/// A batch index extended with two trailing coordinates is a valid index.
proof fn lemma_in_shape_push2(
    pidx: Seq<int>,
    front: Seq<usize>,
    i: int,
    di: usize,
    t: int,
    dt: usize,
)
    requires
        in_shape(pidx, front),
        0 <= i < di,
        0 <= t < dt,
    ensures
        in_shape(pidx.push(i).push(t), front.push(di).push(dt)),
{
    let w = pidx.push(i).push(t);
    let s = front.push(di).push(dt);
    assert forall|k: int| 0 <= k < w.len() implies 0 <= #[trigger] w[k] < s[k] by {
        if k < pidx.len() {
            assert(w[k] == pidx[k]);
            assert(s[k] == front[k]);
        }
    }
}

/// Insert a leading size-one axis with stride zero: a cheap row promotion.
fn prepend_unit_axis(t: &Tensor) -> (r: Tensor)
    requires
        t.wf(),
    ensures
        r.wf(),
        r.data@ == t.data@,
        r.offset == t.offset,
        r.shape@ == t.shape@.insert(0, 1usize),
        forall|idx: Seq<int>|
            in_shape(idx, r.shape@) ==> #[trigger] r.elem(idx) == t.elem(idx.skip(1)),
{
    let mut shape_v = t.shape.clone();
    let mut strides_v = t.strides.clone();
    proof {
        assert(shape_v@ =~= t.shape@);
        assert(strides_v@ =~= t.strides@);
    }
    shape_v.insert(0, 1);
    strides_v.insert(0, 0);
    let r = Tensor { data: t.data.clone(), shape: shape_v, strides: strides_v, offset: t.offset };
    proof {
        assert(r.data@ =~= t.data@);
        crate::shape::lemma_numel_insert(t.shape@, 0, 1);
        assert(numel_of(t.shape@) * 1 == numel_of(t.shape@)) by {
            lemma_mul_basics(numel_of(t.shape@) as int);
        }
        assert forall|idx: Seq<int>| in_shape(idx, r.shape@) implies #[trigger] r.elem(idx)
            == t.elem(idx.skip(1)) by {
            let base = idx.skip(1);
            assert(idx[0] == 0);
            assert(idx =~= base.insert(0, 0));
            lemma_stride_sum_insert(base, t.strides@, 0, 0, 0);
            assert(0 * 0 == 0);
        }
        if numel_of(r.shape@) > 0 {
            lemma_numel_pos_dims(r.shape@);
            let m = max_idx(r.shape@);
            assert(m =~= max_idx(t.shape@).insert(0, 0));
            lemma_stride_sum_insert(max_idx(t.shape@), t.strides@, 0, 0, 0);
        }
    }
    r
}

/// Dense batched product of two operands of rank two or more.
fn tensor_mul_helper(a: &Tensor, b: &Tensor) -> (r: Tensor)
    requires
        a.wf(),
        b.wf(),
        a.rank() >= 2,
        b.rank() >= 2,
        mmh_ok(a.shape@, b.shape@),
        mmh_req(a.shape@, b.shape@),
    ensures
        r.wf(),
        r.dense(),
        r.shape@ == mmh_shape(a.shape@, b.shape@),
        forall|oidx: Seq<int>|
            in_shape(oidx, r.shape@) ==> #[trigger] r.elem(oidx) == mm_entry(*a, *b, oidx),
{
    let ra = a.shape.len();
    let rb = b.shape.len();
    let m = a.shape[ra - 2];
    let p = a.shape[ra - 1];
    let nn = b.shape[rb - 1];
    let mut batch_a: Vec<usize> = Vec::new();
    let mut i: usize = 0;
    while i < ra - 2
        invariant
            0 <= i <= ra - 2,
            ra == a.rank(),
            ra >= 2,
            batch_a@ =~= mm_batch(a.shape@).take(i as int),
        decreases ra - 2 - i,
    {
        batch_a.push(a.shape[i]);
        proof {
            assert(batch_a@ =~= mm_batch(a.shape@).take(i as int + 1));
        }
        i = i + 1;
    }
    proof {
        assert(batch_a@ =~= mm_batch(a.shape@));
    }
    let mut batch_b: Vec<usize> = Vec::new();
    let mut i2: usize = 0;
    while i2 < rb - 2
        invariant
            0 <= i2 <= rb - 2,
            rb == b.rank(),
            rb >= 2,
            batch_b@ =~= mm_batch(b.shape@).take(i2 as int),
        decreases rb - 2 - i2,
    {
        batch_b.push(b.shape[i2]);
        proof {
            assert(batch_b@ =~= mm_batch(b.shape@).take(i2 as int + 1));
        }
        i2 = i2 + 1;
    }
    proof {
        assert(batch_b@ =~= mm_batch(b.shape@));
    }
    let mut out_shape = match Tensor::broadcast_shape(batch_a.as_slice(), batch_b.as_slice()) {
        Ok(v) => v,
        Err(_) => {
            proof {
                assert(false);
            }
            Vec::new()
        },
    };
    let ghost batch = bshape_of(mm_batch(a.shape@), mm_batch(b.shape@));
    out_shape.push(m);
    out_shape.push(nn);
    proof {
        assert(out_shape@ =~= mmh_shape(a.shape@, b.shape@));
    }
    let n_out = match numel_checked(out_shape.as_slice()) {
        Some(n) => n,
        None => {
            proof {
                assert(false);
            }
            0
        },
    };
    let nlen = out_shape.len();
    proof {
        assert(nlen == batch.len() + 2);
    }
    let mut data: Vec<Rat> = Vec::new();
    let mut ol: usize = 0;
    while ol < n_out
        invariant
            0 <= ol <= n_out,
            ra == a.rank(),
            rb == b.rank(),
            ra >= 2,
            rb >= 2,
            a.wf(),
            b.wf(),
            mmh_ok(a.shape@, b.shape@),
            can_broadcast_to(mm_batch(a.shape@), batch),
            can_broadcast_to(mm_batch(b.shape@), batch),
            batch == bshape_of(mm_batch(a.shape@), mm_batch(b.shape@)),
            batch_a@ == mm_batch(a.shape@),
            batch_b@ == mm_batch(b.shape@),
            out_shape@ == mmh_shape(a.shape@, b.shape@),
            nlen == out_shape@.len(),
            nlen == batch.len() + 2,
            m == a.shape@[ra - 2],
            p == a.shape@[ra - 1],
            nn == b.shape@[rb - 1],
            n_out as nat == numel_of(out_shape@),
            data@.len() == ol,
            forall|l: int|
                0 <= l < ol ==> #[trigger] data@[l] == mm_entry(*a, *b, idx_of(l, out_shape@))
                    && data@[l].inv(),
        decreases n_out - ol,
    {
        let oidx = idx_from_lin(out_shape.as_slice(), ol);
        proof {
            lemma_idx_of_lin(ol as int, out_shape@);
        }
        let mut bidx: Vec<usize> = Vec::new();
        let mut t0: usize = 0;
        while t0 < nlen - 2
            invariant
                0 <= t0 <= nlen - 2,
                nlen == oidx@.len(),
                nlen >= 2,
                bidx@ =~= oidx@.take(t0 as int),
            decreases nlen - 2 - t0,
        {
            bidx.push(oidx[t0]);
            proof {
                assert(bidx@ =~= oidx@.take(t0 as int + 1));
            }
            t0 = t0 + 1;
        }
        let ii = oidx[nlen - 2];
        let jj = oidx[nlen - 1];
        let ghost bidx_s = seq_int(oidx@).take(nlen - 2 as int);
        proof {
            assert(seq_int(bidx@) =~= bidx_s);
            assert(in_shape(seq_int(oidx@), out_shape@));
            assert(in_shape(bidx_s, batch)) by {
                assert(forall|k: int|
                    0 <= k < batch.len() ==> #[trigger] batch[k] == out_shape@[k]);
                assert(forall|k: int|
                    0 <= k < bidx_s.len() ==> #[trigger] bidx_s[k] == seq_int(oidx@)[k]);
            }
            lemma_bsrc_in_shape(mm_batch(a.shape@), batch, bidx_s);
            lemma_bsrc_in_shape(mm_batch(b.shape@), batch, bidx_s);
            assert(batch.len() == crate::tensor::blen_of(mm_batch(a.shape@), mm_batch(b.shape@)));
            assert(mm_batch(a.shape@).len() <= bidx@.len());
            assert(mm_batch(b.shape@).len() <= bidx@.len());
        }
        let mut ia = project_idx(bidx.as_slice(), batch_a.as_slice());
        ia.push(ii);
        let ib = project_idx(bidx.as_slice(), batch_b.as_slice());
        let ghost ia_s = bsrc_idx(bidx_s, mm_batch(a.shape@)).push(ii as int);
        let ghost ib_s = bsrc_idx(bidx_s, mm_batch(b.shape@));
        proof {
            assert(seq_int(ia@) =~= ia_s);
            assert(seq_int(ib@) =~= ib_s);
            assert(ii < m && jj < nn) by {
                let base = batch.push(m);
                assert(out_shape@ =~= base.push(nn));
                assert(base.push(nn)[nlen - 1] == nn);
                assert(base.push(nn)[nlen - 2] == base[nlen - 2]);
                assert(base[nlen - 2] == m);
                assert(in_shape(seq_int(oidx@), out_shape@));
                assert(seq_int(oidx@)[nlen - 2] == ii as int);
                assert(seq_int(oidx@)[nlen - 1] == jj as int);
            }
        }
        let mut acc = Rat::zero();
        let mut k: usize = 0;
        while k < p
            invariant
                0 <= k <= p,
                ra == a.rank(),
                rb == b.rank(),
                ra >= 2,
                rb >= 2,
                a.wf(),
                b.wf(),
                m == a.shape@[ra - 2],
                p == a.shape@[ra - 1],
                p == b.shape@[rb - 2],
                nn == b.shape@[rb - 1],
                ia@.len() == ra - 1,
                ib@.len() == rb - 2,
                seq_int(ia@) == ia_s,
                seq_int(ib@) == ib_s,
                in_shape(bsrc_idx(bidx_s, mm_batch(a.shape@)), mm_batch(a.shape@)),
                in_shape(bsrc_idx(bidx_s, mm_batch(b.shape@)), mm_batch(b.shape@)),
                ia_s == bsrc_idx(bidx_s, mm_batch(a.shape@)).push(ii as int),
                ib_s == bsrc_idx(bidx_s, mm_batch(b.shape@)),
                ii < m,
                jj < nn,
                acc.inv(),
                acc == mm_dot(*a, *b, ia_s, ib_s, jj as int, k as int),
            decreases p - k,
        {
            let mut fa = ia.clone();
            fa.push(k);
            let mut fb = ib.clone();
            fb.push(k);
            fb.push(jj);
            proof {
                assert(fa@ =~= ia@.push(k));
                assert(fb@ =~= ib@.push(k).push(jj));
                assert(seq_int(fa@) =~= ia_s.push(k as int));
                assert(seq_int(fb@) =~= ib_s.push(k as int).push(jj as int));
                assert(in_shape(ia_s.push(k as int), a.shape@)) by {
                    assert(a.shape@ =~= mm_batch(a.shape@).push(m).push(p));
                    lemma_in_shape_push2(
                        bsrc_idx(bidx_s, mm_batch(a.shape@)),
                        mm_batch(a.shape@),
                        ii as int,
                        m,
                        k as int,
                        p,
                    );
                    assert(bsrc_idx(bidx_s, mm_batch(a.shape@)).push(ii as int).push(k as int)
                        =~= ia_s.push(k as int));
                }
                assert(in_shape(ib_s.push(k as int).push(jj as int), b.shape@)) by {
                    assert(b.shape@ =~= mm_batch(b.shape@).push(b.shape@[rb - 2]).push(nn));
                    lemma_in_shape_push2(
                        bsrc_idx(bidx_s, mm_batch(b.shape@)),
                        mm_batch(b.shape@),
                        k as int,
                        b.shape@[rb - 2],
                        jj as int,
                        nn,
                    );
                }
            }
            let x = a.get(fa.as_slice());
            let y = b.get(fb.as_slice());
            acc = acc.add(x.mul(y));
            k = k + 1;
        }
        data.push(acc);
        ol = ol + 1;
    }
    match Tensor::from_owned(data, out_shape.as_slice()) {
        Ok(t) => {
            proof {
                assert forall|oidx: Seq<int>| in_shape(oidx, t.shape@) implies #[trigger] t.elem(
                    oidx,
                ) == mm_entry(*a, *b, oidx) by {
                    lemma_lin_of_bounds(oidx, out_shape@);
                    lemma_idx_of_lin_of(oidx, out_shape@);
                }
            }
            t
        },
        Err(_) => {
            proof {
                assert(false);
            }
            Tensor { data: Vec::new(), shape: Vec::new(), strides: Vec::new(), offset: 0 }
        },
    }
}

/// An empty shape is reconcilable with any shape, and broadcasting against it
/// gives back the other shape (once the other side can present it).
proof fn lemma_bshape_empty(s: Seq<usize>)
    ensures
        bshape_ok(s, Seq::<usize>::empty()),
        bshape_ok(Seq::<usize>::empty(), s),
        can_broadcast_to(s, bshape_of(s, Seq::<usize>::empty())) ==> bshape_of(
            s,
            Seq::<usize>::empty(),
        ) == s,
        can_broadcast_to(s, bshape_of(Seq::<usize>::empty(), s)) ==> bshape_of(
            Seq::<usize>::empty(),
            s,
        ) == s,
{
    let e = Seq::<usize>::empty();
    assert forall|i: int| 0 <= i < crate::tensor::blen_of(s, e) implies #[trigger]
        crate::tensor::axis_ok(s, e, i) by {
        assert(crate::tensor::pad_dim(e, crate::tensor::blen_of(s, e), i) == 1);
    }
    assert forall|i: int| 0 <= i < crate::tensor::blen_of(e, s) implies #[trigger]
        crate::tensor::axis_ok(e, s, i) by {
        assert(crate::tensor::pad_dim(e, crate::tensor::blen_of(e, s), i) == 1);
    }
    if can_broadcast_to(s, bshape_of(s, e)) {
        assert forall|i: int| 0 <= i < s.len() implies #[trigger] bshape_of(s, e)[i]
            == s[i] by {
            assert(crate::tensor::pad_dim(s, s.len() as int, i) == s[i] as int);
            assert(crate::tensor::pad_dim(e, s.len() as int, i) == 1);
            if s[i] == 0 {
                assert(s[i] == 1 || s[i] == bshape_of(s, e)[i]);
            }
        }
        assert(bshape_of(s, e) =~= s);
    }
    if can_broadcast_to(s, bshape_of(e, s)) {
        assert forall|i: int| 0 <= i < s.len() implies #[trigger] bshape_of(e, s)[i]
            == s[i] by {
            assert(crate::tensor::pad_dim(s, s.len() as int, i) == s[i] as int);
            assert(crate::tensor::pad_dim(e, s.len() as int, i) == 1);
            if s[i] == 0 {
                assert(s[i] == 1 || s[i] == bshape_of(e, s)[i]);
            }
        }
        assert(bshape_of(e, s) =~= s);
    }
}

/// A promoted row times a promoted column is the rank-one dot product.
proof fn lemma_vv_bridge(a: Tensor, b: Tensor, a1: Tensor, b1: Tensor, p: int)
    requires
        forall|t: int| 0 <= t < p ==> #[trigger] a1.elem(seq![0int].push(t)) == a.elem(seq![t]),
        forall|t: int| 0 <= t < p ==> #[trigger] b1.elem(seq![t].push(0int)) == b.elem(seq![t]),
    ensures
        mm_dot(a1, b1, seq![0int], Seq::<int>::empty(), 0, p) == vv_dot(a, b, p),
    decreases p,
{
    if p > 0 {
        lemma_vv_bridge(a, b, a1, b1, p - 1);
        assert(Seq::<int>::empty().push(p - 1).push(0int) =~= seq![p - 1].push(0int));
        assert(a1.elem(seq![0int].push(p - 1)) == a.elem(seq![p - 1]));
        assert(b1.elem(seq![p - 1].push(0int)) == b.elem(seq![p - 1]));
    }
}

/// A product against a promoted column is the matrix-vector dot product.
proof fn lemma_mv_bridge(a: Tensor, b: Tensor, b1: Tensor, ia: Seq<int>, p: int)
    requires
        forall|t: int| 0 <= t < p ==> #[trigger] b1.elem(seq![t].push(0int)) == b.elem(seq![t]),
    ensures
        mm_dot(a, b1, ia, Seq::<int>::empty(), 0, p) == mv_dot(a, b, ia, p),
    decreases p,
{
    if p > 0 {
        lemma_mv_bridge(a, b, b1, ia, p - 1);
        assert(Seq::<int>::empty().push(p - 1).push(0int) =~= seq![p - 1].push(0int));
        assert(b1.elem(seq![p - 1].push(0int)) == b.elem(seq![p - 1]));
    }
}

/// A product of a promoted row is the vector-matrix dot product.
proof fn lemma_vm_bridge(a: Tensor, a1: Tensor, b: Tensor, ib: Seq<int>, jb: int, p: int)
    requires
        forall|t: int| 0 <= t < p ==> #[trigger] a1.elem(seq![0int].push(t)) == a.elem(seq![t]),
    ensures
        mm_dot(a1, b, seq![0int], ib, jb, p) == vm_dot(a, b, ib, jb, p),
    decreases p,
{
    if p > 0 {
        lemma_vm_bridge(a, a1, b, ib, jb, p - 1);
        assert(a1.elem(seq![0int].push(p - 1)) == a.elem(seq![p - 1]));
    }
}

/// The contracted dimensions of the two operands agree, after rank promotion;
/// a rank-zero operand contracts nothing.
pub open spec fn mm_dims_ok(a: Tensor, b: Tensor) -> bool {
    let ra = a.rank();
    let rb = b.rank();
    if ra == 0 || rb == 0 {
        true
    } else if rb == 1 {
        a.shape@[ra - 1] == b.shape@[0]
    } else if ra == 1 {
        a.shape@[0] == b.shape@[rb - 2]
    } else {
        a.shape@[ra - 1] == b.shape@[rb - 2]
    }
}

/// The product of the two operands is defined.
pub open spec fn mm_ok(a: Tensor, b: Tensor) -> bool {
    &&& mm_dims_ok(a, b)
    &&& (a.rank() >= 2 && b.rank() >= 2 ==> bshape_ok(mm_batch(a.shape@), mm_batch(b.shape@)))
}

/// Machine-size and degenerate-shape side conditions of the product: a scalar
/// multiplies only a scalar or a vector, and the promoted product must fit the
/// address space and have feasible batch broadcasting.
pub open spec fn mm_req(a: Tensor, b: Tensor) -> bool {
    let ra = a.rank();
    let rb = b.rank();
    &&& (ra == 0 ==> rb <= 1)
    &&& (rb == 0 ==> ra <= 1)
    &&& (ra == 0 && rb == 1 ==> numel_of(b.shape@) <= usize::MAX)
    &&& (ra == 1 && rb == 0 ==> numel_of(a.shape@) <= usize::MAX)
    &&& (ra >= 2 && rb == 1 ==> mmh_req(a.shape@, b.shape@.push(1usize)))
    &&& (ra == 1 && rb >= 2 ==> mmh_req(a.shape@.insert(0, 1usize), b.shape@))
    &&& (ra >= 2 && rb >= 2 ==> mmh_req(a.shape@, b.shape@))
}

/// Batched matrix multiplication with rank promotion: two vectors give a
/// one-by-one matrix, a matrix and a vector contract the matching axis and
/// squeeze it off, and higher ranks broadcast their batch axes.
#[verifier::rlimit(100)]
pub fn tensor_mul(a: &Tensor, b: &Tensor) -> (r: Result<Tensor, ShapeError>)
    requires
        a.wf(),
        b.wf(),
        mm_req(*a, *b),
    ensures
        match r {
            Ok(t) => {
                &&& mm_ok(*a, *b)
                &&& t.wf()
                &&& (a.rank() == 0 && b.rank() == 0 ==> t.shape@ == a.shape@ && t.elem(
                    Seq::<int>::empty(),
                ) == rat_mul(a.elem(Seq::<int>::empty()), b.elem(Seq::<int>::empty())))
                &&& (a.rank() == 0 && b.rank() == 1 ==> t.shape@ == b.shape@ && forall|
                    idx: Seq<int>,
                |
                    in_shape(idx, b.shape@) ==> #[trigger] t.elem(idx) == rat_mul(
                        b.elem(idx),
                        a.elem(Seq::<int>::empty()),
                    ))
                &&& (a.rank() == 1 && b.rank() == 0 ==> t.shape@ == a.shape@ && forall|
                    idx: Seq<int>,
                |
                    in_shape(idx, a.shape@) ==> #[trigger] t.elem(idx) == rat_mul(
                        a.elem(idx),
                        b.elem(Seq::<int>::empty()),
                    ))
                &&& (a.rank() == 1 && b.rank() == 1 ==> t.shape@ == seq![1usize, 1usize]
                    && t.elem(seq![0int, 0int]) == vv_dot(*a, *b, a.shape@[0] as int))
                &&& (a.rank() >= 2 && b.rank() == 1 ==> t.shape@ == a.shape@.drop_last()
                    && forall|q: Seq<int>|
                    in_shape(q, a.shape@.drop_last()) ==> #[trigger] t.elem(q) == mv_dot(
                        *a,
                        *b,
                        q,
                        a.shape@[a.rank() - 1] as int,
                    ))
                &&& (a.rank() == 1 && b.rank() >= 2 ==> t.shape@ == b.shape@.remove(b.rank() - 2)
                    && forall|q: Seq<int>|
                    in_shape(q, b.shape@.remove(b.rank() - 2)) ==> #[trigger] t.elem(q) == vm_dot(
                        *a,
                        *b,
                        q.drop_last(),
                        q.last(),
                        a.shape@[0] as int,
                    ))
                &&& (a.rank() >= 2 && b.rank() >= 2 ==> t.shape@ == mmh_shape(a.shape@, b.shape@)
                    && forall|oidx: Seq<int>|
                    in_shape(oidx, mmh_shape(a.shape@, b.shape@)) ==> #[trigger] t.elem(oidx)
                        == mm_entry(*a, *b, oidx))
            },
            Err(e) => {
                &&& !mm_ok(*a, *b)
                &&& (e == ShapeError::DimMismatch <==> !mm_dims_ok(*a, *b))
                &&& (e == ShapeError::Incompatible <==> mm_dims_ok(*a, *b) && !mm_ok(*a, *b))
            },
        },
{
    let ra = a.shape.len();
    let rb = b.shape.len();
    if ra == 0 && rb == 0 {
        let e0: [usize; 0] = [];
        let bv = b.get(&e0);
        proof {
            assert(seq_int(e0@) =~= Seq::<int>::empty());
        }
        let f = |x: Rat| -> (z: Rat)
            requires
                x.inv(),
            ensures
                z == rat_mul(x, bv),
                z.inv(),
            { x.mul(bv) };
        let t = a.apply(f);
        proof {
            assert(in_shape(Seq::<int>::empty(), a.shape@)) by {
                assert(a.shape@ =~= Seq::<usize>::empty());
            }
            assert(f.ensures((a.elem(Seq::<int>::empty()),), t.elem(Seq::<int>::empty())));
        }
        Ok(t)
    } else if ra == 0 && rb == 1 {
        let e0: [usize; 0] = [];
        let av = a.get(&e0);
        proof {
            assert(seq_int(e0@) =~= Seq::<int>::empty());
        }
        let f = |x: Rat| -> (z: Rat)
            requires
                x.inv(),
            ensures
                z == rat_mul(x, av),
                z.inv(),
            { x.mul(av) };
        let t = b.apply(f);
        proof {
            assert forall|idx: Seq<int>| in_shape(idx, b.shape@) implies #[trigger] t.elem(idx)
                == rat_mul(b.elem(idx), a.elem(Seq::<int>::empty())) by {
                assert(f.ensures((b.elem(idx),), t.elem(idx)));
            }
        }
        Ok(t)
    } else if ra == 1 && rb == 0 {
        let e0: [usize; 0] = [];
        let bv = b.get(&e0);
        proof {
            assert(seq_int(e0@) =~= Seq::<int>::empty());
        }
        let f = |x: Rat| -> (z: Rat)
            requires
                x.inv(),
            ensures
                z == rat_mul(x, bv),
                z.inv(),
            { x.mul(bv) };
        let t = a.apply(f);
        proof {
            assert forall|idx: Seq<int>| in_shape(idx, a.shape@) implies #[trigger] t.elem(idx)
                == rat_mul(a.elem(idx), b.elem(Seq::<int>::empty())) by {
                assert(f.ensures((a.elem(idx),), t.elem(idx)));
            }
        }
        Ok(t)
    } else if ra == 1 && rb == 1 {
        if a.shape[0] != b.shape[0] {
            return Err(ShapeError::DimMismatch);
        }
        let p = a.shape[0];
        let arow = prepend_unit_axis(a);
        let bcol = b.unsqueeze_view(1);
        proof {
            assert(arow.shape@ =~= seq![1usize].push(p));
            assert(bcol.shape@ =~= seq![p].push(1usize));
            assert(mm_batch(arow.shape@) =~= Seq::<usize>::empty());
            assert(mm_batch(bcol.shape@) =~= Seq::<usize>::empty());
            lemma_bshape_empty(Seq::<usize>::empty());
            assert(bshape_of(Seq::<usize>::empty(), Seq::<usize>::empty())
                =~= Seq::<usize>::empty());
            assert(can_broadcast_to(Seq::<usize>::empty(), Seq::<usize>::empty()));
            assert(mmh_shape(arow.shape@, bcol.shape@) =~= seq![1usize, 1usize]);
            assert(numel_of(seq![1usize, 1usize]) == 1) by {
                crate::shape::lemma_numel_snoc(seq![1usize], 1usize);
                crate::shape::lemma_numel_snoc(Seq::<usize>::empty(), 1usize);
                assert(seq![1usize, 1usize] =~= seq![1usize].push(1usize));
                assert(seq![1usize] =~= Seq::<usize>::empty().push(1usize));
            }
        }
        let t = tensor_mul_helper(&arow, &bcol);
        proof {
            assert(t.shape@ =~= seq![1usize, 1usize]);
            assert(in_shape(seq![0int, 0int], t.shape@));
            let o = seq![0int, 0int];
            assert(t.elem(o) == mm_entry(arow, bcol, o));
            assert(o.take(0) =~= Seq::<int>::empty());
            assert(bsrc_idx(Seq::<int>::empty(), Seq::<usize>::empty()).push(0int)
                =~= seq![0int]);
            assert(bsrc_idx(Seq::<int>::empty(), Seq::<usize>::empty()) =~= Seq::<int>::empty());
            assert forall|tt: int| 0 <= tt < p implies #[trigger] arow.elem(seq![0int].push(tt))
                == a.elem(seq![tt]) by {
                assert(in_shape(seq![0int].push(tt), arow.shape@)) by {
                    assert(seq![0int].push(tt)[0] == 0);
                    assert(seq![0int].push(tt)[1] == tt);
                }
                assert(seq![0int].push(tt).skip(1) =~= seq![tt]);
            }
            assert forall|tt: int| 0 <= tt < p implies #[trigger] bcol.elem(seq![tt].push(0int))
                == b.elem(seq![tt]) by {
                assert(in_shape(seq![tt].push(0int), bcol.shape@)) by {
                    assert(seq![tt].push(0int)[0] == tt);
                    assert(seq![tt].push(0int)[1] == 0);
                }
                assert(seq![tt].push(0int).remove(1) =~= seq![tt]);
            }
            lemma_vv_bridge(*a, *b, arow, bcol, p as int);
        }
        Ok(t)
    } else if rb == 1 {
        if a.shape[ra - 1] != b.shape[0] {
            return Err(ShapeError::DimMismatch);
        }
        let p = a.shape[ra - 1];
        let bcol = b.unsqueeze_view(1);
        proof {
            assert(bcol.shape@ =~= b.shape@.push(1usize));
            assert(mm_batch(bcol.shape@) =~= Seq::<usize>::empty());
            lemma_bshape_empty(mm_batch(a.shape@));
            assert(mmh_ok(a.shape@, bcol.shape@));
            assert(mmh_req(a.shape@, bcol.shape@));
        }
        let v = tensor_mul_helper(a, &bcol);
        proof {
            assert(can_broadcast_to(
                mm_batch(a.shape@),
                bshape_of(mm_batch(a.shape@), Seq::<usize>::empty()),
            ));
            assert(bshape_of(mm_batch(a.shape@), mm_batch(bcol.shape@)) == mm_batch(a.shape@));
            assert(v.shape@[v.rank() - 1] == 1) by {
                assert(v.shape@ == mmh_shape(a.shape@, bcol.shape@));
            }
        }
        let vr = v.shape.len();
        let t = v.squeeze_view(vr - 1);
        proof {
            assert(t.shape@ =~= a.shape@.drop_last()) by {
                assert(v.shape@ =~= mm_batch(a.shape@).push(a.shape@[ra - 1 - 1]).push(1usize));
                assert(a.shape@.drop_last() =~= mm_batch(a.shape@).push(a.shape@[ra - 2]));
            }
            assert forall|q: Seq<int>| in_shape(q, a.shape@.drop_last()) implies #[trigger] t.elem(
                q,
            ) == mv_dot(*a, *b, q, p as int) by {
                assert(q.insert(q.len() as int, 0int) =~= q.push(0int));
                assert(in_shape(q.push(0int), v.shape@)) by {
                    assert(forall|k: int|
                        0 <= k < q.len() ==> #[trigger] q.push(0int)[k] == q[k]);
                    assert(forall|k: int|
                        0 <= k < q.len() ==> #[trigger] a.shape@.drop_last()[k] == v.shape@[k]);
                    assert(q.push(0int)[q.len() as int] == 0);
                }
                assert(t.elem(q) == v.elem(q.push(0int)));
                assert(v.elem(q.push(0int)) == mm_entry(*a, bcol, q.push(0int)));
                let w = q.push(0int);
                let n = w.len() as int;
                assert(w.take(n - 2) =~= q.drop_last());
                assert(w[n - 2] == q.last());
                assert(w[n - 1] == 0);
                assert(in_shape(q.drop_last(), mm_batch(a.shape@))) by {
                    assert(forall|k: int|
                        0 <= k < q.len() - 1 ==> #[trigger] q.drop_last()[k] == q[k]);
                    assert(forall|k: int|
                        0 <= k < q.len() - 1 ==> #[trigger] mm_batch(a.shape@)[k]
                            == a.shape@.drop_last()[k]);
                }
                crate::tensor::lemma_bsrc_self(q.drop_last(), mm_batch(a.shape@));
                assert(bsrc_idx(q.drop_last(), mm_batch(a.shape@)).push(q.last()) =~= q);
                assert(bsrc_idx(q.drop_last(), mm_batch(bcol.shape@)) =~= Seq::<int>::empty());
                assert forall|tt: int| 0 <= tt < p implies #[trigger] bcol.elem(
                    seq![tt].push(0int),
                ) == b.elem(seq![tt]) by {
                    assert(in_shape(seq![tt].push(0int), bcol.shape@)) by {
                        assert(seq![tt].push(0int)[0] == tt);
                        assert(seq![tt].push(0int)[1] == 0);
                    }
                    assert(seq![tt].push(0int).remove(1) =~= seq![tt]);
                }
                lemma_mv_bridge(*a, *b, bcol, q, p as int);
            }
        }
        Ok(t)
    } else if ra == 1 {
        if a.shape[0] != b.shape[rb - 2] {
            return Err(ShapeError::DimMismatch);
        }
        let p = a.shape[0];
        let arow = prepend_unit_axis(a);
        proof {
            assert(arow.shape@ =~= a.shape@.insert(0, 1usize));
            assert(mm_batch(arow.shape@) =~= Seq::<usize>::empty());
            lemma_bshape_empty(mm_batch(b.shape@));
            assert(mmh_ok(arow.shape@, b.shape@)) by {
                assert(arow.shape@[arow.rank() - 1] == a.shape@[0]);
            }
            assert(mmh_req(arow.shape@, b.shape@));
        }
        let v = tensor_mul_helper(&arow, b);
        proof {
            assert(can_broadcast_to(
                mm_batch(b.shape@),
                bshape_of(Seq::<usize>::empty(), mm_batch(b.shape@)),
            )) by {
                assert(bshape_of(mm_batch(arow.shape@), mm_batch(b.shape@)) == bshape_of(
                    Seq::<usize>::empty(),
                    mm_batch(b.shape@),
                ));
            }
            assert(bshape_of(mm_batch(arow.shape@), mm_batch(b.shape@)) == mm_batch(b.shape@));
            assert(v.shape@[v.rank() - 2] == 1) by {
                assert(v.shape@ == mmh_shape(arow.shape@, b.shape@));
            }
        }
        let vr = v.shape.len();
        let t = v.squeeze_view(vr - 2);
        proof {
            assert(t.shape@ =~= b.shape@.remove(rb - 2 as int)) by {
                assert(v.shape@ =~= mm_batch(b.shape@).push(1usize).push(b.shape@[rb - 1]));
                assert(b.shape@.remove(rb - 2 as int) =~= mm_batch(b.shape@).push(
                    b.shape@[rb - 1],
                ));
            }
            assert forall|q: Seq<int>| in_shape(q, b.shape@.remove(rb - 2 as int)) implies
                #[trigger] t.elem(q) == vm_dot(*a, *b, q.drop_last(), q.last(), p as int) by {
                let w = q.insert(q.len() - 1, 0int);
                assert(w =~= q.drop_last().push(0int).push(q.last()));
                assert(in_shape(w, v.shape@)) by {
                    assert(forall|k: int|
                        0 <= k < q.len() - 1 ==> #[trigger] w[k] == q[k]);
                    assert(forall|k: int|
                        0 <= k < q.len() - 1 ==> #[trigger] v.shape@[k] == b.shape@.remove(
                            rb - 2 as int,
                        )[k]);
                    assert(w[q.len() - 1] == 0);
                    assert(w[q.len() as int] == q.last());
                    assert(v.shape@[q.len() as int] == b.shape@[rb - 1]);
                    assert(b.shape@.remove(rb - 2 as int)[q.len() - 1] == b.shape@[rb - 1]);
                }
                assert(t.elem(q) == v.elem(w));
                assert(v.elem(w) == mm_entry(arow, *b, w));
                let n = w.len() as int;
                assert(w.take(n - 2) =~= q.drop_last());
                assert(w[n - 2] == 0);
                assert(w[n - 1] == q.last());
                assert(in_shape(q.drop_last(), mm_batch(b.shape@))) by {
                    assert(forall|k: int|
                        0 <= k < q.len() - 1 ==> #[trigger] q.drop_last()[k] == q[k]);
                    assert(forall|k: int|
                        0 <= k < q.len() - 1 ==> #[trigger] mm_batch(b.shape@)[k] == b.shape@.remove(
                            rb - 2 as int,
                        )[k]);
                }
                crate::tensor::lemma_bsrc_self(q.drop_last(), mm_batch(b.shape@));
                assert(bsrc_idx(q.drop_last(), mm_batch(arow.shape@)) =~= Seq::<int>::empty());
                assert(bsrc_idx(Seq::<int>::empty(), Seq::<usize>::empty()).push(0int)
                    =~= seq![0int]);
                assert forall|tt: int| 0 <= tt < p implies #[trigger] arow.elem(
                    seq![0int].push(tt),
                ) == a.elem(seq![tt]) by {
                    assert(in_shape(seq![0int].push(tt), arow.shape@)) by {
                        assert(seq![0int].push(tt)[0] == 0);
                        assert(seq![0int].push(tt)[1] == tt);
                    }
                    assert(seq![0int].push(tt).skip(1) =~= seq![tt]);
                }
                lemma_vm_bridge(*a, arow, *b, q.drop_last(), q.last(), p as int);
            }
        }
        Ok(t)
    } else {
        if a.shape[ra - 1] != b.shape[rb - 2] {
            return Err(ShapeError::DimMismatch);
        }
        // test the batch shapes before multiplying
        let mut batch_a: Vec<usize> = Vec::new();
        let mut i: usize = 0;
        while i < ra - 2
            invariant
                0 <= i <= ra - 2,
                ra == a.rank(),
                ra >= 2,
                batch_a@ =~= mm_batch(a.shape@).take(i as int),
            decreases ra - 2 - i,
        {
            batch_a.push(a.shape[i]);
            proof {
                assert(batch_a@ =~= mm_batch(a.shape@).take(i as int + 1));
            }
            i = i + 1;
        }
        proof {
            assert(batch_a@ =~= mm_batch(a.shape@));
        }
        let mut batch_b: Vec<usize> = Vec::new();
        let mut i2: usize = 0;
        while i2 < rb - 2
            invariant
                0 <= i2 <= rb - 2,
                rb == b.rank(),
                rb >= 2,
                batch_b@ =~= mm_batch(b.shape@).take(i2 as int),
            decreases rb - 2 - i2,
        {
            batch_b.push(b.shape[i2]);
            proof {
                assert(batch_b@ =~= mm_batch(b.shape@).take(i2 as int + 1));
            }
            i2 = i2 + 1;
        }
        proof {
            assert(batch_b@ =~= mm_batch(b.shape@));
        }
        match Tensor::broadcast_shape(batch_a.as_slice(), batch_b.as_slice()) {
            Ok(_) => {
                let t = tensor_mul_helper(a, b);
                Ok(t)
            },
            Err(_) => Err(ShapeError::Incompatible),
        }
    }
}

/// Entry of the gradient for the left operand, in the equal-batch case:
/// the upstream gradient row dotted with the transposed right operand.
pub open spec fn grad_a_dot(
    g: Tensor,
    b: Tensor,
    bidx: Seq<int>,
    i: int,
    kk: int,
    nn: int,
) -> Rat
    decreases nn,
{
    if nn <= 0 {
        rat_zero()
    } else {
        rat_add(
            grad_a_dot(g, b, bidx, i, kk, nn - 1),
            rat_mul(g.elem(bidx.push(i).push(nn - 1)), b.elem(bidx.push(kk).push(nn - 1))),
        )
    }
}

/// Entry of the gradient for the right operand, in the equal-batch case:
/// the transposed left operand dotted with the upstream gradient column.
pub open spec fn grad_b_dot(
    a: Tensor,
    g: Tensor,
    bidx: Seq<int>,
    kk: int,
    j: int,
    m: int,
) -> Rat
    decreases m,
{
    if m <= 0 {
        rat_zero()
    } else {
        rat_add(
            grad_b_dot(a, g, bidx, kk, j, m - 1),
            rat_mul(a.elem(bidx.push(m - 1).push(kk)), g.elem(bidx.push(m - 1).push(j))),
        )
    }
}

/// A product against a transposed operand is a dot over swapped indices.
proof fn lemma_grad_a_bridge(
    g: Tensor,
    bt: Tensor,
    b: Tensor,
    bidx: Seq<int>,
    i: int,
    kk: int,
    p: int,
)
    requires
        forall|t: int|
            0 <= t < p ==> #[trigger] bt.elem(bidx.push(t).push(kk)) == b.elem(
                bidx.push(kk).push(t),
            ),
    ensures
        mm_dot(g, bt, bidx.push(i), bidx, kk, p) == grad_a_dot(g, b, bidx, i, kk, p),
    decreases p,
{
    if p > 0 {
        lemma_grad_a_bridge(g, bt, b, bidx, i, kk, p - 1);
        assert(bt.elem(bidx.push(p - 1).push(kk)) == b.elem(bidx.push(kk).push(p - 1)));
    }
}

/// A product of a transposed operand is a dot over swapped indices.
proof fn lemma_grad_b_bridge(
    at: Tensor,
    a: Tensor,
    g: Tensor,
    bidx: Seq<int>,
    kk: int,
    j: int,
    p: int,
)
    requires
        forall|t: int|
            0 <= t < p ==> #[trigger] at.elem(bidx.push(kk).push(t)) == a.elem(
                bidx.push(t).push(kk),
            ),
    ensures
        mm_dot(at, g, bidx.push(kk), bidx, j, p) == grad_b_dot(a, g, bidx, kk, j, p),
    decreases p,
{
    if p > 0 {
        lemma_grad_b_bridge(at, a, g, bidx, kk, j, p - 1);
        assert(at.elem(bidx.push(kk).push(p - 1)) == a.elem(bidx.push(p - 1).push(kk)));
    }
}

/// Contraction dot of the dense left-gradient product: a row of the
/// upstream gradient against a column of the right operand read transposed,
/// each through its own batch projection prefix.
pub open spec fn gdot_a(
    g: Tensor,
    b: Tensor,
    ia: Seq<int>,
    ib: Seq<int>,
    kk: int,
    nn: int,
) -> Rat
    decreases nn,
{
    if nn <= 0 {
        rat_zero()
    } else {
        rat_add(
            gdot_a(g, b, ia, ib, kk, nn - 1),
            rat_mul(g.elem(ia.push(nn - 1)), b.elem(ib.push(kk).push(nn - 1))),
        )
    }
}

/// Contraction dot of the dense right-gradient product: a column of the left
/// operand read transposed against a column of the upstream gradient.
pub open spec fn gdot_b(
    a: Tensor,
    g: Tensor,
    ia: Seq<int>,
    ig: Seq<int>,
    kk: int,
    j: int,
    m: int,
) -> Rat
    decreases m,
{
    if m <= 0 {
        rat_zero()
    } else {
        rat_add(
            gdot_b(a, g, ia, ig, kk, j, m - 1),
            rat_mul(a.elem(ia.push(m - 1).push(kk)), g.elem(ig.push(m - 1).push(j))),
        )
    }
}

/// Entry of the dense (pre-reduction) left-gradient product at index `w`.
pub open spec fn gprod_a_entry(g: Tensor, b: Tensor, w: Seq<int>) -> Rat {
    let n = w.len() as int;
    let wb = w.take(n - 2);
    gdot_a(
        g,
        b,
        bsrc_idx(wb, mm_batch(g.shape@)).push(w[n - 2]),
        bsrc_idx(wb, mm_batch(b.shape@)),
        w[n - 1],
        g.shape@[g.rank() - 1] as int,
    )
}

/// Entry of the dense (pre-reduction) right-gradient product at index `w`.
pub open spec fn gprod_b_entry(a: Tensor, g: Tensor, w: Seq<int>) -> Rat {
    let n = w.len() as int;
    let wb = w.take(n - 2);
    gdot_b(
        a,
        g,
        bsrc_idx(wb, mm_batch(a.shape@)),
        bsrc_idx(wb, mm_batch(g.shape@)),
        w[n - 2],
        w[n - 1],
        a.shape@[a.rank() - 2] as int,
    )
}

/// The left gradient at operand index `oidx`: the collapse sum of the dense
/// product entries over the broadcast batch axes.
pub open spec fn mm_grad_a_sum(
    g: Tensor,
    b: Tensor,
    prod_shape: Seq<usize>,
    origin: Seq<usize>,
    oidx: Seq<int>,
    k: int,
) -> Rat
    decreases k,
{
    if k <= 0 {
        rat_zero()
    } else {
        rat_add(
            mm_grad_a_sum(g, b, prod_shape, origin, oidx, k - 1),
            gprod_a_entry(
                g,
                b,
                crate::tensor::weave_idx(
                    oidx,
                    idx_of(k - 1, crate::tensor::reduce_cshape(prod_shape, origin)),
                    prod_shape,
                    origin,
                ),
            ),
        )
    }
}

/// The right gradient at operand index `oidx`.
pub open spec fn mm_grad_b_sum(
    a: Tensor,
    g: Tensor,
    prod_shape: Seq<usize>,
    origin: Seq<usize>,
    oidx: Seq<int>,
    k: int,
) -> Rat
    decreases k,
{
    if k <= 0 {
        rat_zero()
    } else {
        rat_add(
            mm_grad_b_sum(a, g, prod_shape, origin, oidx, k - 1),
            gprod_b_entry(
                a,
                g,
                crate::tensor::weave_idx(
                    oidx,
                    idx_of(k - 1, crate::tensor::reduce_cshape(prod_shape, origin)),
                    prod_shape,
                    origin,
                ),
            ),
        )
    }
}

/// A product against the transposed right operand is the left-gradient dot.
proof fn lemma_gdot_a_bridge(
    g: Tensor,
    bt: Tensor,
    b: Tensor,
    ia: Seq<int>,
    ib: Seq<int>,
    kk: int,
    p: int,
)
    requires
        forall|t: int|
            0 <= t < p ==> #[trigger] bt.elem(ib.push(t).push(kk)) == b.elem(
                ib.push(kk).push(t),
            ),
    ensures
        mm_dot(g, bt, ia, ib, kk, p) == gdot_a(g, b, ia, ib, kk, p),
    decreases p,
{
    if p > 0 {
        lemma_gdot_a_bridge(g, bt, b, ia, ib, kk, p - 1);
        assert(bt.elem(ib.push(p - 1).push(kk)) == b.elem(ib.push(kk).push(p - 1)));
    }
}

/// A product of the transposed left operand is the right-gradient dot.
proof fn lemma_gdot_b_bridge(
    at: Tensor,
    a: Tensor,
    g: Tensor,
    ia: Seq<int>,
    ig: Seq<int>,
    kk: int,
    j: int,
    p: int,
)
    requires
        forall|t: int|
            0 <= t < p ==> #[trigger] at.elem(ia.push(kk).push(t)) == a.elem(
                ia.push(t).push(kk),
            ),
    ensures
        mm_dot(at, g, ia.push(kk), ig, j, p) == gdot_b(a, g, ia, ig, kk, j, p),
    decreases p,
{
    if p > 0 {
        lemma_gdot_b_bridge(at, a, g, ia, ig, kk, j, p - 1);
        assert(at.elem(ia.push(kk).push(p - 1)) == a.elem(ia.push(p - 1).push(kk)));
    }
}

/// A tensor agreeing with the dense left-gradient product at every woven
/// index collapses to the left-gradient sum.
proof fn lemma_grad_a_collapse(
    p1: Tensor,
    g: Tensor,
    b: Tensor,
    origin: Seq<usize>,
    oidx: Seq<int>,
    k: int,
)
    requires
        forall|c: int|
            0 <= c < k ==> {
                let w = crate::tensor::weave_idx(
                    oidx,
                    #[trigger] idx_of(c, crate::tensor::reduce_cshape(p1.shape@, origin)),
                    p1.shape@,
                    origin,
                );
                p1.elem(w) == gprod_a_entry(g, b, w)
            },
    ensures
        crate::tensor::collapse_sum(p1, origin, oidx, k) == mm_grad_a_sum(
            g,
            b,
            p1.shape@,
            origin,
            oidx,
            k,
        ),
    decreases k,
{
    if k > 0 {
        lemma_grad_a_collapse(p1, g, b, origin, oidx, k - 1);
    }
}

/// A tensor agreeing with the dense right-gradient product at every woven
/// index collapses to the right-gradient sum.
proof fn lemma_grad_b_collapse(
    p2: Tensor,
    a: Tensor,
    g: Tensor,
    origin: Seq<usize>,
    oidx: Seq<int>,
    k: int,
)
    requires
        forall|c: int|
            0 <= c < k ==> {
                let w = crate::tensor::weave_idx(
                    oidx,
                    #[trigger] idx_of(c, crate::tensor::reduce_cshape(p2.shape@, origin)),
                    p2.shape@,
                    origin,
                );
                p2.elem(w) == gprod_b_entry(a, g, w)
            },
    ensures
        crate::tensor::collapse_sum(p2, origin, oidx, k) == mm_grad_b_sum(
            a,
            g,
            p2.shape@,
            origin,
            oidx,
            k,
        ),
    decreases k,
{
    if k > 0 {
        lemma_grad_b_collapse(p2, a, g, origin, oidx, k - 1);
    }
}

/// The dense shape of the left gradient before reduction.
pub open spec fn mm_grad_a_shape(sa: Seq<usize>, sb: Seq<usize>) -> Seq<usize> {
    bshape_of(mm_batch(sa), mm_batch(sb)).push(sa[sa.len() - 2]).push(sa[sa.len() - 1])
}

/// The dense shape of the right gradient before reduction.
pub open spec fn mm_grad_b_shape(sa: Seq<usize>, sb: Seq<usize>) -> Seq<usize> {
    bshape_of(mm_batch(sa), mm_batch(sb)).push(sb[sb.len() - 2]).push(sb[sb.len() - 1])
}

/// The two gradient contributions of a batched matrix product: the upstream
/// gradient times the transposed right operand, and the transposed left
/// operand times the upstream gradient, each reduced to its operand's shape.
/// When the batch shapes already agree the entries are the exact dot products.
#[verifier::rlimit(100)]
pub fn matmul_grads(a: &Tensor, b: &Tensor, g: &Tensor) -> (r: (Tensor, Tensor))
    requires
        a.wf(),
        b.wf(),
        g.wf(),
        a.rank() >= 2,
        b.rank() >= 2,
        mmh_ok(a.shape@, b.shape@),
        mmh_req(a.shape@, b.shape@),
        g.shape@ == mmh_shape(a.shape@, b.shape@),
        1 <= numel_of(a.shape@),
        numel_of(a.shape@) <= usize::MAX,
        1 <= numel_of(b.shape@),
        numel_of(b.shape@) <= usize::MAX,
        1 <= numel_of(g.shape@),
        numel_of(g.shape@) <= usize::MAX,
        numel_of(mm_grad_a_shape(a.shape@, b.shape@)) <= usize::MAX,
        numel_of(mm_grad_b_shape(a.shape@, b.shape@)) <= usize::MAX,
    ensures
        r.0.wf(),
        r.0.shape@ == a.shape@,
        r.1.wf(),
        r.1.shape@ == b.shape@,
        forall|oidx: Seq<int>|
            in_shape(oidx, a.shape@) ==> #[trigger] r.0.elem(oidx) == mm_grad_a_sum(
                *g,
                *b,
                mm_grad_a_shape(a.shape@, b.shape@),
                a.shape@,
                oidx,
                numel_of(
                    crate::tensor::reduce_cshape(mm_grad_a_shape(a.shape@, b.shape@), a.shape@),
                ) as int,
            ),
        forall|oidx: Seq<int>|
            in_shape(oidx, b.shape@) ==> #[trigger] r.1.elem(oidx) == mm_grad_b_sum(
                *a,
                *g,
                mm_grad_b_shape(a.shape@, b.shape@),
                b.shape@,
                oidx,
                numel_of(
                    crate::tensor::reduce_cshape(mm_grad_b_shape(a.shape@, b.shape@), b.shape@),
                ) as int,
            ),
        mm_batch(a.shape@) == mm_batch(b.shape@) ==> {
            &&& forall|oidx: Seq<int>|
                in_shape(oidx, a.shape@) ==> #[trigger] r.0.elem(oidx) == grad_a_dot(
                    *g,
                    *b,
                    oidx.take(oidx.len() - 2),
                    oidx[oidx.len() - 2],
                    oidx[oidx.len() - 1],
                    b.shape@[b.rank() - 1] as int,
                )
            &&& forall|oidx: Seq<int>|
                in_shape(oidx, b.shape@) ==> #[trigger] r.1.elem(oidx) == grad_b_dot(
                    *a,
                    *g,
                    oidx.take(oidx.len() - 2),
                    oidx[oidx.len() - 2],
                    oidx[oidx.len() - 1],
                    a.shape@[a.rank() - 2] as int,
                )
        },
{
    let ra = a.shape.len();
    let rb = b.shape.len();
    let ghost ba = mm_batch(a.shape@);
    let ghost bb = mm_batch(b.shape@);
    let ghost batch = bshape_of(ba, bb);
    proof {
        crate::tensor::lemma_numel_pos_dims(a.shape@);
        crate::tensor::lemma_numel_pos_dims(b.shape@);
        crate::tensor::lemma_numel_pos_dims(g.shape@);
        assert(forall|i: int| 0 <= i < ba.len() ==> #[trigger] ba[i] > 0);
        assert(forall|i: int| 0 <= i < bb.len() ==> #[trigger] bb[i] > 0);
        crate::tensor::lemma_bshape_feasible(ba, bb);
        crate::tensor::lemma_bshape_absorb(ba, bb);
        crate::tensor::lemma_bshape_comm(batch, bb);
        crate::tensor::lemma_bshape_comm(batch, ba);
        crate::tensor::lemma_bshape_self(batch);
    }
    let bt = b.mat_transpose();
    let at = a.mat_transpose();
    proof {
        assert(mm_batch(bt.shape@) =~= bb);
        assert(mm_batch(at.shape@) =~= ba);
        assert(mm_batch(g.shape@) =~= batch);
        // the first product: g times the transposed right operand
        assert(bt.shape@[bt.rank() - 2] == b.shape@[rb - 1]);
        assert(g.shape@[g.rank() - 1] == b.shape@[rb - 1]);
        assert(mmh_ok(g.shape@, bt.shape@));
        assert(bshape_of(mm_batch(g.shape@), mm_batch(bt.shape@)) == batch);
        assert(mmh_shape(g.shape@, bt.shape@) =~= mm_grad_a_shape(a.shape@, b.shape@));
        assert(can_broadcast_to(mm_batch(g.shape@), bshape_of(mm_batch(g.shape@), mm_batch(bt.shape@))));
        assert(can_broadcast_to(mm_batch(bt.shape@), bshape_of(mm_batch(g.shape@), mm_batch(bt.shape@))));
        assert(mmh_req(g.shape@, bt.shape@));
        // the second product: the transposed left operand times g
        assert(at.shape@[at.rank() - 1] == a.shape@[ra - 2]);
        assert(g.shape@[g.rank() - 2] == a.shape@[ra - 2]);
        assert(mmh_ok(at.shape@, g.shape@));
        assert(bshape_of(mm_batch(at.shape@), mm_batch(g.shape@)) == batch);
        assert(mmh_shape(at.shape@, g.shape@) =~= mm_grad_b_shape(a.shape@, b.shape@));
        assert(mmh_req(at.shape@, g.shape@));
    }
    let p1 = match tensor_mul(g, &bt) {
        Ok(t) => t,
        Err(_) => {
            proof {
                assert(false);
            }
            Tensor { data: Vec::new(), shape: Vec::new(), strides: Vec::new(), offset: 0 }
        },
    };
    let p2 = match tensor_mul(&at, g) {
        Ok(t) => t,
        Err(_) => {
            proof {
                assert(false);
            }
            Tensor { data: Vec::new(), shape: Vec::new(), strides: Vec::new(), offset: 0 }
        },
    };
    proof {
        assert(p1.shape@ == mmh_shape(g.shape@, bt.shape@));
        assert(p2.shape@ == mmh_shape(at.shape@, g.shape@));
        lemma_grad_reducible(a.shape@, ba, batch, p1.shape@);
        lemma_grad_reducible(b.shape@, bb, batch, p2.shape@);
        assert forall|i: int| 0 <= i < p1.shape@.len() implies #[trigger] p1.shape@[i] > 0 by {
            if i < batch.len() {
                assert(p1.shape@[i] == batch[i]);
            }
        }
        assert forall|i: int| 0 <= i < p2.shape@.len() implies #[trigger] p2.shape@[i] > 0 by {
            if i < batch.len() {
                assert(p2.shape@[i] == batch[i]);
            }
        }
        crate::tensor::lemma_reduce_caps(p1.shape@, a.shape@);
        crate::tensor::lemma_reduce_caps(p2.shape@, b.shape@);
    }
    let ga = p1.sum_over_broadcasted_batches(a.shape.as_slice());
    let gb = p2.sum_over_broadcasted_batches(b.shape.as_slice());
    proof {
        let pa_shape = p1.shape@;
        let pb_shape = p2.shape@;
        assert(pa_shape == mm_grad_a_shape(a.shape@, b.shape@));
        assert(pb_shape == mm_grad_b_shape(a.shape@, b.shape@));
        let ka = numel_of(crate::tensor::reduce_cshape(pa_shape, a.shape@)) as int;
        let kb = numel_of(crate::tensor::reduce_cshape(pb_shape, b.shape@)) as int;
        let nn2 = b.shape@[rb - 1] as int;
        let m2 = a.shape@[ra - 2] as int;
        let pcontract = a.shape@[ra - 1] as int;
        assert forall|oidx: Seq<int>| in_shape(oidx, a.shape@) implies #[trigger] ga.elem(oidx)
            == mm_grad_a_sum(*g, *b, pa_shape, a.shape@, oidx, ka) by {
            assert forall|c: int| 0 <= c < ka implies {
                let w = crate::tensor::weave_idx(
                    oidx,
                    #[trigger] idx_of(c, crate::tensor::reduce_cshape(pa_shape, a.shape@)),
                    pa_shape,
                    a.shape@,
                );
                p1.elem(w) == gprod_a_entry(*g, *b, w)
            } by {
                crate::shape::lemma_idx_of_lin(
                    c,
                    crate::tensor::reduce_cshape(pa_shape, a.shape@),
                );
                crate::tensor::lemma_weave_in_shape(
                    oidx,
                    idx_of(c, crate::tensor::reduce_cshape(pa_shape, a.shape@)),
                    pa_shape,
                    a.shape@,
                );
                let w = crate::tensor::weave_idx(
                    oidx,
                    idx_of(c, crate::tensor::reduce_cshape(pa_shape, a.shape@)),
                    pa_shape,
                    a.shape@,
                );
                assert(p1.elem(w) == mm_entry(*g, bt, w));
                let n = w.len() as int;
                let wb = w.take(n - 2);
                assert(in_shape(wb, batch)) by {
                    assert(forall|t: int|
                        0 <= t < n - 2 ==> #[trigger] wb[t] == w[t] && batch[t] == pa_shape[t]);
                }
                let ib = bsrc_idx(wb, bb);
                crate::tensor::lemma_bsrc_in_shape(bb, batch, wb);
                assert(bsrc_idx(wb, mm_batch(bt.shape@)) == ib);
                let ia = bsrc_idx(wb, mm_batch(g.shape@)).push(w[n - 2]);
                let kk = w[n - 1];
                assert(0 <= kk < b.shape@[rb - 2]) by {
                    assert(pa_shape[n - 1] == a.shape@[ra - 1]);
                }
                assert forall|t: int| 0 <= t < nn2 implies #[trigger] bt.elem(
                    ib.push(t).push(kk),
                ) == b.elem(ib.push(kk).push(t)) by {
                    let wbt = ib.push(t).push(kk);
                    assert(in_shape(wbt, bt.shape@)) by {
                        assert(bt.shape@ =~= bb.push(b.shape@[rb - 1]).push(b.shape@[rb - 2]));
                        lemma_in_shape_push2(ib, bb, t, b.shape@[rb - 1], kk, b.shape@[rb - 2]);
                    }
                    assert(wbt.update(wbt.len() - 2, wbt[wbt.len() - 1]).update(
                        wbt.len() - 1,
                        wbt[wbt.len() - 2],
                    ) =~= ib.push(kk).push(t));
                }
                lemma_gdot_a_bridge(*g, bt, *b, ia, ib, kk, nn2);
                assert(g.shape@[g.rank() - 1] as int == nn2);
            }
            lemma_grad_a_collapse(p1, *g, *b, a.shape@, oidx, ka);
        }
        assert forall|oidx: Seq<int>| in_shape(oidx, b.shape@) implies #[trigger] gb.elem(oidx)
            == mm_grad_b_sum(*a, *g, pb_shape, b.shape@, oidx, kb) by {
            assert forall|c: int| 0 <= c < kb implies {
                let w = crate::tensor::weave_idx(
                    oidx,
                    #[trigger] idx_of(c, crate::tensor::reduce_cshape(pb_shape, b.shape@)),
                    pb_shape,
                    b.shape@,
                );
                p2.elem(w) == gprod_b_entry(*a, *g, w)
            } by {
                crate::shape::lemma_idx_of_lin(
                    c,
                    crate::tensor::reduce_cshape(pb_shape, b.shape@),
                );
                crate::tensor::lemma_weave_in_shape(
                    oidx,
                    idx_of(c, crate::tensor::reduce_cshape(pb_shape, b.shape@)),
                    pb_shape,
                    b.shape@,
                );
                let w = crate::tensor::weave_idx(
                    oidx,
                    idx_of(c, crate::tensor::reduce_cshape(pb_shape, b.shape@)),
                    pb_shape,
                    b.shape@,
                );
                assert(p2.elem(w) == mm_entry(at, *g, w));
                let n = w.len() as int;
                let wb = w.take(n - 2);
                assert(in_shape(wb, batch)) by {
                    assert(forall|t: int|
                        0 <= t < n - 2 ==> #[trigger] wb[t] == w[t] && batch[t] == pb_shape[t]);
                }
                let ia2 = bsrc_idx(wb, ba);
                crate::tensor::lemma_bsrc_in_shape(ba, batch, wb);
                assert(bsrc_idx(wb, mm_batch(at.shape@)) == ia2);
                let ig = bsrc_idx(wb, mm_batch(g.shape@));
                let kk = w[n - 2];
                let j = w[n - 1];
                assert(0 <= kk < a.shape@[ra - 1]) by {
                    assert(pb_shape[n - 2] == b.shape@[rb - 2]);
                }
                assert forall|t: int| 0 <= t < m2 implies #[trigger] at.elem(
                    ia2.push(kk).push(t),
                ) == a.elem(ia2.push(t).push(kk)) by {
                    let wat = ia2.push(kk).push(t);
                    assert(in_shape(wat, at.shape@)) by {
                        assert(at.shape@ =~= ba.push(a.shape@[ra - 1]).push(a.shape@[ra - 2]));
                        lemma_in_shape_push2(ia2, ba, kk, a.shape@[ra - 1], t, a.shape@[ra - 2]);
                    }
                    assert(wat.update(wat.len() - 2, wat[wat.len() - 1]).update(
                        wat.len() - 1,
                        wat[wat.len() - 2],
                    ) =~= ia2.push(t).push(kk));
                }
                lemma_gdot_b_bridge(at, *a, *g, ia2, ig, kk, j, m2);
                assert(at.shape@[at.rank() - 1] as int == m2);
            }
            lemma_grad_b_collapse(p2, *a, *g, b.shape@, oidx, kb);
        }
        if mm_batch(a.shape@) == mm_batch(b.shape@) {
            assert(batch == ba) by {
                crate::tensor::lemma_bshape_self(ba);
            }
            assert(p1.shape@ =~= a.shape@);
            assert(p2.shape@ =~= b.shape@);
            assert forall|oidx: Seq<int>| in_shape(oidx, a.shape@) implies #[trigger] ga.elem(
                oidx,
            ) == grad_a_dot(
                *g,
                *b,
                oidx.take(oidx.len() - 2),
                oidx[oidx.len() - 2],
                oidx[oidx.len() - 1],
                b.shape@[b.rank() - 1] as int,
            ) by {
                crate::tensor::lemma_reduce_identity(p1, oidx);
                assert(ga.elem(oidx) == p1.elem(oidx));
                assert(p1.elem(oidx) == mm_entry(*g, bt, oidx));
                let n = oidx.len() as int;
                let bidx = oidx.take(n - 2);
                assert(in_shape(bidx, batch)) by {
                    assert(forall|k: int|
                        0 <= k < n - 2 ==> #[trigger] bidx[k] == oidx[k] && batch[k]
                            == a.shape@[k]);
                }
                crate::tensor::lemma_bsrc_self(bidx, mm_batch(g.shape@));
                crate::tensor::lemma_bsrc_self(bidx, mm_batch(bt.shape@));
                let i = oidx[n - 2];
                let kk = oidx[n - 1];
                let nn2 = b.shape@[rb - 1] as int;
                assert forall|t: int| 0 <= t < nn2 implies #[trigger] bt.elem(
                    bidx.push(t).push(kk),
                ) == b.elem(bidx.push(kk).push(t)) by {
                    let w = bidx.push(t).push(kk);
                    assert(in_shape(w, bt.shape@)) by {
                        assert(bt.shape@ =~= bb.push(b.shape@[rb - 1]).push(b.shape@[rb - 2]));
                        lemma_in_shape_push2(bidx, bb, t, b.shape@[rb - 1], kk, b.shape@[rb - 2]);
                    }
                    assert(w.update(w.len() - 2, w[w.len() - 1]).update(w.len() - 1, w[w.len() - 2])
                        =~= bidx.push(kk).push(t));
                }
                lemma_grad_a_bridge(*g, bt, *b, bidx, i, kk, nn2);
            }
            assert forall|oidx: Seq<int>| in_shape(oidx, b.shape@) implies #[trigger] gb.elem(
                oidx,
            ) == grad_b_dot(
                *a,
                *g,
                oidx.take(oidx.len() - 2),
                oidx[oidx.len() - 2],
                oidx[oidx.len() - 1],
                a.shape@[a.rank() - 2] as int,
            ) by {
                crate::tensor::lemma_reduce_identity(p2, oidx);
                assert(gb.elem(oidx) == p2.elem(oidx));
                assert(p2.elem(oidx) == mm_entry(at, *g, oidx));
                let n = oidx.len() as int;
                let bidx = oidx.take(n - 2);
                assert(in_shape(bidx, batch)) by {
                    assert(forall|k: int|
                        0 <= k < n - 2 ==> #[trigger] bidx[k] == oidx[k] && batch[k]
                            == b.shape@[k]);
                }
                crate::tensor::lemma_bsrc_self(bidx, mm_batch(g.shape@));
                crate::tensor::lemma_bsrc_self(bidx, mm_batch(at.shape@));
                let kk = oidx[n - 2];
                let j = oidx[n - 1];
                let m2 = a.shape@[ra - 2] as int;
                assert forall|t: int| 0 <= t < m2 implies #[trigger] at.elem(
                    bidx.push(kk).push(t),
                ) == a.elem(bidx.push(t).push(kk)) by {
                    let w = bidx.push(kk).push(t);
                    assert(in_shape(w, at.shape@)) by {
                        assert(at.shape@ =~= ba.push(a.shape@[ra - 1]).push(a.shape@[ra - 2]));
                        lemma_in_shape_push2(bidx, ba, kk, a.shape@[ra - 1], t, a.shape@[ra - 2]);
                    }
                    assert(w.update(w.len() - 2, w[w.len() - 1]).update(w.len() - 1, w[w.len() - 2])
                        =~= bidx.push(t).push(kk));
                }
                lemma_grad_b_bridge(at, *a, *g, bidx, kk, j, m2);
            }
        }
    }
    (ga, gb)
}

/// A pre-reduction gradient product reduces to the operand's shape.
proof fn lemma_grad_reducible(
    opshape: Seq<usize>,
    opbatch: Seq<usize>,
    batch: Seq<usize>,
    prodshape: Seq<usize>,
)
    requires
        opshape.len() >= 2,
        opbatch == opshape.take(opshape.len() - 2),
        can_broadcast_to(opbatch, batch),
        prodshape == batch.push(opshape[opshape.len() - 2]).push(opshape[opshape.len() - 1]),
    ensures
        crate::tensor::reducible_to(prodshape, opshape),
{
    let n = prodshape.len() as int;
    let pad = n - opshape.len();
    assert forall|i: int| 0 <= i < n implies #[trigger] crate::tensor::pad_dim(opshape, n, i) == 1
        || crate::tensor::pad_dim(opshape, n, i) == prodshape[i] as int by {
        if i >= n - 2 {
            assert(crate::tensor::pad_dim(opshape, n, i) == opshape[i - pad] as int);
        } else {
            if i < pad {
                assert(crate::tensor::pad_dim(opshape, n, i) == 1);
            } else {
                let j = i - pad;
                assert(crate::tensor::pad_dim(opshape, n, i) == opshape[j] as int);
                assert(opbatch[j] == opshape[j]);
                assert(opbatch[j] == 1 || opbatch[j] == batch[j + batch.len() - opbatch.len()]);
                assert(prodshape[i] == batch[i]);
            }
        }
    }
}

/// Dot products depend only on the tensors' views.
proof fn lemma_mm_dot_eqv(
    a1: Tensor,
    a2: Tensor,
    b1: Tensor,
    b2: Tensor,
    ia: Seq<int>,
    ib: Seq<int>,
    jb: int,
    p: int,
)
    requires
        tensor_eqv(a1, a2),
        tensor_eqv(b1, b2),
    ensures
        mm_dot(a1, b1, ia, ib, jb, p) == mm_dot(a2, b2, ia, ib, jb, p),
    decreases p,
{
    if p > 0 {
        lemma_mm_dot_eqv(a1, a2, b1, b2, ia, ib, jb, p - 1);
    }
}

/// Shape of the left operand once a rank-one vector is promoted to a row.
pub open spec fn mm_pa_shape(sa: Seq<usize>) -> Seq<usize> {
    if sa.len() == 1 {
        sa.insert(0, 1usize)
    } else {
        sa
    }
}

/// Shape of the right operand once a rank-one vector is promoted to a column.
pub open spec fn mm_pb_shape(sb: Seq<usize>) -> Seq<usize> {
    if sb.len() == 1 {
        sb.push(1usize)
    } else {
        sb
    }
}

/// The graph product's node value shape: the promoted product with the
/// promoted axis squeezed off again, except the vector-vector case, which
/// stays a one-by-one matrix.
pub open spec fn mm_value_shape(sa: Seq<usize>, sb: Seq<usize>) -> Seq<usize> {
    if sa.len() == 1 && sb.len() == 1 {
        seq![1usize, 1usize]
    } else if sb.len() == 1 {
        sa.drop_last()
    } else if sa.len() == 1 {
        sb.remove(sb.len() - 2)
    } else {
        mmh_shape(sa, sb)
    }
}

/// One batch term of the matrix-vector right gradient: the matrix column at
/// `kk` dotted with the upstream gradient row.
pub open spec fn mv_gdot_b(a: Tensor, g: Tensor, wb: Seq<int>, kk: int, m: int) -> Rat
    decreases m,
{
    if m <= 0 {
        rat_zero()
    } else {
        rat_add(
            mv_gdot_b(a, g, wb, kk, m - 1),
            rat_mul(a.elem(wb.push(m - 1).push(kk)), g.elem(wb.push(m - 1))),
        )
    }
}

/// The matrix-vector right gradient at coordinate `kk`: the batch terms
/// summed in the reduction's collapse order.
pub open spec fn mv_grad_b_sum(a: Tensor, g: Tensor, kk: int, c: int) -> Rat
    decreases c,
{
    if c <= 0 {
        rat_zero()
    } else {
        let prod = mm_batch(a.shape@).push(a.shape@[a.rank() - 1]).push(1usize);
        let origin = seq![a.shape@[a.rank() - 1], 1usize];
        let w = crate::tensor::weave_idx(
            seq![kk, 0int],
            idx_of(c - 1, crate::tensor::reduce_cshape(prod, origin)),
            prod,
            origin,
        );
        rat_add(
            mv_grad_b_sum(a, g, kk, c - 1),
            mv_gdot_b(a, g, w.take(w.len() - 2), kk, a.shape@[a.rank() - 2] as int),
        )
    }
}

/// One batch term of the vector-matrix left gradient: the upstream gradient
/// row dotted with the matrix row at `t`.
pub open spec fn vm_gdot_a(g: Tensor, b: Tensor, wb: Seq<int>, t: int, nn: int) -> Rat
    decreases nn,
{
    if nn <= 0 {
        rat_zero()
    } else {
        rat_add(
            vm_gdot_a(g, b, wb, t, nn - 1),
            rat_mul(g.elem(wb.push(nn - 1)), b.elem(wb.push(t).push(nn - 1))),
        )
    }
}

/// The vector-matrix left gradient at coordinate `t`: the batch terms summed
/// in the reduction's collapse order.
pub open spec fn vm_grad_a_sum(g: Tensor, b: Tensor, t: int, c: int) -> Rat
    decreases c,
{
    if c <= 0 {
        rat_zero()
    } else {
        let prod = mm_batch(b.shape@).push(1usize).push(b.shape@[b.rank() - 2]);
        let origin = seq![1usize, b.shape@[b.rank() - 2]];
        let w = crate::tensor::weave_idx(
            seq![0int, t],
            idx_of(c - 1, crate::tensor::reduce_cshape(prod, origin)),
            prod,
            origin,
        );
        rat_add(
            vm_grad_a_sum(g, b, t, c - 1),
            vm_gdot_a(g, b, w.take(w.len() - 2), t, b.shape@[b.rank() - 1] as int),
        )
    }
}

/// A dot against the axis-extended gradient is the matrix-vector dot.
proof fn lemma_mv_b_dot_bridge(
    a: Tensor,
    g2: Tensor,
    g: Tensor,
    wb: Seq<int>,
    kk: int,
    m: int,
)
    requires
        forall|i: int|
            0 <= i < m ==> #[trigger] g2.elem(wb.push(i).push(0int)) == g.elem(wb.push(i)),
    ensures
        gdot_b(a, g2, wb, wb, kk, 0, m) == mv_gdot_b(a, g, wb, kk, m),
    decreases m,
{
    if m > 0 {
        lemma_mv_b_dot_bridge(a, g2, g, wb, kk, m - 1);
        assert(g2.elem(wb.push(m - 1).push(0int)) == g.elem(wb.push(m - 1)));
    }
}

/// A dot of the axis-extended gradient is the vector-matrix dot.
proof fn lemma_vm_a_dot_bridge(
    g2: Tensor,
    g: Tensor,
    b: Tensor,
    wb: Seq<int>,
    t: int,
    nn: int,
)
    requires
        forall|j: int|
            0 <= j < nn ==> #[trigger] g2.elem(wb.push(0int).push(j)) == g.elem(wb.push(j)),
    ensures
        gdot_a(g2, b, wb.push(0int), wb, t, nn) == vm_gdot_a(g, b, wb, t, nn),
    decreases nn,
{
    if nn > 0 {
        lemma_vm_a_dot_bridge(g2, g, b, wb, t, nn - 1);
        assert(g2.elem(wb.push(0int).push(nn - 1)) == g.elem(wb.push(nn - 1)));
    }
}

/// Collapse congruence for the matrix-vector right gradient.
proof fn lemma_mv_b_collapse(
    a: Tensor,
    g2: Tensor,
    g: Tensor,
    prod: Seq<usize>,
    origin: Seq<usize>,
    kk: int,
    c: int,
)
    requires
        prod == mm_batch(a.shape@).push(a.shape@[a.rank() - 1]).push(1usize),
        origin == seq![a.shape@[a.rank() - 1], 1usize],
        forall|c2: int|
            0 <= c2 < c ==> {
                let w = crate::tensor::weave_idx(
                    seq![kk, 0int],
                    #[trigger] idx_of(c2, crate::tensor::reduce_cshape(prod, origin)),
                    prod,
                    origin,
                );
                gprod_b_entry(a, g2, w) == mv_gdot_b(
                    a,
                    g,
                    w.take(w.len() - 2),
                    kk,
                    a.shape@[a.rank() - 2] as int,
                )
            },
    ensures
        mm_grad_b_sum(a, g2, prod, origin, seq![kk, 0int], c) == mv_grad_b_sum(a, g, kk, c),
    decreases c,
{
    if c > 0 {
        lemma_mv_b_collapse(a, g2, g, prod, origin, kk, c - 1);
    }
}

/// Collapse congruence for the vector-matrix left gradient.
proof fn lemma_vm_a_collapse(
    a2: Tensor,
    g2: Tensor,
    g: Tensor,
    b: Tensor,
    prod: Seq<usize>,
    origin: Seq<usize>,
    t: int,
    c: int,
)
    requires
        prod == mm_batch(b.shape@).push(1usize).push(b.shape@[b.rank() - 2]),
        origin == seq![1usize, b.shape@[b.rank() - 2]],
        forall|c2: int|
            0 <= c2 < c ==> {
                let w = crate::tensor::weave_idx(
                    seq![0int, t],
                    #[trigger] idx_of(c2, crate::tensor::reduce_cshape(prod, origin)),
                    prod,
                    origin,
                );
                gprod_a_entry(g2, b, w) == vm_gdot_a(
                    g,
                    b,
                    w.take(w.len() - 2),
                    t,
                    b.shape@[b.rank() - 1] as int,
                )
            },
    ensures
        mm_grad_a_sum(g2, b, prod, origin, seq![0int, t], c) == vm_grad_a_sum(g, b, t, c),
    decreases c,
{
    if c > 0 {
        lemma_vm_a_collapse(a2, g2, g, b, prod, origin, t, c - 1);
    }
}

/// Insert a size-one axis with stride zero at `axis`: a cheap promotion of
/// a view, with no arithmetic on the existing strides.
fn insert_unit_axis(t: &Tensor, axis: usize) -> (r: Tensor)
    requires
        t.wf(),
        axis <= t.rank(),
    ensures
        r.wf(),
        r.data@ == t.data@,
        r.offset == t.offset,
        r.shape@ == t.shape@.insert(axis as int, 1usize),
        forall|idx: Seq<int>|
            in_shape(idx, r.shape@) ==> #[trigger] r.elem(idx) == t.elem(idx.remove(axis as int)),
{
    let mut shape_v = t.shape.clone();
    let mut strides_v = t.strides.clone();
    proof {
        assert(shape_v@ =~= t.shape@);
        assert(strides_v@ =~= t.strides@);
    }
    shape_v.insert(axis, 1);
    strides_v.insert(axis, 0);
    let r = Tensor { data: t.data.clone(), shape: shape_v, strides: strides_v, offset: t.offset };
    proof {
        assert(r.data@ =~= t.data@);
        crate::shape::lemma_numel_insert(t.shape@, axis as int, 1);
        assert(numel_of(t.shape@) * 1 == numel_of(t.shape@)) by {
            lemma_mul_basics(numel_of(t.shape@) as int);
        }
        assert forall|idx: Seq<int>| in_shape(idx, r.shape@) implies #[trigger] r.elem(idx)
            == t.elem(idx.remove(axis as int)) by {
            let base = idx.remove(axis as int);
            assert(idx[axis as int] == 0);
            assert(idx =~= base.insert(axis as int, 0));
            lemma_stride_sum_insert(base, t.strides@, axis as int, 0, 0);
            assert(0 * 0 == 0);
        }
        if numel_of(r.shape@) > 0 {
            lemma_numel_pos_dims(r.shape@);
            let m = max_idx(r.shape@);
            assert(m =~= max_idx(t.shape@).insert(axis as int, 0));
            lemma_stride_sum_insert(max_idx(t.shape@), t.strides@, axis as int, 0, 0);
        }
    }
    r
}

/// The two gradient contributions of the graph product for operands of any
/// rank from one up: a rank-one operand is promoted to a row or column, the
/// promoted axis is re-inserted into the upstream gradient before the
/// transpose-multiplies, and squeezed off after reduction, so each gradient
/// matches its un-promoted operand's shape exactly.
#[verifier::rlimit(100)]
pub fn matmul_vjp(a: &Tensor, b: &Tensor, g: &Tensor) -> (r: (Tensor, Tensor))
    requires
        a.wf(),
        b.wf(),
        g.wf(),
        a.rank() >= 1,
        b.rank() >= 1,
        mmh_ok(mm_pa_shape(a.shape@), mm_pb_shape(b.shape@)),
        mmh_req(mm_pa_shape(a.shape@), mm_pb_shape(b.shape@)),
        g.shape@ == mm_value_shape(a.shape@, b.shape@),
        1 <= numel_of(a.shape@),
        numel_of(a.shape@) <= usize::MAX,
        1 <= numel_of(b.shape@),
        numel_of(b.shape@) <= usize::MAX,
        1 <= numel_of(g.shape@),
        numel_of(g.shape@) <= usize::MAX,
        numel_of(mm_grad_a_shape(mm_pa_shape(a.shape@), mm_pb_shape(b.shape@))) <= usize::MAX,
        numel_of(mm_grad_b_shape(mm_pa_shape(a.shape@), mm_pb_shape(b.shape@))) <= usize::MAX,
    ensures
        r.0.wf(),
        r.0.shape@ == a.shape@,
        r.1.wf(),
        r.1.shape@ == b.shape@,
        a.rank() >= 2 && b.rank() >= 2 ==> {
            &&& forall|oidx: Seq<int>|
                in_shape(oidx, a.shape@) ==> #[trigger] r.0.elem(oidx) == mm_grad_a_sum(
                    *g,
                    *b,
                    mm_grad_a_shape(a.shape@, b.shape@),
                    a.shape@,
                    oidx,
                    numel_of(
                        crate::tensor::reduce_cshape(
                            mm_grad_a_shape(a.shape@, b.shape@),
                            a.shape@,
                        ),
                    ) as int,
                )
            &&& forall|oidx: Seq<int>|
                in_shape(oidx, b.shape@) ==> #[trigger] r.1.elem(oidx) == mm_grad_b_sum(
                    *a,
                    *g,
                    mm_grad_b_shape(a.shape@, b.shape@),
                    b.shape@,
                    oidx,
                    numel_of(
                        crate::tensor::reduce_cshape(
                            mm_grad_b_shape(a.shape@, b.shape@),
                            b.shape@,
                        ),
                    ) as int,
                )
        },
        a.rank() == 1 && b.rank() == 1 ==> {
            &&& forall|q: Seq<int>|
                in_shape(q, a.shape@) ==> #[trigger] r.0.elem(q) == rat_mul(
                    g.elem(seq![0int, 0int]),
                    b.elem(q),
                )
            &&& forall|q: Seq<int>|
                in_shape(q, b.shape@) ==> #[trigger] r.1.elem(q) == rat_mul(
                    a.elem(q),
                    g.elem(seq![0int, 0int]),
                )
        },
        a.rank() >= 2 && b.rank() == 1 ==> {
            &&& forall|q: Seq<int>|
                in_shape(q, a.shape@) ==> #[trigger] r.0.elem(q) == rat_mul(
                    g.elem(q.drop_last()),
                    b.elem(seq![q.last()]),
                )
            &&& forall|q: Seq<int>|
                in_shape(q, b.shape@) ==> #[trigger] r.1.elem(q) == mv_grad_b_sum(
                    *a,
                    *g,
                    q[0],
                    numel_of(
                        crate::tensor::reduce_cshape(
                            mm_batch(a.shape@).push(a.shape@[a.rank() - 1]).push(1usize),
                            seq![a.shape@[a.rank() - 1], 1usize],
                        ),
                    ) as int,
                )
        },
        a.rank() == 1 && b.rank() >= 2 ==> {
            &&& forall|q: Seq<int>|
                in_shape(q, a.shape@) ==> #[trigger] r.0.elem(q) == vm_grad_a_sum(
                    *g,
                    *b,
                    q[0],
                    numel_of(
                        crate::tensor::reduce_cshape(
                            mm_batch(b.shape@).push(1usize).push(b.shape@[b.rank() - 2]),
                            seq![1usize, b.shape@[b.rank() - 2]],
                        ),
                    ) as int,
                )
            &&& forall|q: Seq<int>|
                in_shape(q, b.shape@) ==> #[trigger] r.1.elem(q) == rat_mul(
                    a.elem(seq![q[q.len() - 2]]),
                    g.elem(q.take(q.len() - 2).push(q.last())),
                )
        },
{
    let ra = a.shape.len();
    let rb = b.shape.len();
    if ra >= 2 && rb >= 2 {
        proof {
            assert(mm_pa_shape(a.shape@) == a.shape@);
            assert(mm_pb_shape(b.shape@) == b.shape@);
        }
        matmul_grads(a, b, g)
    } else if ra >= 2 {
        matmul_vjp_mv(a, b, g)
    } else if rb >= 2 {
        matmul_vjp_vm(a, b, g)
    } else {
        matmul_vjp_vv(a, b, g)
    }
}

/// Matrix-times-vector gradients: the vector becomes a column, the gradient
/// regains the squeezed trailing axis, and the vector's gradient collapses
/// over the batch.
#[verifier::rlimit(100)]
fn matmul_vjp_mv(a: &Tensor, b: &Tensor, g: &Tensor) -> (r: (Tensor, Tensor))
    requires
        a.wf(),
        b.wf(),
        g.wf(),
        a.rank() >= 2,
        b.rank() == 1,
        mmh_ok(a.shape@, mm_pb_shape(b.shape@)),
        mmh_req(a.shape@, mm_pb_shape(b.shape@)),
        g.shape@ == a.shape@.drop_last(),
        1 <= numel_of(a.shape@),
        numel_of(a.shape@) <= usize::MAX,
        1 <= numel_of(b.shape@),
        numel_of(b.shape@) <= usize::MAX,
        1 <= numel_of(g.shape@),
        numel_of(g.shape@) <= usize::MAX,
        numel_of(mm_grad_a_shape(a.shape@, mm_pb_shape(b.shape@))) <= usize::MAX,
        numel_of(mm_grad_b_shape(a.shape@, mm_pb_shape(b.shape@))) <= usize::MAX,
    ensures
        r.0.wf(),
        r.0.shape@ == a.shape@,
        r.1.wf(),
        r.1.shape@ == b.shape@,
        forall|q: Seq<int>|
            in_shape(q, a.shape@) ==> #[trigger] r.0.elem(q) == rat_mul(
                g.elem(q.drop_last()),
                b.elem(seq![q.last()]),
            ),
        forall|q: Seq<int>|
            in_shape(q, b.shape@) ==> #[trigger] r.1.elem(q) == mv_grad_b_sum(
                *a,
                *g,
                q[0],
                numel_of(
                    crate::tensor::reduce_cshape(
                        mm_batch(a.shape@).push(a.shape@[a.rank() - 1]).push(1usize),
                        seq![a.shape@[a.rank() - 1], 1usize],
                    ),
                ) as int,
            ),
{
    let ra = a.shape.len();
    let bcol = insert_unit_axis(b, 1);
    let gl = g.shape.len();
    let gp = insert_unit_axis(g, gl);
    let ghost sa = a.shape@;
    let ghost ba = mm_batch(sa);
    let ghost p = sa[ra - 1];
    let ghost m = sa[ra - 2];
    proof {
        assert(bcol.shape@ =~= mm_pb_shape(b.shape@));
        assert(mm_batch(bcol.shape@) =~= Seq::<usize>::empty());
        lemma_numel_pos_dims(sa);
        assert(forall|i: int| 0 <= i < ba.len() ==> #[trigger] ba[i] > 0);
        lemma_bshape_empty(ba);
        assert(bshape_of(ba, mm_batch(bcol.shape@)) == ba) by {
            assert(mmh_ok(sa, bcol.shape@));
            assert(can_broadcast_to(ba, bshape_of(ba, Seq::<usize>::empty())));
        }
        assert(sa.drop_last() =~= ba.push(m));
        assert(gp.shape@ =~= mmh_shape(sa, bcol.shape@));
        crate::shape::lemma_numel_insert(g.shape@, gl as int, 1);
        assert(numel_of(g.shape@) * 1 == numel_of(g.shape@)) by {
            lemma_mul_basics(numel_of(g.shape@) as int);
        }
        crate::shape::lemma_numel_insert(b.shape@, 1, 1);
        assert(numel_of(b.shape@) * 1 == numel_of(b.shape@)) by {
            lemma_mul_basics(numel_of(b.shape@) as int);
        }
        assert(numel_of(gp.shape@) == numel_of(g.shape@));
        assert(numel_of(bcol.shape@) == numel_of(b.shape@));
    }
    let (gap, gbp) = matmul_grads(a, &bcol, &gp);
    let ghost pa_prod = mm_grad_a_shape(sa, bcol.shape@);
    let ghost pb_prod = mm_grad_b_shape(sa, bcol.shape@);
    let ghost myprod = ba.push(p).push(1usize);
    let ghost origin = seq![p, 1usize];
    proof {
        assert(pa_prod =~= sa);
        assert(pb_prod =~= myprod);
        assert(bcol.shape@ =~= origin);
        // the left gradient reduces over nothing: its entries are the dots
        assert forall|q: Seq<int>| in_shape(q, sa) implies #[trigger] gap.elem(q) == rat_mul(
            g.elem(q.drop_last()),
            b.elem(seq![q.last()]),
        ) by {
            crate::tensor::lemma_weave_identity(sa, q);
            let w = crate::tensor::weave_idx(
                q,
                idx_of(0, crate::tensor::reduce_cshape(sa, sa)),
                sa,
                sa,
            );
            assert(gap.elem(q) == mm_grad_a_sum(
                gp,
                bcol,
                pa_prod,
                sa,
                q,
                numel_of(crate::tensor::reduce_cshape(pa_prod, sa)) as int,
            ));
            assert(numel_of(crate::tensor::reduce_cshape(pa_prod, sa)) == 1);
            let n = q.len() as int;
            let bidx = q.take(n - 2);
            assert(in_shape(bidx, ba)) by {
                assert(forall|i: int|
                    0 <= i < n - 2 ==> #[trigger] bidx[i] == q[i] && ba[i] == sa[i]);
            }
            assert(mm_batch(gp.shape@) =~= ba);
            crate::tensor::lemma_bsrc_self(bidx, mm_batch(gp.shape@));
            assert(bsrc_idx(bidx, mm_batch(bcol.shape@)) =~= Seq::<int>::empty());
            let ia = bidx.push(q[n - 2]);
            let kk = q[n - 1];
            assert(gp.shape@[gp.rank() - 1] == 1);
            let ib0 = bsrc_idx(bidx, mm_batch(bcol.shape@));
            assert(ib0 =~= Seq::<int>::empty());
            assert(bsrc_idx(bidx, mm_batch(gp.shape@)).push(q[n - 2]) == ia);
            assert(gdot_a(gp, bcol, ia, ib0, kk, 0) == rat_zero());
            assert(gdot_a(gp, bcol, ia, ib0, kk, 1) == rat_add(
                rat_zero(),
                rat_mul(gp.elem(ia.push(0int)), bcol.elem(ib0.push(kk).push(0int))),
            ));
            assert(ib0.push(kk).push(0int) =~= Seq::<int>::empty().push(kk).push(0int));
            assert(gprod_a_entry(gp, bcol, q) == rat_add(
                rat_zero(),
                rat_mul(
                    gp.elem(ia.push(0int)),
                    bcol.elem(Seq::<int>::empty().push(kk).push(0int)),
                ),
            ));
            let cs0 = crate::tensor::reduce_cshape(pa_prod, sa);
            assert(cs0 == crate::tensor::reduce_cshape(sa, sa));
            let w0 = crate::tensor::weave_idx(q, idx_of(0, cs0), pa_prod, sa);
            assert(w0 == crate::tensor::weave_idx(
                q,
                idx_of(0, crate::tensor::reduce_cshape(sa, sa)),
                sa,
                sa,
            ));
            assert(w0 == q);
            assert(mm_grad_a_sum(gp, bcol, pa_prod, sa, q, 0) == rat_zero());
            assert(mm_grad_a_sum(gp, bcol, pa_prod, sa, q, 1) == rat_add(
                rat_zero(),
                gprod_a_entry(gp, bcol, w0),
            ));
            assert(in_shape(ia.push(0int), gp.shape@)) by {
                assert(gp.shape@ =~= ba.push(m).push(1usize));
                lemma_in_shape_push2(bidx, ba, q[n - 2], m, 0, 1);
            }
            assert(ia.push(0int).remove(gl as int) =~= ia);
            assert(gp.elem(ia.push(0int)) == g.elem(ia));
            assert(ia =~= q.drop_last());
            assert(Seq::<int>::empty().push(kk).push(0int) =~= seq![kk, 0int]);
            assert(in_shape(seq![kk, 0int], bcol.shape@)) by {
                assert(seq![kk, 0int][0] == kk);
                assert(seq![kk, 0int][1] == 0);
            }
            assert(seq![kk, 0int].remove(1) =~= seq![kk]);
            assert(bcol.elem(seq![kk, 0int]) == b.elem(seq![q.last()]));
            crate::tensor::lemma_elem_in_bounds(*g, q.drop_last());
            crate::tensor::lemma_elem_in_bounds(*b, seq![q.last()]);
            crate::rat::lemma_rat_mul_inv(g.elem(q.drop_last()), b.elem(seq![q.last()]));
            crate::rat::lemma_add_zero(rat_mul(g.elem(q.drop_last()), b.elem(seq![q.last()])));
        }
        // the right gradient collapses over the batch
        let kb = numel_of(crate::tensor::reduce_cshape(myprod, origin)) as int;
        assert forall|qq: Seq<int>| in_shape(qq, bcol.shape@) implies #[trigger] gbp.elem(qq)
            == mv_grad_b_sum(*a, *g, qq[0], kb) by {
            let t = qq[0];
            assert(qq[1] == 0);
            assert(qq =~= seq![t, 0int]);
            assert(gbp.elem(seq![t, 0int]) == mm_grad_b_sum(
                *a,
                gp,
                pb_prod,
                bcol.shape@,
                seq![t, 0int],
                numel_of(crate::tensor::reduce_cshape(pb_prod, bcol.shape@)) as int,
            ));
            assert forall|c2: int| 0 <= c2 < kb implies {
                let w = crate::tensor::weave_idx(
                    seq![t, 0int],
                    #[trigger] idx_of(c2, crate::tensor::reduce_cshape(myprod, origin)),
                    myprod,
                    origin,
                );
                gprod_b_entry(*a, gp, w) == mv_gdot_b(*a, *g, w.take(w.len() - 2), t, m as int)
            } by {
                let cs = crate::tensor::reduce_cshape(myprod, origin);
                crate::shape::lemma_idx_of_lin(c2, cs);
                assert(crate::tensor::reducible_to(myprod, origin)) by {
                    assert(forall|i: int|
                        0 <= i < myprod.len() ==> #[trigger] crate::tensor::pad_dim(
                            origin,
                            myprod.len() as int,
                            i,
                        ) == 1 || crate::tensor::pad_dim(origin, myprod.len() as int, i)
                            == myprod[i] as int);
                }
                crate::tensor::lemma_weave_in_shape(
                    seq![t, 0int],
                    idx_of(c2, cs),
                    myprod,
                    origin,
                );
                let w = crate::tensor::weave_idx(seq![t, 0int], idx_of(c2, cs), myprod, origin);
                let n = w.len() as int;
                let wb = w.take(n - 2);
                assert(in_shape(wb, ba)) by {
                    assert(forall|i: int|
                        0 <= i < n - 2 ==> #[trigger] wb[i] == w[i] && ba[i] == myprod[i]);
                }
                assert(w[n - 2] == t) by {
                    if crate::tensor::pad_dim(origin, n, n - 2) == 1 {
                        assert(p == 1);
                        assert(0 <= w[n - 2] < myprod[n - 2]);
                    }
                }
                assert(w[n - 1] == 0) by {
                    assert(crate::tensor::pad_dim(origin, n, n - 1) == 1);
                    assert(0 <= w[n - 1] < myprod[n - 1]);
                }
                assert(mm_batch(a.shape@) =~= ba);
                assert(mm_batch(gp.shape@) =~= ba);
                crate::tensor::lemma_bsrc_self(wb, mm_batch(a.shape@));
                crate::tensor::lemma_bsrc_self(wb, mm_batch(gp.shape@));
                assert forall|i: int| 0 <= i < m implies #[trigger] gp.elem(
                    wb.push(i).push(0int),
                ) == g.elem(wb.push(i)) by {
                    assert(in_shape(wb.push(i).push(0int), gp.shape@)) by {
                        assert(gp.shape@ =~= ba.push(m).push(1usize));
                        lemma_in_shape_push2(wb, ba, i, m, 0, 1);
                    }
                    assert(wb.push(i).push(0int).remove(gl as int) =~= wb.push(i));
                }
                lemma_mv_b_dot_bridge(*a, gp, *g, wb, t, m as int);
                assert(gprod_b_entry(*a, gp, w) == gdot_b(
                    *a,
                    gp,
                    wb,
                    wb,
                    t,
                    0,
                    a.shape@[a.rank() - 2] as int,
                ));
            }
            lemma_mv_b_collapse(*a, gp, *g, myprod, origin, t, kb);
        }
    }
    let gb = gbp.squeeze_view(1);
    proof {
        let kb = numel_of(
            crate::tensor::reduce_cshape(
                mm_batch(a.shape@).push(a.shape@[a.rank() - 1]).push(1usize),
                seq![a.shape@[a.rank() - 1], 1usize],
            ),
        ) as int;
        assert(gb.shape@ =~= b.shape@);
        assert forall|q: Seq<int>| in_shape(q, b.shape@) implies #[trigger] gb.elem(q)
            == mv_grad_b_sum(
            *a,
            *g,
            q[0],
            numel_of(
                crate::tensor::reduce_cshape(
                    mm_batch(a.shape@).push(a.shape@[a.rank() - 1]).push(1usize),
                    seq![a.shape@[a.rank() - 1], 1usize],
                ),
            ) as int,
        ) by {
            let t = q[0];
            assert(q.insert(1, 0int) =~= seq![t, 0int]);
            assert(in_shape(seq![t, 0int], bcol.shape@)) by {
                assert(seq![t, 0int][0] == t);
                assert(seq![t, 0int][1] == 0);
            }
            assert(gb.elem(q) == gbp.elem(seq![t, 0int]));
            assert(gbp.elem(seq![t, 0int]) == mv_grad_b_sum(*a, *g, t, kb));
        }
    }
    (gap, gb)
}

/// Vector-times-matrix gradients: the vector becomes a row, the gradient
/// regains the squeezed axis, and the vector's gradient collapses over the
/// batch.
#[verifier::rlimit(100)]
fn matmul_vjp_vm(a: &Tensor, b: &Tensor, g: &Tensor) -> (r: (Tensor, Tensor))
    requires
        a.wf(),
        b.wf(),
        g.wf(),
        a.rank() == 1,
        b.rank() >= 2,
        mmh_ok(mm_pa_shape(a.shape@), b.shape@),
        mmh_req(mm_pa_shape(a.shape@), b.shape@),
        g.shape@ == b.shape@.remove(b.rank() - 2),
        1 <= numel_of(a.shape@),
        numel_of(a.shape@) <= usize::MAX,
        1 <= numel_of(b.shape@),
        numel_of(b.shape@) <= usize::MAX,
        1 <= numel_of(g.shape@),
        numel_of(g.shape@) <= usize::MAX,
        numel_of(mm_grad_a_shape(mm_pa_shape(a.shape@), b.shape@)) <= usize::MAX,
        numel_of(mm_grad_b_shape(mm_pa_shape(a.shape@), b.shape@)) <= usize::MAX,
    ensures
        r.0.wf(),
        r.0.shape@ == a.shape@,
        r.1.wf(),
        r.1.shape@ == b.shape@,
        forall|q: Seq<int>|
            in_shape(q, a.shape@) ==> #[trigger] r.0.elem(q) == vm_grad_a_sum(
                *g,
                *b,
                q[0],
                numel_of(
                    crate::tensor::reduce_cshape(
                        mm_batch(b.shape@).push(1usize).push(b.shape@[b.rank() - 2]),
                        seq![1usize, b.shape@[b.rank() - 2]],
                    ),
                ) as int,
            ),
        forall|q: Seq<int>|
            in_shape(q, b.shape@) ==> #[trigger] r.1.elem(q) == rat_mul(
                a.elem(seq![q[q.len() - 2]]),
                g.elem(q.take(q.len() - 2).push(q.last())),
            ),
{
    let rb = b.shape.len();
    let arow = insert_unit_axis(a, 0);
    let gl = g.shape.len();
    let gp = insert_unit_axis(g, gl - 1);
    let ghost sb = b.shape@;
    let ghost bb = mm_batch(sb);
    let ghost mdim = sb[rb - 2];
    let ghost nn = sb[rb - 1];
    proof {
        assert(arow.shape@ =~= mm_pa_shape(a.shape@));
        assert(mm_batch(arow.shape@) =~= Seq::<usize>::empty());
        lemma_numel_pos_dims(sb);
        assert(forall|i: int| 0 <= i < bb.len() ==> #[trigger] bb[i] > 0);
        lemma_bshape_empty(bb);
        assert(bshape_of(mm_batch(arow.shape@), bb) == bshape_of(Seq::<usize>::empty(), bb))
            by {
            assert(mm_batch(arow.shape@) == Seq::<usize>::empty());
        }
        assert(bshape_of(mm_batch(arow.shape@), bb) == bb) by {
            assert(mmh_ok(arow.shape@, sb));
            assert(can_broadcast_to(bb, bshape_of(Seq::<usize>::empty(), bb)));
        }
        assert(sb.remove(rb - 2 as int) =~= bb.push(nn));
        assert(gp.shape@ =~= mmh_shape(arow.shape@, sb));
        crate::shape::lemma_numel_insert(g.shape@, gl as int - 1, 1);
        assert(numel_of(g.shape@) * 1 == numel_of(g.shape@)) by {
            lemma_mul_basics(numel_of(g.shape@) as int);
        }
        crate::shape::lemma_numel_insert(a.shape@, 0, 1);
        assert(numel_of(a.shape@) * 1 == numel_of(a.shape@)) by {
            lemma_mul_basics(numel_of(a.shape@) as int);
        }
        assert(numel_of(gp.shape@) == numel_of(g.shape@));
        assert(numel_of(arow.shape@) == numel_of(a.shape@));
    }
    let (gap, gbp) = matmul_grads(&arow, b, &gp);
    let ghost pa_prod = mm_grad_a_shape(arow.shape@, sb);
    let ghost pb_prod = mm_grad_b_shape(arow.shape@, sb);
    let ghost myprod = bb.push(1usize).push(mdim);
    let ghost origin = seq![1usize, mdim];
    proof {
        assert(pa_prod =~= myprod);
        assert(pb_prod =~= sb);
        assert(arow.shape@ =~= origin);
        // the left gradient collapses over the batch
        let ka = numel_of(crate::tensor::reduce_cshape(myprod, origin)) as int;
        assert forall|qq: Seq<int>| in_shape(qq, arow.shape@) implies #[trigger] gap.elem(qq)
            == vm_grad_a_sum(*g, *b, qq[1], ka) by {
            let t = qq[1];
            assert(qq[0] == 0);
            assert(qq =~= seq![0int, t]);
            assert(gap.elem(seq![0int, t]) == mm_grad_a_sum(
                gp,
                *b,
                pa_prod,
                arow.shape@,
                seq![0int, t],
                numel_of(crate::tensor::reduce_cshape(pa_prod, arow.shape@)) as int,
            ));
            assert forall|c2: int| 0 <= c2 < ka implies {
                let w = crate::tensor::weave_idx(
                    seq![0int, t],
                    #[trigger] idx_of(c2, crate::tensor::reduce_cshape(myprod, origin)),
                    myprod,
                    origin,
                );
                gprod_a_entry(gp, *b, w) == vm_gdot_a(*g, *b, w.take(w.len() - 2), t, nn as int)
            } by {
                let cs = crate::tensor::reduce_cshape(myprod, origin);
                crate::shape::lemma_idx_of_lin(c2, cs);
                assert(crate::tensor::reducible_to(myprod, origin)) by {
                    assert(forall|i: int|
                        0 <= i < myprod.len() ==> #[trigger] crate::tensor::pad_dim(
                            origin,
                            myprod.len() as int,
                            i,
                        ) == 1 || crate::tensor::pad_dim(origin, myprod.len() as int, i)
                            == myprod[i] as int);
                }
                crate::tensor::lemma_weave_in_shape(
                    seq![0int, t],
                    idx_of(c2, cs),
                    myprod,
                    origin,
                );
                let w = crate::tensor::weave_idx(seq![0int, t], idx_of(c2, cs), myprod, origin);
                let n = w.len() as int;
                let wb = w.take(n - 2);
                assert(in_shape(wb, bb)) by {
                    assert(forall|i: int|
                        0 <= i < n - 2 ==> #[trigger] wb[i] == w[i] && bb[i] == myprod[i]);
                }
                assert(w[n - 2] == 0) by {
                    assert(crate::tensor::pad_dim(origin, n, n - 2) == 1);
                    assert(0 <= w[n - 2] < myprod[n - 2]);
                }
                assert(w[n - 1] == t) by {
                    if crate::tensor::pad_dim(origin, n, n - 1) == 1 {
                        assert(mdim == 1);
                        assert(0 <= w[n - 1] < myprod[n - 1]);
                    }
                }
                assert(mm_batch(b.shape@) =~= bb);
                assert(mm_batch(gp.shape@) =~= bb);
                crate::tensor::lemma_bsrc_self(wb, mm_batch(b.shape@));
                crate::tensor::lemma_bsrc_self(wb, mm_batch(gp.shape@));
                assert forall|j: int| 0 <= j < nn implies #[trigger] gp.elem(
                    wb.push(0int).push(j),
                ) == g.elem(wb.push(j)) by {
                    assert(in_shape(wb.push(0int).push(j), gp.shape@)) by {
                        assert(gp.shape@ =~= bb.push(1usize).push(nn));
                        lemma_in_shape_push2(wb, bb, 0, 1, j, nn);
                    }
                    assert(wb.push(0int).push(j).remove(gl as int - 1) =~= wb.push(j));
                }
                lemma_vm_a_dot_bridge(gp, *g, *b, wb, t, nn as int);
                assert(gprod_a_entry(gp, *b, w) == gdot_a(
                    gp,
                    *b,
                    wb.push(0int),
                    wb,
                    t,
                    gp.shape@[gp.rank() - 1] as int,
                ));
                assert(gp.shape@[gp.rank() - 1] == nn);
            }
            lemma_vm_a_collapse(arow, gp, *g, *b, myprod, origin, t, ka);
        }
        // the right gradient reduces over nothing: its entries are single
        // products of the row vector with the gradient
        assert forall|q: Seq<int>| in_shape(q, sb) implies #[trigger] gbp.elem(q) == rat_mul(
            a.elem(seq![q[q.len() - 2]]),
            g.elem(q.take(q.len() - 2).push(q.last())),
        ) by {
            crate::tensor::lemma_weave_identity(sb, q);
            assert(gbp.elem(q) == mm_grad_b_sum(
                arow,
                gp,
                pb_prod,
                sb,
                q,
                numel_of(crate::tensor::reduce_cshape(pb_prod, sb)) as int,
            ));
            assert(numel_of(crate::tensor::reduce_cshape(pb_prod, sb)) == 1);
            let n = q.len() as int;
            let bidx = q.take(n - 2);
            assert(in_shape(bidx, bb)) by {
                assert(forall|i: int|
                    0 <= i < n - 2 ==> #[trigger] bidx[i] == q[i] && bb[i] == sb[i]);
            }
            assert(mm_batch(gp.shape@) =~= bb);
            crate::tensor::lemma_bsrc_self(bidx, mm_batch(gp.shape@));
            assert(bsrc_idx(bidx, mm_batch(arow.shape@)) =~= Seq::<int>::empty());
            let kk = q[n - 2];
            let j = q[n - 1];
            assert(arow.shape@[arow.rank() - 2] == 1);
            let ia0 = bsrc_idx(bidx, mm_batch(arow.shape@));
            let ig0 = bsrc_idx(bidx, mm_batch(gp.shape@));
            assert(ia0 =~= Seq::<int>::empty());
            assert(ig0 == bidx);
            assert(gdot_b(arow, gp, ia0, ig0, kk, j, 0) == rat_zero());
            assert(gdot_b(arow, gp, ia0, ig0, kk, j, 1) == rat_add(
                rat_zero(),
                rat_mul(arow.elem(ia0.push(0int).push(kk)), gp.elem(ig0.push(0int).push(j))),
            ));
            assert(ia0.push(0int).push(kk) =~= Seq::<int>::empty().push(0int).push(kk));
            assert(gprod_b_entry(arow, gp, q) == rat_add(
                rat_zero(),
                rat_mul(
                    arow.elem(Seq::<int>::empty().push(0int).push(kk)),
                    gp.elem(bidx.push(0int).push(j)),
                ),
            ));
            let cs0 = crate::tensor::reduce_cshape(pb_prod, sb);
            assert(cs0 == crate::tensor::reduce_cshape(sb, sb));
            let w0 = crate::tensor::weave_idx(q, idx_of(0, cs0), pb_prod, sb);
            assert(w0 == crate::tensor::weave_idx(
                q,
                idx_of(0, crate::tensor::reduce_cshape(sb, sb)),
                sb,
                sb,
            ));
            assert(w0 == q);
            assert(mm_grad_b_sum(arow, gp, pb_prod, sb, q, 0) == rat_zero());
            assert(mm_grad_b_sum(arow, gp, pb_prod, sb, q, 1) == rat_add(
                rat_zero(),
                gprod_b_entry(arow, gp, w0),
            ));
            assert(Seq::<int>::empty().push(0int).push(kk) =~= seq![0int, kk]);
            assert(in_shape(seq![0int, kk], arow.shape@)) by {
                assert(seq![0int, kk][0] == 0);
                assert(seq![0int, kk][1] == kk);
            }
            assert(seq![0int, kk].remove(0) =~= seq![kk]);
            assert(arow.elem(seq![0int, kk]) == a.elem(seq![q[q.len() - 2]]));
            assert(in_shape(bidx.push(0int).push(j), gp.shape@)) by {
                assert(gp.shape@ =~= bb.push(1usize).push(nn));
                lemma_in_shape_push2(bidx, bb, 0, 1, j, nn);
            }
            assert(bidx.push(0int).push(j).remove(gl as int - 1) =~= bidx.push(j));
            assert(gp.elem(bidx.push(0int).push(j)) == g.elem(bidx.push(j)));
            assert(bidx.push(j) =~= q.take(q.len() - 2).push(q.last()));
            crate::tensor::lemma_elem_in_bounds(*a, seq![q[q.len() - 2]]);
            crate::tensor::lemma_elem_in_bounds(gp, bidx.push(0int).push(j));
            crate::rat::lemma_rat_mul_inv(
                a.elem(seq![q[q.len() - 2]]),
                g.elem(q.take(q.len() - 2).push(q.last())),
            );
            crate::rat::lemma_add_zero(
                rat_mul(
                    a.elem(seq![q[q.len() - 2]]),
                    g.elem(q.take(q.len() - 2).push(q.last())),
                ),
            );
        }
    }
    let ga = gap.squeeze_view(0);
    proof {
        let ka = numel_of(
            crate::tensor::reduce_cshape(
                mm_batch(b.shape@).push(1usize).push(b.shape@[b.rank() - 2]),
                seq![1usize, b.shape@[b.rank() - 2]],
            ),
        ) as int;
        assert(ga.shape@ =~= a.shape@);
        assert forall|q: Seq<int>| in_shape(q, a.shape@) implies #[trigger] ga.elem(q)
            == vm_grad_a_sum(*g, *b, q[0], ka) by {
            let t = q[0];
            assert(q.insert(0, 0int) =~= seq![0int, t]);
            assert(in_shape(seq![0int, t], arow.shape@)) by {
                assert(seq![0int, t][0] == 0);
                assert(seq![0int, t][1] == t);
            }
            assert(ga.elem(q) == gap.elem(seq![0int, t]));
            assert(gap.elem(seq![0int, t]) == vm_grad_a_sum(*g, *b, t, ka));
        }
    }
    (ga, gbp)
}

/// Vector-times-vector gradients: both operands promote, the one-by-one
/// upstream gradient scales the opposite operand.
#[verifier::rlimit(100)]
fn matmul_vjp_vv(a: &Tensor, b: &Tensor, g: &Tensor) -> (r: (Tensor, Tensor))
    requires
        a.wf(),
        b.wf(),
        g.wf(),
        a.rank() == 1,
        b.rank() == 1,
        mmh_ok(mm_pa_shape(a.shape@), mm_pb_shape(b.shape@)),
        mmh_req(mm_pa_shape(a.shape@), mm_pb_shape(b.shape@)),
        g.shape@ == seq![1usize, 1usize],
        1 <= numel_of(a.shape@),
        numel_of(a.shape@) <= usize::MAX,
        1 <= numel_of(b.shape@),
        numel_of(b.shape@) <= usize::MAX,
        numel_of(mm_grad_a_shape(mm_pa_shape(a.shape@), mm_pb_shape(b.shape@))) <= usize::MAX,
        numel_of(mm_grad_b_shape(mm_pa_shape(a.shape@), mm_pb_shape(b.shape@))) <= usize::MAX,
    ensures
        r.0.wf(),
        r.0.shape@ == a.shape@,
        r.1.wf(),
        r.1.shape@ == b.shape@,
        forall|q: Seq<int>|
            in_shape(q, a.shape@) ==> #[trigger] r.0.elem(q) == rat_mul(
                g.elem(seq![0int, 0int]),
                b.elem(q),
            ),
        forall|q: Seq<int>|
            in_shape(q, b.shape@) ==> #[trigger] r.1.elem(q) == rat_mul(
                a.elem(q),
                g.elem(seq![0int, 0int]),
            ),
{
    let arow = insert_unit_axis(a, 0);
    let bcol = insert_unit_axis(b, 1);
    let ghost mdim = a.shape@[0];
    proof {
        assert(arow.shape@ =~= mm_pa_shape(a.shape@));
        assert(bcol.shape@ =~= mm_pb_shape(b.shape@));
        assert(mm_batch(arow.shape@) =~= Seq::<usize>::empty());
        assert(mm_batch(bcol.shape@) =~= Seq::<usize>::empty());
        lemma_bshape_empty(Seq::<usize>::empty());
        assert(bshape_of(Seq::<usize>::empty(), Seq::<usize>::empty()) =~= Seq::<usize>::empty());
        assert(can_broadcast_to(Seq::<usize>::empty(), Seq::<usize>::empty()));
        assert(g.shape@ =~= mmh_shape(arow.shape@, bcol.shape@));
        crate::shape::lemma_numel_insert(a.shape@, 0, 1);
        crate::shape::lemma_numel_insert(b.shape@, 1, 1);
        assert(numel_of(a.shape@) * 1 == numel_of(a.shape@)) by {
            lemma_mul_basics(numel_of(a.shape@) as int);
        }
        assert(numel_of(b.shape@) * 1 == numel_of(b.shape@)) by {
            lemma_mul_basics(numel_of(b.shape@) as int);
        }
        assert(numel_of(g.shape@) == 1) by {
            crate::shape::lemma_numel_snoc(seq![1usize], 1usize);
            crate::shape::lemma_numel_snoc(Seq::<usize>::empty(), 1usize);
            assert(g.shape@ =~= seq![1usize].push(1usize));
            assert(seq![1usize] =~= Seq::<usize>::empty().push(1usize));
        }
    }
    let (gap, gbp) = matmul_grads(&arow, &bcol, g);
    proof {
        let pa_prod = mm_grad_a_shape(arow.shape@, bcol.shape@);
        let pb_prod = mm_grad_b_shape(arow.shape@, bcol.shape@);
        assert(pa_prod =~= arow.shape@);
        assert(pb_prod =~= bcol.shape@);
        assert forall|qq: Seq<int>| in_shape(qq, arow.shape@) implies #[trigger] gap.elem(qq)
            == rat_mul(g.elem(seq![0int, 0int]), b.elem(seq![qq[1]])) by {
            let t = qq[1];
            assert(qq[0] == 0);
            assert(qq =~= seq![0int, t]);
            let q = seq![0int, t];
            crate::tensor::lemma_weave_identity(arow.shape@, q);
            assert(gap.elem(q) == mm_grad_a_sum(
                *g,
                bcol,
                pa_prod,
                arow.shape@,
                q,
                numel_of(crate::tensor::reduce_cshape(pa_prod, arow.shape@)) as int,
            ));
            assert(numel_of(crate::tensor::reduce_cshape(pa_prod, arow.shape@)) == 1);
            let bidx = q.take(0);
            assert(bidx =~= Seq::<int>::empty());
            let ig0 = bsrc_idx(bidx, mm_batch(g.shape@));
            let ib0 = bsrc_idx(bidx, mm_batch(bcol.shape@));
            assert(ig0 =~= Seq::<int>::empty());
            assert(ib0 =~= Seq::<int>::empty());
            assert(g.shape@[g.rank() - 1] == 1);
            let ia = ig0.push(q[0]);
            assert(q[0] == 0);
            assert(gdot_a(*g, bcol, ia, ib0, q[1], 0) == rat_zero());
            assert(gdot_a(*g, bcol, ia, ib0, q[1], 1) == rat_add(
                rat_zero(),
                rat_mul(g.elem(ia.push(0int)), bcol.elem(ib0.push(q[1]).push(0int))),
            ));
            assert(ia.push(0int) =~= Seq::<int>::empty().push(0int).push(0int));
            assert(ib0.push(q[1]).push(0int) =~= Seq::<int>::empty().push(t).push(0int));
            assert(gprod_a_entry(*g, bcol, q) == rat_add(
                rat_zero(),
                rat_mul(
                    g.elem(Seq::<int>::empty().push(0int).push(0int)),
                    bcol.elem(Seq::<int>::empty().push(t).push(0int)),
                ),
            ));
            let cs0 = crate::tensor::reduce_cshape(pa_prod, arow.shape@);
            assert(cs0 == crate::tensor::reduce_cshape(arow.shape@, arow.shape@));
            let w0 = crate::tensor::weave_idx(qq, idx_of(0, cs0), pa_prod, arow.shape@);
            assert(w0 == crate::tensor::weave_idx(
                qq,
                idx_of(0, crate::tensor::reduce_cshape(arow.shape@, arow.shape@)),
                arow.shape@,
                arow.shape@,
            ));
            assert(w0 == qq);
            assert(mm_grad_a_sum(*g, bcol, pa_prod, arow.shape@, qq, 0) == rat_zero());
            assert(mm_grad_a_sum(*g, bcol, pa_prod, arow.shape@, qq, 1) == rat_add(
                rat_zero(),
                gprod_a_entry(*g, bcol, w0),
            ));
            assert(Seq::<int>::empty().push(0int).push(0int) =~= seq![0int, 0int]);
            assert(Seq::<int>::empty().push(t).push(0int) =~= seq![t, 0int]);
            assert(in_shape(seq![t, 0int], bcol.shape@)) by {
                assert(seq![t, 0int][0] == t);
                assert(seq![t, 0int][1] == 0);
            }
            assert(seq![t, 0int].remove(1) =~= seq![t]);
            assert(bcol.elem(seq![t, 0int]) == b.elem(seq![t]));
            crate::tensor::lemma_elem_in_bounds(*b, seq![t]);
            crate::tensor::lemma_elem_in_bounds(*g, seq![0int, 0int]);
            crate::rat::lemma_rat_mul_inv(g.elem(seq![0int, 0int]), b.elem(seq![t]));
            crate::rat::lemma_add_zero(rat_mul(g.elem(seq![0int, 0int]), b.elem(seq![t])));
        }
        assert forall|qq: Seq<int>| in_shape(qq, bcol.shape@) implies #[trigger] gbp.elem(qq)
            == rat_mul(a.elem(seq![qq[0]]), g.elem(seq![0int, 0int])) by {
            let t = qq[0];
            assert(qq[1] == 0);
            assert(qq =~= seq![t, 0int]);
            let q = seq![t, 0int];
            crate::tensor::lemma_weave_identity(bcol.shape@, q);
            assert(gbp.elem(q) == mm_grad_b_sum(
                arow,
                *g,
                pb_prod,
                bcol.shape@,
                q,
                numel_of(crate::tensor::reduce_cshape(pb_prod, bcol.shape@)) as int,
            ));
            assert(numel_of(crate::tensor::reduce_cshape(pb_prod, bcol.shape@)) == 1);
            let bidx = q.take(0);
            assert(bidx =~= Seq::<int>::empty());
            let ia0 = bsrc_idx(bidx, mm_batch(arow.shape@));
            let ig0 = bsrc_idx(bidx, mm_batch(g.shape@));
            assert(ia0 =~= Seq::<int>::empty());
            assert(ig0 =~= Seq::<int>::empty());
            assert(arow.shape@[arow.rank() - 2] == 1);
            assert(q[1] == 0);
            assert(gdot_b(arow, *g, ia0, ig0, q[0], q[1], 0) == rat_zero());
            assert(gdot_b(arow, *g, ia0, ig0, q[0], q[1], 1) == rat_add(
                rat_zero(),
                rat_mul(
                    arow.elem(ia0.push(0int).push(q[0])),
                    g.elem(ig0.push(0int).push(q[1])),
                ),
            ));
            assert(ia0.push(0int).push(q[0]) =~= Seq::<int>::empty().push(0int).push(t));
            assert(ig0.push(0int).push(q[1]) =~= Seq::<int>::empty().push(0int).push(0int));
            assert(gprod_b_entry(arow, *g, q) == rat_add(
                rat_zero(),
                rat_mul(
                    arow.elem(Seq::<int>::empty().push(0int).push(t)),
                    g.elem(Seq::<int>::empty().push(0int).push(0int)),
                ),
            ));
            let cs0 = crate::tensor::reduce_cshape(pb_prod, bcol.shape@);
            assert(cs0 == crate::tensor::reduce_cshape(bcol.shape@, bcol.shape@));
            let w0 = crate::tensor::weave_idx(qq, idx_of(0, cs0), pb_prod, bcol.shape@);
            assert(w0 == crate::tensor::weave_idx(
                qq,
                idx_of(0, crate::tensor::reduce_cshape(bcol.shape@, bcol.shape@)),
                bcol.shape@,
                bcol.shape@,
            ));
            assert(w0 == qq);
            assert(mm_grad_b_sum(arow, *g, pb_prod, bcol.shape@, qq, 0) == rat_zero());
            assert(mm_grad_b_sum(arow, *g, pb_prod, bcol.shape@, qq, 1) == rat_add(
                rat_zero(),
                gprod_b_entry(arow, *g, w0),
            ));
            assert(Seq::<int>::empty().push(0int).push(t) =~= seq![0int, t]);
            assert(Seq::<int>::empty().push(0int).push(0int) =~= seq![0int, 0int]);
            assert(in_shape(seq![0int, t], arow.shape@)) by {
                assert(seq![0int, t][0] == 0);
                assert(seq![0int, t][1] == t);
            }
            assert(seq![0int, t].remove(0) =~= seq![t]);
            assert(arow.elem(seq![0int, t]) == a.elem(seq![t]));
            crate::tensor::lemma_elem_in_bounds(*a, seq![t]);
            crate::tensor::lemma_elem_in_bounds(*g, seq![0int, 0int]);
            crate::rat::lemma_rat_mul_inv(a.elem(seq![t]), g.elem(seq![0int, 0int]));
            crate::rat::lemma_add_zero(rat_mul(a.elem(seq![t]), g.elem(seq![0int, 0int])));
        }
    }
    let ga = gap.squeeze_view(0);
    let gb = gbp.squeeze_view(1);
    proof {
        assert(ga.shape@ =~= a.shape@);
        assert(gb.shape@ =~= b.shape@);
        assert forall|q: Seq<int>| in_shape(q, a.shape@) implies #[trigger] ga.elem(q)
            == rat_mul(g.elem(seq![0int, 0int]), b.elem(q)) by {
            let t = q[0];
            assert(q =~= seq![t]);
            assert(q.insert(0, 0int) =~= seq![0int, t]);
            assert(in_shape(seq![0int, t], arow.shape@)) by {
                assert(seq![0int, t][0] == 0);
                assert(seq![0int, t][1] == t);
            }
            assert(ga.elem(q) == gap.elem(seq![0int, t]));
            assert(gap.elem(seq![0int, t]) == rat_mul(g.elem(seq![0int, 0int]), b.elem(seq![t])));
        }
        assert forall|q: Seq<int>| in_shape(q, b.shape@) implies #[trigger] gb.elem(q)
            == rat_mul(a.elem(q), g.elem(seq![0int, 0int])) by {
            let t = q[0];
            assert(q =~= seq![t]);
            assert(q.insert(1, 0int) =~= seq![t, 0int]);
            assert(in_shape(seq![t, 0int], bcol.shape@)) by {
                assert(seq![t, 0int][0] == t);
                assert(seq![t, 0int][1] == 0);
            }
            assert(gb.elem(q) == gbp.elem(seq![t, 0int]));
            assert(gbp.elem(seq![t, 0int]) == rat_mul(a.elem(seq![t]), g.elem(seq![0int, 0int])));
        }
    }
    (ga, gb)
}

/// Vector dots depend only on the tensors' views.
proof fn lemma_vv_dot_eqv(a1: Tensor, a2: Tensor, b1: Tensor, b2: Tensor, p: int)
    requires
        crate::trace::tensor_eqv(a1, a2),
        crate::trace::tensor_eqv(b1, b2),
    ensures
        vv_dot(a1, b1, p) == vv_dot(a2, b2, p),
    decreases p,
{
    if p > 0 {
        lemma_vv_dot_eqv(a1, a2, b1, b2, p - 1);
    }
}

/// Matrix-vector dots depend only on the tensors' views.
proof fn lemma_mv_dot_eqv(a1: Tensor, a2: Tensor, b1: Tensor, b2: Tensor, ia: Seq<int>, p: int)
    requires
        crate::trace::tensor_eqv(a1, a2),
        crate::trace::tensor_eqv(b1, b2),
    ensures
        mv_dot(a1, b1, ia, p) == mv_dot(a2, b2, ia, p),
    decreases p,
{
    if p > 0 {
        lemma_mv_dot_eqv(a1, a2, b1, b2, ia, p - 1);
    }
}

/// Vector-matrix dots depend only on the tensors' views.
proof fn lemma_vm_dot_eqv(
    a1: Tensor,
    a2: Tensor,
    b1: Tensor,
    b2: Tensor,
    ib: Seq<int>,
    jb: int,
    p: int,
)
    requires
        crate::trace::tensor_eqv(a1, a2),
        crate::trace::tensor_eqv(b1, b2),
    ensures
        vm_dot(a1, b1, ib, jb, p) == vm_dot(a2, b2, ib, jb, p),
    decreases p,
{
    if p > 0 {
        lemma_vm_dot_eqv(a1, a2, b1, b2, ib, jb, p - 1);
    }
}

/// Record a batched matrix product of two nodes on the trace.  The traced
/// form takes operands of any rank from one up; rank-one operands promote to
/// a row or column as the forward product does, and the gradient rule
/// mirrors the promotion so each gradient matches its un-promoted operand.
pub fn matmul(tr: &mut Trace, a_id: NodeId, b_id: NodeId) -> (r: Result<NodeId, ShapeError>)
    requires
        old(tr).wf(),
        a_id < old(tr).node_count(),
        b_id < old(tr).node_count(),
        node_shape(*old(tr), a_id).len() >= 1,
        node_shape(*old(tr), b_id).len() >= 1,
        mmh_req(
            mm_pa_shape(node_shape(*old(tr), a_id)),
            mm_pb_shape(node_shape(*old(tr), b_id)),
        ),
        mmh_ok(
            mm_pa_shape(node_shape(*old(tr), a_id)),
            mm_pb_shape(node_shape(*old(tr), b_id)),
        ) ==> numel_of(
            mm_grad_a_shape(
                mm_pa_shape(node_shape(*old(tr), a_id)),
                mm_pb_shape(node_shape(*old(tr), b_id)),
            ),
        ) <= usize::MAX && numel_of(
            mm_grad_b_shape(
                mm_pa_shape(node_shape(*old(tr), a_id)),
                mm_pb_shape(node_shape(*old(tr), b_id)),
            ),
        ) <= usize::MAX,
    ensures
        match r {
            Ok(id) => {
                &&& id == old(tr).node_count()
                &&& appended(*old(tr), *final(tr))
                &&& mmh_ok(
                    mm_pa_shape(node_shape(*old(tr), a_id)),
                    mm_pb_shape(node_shape(*old(tr), b_id)),
                )
                &&& final(tr).nodes_view().last().parents_id@ == seq![a_id, b_id]
                &&& (final(tr).nodes_view().last().vjp matches Some(VjpRule::MatMulRule {
                    a: ac,
                    b: bc,
                }) && tensor_eqv(ac, node_value(*old(tr), a_id)) && tensor_eqv(
                    bc,
                    node_value(*old(tr), b_id),
                ))
                &&& final(tr).nodes_view().last().value.wf()
                &&& final(tr).nodes_view().last().value.shape@ == mm_value_shape(
                    node_shape(*old(tr), a_id),
                    node_shape(*old(tr), b_id),
                )
                &&& node_shape(*old(tr), a_id).len() >= 2 && node_shape(*old(tr), b_id).len()
                    >= 2 ==> forall|oidx: Seq<int>|
                    in_shape(
                        oidx,
                        mmh_shape(node_shape(*old(tr), a_id), node_shape(*old(tr), b_id)),
                    ) ==> #[trigger] final(tr).nodes_view().last().value.elem(oidx) == mm_entry(
                        node_value(*old(tr), a_id),
                        node_value(*old(tr), b_id),
                        oidx,
                    )
                &&& node_shape(*old(tr), a_id).len() == 1 && node_shape(*old(tr), b_id).len()
                    == 1 ==> final(tr).nodes_view().last().value.elem(seq![0int, 0int])
                    == vv_dot(
                    node_value(*old(tr), a_id),
                    node_value(*old(tr), b_id),
                    node_shape(*old(tr), a_id)[0] as int,
                )
                &&& node_shape(*old(tr), a_id).len() >= 2 && node_shape(*old(tr), b_id).len()
                    == 1 ==> forall|q: Seq<int>|
                    in_shape(q, node_shape(*old(tr), a_id).drop_last())
                        ==> #[trigger] final(tr).nodes_view().last().value.elem(q) == mv_dot(
                        node_value(*old(tr), a_id),
                        node_value(*old(tr), b_id),
                        q,
                        node_shape(*old(tr), a_id)[node_shape(*old(tr), a_id).len() - 1] as int,
                    )
                &&& node_shape(*old(tr), a_id).len() == 1 && node_shape(*old(tr), b_id).len()
                    >= 2 ==> forall|q: Seq<int>|
                    in_shape(
                        q,
                        node_shape(*old(tr), b_id).remove(node_shape(*old(tr), b_id).len() - 2),
                    ) ==> #[trigger] final(tr).nodes_view().last().value.elem(q) == vm_dot(
                        node_value(*old(tr), a_id),
                        node_value(*old(tr), b_id),
                        q.drop_last(),
                        q.last(),
                        node_shape(*old(tr), a_id)[0] as int,
                    )
            },
            Err(e) => {
                &&& !mmh_ok(
                    mm_pa_shape(node_shape(*old(tr), a_id)),
                    mm_pb_shape(node_shape(*old(tr), b_id)),
                )
                &&& (e == ShapeError::DimMismatch || e == ShapeError::Incompatible)
                &&& final(tr).nodes_view() == old(tr).nodes_view()
                &&& final(tr).params_view() == old(tr).params_view()
            },
        },
{
    let va = tr.get_tensor(a_id).duplicate();
    let vb = tr.get_tensor(b_id).duplicate();
    let ghost sa = va.shape@;
    let ghost sb = vb.shape@;
    proof {
        assert(crate::trace::node_ok(tr.nodes_view(), a_id as int));
        assert(crate::trace::node_ok(tr.nodes_view(), b_id as int));
        // the promoted side conditions cover every rank pair the op admits
        assert(mm_req(va, vb)) by {
            if va.rank() >= 2 && vb.rank() == 1 {
                assert(sb.push(1usize) == mm_pb_shape(sb));
            }
            if va.rank() == 1 && vb.rank() >= 2 {
                assert(sa.insert(0, 1usize) == mm_pa_shape(sa));
            }
        }
        lemma_numel_pos_dims(sa);
        lemma_numel_pos_dims(sb);
        lemma_bshape_empty(mm_batch(sa));
        lemma_bshape_empty(mm_batch(sb));
        lemma_bshape_empty(Seq::<usize>::empty());
        assert(mm_batch(mm_pa_shape(sa)) =~= if sa.len() == 1 {
            Seq::<usize>::empty()
        } else {
            mm_batch(sa)
        });
        assert(mm_batch(mm_pb_shape(sb)) =~= if sb.len() == 1 {
            Seq::<usize>::empty()
        } else {
            mm_batch(sb)
        });
    }
    match tensor_mul(&va, &vb) {
        Ok(value) => {
            proof {
                // success of the promoted product
                assert(mmh_ok(mm_pa_shape(sa), mm_pb_shape(sb))) by {
                    assert(mm_pa_shape(sa)[mm_pa_shape(sa).len() - 1] == sa[sa.len() - 1]);
                    assert(mm_pb_shape(sb)[mm_pb_shape(sb).len() - 2] == if sb.len() == 1 {
                        sb[0]
                    } else {
                        sb[sb.len() - 2]
                    });
                }
                assert(value.shape@ == mm_value_shape(sa, sb)) by {
                    if sa.len() == 1 && sb.len() == 1 {
                        assert(value.shape@ =~= seq![1usize, 1usize]);
                    }
                }
                assert forall|i: int| 0 <= i < value.shape@.len() implies
                    #[trigger] value.shape@[i] > 0 by {
                    if sa.len() >= 2 && sb.len() >= 2 {
                        crate::tensor::lemma_bshape_feasible(mm_batch(sa), mm_batch(sb));
                        if i < value.shape@.len() - 2 {
                            assert(value.shape@[i] == bshape_of(mm_batch(sa), mm_batch(sb))[i]);
                        }
                    } else if sa.len() == 1 && sb.len() == 1 {
                        assert(value.shape@[i] == 1);
                    } else if sb.len() == 1 {
                        assert(value.shape@[i] == sa[i]);
                    } else {
                        assert(value.shape@ == sb.remove(sb.len() - 2));
                        if i < sb.len() - 2 {
                            assert(value.shape@[i] == sb[i]);
                        } else {
                            assert(value.shape@[i] == sb[i + 1]);
                        }
                    }
                }
                crate::shape::lemma_numel_pos(value.shape@);
                assert(numel_of(value.shape@) <= usize::MAX) by {
                    if sa.len() >= 2 && sb.len() >= 2 {
                        assert(mmh_shape(sa, sb) == mmh_shape(mm_pa_shape(sa), mm_pb_shape(sb)));
                    } else if sa.len() == 1 && sb.len() == 1 {
                        assert(value.shape@ =~= seq![1usize].push(1usize));
                        crate::shape::lemma_numel_snoc(seq![1usize], 1usize);
                        assert(seq![1usize] =~= Seq::<usize>::empty().push(1usize));
                        crate::shape::lemma_numel_snoc(Seq::<usize>::empty(), 1usize);
                    } else if sb.len() == 1 {
                        crate::shape::lemma_numel_split(sa, sa.len() - 1 as int);
                        assert(sa.take(sa.len() - 1 as int) =~= sa.drop_last());
                        crate::shape::lemma_numel_pos(sa.skip(sa.len() - 1 as int));
                        assert(numel_of(sa.drop_last()) * 1 <= numel_of(sa.drop_last())
                            * numel_of(sa.skip(sa.len() - 1 as int))) by {
                            lemma_mul_inequality(
                                1,
                                numel_of(sa.skip(sa.len() - 1 as int)) as int,
                                numel_of(sa.drop_last()) as int,
                            );
                            lemma_mul_is_commutative(1, numel_of(sa.drop_last()) as int);
                            lemma_mul_is_commutative(
                                numel_of(sa.skip(sa.len() - 1 as int)) as int,
                                numel_of(sa.drop_last()) as int,
                            );
                        }
                        assert(numel_of(sa.drop_last()) * 1 == numel_of(sa.drop_last())) by {
                            lemma_mul_basics(numel_of(sa.drop_last()) as int);
                        }
                    } else {
                        crate::shape::lemma_numel_insert(
                            sb.remove(sb.len() - 2),
                            sb.len() - 2 as int,
                            sb[sb.len() - 2],
                        );
                        assert(sb.remove(sb.len() - 2).insert(sb.len() - 2 as int, sb[sb.len() - 2])
                            =~= sb);
                        assert(numel_of(sb.remove(sb.len() - 2)) * 1 <= numel_of(
                            sb.remove(sb.len() - 2),
                        ) * sb[sb.len() - 2]) by {
                            lemma_mul_inequality(
                                1,
                                sb[sb.len() - 2] as int,
                                numel_of(sb.remove(sb.len() - 2)) as int,
                            );
                            lemma_mul_is_commutative(1, numel_of(sb.remove(sb.len() - 2)) as int);
                            lemma_mul_is_commutative(
                                sb[sb.len() - 2] as int,
                                numel_of(sb.remove(sb.len() - 2)) as int,
                            );
                        }
                        assert(numel_of(sb.remove(sb.len() - 2)) * 1 == numel_of(
                            sb.remove(sb.len() - 2),
                        )) by {
                            lemma_mul_basics(numel_of(sb.remove(sb.len() - 2)) as int);
                        }
                    }
                }
            }
            let mut parents: Vec<NodeId> = Vec::new();
            parents.push(a_id);
            parents.push(b_id);
            let node = Node {
                value,
                parents_id: parents,
                vjp: Some(VjpRule::MatMulRule { a: va, b: vb }),
                is_param: false,
            };
            proof {
                let nodes2 = tr.nodes_view().push(node);
                assert(node.parents_id@ =~= seq![a_id, b_id]);
                assert(nodes2[a_id as int] == tr.nodes_view()[a_id as int]);
                assert(nodes2[b_id as int] == tr.nodes_view()[b_id as int]);
                assert(crate::trace::node_ok(nodes2, tr.nodes_view().len() as int));
                let v0a = node_value(*tr, a_id);
                let v0b = node_value(*tr, b_id);
                if sa.len() >= 2 && sb.len() >= 2 {
                    assert forall|oidx: Seq<int>| in_shape(oidx, mmh_shape(v0a.shape@, v0b.shape@))
                        implies #[trigger] node.value.elem(oidx) == mm_entry(v0a, v0b, oidx) by {
                        let n = oidx.len() as int;
                        lemma_mm_dot_eqv(
                            va,
                            v0a,
                            vb,
                            v0b,
                            bsrc_idx(oidx.take(n - 2), mm_batch(va.shape@)).push(oidx[n - 2]),
                            bsrc_idx(oidx.take(n - 2), mm_batch(vb.shape@)),
                            oidx[n - 1],
                            va.shape@[va.rank() - 1] as int,
                        );
                    }
                }
                if sa.len() == 1 && sb.len() == 1 {
                    lemma_vv_dot_eqv(va, v0a, vb, v0b, sa[0] as int);
                }
                if sa.len() >= 2 && sb.len() == 1 {
                    assert forall|q: Seq<int>| in_shape(q, v0a.shape@.drop_last()) implies
                        #[trigger] node.value.elem(q) == mv_dot(
                        v0a,
                        v0b,
                        q,
                        v0a.shape@[v0a.rank() - 1] as int,
                    ) by {
                        lemma_mv_dot_eqv(va, v0a, vb, v0b, q, sa[sa.len() - 1] as int);
                    }
                }
                if sa.len() == 1 && sb.len() >= 2 {
                    assert forall|q: Seq<int>| in_shape(
                        q,
                        v0b.shape@.remove(v0b.shape@.len() - 2),
                    ) implies #[trigger] node.value.elem(q) == vm_dot(
                        v0a,
                        v0b,
                        q.drop_last(),
                        q.last(),
                        v0a.shape@[0] as int,
                    ) by {
                        lemma_vm_dot_eqv(va, v0a, vb, v0b, q.drop_last(), q.last(), sa[0] as int);
                    }
                }
            }
            let id = tr.push(node);
            Ok(id)
        },
        Err(e) => {
            proof {
                assert(!mm_ok(va, vb));
                assert(!mmh_ok(mm_pa_shape(sa), mm_pb_shape(sb))) by {
                    if mmh_ok(mm_pa_shape(sa), mm_pb_shape(sb)) {
                        assert(mm_dims_ok(va, vb)) by {
                            assert(mm_pa_shape(sa)[mm_pa_shape(sa).len() - 1] == sa[sa.len() - 1]);
                        }
                        if va.rank() >= 2 && vb.rank() >= 2 {
                            assert(bshape_ok(mm_batch(sa), mm_batch(sb)));
                        }
                        assert(mm_ok(va, vb));
                        assert(false);
                    }
                }
            }
            Err(e)
        },
    }
}

} // verus!
