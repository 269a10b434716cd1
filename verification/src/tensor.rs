//! Strided tensor views over a shared immutable buffer of rational scalars.
//!
//! A `Tensor` is a shape, a stride vector and an offset into a buffer.  A
//! stride of zero marks a broadcast axis: every index along it reads the same
//! underlying element.  Buffers are never mutated once built; view transforms
//! share the buffer and materialising operations allocate a fresh one.

use crate::rat::{rat_add, rat_lt, rat_max, rat_mul, rat_one, rat_zero, seq_rat_sum, Rat};
use crate::shape::{
    compute_strides, idx_from_lin, in_shape, is_rm_strides, lemma_idx_of_lin, lemma_lin_of_bounds,
    lemma_numel_insert, lemma_numel_pos, lemma_numel_split, lemma_numel_zero_dim,
    lemma_stride_sum_insert, lemma_stride_sum_le_span, lemma_stride_sum_nonneg,
    lemma_stride_sum_pointwise, lemma_stride_sum_prefix, lemma_stride_sum_rm,
    lemma_stride_sum_skip_zero, lemma_stride_sum_swap_last2, lin_of, max_idx, numel_checked,
    numel_of, idx_of, seq_int, span_of, stride_sum,
};
use vstd::arithmetic::mul::*;
use vstd::prelude::*;

verus! {

/// Shape errors raised while building a view or an operator.
#[derive(Clone, Copy, PartialEq, Eq, Structural, Debug)]
pub enum ShapeError {
    /// The broadcast target has fewer axes than the source.
    RankTooSmall,
    /// An axis of the source can not be stretched to the target.
    NotBroadcastable,
    /// Two shapes can not be reconciled by broadcasting.
    Incompatible,
    /// The contracted dimensions of a matrix product disagree.
    DimMismatch,
}

/// A logical multi-dimensional array view over a buffer.
#[derive(Debug)]
pub struct Tensor {
    pub data: Vec<Rat>,
    pub shape: Vec<usize>,
    pub strides: Vec<usize>,
    pub offset: usize,
}

impl Tensor {
    /// Number of axes.
    pub open spec fn rank(self) -> int {
        self.shape@.len() as int
    }

    /// The element this view presents at a multi-index.
    pub open spec fn elem(self, idx: Seq<int>) -> Rat {
        self.data@[self.offset + stride_sum(idx, self.strides@)]
    }

    /// Well-formed view: every valid multi-index reads inside the buffer, and
    /// the buffer holds canonical scalars.
    pub open spec fn wf(self) -> bool {
        &&& self.strides@.len() == self.shape@.len()
        &&& numel_of(self.shape@) > 0 ==> self.offset + span_of(self.shape@, self.strides@)
            < self.data@.len()
        &&& forall|i: int| 0 <= i < self.data@.len() ==> (#[trigger] self.data@[i]).inv()
    }

    /// A freshly materialised row-major tensor: offset zero, exactly one
    /// buffer element per logical element.
    pub open spec fn dense(self) -> bool {
        &&& self.offset == 0
        &&& self.data@.len() == numel_of(self.shape@)
        &&& self.strides@.len() == self.shape@.len()
        &&& numel_of(self.shape@) > 0 ==> is_rm_strides(self.shape@, self.strides@)
    }
}

/// Every valid index of a well-formed tensor reads inside the buffer.
pub proof fn lemma_elem_in_bounds(t: Tensor, idx: Seq<int>)
    requires
        t.wf(),
        in_shape(idx, t.shape@),
    ensures
        0 <= t.offset + stride_sum(idx, t.strides@) < t.data@.len(),
        t.elem(idx).inv(),
{
    lemma_numel_in_shape_pos(idx, t.shape@);
    lemma_stride_sum_le_span(idx, t.shape@, t.strides@);
}

/// A shape that admits a valid index has elements.
pub proof fn lemma_numel_in_shape_pos(idx: Seq<int>, shape: Seq<usize>)
    requires
        in_shape(idx, shape),
    ensures
        numel_of(shape) > 0,
{
    assert forall|i: int| 0 <= i < shape.len() implies #[trigger] shape[i] > 0 by {
        assert(0 <= idx[i] < shape[i]);
    }
    lemma_numel_pos(shape);
}

/// Shapes with elements have only positive dimensions.
pub proof fn lemma_numel_pos_dims(shape: Seq<usize>)
    requires
        numel_of(shape) > 0,
    ensures
        forall|i: int| 0 <= i < shape.len() ==> #[trigger] shape[i] > 0,
{
    assert forall|i: int| 0 <= i < shape.len() implies #[trigger] shape[i] > 0 by {
        if shape[i] == 0 {
            lemma_numel_zero_dim(shape, i);
        }
    }
}

/// In a dense tensor the displacement of a valid index is its row-major
/// linear position, which lies inside the buffer.
pub proof fn lemma_dense_elem(t: Tensor, idx: Seq<int>)
    requires
        t.dense(),
        in_shape(idx, t.shape@),
    ensures
        t.offset + stride_sum(idx, t.strides@) == lin_of(idx, t.shape@),
        0 <= lin_of(idx, t.shape@) < t.data@.len(),
        t.elem(idx) == t.data@[lin_of(idx, t.shape@)],
{
    lemma_numel_in_shape_pos(idx, t.shape@);
    lemma_stride_sum_rm(idx, t.shape@, t.strides@);
    lemma_lin_of_bounds(idx, t.shape@);
}

/// A dense tensor over canonical scalars is well-formed.
pub proof fn lemma_dense_wf(t: Tensor)
    requires
        t.dense(),
        forall|i: int| 0 <= i < t.data@.len() ==> (#[trigger] t.data@[i]).inv(),
    ensures
        t.wf(),
{
    if numel_of(t.shape@) > 0 {
        lemma_numel_pos_dims(t.shape@);
        assert(in_shape(max_idx(t.shape@), t.shape@));
        lemma_dense_elem(t, max_idx(t.shape@));
    }
}

/// All suffix products of a shape with a bounded element count stay bounded,
/// which is what `compute_strides` asks of its caller.
pub proof fn lemma_suffixes_bounded(shape: Seq<usize>)
    requires
        numel_of(shape) > 0,
        numel_of(shape) <= usize::MAX,
    ensures
        forall|i: int| 0 <= i <= shape.len() ==> numel_of(#[trigger] shape.skip(i)) <= usize::MAX,
{
    lemma_numel_pos_dims(shape);
    assert forall|i: int| 0 <= i <= shape.len() implies numel_of(#[trigger] shape.skip(i))
        <= usize::MAX by {
        lemma_numel_split(shape, i);
        assert(forall|j: int| 0 <= j < shape.take(i).len() ==> #[trigger] shape.take(i)[j] > 0);
        lemma_numel_pos(shape.take(i));
        assert(1 * numel_of(shape.skip(i)) <= numel_of(shape.take(i)) * numel_of(shape.skip(i)))
            by {
            lemma_mul_inequality(1, numel_of(shape.take(i)) as int, numel_of(shape.skip(i)) as int);
            lemma_mul_is_commutative(1, numel_of(shape.skip(i)) as int);
            lemma_mul_is_commutative(numel_of(shape.take(i)) as int, numel_of(shape.skip(i)) as int);
        }
        assert(1 * numel_of(shape.skip(i)) == numel_of(shape.skip(i))) by {
            lemma_mul_basics(numel_of(shape.skip(i)) as int);
        }
    }
}

/// Strides for a fresh dense tensor: row-major when there are elements, and
/// irrelevant zeros when the shape is empty.
fn dense_strides(shape: &[usize], ghost_n: Ghost<nat>) -> (r: Vec<usize>)
    requires
        ghost_n@ == numel_of(shape@),
        ghost_n@ <= usize::MAX,
    ensures
        r@.len() == shape@.len(),
        numel_of(shape@) > 0 ==> is_rm_strides(shape@, r@),
{
    let nonempty = match numel_checked(shape) {
        Some(n) => n > 0,
        None => false,
    };
    if nonempty {
        proof {
            lemma_suffixes_bounded(shape@);
        }
        compute_strides(shape)
    } else {
        let mut v: Vec<usize> = Vec::new();
        let mut i: usize = 0;
        let len = shape.len();
        while i < len
            invariant
                v@.len() == i,
                0 <= i <= len,
            decreases len - i,
        {
            v.push(0);
            i = i + 1;
        }
        v
    }
}

/// Aligned dimension of `s` once left-padded with ones to length `n`.
pub open spec fn pad_dim(s: Seq<usize>, n: int, i: int) -> int {
    if i < n - s.len() {
        1
    } else {
        s[i - (n - s.len())] as int
    }
}

/// Length of the longer of two shapes: the broadcast rank.
pub open spec fn blen_of(a: Seq<usize>, b: Seq<usize>) -> int {
    if a.len() < b.len() {
        b.len() as int
    } else {
        a.len() as int
    }
}

/// One right-aligned axis of two shapes agrees or is one on either side.
pub open spec fn axis_ok(a: Seq<usize>, b: Seq<usize>, i: int) -> bool {
    ||| pad_dim(a, blen_of(a, b), i) == 1
    ||| pad_dim(b, blen_of(a, b), i) == 1
    ||| pad_dim(a, blen_of(a, b), i) == pad_dim(b, blen_of(a, b), i)
}

/// Two shapes are reconcilable: on every right-aligned axis the dimensions
/// agree or one of them is one.
pub open spec fn bshape_ok(a: Seq<usize>, b: Seq<usize>) -> bool {
    forall|i: int| 0 <= i < blen_of(a, b) ==> #[trigger] axis_ok(a, b, i)
}

/// The common broadcast shape: the axiswise maximum of the aligned shapes.
pub open spec fn bshape_of(a: Seq<usize>, b: Seq<usize>) -> Seq<usize> {
    Seq::new(
        blen_of(a, b) as nat,
        |i: int|
            if pad_dim(a, blen_of(a, b), i) < pad_dim(b, blen_of(a, b), i) {
                pad_dim(b, blen_of(a, b), i) as usize
            } else {
                pad_dim(a, blen_of(a, b), i) as usize
            },
    )
}

/// `src` can be presented under a target of `tgt`'s length: every axis agrees
/// or is one in the source.
pub open spec fn can_broadcast_to(src: Seq<usize>, tgt: Seq<usize>) -> bool {
    &&& src.len() <= tgt.len()
    &&& forall|j: int|
        0 <= j < src.len() ==> #[trigger] src[j] == 1 || src[j] == tgt[j + tgt.len() - src.len()]
}

/// The shape a broadcast view presents: the target dimension wherever a
/// one-sized source axis is stretched, the (padded) source dimension elsewhere.
pub open spec fn bview_shape(src: Seq<usize>, tgt: Seq<usize>) -> Seq<usize> {
    Seq::new(
        tgt.len(),
        |i: int|
            {
                let s = pad_dim(src, tgt.len() as int, i);
                if s == 1 && tgt[i] > 1 {
                    tgt[i]
                } else {
                    s as usize
                }
            },
    )
}

/// The source index that a broadcast-view index reads: drop the left padding
/// and clamp stretched axes to zero.
pub open spec fn bsrc_idx(idx: Seq<int>, src: Seq<usize>) -> Seq<int> {
    Seq::new(
        src.len(),
        |j: int|
            if src[j] == 1 {
                0
            } else {
                idx[j + idx.len() - src.len()]
            },
    )
}

/// Swapping the two trailing axes of a well-formed view yields a well-formed
/// view presenting the transposed elements.
proof fn lemma_transpose_props(a: Tensor, t: Tensor)
    requires
        a.wf(),
        a.rank() >= 2,
        t.data@ == a.data@,
        t.offset == a.offset,
        t.shape@ == a.shape@.update(a.rank() - 2, a.shape@[a.rank() - 1]).update(
            a.rank() - 1,
            a.shape@[a.rank() - 2],
        ),
        t.strides@ == a.strides@.update(a.rank() - 2, a.strides@[a.rank() - 1]).update(
            a.rank() - 1,
            a.strides@[a.rank() - 2],
        ),
    ensures
        t.wf(),
        forall|idx: Seq<int>|
            in_shape(idx, t.shape@) ==> #[trigger] t.elem(idx) == a.elem(
                idx.update(idx.len() - 2, idx[idx.len() - 1]).update(
                    idx.len() - 1,
                    idx[idx.len() - 2],
                ),
            ) && in_shape(
                idx.update(idx.len() - 2, idx[idx.len() - 1]).update(
                    idx.len() - 1,
                    idx[idx.len() - 2],
                ),
                a.shape@,
            ),
{
    let n = a.rank();
    assert forall|idx: Seq<int>| in_shape(idx, t.shape@) implies #[trigger] t.elem(idx) == a.elem(
        idx.update(idx.len() - 2, idx[idx.len() - 1]).update(idx.len() - 1, idx[idx.len() - 2]),
    ) && in_shape(
        idx.update(idx.len() - 2, idx[idx.len() - 1]).update(idx.len() - 1, idx[idx.len() - 2]),
        a.shape@,
    ) by {
        let sw = idx.update(idx.len() - 2, idx[idx.len() - 1]).update(
            idx.len() - 1,
            idx[idx.len() - 2],
        );
        lemma_stride_sum_swap_last2(idx, t.strides@);
        assert(t.strides@.update(n - 2, t.strides@[n - 1]).update(n - 1, t.strides@[n - 2])
            =~= a.strides@);
        assert(in_shape(sw, a.shape@));
    }
    if numel_of(t.shape@) > 0 {
        lemma_numel_pos_dims(t.shape@);
        assert forall|i: int| 0 <= i < a.shape@.len() implies #[trigger] a.shape@[i] > 0 by {
            if i == n - 2 {
                assert(t.shape@[n - 1] == a.shape@[n - 2]);
            } else if i == n - 1 {
                assert(t.shape@[n - 2] == a.shape@[n - 1]);
            } else {
                assert(t.shape@[i] == a.shape@[i]);
            }
        }
        lemma_numel_pos(a.shape@);
        let m = max_idx(t.shape@);
        assert(in_shape(m, t.shape@));
        lemma_stride_sum_swap_last2(m, t.strides@);
        assert(t.strides@.update(n - 2, t.strides@[n - 1]).update(n - 1, t.strides@[n - 2])
            =~= a.strides@);
        let msw = m.update(m.len() - 2, m[m.len() - 1]).update(m.len() - 1, m[m.len() - 2]);
        assert(msw =~= max_idx(a.shape@));
        assert(span_of(t.shape@, t.strides@) == span_of(a.shape@, a.strides@));
    }
}

impl Tensor {
    /// Copy of this view: same buffer contents, shape, strides and offset.
    pub fn duplicate(&self) -> (r: Tensor)
        ensures
            r.data@ == self.data@,
            r.shape@ == self.shape@,
            r.strides@ == self.strides@,
            r.offset == self.offset,
    {
        let data = self.data.clone();
        let shape = self.shape.clone();
        let strides = self.strides.clone();
        proof {
            assert(data@ =~= self.data@);
            assert(shape@ =~= self.shape@);
            assert(strides@ =~= self.strides@);
        }
        Tensor { data, shape, strides, offset: self.offset }
    }

    /// A dense tensor owning `data` under `shape`, or a shape error when the
    /// buffer length is not the product of the dimensions.
    pub fn from_owned(data: Vec<Rat>, shape: &[usize]) -> (r: Result<Tensor, ShapeError>)
        requires
            forall|i: int| 0 <= i < data@.len() ==> (#[trigger] data@[i]).inv(),
        ensures
            match r {
                Ok(t) => {
                    &&& data@.len() == numel_of(shape@)
                    &&& t.wf()
                    &&& t.dense()
                    &&& t.shape@ == shape@
                    &&& t.data@ == data@
                    &&& forall|idx: Seq<int>|
                        in_shape(idx, shape@) ==> #[trigger] t.elem(idx) == data@[lin_of(
                            idx,
                            shape@,
                        )]
                },
                Err(e) => {
                    &&& data@.len() != numel_of(shape@)
                    &&& e == ShapeError::Incompatible
                },
            },
    {
        let dl = data.len();
        let n = match numel_checked(shape) {
            Some(n) => n,
            None => {
                return Err(ShapeError::Incompatible);
            },
        };
        if dl != n {
            return Err(ShapeError::Incompatible);
        }
        let strides = dense_strides(shape, Ghost(numel_of(shape@)));
        let mut shape_v: Vec<usize> = Vec::new();
        let mut i: usize = 0;
        let len = shape.len();
        while i < len
            invariant
                0 <= i <= len,
                len == shape@.len(),
                shape_v@ =~= shape@.take(i as int),
            decreases len - i,
        {
            shape_v.push(shape[i]);
            proof {
                assert(shape_v@ =~= shape@.take(i as int + 1));
            }
            i = i + 1;
        }
        proof {
            assert(shape_v@ =~= shape@);
        }
        let t = Tensor { data, shape: shape_v, strides, offset: 0 };
        proof {
            lemma_dense_wf(t);
            assert forall|idx: Seq<int>| in_shape(idx, shape@) implies #[trigger] t.elem(idx)
                == t.data@[lin_of(idx, shape@)] by {
                lemma_dense_elem(t, idx);
            }
        }
        Ok(t)
    }

    /// A dense tensor copying `data` under `shape`.
    pub fn from_vec(data: &[Rat], shape: &[usize]) -> (r: Result<Tensor, ShapeError>)
        requires
            forall|i: int| 0 <= i < data@.len() ==> (#[trigger] data@[i]).inv(),
        ensures
            match r {
                Ok(t) => {
                    &&& data@.len() == numel_of(shape@)
                    &&& t.wf()
                    &&& t.dense()
                    &&& t.shape@ == shape@
                    &&& t.data@ == data@
                    &&& forall|idx: Seq<int>|
                        in_shape(idx, shape@) ==> #[trigger] t.elem(idx) == data@[lin_of(
                            idx,
                            shape@,
                        )]
                },
                Err(e) => {
                    &&& data@.len() != numel_of(shape@)
                    &&& e == ShapeError::Incompatible
                },
            },
    {
        let mut copy: Vec<Rat> = Vec::new();
        let mut i: usize = 0;
        let len = data.len();
        while i < len
            invariant
                0 <= i <= len,
                len == data@.len(),
                copy@ =~= data@.take(i as int),
            decreases len - i,
        {
            copy.push(data[i]);
            proof {
                assert(copy@ =~= data@.take(i as int + 1));
            }
            i = i + 1;
        }
        proof {
            assert(copy@ =~= data@);
        }
        Tensor::from_owned(copy, shape)
    }

    /// A dense tensor whose every element is `fill`.
    fn filled(shape: &[usize], fill: Rat) -> (r: Tensor)
        requires
            numel_of(shape@) <= usize::MAX,
            fill.inv(),
        ensures
            r.wf(),
            r.dense(),
            r.shape@ == shape@,
            forall|idx: Seq<int>| in_shape(idx, shape@) ==> #[trigger] r.elem(idx) == fill,
    {
        let n = match numel_checked(shape) {
            Some(n) => n,
            None => {
                proof {
                    assert(false);
                }
                0
            },
        };
        let mut data: Vec<Rat> = Vec::new();
        let mut i: usize = 0;
        while i < n
            invariant
                0 <= i <= n,
                data@.len() == i,
                forall|j: int| 0 <= j < i ==> #[trigger] data@[j] == fill,
            decreases n - i,
        {
            data.push(fill);
            i = i + 1;
        }
        match Tensor::from_owned(data, shape) {
            Ok(t) => {
                proof {
                    assert forall|idx: Seq<int>| in_shape(idx, shape@) implies #[trigger] t.elem(
                        idx,
                    ) == fill by {
                        lemma_lin_of_bounds(idx, shape@);
                    }
                }
                t
            },
            Err(_) => {
                proof {
                    assert(false);
                }
                Tensor { data: Vec::new(), shape: Vec::new(), strides: Vec::new(), offset: 0 }
            },
        }
    }

    /// A dense tensor of zeros.
    pub fn zeros(shape: &[usize]) -> (r: Tensor)
        requires
            numel_of(shape@) <= usize::MAX,
        ensures
            r.wf(),
            r.dense(),
            r.shape@ == shape@,
            forall|idx: Seq<int>| in_shape(idx, shape@) ==> #[trigger] r.elem(idx) == rat_zero(),
    {
        Tensor::filled(shape, Rat::zero())
    }

    /// A dense tensor of ones.
    pub fn ones(shape: &[usize]) -> (r: Tensor)
        requires
            numel_of(shape@) <= usize::MAX,
        ensures
            r.wf(),
            r.dense(),
            r.shape@ == shape@,
            forall|idx: Seq<int>| in_shape(idx, shape@) ==> #[trigger] r.elem(idx) == rat_one(),
    {
        Tensor::filled(shape, Rat::one())
    }

    /// Whether any axis is a broadcast (zero-stride) axis.
    pub fn is_broadcasted(&self) -> (r: bool)
        ensures
            r == exists|i: int| 0 <= i < self.strides@.len() && self.strides@[i] == 0,
    {
        let mut i: usize = 0;
        let len = self.strides.len();
        while i < len
            invariant
                0 <= i <= len,
                len == self.strides@.len(),
                forall|j: int| 0 <= j < i ==> #[trigger] self.strides@[j] != 0,
            decreases len - i,
    {
            if self.strides[i] == 0 {
                return true;
            }
            i = i + 1;
        }
        false
    }

    /// Read the element at a multi-index.
    pub fn get(&self, id: &[usize]) -> (r: Rat)
        requires
            self.wf(),
            in_shape(seq_int(id@), self.shape@),
        ensures
            r == self.elem(seq_int(id@)),
            r.inv(),
    {
        proof {
            lemma_elem_in_bounds(*self, seq_int(id@));
        }
        let dlen = self.data.len();
        let mut acc: usize = self.offset;
        let mut i: usize = 0;
        let len = id.len();
        proof {
            assert(seq_int(id@).take(0) =~= Seq::<int>::empty());
            assert(self.strides@.take(0) =~= Seq::<usize>::empty());
        }
        while i < len
            invariant
                0 <= i <= len,
                len == id@.len(),
                self.wf(),
                in_shape(seq_int(id@), self.shape@),
                len == self.strides@.len(),
                dlen == self.data@.len(),
                acc == self.offset + stride_sum(
                    seq_int(id@).take(i as int),
                    self.strides@.take(i as int),
                ),
            decreases len - i,
        {
            proof {
                let full = seq_int(id@);
                lemma_elem_in_bounds(*self, full);
                lemma_stride_sum_prefix(full, self.strides@, i as int);
                assert(full.take(i as int).len() == i);
                assert(forall|j: int|
                    0 <= j < full.take(i as int).len() ==> 0 <= #[trigger] full.take(i as int)[j]);
                lemma_stride_sum_nonneg(full.take(i as int), self.strides@.take(i as int));
                assert(full[i as int] == id@[i as int] as int);
                // the new prefix sum equals the old plus this axis's term, and
                // never exceeds the whole displacement, which is in bounds
                if i as int + 1 < len {
                    lemma_stride_sum_prefix(full, self.strides@, i as int + 1);
                } else {
                    assert(full.take(i as int + 1) =~= full);
                    assert(self.strides@.take(i as int + 1) =~= self.strides@);
                }
                assert(stride_sum(full.take(i as int + 1), self.strides@.take(i as int + 1))
                    <= stride_sum(full, self.strides@));
            }
            acc = acc + id[i] * self.strides[i];
            i = i + 1;
        }
        proof {
            assert(seq_int(id@).take(len as int) =~= seq_int(id@));
            assert(self.strides@.take(len as int) =~= self.strides@);
        }
        self.data[acc]
    }

    /// Insert a size-one axis at `axis`, keeping every element in place.
    pub fn unsqueeze_view(&self, axis: usize) -> (r: Tensor)
        requires
            self.wf(),
            axis <= self.rank(),
            axis < self.rank() ==> self.strides@[axis as int] * self.shape@[axis as int]
                <= usize::MAX,
        ensures
            r.wf(),
            r.data@ == self.data@,
            r.offset == self.offset,
            r.shape@ == self.shape@.insert(axis as int, 1usize),
            r.strides@.len() == self.strides@.len() + 1,
            r.strides@.remove(axis as int) == self.strides@,
            forall|idx: Seq<int>|
                in_shape(idx, r.shape@) ==> #[trigger] r.elem(idx) == self.elem(
                    idx.remove(axis as int),
                ),
    {
        let inserted: usize = if axis == self.shape.len() {
            1
        } else {
            self.strides[axis] * self.shape[axis]
        };
        let mut shape_v = self.shape.clone();
        let mut strides_v = self.strides.clone();
        proof {
            assert(shape_v@ =~= self.shape@);
            assert(strides_v@ =~= self.strides@);
        }
        shape_v.insert(axis, 1);
        strides_v.insert(axis, inserted);
        let t = Tensor {
            data: self.data.clone(),
            shape: shape_v,
            strides: strides_v,
            offset: self.offset,
        };
        proof {
            assert(t.data@ =~= self.data@);
            assert(t.strides@.remove(axis as int) =~= self.strides@);
            lemma_numel_insert(self.shape@, axis as int, 1);
            assert(numel_of(t.shape@) == numel_of(self.shape@) * 1);
            assert(numel_of(self.shape@) * 1 == numel_of(self.shape@)) by {
                lemma_mul_basics(numel_of(self.shape@) as int);
            }
            assert forall|idx: Seq<int>| in_shape(idx, t.shape@) implies #[trigger] t.elem(idx)
                == self.elem(idx.remove(axis as int)) by {
                let base = idx.remove(axis as int);
                assert(idx[axis as int] == 0);
                assert(idx =~= base.insert(axis as int, 0));
                lemma_stride_sum_insert(base, self.strides@, axis as int, 0, inserted);
                assert(0 * inserted == 0) by {
                    lemma_mul_basics(inserted as int);
                }
            }
            if numel_of(t.shape@) > 0 {
                lemma_numel_pos_dims(t.shape@);
                let m = max_idx(t.shape@);
                assert(m =~= max_idx(self.shape@).insert(axis as int, 0));
                lemma_stride_sum_insert(
                    max_idx(self.shape@),
                    self.strides@,
                    axis as int,
                    0,
                    inserted,
                );
                assert(0 * inserted == 0) by {
                    lemma_mul_basics(inserted as int);
                }
            }
        }
        t
    }

    /// Remove a size-one axis, keeping every element in place.
    pub fn squeeze_view(&self, axis: usize) -> (r: Tensor)
        requires
            self.wf(),
            axis < self.rank(),
            self.shape@[axis as int] == 1,
        ensures
            r.wf(),
            r.data@ == self.data@,
            r.offset == self.offset,
            r.shape@ == self.shape@.remove(axis as int),
            r.strides@ == self.strides@.remove(axis as int),
            forall|idx: Seq<int>|
                in_shape(idx, r.shape@) ==> #[trigger] r.elem(idx) == self.elem(
                    idx.insert(axis as int, 0),
                ),
    {
        let mut shape_v = self.shape.clone();
        let mut strides_v = self.strides.clone();
        proof {
            assert(shape_v@ =~= self.shape@);
            assert(strides_v@ =~= self.strides@);
        }
        let ghost w = self.strides@[axis as int];
        shape_v.remove(axis);
        strides_v.remove(axis);
        let t = Tensor {
            data: self.data.clone(),
            shape: shape_v,
            strides: strides_v,
            offset: self.offset,
        };
        proof {
            assert(t.data@ =~= self.data@);
            assert(self.shape@ =~= t.shape@.insert(axis as int, 1usize));
            assert(self.strides@ =~= t.strides@.insert(axis as int, w));
            lemma_numel_insert(t.shape@, axis as int, 1);
            assert(numel_of(t.shape@) * 1 == numel_of(t.shape@)) by {
                lemma_mul_basics(numel_of(t.shape@) as int);
            }
            assert forall|idx: Seq<int>| in_shape(idx, t.shape@) implies #[trigger] t.elem(idx)
                == self.elem(idx.insert(axis as int, 0)) by {
                lemma_stride_sum_insert(idx, t.strides@, axis as int, 0, w);
                assert(0 * w == 0) by {
                    lemma_mul_basics(w as int);
                }
            }
            if numel_of(t.shape@) > 0 {
                lemma_numel_pos_dims(t.shape@);
                let m = max_idx(t.shape@);
                assert(max_idx(self.shape@) =~= m.insert(axis as int, 0));
                lemma_stride_sum_insert(m, t.strides@, axis as int, 0, w);
                assert(0 * w == 0) by {
                    lemma_mul_basics(w as int);
                }
            }
        }
        t
    }

    /// Insert `nb_dim` leading size-one axes.
    pub fn unsqueeze_first(&self, nb_dim: usize) -> (r: Tensor)
        requires
            self.wf(),
            nb_dim > 0 && self.rank() > 0 ==> self.strides@[0] * self.shape@[0] <= usize::MAX,
            nb_dim + self.rank() <= usize::MAX,
        ensures
            r.wf(),
            r.data@ == self.data@,
            r.offset == self.offset,
            r.shape@.len() == self.rank() + nb_dim,
            forall|i: int| 0 <= i < nb_dim ==> #[trigger] r.shape@[i] == 1,
            r.shape@.skip(nb_dim as int) == self.shape@,
            r.strides@.skip(nb_dim as int) == self.strides@,
            forall|idx: Seq<int>|
                in_shape(idx, r.shape@) ==> #[trigger] r.elem(idx) == self.elem(
                    idx.skip(nb_dim as int),
                ),
    {
        let mut t = self.duplicate();
        let mut j: usize = 0;
        proof {
            assert(t.shape@.skip(0) =~= self.shape@);
            assert(t.strides@.skip(0) =~= self.strides@);
            assert forall|idx: Seq<int>| in_shape(idx, t.shape@) implies #[trigger] t.elem(idx)
                == self.elem(idx.skip(0)) by {
                assert(idx.skip(0) =~= idx);
            }
        }
        while j < nb_dim
            invariant
                0 <= j <= nb_dim,
                t.wf(),
                self.wf(),
                t.data@ == self.data@,
                t.offset == self.offset,
                t.shape@.len() == self.rank() + j,
                forall|i: int| 0 <= i < j ==> #[trigger] t.shape@[i] == 1,
                t.shape@.skip(j as int) == self.shape@,
                t.strides@.skip(j as int) == self.strides@,
                nb_dim > 0 && self.rank() > 0 ==> self.strides@[0] * self.shape@[0] <= usize::MAX,
                nb_dim + self.rank() <= usize::MAX,
                forall|idx: Seq<int>|
                    in_shape(idx, t.shape@) ==> #[trigger] t.elem(idx) == self.elem(
                        idx.skip(j as int),
                    ),
            decreases nb_dim - j,
        {
            proof {
                if t.shape@.len() > 0 {
                    if j == 0 {
                        assert(t.shape@[0] == self.shape@[0] && t.strides@[0] == self.strides@[0]);
                    } else {
                        assert(t.shape@[0] == 1);
                        assert(t.strides@[0] * t.shape@[0] == t.strides@[0]) by {
                            lemma_mul_basics(t.strides@[0] as int);
                        }
                    }
                }
            }
            let t2 = t.unsqueeze_view(0);
            proof {
                assert(t2.shape@.skip(j as int + 1) =~= t.shape@.skip(j as int));
                assert(t2.strides@.remove(0) =~= t2.strides@.skip(1));
                assert(t2.strides@.skip(1) =~= t.strides@);
                assert(t2.strides@.skip(1).skip(j as int) =~= t2.strides@.skip(j as int + 1));
                assert(t2.strides@.skip(j as int + 1) =~= t.strides@.skip(j as int));
                assert forall|idx: Seq<int>| in_shape(idx, t2.shape@) implies #[trigger] t2.elem(
                    idx,
                ) == self.elem(idx.skip(j as int + 1)) by {
                    let base = idx.remove(0);
                    assert(in_shape(base, t.shape@)) by {
                        assert(forall|i: int|
                            0 <= i < base.len() ==> #[trigger] base[i] == idx[i + 1]);
                        assert(forall|i: int|
                            0 <= i < t.shape@.len() ==> #[trigger] t.shape@[i] == t2.shape@[i + 1]);
                    }
                    assert(t2.elem(idx) == t.elem(base));
                    assert(base.skip(j as int) =~= idx.skip(j as int + 1));
                }
            }
            t = t2;
            j = j + 1;
        }
        t
    }

    /// Drop `val` leading size-one axes.
    pub fn squeeze_first(&self, val: usize) -> (r: Tensor)
        requires
            self.wf(),
            val <= self.rank(),
            forall|i: int| 0 <= i < val ==> #[trigger] self.shape@[i] == 1,
        ensures
            r.wf(),
            r.data@ == self.data@,
            r.offset == self.offset,
            r.shape@ == self.shape@.skip(val as int),
            r.strides@ == self.strides@.skip(val as int),
            forall|idx: Seq<int>|
                in_shape(idx, r.shape@) ==> #[trigger] r.elem(idx) == self.elem(
                    Seq::new(val as nat, |i: int| 0int) + idx,
                ),
    {
        let mut t = self.duplicate();
        let mut j: usize = 0;
        proof {
            assert(t.shape@ =~= self.shape@.skip(0));
            assert(t.strides@ =~= self.strides@.skip(0));
        }
        while j < val
            invariant
                0 <= j <= val,
                val <= self.rank(),
                t.wf(),
                self.wf(),
                forall|i: int| 0 <= i < val ==> #[trigger] self.shape@[i] == 1,
                t.data@ == self.data@,
                t.offset == self.offset,
                t.shape@ == self.shape@.skip(j as int),
                t.strides@ == self.strides@.skip(j as int),
                forall|idx: Seq<int>|
                    in_shape(idx, t.shape@) ==> #[trigger] t.elem(idx) == self.elem(
                        Seq::new(j as nat, |i: int| 0int) + idx,
                    ),
            decreases val - j,
        {
            let t2 = t.squeeze_view(0);
            proof {
                assert(t2.shape@ =~= self.shape@.skip(j as int + 1));
                assert(t2.strides@ =~= self.strides@.skip(j as int + 1));
                assert forall|idx: Seq<int>| in_shape(idx, t2.shape@) implies #[trigger] t2.elem(
                    idx,
                ) == self.elem(Seq::new(j as nat + 1, |i: int| 0int) + idx) by {
                    assert(t2.elem(idx) == t.elem(idx.insert(0, 0)));
                    assert(in_shape(idx.insert(0, 0), t.shape@)) by {
                        assert(t.shape@[0] == self.shape@[j as int]);
                        assert(forall|i: int|
                            0 <= i < idx.len() ==> #[trigger] idx.insert(0, 0)[i + 1] == idx[i]);
                    }
                    assert(Seq::new(j as nat, |i: int| 0int) + idx.insert(0, 0) =~= Seq::new(
                        j as nat + 1,
                        |i: int| 0int,
                    ) + idx);
                }
            }
            t = t2;
            j = j + 1;
        }
        proof {
            assert(t.shape@ =~= self.shape@.skip(val as int));
        }
        t
    }

    /// Swap the two trailing axes without copying data; a rank-one tensor is
    /// returned unchanged.
    pub fn mat_transpose(&self) -> (r: Tensor)
        requires
            self.wf(),
            self.rank() >= 1,
        ensures
            r.wf(),
            r.data@ == self.data@,
            r.offset == self.offset,
            self.rank() == 1 ==> r.shape@ == self.shape@ && r.strides@ == self.strides@,
            self.rank() >= 2 ==> {
                let n = self.rank();
                &&& r.shape@ == self.shape@.update(n - 2, self.shape@[n - 1]).update(
                    n - 1,
                    self.shape@[n - 2],
                )
                &&& r.strides@ == self.strides@.update(n - 2, self.strides@[n - 1]).update(
                    n - 1,
                    self.strides@[n - 2],
                )
            },
            forall|idx: Seq<int>|
                in_shape(idx, r.shape@) && self.rank() >= 2 ==> #[trigger] r.elem(idx)
                    == self.elem(
                    idx.update(idx.len() - 2, idx[idx.len() - 1]).update(
                        idx.len() - 1,
                        idx[idx.len() - 2],
                    ),
                ),
            forall|idx: Seq<int>|
                in_shape(idx, r.shape@) && self.rank() == 1 ==> #[trigger] r.elem(idx)
                    == self.elem(idx),
    {
        let n = self.shape.len();
        if n == 1 {
            self.duplicate()
        } else {
            let mut shape_v = self.shape.clone();
            let mut strides_v = self.strides.clone();
            proof {
                assert(shape_v@ =~= self.shape@);
                assert(strides_v@ =~= self.strides@);
            }
            let d1 = shape_v[n - 2];
            let d2 = shape_v[n - 1];
            shape_v[n - 2] = d2;
            shape_v[n - 1] = d1;
            let s1 = strides_v[n - 2];
            let s2 = strides_v[n - 1];
            strides_v[n - 2] = s2;
            strides_v[n - 1] = s1;
            let t = Tensor {
                data: self.data.clone(),
                shape: shape_v,
                strides: strides_v,
                offset: self.offset,
            };
            proof {
                assert(t.data@ =~= self.data@);
                lemma_transpose_props(*self, t);
            }
            t
        }
    }

    /// Read the element at a row-major linear position.
    pub fn get_from_lin(&self, lin: usize) -> (r: Rat)
        requires
            self.wf(),
            lin < numel_of(self.shape@),
        ensures
            r == self.elem(idx_of(lin as int, self.shape@)),
            r.inv(),
    {
        let idxs = idx_from_lin(self.shape.as_slice(), lin);
        proof {
            lemma_idx_of_lin(lin as int, self.shape@);
        }
        self.get(idxs.as_slice())
    }
}

impl Tensor {
    /// The common shape two operand shapes broadcast to, right-aligned and
    /// left-padded with ones, or an error when some axis disagrees.
    pub fn broadcast_shape(a: &[usize], b: &[usize]) -> (r: Result<Vec<usize>, ShapeError>)
        ensures
            match r {
                Ok(v) => bshape_ok(a@, b@) && v@ == bshape_of(a@, b@),
                Err(e) => !bshape_ok(a@, b@) && e == ShapeError::Incompatible,
            },
    {
        let la = a.len();
        let lb = b.len();
        let n = if la < lb {
            lb
        } else {
            la
        };
        let mut res: Vec<usize> = Vec::new();
        let mut i: usize = 0;
        while i < n
            invariant
                0 <= i <= n,
                la == a@.len(),
                lb == b@.len(),
                n as int == blen_of(a@, b@),
                res@.len() == i,
                forall|k: int| 0 <= k < i ==> #[trigger] axis_ok(a@, b@, k),
                forall|k: int| 0 <= k < i ==> #[trigger] res@[k] == bshape_of(a@, b@)[k],
            decreases n - i,
        {
            let pa: usize = if i < n - la {
                1
            } else {
                a[i - (n - la)]
            };
            let pb: usize = if i < n - lb {
                1
            } else {
                b[i - (n - lb)]
            };
            proof {
                assert(pa as int == pad_dim(a@, blen_of(a@, b@), i as int));
                assert(pb as int == pad_dim(b@, blen_of(a@, b@), i as int));
            }
            if pa == 1 || pb == 1 || pa == pb {
                proof {
                    assert(axis_ok(a@, b@, i as int));
                }
                if pa < pb {
                    res.push(pb);
                } else {
                    res.push(pa);
                }
            } else {
                proof {
                    assert(!axis_ok(a@, b@, i as int));
                    if bshape_ok(a@, b@) {
                        assert(axis_ok(a@, b@, i as int));
                    }
                }
                return Err(ShapeError::Incompatible);
            }
            i = i + 1;
        }
        proof {
            assert(res@ =~= bshape_of(a@, b@));
        }
        Ok(res)
    }

    /// Present this view under the target shape `a`: the rank is padded on the
    /// left with size-one axes, and every size-one axis facing a larger target
    /// dimension is stretched by giving it stride zero.
    pub fn broadcast_view(&self, a: &[usize]) -> (r: Result<Tensor, ShapeError>)
        requires
            self.wf(),
        ensures
            match r {
                Ok(t) => {
                    &&& self.rank() <= a@.len()
                    &&& can_broadcast_to(self.shape@, a@)
                    &&& t.wf()
                    &&& t.data@ == self.data@
                    &&& t.offset == self.offset
                    &&& t.shape@ == bview_shape(self.shape@, a@)
                    &&& forall|j: int|
                        0 <= j < self.rank() && self.shape@[j] != 1
                            ==> #[trigger] t.strides@[j + a@.len() - self.rank()]
                            == self.strides@[j]
                    &&& forall|i: int|
                        0 <= i < a@.len() && pad_dim(self.shape@, a@.len() as int, i) == 1
                            && #[trigger] a@[i] > 1 ==> t.strides@[i] == 0
                    &&& forall|idx: Seq<int>|
                        in_shape(idx, t.shape@) ==> #[trigger] t.elem(idx) == self.elem(
                            bsrc_idx(idx, self.shape@),
                        ) && in_shape(bsrc_idx(idx, self.shape@), self.shape@)
                },
                Err(e) => {
                    ||| (e == ShapeError::RankTooSmall && a@.len() < self.rank())
                    ||| (e == ShapeError::NotBroadcastable && a@.len() >= self.rank()
                        && !can_broadcast_to(self.shape@, a@))
                },
            },
    {
        let n = a.len();
        let rk = self.shape.len();
        if n < rk {
            return Err(ShapeError::RankTooSmall);
        }
        let pad = n - rk;
        let w: usize = if rk == 0 {
            1
        } else {
            match self.strides[0].checked_mul(self.shape[0]) {
                Some(p) => p,
                None => 0,
            }
        };
        let mut shp: Vec<usize> = Vec::new();
        let mut stv: Vec<usize> = Vec::new();
        let mut i: usize = 0;
        while i < n
            invariant
                0 <= i <= n,
                n == a@.len(),
                rk == self.rank(),
                pad == n - rk,
                self.wf(),
                shp@.len() == i,
                stv@.len() == i,
                forall|k: int| 0 <= k < i ==> #[trigger] shp@[k] == bview_shape(self.shape@, a@)[k],
                forall|k: int|
                    0 <= k < i && pad <= k && self.shape@[k - pad] != 1 ==> #[trigger] stv@[k]
                        == self.strides@[k - pad],
                forall|k: int|
                    0 <= k < i && pad_dim(self.shape@, n as int, k) == 1 && a@[k] > 1
                        ==> #[trigger] stv@[k] == 0,
                forall|j: int| 0 <= j < i - pad ==> #[trigger] self.shape@[j] == 1 || self.shape@[j]
                    == a@[j + pad],
            decreases n - i,
        {
            if i < pad {
                if a[i] > 1 {
                    shp.push(a[i]);
                    stv.push(0);
                } else {
                    shp.push(1);
                    stv.push(w);
                }
            } else {
                let j = i - pad;
                let sj = self.shape[j];
                if sj == 1 {
                    if a[i] > 1 {
                        shp.push(a[i]);
                        stv.push(0);
                    } else {
                        shp.push(1);
                        stv.push(self.strides[j]);
                    }
                } else if sj == a[i] {
                    shp.push(sj);
                    stv.push(self.strides[j]);
                } else {
                    return Err(ShapeError::NotBroadcastable);
                }
            }
            proof {
                assert(pad_dim(self.shape@, n as int, i as int) == if i < pad {
                    1int
                } else {
                    self.shape@[i - pad] as int
                });
                assert(shp@[i as int] == bview_shape(self.shape@, a@)[i as int]);
            }
            i = i + 1;
        }
        let t = Tensor { data: self.data.clone(), shape: shp, strides: stv, offset: self.offset };
        proof {
            assert(t.data@ =~= self.data@);
            assert(t.shape@ =~= bview_shape(self.shape@, a@));
            lemma_bview_props(*self, t, a@);
        }
        Ok(t)
    }
}

/// A broadcast view built with stretched axes at stride zero is well-formed
/// and presents the source elements under the projected index.
proof fn lemma_bview_props(src: Tensor, t: Tensor, a: Seq<usize>)
    requires
        src.wf(),
        src.rank() <= a.len(),
        can_broadcast_to(src.shape@, a),
        t.data@ == src.data@,
        t.offset == src.offset,
        t.shape@ == bview_shape(src.shape@, a),
        t.strides@.len() == a.len(),
        forall|j: int|
            0 <= j < src.rank() && src.shape@[j] != 1 ==> #[trigger] t.strides@[j + a.len()
                - src.rank()] == src.strides@[j],
        forall|i: int|
            0 <= i < a.len() && pad_dim(src.shape@, a.len() as int, i) == 1 && #[trigger] a[i] > 1
                ==> t.strides@[i] == 0,
    ensures
        t.wf(),
        forall|idx: Seq<int>|
            in_shape(idx, t.shape@) ==> #[trigger] t.elem(idx) == src.elem(
                bsrc_idx(idx, src.shape@),
            ) && in_shape(bsrc_idx(idx, src.shape@), src.shape@),
{
    let n = a.len() as int;
    let rk = src.rank();
    let pad = n - rk;
    assert forall|idx: Seq<int>| in_shape(idx, t.shape@) implies #[trigger] t.elem(idx)
        == src.elem(bsrc_idx(idx, src.shape@)) && in_shape(bsrc_idx(idx, src.shape@), src.shape@)
        by {
        lemma_bview_displacement(src, t, a, idx);
    }
    if numel_of(t.shape@) > 0 {
        lemma_numel_pos_dims(t.shape@);
        let m = max_idx(t.shape@);
        assert(in_shape(m, t.shape@));
        lemma_bview_displacement(src, t, a, m);
        lemma_elem_in_bounds(src, bsrc_idx(m, src.shape@));
        assert(span_of(t.shape@, t.strides@) == stride_sum(m, t.strides@));
    }
}

/// The displacement of a broadcast-view index equals the displacement of the
/// projected source index.
proof fn lemma_bview_displacement(src: Tensor, t: Tensor, a: Seq<usize>, idx: Seq<int>)
    requires
        src.wf(),
        src.rank() <= a.len(),
        can_broadcast_to(src.shape@, a),
        t.offset == src.offset,
        t.shape@ == bview_shape(src.shape@, a),
        t.strides@.len() == a.len(),
        forall|j: int|
            0 <= j < src.rank() && src.shape@[j] != 1 ==> #[trigger] t.strides@[j + a.len()
                - src.rank()] == src.strides@[j],
        forall|i: int|
            0 <= i < a.len() && pad_dim(src.shape@, a.len() as int, i) == 1 && #[trigger] a[i] > 1
                ==> t.strides@[i] == 0,
        in_shape(idx, t.shape@),
    ensures
        stride_sum(idx, t.strides@) == stride_sum(bsrc_idx(idx, src.shape@), src.strides@),
        in_shape(bsrc_idx(idx, src.shape@), src.shape@),
    decreases 0int,
{
    let n = a.len() as int;
    let rk = src.rank();
    let pad = n - rk;
    let si = bsrc_idx(idx, src.shape@);
    assert forall|i: int| 0 <= i < pad implies #[trigger] (idx[i] * t.strides@[i]) == 0 by {
        assert(pad_dim(src.shape@, n, i) == 1);
        if a[i] > 1 {
            assert(t.strides@[i] == 0);
            lemma_mul_basics(idx[i]);
        } else {
            assert(t.shape@[i] == 1);
            assert(idx[i] == 0);
            lemma_mul_basics(t.strides@[i] as int);
        }
    }
    lemma_stride_sum_skip_zero(idx, t.strides@, pad);
    assert forall|j: int|
        0 <= j < rk implies #[trigger] (idx.skip(pad)[j] * t.strides@.skip(pad)[j]) == si[j]
        * src.strides@[j] by {
        assert(idx.skip(pad)[j] == idx[j + pad]);
        assert(t.strides@.skip(pad)[j] == t.strides@[j + pad]);
        assert(pad_dim(src.shape@, n, j + pad) == src.shape@[j] as int);
        if src.shape@[j] == 1 {
            assert(si[j] == 0);
            if a[j + pad] > 1 {
                assert(t.strides@[j + pad] == 0);
                lemma_mul_basics(idx[j + pad]);
            } else {
                assert(t.shape@[j + pad] == 1);
                assert(idx[j + pad] == 0);
                lemma_mul_basics(t.strides@[j + pad] as int);
            }
            lemma_mul_basics(src.strides@[j] as int);
        } else {
            assert(si[j] == idx[j + pad]);
            assert(t.strides@[j + pad] == src.strides@[j]);
        }
    }
    lemma_stride_sum_pointwise(idx.skip(pad), t.strides@.skip(pad), si, src.strides@);
    assert forall|j: int| 0 <= j < rk implies 0 <= #[trigger] si[j] < src.shape@[j] by {
        if src.shape@[j] == 1 {
        } else {
            assert(pad_dim(src.shape@, n, j + pad) == src.shape@[j] as int);
            assert(t.shape@[j + pad] == src.shape@[j]);
            assert(0 <= idx[j + pad] < t.shape@[j + pad]);
        }
    }
}

/// A projected source index of a valid target index is valid for the source.
pub proof fn lemma_bsrc_in_shape(src: Seq<usize>, tgt: Seq<usize>, idx: Seq<int>)
    requires
        can_broadcast_to(src, tgt),
        in_shape(idx, tgt),
    ensures
        in_shape(bsrc_idx(idx, src), src),
{
    let pad = tgt.len() - src.len();
    assert forall|j: int| 0 <= j < src.len() implies 0 <= #[trigger] bsrc_idx(idx, src)[j]
        < src[j] by {
        if src[j] == 1 {
        } else {
            assert(src[j] == tgt[j + pad]);
            assert(0 <= idx[j + pad] < tgt[j + pad]);
        }
    }
}

/// When every dimension is positive, reconcilable shapes really broadcast to
/// their common shape, and the view of each operand presents exactly it.
pub proof fn lemma_bshape_feasible(a: Seq<usize>, b: Seq<usize>)
    requires
        bshape_ok(a, b),
        forall|i: int| 0 <= i < a.len() ==> #[trigger] a[i] > 0,
        forall|i: int| 0 <= i < b.len() ==> #[trigger] b[i] > 0,
    ensures
        can_broadcast_to(a, bshape_of(a, b)),
        can_broadcast_to(b, bshape_of(a, b)),
        forall|i: int| 0 <= i < blen_of(a, b) ==> #[trigger] bshape_of(a, b)[i] > 0,
    decreases 0int,
{
    let n = blen_of(a, b);
    let out = bshape_of(a, b);
    assert forall|j: int| 0 <= j < a.len() implies #[trigger] a[j] == 1 || a[j] == out[j + out.len()
        - a.len()] by {
        let i = j + n - a.len();
        assert(axis_ok(a, b, i));
        assert(pad_dim(a, n, i) == a[j] as int);
        if a[j] != 1 {
            assert(pad_dim(b, n, i) == 1 || pad_dim(b, n, i) == a[j] as int);
        }
    }
    assert forall|j: int| 0 <= j < b.len() implies #[trigger] b[j] == 1 || b[j] == out[j + out.len()
        - b.len()] by {
        let i = j + n - b.len();
        assert(axis_ok(a, b, i));
        assert(pad_dim(b, n, i) == b[j] as int);
        if b[j] != 1 {
            assert(pad_dim(a, n, i) == 1 || pad_dim(a, n, i) == b[j] as int);
        }
    }
    assert forall|i: int| 0 <= i < n implies #[trigger] out[i] > 0 by {
        assert(pad_dim(a, n, i) > 0);
        assert(pad_dim(b, n, i) > 0);
    }
}

/// A shape broadcasts against itself to itself.
pub proof fn lemma_bshape_self(s: Seq<usize>)
    ensures
        bshape_ok(s, s),
        bshape_of(s, s) == s,
        can_broadcast_to(s, s),
{
    assert forall|i: int| 0 <= i < blen_of(s, s) implies #[trigger] axis_ok(s, s, i) by {
        assert(pad_dim(s, blen_of(s, s), i) == pad_dim(s, blen_of(s, s), i));
    }
    assert(bshape_of(s, s) =~= s);
}

/// The common broadcast shape of two positive-dimension shapes is positive,
/// each operand reduces back from it, and the reduction's collapse grid is no
/// larger than the broadcast shape.
pub proof fn lemma_grad_reduce_ok(a: Seq<usize>, b: Seq<usize>)
    requires
        bshape_ok(a, b),
        forall|i: int| 0 <= i < a.len() ==> #[trigger] a[i] > 0,
        forall|i: int| 0 <= i < b.len() ==> #[trigger] b[i] > 0,
    ensures
        reducible_to(bshape_of(a, b), a),
        reducible_to(bshape_of(a, b), b),
        numel_of(reduce_cshape(bshape_of(a, b), a)) <= numel_of(bshape_of(a, b)),
        numel_of(reduce_cshape(bshape_of(a, b), b)) <= numel_of(bshape_of(a, b)),
        numel_of(a) <= numel_of(bshape_of(a, b)),
        numel_of(b) <= numel_of(bshape_of(a, b)),
{
    lemma_bshape_feasible(a, b);
    let out = bshape_of(a, b);
    let n = out.len() as int;
    assert forall|i: int| 0 <= i < n implies #[trigger] pad_dim(a, n, i) == 1 || pad_dim(a, n, i)
        == out[i] as int by {
        assert(axis_ok(a, b, i));
        if pad_dim(a, n, i) != 1 {
            assert(pad_dim(a, n, i) > 0);
            assert(pad_dim(b, n, i) > 0);
        }
    }
    assert forall|i: int| 0 <= i < n implies #[trigger] pad_dim(b, n, i) == 1 || pad_dim(b, n, i)
        == out[i] as int by {
        assert(axis_ok(a, b, i));
        if pad_dim(b, n, i) != 1 {
            assert(pad_dim(a, n, i) > 0);
            assert(pad_dim(b, n, i) > 0);
        }
    }
    assert forall|i: int| 0 <= i < n implies #[trigger] reduce_cshape(out, a)[i] <= out[i] by {
        assert(out[i] > 0);
    }
    assert forall|i: int| 0 <= i < n implies #[trigger] reduce_cshape(out, b)[i] <= out[i] by {
        assert(out[i] > 0);
    }
    crate::shape::lemma_numel_pointwise_le(reduce_cshape(out, a), out);
    crate::shape::lemma_numel_pointwise_le(reduce_cshape(out, b), out);
    // each operand, left-padded with ones, is pointwise at most the output
    let pa = Seq::new(n as nat, |i: int| pad_dim(a, n, i) as usize);
    let pb = Seq::new(n as nat, |i: int| pad_dim(b, n, i) as usize);
    assert(forall|i: int| 0 <= i < n ==> #[trigger] pa[i] <= out[i]);
    assert(forall|i: int| 0 <= i < n ==> #[trigger] pb[i] <= out[i]);
    crate::shape::lemma_numel_pointwise_le(pa, out);
    crate::shape::lemma_numel_pointwise_le(pb, out);
    lemma_pad_numel(a, n);
    lemma_pad_numel(b, n);
    assert(pa =~= Seq::new(n as nat, |i: int| pad_dim(a, n, i) as usize));
}

/// Left-padding a shape with ones keeps its element count.
proof fn lemma_pad_numel(s: Seq<usize>, n: int)
    requires
        s.len() <= n,
    ensures
        numel_of(Seq::new(n as nat, |i: int| pad_dim(s, n, i) as usize)) == numel_of(s),
    decreases n,
{
    let padded = Seq::new(n as nat, |i: int| pad_dim(s, n, i) as usize);
    if n == s.len() {
        assert(padded =~= s);
    } else {
        let inner = Seq::new((n - 1) as nat, |i: int| pad_dim(s, n - 1, i) as usize);
        lemma_pad_numel(s, n - 1);
        assert(padded[0] == 1);
        assert(padded.skip(1) =~= inner);
        assert(numel_of(padded) == 1 * numel_of(inner));
        assert(1 * numel_of(inner) == numel_of(inner)) by {
            lemma_mul_basics(numel_of(inner) as int);
        }
    }
}

/// Projecting a valid index of a shape onto that same shape changes nothing.
pub proof fn lemma_bsrc_self(idx: Seq<int>, shape: Seq<usize>)
    requires
        in_shape(idx, shape),
    ensures
        bsrc_idx(idx, shape) == idx,
{
    assert(bsrc_idx(idx, shape) =~= idx);
}

/// Broadcast reconciliation is symmetric.
pub proof fn lemma_bshape_comm(a: Seq<usize>, b: Seq<usize>)
    ensures
        bshape_ok(a, b) == bshape_ok(b, a),
        bshape_of(a, b) == bshape_of(b, a),
{
    assert(blen_of(a, b) == blen_of(b, a));
    assert forall|i: int| 0 <= i < blen_of(a, b) implies (#[trigger] axis_ok(a, b, i)) == axis_ok(
        b,
        a,
        i,
    ) by {
        assert(pad_dim(a, blen_of(a, b), i) == pad_dim(a, blen_of(b, a), i));
    }
    if bshape_ok(a, b) {
        assert forall|i: int| 0 <= i < blen_of(b, a) implies #[trigger] axis_ok(b, a, i) by {
            assert(axis_ok(a, b, i));
        }
    }
    if bshape_ok(b, a) {
        assert forall|i: int| 0 <= i < blen_of(a, b) implies #[trigger] axis_ok(a, b, i) by {
            assert(axis_ok(b, a, i));
        }
    }
    assert(bshape_of(a, b) =~= bshape_of(b, a));
}

/// Broadcasting is absorptive: the common shape of a broadcast result and
/// one of its operands is the result itself.
pub proof fn lemma_bshape_absorb(a: Seq<usize>, b: Seq<usize>)
    requires
        bshape_ok(a, b),
    ensures
        bshape_ok(bshape_of(a, b), b),
        bshape_of(bshape_of(a, b), b) == bshape_of(a, b),
        bshape_ok(bshape_of(a, b), a),
        bshape_of(bshape_of(a, b), a) == bshape_of(a, b),
{
    let out = bshape_of(a, b);
    let n = out.len() as int;
    assert forall|i: int| 0 <= i < blen_of(out, b) implies #[trigger] axis_ok(out, b, i) by {
        assert(axis_ok(a, b, i));
        assert(pad_dim(out, n, i) == out[i] as int);
    }
    assert forall|i: int| 0 <= i < blen_of(out, a) implies #[trigger] axis_ok(out, a, i) by {
        assert(axis_ok(a, b, i));
        assert(pad_dim(out, n, i) == out[i] as int);
    }
    assert forall|i: int| 0 <= i < n implies #[trigger] bshape_of(out, b)[i] == out[i] by {
        assert(axis_ok(a, b, i));
        assert(pad_dim(out, n, i) == out[i] as int);
    }
    assert(bshape_of(out, b) =~= out);
    assert forall|i: int| 0 <= i < n implies #[trigger] bshape_of(out, a)[i] == out[i] by {
        assert(axis_ok(a, b, i));
        assert(pad_dim(out, n, i) == out[i] as int);
    }
    assert(bshape_of(out, a) =~= out);
}

/// Project a target-shape index back to the source it reads under
/// broadcasting: drop the left padding and clamp one-sized axes to zero.
pub fn project_idx(oidx: &[usize], src_shape: &[usize]) -> (r: Vec<usize>)
    requires
        src_shape@.len() <= oidx@.len(),
    ensures
        seq_int(r@) == bsrc_idx(seq_int(oidx@), src_shape@),
        r@.len() == src_shape@.len(),
{
    let on = oidx.len();
    let pad = on - src_shape.len();
    let rk = src_shape.len();
    let mut out: Vec<usize> = Vec::new();
    let mut j: usize = 0;
    while j < rk
        invariant
            0 <= j <= rk,
            rk == src_shape@.len(),
            on == oidx@.len(),
            pad == on - rk,
            out@.len() == j,
            forall|t: int|
                0 <= t < j ==> #[trigger] out@[t] as int == bsrc_idx(seq_int(oidx@), src_shape@)[t],
        decreases rk - j,
    {
        if src_shape[j] == 1 {
            out.push(0);
        } else {
            out.push(oidx[j + pad]);
        }
        j = j + 1;
    }
    proof {
        assert(seq_int(out@) =~= bsrc_idx(seq_int(oidx@), src_shape@));
    }
    out
}

/// The collapse grid of a gradient reduction: the source dimension wherever
/// the left-padded origin shape has a one, and one elsewhere.
pub open spec fn reduce_cshape(shape: Seq<usize>, origin: Seq<usize>) -> Seq<usize> {
    Seq::new(
        shape.len(),
        |i: int|
            if pad_dim(origin, shape.len() as int, i) == 1 {
                shape[i]
            } else {
                1
            },
    )
}

/// A gradient of `shape` can be reduced to `origin`: once right-aligned,
/// every origin axis is one or agrees with the gradient's axis.
pub open spec fn reducible_to(shape: Seq<usize>, origin: Seq<usize>) -> bool {
    &&& origin.len() <= shape.len()
    &&& forall|i: int|
        0 <= i < shape.len() ==> #[trigger] pad_dim(origin, shape.len() as int, i) == 1 || pad_dim(
            origin,
            shape.len() as int,
            i,
        ) == shape[i] as int
}

/// The source index read for output index `oidx` and collapse index `cidx`.
pub open spec fn weave_idx(
    oidx: Seq<int>,
    cidx: Seq<int>,
    shape: Seq<usize>,
    origin: Seq<usize>,
) -> Seq<int> {
    Seq::new(
        shape.len(),
        |i: int|
            if pad_dim(origin, shape.len() as int, i) == 1 {
                cidx[i]
            } else {
                oidx[i - (shape.len() - origin.len())]
            },
    )
}

/// Sum of the first `k` collapse positions feeding one output element, taken
/// in row-major order of the collapse grid.
pub open spec fn collapse_sum(t: Tensor, origin: Seq<usize>, oidx: Seq<int>, k: int) -> Rat
    decreases k,
{
    if k <= 0 {
        rat_zero()
    } else {
        rat_add(
            collapse_sum(t, origin, oidx, k - 1),
            t.elem(
                weave_idx(
                    oidx,
                    idx_of(k - 1, reduce_cshape(t.shape@, origin)),
                    t.shape@,
                    origin,
                ),
            ),
        )
    }
}

/// The collapse grid of a reduction is no larger than the reduced tensor.
pub proof fn lemma_reduce_caps(shape: Seq<usize>, origin: Seq<usize>)
    requires
        reducible_to(shape, origin),
        forall|i: int| 0 <= i < shape.len() ==> #[trigger] shape[i] > 0,
    ensures
        numel_of(reduce_cshape(shape, origin)) <= numel_of(shape),
        numel_of(origin) <= numel_of(shape),
    decreases 0int,
{
    assert(forall|i: int|
        0 <= i < shape.len() ==> #[trigger] reduce_cshape(shape, origin)[i] <= shape[i]);
    crate::shape::lemma_numel_pointwise_le(reduce_cshape(shape, origin), shape);
    let n = shape.len() as int;
    let po = Seq::new(n as nat, |i: int| pad_dim(origin, n, i) as usize);
    assert(forall|i: int| 0 <= i < n ==> #[trigger] po[i] <= shape[i]);
    crate::shape::lemma_numel_pointwise_le(po, shape);
    lemma_pad_numel(origin, n);
    assert(po =~= Seq::new(n as nat, |i: int| pad_dim(origin, n, i) as usize));
}

/// Reducing a shape to itself collapses nothing: the grid has one cell and
/// the single woven index is the output index itself.
pub proof fn lemma_weave_identity(s: Seq<usize>, oidx: Seq<int>)
    requires
        in_shape(oidx, s),
    ensures
        numel_of(reduce_cshape(s, s)) == 1,
        weave_idx(oidx, idx_of(0, reduce_cshape(s, s)), s, s) == oidx,
{
    let n = s.len() as int;
    let cs = reduce_cshape(s, s);
    assert forall|i: int| 0 <= i < n implies #[trigger] cs[i] == 1 by {
        assert(pad_dim(s, n, i) == s[i] as int);
    }
    lemma_numel_ones(cs);
    let cidx = idx_of(0, cs);
    crate::shape::lemma_idx_of_lin(0, cs);
    let w = weave_idx(oidx, cidx, s, s);
    assert forall|i: int| 0 <= i < n implies #[trigger] w[i] == oidx[i] by {
        assert(pad_dim(s, n, i) == s[i] as int);
        if s[i] == 1 {
            assert(0 <= cidx[i] < cs[i]);
            assert(0 <= oidx[i] < s[i]);
        }
    }
    assert(w =~= oidx);
}

/// Reducing a tensor to its own shape collapses nothing: the grid has one
/// cell and the sum is the element itself.
pub proof fn lemma_reduce_identity(t: Tensor, oidx: Seq<int>)
    requires
        t.wf(),
        in_shape(oidx, t.shape@),
    ensures
        numel_of(reduce_cshape(t.shape@, t.shape@)) == 1,
        collapse_sum(t, t.shape@, oidx, 1) == t.elem(oidx),
{
    let s = t.shape@;
    lemma_weave_identity(s, oidx);
    let cs = reduce_cshape(s, s);
    let w = weave_idx(oidx, idx_of(0, cs), s, s);
    lemma_numel_in_shape_pos(oidx, s);
    lemma_elem_in_bounds(t, oidx);
    crate::rat::lemma_add_zero(t.elem(oidx));
    assert(collapse_sum(t, t.shape@, oidx, 0) == rat_zero());
    assert(collapse_sum(t, t.shape@, oidx, 1) == rat_add(rat_zero(), t.elem(w)));
}

/// A shape of all ones has exactly one element.
proof fn lemma_numel_ones(s: Seq<usize>)
    requires
        forall|i: int| 0 <= i < s.len() ==> #[trigger] s[i] == 1,
    ensures
        numel_of(s) == 1,
    decreases s.len(),
{
    if s.len() > 0 {
        assert(forall|i: int| 0 <= i < s.skip(1).len() ==> #[trigger] s.skip(1)[i] == s[i + 1]);
        lemma_numel_ones(s.skip(1));
    }
}

/// The woven source index of valid output and collapse indices is valid.
pub proof fn lemma_weave_in_shape(
    oidx: Seq<int>,
    cidx: Seq<int>,
    shape: Seq<usize>,
    origin: Seq<usize>,
)
    requires
        reducible_to(shape, origin),
        in_shape(oidx, origin),
        in_shape(cidx, reduce_cshape(shape, origin)),
    ensures
        in_shape(weave_idx(oidx, cidx, shape, origin), shape),
{
    let w = weave_idx(oidx, cidx, shape, origin);
    let n = shape.len() as int;
    let pad = n - origin.len();
    assert forall|i: int| 0 <= i < n implies 0 <= #[trigger] w[i] < shape[i] by {
        if pad_dim(origin, n, i) == 1 {
            assert(reduce_cshape(shape, origin)[i] == shape[i]);
            assert(0 <= cidx[i] < shape[i]);
        } else {
            assert(pad <= i);
            assert(pad_dim(origin, n, i) == origin[i - pad] as int);
            assert(0 <= oidx[i - pad] < origin[i - pad]);
            assert(pad_dim(origin, n, i) == shape[i] as int);
        }
    }
}

impl Tensor {
    /// The gradient-side inverse of broadcasting: sum this tensor over every
    /// axis on which the (left-padded) origin shape has size one, producing a
    /// dense tensor of exactly the origin shape.
    pub fn sum_over_broadcasted_batches(&self, origin_shape: &[usize]) -> (r: Tensor)
        requires
            self.wf(),
            reducible_to(self.shape@, origin_shape@),
            numel_of(origin_shape@) <= usize::MAX,
            numel_of(reduce_cshape(self.shape@, origin_shape@)) <= usize::MAX,
        ensures
            r.wf(),
            r.dense(),
            r.shape@ == origin_shape@,
            forall|oidx: Seq<int>|
                in_shape(oidx, origin_shape@) ==> #[trigger] r.elem(oidx) == collapse_sum(
                    *self,
                    origin_shape@,
                    oidx,
                    numel_of(reduce_cshape(self.shape@, origin_shape@)) as int,
                ),
    {
        let rk = self.shape.len();
        let olen = origin_shape.len();
        let pad = rk - olen;
        // materialise the collapse grid
        let mut cshape: Vec<usize> = Vec::new();
        let mut i: usize = 0;
        while i < rk
            invariant
                0 <= i <= rk,
                rk == self.rank(),
                olen == origin_shape@.len(),
                pad == rk - olen,
                olen <= rk,
                cshape@.len() == i,
                forall|j: int|
                    0 <= j < i ==> #[trigger] cshape@[j] == reduce_cshape(
                        self.shape@,
                        origin_shape@,
                    )[j],
            decreases rk - i,
        {
            let collapsed = if i < pad {
                true
            } else {
                origin_shape[i - pad] == 1
            };
            if collapsed {
                cshape.push(self.shape[i]);
            } else {
                cshape.push(1);
            }
            proof {
                assert(pad_dim(origin_shape@, rk as int, i as int) == if i < pad {
                    1int
                } else {
                    origin_shape@[i - pad] as int
                });
            }
            i = i + 1;
        }
        proof {
            assert(cshape@ =~= reduce_cshape(self.shape@, origin_shape@));
        }
        let n_out = match numel_checked(origin_shape) {
            Some(n) => n,
            None => {
                proof {
                    assert(false);
                }
                0
            },
        };
        let k_col = match numel_checked(cshape.as_slice()) {
            Some(n) => n,
            None => {
                proof {
                    assert(false);
                }
                0
            },
        };
        let ghost cs = reduce_cshape(self.shape@, origin_shape@);
        let mut data: Vec<Rat> = Vec::new();
        let mut ol: usize = 0;
        while ol < n_out
            invariant
                0 <= ol <= n_out,
                rk == self.rank(),
                olen == origin_shape@.len(),
                pad == rk - olen,
                olen <= rk,
                self.wf(),
                reducible_to(self.shape@, origin_shape@),
                cs == reduce_cshape(self.shape@, origin_shape@),
                cshape@ == cs,
                n_out as nat == numel_of(origin_shape@),
                k_col as nat == numel_of(cs),
                data@.len() == ol,
                forall|l: int|
                    0 <= l < ol ==> #[trigger] data@[l] == collapse_sum(
                        *self,
                        origin_shape@,
                        idx_of(l, origin_shape@),
                        k_col as int,
                    ) && data@[l].inv(),
            decreases n_out - ol,
        {
            let oidx = idx_from_lin(origin_shape, ol);
            proof {
                lemma_idx_of_lin(ol as int, origin_shape@);
            }
            let mut acc = Rat::zero();
            let mut c: usize = 0;
            while c < k_col
                invariant
                    0 <= c <= k_col,
                    rk == self.rank(),
                    olen == origin_shape@.len(),
                    pad == rk - olen,
                    olen <= rk,
                    self.wf(),
                    reducible_to(self.shape@, origin_shape@),
                    cs == reduce_cshape(self.shape@, origin_shape@),
                    cshape@ == cs,
                    k_col as nat == numel_of(cs),
                    ol < n_out,
                    n_out as nat == numel_of(origin_shape@),
                    seq_int(oidx@) == idx_of(ol as int, origin_shape@),
                    oidx@.len() == olen,
                    in_shape(seq_int(oidx@), origin_shape@),
                    acc.inv(),
                    acc == collapse_sum(
                        *self,
                        origin_shape@,
                        idx_of(ol as int, origin_shape@),
                        c as int,
                    ),
                decreases k_col - c,
            {
                let cidx = idx_from_lin(cshape.as_slice(), c);
                proof {
                    lemma_idx_of_lin(c as int, cs);
                }
                let mut full: Vec<usize> = Vec::new();
                let mut j: usize = 0;
                while j < rk
                    invariant
                        0 <= j <= rk,
                        rk == self.rank(),
                        olen == origin_shape@.len(),
                        pad == rk - olen,
                        olen <= rk,
                        cidx@.len() == rk,
                        oidx@.len() == olen,
                        in_shape(seq_int(cidx@), cs),
                        in_shape(seq_int(oidx@), origin_shape@),
                        cs == reduce_cshape(self.shape@, origin_shape@),
                        full@.len() == j,
                        forall|t: int|
                            0 <= t < j ==> #[trigger] full@[t] as int == weave_idx(
                                seq_int(oidx@),
                                seq_int(cidx@),
                                self.shape@,
                                origin_shape@,
                            )[t],
                    decreases rk - j,
                {
                    let collapsed = if j < pad {
                        true
                    } else {
                        origin_shape[j - pad] == 1
                    };
                    if collapsed {
                        full.push(cidx[j]);
                    } else {
                        full.push(oidx[j - pad]);
                    }
                    proof {
                        assert(pad_dim(origin_shape@, rk as int, j as int) == if j < pad {
                            1int
                        } else {
                            origin_shape@[j - pad] as int
                        });
                    }
                    j = j + 1;
                }
                let ghost w = weave_idx(
                    seq_int(oidx@),
                    seq_int(cidx@),
                    self.shape@,
                    origin_shape@,
                );
                proof {
                    assert(seq_int(full@) =~= w);
                    lemma_weave_in_shape(seq_int(oidx@), seq_int(cidx@), self.shape@, origin_shape@);
                }
                let x = self.get(full.as_slice());
                acc = acc.add(x);
                c = c + 1;
            }
            data.push(acc);
            ol = ol + 1;
        }
        match Tensor::from_owned(data, origin_shape) {
            Ok(t) => {
                proof {
                    assert forall|oidx: Seq<int>| in_shape(oidx, origin_shape@) implies
                        #[trigger] t.elem(oidx) == collapse_sum(
                        *self,
                        origin_shape@,
                        oidx,
                        k_col as int,
                    ) by {
                        lemma_lin_of_bounds(oidx, origin_shape@);
                        crate::shape::lemma_idx_of_lin_of(oidx, origin_shape@);
                    }
                }
                t
            },
            Err(_) => {
                proof {
                    assert(false);
                }
                Tensor { data: Vec::new(), shape: Vec::new(), strides: Vec::new(), offset: 0 }
            },
        }
    }
}

impl Tensor {
    /// A row-major view of `data` under `shape`, starting at `offset`.
    pub fn new(data: Vec<Rat>, shape: &[usize], offset: usize) -> (r: Tensor)
        requires
            forall|i: int| 0 <= i < data@.len() ==> (#[trigger] data@[i]).inv(),
            numel_of(shape@) <= usize::MAX,
            numel_of(shape@) > 0 ==> offset + numel_of(shape@) <= data@.len(),
        ensures
            r.wf(),
            r.shape@ == shape@,
            r.data@ == data@,
            r.offset == offset,
            numel_of(shape@) > 0 ==> is_rm_strides(shape@, r.strides@),
            forall|idx: Seq<int>|
                in_shape(idx, shape@) ==> #[trigger] r.elem(idx) == data@[offset + lin_of(
                    idx,
                    shape@,
                )],
    {
        let strides = dense_strides(shape, Ghost(numel_of(shape@)));
        let mut shape_v: Vec<usize> = Vec::new();
        let mut i: usize = 0;
        let len = shape.len();
        while i < len
            invariant
                0 <= i <= len,
                len == shape@.len(),
                shape_v@ =~= shape@.take(i as int),
            decreases len - i,
        {
            shape_v.push(shape[i]);
            proof {
                assert(shape_v@ =~= shape@.take(i as int + 1));
            }
            i = i + 1;
        }
        proof {
            assert(shape_v@ =~= shape@);
        }
        let t = Tensor { data, shape: shape_v, strides, offset };
        proof {
            if numel_of(shape@) > 0 {
                lemma_numel_pos_dims(shape@);
                let m = max_idx(shape@);
                assert(in_shape(m, shape@));
                lemma_stride_sum_rm(m, shape@, t.strides@);
                lemma_lin_of_bounds(m, shape@);
            }
            assert forall|idx: Seq<int>| in_shape(idx, shape@) implies #[trigger] t.elem(idx)
                == t.data@[offset + lin_of(idx, shape@)] by {
                lemma_numel_in_shape_pos(idx, shape@);
                lemma_stride_sum_rm(idx, shape@, t.strides@);
            }
        }
        t
    }

    /// Read the element of a rank-two view at row `i`, column `j`.
    pub fn get2(&self, i: usize, j: usize) -> (r: Rat)
        requires
            self.wf(),
            self.rank() == 2,
            i < self.shape@[0],
            j < self.shape@[1],
        ensures
            r == self.elem(seq![i as int, j as int]),
            r.inv(),
    {
        let id: [usize; 2] = [i, j];
        proof {
            assert(seq_int(id@) =~= seq![i as int, j as int]);
            assert(in_shape(seq_int(id@), self.shape@));
        }
        self.get(&id)
    }

    /// The buffer displacement of a multi-index, without the view's offset.
    pub fn lin_from_idx(&self, id: &[usize]) -> (r: usize)
        requires
            self.wf(),
            in_shape(seq_int(id@), self.shape@),
        ensures
            r == stride_sum(seq_int(id@), self.strides@),
    {
        proof {
            lemma_elem_in_bounds(*self, seq_int(id@));
        }
        let dlen = self.data.len();
        let mut acc: usize = 0;
        let mut i: usize = 0;
        let len = id.len();
        proof {
            assert(seq_int(id@).take(0) =~= Seq::<int>::empty());
            assert(self.strides@.take(0) =~= Seq::<usize>::empty());
        }
        while i < len
            invariant
                0 <= i <= len,
                len == id@.len(),
                self.wf(),
                in_shape(seq_int(id@), self.shape@),
                len == self.strides@.len(),
                dlen == self.data@.len(),
                acc == stride_sum(seq_int(id@).take(i as int), self.strides@.take(i as int)),
            decreases len - i,
        {
            proof {
                let full = seq_int(id@);
                lemma_elem_in_bounds(*self, full);
                lemma_stride_sum_prefix(full, self.strides@, i as int);
                assert(forall|j: int|
                    0 <= j < full.take(i as int).len() ==> 0 <= #[trigger] full.take(i as int)[j]);
                lemma_stride_sum_nonneg(full.take(i as int), self.strides@.take(i as int));
                assert(full[i as int] == id@[i as int] as int);
                if i as int + 1 < len {
                    lemma_stride_sum_prefix(full, self.strides@, i as int + 1);
                } else {
                    assert(full.take(i as int + 1) =~= full);
                    assert(self.strides@.take(i as int + 1) =~= self.strides@);
                }
            }
            acc = acc + id[i] * self.strides[i];
            i = i + 1;
        }
        proof {
            assert(seq_int(id@).take(len as int) =~= seq_int(id@));
            assert(self.strides@.take(len as int) =~= self.strides@);
        }
        acc
    }

    /// The buffer displacement of a leading (batch) multi-index: the strides
    /// beyond its length contribute nothing.
    pub fn batch_offset(&self, idx: &[usize]) -> (r: usize)
        requires
            self.wf(),
            numel_of(self.shape@) > 0,
            idx@.len() <= self.rank(),
            forall|i: int| 0 <= i < idx@.len() ==> (#[trigger] idx@[i]) < self.shape@[i],
        ensures
            r == stride_sum(seq_int(idx@), self.strides@.take(idx@.len() as int)),
    {
        let k = idx.len();
        let ghost kk = k as int;
        proof {
            assert(in_shape(seq_int(idx@), self.shape@.take(kk)));
            lemma_stride_sum_le_span(seq_int(idx@), self.shape@.take(kk), self.strides@.take(kk));
            assert(max_idx(self.shape@.take(kk)) =~= max_idx(self.shape@).take(kk));
            lemma_numel_pos_dims(self.shape@);
            assert(forall|i: int|
                0 <= i < max_idx(self.shape@).len() ==> 0 <= #[trigger] max_idx(self.shape@)[i]);
            if kk < self.rank() {
                lemma_stride_sum_prefix(max_idx(self.shape@), self.strides@, kk);
            } else {
                assert(max_idx(self.shape@).take(kk) =~= max_idx(self.shape@));
                assert(self.strides@.take(kk) =~= self.strides@);
            }
            assert(in_shape(max_idx(self.shape@), self.shape@));
        }
        let dlen = self.data.len();
        let mut acc: usize = 0;
        let mut i: usize = 0;
        proof {
            assert(seq_int(idx@).take(0) =~= Seq::<int>::empty());
            assert(self.strides@.take(kk).take(0) =~= Seq::<usize>::empty());
        }
        while i < k
            invariant
                0 <= i <= k,
                k == idx@.len(),
                kk == k as int,
                self.wf(),
                numel_of(self.shape@) > 0,
                kk <= self.rank(),
                forall|t: int| 0 <= t < k ==> (#[trigger] idx@[t]) < self.shape@[t],
                dlen == self.data@.len(),
                stride_sum(seq_int(idx@), self.strides@.take(kk)) < dlen,
                acc == stride_sum(
                    seq_int(idx@).take(i as int),
                    self.strides@.take(kk).take(i as int),
                ),
            decreases k - i,
        {
            proof {
                let full = seq_int(idx@);
                let st = self.strides@.take(kk);
                lemma_stride_sum_prefix(full, st, i as int);
                assert(forall|j: int|
                    0 <= j < full.take(i as int).len() ==> 0 <= #[trigger] full.take(i as int)[j]);
                lemma_stride_sum_nonneg(full.take(i as int), st.take(i as int));
                assert(full[i as int] == idx@[i as int] as int);
                assert(st[i as int] == self.strides@[i as int]);
                if i as int + 1 < kk {
                    lemma_stride_sum_prefix(full, st, i as int + 1);
                } else {
                    assert(full.take(i as int + 1) =~= full);
                    assert(st.take(i as int + 1) =~= st);
                }
            }
            acc = acc + idx[i] * self.strides[i];
            i = i + 1;
        }
        proof {
            assert(seq_int(idx@).take(kk) =~= seq_int(idx@));
            assert(self.strides@.take(kk).take(kk) =~= self.strides@.take(kk));
        }
        acc
    }

    /// A rank-two view of the two trailing axes, rebased at `offset`.
    pub fn vue2d(&self, offset: usize) -> (r: Tensor)
        requires
            self.wf(),
            self.rank() >= 2,
            self.shape@[self.rank() - 2] * self.shape@[self.rank() - 1] > 0 ==> offset + (
            self.shape@[self.rank() - 2] - 1) * self.strides@[self.rank() - 2] + (
            self.shape@[self.rank() - 1] - 1) * self.strides@[self.rank() - 1]
                < self.data@.len(),
        ensures
            r.wf(),
            r.data@ == self.data@,
            r.offset == offset,
            r.shape@ == seq![
                self.shape@[self.rank() - 2],
                self.shape@[self.rank() - 1],
            ],
            r.strides@ == seq![
                self.strides@[self.rank() - 2],
                self.strides@[self.rank() - 1],
            ],
    {
        let n = self.shape.len();
        let mut shape_v: Vec<usize> = Vec::new();
        shape_v.push(self.shape[n - 2]);
        shape_v.push(self.shape[n - 1]);
        let mut strides_v: Vec<usize> = Vec::new();
        strides_v.push(self.strides[n - 2]);
        strides_v.push(self.strides[n - 1]);
        let t = Tensor { data: self.data.clone(), shape: shape_v, strides: strides_v, offset };
        proof {
            assert(t.data@ =~= self.data@);
            assert(t.shape@ =~= seq![self.shape@[n - 2], self.shape@[n - 1]]);
            assert(t.strides@ =~= seq![self.strides@[n - 2], self.strides@[n - 1]]);
            let d0 = self.shape@[n - 2];
            let d1 = self.shape@[n - 1];
            if numel_of(t.shape@) > 0 {
                lemma_numel_pos_dims(t.shape@);
                assert(d0 * d1 > 0) by {
                    lemma_mul_strictly_positive(d0 as int, d1 as int);
                }
                let m = max_idx(t.shape@);
                assert(m =~= seq![d0 - 1, d1 - 1]);
                assert(m.skip(1) =~= seq![d1 - 1]);
                assert(t.strides@.skip(1) =~= seq![self.strides@[n - 1]]);
                assert(m.skip(1).skip(1) =~= Seq::<int>::empty());
                assert(t.strides@.skip(1).skip(1) =~= Seq::<usize>::empty());
                assert(stride_sum(m.skip(1).skip(1), t.strides@.skip(1).skip(1)) == 0);
                assert(m.skip(1)[0] == d1 - 1);
                assert(t.strides@.skip(1)[0] == self.strides@[n - 1]);
                assert(stride_sum(m.skip(1), t.strides@.skip(1)) == (d1 - 1) * self.strides@[n - 1]
                    + 0);
                assert(m[0] == d0 - 1);
                assert(t.strides@[0] == self.strides@[n - 2]);
                assert(stride_sum(m, t.strides@) == (d0 - 1) * self.strides@[n - 2] + ((d1 - 1)
                    * self.strides@[n - 1] + 0));
            }
        }
        t
    }

    /// A rank-one dense view of all elements, in row-major order.
    pub fn flatten_all(&self) -> (r: Tensor)
        requires
            self.wf(),
            self.dense(),
        ensures
            r.wf(),
            r.dense(),
            r.shape@ == seq![self.data@.len() as usize],
            r.data@ == self.data@,
            forall|l: int|
                0 <= l < self.data@.len() ==> #[trigger] r.elem(seq![l]) == self.data@[l],
    {
        let n = self.data.len();
        let mut shape_v: Vec<usize> = Vec::new();
        shape_v.push(n);
        let mut strides_v: Vec<usize> = Vec::new();
        strides_v.push(1);
        let t = Tensor { data: self.data.clone(), shape: shape_v, strides: strides_v, offset: 0 };
        proof {
            assert(t.data@ =~= self.data@);
            assert(t.shape@ =~= seq![n]);
            assert(t.shape@.skip(1) =~= Seq::<usize>::empty());
            assert(numel_of(t.shape@.skip(1)) == 1);
            assert((n as nat) * 1 == n as nat) by {
                lemma_mul_basics(n as int);
            }
            assert(numel_of(t.shape@) == n);
            assert(is_rm_strides(t.shape@, t.strides@));
            assert forall|l: int| 0 <= l < n implies #[trigger] t.elem(seq![l])
                == self.data@[l] by {
                assert(seq![l].skip(1) =~= Seq::<int>::empty());
                assert(t.strides@.skip(1) =~= Seq::<usize>::empty());
                assert(stride_sum(seq![l].skip(1), t.strides@.skip(1)) == 0);
                assert(seq![l][0] == l);
                assert(t.strides@[0] == 1);
                assert(stride_sum(seq![l], t.strides@) == l * 1 + 0);
                assert(l * 1 == l) by {
                    lemma_mul_basics(l);
                }
            }
            if numel_of(t.shape@) > 0 {
                lemma_numel_pos_dims(t.shape@);
                let m = max_idx(t.shape@);
                assert(m =~= seq![n - 1]);
                assert(in_shape(m, t.shape@));
                lemma_stride_sum_rm(m, t.shape@, t.strides@);
                lemma_lin_of_bounds(m, t.shape@);
            }
        }
        t
    }
}

/// The value is some thirty-two-bit fraction of the unit interval, scaled.
pub open spec fn scaled_word(scale: Rat, v: Rat) -> bool {
    exists|w: int|
        0 <= w < 4294967296 && v == rat_mul(scale, crate::rat::norm_spec(w, 4294967296))
}

/// Relies on rand::random: a uniformly distributed machine word.  The value
/// depends on the process's entropy source, so nothing is promised of it.
#[verifier::external_body]
fn random_word() -> u32 {
    rand::random::<u32>()
}

impl Tensor {
    /// A dense tensor of pseudo-random scalars drawn uniformly from
    /// `[0, scale)` at a granularity of one in two to the thirty-second:
    /// whatever words the generator yields, every element is `scale` times a
    /// thirty-two-bit fraction of the unit interval.
    pub fn random(shape: &[usize], scale: Rat) -> (r: Tensor)
        requires
            numel_of(shape@) <= usize::MAX,
            scale.inv(),
        ensures
            r.wf(),
            r.dense(),
            r.shape@ == shape@,
            forall|idx: Seq<int>|
                in_shape(idx, shape@) ==> #[trigger] scaled_word(scale, r.elem(idx)),
    {
        let n = match numel_checked(shape) {
            Some(n) => n,
            None => {
                proof {
                    assert(false);
                }
                0
            },
        };
        let mut data: Vec<Rat> = Vec::new();
        let mut i: usize = 0;
        while i < n
            invariant
                0 <= i <= n,
                scale.inv(),
                data@.len() == i,
                forall|j: int|
                    0 <= j < i ==> (#[trigger] data@[j]).inv() && scaled_word(scale, data@[j]),
            decreases n - i,
        {
            let w = random_word();
            let unit = Rat::from_ratio(w as i64, 4294967296);
            data.push(scale.mul(unit));
            proof {
                assert((w as int) < 4294967296);
                assert(data@[i as int] == rat_mul(
                    scale,
                    crate::rat::norm_spec(w as int, 4294967296),
                ));
                assert(scaled_word(scale, data@[i as int]));
            }
            i = i + 1;
        }
        let ghost d0 = data@;
        match Tensor::from_owned(data, shape) {
            Ok(t) => {
                proof {
                    assert forall|idx: Seq<int>| in_shape(idx, shape@) implies #[trigger]
                    scaled_word(scale, t.elem(idx)) by {
                        lemma_lin_of_bounds(idx, shape@);
                        let l = lin_of(idx, shape@);
                        assert(scaled_word(scale, d0[l]));
                        assert(t.elem(idx) == d0[l]);
                    }
                }
                t
            },
            Err(_) => {
                proof {
                    assert(false);
                }
                Tensor { data: Vec::new(), shape: Vec::new(), strides: Vec::new(), offset: 0 }
            },
        }
    }
}

/// The number of collapse positions feeding each element of a gradient
/// reduction, times the origin's element count, is the reduced tensor's
/// element count; and reducing an all-ones tensor yields that count at every
/// position: the broadcast round-trip integrates each origin element once per
/// position collapsed onto it.
pub proof fn lemma_broadcast_roundtrip(v: Tensor, origin: Seq<usize>, oidx: Seq<int>)
    requires
        v.wf(),
        reducible_to(v.shape@, origin),
        in_shape(oidx, origin),
        numel_of(v.shape@) > 0,
        forall|idx: Seq<int>| in_shape(idx, v.shape@) ==> #[trigger] v.elem(idx) == rat_one(),
        numel_of(reduce_cshape(v.shape@, origin)) <= i64::MAX,
    ensures
        collapse_sum(
            v,
            origin,
            oidx,
            numel_of(reduce_cshape(v.shape@, origin)) as int,
        ) == crate::rat::int_rat(numel_of(reduce_cshape(v.shape@, origin)) as int),
        numel_of(reduce_cshape(v.shape@, origin)) * numel_of(origin) == numel_of(v.shape@),
{
    let cs = reduce_cshape(v.shape@, origin);
    lemma_ones_collapse(v, origin, oidx, numel_of(cs) as int);
    // the collapse grid times the padded origin is, axis by axis, the shape
    let n = v.shape@.len() as int;
    let po = Seq::new(n as nat, |i: int| pad_dim(origin, n, i) as usize);
    lemma_numel_pos_dims(v.shape@);
    assert forall|i: int| 0 <= i < n implies #[trigger] v.shape@[i] == cs[i] * po[i] by {
        if pad_dim(origin, n, i) == 1 {
            assert(cs[i] == v.shape@[i]);
            assert(po[i] == 1);
            assert(cs[i] * 1 == cs[i]) by {
                lemma_mul_basics(cs[i] as int);
            }
        } else {
            assert(cs[i] == 1);
            assert(pad_dim(origin, n, i) == v.shape@[i] as int);
            assert(1 * po[i] == po[i]) by {
                lemma_mul_basics(po[i] as int);
            }
        }
    }
    lemma_numel_axis_product(cs, po, v.shape@);
    lemma_pad_numel(origin, n);
    assert(po =~= Seq::new(n as nat, |i: int| pad_dim(origin, n, i) as usize));
}

/// Summing ones over the first `k` collapse positions gives `k`.
proof fn lemma_ones_collapse(v: Tensor, origin: Seq<usize>, oidx: Seq<int>, k: int)
    requires
        v.wf(),
        reducible_to(v.shape@, origin),
        in_shape(oidx, origin),
        forall|idx: Seq<int>| in_shape(idx, v.shape@) ==> #[trigger] v.elem(idx) == rat_one(),
        0 <= k <= i64::MAX,
        k <= numel_of(reduce_cshape(v.shape@, origin)),
    ensures
        collapse_sum(v, origin, oidx, k) == crate::rat::int_rat(k),
    decreases k,
{
    if k == 0 {
    } else {
        lemma_ones_collapse(v, origin, oidx, k - 1);
        let cs = reduce_cshape(v.shape@, origin);
        crate::shape::lemma_idx_of_lin(k - 1, cs);
        lemma_weave_in_shape(oidx, idx_of(k - 1, cs), v.shape@, origin);
        let w = weave_idx(oidx, idx_of(k - 1, cs), v.shape@, origin);
        assert(v.elem(w) == rat_one());
        crate::rat::lemma_add_int(k - 1, 1);
    }
}

/// When a third shape is the axiswise product of two others, its element
/// count is the product of theirs.
proof fn lemma_numel_axis_product(s1: Seq<usize>, s2: Seq<usize>, s3: Seq<usize>)
    requires
        s1.len() == s3.len(),
        s2.len() == s3.len(),
        forall|i: int| 0 <= i < s3.len() ==> #[trigger] s3[i] == s1[i] * s2[i],
    ensures
        numel_of(s1) * numel_of(s2) == numel_of(s3),
    decreases s3.len(),
{
    if s3.len() == 0 {
        assert(numel_of(s1) * numel_of(s2) == 1) by {
            lemma_mul_basics(1int);
        }
    } else {
        assert(forall|i: int|
            0 <= i < s3.skip(1).len() ==> #[trigger] s3.skip(1)[i] == s1.skip(1)[i] * s2.skip(1)[i]);
        lemma_numel_axis_product(s1.skip(1), s2.skip(1), s3.skip(1));
        let a = s1[0] as int;
        let b = s2[0] as int;
        let n1 = numel_of(s1.skip(1)) as int;
        let n2 = numel_of(s2.skip(1)) as int;
        assert((a * n1) * (b * n2) == (a * b) * (n1 * n2)) by (nonlinear_arith);
        assert(s3[0] == a * b);
    }
}

/// Sum of the first `k` entries along the trailing axis of the row at `bidx`.
pub open spec fn last_axis_sum(t: Tensor, bidx: Seq<int>, k: int) -> Rat
    decreases k,
{
    if k <= 0 {
        rat_zero()
    } else {
        rat_add(last_axis_sum(t, bidx, k - 1), t.elem(bidx.push(k - 1)))
    }
}

/// Maximum of the first `k` entries along the trailing axis of the row at
/// `bidx` (for `k >= 1`).
pub open spec fn last_axis_max(t: Tensor, bidx: Seq<int>, k: int) -> Rat
    decreases k,
{
    if k <= 1 {
        t.elem(bidx.push(0))
    } else {
        rat_max(last_axis_max(t, bidx, k - 1), t.elem(bidx.push(k - 1)))
    }
}

impl Tensor {
    /// Map a scalar function over every element this view presents.  The
    /// result is always materialised as a fresh dense tensor — never a
    /// broadcast alias of the input, whatever the input's strides.
    pub fn apply<F: Fn(Rat) -> Rat>(&self, f: F) -> (r: Tensor)
        requires
            self.wf(),
            numel_of(self.shape@) <= usize::MAX,
            forall|x: Rat| x.inv() ==> #[trigger] f.requires((x,)),
            forall|x: Rat, y: Rat| #[trigger] f.ensures((x,), y) ==> y.inv(),
        ensures
            r.wf(),
            r.dense(),
            r.shape@ == self.shape@,
            forall|idx: Seq<int>|
                in_shape(idx, self.shape@) ==> f.ensures(
                    (self.elem(idx),),
                    #[trigger] r.elem(idx),
                ),
    {
        let n = match numel_checked(self.shape.as_slice()) {
            Some(n) => n,
            None => {
                proof {
                    assert(false);
                }
                0
            },
        };
        let mut data: Vec<Rat> = Vec::new();
        let mut lin: usize = 0;
        while lin < n
            invariant
                0 <= lin <= n,
                n as nat == numel_of(self.shape@),
                self.wf(),
                forall|x: Rat| x.inv() ==> #[trigger] f.requires((x,)),
                forall|x: Rat, y: Rat| #[trigger] f.ensures((x,), y) ==> y.inv(),
                data@.len() == lin,
                forall|l: int|
                    0 <= l < lin ==> f.ensures(
                        (self.elem(idx_of(l, self.shape@)),),
                        #[trigger] data@[l],
                    ) && data@[l].inv(),
            decreases n - lin,
        {
            let x = self.get_from_lin(lin);
            let y = f(x);
            data.push(y);
            lin = lin + 1;
        }
        match Tensor::from_owned(data, self.shape.as_slice()) {
            Ok(t) => {
                proof {
                    assert forall|idx: Seq<int>| in_shape(idx, self.shape@) implies f.ensures(
                        (self.elem(idx),),
                        #[trigger] t.elem(idx),
                    ) by {
                        lemma_lin_of_bounds(idx, self.shape@);
                        crate::shape::lemma_idx_of_lin_of(idx, self.shape@);
                    }
                }
                t
            },
            Err(_) => {
                proof {
                    assert(false);
                }
                Tensor { data: Vec::new(), shape: Vec::new(), strides: Vec::new(), offset: 0 }
            },
        }
    }

    /// Sum of every element, as a rank-zero tensor.
    pub fn sum_all(&self) -> (r: Tensor)
        requires
            self.wf(),
            numel_of(self.shape@) <= usize::MAX,
        ensures
            r.wf(),
            r.dense(),
            r.shape@ == Seq::<usize>::empty(),
            r.elem(Seq::<int>::empty()) == seq_rat_sum(
                Seq::new(
                    numel_of(self.shape@),
                    |l: int| self.elem(idx_of(l, self.shape@)),
                ),
            ),
    {
        let n = match numel_checked(self.shape.as_slice()) {
            Some(n) => n,
            None => {
                proof {
                    assert(false);
                }
                0
            },
        };
        let ghost vals = Seq::new(
            numel_of(self.shape@),
            |l: int| self.elem(idx_of(l, self.shape@)),
        );
        let mut acc = Rat::zero();
        let mut lin: usize = 0;
        proof {
            assert(vals.take(0) =~= Seq::<Rat>::empty());
        }
        while lin < n
            invariant
                0 <= lin <= n,
                self.wf(),
                n as nat == numel_of(self.shape@),
                vals == Seq::new(
                    numel_of(self.shape@),
                    |l: int| self.elem(idx_of(l, self.shape@)),
                ),
                acc.inv(),
                acc == seq_rat_sum(vals.take(lin as int)),
            decreases n - lin,
        {
            let x = self.get_from_lin(lin);
            proof {
                assert(vals.take(lin as int + 1).drop_last() =~= vals.take(lin as int));
                assert(vals.take(lin as int + 1).last() == vals[lin as int]);
            }
            acc = acc.add(x);
            lin = lin + 1;
        }
        let mut data: Vec<Rat> = Vec::new();
        data.push(acc);
        let shape0: [usize; 0] = [];
        match Tensor::from_owned(data, &shape0) {
            Ok(t) => {
                proof {
                    assert(vals.take(n as int) =~= vals);
                    assert(in_shape(Seq::<int>::empty(), Seq::<usize>::empty()));
                    assert(lin_of(Seq::<int>::empty(), Seq::<usize>::empty()) == 0);
                }
                t
            },
            Err(_) => {
                proof {
                    assert(numel_of(shape0@) == 1);
                    assert(false);
                }
                Tensor { data: Vec::new(), shape: Vec::new(), strides: Vec::new(), offset: 0 }
            },
        }
    }

    /// Sum along the trailing axis, keeping it as a size-one axis.
    pub fn sum_last(&self) -> (r: Tensor)
        requires
            self.wf(),
            self.rank() >= 1,
            self.shape@[self.rank() - 1] >= 1,
            numel_of(self.shape@.drop_last()) <= usize::MAX,
        ensures
            r.wf(),
            r.shape@ == self.shape@.update(self.rank() - 1, 1usize),
            forall|bidx: Seq<int>|
                in_shape(bidx, self.shape@.drop_last()) ==> #[trigger] r.elem(bidx.push(0))
                    == last_axis_sum(*self, bidx, self.shape@[self.rank() - 1] as int),
    {
        let rk = self.shape.len();
        let d = self.shape[rk - 1];
        let (bshape, rows) = self.row_table();
        match Tensor::from_owned(rows, bshape.as_slice()) {
            Ok(t) => {
                let out = t.unsqueeze_view(rk - 1);
                proof {
                    assert(out.shape@ =~= self.shape@.update(self.rank() - 1, 1usize));
                    assert forall|bidx: Seq<int>| in_shape(bidx, self.shape@.drop_last()) implies
                        #[trigger] out.elem(bidx.push(0)) == last_axis_sum(
                        *self,
                        bidx,
                        self.shape@[self.rank() - 1] as int,
                    ) by {
                        assert(in_shape(bidx.push(0), out.shape@)) by {
                            assert(forall|i: int|
                                0 <= i < bidx.len() ==> #[trigger] bidx.push(0)[i] == bidx[i]);
                        }
                        assert(bidx.push(0).remove(rk - 1) =~= bidx);
                        assert(out.elem(bidx.push(0)) == t.elem(bidx));
                        lemma_lin_of_bounds(bidx, self.shape@.drop_last());
                        crate::shape::lemma_idx_of_lin_of(bidx, self.shape@.drop_last());
                    }
                }
                out
            },
            Err(_) => {
                proof {
                    assert(false);
                }
                Tensor { data: Vec::new(), shape: Vec::new(), strides: Vec::new(), offset: 0 }
            },
        }
    }

    /// Row sums of the trailing axis: the batch shape and one scalar per row.
    fn row_table(&self) -> (r: (Vec<usize>, Vec<Rat>))
        requires
            self.wf(),
            self.rank() >= 1,
            self.shape@[self.rank() - 1] >= 1,
            numel_of(self.shape@.drop_last()) <= usize::MAX,
        ensures
            r.0@ == self.shape@.drop_last(),
            r.1@.len() == numel_of(self.shape@.drop_last()),
            forall|i: int| 0 <= i < r.1@.len() ==> (#[trigger] r.1@[i]).inv(),
            forall|l: int|
                0 <= l < r.1@.len() ==> #[trigger] r.1@[l] == last_axis_sum(
                    *self,
                    idx_of(l, self.shape@.drop_last()),
                    self.shape@[self.rank() - 1] as int,
                ),
    {
        let rk = self.shape.len();
        let d = self.shape[rk - 1];
        let mut bshape: Vec<usize> = Vec::new();
        let mut i: usize = 0;
        while i < rk - 1
            invariant
                0 <= i <= rk - 1,
                rk == self.rank(),
                rk >= 1,
                bshape@ =~= self.shape@.drop_last().take(i as int),
            decreases rk - 1 - i,
        {
            bshape.push(self.shape[i]);
            proof {
                assert(bshape@ =~= self.shape@.drop_last().take(i as int + 1));
            }
            i = i + 1;
        }
        proof {
            assert(bshape@ =~= self.shape@.drop_last());
        }
        let nb = match numel_checked(bshape.as_slice()) {
            Some(n) => n,
            None => {
                proof {
                    assert(false);
                }
                0
            },
        };
        let mut rows: Vec<Rat> = Vec::new();
        let mut bl: usize = 0;
        while bl < nb
            invariant
                0 <= bl <= nb,
                rk == self.rank(),
                rk >= 1,
                self.wf(),
                self.shape@[rk - 1] >= 1,
                d == self.shape@[rk - 1],
                bshape@ == self.shape@.drop_last(),
                nb as nat == numel_of(self.shape@.drop_last()),
                rows@.len() == bl,
                forall|l: int|
                    0 <= l < bl ==> (#[trigger] rows@[l]) == last_axis_sum(
                        *self,
                        idx_of(l, self.shape@.drop_last()),
                        d as int,
                    ) && rows@[l].inv(),
            decreases nb - bl,
        {
            let bidx = idx_from_lin(bshape.as_slice(), bl);
            proof {
                lemma_idx_of_lin(bl as int, self.shape@.drop_last());
            }
            let mut acc = Rat::zero();
            let mut k: usize = 0;
            while k < d
                invariant
                    0 <= k <= d,
                    rk == self.rank(),
                    rk >= 1,
                    self.wf(),
                    d == self.shape@[rk - 1],
                    self.shape@[rk - 1] >= 1,
                    seq_int(bidx@) == idx_of(bl as int, self.shape@.drop_last()),
                    bidx@.len() == rk - 1,
                    in_shape(seq_int(bidx@), self.shape@.drop_last()),
                    acc.inv(),
                    acc == last_axis_sum(*self, seq_int(bidx@), k as int),
                decreases d - k,
            {
                let mut full = bidx.clone();
                full.push(k);
                proof {
                    assert(full@ =~= bidx@.push(k));
                    assert(seq_int(full@) =~= seq_int(bidx@).push(k as int));
                    assert(in_shape(seq_int(full@), self.shape@)) by {
                        lemma_full_row_idx(self.shape@, seq_int(bidx@), k as int);
                    }
                }
                let x = self.get(full.as_slice());
                acc = acc.add(x);
                k = k + 1;
            }
            rows.push(acc);
            bl = bl + 1;
        }
        (bshape, rows)
    }
}

impl Tensor {
    /// Maximum along the trailing axis, keeping it as a size-one axis.
    pub fn max_last(&self) -> (r: Tensor)
        requires
            self.wf(),
            self.rank() >= 1,
            self.shape@[self.rank() - 1] >= 1,
            numel_of(self.shape@.drop_last()) <= usize::MAX,
        ensures
            r.wf(),
            r.shape@ == self.shape@.update(self.rank() - 1, 1usize),
            forall|bidx: Seq<int>|
                in_shape(bidx, self.shape@.drop_last()) ==> #[trigger] r.elem(bidx.push(0))
                    == last_axis_max(*self, bidx, self.shape@[self.rank() - 1] as int),
    {
        let rk = self.shape.len();
        let d = self.shape[rk - 1];
        let mut bshape: Vec<usize> = Vec::new();
        let mut i: usize = 0;
        while i < rk - 1
            invariant
                0 <= i <= rk - 1,
                rk == self.rank(),
                rk >= 1,
                bshape@ =~= self.shape@.drop_last().take(i as int),
            decreases rk - 1 - i,
        {
            bshape.push(self.shape[i]);
            proof {
                assert(bshape@ =~= self.shape@.drop_last().take(i as int + 1));
            }
            i = i + 1;
        }
        proof {
            assert(bshape@ =~= self.shape@.drop_last());
        }
        let nb = match numel_checked(bshape.as_slice()) {
            Some(n) => n,
            None => {
                proof {
                    assert(false);
                }
                0
            },
        };
        let mut rows: Vec<Rat> = Vec::new();
        let mut bl: usize = 0;
        while bl < nb
            invariant
                0 <= bl <= nb,
                rk == self.rank(),
                rk >= 1,
                self.wf(),
                self.shape@[rk - 1] >= 1,
                d == self.shape@[rk - 1],
                bshape@ == self.shape@.drop_last(),
                nb as nat == numel_of(self.shape@.drop_last()),
                rows@.len() == bl,
                forall|l: int|
                    0 <= l < bl ==> (#[trigger] rows@[l]) == last_axis_max(
                        *self,
                        idx_of(l, self.shape@.drop_last()),
                        d as int,
                    ) && rows@[l].inv(),
            decreases nb - bl,
        {
            let bidx = idx_from_lin(bshape.as_slice(), bl);
            proof {
                lemma_idx_of_lin(bl as int, self.shape@.drop_last());
            }
            let mut first = bidx.clone();
            first.push(0);
            proof {
                assert(first@ =~= bidx@.push(0));
                assert(seq_int(first@) =~= seq_int(bidx@).push(0int));
                lemma_full_row_idx(self.shape@, seq_int(bidx@), 0);
            }
            let mut acc = self.get(first.as_slice());
            let mut k: usize = 1;
            while k < d
                invariant
                    1 <= k <= d,
                    rk == self.rank(),
                    rk >= 1,
                    self.wf(),
                    d == self.shape@[rk - 1],
                    self.shape@[rk - 1] >= 1,
                    seq_int(bidx@) == idx_of(bl as int, self.shape@.drop_last()),
                    bidx@.len() == rk - 1,
                    in_shape(seq_int(bidx@), self.shape@.drop_last()),
                    acc.inv(),
                    acc == last_axis_max(*self, seq_int(bidx@), k as int),
                decreases d - k,
            {
                let mut full = bidx.clone();
                full.push(k);
                proof {
                    assert(full@ =~= bidx@.push(k));
                    assert(seq_int(full@) =~= seq_int(bidx@).push(k as int));
                    lemma_full_row_idx(self.shape@, seq_int(bidx@), k as int);
                }
                let x = self.get(full.as_slice());
                acc = acc.max(x);
                k = k + 1;
            }
            rows.push(acc);
            bl = bl + 1;
        }
        match Tensor::from_owned(rows, bshape.as_slice()) {
            Ok(t) => {
                let out = t.unsqueeze_view(rk - 1);
                proof {
                    assert(out.shape@ =~= self.shape@.update(self.rank() - 1, 1usize));
                    assert forall|bidx: Seq<int>| in_shape(bidx, self.shape@.drop_last()) implies
                        #[trigger] out.elem(bidx.push(0)) == last_axis_max(
                        *self,
                        bidx,
                        self.shape@[self.rank() - 1] as int,
                    ) by {
                        assert(in_shape(bidx.push(0), out.shape@)) by {
                            assert(forall|i: int|
                                0 <= i < bidx.len() ==> #[trigger] bidx.push(0)[i] == bidx[i]);
                        }
                        assert(bidx.push(0).remove(rk - 1) =~= bidx);
                        assert(out.elem(bidx.push(0)) == t.elem(bidx));
                        lemma_lin_of_bounds(bidx, self.shape@.drop_last());
                        crate::shape::lemma_idx_of_lin_of(bidx, self.shape@.drop_last());
                    }
                }
                out
            },
            Err(_) => {
                proof {
                    assert(false);
                }
                Tensor { data: Vec::new(), shape: Vec::new(), strides: Vec::new(), offset: 0 }
            },
        }
    }

    /// Index of the first maximal entry of each trailing-axis row, one per
    /// batch position in row-major batch order.
    pub fn argmax_last(&self) -> (r: Vec<usize>)
        requires
            self.wf(),
            self.rank() >= 1,
            self.shape@[self.rank() - 1] >= 1,
            numel_of(self.shape@.drop_last()) <= usize::MAX,
        ensures
            r@.len() == numel_of(self.shape@.drop_last()),
            forall|l: int|
                0 <= l < r@.len() ==> {
                    let bidx = idx_of(l, self.shape@.drop_last());
                    let j = #[trigger] r@[l] as int;
                    &&& 0 <= j < self.shape@[self.rank() - 1]
                    &&& forall|k: int|
                        0 <= k < self.shape@[self.rank() - 1] ==> !rat_lt(
                            self.elem(bidx.push(j)),
                            #[trigger] self.elem(bidx.push(k)),
                        )
                    &&& forall|k: int|
                        0 <= k < j ==> rat_lt(
                            #[trigger] self.elem(bidx.push(k)),
                            self.elem(bidx.push(j)),
                        )
                },
    {
        let rk = self.shape.len();
        let d = self.shape[rk - 1];
        let mut bshape: Vec<usize> = Vec::new();
        let mut i: usize = 0;
        while i < rk - 1
            invariant
                0 <= i <= rk - 1,
                rk == self.rank(),
                rk >= 1,
                bshape@ =~= self.shape@.drop_last().take(i as int),
            decreases rk - 1 - i,
        {
            bshape.push(self.shape[i]);
            proof {
                assert(bshape@ =~= self.shape@.drop_last().take(i as int + 1));
            }
            i = i + 1;
        }
        proof {
            assert(bshape@ =~= self.shape@.drop_last());
        }
        let nb = match numel_checked(bshape.as_slice()) {
            Some(n) => n,
            None => {
                proof {
                    assert(false);
                }
                0
            },
        };
        let mut args: Vec<usize> = Vec::new();
        let mut bl: usize = 0;
        while bl < nb
            invariant
                0 <= bl <= nb,
                rk == self.rank(),
                rk >= 1,
                self.wf(),
                self.shape@[rk - 1] >= 1,
                d == self.shape@[rk - 1],
                bshape@ == self.shape@.drop_last(),
                nb as nat == numel_of(self.shape@.drop_last()),
                args@.len() == bl,
                forall|l: int|
                    0 <= l < bl ==> {
                        let bidx = idx_of(l, self.shape@.drop_last());
                        let j = #[trigger] args@[l] as int;
                        &&& 0 <= j < d
                        &&& forall|k: int|
                            0 <= k < d ==> !rat_lt(
                                self.elem(bidx.push(j)),
                                #[trigger] self.elem(bidx.push(k)),
                            )
                        &&& forall|k: int|
                            0 <= k < j ==> rat_lt(
                                #[trigger] self.elem(bidx.push(k)),
                                self.elem(bidx.push(j)),
                            )
                    },
            decreases nb - bl,
        {
            let bidx = idx_from_lin(bshape.as_slice(), bl);
            proof {
                lemma_idx_of_lin(bl as int, self.shape@.drop_last());
            }
            let mut first = bidx.clone();
            first.push(0);
            proof {
                assert(first@ =~= bidx@.push(0));
                assert(seq_int(first@) =~= seq_int(bidx@).push(0int));
                lemma_full_row_idx(self.shape@, seq_int(bidx@), 0);
            }
            let mut best = self.get(first.as_slice());
            let mut arg: usize = 0;
            let mut k: usize = 1;
            while k < d
                invariant
                    1 <= k <= d,
                    rk == self.rank(),
                    rk >= 1,
                    self.wf(),
                    d == self.shape@[rk - 1],
                    self.shape@[rk - 1] >= 1,
                    seq_int(bidx@) == idx_of(bl as int, self.shape@.drop_last()),
                    bidx@.len() == rk - 1,
                    in_shape(seq_int(bidx@), self.shape@.drop_last()),
                    best.inv(),
                    0 <= arg < k,
                    best == self.elem(seq_int(bidx@).push(arg as int)),
                    forall|t: int|
                        0 <= t < k ==> !rat_lt(
                            best,
                            #[trigger] self.elem(seq_int(bidx@).push(t)),
                        ),
                    forall|t: int|
                        0 <= t < arg ==> rat_lt(
                            #[trigger] self.elem(seq_int(bidx@).push(t)),
                            best,
                        ),
                decreases d - k,
            {
                let mut full = bidx.clone();
                full.push(k);
                proof {
                    assert(full@ =~= bidx@.push(k));
                    assert(seq_int(full@) =~= seq_int(bidx@).push(k as int));
                    lemma_full_row_idx(self.shape@, seq_int(bidx@), k as int);
                }
                let x = self.get(full.as_slice());
                if best.lt(x) {
                    proof {
                        let old_best = best;
                        assert forall|t: int| 0 <= t < k as int + 1 implies !rat_lt(
                            x,
                            #[trigger] self.elem(seq_int(bidx@).push(t)),
                        ) by {
                            if t < k {
                                lemma_elem_in_bounds(*self, seq_int(bidx@).push(t));
                                if rat_lt(x, self.elem(seq_int(bidx@).push(t))) {
                                    crate::rat::lemma_rat_le_lt_trans(
                                        self.elem(seq_int(bidx@).push(t)),
                                        old_best,
                                        x,
                                    );
                                }
                            }
                        }
                        assert forall|t: int| 0 <= t < k as int implies rat_lt(
                            #[trigger] self.elem(seq_int(bidx@).push(t)),
                            x,
                        ) by {
                            lemma_elem_in_bounds(*self, seq_int(bidx@).push(t));
                            crate::rat::lemma_rat_le_lt_trans(
                                self.elem(seq_int(bidx@).push(t)),
                                old_best,
                                x,
                            );
                        }
                    }
                    best = x;
                    arg = k;
                }
                k = k + 1;
            }
            args.push(arg);
            bl = bl + 1;
        }
        args
    }
}

/// A batch index extended with a trailing coordinate is a valid index.
proof fn lemma_full_row_idx(shape: Seq<usize>, bidx: Seq<int>, k: int)
    requires
        shape.len() >= 1,
        in_shape(bidx, shape.drop_last()),
        0 <= k < shape[shape.len() - 1],
    ensures
        in_shape(bidx.push(k), shape),
{
    assert forall|i: int| 0 <= i < shape.len() implies 0 <= #[trigger] bidx.push(k)[i]
        < shape[i] by {
        if i < shape.len() - 1 {
            assert(bidx.push(k)[i] == bidx[i]);
            assert(shape.drop_last()[i] == shape[i]);
        }
    }
}

} // verus!
