//! Shape, stride and index algebra for row-major strided tensors.
//!
//! A shape is a sequence of dimension sizes.  A multi-index is valid for a
//! shape when it is componentwise inside it; `lin_of` and `idx_of` convert
//! between valid multi-indices and row-major linear positions, and
//! `stride_sum` is the buffer displacement of a multi-index under a stride
//! vector.

use vstd::arithmetic::div_mod::*;
use vstd::arithmetic::mul::*;
use vstd::prelude::*;

verus! {

/// Number of elements of a shape: the product of its dimensions.
pub open spec fn numel_of(shape: Seq<usize>) -> nat
    decreases shape.len(),
{
    if shape.len() == 0 {
        1
    } else {
        (shape[0] as nat) * numel_of(shape.skip(1))
    }
}

/// A multi-index lies componentwise inside a shape.
pub open spec fn in_shape(idx: Seq<int>, shape: Seq<usize>) -> bool {
    &&& idx.len() == shape.len()
    &&& forall|i: int| 0 <= i < idx.len() ==> 0 <= #[trigger] idx[i] < shape[i]
}

/// Row-major linear position of a multi-index.
pub open spec fn lin_of(idx: Seq<int>, shape: Seq<usize>) -> int
    decreases idx.len(),
{
    if idx.len() == 0 {
        0
    } else {
        idx[0] * numel_of(shape.skip(1)) + lin_of(idx.skip(1), shape.skip(1))
    }
}

/// The multi-index at a row-major linear position.  An axis of size zero
/// contributes index zero, mirroring the executable conversion.
pub open spec fn idx_of(lin: int, shape: Seq<usize>) -> Seq<int>
    decreases shape.len(),
{
    if shape.len() == 0 {
        Seq::empty()
    } else {
        let d = shape.last() as int;
        if d == 0 {
            idx_of(lin, shape.drop_last()).push(0)
        } else {
            idx_of(lin / d, shape.drop_last()).push(lin % d)
        }
    }
}

/// Buffer displacement of a multi-index under a stride vector.
pub open spec fn stride_sum(idx: Seq<int>, strides: Seq<usize>) -> int
    decreases idx.len(),
{
    if idx.len() == 0 {
        0
    } else {
        idx[0] * strides[0] + stride_sum(idx.skip(1), strides.skip(1))
    }
}

/// The largest valid multi-index of a shape (zero on empty axes).
pub open spec fn max_idx(shape: Seq<usize>) -> Seq<int> {
    Seq::new(shape.len(), |i: int| if shape[i] == 0 { 0 } else { shape[i] - 1 })
}

/// The largest buffer displacement any valid multi-index can reach.
pub open spec fn span_of(shape: Seq<usize>, strides: Seq<usize>) -> int {
    stride_sum(max_idx(shape), strides)
}

/// The strides are the row-major strides of the shape.
pub open spec fn is_rm_strides(shape: Seq<usize>, strides: Seq<usize>) -> bool {
    &&& strides.len() == shape.len()
    &&& forall|i: int|
        0 <= i < shape.len() ==> #[trigger] strides[i] as nat == numel_of(shape.skip(i + 1))
}

/// View of a usize sequence as a sequence of mathematical integers.
pub open spec fn seq_int(s: Seq<usize>) -> Seq<int> {
    s.map_values(|x: usize| x as int)
}

pub proof fn lemma_numel_snoc(s: Seq<usize>, d: usize)
    ensures
        numel_of(s.push(d)) == numel_of(s) * d,
    decreases s.len(),
{
    if s.len() == 0 {
        assert(s.push(d).skip(1) =~= Seq::<usize>::empty());
        assert(s.push(d)[0] == d);
        assert(numel_of(s.push(d)) == (s.push(d)[0] as nat) * numel_of(s.push(d).skip(1)));
        assert(numel_of(s) * d == 1 * (d as int)) by {
            lemma_mul_is_commutative(1, d as int);
        }
        assert((d as nat) * 1 == d as nat) by {
            lemma_mul_basics(d as int);
        }
    } else {
        assert(s.push(d).skip(1) =~= s.skip(1).push(d));
        lemma_numel_snoc(s.skip(1), d);
        lemma_mul_is_associative(s[0] as int, numel_of(s.skip(1)) as int, d as int);
    }
}

/// A shape with a zero dimension has no elements.
pub proof fn lemma_numel_zero_dim(s: Seq<usize>, i: int)
    requires
        0 <= i < s.len(),
        s[i] == 0,
    ensures
        numel_of(s) == 0,
    decreases s.len(),
{
    if i == 0 {
    } else {
        lemma_numel_zero_dim(s.skip(1), i - 1);
    }
}

/// A shape with no elements has a zero dimension.
pub proof fn lemma_numel_pos(s: Seq<usize>)
    requires
        forall|i: int| 0 <= i < s.len() ==> #[trigger] s[i] > 0,
    ensures
        numel_of(s) >= 1,
    decreases s.len(),
{
    if s.len() > 0 {
        lemma_numel_pos(s.skip(1));
        lemma_mul_strictly_positive(s[0] as int, numel_of(s.skip(1)) as int);
    }
}

/// The element count splits at any cut point.
pub proof fn lemma_numel_split(s: Seq<usize>, k: int)
    requires
        0 <= k <= s.len(),
    ensures
        numel_of(s) == numel_of(s.take(k)) * numel_of(s.skip(k)),
    decreases k,
{
    if k == 0 {
        assert(s.take(0) =~= Seq::<usize>::empty());
        assert(s.skip(0) =~= s);
        assert(numel_of(s.take(0)) == 1);
        assert(1 * numel_of(s) == numel_of(s)) by {
            lemma_mul_basics(numel_of(s) as int);
        }
    } else {
        assert(s.take(k)[0] == s[0]);
        assert(s.take(k).skip(1) =~= s.skip(1).take(k - 1));
        assert(s.skip(1).skip(k - 1) =~= s.skip(k));
        lemma_numel_split(s.skip(1), k - 1);
        let a = s[0] as int;
        let b = numel_of(s.skip(1).take(k - 1)) as int;
        let c = numel_of(s.skip(k)) as int;
        assert(numel_of(s) == a * (b * c));
        assert(numel_of(s.take(k)) == a * b);
        assert(a * (b * c) == (a * b) * c) by {
            lemma_mul_is_associative(a, b, c);
        }
    }
}

pub proof fn lemma_lin_of_snoc(idx: Seq<int>, shape: Seq<usize>, j: int, d: usize)
    requires
        idx.len() == shape.len(),
    ensures
        lin_of(idx.push(j), shape.push(d)) == lin_of(idx, shape) * d + j,
    decreases idx.len(),
{
    if idx.len() == 0 {
        assert(idx.push(j).skip(1) =~= Seq::<int>::empty());
        assert(shape.push(d).skip(1) =~= Seq::<usize>::empty());
        assert(idx.push(j)[0] == j);
        assert(lin_of(idx.push(j), shape.push(d)) == idx.push(j)[0] * numel_of(
            shape.push(d).skip(1),
        ) + lin_of(idx.push(j).skip(1), shape.push(d).skip(1)));
        assert(numel_of(shape.push(d).skip(1)) == 1);
        assert(j * 1 == j) by {
            lemma_mul_basics(j);
        }
        assert(lin_of(idx, shape) == 0);
        assert(lin_of(idx, shape) * d == 0) by {
            lemma_mul_basics(d as int);
        }
    } else {
        assert(idx.push(j).skip(1) =~= idx.skip(1).push(j));
        assert(shape.push(d).skip(1) =~= shape.skip(1).push(d));
        lemma_lin_of_snoc(idx.skip(1), shape.skip(1), j, d);
        lemma_numel_snoc(shape.skip(1), d);
        let n1 = numel_of(shape.skip(1)) as int;
        let r = lin_of(idx.skip(1), shape.skip(1));
        assert(idx.push(j)[0] == idx[0]);
        assert(lin_of(idx.push(j), shape.push(d)) == idx[0] * (n1 * d) + (r * d + j));
        assert(lin_of(idx, shape) == idx[0] * n1 + r);
        assert(idx[0] * (n1 * d) == (idx[0] * n1) * d) by {
            lemma_mul_is_associative(idx[0], n1, d as int);
        }
        assert((idx[0] * n1) * d + r * d == (idx[0] * n1 + r) * d) by {
            lemma_mul_is_distributive_add_other_way(d as int, idx[0] * n1, r);
        }
    }
}

/// A valid multi-index has a linear position inside the element count.
pub proof fn lemma_lin_of_bounds(idx: Seq<int>, shape: Seq<usize>)
    requires
        in_shape(idx, shape),
    ensures
        0 <= lin_of(idx, shape) < numel_of(shape),
    decreases idx.len(),
{
    if idx.len() > 0 {
        assert(in_shape(idx.skip(1), shape.skip(1))) by {
            assert(forall|i: int|
                0 <= i < idx.skip(1).len() ==> #[trigger] idx.skip(1)[i] == idx[i + 1]);
        }
        lemma_lin_of_bounds(idx.skip(1), shape.skip(1));
        let n1 = numel_of(shape.skip(1)) as int;
        let r = lin_of(idx.skip(1), shape.skip(1));
        assert(idx[0] * n1 + r < numel_of(shape)) by (nonlinear_arith)
            requires
                0 <= idx[0] < shape[0],
                0 <= r < n1,
                numel_of(shape) == (shape[0] as nat) * (n1 as nat),
        ;
        assert(idx[0] * n1 >= 0) by {
            lemma_mul_nonnegative(idx[0], n1);
        }
    }
}

/// The multi-index of a linear position is valid, and converts back.
pub proof fn lemma_idx_of_lin(lin: int, shape: Seq<usize>)
    requires
        0 <= lin < numel_of(shape),
    ensures
        in_shape(idx_of(lin, shape), shape),
        lin_of(idx_of(lin, shape), shape) == lin,
    decreases shape.len(),
{
    if shape.len() == 0 {
        assert(idx_of(lin, shape) =~= Seq::<int>::empty());
    } else {
        let front = shape.drop_last();
        let d = shape.last() as int;
        assert(shape =~= front.push(shape.last()));
        lemma_numel_snoc(front, shape.last());
        if d == 0 {
            assert(numel_of(front) * 0 == 0) by {
                lemma_mul_basics(numel_of(front) as int);
            }
            assert(false);
        }
        assert(0 <= lin / d && lin / d < numel_of(front)) by {
            lemma_div_pos_is_pos(lin, d);
            lemma_mul_is_commutative(numel_of(front) as int, d);
            lemma_multiply_divide_lt(lin, d, numel_of(front) as int);
        }
        lemma_idx_of_lin(lin / d, front);
        let fi = idx_of(lin / d, front);
        lemma_mod_bound(lin, d);
        assert(in_shape(fi.push(lin % d), shape)) by {
            assert(forall|i: int|
                0 <= i < fi.len() ==> #[trigger] fi.push(lin % d)[i] == fi[i]);
        }
        lemma_lin_of_snoc(fi, front, lin % d, shape.last());
        lemma_fundamental_div_mod(lin, d);
    }
}

/// Converting a valid multi-index to a linear position and back is identity.
pub proof fn lemma_idx_of_lin_of(idx: Seq<int>, shape: Seq<usize>)
    requires
        in_shape(idx, shape),
    ensures
        idx_of(lin_of(idx, shape), shape) == idx,
    decreases shape.len(),
{
    if shape.len() == 0 {
        assert(idx_of(lin_of(idx, shape), shape) =~= idx);
    } else {
        let front = shape.drop_last();
        let fidx = idx.drop_last();
        let d = shape.last() as int;
        let last = idx.last();
        assert(in_shape(fidx, front)) by {
            assert(forall|i: int| 0 <= i < fidx.len() ==> #[trigger] fidx[i] == idx[i]);
        }
        assert(idx =~= fidx.push(last));
        assert(shape =~= front.push(shape.last()));
        lemma_lin_of_snoc(fidx, front, last, shape.last());
        lemma_lin_of_bounds(fidx, front);
        let lin = lin_of(idx, shape);
        assert(lin == lin_of(fidx, front) * d + last);
        lemma_fundamental_div_mod_converse(lin, d, lin_of(fidx, front), last);
        lemma_idx_of_lin_of(fidx, front);
        assert(idx_of(lin, shape) == idx_of(lin / d, front).push(lin % d));
        assert(idx_of(lin, shape) =~= idx);
    }
}

pub proof fn lemma_stride_sum_snoc(idx: Seq<int>, strides: Seq<usize>, j: int, s: usize)
    requires
        idx.len() == strides.len(),
    ensures
        stride_sum(idx.push(j), strides.push(s)) == stride_sum(idx, strides) + j * s,
    decreases idx.len(),
{
    if idx.len() == 0 {
        assert(idx.push(j).skip(1) =~= Seq::<int>::empty());
        assert(strides.push(s).skip(1) =~= Seq::<usize>::empty());
        assert(idx.push(j)[0] == j);
        assert(strides.push(s)[0] == s);
        assert(stride_sum(idx.push(j), strides.push(s)) == idx.push(j)[0] * strides.push(s)[0]
            + stride_sum(idx.push(j).skip(1), strides.push(s).skip(1)));
    } else {
        assert(idx.push(j).skip(1) =~= idx.skip(1).push(j));
        assert(strides.push(s).skip(1) =~= strides.skip(1).push(s));
        lemma_stride_sum_snoc(idx.skip(1), strides.skip(1), j, s);
        assert(idx.push(j)[0] == idx[0]);
        assert(strides.push(s)[0] == strides[0]);
    }
}

/// Under row-major strides the displacement is the linear position.
pub proof fn lemma_stride_sum_rm(idx: Seq<int>, shape: Seq<usize>, strides: Seq<usize>)
    requires
        in_shape(idx, shape),
        is_rm_strides(shape, strides),
    ensures
        stride_sum(idx, strides) == lin_of(idx, shape),
    decreases idx.len(),
{
    if idx.len() > 0 {
        assert(in_shape(idx.skip(1), shape.skip(1))) by {
            assert(forall|i: int|
                0 <= i < idx.skip(1).len() ==> #[trigger] idx.skip(1)[i] == idx[i + 1]);
        }
        assert(is_rm_strides(shape.skip(1), strides.skip(1))) by {
            assert(forall|i: int| 0 <= i < shape.skip(1).len() ==> {
                &&& #[trigger] strides.skip(1)[i] == strides[i + 1]
                &&& shape.skip(1).skip(i + 1) =~= shape.skip(i + 2)
            });
        }
        lemma_stride_sum_rm(idx.skip(1), shape.skip(1), strides.skip(1));
        assert(strides[0] as nat == numel_of(shape.skip(1)));
    }
}

/// Every valid multi-index displaces by at most the span, and not negatively.
pub proof fn lemma_stride_sum_le_span(idx: Seq<int>, shape: Seq<usize>, strides: Seq<usize>)
    requires
        in_shape(idx, shape),
        strides.len() == shape.len(),
    ensures
        0 <= stride_sum(idx, strides) <= span_of(shape, strides),
    decreases idx.len(),
{
    if idx.len() == 0 {
        assert(max_idx(shape) =~= Seq::<int>::empty());
    } else {
        assert(in_shape(idx.skip(1), shape.skip(1))) by {
            assert(forall|i: int|
                0 <= i < idx.skip(1).len() ==> #[trigger] idx.skip(1)[i] == idx[i + 1]);
        }
        lemma_stride_sum_le_span(idx.skip(1), shape.skip(1), strides.skip(1));
        assert(max_idx(shape).skip(1) =~= max_idx(shape.skip(1)));
        assert(span_of(shape, strides) == max_idx(shape)[0] * strides[0] + span_of(
            shape.skip(1),
            strides.skip(1),
        ));
        assert(0 <= idx[0] * strides[0] && idx[0] * strides[0] <= max_idx(shape)[0] * strides[0])
            by {
            lemma_mul_nonnegative(idx[0], strides[0] as int);
            lemma_mul_inequality(idx[0], max_idx(shape)[0], strides[0] as int);
        }
    }
}

/// Inserting an index/stride pair adds its term to the displacement.
pub proof fn lemma_stride_sum_insert(idx: Seq<int>, strides: Seq<usize>, pos: int, j: int, s: usize)
    requires
        idx.len() == strides.len(),
        0 <= pos <= idx.len(),
    ensures
        stride_sum(idx.insert(pos, j), strides.insert(pos, s)) == stride_sum(idx, strides) + j * s,
    decreases pos,
{
    if pos == 0 {
        assert(idx.insert(0, j)[0] == j);
        assert(strides.insert(0, s)[0] == s);
        assert(idx.insert(0, j).skip(1) =~= idx);
        assert(strides.insert(0, s).skip(1) =~= strides);
    } else {
        assert(idx.insert(pos, j)[0] == idx[0]);
        assert(strides.insert(pos, s)[0] == strides[0]);
        assert(idx.insert(pos, j).skip(1) =~= idx.skip(1).insert(pos - 1, j));
        assert(strides.insert(pos, s).skip(1) =~= strides.skip(1).insert(pos - 1, s));
        lemma_stride_sum_insert(idx.skip(1), strides.skip(1), pos - 1, j, s);
    }
}

/// Two index/stride pairs with pointwise equal terms displace equally.
pub proof fn lemma_stride_sum_pointwise(
    idx1: Seq<int>,
    s1: Seq<usize>,
    idx2: Seq<int>,
    s2: Seq<usize>,
)
    requires
        idx1.len() == s1.len(),
        idx2.len() == s2.len(),
        idx1.len() == idx2.len(),
        forall|i: int|
            0 <= i < idx1.len() ==> #[trigger] (idx1[i] * s1[i]) == idx2[i] * s2[i],
    ensures
        stride_sum(idx1, s1) == stride_sum(idx2, s2),
    decreases idx1.len(),
{
    if idx1.len() > 0 {
        assert(idx1[0] * s1[0] == idx2[0] * s2[0]);
        assert(forall|i: int|
            0 <= i < idx1.skip(1).len() ==> #[trigger] (idx1.skip(1)[i] * s1.skip(1)[i]) == idx1[i
                + 1] * s1[i + 1]);
        assert(forall|i: int|
            0 <= i < idx2.skip(1).len() ==> #[trigger] (idx2.skip(1)[i] * s2.skip(1)[i]) == idx2[i
                + 1] * s2[i + 1]);
        lemma_stride_sum_pointwise(idx1.skip(1), s1.skip(1), idx2.skip(1), s2.skip(1));
    }
}

/// A prefix whose terms are all zero can be dropped from the displacement.
pub proof fn lemma_stride_sum_skip_zero(idx: Seq<int>, strides: Seq<usize>, pad: int)
    requires
        idx.len() == strides.len(),
        0 <= pad <= idx.len(),
        forall|i: int| 0 <= i < pad ==> #[trigger] (idx[i] * strides[i]) == 0,
    ensures
        stride_sum(idx, strides) == stride_sum(idx.skip(pad), strides.skip(pad)),
    decreases pad,
{
    if pad == 0 {
        assert(idx.skip(0) =~= idx);
        assert(strides.skip(0) =~= strides);
    } else {
        assert(idx[0] * strides[0] == 0);
        assert(forall|i: int|
            0 <= i < pad - 1 ==> #[trigger] (idx.skip(1)[i] * strides.skip(1)[i]) == idx[i + 1]
                * strides[i + 1]);
        lemma_stride_sum_skip_zero(idx.skip(1), strides.skip(1), pad - 1);
        assert(idx.skip(1).skip(pad - 1) =~= idx.skip(pad));
        assert(strides.skip(1).skip(pad - 1) =~= strides.skip(pad));
    }
}

/// Swapping the two trailing entries of both sequences keeps the displacement.
pub proof fn lemma_stride_sum_swap_last2(idx: Seq<int>, strides: Seq<usize>)
    requires
        idx.len() == strides.len(),
        idx.len() >= 2,
    ensures
        stride_sum(idx, strides) == stride_sum(
            idx.update(idx.len() - 2, idx[idx.len() - 1]).update(idx.len() - 1, idx[idx.len() - 2]),
            strides.update(strides.len() - 2, strides[strides.len() - 1]).update(
                strides.len() - 1,
                strides[strides.len() - 2],
            ),
        ),
{
    let n = idx.len() as int;
    let front = idx.take(n - 2);
    let sfront = strides.take(n - 2);
    let a = idx[n - 2];
    let b = idx[n - 1];
    let sa = strides[n - 2];
    let sb = strides[n - 1];
    assert(idx =~= front.push(a).push(b));
    assert(strides =~= sfront.push(sa).push(sb));
    let idx2 = idx.update(n - 2, b).update(n - 1, a);
    let strides2 = strides.update(n - 2, sb).update(n - 1, sa);
    assert(idx2 =~= front.push(b).push(a));
    assert(strides2 =~= sfront.push(sb).push(sa));
    lemma_stride_sum_snoc(front.push(a), sfront.push(sa), b, sb);
    lemma_stride_sum_snoc(front, sfront, a, sa);
    lemma_stride_sum_snoc(front.push(b), sfront.push(sb), a, sa);
    lemma_stride_sum_snoc(front, sfront, b, sb);
}

/// Inserting a dimension multiplies the element count by it.
pub proof fn lemma_numel_insert(s: Seq<usize>, pos: int, d: usize)
    requires
        0 <= pos <= s.len(),
    ensures
        numel_of(s.insert(pos, d)) == numel_of(s) * d,
    decreases pos,
{
    if pos == 0 {
        assert(s.insert(0, d)[0] == d);
        assert(s.insert(0, d).skip(1) =~= s);
        assert((d as nat) * numel_of(s) == numel_of(s) * d) by {
            lemma_mul_is_commutative(d as int, numel_of(s) as int);
        }
    } else {
        assert(s.insert(pos, d)[0] == s[0]);
        assert(s.insert(pos, d).skip(1) =~= s.skip(1).insert(pos - 1, d));
        lemma_numel_insert(s.skip(1), pos - 1, d);
        let a = s[0] as int;
        let b = numel_of(s.skip(1)) as int;
        assert(a * (b * d) == (a * b) * d) by {
            lemma_mul_is_associative(a, b, d as int);
        }
    }
}

/// Displacements of nonnegative indices are nonnegative.
pub proof fn lemma_stride_sum_nonneg(idx: Seq<int>, strides: Seq<usize>)
    requires
        forall|i: int| 0 <= i < idx.len() ==> 0 <= #[trigger] idx[i],
    ensures
        0 <= stride_sum(idx, strides),
    decreases idx.len(),
{
    if idx.len() > 0 {
        assert(forall|i: int| 0 <= i < idx.skip(1).len() ==> #[trigger] idx.skip(1)[i] == idx[i
            + 1]);
        lemma_stride_sum_nonneg(idx.skip(1), strides.skip(1));
        lemma_mul_nonnegative(idx[0], strides[0] as int);
    }
}

/// A prefix of the displacement sum never exceeds the whole.
pub proof fn lemma_stride_sum_prefix(idx: Seq<int>, strides: Seq<usize>, k: int)
    requires
        idx.len() == strides.len(),
        0 <= k < idx.len(),
        forall|i: int| 0 <= i < idx.len() ==> 0 <= #[trigger] idx[i],
    ensures
        stride_sum(idx.take(k + 1), strides.take(k + 1)) == stride_sum(
            idx.take(k),
            strides.take(k),
        ) + idx[k] * strides[k],
        stride_sum(idx.take(k), strides.take(k)) <= stride_sum(idx, strides),
    decreases idx.len() - k,
{
    assert(idx.take(k + 1) =~= idx.take(k).push(idx[k]));
    assert(strides.take(k + 1) =~= strides.take(k).push(strides[k]));
    lemma_stride_sum_snoc(idx.take(k), strides.take(k), idx[k], strides[k]);
    assert(idx[k] * strides[k] >= 0) by {
        lemma_mul_nonnegative(idx[k], strides[k] as int);
    }
    if k + 1 < idx.len() {
        lemma_stride_sum_prefix(idx, strides, k + 1);
    } else {
        assert(idx.take(k + 1) =~= idx);
        assert(strides.take(k + 1) =~= strides);
    }
}

/// The element counts of two shapes agree on any common prefix structure:
/// a suffix bound used to justify overflow checks.
pub proof fn lemma_numel_prefix_le(s: Seq<usize>, k: int)
    requires
        0 <= k <= s.len(),
        forall|i: int| 0 <= i < s.len() ==> #[trigger] s[i] > 0,
    ensures
        numel_of(s.take(k)) <= numel_of(s),
{
    lemma_numel_split(s, k);
    assert(forall|i: int| 0 <= i < s.skip(k).len() ==> #[trigger] s.skip(k)[i] > 0);
    lemma_numel_pos(s.skip(k));
    assert(numel_of(s.take(k)) * 1 <= numel_of(s.take(k)) * numel_of(s.skip(k))) by {
        lemma_mul_inequality(1, numel_of(s.skip(k)) as int, numel_of(s.take(k)) as int);
        lemma_mul_is_commutative(1, numel_of(s.take(k)) as int);
        lemma_mul_is_commutative(numel_of(s.skip(k)) as int, numel_of(s.take(k)) as int);
    }
    assert(numel_of(s.take(k)) * 1 == numel_of(s.take(k))) by {
        lemma_mul_basics(numel_of(s.take(k)) as int);
    }
}

/// Element counts are monotone in the dimensions.
pub proof fn lemma_numel_pointwise_le(s1: Seq<usize>, s2: Seq<usize>)
    requires
        s1.len() == s2.len(),
        forall|i: int| 0 <= i < s1.len() ==> #[trigger] s1[i] <= s2[i],
    ensures
        numel_of(s1) <= numel_of(s2),
    decreases s1.len(),
{
    if s1.len() > 0 {
        assert(forall|i: int|
            0 <= i < s1.skip(1).len() ==> #[trigger] s1.skip(1)[i] == s1[i + 1] && s2.skip(1)[i]
                == s2[i + 1]);
        lemma_numel_pointwise_le(s1.skip(1), s2.skip(1));
        assert((s1[0] as nat) * numel_of(s1.skip(1)) <= (s2[0] as nat) * numel_of(s2.skip(1)))
            by (nonlinear_arith)
            requires
                s1[0] <= s2[0],
                numel_of(s1.skip(1)) <= numel_of(s2.skip(1)),
                0 <= s1[0],
                0 <= numel_of(s1.skip(1)),
        ;
    }
}

/// The product of the dimensions, or `None` when it exceeds the machine range.
pub fn numel_checked(shape: &[usize]) -> (r: Option<usize>)
    ensures
        match r {
            Some(n) => n as nat == numel_of(shape@),
            None => numel_of(shape@) > usize::MAX,
        },
{
    let n = shape.len();
    let mut i: usize = 0;
    while i < n
        invariant
            0 <= i <= n,
            n == shape@.len(),
            forall|j: int| 0 <= j < i ==> #[trigger] shape@[j] > 0,
        decreases n - i,
    {
        if shape[i] == 0 {
            proof {
                lemma_numel_zero_dim(shape@, i as int);
            }
            return Some(0);
        }
        i = i + 1;
    }
    let mut acc: usize = 1;
    let mut k: usize = 0;
    proof {
        assert(shape@.take(0) =~= Seq::<usize>::empty());
    }
    while k < n
        invariant
            0 <= k <= n,
            n == shape@.len(),
            forall|j: int| 0 <= j < n ==> #[trigger] shape@[j] > 0,
            acc as nat == numel_of(shape@.take(k as int)),
        decreases n - k,
    {
        proof {
            assert(shape@.take(k as int).push(shape@[k as int]) =~= shape@.take(k as int + 1));
            lemma_numel_snoc(shape@.take(k as int), shape@[k as int]);
        }
        match acc.checked_mul(shape[k]) {
            Some(p) => {
                acc = p;
            },
            None => {
                proof {
                    lemma_numel_prefix_le(shape@, k as int + 1);
                }
                return None;
            },
        }
        k = k + 1;
    }
    proof {
        assert(shape@.take(n as int) =~= shape@);
    }
    Some(acc)
}

/// Row-major strides of a shape: each entry is the product of the dimensions
/// to its right.
pub fn compute_strides(shape: &[usize]) -> (r: Vec<usize>)
    requires
        forall|i: int| 0 <= i <= shape@.len() ==> numel_of(#[trigger] shape@.skip(i)) <= usize::MAX,
    ensures
        is_rm_strides(shape@, r@),
{
    let n = shape.len();
    let mut rev: Vec<usize> = Vec::new();
    let mut product: usize = 1;
    let mut k: usize = 0;
    proof {
        assert(shape@.skip(n as int) =~= Seq::<usize>::empty());
    }
    while k < n
        invariant
            0 <= k <= n,
            n == shape@.len(),
            forall|i: int|
                0 <= i <= shape@.len() ==> numel_of(#[trigger] shape@.skip(i)) <= usize::MAX,
            product as nat == numel_of(shape@.skip(n - k as int)),
            rev@.len() == k,
            forall|j: int|
                0 <= j < k ==> #[trigger] rev@[j] as nat == numel_of(shape@.skip(n - j)),
        decreases n - k,
    {
        rev.push(product);
        proof {
            let pos = n - k as int - 1;
            assert(shape@.skip(pos) =~= shape@.skip(pos + 1).insert(0, shape@[pos]));
            assert(shape@.skip(pos)[0] == shape@[pos]);
            assert(shape@.skip(pos).skip(1) =~= shape@.skip(pos + 1));
            assert(numel_of(shape@.skip(pos)) == (shape@[pos] as nat) * numel_of(
                shape@.skip(pos + 1),
            ));
        }
        let dim = shape[n - 1 - k];
        proof {
            let pos = n - k as int - 1;
            assert(product as int * dim as int == numel_of(shape@.skip(pos))) by {
                lemma_mul_is_commutative(dim as int, product as int);
            }
            assert(numel_of(shape@.skip(pos)) <= usize::MAX);
        }
        let next = match product.checked_mul(dim) {
            Some(p) => p,
            None => {
                proof {
                    assert(false);
                }
                0
            },
        };
        product = next;
        k = k + 1;
    }
    // reverse the collected suffix products into stride order
    let mut out: Vec<usize> = Vec::new();
    let mut i: usize = 0;
    while i < n
        invariant
            0 <= i <= n,
            n == shape@.len(),
            rev@.len() == n,
            forall|j: int|
                0 <= j < n ==> #[trigger] rev@[j] as nat == numel_of(shape@.skip(n - j)),
            out@.len() == i,
            forall|j: int|
                0 <= j < i ==> #[trigger] out@[j] as nat == numel_of(shape@.skip(j + 1)),
        decreases n - i,
    {
        out.push(rev[n - 1 - i]);
        i = i + 1;
    }
    out
}

/// The multi-index of a row-major linear position in a shape.
pub fn idx_from_lin(shape: &[usize], lin: usize) -> (r: Vec<usize>)
    ensures
        seq_int(r@) == idx_of(lin as int, shape@),
        r@.len() == shape@.len(),
{
    let n = shape.len();
    let mut rev: Vec<usize> = Vec::new();
    let mut cur: usize = lin;
    let mut k: usize = 0;
    proof {
        assert(shape@.take(n as int) =~= shape@);
        assert(rev@.map_values(|x: usize| x as int).reverse() =~= Seq::<int>::empty());
        assert(idx_of(lin as int, shape@) + Seq::<int>::empty() =~= idx_of(lin as int, shape@));
    }
    while k < n
        invariant
            0 <= k <= n,
            n == shape@.len(),
            rev@.len() == k,
            idx_of(lin as int, shape@) == idx_of(cur as int, shape@.take(n - k as int)) + rev@
                .map_values(|x: usize| x as int).reverse(),
        decreases n - k,
    {
        let d = shape[n - 1 - k];
        let ghost pre = shape@.take(n - k as int);
        let ghost revseq = rev@.map_values(|x: usize| x as int).reverse();
        let ghost oldcur = cur as int;
        let v: usize = if d != 0 {
            let m = cur % d;
            cur = cur / d;
            m
        } else {
            0
        };
        rev.push(v);
        proof {
            assert(pre.len() == n - k);
            assert(pre.drop_last() =~= shape@.take(n - k as int - 1));
            assert(pre.last() == shape@[n - 1 - k as int]);
            assert(pre.last() == d);
            if d != 0 {
                assert(cur as int == oldcur / (d as int));
                assert(v as int == oldcur % (d as int));
                assert(idx_of(oldcur, pre) == idx_of(cur as int, pre.drop_last()).push(v as int));
            } else {
                assert(idx_of(oldcur, pre) == idx_of(cur as int, pre.drop_last()).push(0));
            }
            assert(rev@.map_values(|x: usize| x as int).reverse() =~= seq![v as int] + revseq);
            assert(idx_of(cur as int, pre.drop_last()).push(v as int) + revseq =~= idx_of(
                cur as int,
                pre.drop_last(),
            ) + (seq![v as int] + revseq));
        }
        k = k + 1;
    }
    let mut out: Vec<usize> = Vec::new();
    let mut i: usize = 0;
    while i < n
        invariant
            0 <= i <= n,
            n == shape@.len(),
            rev@.len() == n,
            out@.len() == i,
            forall|j: int| 0 <= j < i ==> #[trigger] out@[j] == rev@[n - 1 - j],
        decreases n - i,
    {
        out.push(rev[n - 1 - i]);
        i = i + 1;
    }
    proof {
        assert(shape@.take(0) =~= Seq::<usize>::empty());
        assert(idx_of(cur as int, shape@.take(0)) =~= Seq::<int>::empty());
        let full = rev@.map_values(|x: usize| x as int).reverse();
        assert(seq_int(out@) =~= full);
        assert(idx_of(lin as int, shape@) =~= Seq::<int>::empty() + full);
    }
    out
}

/// Anything with an element count.
pub trait Numel {
    spec fn numel_view(&self) -> Seq<usize>;

    /// The product of the dimensions.
    fn numel(&self) -> (r: usize)
        requires
            numel_of(self.numel_view()) <= usize::MAX,
        ensures
            r as nat == numel_of(self.numel_view()),
    ;
}

impl Numel for [usize] {
    open spec fn numel_view(&self) -> Seq<usize> {
        self@
    }

    fn numel(&self) -> (r: usize) {
        match numel_checked(self) {
            Some(n) => n,
            None => {
                proof {
                    assert(false);
                }
                0
            },
        }
    }
}

impl Numel for Vec<usize> {
    open spec fn numel_view(&self) -> Seq<usize> {
        self@
    }

    fn numel(&self) -> (r: usize) {
        match numel_checked(self.as_slice()) {
            Some(n) => n,
            None => {
                proof {
                    assert(false);
                }
                0
            },
        }
    }
}

} // verus!
