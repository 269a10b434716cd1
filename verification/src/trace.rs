//! The computational graph: an append-only list of nodes recording each
//! forward operation's output value, parent references and gradient rule.
//!
//! Parents always have strictly smaller ids than their children, so the id
//! order is a topological order and the backward sweep can walk ids from the
//! root down to zero, accumulating every gradient contribution into a node
//! before that node's own rule runs.

use crate::rat::{int_rat, rat_add, rat_lt, rat_max, rat_mul, rat_neg, rat_one, rat_recip,
    rat_zero, Rat};
use crate::shape::{in_shape, numel_of, seq_int};
use crate::ops::linalg::{grad_a_dot, grad_b_dot, mm_batch, mm_grad_a_shape, mm_grad_b_shape,
    mm_pa_shape, mm_pb_shape, mm_value_shape, mmh_ok, mmh_req, mmh_shape, mv_grad_b_sum,
    vm_grad_a_sum};
use crate::tensor::{bshape_of, bshape_ok, bsrc_idx, collapse_sum, reduce_cshape, ShapeError,
    Tensor};
use vstd::prelude::*;

verus! {

pub type NodeId = usize;

/// Errors of gradient extraction.
#[derive(Clone, Copy, PartialEq, Eq, Structural, Debug)]
pub enum GradError {
    /// A registered parameter never received a gradient contribution.
    MissingGradient,
}

/// The closed set of elementwise unary operators the trace can record.
#[derive(Clone, Copy, PartialEq, Eq, Structural, Debug)]
pub enum UnaryKind {
    /// `max(x, 0)`.
    Relu,
    /// `x * x`.
    Square,
}

/// Forward value of a unary operator.
pub open spec fn unary_fwd(k: UnaryKind, x: Rat) -> Rat {
    match k {
        UnaryKind::Relu => rat_max(x, rat_zero()),
        UnaryKind::Square => rat_mul(x, x),
    }
}

/// Derivative of a unary operator; the rectifier's derivative at zero is zero.
pub open spec fn unary_bwd(k: UnaryKind, x: Rat) -> Rat {
    match k {
        UnaryKind::Relu => if rat_lt(rat_zero(), x) {
            rat_one()
        } else {
            rat_zero()
        },
        UnaryKind::Square => rat_mul(int_rat(2), x),
    }
}

/// The gradient rule of a recorded operation, capturing owned copies of
/// whatever forward-time values the backward pass needs.
pub enum VjpRule {
    /// Broadcast elementwise sum: each branch reduces the upstream gradient
    /// back to its operand shape.
    AddRule { a_shape: Vec<usize>, b_shape: Vec<usize> },
    /// Broadcast elementwise difference: as for the sum, with the second
    /// branch negated.
    SubRule { a_shape: Vec<usize>, b_shape: Vec<usize> },
    /// Broadcast elementwise product: each branch multiplies the upstream
    /// gradient by the other operand before reducing.
    MulRule { a: Tensor, b: Tensor },
    /// Broadcast elementwise quotient: the backward pass follows the
    /// quotient rule, dividing the upstream gradient by the divisor for the
    /// left branch and scaling by the negated quotient of the divisor's
    /// square for the right one.
    DivRule { a: Tensor, b: Tensor },
    /// Batched matrix product: the upstream gradient multiplies the
    /// transposed opposite operand and the result reduces to each operand's
    /// shape.
    MatMulRule { a: Tensor, b: Tensor },
    /// Mean over all elements: the upstream scalar is scaled by the
    /// reciprocal element count and broadcast to the operand shape.
    MeanRule { x_shape: Vec<usize> },
    /// Elementwise unary operator: the upstream gradient times the
    /// derivative at the captured input.
    UnaryRule { kind: UnaryKind, x: Tensor },
}

/// One step of the recorded computation.
pub struct Node {
    pub value: Tensor,
    pub parents_id: Vec<NodeId>,
    pub vjp: Option<VjpRule>,
    pub is_param: bool,
}

/// Two tensors present the same view of equal buffers.
pub open spec fn tensor_eqv(x: Tensor, y: Tensor) -> bool {
    &&& x.data@ == y.data@
    &&& x.shape@ == y.shape@
    &&& x.strides@ == y.strides@
    &&& x.offset == y.offset
}

/// The captured rule of node `i` is consistent with its parents and value.
pub open spec fn rule_ok(nodes: Seq<Node>, i: int) -> bool {
    let n = nodes[i];
    match n.vjp {
        Option::None => true,
        Option::Some(rule) => match rule {
            VjpRule::AddRule { a_shape, b_shape } => {
                &&& n.parents_id@.len() == 2
                &&& nodes[n.parents_id@[0] as int].value.shape@ == a_shape@
                &&& nodes[n.parents_id@[1] as int].value.shape@ == b_shape@
                &&& bshape_ok(a_shape@, b_shape@)
                &&& n.value.shape@ == bshape_of(a_shape@, b_shape@)
            },
            VjpRule::SubRule { a_shape, b_shape } => {
                &&& n.parents_id@.len() == 2
                &&& nodes[n.parents_id@[0] as int].value.shape@ == a_shape@
                &&& nodes[n.parents_id@[1] as int].value.shape@ == b_shape@
                &&& bshape_ok(a_shape@, b_shape@)
                &&& n.value.shape@ == bshape_of(a_shape@, b_shape@)
            },
            VjpRule::MulRule { a, b } => {
                &&& n.parents_id@.len() == 2
                &&& tensor_eqv(a, nodes[n.parents_id@[0] as int].value)
                &&& tensor_eqv(b, nodes[n.parents_id@[1] as int].value)
                &&& a.wf()
                &&& b.wf()
                &&& bshape_ok(a.shape@, b.shape@)
                &&& n.value.shape@ == bshape_of(a.shape@, b.shape@)
            },
            VjpRule::DivRule { a, b } => {
                &&& n.parents_id@.len() == 2
                &&& tensor_eqv(a, nodes[n.parents_id@[0] as int].value)
                &&& tensor_eqv(b, nodes[n.parents_id@[1] as int].value)
                &&& a.wf()
                &&& b.wf()
                &&& bshape_ok(a.shape@, b.shape@)
                &&& n.value.shape@ == bshape_of(a.shape@, b.shape@)
                &&& forall|idx: Seq<int>|
                    in_shape(idx, b.shape@) ==> (#[trigger] b.elem(idx)).num != 0
            },
            VjpRule::MatMulRule { a, b } => {
                &&& n.parents_id@.len() == 2
                &&& tensor_eqv(a, nodes[n.parents_id@[0] as int].value)
                &&& tensor_eqv(b, nodes[n.parents_id@[1] as int].value)
                &&& a.wf()
                &&& b.wf()
                &&& a.rank() >= 1
                &&& b.rank() >= 1
                &&& mmh_ok(mm_pa_shape(a.shape@), mm_pb_shape(b.shape@))
                &&& mmh_req(mm_pa_shape(a.shape@), mm_pb_shape(b.shape@))
                &&& n.value.shape@ == mm_value_shape(a.shape@, b.shape@)
                &&& 1 <= numel_of(a.shape@)
                &&& 1 <= numel_of(b.shape@)
                &&& numel_of(a.shape@) <= usize::MAX
                &&& numel_of(b.shape@) <= usize::MAX
                &&& numel_of(
                    mm_grad_a_shape(mm_pa_shape(a.shape@), mm_pb_shape(b.shape@)),
                ) <= usize::MAX
                &&& numel_of(
                    mm_grad_b_shape(mm_pa_shape(a.shape@), mm_pb_shape(b.shape@)),
                ) <= usize::MAX
            },
            VjpRule::MeanRule { x_shape } => {
                &&& n.parents_id@.len() == 1
                &&& nodes[n.parents_id@[0] as int].value.shape@ == x_shape@
                &&& 1 <= numel_of(x_shape@)
                &&& numel_of(x_shape@) <= i64::MAX
                &&& numel_of(x_shape@) <= usize::MAX
                &&& n.value.shape@ == Seq::<usize>::empty()
            },
            VjpRule::UnaryRule { kind, x } => {
                &&& n.parents_id@.len() == 1
                &&& tensor_eqv(x, nodes[n.parents_id@[0] as int].value)
                &&& x.wf()
                &&& n.value.shape@ == x.shape@
            },
        },
    }
}

/// Node `i` is well formed inside `nodes`: a well-formed value of positive
/// bounded size, parents with strictly smaller ids, and a consistent rule.
pub open spec fn node_ok(nodes: Seq<Node>, i: int) -> bool {
    let n = nodes[i];
    &&& 0 <= i < nodes.len()
    &&& n.value.wf()
    &&& 1 <= numel_of(n.value.shape@)
    &&& numel_of(n.value.shape@) <= usize::MAX
    &&& forall|j: int|
        0 <= j < n.parents_id@.len() ==> (#[trigger] n.parents_id@[j]) < i
    &&& rule_ok(nodes, i)
}

/// Appending a node does not disturb the well-formedness of earlier nodes.
pub proof fn lemma_node_ok_push(nodes: Seq<Node>, nd: Node, i: int)
    requires
        0 <= i < nodes.len(),
        node_ok(nodes, i),
    ensures
        node_ok(nodes.push(nd), i),
{
    let n2 = nodes.push(nd);
    assert(n2[i] == nodes[i]);
    let n = nodes[i];
    assert forall|j: int| 0 <= j < n.parents_id@.len() implies n2[#[trigger] n.parents_id@[j] as int]
        == nodes[n.parents_id@[j] as int] by {}
}

/// The container: an append-only node list plus the ordered parameter ids.
pub struct Trace {
    nodes: Vec<Node>,
    params_id: Vec<NodeId>,
}

impl Trace {
    /// The recorded nodes, in creation order.
    pub closed spec fn nodes_view(self) -> Seq<Node> {
        self.nodes@
    }

    /// The registered parameter ids, in registration order.
    pub closed spec fn params_view(self) -> Seq<NodeId> {
        self.params_id@
    }

    /// How many nodes have been recorded.
    pub open spec fn node_count(self) -> nat {
        self.nodes_view().len()
    }

    /// Every node is well formed and every parameter id is in range.
    pub open spec fn wf(self) -> bool {
        &&& forall|i: int| 0 <= i < self.nodes_view().len() ==> node_ok(self.nodes_view(), i)
        &&& forall|j: int|
            0 <= j < self.params_view().len() ==> (#[trigger] self.params_view()[j])
                < self.nodes_view().len()
    }

    /// A fresh, empty trace.
    pub fn new() -> (r: Trace)
        ensures
            r.wf(),
            r.node_count() == 0,
            r.params_view() == Seq::<NodeId>::empty(),
    {
        let r = Trace { nodes: Vec::new(), params_id: Vec::new() };
        proof {
            assert(r.params_view() =~= Seq::<NodeId>::empty());
        }
        r
    }

    /// Number of recorded nodes.
    pub fn len(&self) -> (r: usize)
        ensures
            r == self.node_count(),
    {
        self.nodes.len()
    }

    /// Number of registered parameters.
    pub fn param_count(&self) -> (r: usize)
        ensures
            r == self.params_view().len(),
    {
        self.params_id.len()
    }

    /// The id of the parameter registered at position `j`.
    pub fn param_id(&self, j: usize) -> (r: NodeId)
        requires
            j < self.params_view().len(),
        ensures
            r == self.params_view()[j as int],
    {
        self.params_id[j]
    }

    /// The forward value recorded for a node.
    pub fn get_tensor(&self, id: NodeId) -> (r: &Tensor)
        requires
            id < self.node_count(),
        ensures
            *r == self.nodes_view()[id as int].value,
    {
        &self.nodes[id].value
    }

    /// Whether the node was registered as a trainable parameter.
    pub fn is_param(&self, id: NodeId) -> (r: bool)
        requires
            id < self.node_count(),
        ensures
            r == self.nodes_view()[id as int].is_param,
    {
        self.nodes[id].is_param
    }

    /// Append a node; its id is its position in the list.
    pub fn push(&mut self, node: Node) -> (r: NodeId)
        requires
            old(self).wf(),
            node_ok(
                old(self).nodes_view().push(node),
                old(self).nodes_view().len() as int,
            ),
        ensures
            final(self).wf(),
            final(self).nodes_view() == old(self).nodes_view().push(node),
            final(self).params_view() == old(self).params_view(),
            r == old(self).node_count(),
    {
        let id = self.nodes.len();
        let ghost nodes0 = self.nodes@;
        proof {
            assert forall|i: int| 0 <= i < nodes0.push(node).len() implies node_ok(
                nodes0.push(node),
                i,
            ) by {
                if i < nodes0.len() {
                    lemma_node_ok_push(nodes0, node, i);
                }
            }
        }
        self.nodes.push(node);
        proof {
            assert(self.nodes@ == nodes0.push(node));
            assert(forall|i: int|
                0 <= i < self.nodes@.len() ==> node_ok(self.nodes@, i));
            assert forall|j: int| 0 <= j < self.params_id@.len() implies (
            #[trigger] self.params_id@[j]) < self.nodes@.len() by {
                assert(old(self).params_view()[j] < old(self).nodes_view().len());
            }
        }
        id
    }

    /// Register a non-trainable leaf holding `t`.
    pub fn input(&mut self, t: Tensor) -> (r: NodeId)
        requires
            old(self).wf(),
            t.wf(),
            1 <= numel_of(t.shape@),
            numel_of(t.shape@) <= usize::MAX,
        ensures
            final(self).wf(),
            final(self).node_count() == old(self).node_count() + 1,
            final(self).params_view() == old(self).params_view(),
            final(self).nodes_view() == old(self).nodes_view().push(
                final(self).nodes_view().last(),
            ),
            final(self).nodes_view().last().value == t,
            final(self).nodes_view().last().parents_id@ == Seq::<NodeId>::empty(),
            final(self).nodes_view().last().vjp is None,
            !final(self).nodes_view().last().is_param,
            r == old(self).node_count(),
    {
        let node = Node { value: t, parents_id: Vec::new(), vjp: None, is_param: false };
        proof {
            assert(node.parents_id@ =~= Seq::<NodeId>::empty());
        }
        self.push(node)
    }

    /// Register a trainable leaf holding `t` and record its id.
    pub fn param(&mut self, t: Tensor) -> (r: NodeId)
        requires
            old(self).wf(),
            t.wf(),
            1 <= numel_of(t.shape@),
            numel_of(t.shape@) <= usize::MAX,
        ensures
            final(self).wf(),
            final(self).node_count() == old(self).node_count() + 1,
            final(self).params_view() == old(self).params_view().push(
                old(self).node_count() as NodeId,
            ),
            final(self).nodes_view() == old(self).nodes_view().push(
                final(self).nodes_view().last(),
            ),
            final(self).nodes_view().last().value == t,
            final(self).nodes_view().last().parents_id@ == Seq::<NodeId>::empty(),
            final(self).nodes_view().last().vjp is None,
            final(self).nodes_view().last().is_param,
            r == old(self).node_count(),
    {
        let node = Node { value: t, parents_id: Vec::new(), vjp: None, is_param: true };
        proof {
            assert(node.parents_id@ =~= Seq::<NodeId>::empty());
        }
        let id = self.push(node);
        self.params_id.push(id);
        id
    }
}

/// Partial sum of the product-rule gradient: the upstream gradient at each
/// collapse position times the other operand read through broadcasting.
pub open spec fn mul_grad_entry(
    g: Tensor,
    other: Tensor,
    origin: Seq<usize>,
    oidx: Seq<int>,
    k: int,
) -> Rat
    decreases k,
{
    if k <= 0 {
        rat_zero()
    } else {
        let w = crate::tensor::weave_idx(
            oidx,
            crate::shape::idx_of(k - 1, reduce_cshape(g.shape@, origin)),
            g.shape@,
            origin,
        );
        rat_add(
            mul_grad_entry(g, other, origin, oidx, k - 1),
            rat_mul(g.elem(w), other.elem(bsrc_idx(w, other.shape@))),
        )
    }
}

/// A tensor agreeing with the product at every woven index collapses to the
/// product-rule gradient sum.
proof fn lemma_mul_grad_congruence(
    h: Tensor,
    g: Tensor,
    other: Tensor,
    origin: Seq<usize>,
    oidx: Seq<int>,
    k: int,
)
    requires
        h.shape@ == g.shape@,
        forall|c: int|
            0 <= c < k ==> {
                let w = crate::tensor::weave_idx(
                    oidx,
                    #[trigger] crate::shape::idx_of(c, reduce_cshape(g.shape@, origin)),
                    g.shape@,
                    origin,
                );
                h.elem(w) == rat_mul(g.elem(w), other.elem(bsrc_idx(w, other.shape@)))
            },
    ensures
        collapse_sum(h, origin, oidx, k) == mul_grad_entry(g, other, origin, oidx, k),
    decreases k,
{
    if k > 0 {
        lemma_mul_grad_congruence(h, g, other, origin, oidx, k - 1);
        assert(reduce_cshape(h.shape@, origin) == reduce_cshape(g.shape@, origin));
        let w = crate::tensor::weave_idx(
            oidx,
            crate::shape::idx_of(k - 1, reduce_cshape(g.shape@, origin)),
            g.shape@,
            origin,
        );
        assert(h.elem(w) == rat_mul(g.elem(w), other.elem(bsrc_idx(w, other.shape@))));
    }
}

/// `t` is the upstream gradient reduced to the origin shape.
pub open spec fn grad_reduced(g: Tensor, origin: Seq<usize>, t: Tensor) -> bool {
    &&& t.wf()
    &&& t.shape@ == origin
    &&& forall|oidx: Seq<int>|
        in_shape(oidx, origin) ==> #[trigger] t.elem(oidx) == collapse_sum(
            g,
            origin,
            oidx,
            numel_of(reduce_cshape(g.shape@, origin)) as int,
        )
}

/// `t` is the negated reduced upstream gradient.
pub open spec fn grad_reduced_neg(g: Tensor, origin: Seq<usize>, t: Tensor) -> bool {
    &&& t.wf()
    &&& t.shape@ == origin
    &&& forall|oidx: Seq<int>|
        in_shape(oidx, origin) ==> #[trigger] t.elem(oidx) == rat_neg(
            collapse_sum(
                g,
                origin,
                oidx,
                numel_of(reduce_cshape(g.shape@, origin)) as int,
            ),
        )
}

/// `t` is the product-rule gradient for the operand of shape `origin`.
pub open spec fn mul_grad(g: Tensor, other: Tensor, origin: Seq<usize>, t: Tensor) -> bool {
    &&& t.wf()
    &&& t.shape@ == origin
    &&& forall|oidx: Seq<int>|
        in_shape(oidx, origin) ==> #[trigger] t.elem(oidx) == mul_grad_entry(
            g,
            other,
            origin,
            oidx,
            numel_of(reduce_cshape(g.shape@, origin)) as int,
        )
}


/// Partial sum of the quotient-rule gradient for the dividend: the upstream
/// gradient at each collapse position divided by the divisor read through
/// broadcasting.
pub open spec fn div_grad_a_entry(
    g: Tensor,
    b: Tensor,
    origin: Seq<usize>,
    oidx: Seq<int>,
    k: int,
) -> Rat
    decreases k,
{
    if k <= 0 {
        rat_zero()
    } else {
        let w = crate::tensor::weave_idx(
            oidx,
            crate::shape::idx_of(k - 1, reduce_cshape(g.shape@, origin)),
            g.shape@,
            origin,
        );
        rat_add(
            div_grad_a_entry(g, b, origin, oidx, k - 1),
            rat_mul(g.elem(w), rat_recip(b.elem(bsrc_idx(w, b.shape@)))),
        )
    }
}

/// Partial sum of the quotient-rule gradient for the divisor: minus the
/// upstream gradient times the dividend over the divisor's square.
pub open spec fn div_grad_b_entry(
    g: Tensor,
    a: Tensor,
    b: Tensor,
    oidx: Seq<int>,
    k: int,
) -> Rat
    decreases k,
{
    if k <= 0 {
        rat_zero()
    } else {
        let w = crate::tensor::weave_idx(
            oidx,
            crate::shape::idx_of(k - 1, reduce_cshape(g.shape@, b.shape@)),
            g.shape@,
            b.shape@,
        );
        rat_add(
            div_grad_b_entry(g, a, b, oidx, k - 1),
            rat_neg(
                rat_mul(
                    rat_mul(
                        rat_mul(g.elem(w), a.elem(bsrc_idx(w, a.shape@))),
                        rat_recip(b.elem(bsrc_idx(w, b.shape@))),
                    ),
                    rat_recip(b.elem(bsrc_idx(w, b.shape@))),
                ),
            ),
        )
    }
}

/// `t` is the quotient-rule gradient for the dividend of shape `origin`.
pub open spec fn div_grad_a(g: Tensor, b: Tensor, origin: Seq<usize>, t: Tensor) -> bool {
    &&& t.wf()
    &&& t.shape@ == origin
    &&& forall|oidx: Seq<int>|
        in_shape(oidx, origin) ==> #[trigger] t.elem(oidx) == div_grad_a_entry(
            g,
            b,
            origin,
            oidx,
            numel_of(reduce_cshape(g.shape@, origin)) as int,
        )
}

/// `t` is the quotient-rule gradient for the divisor.
pub open spec fn div_grad_b(g: Tensor, a: Tensor, b: Tensor, t: Tensor) -> bool {
    &&& t.wf()
    &&& t.shape@ == b.shape@
    &&& forall|oidx: Seq<int>|
        in_shape(oidx, b.shape@) ==> #[trigger] t.elem(oidx) == div_grad_b_entry(
            g,
            a,
            b,
            oidx,
            numel_of(reduce_cshape(g.shape@, b.shape@)) as int,
        )
}

/// A tensor agreeing with the dividend-gradient term at every woven index
/// collapses to the dividend-gradient sum.
proof fn lemma_div_grad_a_congruence(
    h: Tensor,
    g: Tensor,
    b: Tensor,
    origin: Seq<usize>,
    oidx: Seq<int>,
    k: int,
)
    requires
        h.shape@ == g.shape@,
        forall|c: int|
            0 <= c < k ==> {
                let w = crate::tensor::weave_idx(
                    oidx,
                    #[trigger] crate::shape::idx_of(c, reduce_cshape(g.shape@, origin)),
                    g.shape@,
                    origin,
                );
                h.elem(w) == rat_mul(g.elem(w), rat_recip(b.elem(bsrc_idx(w, b.shape@))))
            },
    ensures
        collapse_sum(h, origin, oidx, k) == div_grad_a_entry(g, b, origin, oidx, k),
    decreases k,
{
    if k > 0 {
        lemma_div_grad_a_congruence(h, g, b, origin, oidx, k - 1);
    }
}

/// A tensor agreeing with the divisor-gradient term at every woven index
/// collapses to the divisor-gradient sum.
proof fn lemma_div_grad_b_congruence(
    h: Tensor,
    g: Tensor,
    a: Tensor,
    b: Tensor,
    oidx: Seq<int>,
    k: int,
)
    requires
        h.shape@ == g.shape@,
        forall|c: int|
            0 <= c < k ==> {
                let w = crate::tensor::weave_idx(
                    oidx,
                    #[trigger] crate::shape::idx_of(c, reduce_cshape(g.shape@, b.shape@)),
                    g.shape@,
                    b.shape@,
                );
                h.elem(w) == rat_neg(
                    rat_mul(
                        rat_mul(
                            rat_mul(g.elem(w), a.elem(bsrc_idx(w, a.shape@))),
                            rat_recip(b.elem(bsrc_idx(w, b.shape@))),
                        ),
                        rat_recip(b.elem(bsrc_idx(w, b.shape@))),
                    ),
                )
            },
    ensures
        collapse_sum(h, b.shape@, oidx, k) == div_grad_b_entry(g, a, b, oidx, k),
    decreases k,
{
    if k > 0 {
        lemma_div_grad_b_congruence(h, g, a, b, oidx, k - 1);
    }
}

/// `t` broadcasts the upstream scalar over `xs`, scaled by the reciprocal
/// element count.
pub open spec fn mean_grad(g: Tensor, xs: Seq<usize>, t: Tensor) -> bool {
    &&& t.wf()
    &&& t.shape@ == xs
    &&& forall|idx: Seq<int>|
        in_shape(idx, xs) ==> #[trigger] t.elem(idx) == rat_mul(
            g.elem(Seq::<int>::empty()),
            rat_recip(int_rat(numel_of(xs) as int)),
        )
}

/// `t` is the upstream gradient times the derivative at the captured input.
pub open spec fn unary_grad(k: UnaryKind, x: Tensor, g: Tensor, t: Tensor) -> bool {
    &&& t.wf()
    &&& t.shape@ == x.shape@
    &&& forall|idx: Seq<int>|
        in_shape(idx, x.shape@) ==> #[trigger] t.elem(idx) == rat_mul(
            unary_bwd(k, x.elem(idx)),
            g.elem(idx),
        )
}

/// What the rule needs of the upstream gradient.
#[verifier::opaque]
pub open spec fn rule_input_ok(rule: VjpRule, gshape: Seq<usize>) -> bool {
    match rule {
        VjpRule::AddRule { a_shape, b_shape } => {
            &&& bshape_ok(a_shape@, b_shape@)
            &&& gshape == bshape_of(a_shape@, b_shape@)
            &&& 1 <= numel_of(a_shape@)
            &&& 1 <= numel_of(b_shape@)
        },
        VjpRule::SubRule { a_shape, b_shape } => {
            &&& bshape_ok(a_shape@, b_shape@)
            &&& gshape == bshape_of(a_shape@, b_shape@)
            &&& 1 <= numel_of(a_shape@)
            &&& 1 <= numel_of(b_shape@)
        },
        VjpRule::MulRule { a, b } => {
            &&& a.wf()
            &&& b.wf()
            &&& bshape_ok(a.shape@, b.shape@)
            &&& gshape == bshape_of(a.shape@, b.shape@)
            &&& 1 <= numel_of(a.shape@)
            &&& 1 <= numel_of(b.shape@)
        },
        VjpRule::DivRule { a, b } => {
            &&& a.wf()
            &&& b.wf()
            &&& bshape_ok(a.shape@, b.shape@)
            &&& gshape == bshape_of(a.shape@, b.shape@)
            &&& 1 <= numel_of(a.shape@)
            &&& 1 <= numel_of(b.shape@)
            &&& forall|idx: Seq<int>|
                in_shape(idx, b.shape@) ==> (#[trigger] b.elem(idx)).num != 0
        },
        VjpRule::MatMulRule { a, b } => {
            &&& a.wf()
            &&& b.wf()
            &&& a.rank() >= 1
            &&& b.rank() >= 1
            &&& mmh_ok(mm_pa_shape(a.shape@), mm_pb_shape(b.shape@))
            &&& mmh_req(mm_pa_shape(a.shape@), mm_pb_shape(b.shape@))
            &&& gshape == mm_value_shape(a.shape@, b.shape@)
            &&& 1 <= numel_of(a.shape@)
            &&& 1 <= numel_of(b.shape@)
            &&& numel_of(a.shape@) <= usize::MAX
            &&& numel_of(b.shape@) <= usize::MAX
            &&& numel_of(
                mm_grad_a_shape(mm_pa_shape(a.shape@), mm_pb_shape(b.shape@)),
            ) <= usize::MAX
            &&& numel_of(
                mm_grad_b_shape(mm_pa_shape(a.shape@), mm_pb_shape(b.shape@)),
            ) <= usize::MAX
        },
        VjpRule::MeanRule { x_shape } => {
            &&& gshape == Seq::<usize>::empty()
            &&& 1 <= numel_of(x_shape@)
            &&& numel_of(x_shape@) <= i64::MAX
            &&& numel_of(x_shape@) <= usize::MAX
        },
        VjpRule::UnaryRule { kind, x } => {
            &&& x.wf()
            &&& gshape == x.shape@
            &&& 1 <= numel_of(x.shape@)
        },
    }
}

/// How many parents the rule feeds.
pub open spec fn rule_arity(rule: VjpRule) -> nat {
    match rule {
        VjpRule::AddRule { .. } => 2,
        VjpRule::SubRule { .. } => 2,
        VjpRule::MulRule { .. } => 2,
        VjpRule::DivRule { .. } => 2,
        VjpRule::MatMulRule { .. } => 2,
        VjpRule::MeanRule { .. } => 1,
        VjpRule::UnaryRule { .. } => 1,
    }
}

/// The gradient contributions the rule produces, positionally matching the
/// node's parents.
#[verifier::opaque]
pub open spec fn vjp_post(rule: VjpRule, g: Tensor, r: Seq<Tensor>) -> bool {
    match rule {
        VjpRule::AddRule { a_shape, b_shape } => {
            &&& grad_reduced(g, a_shape@, r[0])
            &&& grad_reduced(g, b_shape@, r[1])
        },
        VjpRule::SubRule { a_shape, b_shape } => {
            &&& grad_reduced(g, a_shape@, r[0])
            &&& grad_reduced_neg(g, b_shape@, r[1])
        },
        VjpRule::MulRule { a, b } => {
            &&& mul_grad(g, b, a.shape@, r[0])
            &&& mul_grad(g, a, b.shape@, r[1])
        },
        VjpRule::DivRule { a, b } => {
            &&& div_grad_a(g, b, a.shape@, r[0])
            &&& div_grad_b(g, a, b, r[1])
        },
        VjpRule::MatMulRule { a, b } => {
            &&& r[0].wf()
            &&& r[0].shape@ == a.shape@
            &&& r[1].wf()
            &&& r[1].shape@ == b.shape@
            &&& a.rank() >= 2 && b.rank() >= 2 ==> {
                &&& forall|oidx: Seq<int>|
                    in_shape(oidx, a.shape@) ==> #[trigger] r[0].elem(oidx)
                        == crate::ops::linalg::mm_grad_a_sum(
                        g,
                        b,
                        mm_grad_a_shape(a.shape@, b.shape@),
                        a.shape@,
                        oidx,
                        numel_of(
                            reduce_cshape(mm_grad_a_shape(a.shape@, b.shape@), a.shape@),
                        ) as int,
                    )
                &&& forall|oidx: Seq<int>|
                    in_shape(oidx, b.shape@) ==> #[trigger] r[1].elem(oidx)
                        == crate::ops::linalg::mm_grad_b_sum(
                        a,
                        g,
                        mm_grad_b_shape(a.shape@, b.shape@),
                        b.shape@,
                        oidx,
                        numel_of(
                            reduce_cshape(mm_grad_b_shape(a.shape@, b.shape@), b.shape@),
                        ) as int,
                    )
            }
            &&& a.rank() == 1 && b.rank() == 1 ==> {
                &&& forall|q: Seq<int>|
                    in_shape(q, a.shape@) ==> #[trigger] r[0].elem(q) == rat_mul(
                        g.elem(seq![0int, 0int]),
                        b.elem(q),
                    )
                &&& forall|q: Seq<int>|
                    in_shape(q, b.shape@) ==> #[trigger] r[1].elem(q) == rat_mul(
                        a.elem(q),
                        g.elem(seq![0int, 0int]),
                    )
            }
            &&& a.rank() >= 2 && b.rank() == 1 ==> {
                &&& forall|q: Seq<int>|
                    in_shape(q, a.shape@) ==> #[trigger] r[0].elem(q) == rat_mul(
                        g.elem(q.drop_last()),
                        b.elem(seq![q.last()]),
                    )
                &&& forall|q: Seq<int>|
                    in_shape(q, b.shape@) ==> #[trigger] r[1].elem(q) == mv_grad_b_sum(
                        a,
                        g,
                        q[0],
                        numel_of(
                            reduce_cshape(
                                mm_batch(a.shape@).push(a.shape@[a.rank() - 1]).push(1usize),
                                seq![a.shape@[a.rank() - 1], 1usize],
                            ),
                        ) as int,
                    )
            }
            &&& a.rank() == 1 && b.rank() >= 2 ==> {
                &&& forall|q: Seq<int>|
                    in_shape(q, a.shape@) ==> #[trigger] r[0].elem(q) == vm_grad_a_sum(
                        g,
                        b,
                        q[0],
                        numel_of(
                            reduce_cshape(
                                mm_batch(b.shape@).push(1usize).push(b.shape@[b.rank() - 2]),
                                seq![1usize, b.shape@[b.rank() - 2]],
                            ),
                        ) as int,
                    )
                &&& forall|q: Seq<int>|
                    in_shape(q, b.shape@) ==> #[trigger] r[1].elem(q) == rat_mul(
                        a.elem(seq![q[q.len() - 2]]),
                        g.elem(q.take(q.len() - 2).push(q.last())),
                    )
            }
        },
        VjpRule::MeanRule { x_shape } => mean_grad(g, x_shape@, r[0]),
        VjpRule::UnaryRule { kind, x } => unary_grad(kind, x, g, r[0]),
    }
}

/// The product-rule gradient for one operand: multiply the upstream gradient
/// by the other operand elementwise and reduce to the operand shape.
fn mul_branch(g: &Tensor, other: &Tensor, origin: &Vec<usize>) -> (r: Tensor)
    requires
        g.wf(),
        other.wf(),
        numel_of(g.shape@) <= usize::MAX,
        bshape_ok(origin@, other.shape@),
        1 <= numel_of(origin@),
        1 <= numel_of(other.shape@),
        g.shape@ == bshape_of(origin@, other.shape@),
    ensures
        mul_grad(*g, *other, origin@, r),
{
    proof {
        crate::tensor::lemma_numel_pos_dims(origin@);
        crate::tensor::lemma_numel_pos_dims(other.shape@);
        crate::tensor::lemma_grad_reduce_ok(origin@, other.shape@);
        crate::tensor::lemma_bshape_absorb(origin@, other.shape@);
        crate::tensor::lemma_bshape_feasible(origin@, other.shape@);
        crate::tensor::lemma_bshape_self(g.shape@);
    }
    let h = match crate::ops::elementwise::hadamard_mul_direct(g, other) {
        Ok(h) => h,
        Err(_) => {
            proof {
                assert(false);
            }
            Tensor { data: Vec::new(), shape: Vec::new(), strides: Vec::new(), offset: 0 }
        },
    };
    proof {
        assert(h.shape@ == g.shape@);
        assert forall|idx: Seq<int>| in_shape(idx, g.shape@) implies #[trigger] h.elem(idx)
            == rat_mul(g.elem(idx), other.elem(bsrc_idx(idx, other.shape@))) by {
            crate::tensor::lemma_bsrc_self(idx, g.shape@);
        }
    }
    let t = h.sum_over_broadcasted_batches(origin.as_slice());
    proof {
        let kk = numel_of(reduce_cshape(g.shape@, origin@)) as int;
        assert forall|oidx: Seq<int>| in_shape(oidx, origin@) implies #[trigger] t.elem(oidx)
            == mul_grad_entry(*g, *other, origin@, oidx, kk) by {
            assert forall|c: int| 0 <= c < kk implies {
                let w = crate::tensor::weave_idx(
                    oidx,
                    #[trigger] crate::shape::idx_of(c, reduce_cshape(g.shape@, origin@)),
                    g.shape@,
                    origin@,
                );
                h.elem(w) == rat_mul(g.elem(w), other.elem(bsrc_idx(w, other.shape@)))
            } by {
                crate::shape::lemma_idx_of_lin(c, reduce_cshape(g.shape@, origin@));
                crate::tensor::lemma_weave_in_shape(
                    oidx,
                    crate::shape::idx_of(c, reduce_cshape(g.shape@, origin@)),
                    g.shape@,
                    origin@,
                );
            }
            lemma_mul_grad_congruence(h, *g, *other, origin@, oidx, kk);
        }
    }
    t
}


/// The quotient-rule gradient for the dividend: divide the upstream gradient
/// by the broadcast divisor elementwise and reduce to the dividend's shape.
fn div_branch_a(g: &Tensor, b: &Tensor, origin: &Vec<usize>) -> (r: Tensor)
    requires
        g.wf(),
        b.wf(),
        numel_of(g.shape@) <= usize::MAX,
        bshape_ok(origin@, b.shape@),
        1 <= numel_of(origin@),
        1 <= numel_of(b.shape@),
        g.shape@ == bshape_of(origin@, b.shape@),
        forall|idx: Seq<int>| in_shape(idx, b.shape@) ==> (#[trigger] b.elem(idx)).num != 0,
    ensures
        div_grad_a(*g, *b, origin@, r),
{
    proof {
        crate::tensor::lemma_numel_pos_dims(origin@);
        crate::tensor::lemma_numel_pos_dims(b.shape@);
        crate::tensor::lemma_grad_reduce_ok(origin@, b.shape@);
        crate::tensor::lemma_bshape_absorb(origin@, b.shape@);
        crate::tensor::lemma_bshape_feasible(origin@, b.shape@);
        crate::tensor::lemma_bshape_self(g.shape@);
    }
    let h = match crate::ops::elementwise::div_direct(g, b) {
        Ok(h) => h,
        Err(_) => {
            proof {
                assert(false);
            }
            Tensor { data: Vec::new(), shape: Vec::new(), strides: Vec::new(), offset: 0 }
        },
    };
    proof {
        assert(h.shape@ == g.shape@);
        assert forall|idx: Seq<int>| in_shape(idx, g.shape@) implies #[trigger] h.elem(idx)
            == rat_mul(g.elem(idx), rat_recip(b.elem(bsrc_idx(idx, b.shape@)))) by {
            crate::tensor::lemma_bsrc_self(idx, g.shape@);
        }
    }
    let t = h.sum_over_broadcasted_batches(origin.as_slice());
    proof {
        let kk = numel_of(reduce_cshape(g.shape@, origin@)) as int;
        assert forall|oidx: Seq<int>| in_shape(oidx, origin@) implies #[trigger] t.elem(oidx)
            == div_grad_a_entry(*g, *b, origin@, oidx, kk) by {
            assert forall|c: int| 0 <= c < kk implies {
                let w = crate::tensor::weave_idx(
                    oidx,
                    #[trigger] crate::shape::idx_of(c, reduce_cshape(g.shape@, origin@)),
                    g.shape@,
                    origin@,
                );
                h.elem(w) == rat_mul(g.elem(w), rat_recip(b.elem(bsrc_idx(w, b.shape@))))
            } by {
                crate::shape::lemma_idx_of_lin(c, reduce_cshape(g.shape@, origin@));
                crate::tensor::lemma_weave_in_shape(
                    oidx,
                    crate::shape::idx_of(c, reduce_cshape(g.shape@, origin@)),
                    g.shape@,
                    origin@,
                );
            }
            lemma_div_grad_a_congruence(h, *g, *b, origin@, oidx, kk);
        }
    }
    t
}

/// The quotient-rule gradient for the divisor: minus the upstream gradient
/// times the broadcast quotient of dividend and squared divisor, reduced to
/// the divisor's shape.
fn div_branch_b(g: &Tensor, a: &Tensor, b: &Tensor) -> (r: Tensor)
    requires
        g.wf(),
        a.wf(),
        b.wf(),
        numel_of(g.shape@) <= usize::MAX,
        bshape_ok(a.shape@, b.shape@),
        1 <= numel_of(a.shape@),
        1 <= numel_of(b.shape@),
        g.shape@ == bshape_of(a.shape@, b.shape@),
        forall|idx: Seq<int>| in_shape(idx, b.shape@) ==> (#[trigger] b.elem(idx)).num != 0,
    ensures
        div_grad_b(*g, *a, *b, r),
{
    proof {
        crate::tensor::lemma_numel_pos_dims(a.shape@);
        crate::tensor::lemma_numel_pos_dims(b.shape@);
        crate::tensor::lemma_bshape_comm(a.shape@, b.shape@);
        crate::tensor::lemma_grad_reduce_ok(b.shape@, a.shape@);
        crate::tensor::lemma_bshape_absorb(a.shape@, b.shape@);
        crate::tensor::lemma_bshape_absorb(b.shape@, a.shape@);
        crate::tensor::lemma_bshape_feasible(a.shape@, b.shape@);
        crate::tensor::lemma_bshape_self(g.shape@);
    }
    let t1 = match crate::ops::elementwise::hadamard_mul_direct(g, a) {
        Ok(t) => t,
        Err(_) => {
            proof {
                assert(false);
            }
            Tensor { data: Vec::new(), shape: Vec::new(), strides: Vec::new(), offset: 0 }
        },
    };
    let t2 = match crate::ops::elementwise::div_direct(&t1, b) {
        Ok(t) => t,
        Err(_) => {
            proof {
                assert(false);
            }
            Tensor { data: Vec::new(), shape: Vec::new(), strides: Vec::new(), offset: 0 }
        },
    };
    let t3 = match crate::ops::elementwise::div_direct(&t2, b) {
        Ok(t) => t,
        Err(_) => {
            proof {
                assert(false);
            }
            Tensor { data: Vec::new(), shape: Vec::new(), strides: Vec::new(), offset: 0 }
        },
    };
    let f = |v: Rat| -> (z: Rat)
        requires
            v.inv(),
        ensures
            z == rat_neg(v),
            z.inv(),
        { v.neg() };
    let t4 = t3.apply(f);
    proof {
        assert(t1.shape@ == g.shape@);
        assert(t2.shape@ == g.shape@);
        assert(t3.shape@ == g.shape@);
        assert(t4.shape@ == g.shape@);
        assert forall|idx: Seq<int>| in_shape(idx, g.shape@) implies #[trigger] t4.elem(idx)
            == rat_neg(
            rat_mul(
                rat_mul(
                    rat_mul(g.elem(idx), a.elem(bsrc_idx(idx, a.shape@))),
                    rat_recip(b.elem(bsrc_idx(idx, b.shape@))),
                ),
                rat_recip(b.elem(bsrc_idx(idx, b.shape@))),
            ),
        ) by {
            crate::tensor::lemma_bsrc_self(idx, g.shape@);
            assert(t1.elem(idx) == rat_mul(g.elem(idx), a.elem(bsrc_idx(idx, a.shape@))));
            assert(t2.elem(idx) == rat_mul(
                t1.elem(idx),
                rat_recip(b.elem(bsrc_idx(idx, b.shape@))),
            ));
            assert(t3.elem(idx) == rat_mul(
                t2.elem(idx),
                rat_recip(b.elem(bsrc_idx(idx, b.shape@))),
            ));
            assert(f.ensures((t3.elem(idx),), t4.elem(idx)));
        }
    }
    let t = t4.sum_over_broadcasted_batches(b.shape.as_slice());
    proof {
        let kk = numel_of(reduce_cshape(g.shape@, b.shape@)) as int;
        assert forall|oidx: Seq<int>| in_shape(oidx, b.shape@) implies #[trigger] t.elem(oidx)
            == div_grad_b_entry(*g, *a, *b, oidx, kk) by {
            assert forall|c: int| 0 <= c < kk implies {
                let w = crate::tensor::weave_idx(
                    oidx,
                    #[trigger] crate::shape::idx_of(c, reduce_cshape(g.shape@, b.shape@)),
                    g.shape@,
                    b.shape@,
                );
                t4.elem(w) == rat_neg(
                    rat_mul(
                        rat_mul(
                            rat_mul(g.elem(w), a.elem(bsrc_idx(w, a.shape@))),
                            rat_recip(b.elem(bsrc_idx(w, b.shape@))),
                        ),
                        rat_recip(b.elem(bsrc_idx(w, b.shape@))),
                    ),
                )
            } by {
                crate::shape::lemma_idx_of_lin(c, reduce_cshape(g.shape@, b.shape@));
                crate::tensor::lemma_weave_in_shape(
                    oidx,
                    crate::shape::idx_of(c, reduce_cshape(g.shape@, b.shape@)),
                    g.shape@,
                    b.shape@,
                );
            }
            lemma_div_grad_b_congruence(t4, *g, *a, *b, oidx, kk);
        }
    }
    t
}

/// The reduced upstream gradient for one summand of a broadcast sum.
fn reduce_branch(g: &Tensor, origin: &Vec<usize>) -> (r: Tensor)
    requires
        g.wf(),
        crate::tensor::reducible_to(g.shape@, origin@),
        numel_of(origin@) <= usize::MAX,
        numel_of(reduce_cshape(g.shape@, origin@)) <= usize::MAX,
    ensures
        grad_reduced(*g, origin@, r),
{
    g.sum_over_broadcasted_batches(origin.as_slice())
}

/// The negated reduced upstream gradient for the subtrahend of a difference.
fn neg_branch(g: &Tensor, origin: &Vec<usize>) -> (r: Tensor)
    requires
        g.wf(),
        crate::tensor::reducible_to(g.shape@, origin@),
        numel_of(origin@) <= usize::MAX,
        numel_of(reduce_cshape(g.shape@, origin@)) <= usize::MAX,
    ensures
        grad_reduced_neg(*g, origin@, r),
{
    let t0 = g.sum_over_broadcasted_batches(origin.as_slice());
    let f = |v: Rat| -> (z: Rat)
        requires
            v.inv(),
        ensures
            z == rat_neg(v),
            z.inv(),
        { v.neg() };
    let t = t0.apply(f);
    proof {
        assert forall|oidx: Seq<int>| in_shape(oidx, origin@) implies #[trigger] t.elem(oidx)
            == rat_neg(
            collapse_sum(*g, origin@, oidx, numel_of(reduce_cshape(g.shape@, origin@)) as int),
        ) by {
            assert(f.ensures((t0.elem(oidx),), t.elem(oidx)));
        }
    }
    t
}

/// The evenly spread upstream scalar for the operand of a mean.
fn mean_branch(g: &Tensor, x_shape: &Vec<usize>) -> (r: Tensor)
    requires
        g.wf(),
        g.shape@ == Seq::<usize>::empty(),
        1 <= numel_of(x_shape@),
        numel_of(x_shape@) <= i64::MAX,
        numel_of(x_shape@) <= usize::MAX,
    ensures
        mean_grad(*g, x_shape@, r),
{
    let n = match crate::shape::numel_checked(x_shape.as_slice()) {
        Some(n) => n,
        None => {
            proof {
                assert(false);
            }
            0
        },
    };
    let scale = Rat::from_int(n as i64).recip();
    let f = |v: Rat| -> (z: Rat)
        requires
            v.inv(),
        ensures
            z == rat_mul(v, scale),
            z.inv(),
        { v.mul(scale) };
    let scaled = g.apply(f);
    match scaled.broadcast_view(x_shape.as_slice()) {
        Ok(t) => {
            proof {
                crate::tensor::lemma_numel_pos_dims(x_shape@);
                assert(t.shape@ =~= x_shape@);
                assert forall|idx: Seq<int>| in_shape(idx, x_shape@) implies #[trigger] t.elem(idx)
                    == rat_mul(
                    g.elem(Seq::<int>::empty()),
                    rat_recip(int_rat(numel_of(x_shape@) as int)),
                ) by {
                    assert(bsrc_idx(idx, scaled.shape@) =~= Seq::<int>::empty());
                    assert(in_shape(Seq::<int>::empty(), scaled.shape@));
                    assert(f.ensures(
                        (g.elem(Seq::<int>::empty()),),
                        scaled.elem(Seq::<int>::empty()),
                    ));
                }
            }
            t
        },
        Err(_) => {
            proof {
                assert(crate::tensor::can_broadcast_to(scaled.shape@, x_shape@));
                assert(false);
            }
            Tensor { data: Vec::new(), shape: Vec::new(), strides: Vec::new(), offset: 0 }
        },
    }
}

/// Evaluate the derivative of a unary operator.
fn unary_bwd_exec(k: UnaryKind, x: Rat) -> (r: Rat)
    requires
        x.inv(),
    ensures
        r == unary_bwd(k, x),
        r.inv(),
{
    match k {
        UnaryKind::Relu => {
            if Rat::zero().lt(x) {
                Rat::one()
            } else {
                Rat::zero()
            }
        },
        UnaryKind::Square => Rat::from_int(2).mul(x),
    }
}

/// The upstream gradient times the derivative at the captured input.
fn unary_branch(k: UnaryKind, x: &Tensor, g: &Tensor) -> (r: Tensor)
    requires
        x.wf(),
        g.wf(),
        g.shape@ == x.shape@,
        1 <= numel_of(x.shape@),
        numel_of(x.shape@) <= usize::MAX,
    ensures
        unary_grad(k, *x, *g, r),
{
    let f = |v: Rat| -> (z: Rat)
        requires
            v.inv(),
        ensures
            z == unary_bwd(k, v),
            z.inv(),
        { unary_bwd_exec(k, v) };
    let d = x.apply(f);
    proof {
        crate::tensor::lemma_bshape_self(x.shape@);
    }
    match crate::ops::elementwise::hadamard_mul_direct(&d, g) {
        Ok(h) => {
            proof {
                assert(h.shape@ == x.shape@);
                assert forall|idx: Seq<int>| in_shape(idx, x.shape@) implies #[trigger] h.elem(idx)
                    == rat_mul(unary_bwd(k, x.elem(idx)), g.elem(idx)) by {
                    crate::tensor::lemma_bsrc_self(idx, x.shape@);
                    assert(f.ensures((x.elem(idx),), d.elem(idx)));
                }
            }
            h
        },
        Err(_) => {
            proof {
                assert(false);
            }
            Tensor { data: Vec::new(), shape: Vec::new(), strides: Vec::new(), offset: 0 }
        },
    }
}

/// Run a node's gradient rule: compute one contribution per parent from the
/// accumulated upstream gradient.
fn vjp_contribs(rule: &VjpRule, g: &Tensor) -> (r: Vec<Tensor>)
    requires
        g.wf(),
        1 <= numel_of(g.shape@),
        numel_of(g.shape@) <= usize::MAX,
        rule_input_ok(*rule, g.shape@),
    ensures
        r@.len() == rule_arity(*rule),
        vjp_post(*rule, *g, r@),
{
    proof {
        reveal(rule_input_ok);
        reveal(vjp_post);
    }
    match rule {
        VjpRule::AddRule { a_shape, b_shape } => {
            proof {
                crate::tensor::lemma_numel_pos_dims(a_shape@);
                crate::tensor::lemma_numel_pos_dims(b_shape@);
                crate::tensor::lemma_grad_reduce_ok(a_shape@, b_shape@);
            }
            let ga = reduce_branch(g, a_shape);
            let gb = reduce_branch(g, b_shape);
            let mut out: Vec<Tensor> = Vec::new();
            out.push(ga);
            out.push(gb);
            out
        },
        VjpRule::SubRule { a_shape, b_shape } => {
            proof {
                crate::tensor::lemma_numel_pos_dims(a_shape@);
                crate::tensor::lemma_numel_pos_dims(b_shape@);
                crate::tensor::lemma_grad_reduce_ok(a_shape@, b_shape@);
            }
            let ga = reduce_branch(g, a_shape);
            let gb = neg_branch(g, b_shape);
            let mut out: Vec<Tensor> = Vec::new();
            out.push(ga);
            out.push(gb);
            out
        },
        VjpRule::MulRule { a, b } => {
            proof {
                crate::tensor::lemma_bshape_comm(a.shape@, b.shape@);
            }
            let ga = mul_branch(g, b, &a.shape);
            let gb = mul_branch(g, a, &b.shape);
            let mut out: Vec<Tensor> = Vec::new();
            out.push(ga);
            out.push(gb);
            out
        },
        VjpRule::DivRule { a, b } => {
            proof {
                crate::tensor::lemma_bshape_comm(a.shape@, b.shape@);
            }
            let ga = div_branch_a(g, b, &a.shape);
            let gb = div_branch_b(g, a, b);
            let mut out: Vec<Tensor> = Vec::new();
            out.push(ga);
            out.push(gb);
            out
        },
        VjpRule::MatMulRule { a, b } => {
            let (ga, gb) = crate::ops::linalg::matmul_vjp(a, b, g);
            let mut out: Vec<Tensor> = Vec::new();
            out.push(ga);
            out.push(gb);
            out
        },
        VjpRule::MeanRule { x_shape } => {
            let gx = mean_branch(g, x_shape);
            let mut out: Vec<Tensor> = Vec::new();
            out.push(gx);
            out
        },
        VjpRule::UnaryRule { kind, x } => {
            let gx = unary_branch(*kind, x, g);
            let mut out: Vec<Tensor> = Vec::new();
            out.push(gx);
            out
        },
    }
}

/// The forward value recorded at a node.
pub open spec fn node_value(tr: Trace, id: NodeId) -> Tensor {
    tr.nodes_view()[id as int].value
}

/// The shape of the forward value recorded at a node.
pub open spec fn node_shape(tr: Trace, id: NodeId) -> Seq<usize> {
    node_value(tr, id).shape@
}

/// The trace after an operator: one node appended, parameters untouched.
pub open spec fn appended(t0: Trace, t1: Trace) -> bool {
    &&& t1.wf()
    &&& t1.node_count() == t0.node_count() + 1
    &&& t1.nodes_view() == t0.nodes_view().push(t1.nodes_view().last())
    &&& t1.params_view() == t0.params_view()
}

/// Node `c` feeds a gradient contribution to node `k`.
pub open spec fn grad_step(nodes: Seq<Node>, c: int, k: int) -> bool {
    &&& 0 <= c < nodes.len()
    &&& nodes[c].vjp is Some
    &&& exists|j: int|
        0 <= j < nodes[c].parents_id@.len() && #[trigger] nodes[c].parents_id@[j] as int == k
}

/// Node `k` accumulates a gradient when the backward sweep from `root` has
/// processed every id above `cut`: either `k` is the root, or some processed
/// node with a rule lists `k` as a parent and itself accumulates a gradient.
pub open spec fn has_grad_cut(nodes: Seq<Node>, root: int, k: int, cut: int) -> bool
    decreases root - k,
{
    if k == root {
        true
    } else if !(0 <= k && k < root) {
        false
    } else {
        exists|c: int|
            k < c <= root && cut < c && #[trigger] grad_step(nodes, c, k) && has_grad_cut(
                nodes,
                root,
                c,
                cut,
            )
    }
}

/// Node `k` receives a gradient from the complete backward sweep.
pub open spec fn has_grad(nodes: Seq<Node>, root: int, k: int) -> bool {
    has_grad_cut(nodes, root, k, -1)
}

/// The cut does not matter below the node in question.
proof fn lemma_cut_low(nodes: Seq<Node>, root: int, k: int, cut1: int, cut2: int)
    requires
        cut1 <= k,
        cut2 <= k,
    ensures
        has_grad_cut(nodes, root, k, cut1) == has_grad_cut(nodes, root, k, cut2),
    decreases root - k,
{
    if k == root || !(0 <= k && k < root) {
    } else {
        assert forall|c: int|
            k < c <= root && cut1 < c && #[trigger] grad_step(nodes, c, k) && has_grad_cut(
                nodes,
                root,
                c,
                cut1,
            ) implies has_grad_cut(nodes, root, k, cut2) by {
            lemma_cut_low(nodes, root, c, cut1, cut2);
        }
        assert forall|c: int|
            k < c <= root && cut2 < c && #[trigger] grad_step(nodes, c, k) && has_grad_cut(
                nodes,
                root,
                c,
                cut2,
            ) implies has_grad_cut(nodes, root, k, cut1) by {
            lemma_cut_low(nodes, root, c, cut2, cut1);
        }
    }
}

/// Processing node `id` moves the cut down by one: a node accumulates a
/// gradient below cut `id - 1` exactly when it already did below cut `id`, or
/// `id` itself holds a gradient, has a rule, and lists it as a parent.
proof fn lemma_cut_step(nodes: Seq<Node>, root: int, k: int, id: int)
    requires
        0 <= id <= root,
        root < nodes.len(),
        forall|i: int| 0 <= i < nodes.len() ==> node_ok(nodes, i),
    ensures
        has_grad_cut(nodes, root, k, id - 1) == (has_grad_cut(nodes, root, k, id) || (grad_step(
            nodes,
            id,
            k,
        ) && has_grad_cut(nodes, root, id, id))),
    decreases root - k,
{
    if k == root {
    } else if !(0 <= k && k < root) {
        // a parent id is nonnegative and below its child, so grad_step from a
        // well-formed node never reaches k outside the range
        if grad_step(nodes, id, k) {
            let j = choose|j: int|
                0 <= j < nodes[id].parents_id@.len() && #[trigger] nodes[id].parents_id@[j] as int
                    == k;
            assert(node_ok(nodes, id));
            assert(nodes[id].parents_id@[j] < id);
        }
    } else {
        // left to right
        if has_grad_cut(nodes, root, k, id - 1) {
            let c = choose|c: int|
                k < c <= root && id - 1 < c && #[trigger] grad_step(nodes, c, k) && has_grad_cut(
                    nodes,
                    root,
                    c,
                    id - 1,
                );
            if c == id {
                lemma_cut_low(nodes, root, id, id - 1, id);
                assert(grad_step(nodes, id, k) && has_grad_cut(nodes, root, id, id));
            } else {
                assert(c > id);
                lemma_cut_step(nodes, root, c, id);
                if grad_step(nodes, id, c) {
                    let j = choose|j: int|
                        0 <= j < nodes[id].parents_id@.len()
                            && #[trigger] nodes[id].parents_id@[j] as int == c;
                    assert(node_ok(nodes, id));
                    assert(nodes[id].parents_id@[j] < id);
                    assert(false);
                }
                assert(has_grad_cut(nodes, root, c, id));
                assert(has_grad_cut(nodes, root, k, id));
            }
        }
        // right to left
        if has_grad_cut(nodes, root, k, id) {
            let c = choose|c: int|
                k < c <= root && id < c && #[trigger] grad_step(nodes, c, k) && has_grad_cut(
                    nodes,
                    root,
                    c,
                    id,
                );
            lemma_cut_step(nodes, root, c, id);
            assert(has_grad_cut(nodes, root, c, id - 1));
            assert(has_grad_cut(nodes, root, k, id - 1));
        }
        if grad_step(nodes, id, k) && has_grad_cut(nodes, root, id, id) {
            lemma_cut_low(nodes, root, id, id, id - 1);
            let j = choose|j: int|
                0 <= j < nodes[id].parents_id@.len() && #[trigger] nodes[id].parents_id@[j] as int
                    == k;
            assert(node_ok(nodes, id));
            assert(nodes[id].parents_id@[j] < id);
            assert(k < id);
            assert(has_grad_cut(nodes, root, k, id - 1));
        }
    }
}

/// Topological validity of the backward order: in any id list with the
/// properties `Trace::order` ensures, every parent of a listed node appears
/// strictly later than the node itself.  Contributions flow from a node to
/// its parents, so each node's gradient is fully accumulated before the
/// traversal reaches that node's own rule.
pub proof fn lemma_order_topological(tr: Trace, root: NodeId, r: Seq<NodeId>, k: int, j: int)
    requires
        tr.wf(),
        root < tr.node_count(),
        forall|t: int| 0 <= t < r.len() ==> (#[trigger] r[t]) <= root,
        forall|t1: int, t2: int| 0 <= t1 < t2 < r.len() ==> r[t1] > r[t2],
        forall|t: int|
            0 <= t < r.len() ==> reachable(tr.nodes_view(), root as int, #[trigger] r[t] as int),
        forall|i: int|
            0 <= i <= root && reachable(tr.nodes_view(), root as int, i) ==> r.map_values(
                |x: NodeId| x as int,
            ).contains(i),
        0 <= k < r.len(),
        0 <= j < tr.nodes_view()[r[k] as int].parents_id@.len(),
    ensures
        exists|k2: int|
            k < k2 < r.len() && #[trigger] r[k2] == tr.nodes_view()[r[k] as int].parents_id@[j],
{
    let nv = tr.nodes_view();
    let n = r[k] as int;
    let p = nv[n].parents_id@[j] as int;
    assert(node_ok(nv, n));
    assert(p < n);
    assert(parent_edge(nv, n, p)) by {
        assert(nv[n].parents_id@[j] as int == p);
    }
    assert(reachable(nv, root as int, p)) by {
        assert(p < n <= root && parent_edge(nv, n, p) && reachable(nv, root as int, n));
    }
    let m = r.map_values(|x: NodeId| x as int);
    assert(m.contains(p));
    let w = choose|w: int| 0 <= w < m.len() && m[w] == p;
    assert(r[w] as int == p);
    if w <= k {
        if w < k {
            assert(r[w] > r[k]);
        }
        assert(false);
    }
    assert(k < w < r.len() && r[w] == nv[r[k] as int].parents_id@[j]);
}


/// The contribution node `c`'s rule sends to its parent at position `j`, at
/// index `idx` of that parent's shape, given `c`'s accumulated gradient `gc`.
#[verifier::opaque]
pub open spec fn contrib_elem(nodes: Seq<Node>, gc: Tensor, c: int, j: int, idx: Seq<int>) -> Rat {
    match nodes[c].vjp {
        Option::Some(rule) => match rule {
            VjpRule::AddRule { a_shape, b_shape } => if j == 0 {
                collapse_sum(
                    gc,
                    a_shape@,
                    idx,
                    numel_of(reduce_cshape(gc.shape@, a_shape@)) as int,
                )
            } else {
                collapse_sum(
                    gc,
                    b_shape@,
                    idx,
                    numel_of(reduce_cshape(gc.shape@, b_shape@)) as int,
                )
            },
            VjpRule::SubRule { a_shape, b_shape } => if j == 0 {
                collapse_sum(
                    gc,
                    a_shape@,
                    idx,
                    numel_of(reduce_cshape(gc.shape@, a_shape@)) as int,
                )
            } else {
                rat_neg(
                    collapse_sum(
                        gc,
                        b_shape@,
                        idx,
                        numel_of(reduce_cshape(gc.shape@, b_shape@)) as int,
                    ),
                )
            },
            VjpRule::MulRule { a, b } => if j == 0 {
                mul_grad_entry(
                    gc,
                    b,
                    a.shape@,
                    idx,
                    numel_of(reduce_cshape(gc.shape@, a.shape@)) as int,
                )
            } else {
                mul_grad_entry(
                    gc,
                    a,
                    b.shape@,
                    idx,
                    numel_of(reduce_cshape(gc.shape@, b.shape@)) as int,
                )
            },
            VjpRule::DivRule { a, b } => if j == 0 {
                div_grad_a_entry(
                    gc,
                    b,
                    a.shape@,
                    idx,
                    numel_of(reduce_cshape(gc.shape@, a.shape@)) as int,
                )
            } else {
                div_grad_b_entry(
                    gc,
                    a,
                    b,
                    idx,
                    numel_of(reduce_cshape(gc.shape@, b.shape@)) as int,
                )
            },
            VjpRule::MatMulRule { a, b } => if a.rank() >= 2 && b.rank() >= 2 {
                if j == 0 {
                    crate::ops::linalg::mm_grad_a_sum(
                        gc,
                        b,
                        mm_grad_a_shape(a.shape@, b.shape@),
                        a.shape@,
                        idx,
                        numel_of(
                            reduce_cshape(mm_grad_a_shape(a.shape@, b.shape@), a.shape@),
                        ) as int,
                    )
                } else {
                    crate::ops::linalg::mm_grad_b_sum(
                        a,
                        gc,
                        mm_grad_b_shape(a.shape@, b.shape@),
                        b.shape@,
                        idx,
                        numel_of(
                            reduce_cshape(mm_grad_b_shape(a.shape@, b.shape@), b.shape@),
                        ) as int,
                    )
                }
            } else if a.rank() == 1 && b.rank() == 1 {
                if j == 0 {
                    rat_mul(gc.elem(seq![0int, 0int]), b.elem(idx))
                } else {
                    rat_mul(a.elem(idx), gc.elem(seq![0int, 0int]))
                }
            } else if b.rank() == 1 {
                if j == 0 {
                    rat_mul(gc.elem(idx.drop_last()), b.elem(seq![idx.last()]))
                } else {
                    mv_grad_b_sum(
                        a,
                        gc,
                        idx[0],
                        numel_of(
                            reduce_cshape(
                                mm_batch(a.shape@).push(a.shape@[a.rank() - 1]).push(1usize),
                                seq![a.shape@[a.rank() - 1], 1usize],
                            ),
                        ) as int,
                    )
                }
            } else {
                if j == 0 {
                    vm_grad_a_sum(
                        gc,
                        b,
                        idx[0],
                        numel_of(
                            reduce_cshape(
                                mm_batch(b.shape@).push(1usize).push(b.shape@[b.rank() - 2]),
                                seq![1usize, b.shape@[b.rank() - 2]],
                            ),
                        ) as int,
                    )
                } else {
                    rat_mul(
                        a.elem(seq![idx[idx.len() - 2]]),
                        gc.elem(idx.take(idx.len() - 2).push(idx.last())),
                    )
                }
            },
            VjpRule::MeanRule { x_shape } => rat_mul(
                gc.elem(Seq::<int>::empty()),
                rat_recip(int_rat(numel_of(x_shape@) as int)),
            ),
            VjpRule::UnaryRule { kind, x } => rat_mul(unary_bwd(kind, x.elem(idx)), gc.elem(idx)),
        },
        Option::None => rat_zero(),
    }
}

/// Fold node `c`'s first `j` parent positions into the accumulator for slot
/// `k`: positions listing `k` add their contribution, in position order.
pub open spec fn pos_fold(
    nodes: Seq<Node>,
    gc: Tensor,
    c: int,
    k: int,
    idx: Seq<int>,
    j: int,
    acc: Rat,
) -> Rat
    decreases j,
{
    if j <= 0 {
        acc
    } else {
        let prev = pos_fold(nodes, gc, c, k, idx, j - 1, acc);
        if nodes[c].parents_id@[j - 1] as int == k {
            rat_add(prev, contrib_elem(nodes, gc, c, j - 1, idx))
        } else {
            prev
        }
    }
}

/// The value of slot `k` at index `idx` once the backward sweep from `root`
/// has run the rules of nodes `c..root`, starting from the seed: one at the
/// root, zero elsewhere.  A node's rule runs exactly when the node itself
/// accumulated a gradient.
pub open spec fn slot_value(
    nodes: Seq<Node>,
    gm: Seq<Tensor>,
    root: int,
    k: int,
    idx: Seq<int>,
    c: int,
) -> Rat
    decreases root + 1 - c,
{
    if c > root {
        if k == root {
            rat_one()
        } else {
            rat_zero()
        }
    } else {
        let upper = slot_value(nodes, gm, root, k, idx, c + 1);
        if c > k && nodes[c].vjp is Some && has_grad(nodes, root, c) {
            pos_fold(nodes, gm[c], c, k, idx, nodes[c].parents_id@.len() as int, upper)
        } else {
            upper
        }
    }
}

/// A gradient assignment of the backward sweep: every slot that accumulates
/// a gradient holds exactly the ordered sum of the contributions of the
/// reached rules above it, seeded with ones at the root.
pub open spec fn grads_model_ok(nodes: Seq<Node>, root: int, gm: Seq<Tensor>) -> bool {
    &&& gm.len() == nodes.len()
    &&& forall|k: int|
        0 <= k <= root && has_grad(nodes, root, k) ==> {
            let t = #[trigger] gm[k];
            &&& t.wf()
            &&& t.shape@ == nodes[k].value.shape@
            &&& forall|idx: Seq<int>|
                in_shape(idx, t.shape@) ==> #[trigger] t.elem(idx) == slot_value(
                    nodes,
                    gm,
                    root,
                    k,
                    idx,
                    k + 1,
                )
        }
}

/// The slot value reads only the model entries of the nodes it folds.
proof fn lemma_slot_frame(
    nodes: Seq<Node>,
    gm1: Seq<Tensor>,
    gm2: Seq<Tensor>,
    root: int,
    k: int,
    idx: Seq<int>,
    c: int,
)
    requires
        forall|t: int| c <= t <= root ==> #[trigger] gm2[t] == gm1[t],
    ensures
        slot_value(nodes, gm1, root, k, idx, c) == slot_value(nodes, gm2, root, k, idx, c),
    decreases root + 1 - c,
{
    if c <= root {
        lemma_slot_frame(nodes, gm1, gm2, root, k, idx, c + 1);
    }
}

/// Nodes at or below the slot contribute nothing to it.
proof fn lemma_slot_low(
    nodes: Seq<Node>,
    gm: Seq<Tensor>,
    root: int,
    k: int,
    idx: Seq<int>,
    c: int,
)
    requires
        c <= k + 1,
    ensures
        slot_value(nodes, gm, root, k, idx, c) == slot_value(nodes, gm, root, k, idx, k + 1),
    decreases k + 1 - c,
{
    if c <= k && c <= root {
        lemma_slot_low(nodes, gm, root, k, idx, c + 1);
    }
}

/// Folding positions that never list the slot leaves the accumulator alone.
proof fn lemma_pos_fold_nomatch(
    nodes: Seq<Node>,
    gc: Tensor,
    c: int,
    k: int,
    idx: Seq<int>,
    j: int,
    acc: Rat,
)
    requires
        forall|jj: int| 0 <= jj < j ==> (#[trigger] nodes[c].parents_id@[jj]) as int != k,
    ensures
        pos_fold(nodes, gc, c, k, idx, j, acc) == acc,
    decreases j,
{
    if j > 0 {
        lemma_pos_fold_nomatch(nodes, gc, c, k, idx, j - 1, acc);
    }
}

/// A slot that accumulates no gradient under the cut stays at its zero seed.
proof fn lemma_slot_untouched(
    nodes: Seq<Node>,
    gm: Seq<Tensor>,
    root: int,
    k: int,
    idx: Seq<int>,
    cut: int,
    c: int,
)
    requires
        0 <= k,
        k != root,
        root < nodes.len(),
        forall|i: int| 0 <= i < nodes.len() ==> node_ok(nodes, i),
        !has_grad_cut(nodes, root, k, cut),
        cut < c,
    ensures
        slot_value(nodes, gm, root, k, idx, c) == rat_zero(),
    decreases root + 1 - c,
{
    if c <= root {
        lemma_slot_untouched(nodes, gm, root, k, idx, cut, c + 1);
        if c > k && nodes[c].vjp is Some && has_grad(nodes, root, c) {
            assert forall|jj: int|
                0 <= jj < nodes[c].parents_id@.len() implies (
            #[trigger] nodes[c].parents_id@[jj]) as int != k by {
                if nodes[c].parents_id@[jj] as int == k {
                    assert(grad_step(nodes, c, k));
                    lemma_cut_low(nodes, root, c, -1, cut);
                    assert(has_grad_cut(nodes, root, c, cut));
                    assert(has_grad_cut(nodes, root, k, cut));
                    assert(false);
                }
            }
            lemma_pos_fold_nomatch(
                nodes,
                gm[c],
                c,
                k,
                idx,
                nodes[c].parents_id@.len() as int,
                slot_value(nodes, gm, root, k, idx, c + 1),
            );
        }
    }
}

impl Trace {
    /// Accumulate a gradient contribution into a slot: the first contribution
    /// fills the slot, later ones are added elementwise.
    pub fn accum(slot: &mut Option<Tensor>, delta: Tensor)
        requires
            delta.wf(),
            numel_of(delta.shape@) <= usize::MAX,
            match *old(slot) {
                Option::None => true,
                Option::Some(t) => t.wf() && t.shape@ == delta.shape@,
            },
        ensures
            match *final(slot) {
                Option::None => false,
                Option::Some(t) => {
                    &&& t.wf()
                    &&& t.shape@ == delta.shape@
                    &&& match *old(slot) {
                        Option::None => forall|idx: Seq<int>|
                            in_shape(idx, delta.shape@) ==> #[trigger] t.elem(idx) == delta.elem(
                                idx,
                            ),
                        Option::Some(prev) => forall|idx: Seq<int>|
                            in_shape(idx, delta.shape@) ==> #[trigger] t.elem(idx) == rat_add(
                                prev.elem(idx),
                                delta.elem(idx),
                            ),
                    }
                },
            },
    {
        let updated: Tensor = match slot {
            None => delta,
            Some(prev) => {
                proof {
                    crate::tensor::lemma_bshape_self(delta.shape@);
                }
                match crate::ops::elementwise::add_direct(prev, &delta) {
                    Ok(t) => {
                        proof {
                            assert(t.shape@ == delta.shape@);
                            assert forall|idx: Seq<int>| in_shape(idx, delta.shape@) implies
                                #[trigger] t.elem(idx) == rat_add(
                                old(slot)->Some_0.elem(idx),
                                delta.elem(idx),
                            ) by {
                                crate::tensor::lemma_bsrc_self(idx, delta.shape@);
                            }
                        }
                        t
                    },
                    Err(_) => {
                        proof {
                            assert(false);
                        }
                        Tensor {
                            data: Vec::new(),
                            shape: Vec::new(),
                            strides: Vec::new(),
                            offset: 0,
                        }
                    },
                }
            },
        };
        *slot = Some(updated);
    }
}

/// Node `k` is reachable from `root` through parent references.
pub open spec fn reachable(nodes: Seq<Node>, root: int, k: int) -> bool
    decreases root - k,
{
    if k == root {
        true
    } else if !(0 <= k && k < root) {
        false
    } else {
        exists|c: int|
            k < c <= root && #[trigger] parent_edge(nodes, c, k) && reachable(nodes, root, c)
    }
}

/// Node `c` lists `k` among its parents.
pub open spec fn parent_edge(nodes: Seq<Node>, c: int, k: int) -> bool {
    &&& 0 <= c < nodes.len()
    &&& exists|j: int|
        0 <= j < nodes[c].parents_id@.len() && #[trigger] nodes[c].parents_id@[j] as int == k
}

impl Trace {
    /// The ids reachable from `root` through parent references, in strictly
    /// decreasing order: every node comes before each of its parents, so each
    /// node's gradient is complete before its own rule would run.
    pub fn order(&self, root: NodeId) -> (r: Vec<NodeId>)
        requires
            self.wf(),
            root < self.node_count(),
        ensures
            forall|k: int| 0 <= k < r@.len() ==> (#[trigger] r@[k]) <= root,
            forall|k1: int, k2: int| 0 <= k1 < k2 < r@.len() ==> r@[k1] > r@[k2],
            forall|k: int|
                0 <= k < r@.len() ==> reachable(
                    self.nodes_view(),
                    root as int,
                    #[trigger] r@[k] as int,
                ),
            forall|i: int|
                0 <= i <= root && reachable(self.nodes_view(), root as int, i) ==> r@.map_values(
                    |x: NodeId| x as int,
                ).contains(i),
    {
        let n = self.nodes.len();
        let mut reach: Vec<bool> = Vec::new();
        let mut t: usize = 0;
        while t < n
            invariant
                0 <= t <= n,
                reach@.len() == t,
                forall|k: int| 0 <= k < t ==> !(#[trigger] reach@[k]),
            decreases n - t,
        {
            reach.push(false);
            t = t + 1;
        }
        reach[root] = true;
        let mut out: Vec<NodeId> = Vec::new();
        let mut i: usize = root + 1;
        let ghost nv = self.nodes_view();
        while i > 0
            invariant
                0 <= i <= root + 1,
                root < self.node_count(),
                self.wf(),
                nv == self.nodes_view(),
                reach@.len() == self.node_count(),
                // a mark means: the root, or a parent of some already-swept
                // reachable node
                forall|k: int|
                    0 <= k < reach@.len() ==> ((#[trigger] reach@[k]) <==> (k == root || exists|
                        c: int,
                    |
                        i <= c <= root && #[trigger] parent_edge(nv, c, k) && reachable(
                            nv,
                            root as int,
                            c,
                        ))),
                forall|k: int| 0 <= k < out@.len() ==> (#[trigger] out@[k]) <= root,
                forall|k1: int, k2: int| 0 <= k1 < k2 < out@.len() ==> out@[k1] > out@[k2],
                forall|k: int|
                    0 <= k < out@.len() ==> i <= (#[trigger] out@[k]) && reachable(
                        nv,
                        root as int,
                        out@[k] as int,
                    ),
                forall|q: int|
                    i <= q <= root && reachable(nv, root as int, q) ==> out@.map_values(
                        |x: NodeId| x as int,
                    ).contains(q),
            decreases i,
        {
            let id = i - 1;
            let marked = reach[id];
            proof {
                // a mark at the sweep line is exactly reachability
                if marked {
                    assert(reachable(nv, root as int, id as int));
                } else {
                    if reachable(nv, root as int, id as int) {
                        assert(id != root);
                        let c = choose|c: int|
                            id < c <= root && #[trigger] parent_edge(nv, c, id as int)
                                && reachable(nv, root as int, c);
                        assert(reach@[id as int]);
                        assert(false);
                    }
                }
            }
            let ghost out0 = out@;
            if marked {
                proof {
                    if out@.len() > 0 {
                        assert(out@[out@.len() - 1] >= i);
                    }
                }
                out.push(id);
                let pl = self.nodes[id].parents_id.len();
                let mut j: usize = 0;
                while j < pl
                    invariant
                        0 <= j <= pl,
                        root < self.node_count(),
                        self.wf(),
                        nv == self.nodes_view(),
                        id <= root,
                        i == id + 1,
                        pl == nv[id as int].parents_id@.len(),
                        reach@.len() == self.node_count(),
                        reachable(nv, root as int, id as int),
                        forall|k: int|
                            0 <= k < reach@.len() ==> ((#[trigger] reach@[k]) <==> (k == root
                                || (exists|c: int|
                                i <= c <= root && #[trigger] parent_edge(nv, c, k) && reachable(
                                    nv,
                                    root as int,
                                    c,
                                )) || (exists|jj: int|
                                0 <= jj < j && #[trigger] nv[id as int].parents_id@[jj] as int
                                    == k))),
                    decreases pl - j,
                {
                    let p = self.nodes[id].parents_id[j];
                    proof {
                        assert(node_ok(nv, id as int));
                        assert(nv[id as int].parents_id@[j as int] < id);
                    }
                    reach[p] = true;
                    proof {
                        assert(nv[id as int].parents_id@[j as int] as int == p as int);
                    }
                    j = j + 1;
                }
                proof {
                    assert forall|k: int| 0 <= k < reach@.len() implies ((#[trigger] reach@[k])
                        <==> (k == root || exists|c: int|
                        id <= c <= root && #[trigger] parent_edge(nv, c, k) && reachable(
                            nv,
                            root as int,
                            c,
                        ))) by {
                        if reach@[k] {
                            if k != root {
                                if exists|c: int|
                                    i <= c <= root && #[trigger] parent_edge(nv, c, k)
                                        && reachable(nv, root as int, c) {
                                } else {
                                    let jj = choose|jj: int|
                                        0 <= jj < pl && #[trigger] nv[id as int].parents_id@[jj] as int
                                            == k;
                                    assert(parent_edge(nv, id as int, k));
                                }
                            }
                        } else {
                            if k != root {
                                if exists|c: int|
                                    id <= c <= root && #[trigger] parent_edge(nv, c, k)
                                        && reachable(nv, root as int, c) {
                                    let c = choose|c: int|
                                        id <= c <= root && #[trigger] parent_edge(nv, c, k)
                                            && reachable(nv, root as int, c);
                                    if c == id {
                                        let jj = choose|jj: int|
                                            0 <= jj < nv[c].parents_id@.len()
                                                && #[trigger] nv[c].parents_id@[jj] as int == k;
                                        assert(reach@[k]);
                                    }
                                    assert(false);
                                }
                            }
                        }
                    }
                    let m0 = out0.map_values(|x: NodeId| x as int);
                    let m1 = out@.map_values(|x: NodeId| x as int);
                    assert(m1[m1.len() - 1] == id as int);
                    assert forall|q: int|
                        id <= q <= root && reachable(nv, root as int, q) implies m1.contains(
                        q,
                    ) by {
                        if q == id {
                            assert(m1.contains(id as int));
                        } else {
                            assert(m0.contains(q));
                            let w = choose|w: int| 0 <= w < m0.len() && m0[w] == q;
                            assert(m1[w] == q);
                        }
                    }
                }
            } else {
                proof {
                    assert forall|k: int| 0 <= k < reach@.len() implies ((#[trigger] reach@[k])
                        <==> (k == root || exists|c: int|
                        id <= c <= root && #[trigger] parent_edge(nv, c, k) && reachable(
                            nv,
                            root as int,
                            c,
                        ))) by {
                        if !reach@[k] && k != root {
                            if exists|c: int|
                                id <= c <= root && #[trigger] parent_edge(nv, c, k) && reachable(
                                    nv,
                                    root as int,
                                    c,
                                ) {
                                let c = choose|c: int|
                                    id <= c <= root && #[trigger] parent_edge(nv, c, k)
                                        && reachable(nv, root as int, c);
                                assert(c != id);
                                assert(false);
                            }
                        }
                    }
                }
            }
            i = id;
        }
        out
    }
}


/// Tracked slot values are stable under model updates below the cut.
proof fn lemma_frame_values(
    nodes: Seq<Node>,
    gm1: Seq<Tensor>,
    gm2: Seq<Tensor>,
    root: int,
    gr: Seq<Option<Tensor>>,
    c: int,
)
    requires
        forall|t: int| c <= t <= root ==> #[trigger] gm2[t] == gm1[t],
        forall|k: int|
            0 <= k < gr.len() ==> match gr[k] {
                Option::None => true,
                Option::Some(g2) => g2.wf() && g2.shape@ == (#[trigger] nodes[k]).value.shape@
                    && forall|idx: Seq<int>|
                    in_shape(idx, g2.shape@) ==> #[trigger] g2.elem(idx) == slot_value(
                        nodes,
                        gm1,
                        root,
                        k,
                        idx,
                        c,
                    ),
            },
    ensures
        forall|k: int|
            0 <= k < gr.len() ==> match gr[k] {
                Option::None => true,
                Option::Some(g2) => g2.wf() && g2.shape@ == (#[trigger] nodes[k]).value.shape@
                    && forall|idx: Seq<int>|
                    in_shape(idx, g2.shape@) ==> #[trigger] g2.elem(idx) == slot_value(
                        nodes,
                        gm2,
                        root,
                        k,
                        idx,
                        c,
                    ),
            },
{
    assert forall|k: int| 0 <= k < gr.len() implies match gr[k] {
        Option::None => true,
        Option::Some(g2) => g2.wf() && g2.shape@ == (#[trigger] nodes[k]).value.shape@ && forall|
            idx: Seq<int>,
        |
            in_shape(idx, g2.shape@) ==> #[trigger] g2.elem(idx) == slot_value(
                nodes,
                gm2,
                root,
                k,
                idx,
                c,
            ),
    } by {
        match gr[k] {
            Option::None => {},
            Option::Some(g2) => {
                assert forall|idx: Seq<int>| in_shape(idx, g2.shape@) implies
                    #[trigger] g2.elem(idx) == slot_value(nodes, gm2, root, k, idx, c) by {
                    lemma_slot_frame(nodes, gm1, gm2, root, k, idx, c);
                }
            },
        }
    }
}

/// After a node's rule has folded into every slot, each tracked slot shows
/// the model's value at the new cut.
proof fn lemma_step_values(
    nodes: Seq<Node>,
    gm: Seq<Tensor>,
    root: int,
    id: int,
    gr: Seq<Option<Tensor>>,
    g: Tensor,
    pl: int,
)
    requires
        forall|i: int| 0 <= i < nodes.len() ==> node_ok(nodes, i),
        root < nodes.len(),
        0 <= id <= root,
        nodes[id].vjp is Some,
        has_grad(nodes, root, id),
        0 <= id < gm.len(),
        gm[id] == g,
        pl == nodes[id].parents_id@.len(),
        forall|k: int|
            0 <= k < gr.len() ==> match gr[k] {
                Option::None => true,
                Option::Some(g2) => g2.wf() && g2.shape@ == (#[trigger] nodes[k]).value.shape@
                    && forall|idx: Seq<int>|
                    in_shape(idx, g2.shape@) ==> #[trigger] g2.elem(idx) == pos_fold(
                        nodes,
                        g,
                        id,
                        k,
                        idx,
                        pl,
                        slot_value(nodes, gm, root, k, idx, id + 1),
                    ),
            },
    ensures
        forall|k: int|
            0 <= k < gr.len() ==> match gr[k] {
                Option::None => true,
                Option::Some(g2) => g2.wf() && g2.shape@ == (#[trigger] nodes[k]).value.shape@
                    && forall|idx: Seq<int>|
                    in_shape(idx, g2.shape@) ==> #[trigger] g2.elem(idx) == slot_value(
                        nodes,
                        gm,
                        root,
                        k,
                        idx,
                        id,
                    ),
            },
{
    assert forall|k: int| 0 <= k < gr.len() implies match gr[k] {
        Option::None => true,
        Option::Some(g2) => g2.wf() && g2.shape@ == (#[trigger] nodes[k]).value.shape@ && forall|
            idx: Seq<int>,
        |
            in_shape(idx, g2.shape@) ==> #[trigger] g2.elem(idx) == slot_value(
                nodes,
                gm,
                root,
                k,
                idx,
                id,
            ),
    } by {
        match gr[k] {
            Option::None => {},
            Option::Some(g2) => {
                assert forall|idx: Seq<int>| in_shape(idx, g2.shape@) implies
                    #[trigger] g2.elem(idx) == slot_value(nodes, gm, root, k, idx, id) by {
                    if k < id {
                        assert(slot_value(nodes, gm, root, k, idx, id) == pos_fold(
                            nodes,
                            gm[id],
                            id,
                            k,
                            idx,
                            nodes[id].parents_id@.len() as int,
                            slot_value(nodes, gm, root, k, idx, id + 1),
                        ));
                    } else {
                        assert(node_ok(nodes, id));
                        assert forall|jj: int| 0 <= jj < pl implies (
                        #[trigger] nodes[id].parents_id@[jj]) as int != k by {
                            assert(nodes[id].parents_id@[jj] < id);
                        }
                        lemma_pos_fold_nomatch(
                            nodes,
                            g,
                            id,
                            k,
                            idx,
                            pl,
                            slot_value(nodes, gm, root, k, idx, id + 1),
                        );
                    }
                }
            },
        }
    }
}

/// A skipped node folds nothing: slot values carry to the new cut unchanged.
proof fn lemma_skip_values(
    nodes: Seq<Node>,
    gm: Seq<Tensor>,
    root: int,
    id: int,
    gr: Seq<Option<Tensor>>,
)
    requires
        0 <= id <= root,
        nodes[id].vjp is None || !has_grad(nodes, root, id),
        forall|k: int|
            0 <= k < gr.len() ==> match gr[k] {
                Option::None => true,
                Option::Some(g2) => g2.wf() && g2.shape@ == (#[trigger] nodes[k]).value.shape@
                    && forall|idx: Seq<int>|
                    in_shape(idx, g2.shape@) ==> #[trigger] g2.elem(idx) == slot_value(
                        nodes,
                        gm,
                        root,
                        k,
                        idx,
                        id + 1,
                    ),
            },
    ensures
        forall|k: int|
            0 <= k < gr.len() ==> match gr[k] {
                Option::None => true,
                Option::Some(g2) => g2.wf() && g2.shape@ == (#[trigger] nodes[k]).value.shape@
                    && forall|idx: Seq<int>|
                    in_shape(idx, g2.shape@) ==> #[trigger] g2.elem(idx) == slot_value(
                        nodes,
                        gm,
                        root,
                        k,
                        idx,
                        id,
                    ),
            },
{
    assert forall|k: int| 0 <= k < gr.len() implies match gr[k] {
        Option::None => true,
        Option::Some(g2) => g2.wf() && g2.shape@ == (#[trigger] nodes[k]).value.shape@ && forall|
            idx: Seq<int>,
        |
            in_shape(idx, g2.shape@) ==> #[trigger] g2.elem(idx) == slot_value(
                nodes,
                gm,
                root,
                k,
                idx,
                id,
            ),
    } by {
        match gr[k] {
            Option::None => {},
            Option::Some(g2) => {
                assert forall|idx: Seq<int>| in_shape(idx, g2.shape@) implies
                    #[trigger] g2.elem(idx) == slot_value(nodes, gm, root, k, idx, id) by {
                    assert(slot_value(nodes, gm, root, k, idx, id) == slot_value(
                        nodes,
                        gm,
                        root,
                        k,
                        idx,
                        id + 1,
                    ));
                }
            },
        }
    }
}

impl Trace {

/// A recorded rule accepts the gradient shaped like its node's value.
proof fn lemma_rule_accepts(nodes: Seq<Node>, id: int)
    requires
        forall|i: int| 0 <= i < nodes.len() ==> node_ok(nodes, i),
        0 <= id < nodes.len(),
        nodes[id].vjp is Some,
    ensures
        rule_input_ok(nodes[id].vjp->Some_0, nodes[id].value.shape@),
{
    reveal(rule_input_ok);
    assert(node_ok(nodes, id));
    match nodes[id].vjp {
        Option::Some(rr) => {
            match rr {
                VjpRule::AddRule { a_shape, b_shape } => {
                    let p0 = nodes[id].parents_id@[0] as int;
                    let p1 = nodes[id].parents_id@[1] as int;
                    assert(node_ok(nodes, p0));
                    assert(node_ok(nodes, p1));
                },
                VjpRule::SubRule { a_shape, b_shape } => {
                    let p0 = nodes[id].parents_id@[0] as int;
                    let p1 = nodes[id].parents_id@[1] as int;
                    assert(node_ok(nodes, p0));
                    assert(node_ok(nodes, p1));
                },
                VjpRule::MulRule { a, b } => {
                    let p0 = nodes[id].parents_id@[0] as int;
                    let p1 = nodes[id].parents_id@[1] as int;
                    assert(node_ok(nodes, p0));
                    assert(node_ok(nodes, p1));
                },
                VjpRule::DivRule { a, b } => {
                    let p0 = nodes[id].parents_id@[0] as int;
                    let p1 = nodes[id].parents_id@[1] as int;
                    assert(node_ok(nodes, p0));
                    assert(node_ok(nodes, p1));
                },
                VjpRule::MatMulRule { a, b } => {},
                VjpRule::MeanRule { x_shape } => {},
                VjpRule::UnaryRule { kind, x } => {
                    let p0 = nodes[id].parents_id@[0] as int;
                    assert(node_ok(nodes, p0));
                },
            }
        },
        Option::None => {},
    }
}

/// The contributions a rule produces are well formed and shaped like the
/// node's parents, positionally.
proof fn lemma_contribs_shaped(nodes: Seq<Node>, id: int, g: Tensor, contribs: Seq<Tensor>)
    requires
        forall|i: int| 0 <= i < nodes.len() ==> node_ok(nodes, i),
        0 <= id < nodes.len(),
        nodes[id].vjp is Some,
        contribs.len() == rule_arity(nodes[id].vjp->Some_0),
        vjp_post(nodes[id].vjp->Some_0, g, contribs),
    ensures
        contribs.len() == nodes[id].parents_id@.len(),
        forall|jj: int|
            0 <= jj < nodes[id].parents_id@.len() ==> {
                let pj = nodes[id].parents_id@[jj] as int;
                (#[trigger] contribs[jj]).wf() && contribs[jj].shape@ == nodes[pj].value.shape@
            },
{
    reveal(vjp_post);
    assert(node_ok(nodes, id));
    assert forall|jj: int| 0 <= jj < nodes[id].parents_id@.len() implies {
        let pj = nodes[id].parents_id@[jj] as int;
        (#[trigger] contribs[jj]).wf() && contribs[jj].shape@ == nodes[pj].value.shape@
    } by {
        match nodes[id].vjp {
            Option::Some(rr) => {
                match rr {
                    VjpRule::AddRule { a_shape, b_shape } => {},
                    VjpRule::SubRule { a_shape, b_shape } => {},
                    VjpRule::MulRule { a, b } => {},
                    VjpRule::DivRule { a, b } => {},
                    VjpRule::MatMulRule { a, b } => {},
                    VjpRule::MeanRule { x_shape } => {},
                    VjpRule::UnaryRule { kind, x } => {},
                }
            },
            Option::None => {},
        }
    }
}

    /// A rule's contributions are exactly the per-rule gradient formulas,
    /// positionally.
    proof fn lemma_contribs_match(nodes: Seq<Node>, id: int, g: Tensor, contribs: Seq<Tensor>)
        requires
            forall|i: int| 0 <= i < nodes.len() ==> node_ok(nodes, i),
            0 <= id < nodes.len(),
            nodes[id].vjp is Some,
            contribs.len() == rule_arity(nodes[id].vjp->Some_0),
            vjp_post(nodes[id].vjp->Some_0, g, contribs),
        ensures
            forall|jj: int, idx: Seq<int>|
                0 <= jj < nodes[id].parents_id@.len() && in_shape(
                    idx,
                    nodes[nodes[id].parents_id@[jj] as int].value.shape@,
                ) ==> #[trigger] contribs[jj].elem(idx) == contrib_elem(nodes, g, id, jj, idx),
    {
        reveal(vjp_post);
        reveal(contrib_elem);
        assert(node_ok(nodes, id));
        assert forall|jj: int, idx: Seq<int>|
            0 <= jj < nodes[id].parents_id@.len() && in_shape(
                idx,
                nodes[nodes[id].parents_id@[jj] as int].value.shape@,
            ) implies #[trigger] contribs[jj].elem(idx) == contrib_elem(nodes, g, id, jj, idx) by {
            match nodes[id].vjp {
                Option::Some(rr) => {
                    match rr {
                        VjpRule::AddRule { a_shape, b_shape } => {},
                        VjpRule::SubRule { a_shape, b_shape } => {},
                        VjpRule::MulRule { a, b } => {},
                        VjpRule::DivRule { a, b } => {},
                        VjpRule::MatMulRule { a, b } => {},
                        VjpRule::MeanRule { x_shape } => {},
                        VjpRule::UnaryRule { kind, x } => {},
                    }
                },
                Option::None => {},
            }
        }
    }

    /// After a processed node's contributions are all placed, the filled
    /// slots are exactly those of the lowered cut.
    proof fn lemma_touched_cut(
        nodes: Seq<Node>,
        root: int,
        id: int,
        grads: Seq<Option<Tensor>>,
        pl: int,
    )
        requires
            forall|i: int| 0 <= i < nodes.len() ==> node_ok(nodes, i),
            0 <= id <= root < nodes.len(),
            grads.len() == nodes.len(),
            nodes[id].vjp is Some,
            pl == nodes[id].parents_id@.len(),
            has_grad_cut(nodes, root, id, id),
            forall|k: int|
                0 <= k < grads.len() ==> ((#[trigger] grads[k]) is Some) == (has_grad_cut(
                    nodes,
                    root,
                    k,
                    id,
                ) || exists|jj: int| 0 <= jj < pl && #[trigger] nodes[id].parents_id@[jj] as int == k),
        ensures
            forall|k: int|
                0 <= k < grads.len() ==> ((#[trigger] grads[k]) is Some) == has_grad_cut(
                    nodes,
                    root,
                    k,
                    id - 1,
                ),
    {
        assert forall|k: int| 0 <= k < grads.len() implies ((#[trigger] grads[k]) is Some)
            == has_grad_cut(nodes, root, k, id - 1) by {
            lemma_cut_step(nodes, root, k, id);
            if grads[k] is Some {
                if !has_grad_cut(nodes, root, k, id) {
                    let jj = choose|jj: int|
                        0 <= jj < pl && #[trigger] nodes[id].parents_id@[jj] as int == k;
                    assert(grad_step(nodes, id, k));
                }
            } else {
                if grad_step(nodes, id, k) && has_grad_cut(nodes, root, id, id) {
                    let jj = choose|jj: int|
                        0 <= jj < nodes[id].parents_id@.len()
                            && #[trigger] nodes[id].parents_id@[jj] as int == k;
                    assert(grads[k] is Some);
                }
            }
        }
    }

    /// A node without a gradient or without a rule adds nothing: the filled
    /// slots of the lowered cut are those already filled.
    proof fn lemma_untouched_cut(
        nodes: Seq<Node>,
        root: int,
        id: int,
        grads: Seq<Option<Tensor>>,
    )
        requires
            forall|i: int| 0 <= i < nodes.len() ==> node_ok(nodes, i),
            0 <= id <= root < nodes.len(),
            grads.len() == nodes.len(),
            grads[id] is None || nodes[id].vjp is None,
            forall|k: int|
                0 <= k < grads.len() ==> ((#[trigger] grads[k]) is Some) == has_grad_cut(
                    nodes,
                    root,
                    k,
                    id,
                ),
        ensures
            forall|k: int|
                0 <= k < grads.len() ==> ((#[trigger] grads[k]) is Some) == has_grad_cut(
                    nodes,
                    root,
                    k,
                    id - 1,
                ),
    {
        assert forall|k: int| 0 <= k < grads.len() implies ((#[trigger] grads[k]) is Some)
            == has_grad_cut(nodes, root, k, id - 1) by {
            lemma_cut_step(nodes, root, k, id);
            if grad_step(nodes, id, k) && has_grad_cut(nodes, root, id, id) {
                assert(grads[id] is Some);
                assert(nodes[id].vjp is Some);
            }
        }
    }

    /// Run node `id`'s rule on its accumulated gradient `g` and add one
    /// contribution to each parent's slot, lowering the sweep cut by one.
    #[verifier::rlimit(100)]
    fn push_contribs(
        &self,
        grads: &mut Vec<Option<Tensor>>,
        root: NodeId,
        id: NodeId,
        g: Tensor,
        gm: Ghost<Seq<Tensor>>,
    )
        requires
            self.wf(),
            root < self.node_count(),
            id <= root,
            old(grads)@.len() == self.node_count(),
            gm@.len() == self.node_count(),
            self.nodes_view()[id as int].vjp is Some,
            g.wf(),
            g.shape@ == self.nodes_view()[id as int].value.shape@,
            gm@[id as int] == g,
            has_grad_cut(self.nodes_view(), root as int, id as int, id as int),
            forall|k: int|
                0 <= k < old(grads)@.len() ==> ((#[trigger] old(grads)@[k]) is Some)
                    == has_grad_cut(self.nodes_view(), root as int, k, id as int),
            forall|k: int|
                id <= k <= root && (#[trigger] old(grads)@[k]) is Some ==> tensor_eqv(
                    old(grads)@[k]->Some_0,
                    gm@[k],
                ),
            forall|k: int|
                0 <= k < old(grads)@.len() ==> match old(grads)@[k] {
                    Option::None => true,
                    Option::Some(g2) => g2.wf() && g2.shape@ == (
                    #[trigger] self.nodes_view()[k]).value.shape@ && forall|idx: Seq<int>|
                        in_shape(idx, g2.shape@) ==> #[trigger] g2.elem(idx) == slot_value(
                            self.nodes_view(),
                            gm@,
                            root as int,
                            k,
                            idx,
                            id + 1,
                        ),
                },
        ensures
            final(grads)@.len() == self.node_count(),
            forall|k: int|
                0 <= k < final(grads)@.len() ==> ((#[trigger] final(grads)@[k]) is Some)
                    == has_grad_cut(self.nodes_view(), root as int, k, id - 1),
            forall|k: int|
                id <= k <= root && (#[trigger] final(grads)@[k]) is Some ==> tensor_eqv(
                    final(grads)@[k]->Some_0,
                    gm@[k],
                ),
            forall|k: int|
                0 <= k < final(grads)@.len() ==> match final(grads)@[k] {
                    Option::None => true,
                    Option::Some(g2) => g2.wf() && g2.shape@ == (
                    #[trigger] self.nodes_view()[k]).value.shape@ && forall|idx: Seq<int>|
                        in_shape(idx, g2.shape@) ==> #[trigger] g2.elem(idx) == slot_value(
                            self.nodes_view(),
                            gm@,
                            root as int,
                            k,
                            idx,
                            id as int,
                        ),
                },
    {
        let ghost nv = self.nodes_view();
        let ghost gmv: Seq<Tensor> = gm@;
        let n = self.nodes.len();
        proof {
            assert(node_ok(nv, id as int));
            assert(grads@[id as int] is Some);
            assert(tensor_eqv(grads@[id as int]->Some_0, gmv[id as int]));
            assert(has_grad(nv, root as int, id as int)) by {
                lemma_cut_low(nv, root as int, id as int, -1, id as int);
            }
        }
        match &self.nodes[id].vjp {
            Some(rule) => {
                proof {
                    assert(rule_ok(nv, id as int));
                    Self::lemma_rule_accepts(nv, id as int);
                }
                let contribs = vjp_contribs(rule, &g);
                proof {
                    Self::lemma_contribs_shaped(nv, id as int, g, contribs@);
                    Self::lemma_contribs_match(nv, id as int, g, contribs@);
                }
                let pl = self.nodes[id].parents_id.len();
                let mut j: usize = 0;
                while j < pl
                    invariant
                        0 <= j <= pl,
                        root < self.node_count(),
                        self.wf(),
                        nv == self.nodes_view(),
                        n == self.node_count(),
                        grads@.len() == n,
                        gmv.len() == n,
                        id <= root,
                        pl == nv[id as int].parents_id@.len(),
                        nv[id as int].vjp is Some,
                        has_grad_cut(nv, root as int, id as int, id as int),
                        gmv[id as int] == g,
                        contribs@.len() == pl,
                        forall|jj: int|
                            0 <= jj < pl ==> {
                                let pj = nv[id as int].parents_id@[jj] as int;
                                (#[trigger] contribs@[jj]).wf() && contribs@[jj].shape@
                                    == nv[pj].value.shape@
                            },
                        forall|jj: int, idx: Seq<int>|
                            0 <= jj < pl && in_shape(
                                idx,
                                nv[nv[id as int].parents_id@[jj] as int].value.shape@,
                            ) ==> #[trigger] contribs@[jj].elem(idx) == contrib_elem(
                                nv,
                                g,
                                id as int,
                                jj,
                                idx,
                            ),
                        forall|k: int|
                            0 <= k < n ==> ((#[trigger] grads@[k]) is Some) == (
                            has_grad_cut(nv, root as int, k, id as int) || exists|
                                jj: int,
                            |
                                0 <= jj < j
                                    && #[trigger] nv[id as int].parents_id@[jj] as int
                                    == k),
                        forall|k: int|
                            id < k <= root && (#[trigger] grads@[k]) is Some
                                ==> tensor_eqv(grads@[k]->Some_0, gmv[k]),
                        tensor_eqv(grads@[id as int]->Some_0, gmv[id as int]),
                        forall|k: int|
                            0 <= k < n ==> match grads@[k] {
                                Option::None => true,
                                Option::Some(g2) => g2.wf() && g2.shape@ == (
                                #[trigger] nv[k]).value.shape@ && forall|idx: Seq<int>|
                                    in_shape(idx, g2.shape@) ==> #[trigger] g2.elem(idx)
                                        == pos_fold(
                                        nv,
                                        g,
                                        id as int,
                                        k,
                                        idx,
                                        j as int,
                                        slot_value(
                                            nv,
                                            gmv,
                                            root as int,
                                            k,
                                            idx,
                                            id + 1,
                                        ),
                                    ),
                            },
                    decreases pl - j,
                {
                    let p = self.nodes[id].parents_id[j];
                    proof {
                        assert(node_ok(nv, id as int));
                        assert(nv[id as int].parents_id@[j as int] < id);
                        assert(node_ok(nv, p as int));
                    }
                    let cj = contribs[j].duplicate();
                    let prev: Option<Tensor> = match &grads[p] {
                        Some(pre) => Some(pre.duplicate()),
                        None => None,
                    };
                    proof {
                        assert(cj.shape@ == nv[p as int].value.shape@);
                        assert forall|idx: Seq<int>| in_shape(idx, cj.shape@) implies
                            #[trigger] cj.elem(idx) == contrib_elem(
                            nv,
                            g,
                            id as int,
                            j as int,
                            idx,
                        ) by {
                            assert(contribs@[j as int].elem(idx) == contrib_elem(
                                nv,
                                g,
                                id as int,
                                j as int,
                                idx,
                            ));
                        }
                    }
                    let newval: Tensor = match prev {
                        None => {
                            proof {
                                assert(!has_grad_cut(nv, root as int, p as int, id as int));
                                assert forall|idx: Seq<int>| in_shape(idx, cj.shape@)
                                    implies #[trigger] cj.elem(idx) == pos_fold(
                                    nv,
                                    g,
                                    id as int,
                                    p as int,
                                    idx,
                                    j as int + 1,
                                    slot_value(
                                        nv,
                                        gmv,
                                        root as int,
                                        p as int,
                                        idx,
                                        id + 1,
                                    ),
                                ) by {
                                    lemma_slot_untouched(
                                        nv,
                                        gmv,
                                        root as int,
                                        p as int,
                                        idx,
                                        id as int,
                                        id as int + 1,
                                    );
                                    assert forall|jj: int| 0 <= jj < j implies (
                                    #[trigger] nv[id as int].parents_id@[jj]) as int
                                        != p as int by {}
                                    lemma_pos_fold_nomatch(
                                        nv,
                                        g,
                                        id as int,
                                        p as int,
                                        idx,
                                        j as int,
                                        slot_value(
                                            nv,
                                            gmv,
                                            root as int,
                                            p as int,
                                            idx,
                                            id + 1,
                                        ),
                                    );
                                    crate::tensor::lemma_elem_in_bounds(cj, idx);
                                    crate::rat::lemma_add_zero(cj.elem(idx));
                                }
                            }
                            cj
                        },
                        Some(pre) => {
                            proof {
                                crate::tensor::lemma_bshape_self(cj.shape@);
                            }
                            let s2 = match crate::ops::elementwise::add_direct(&pre, &cj) {
                                Ok(s2) => s2,
                                Err(_) => {
                                    proof {
                                        assert(false);
                                    }
                                    cj
                                },
                            };
                            proof {
                                assert forall|idx: Seq<int>| in_shape(idx, cj.shape@)
                                    implies #[trigger] s2.elem(idx) == pos_fold(
                                    nv,
                                    g,
                                    id as int,
                                    p as int,
                                    idx,
                                    j as int + 1,
                                    slot_value(
                                        nv,
                                        gmv,
                                        root as int,
                                        p as int,
                                        idx,
                                        id + 1,
                                    ),
                                ) by {
                                    crate::tensor::lemma_bsrc_self(idx, cj.shape@);
                                    assert(s2.elem(idx) == rat_add(
                                        pre.elem(idx),
                                        cj.elem(idx),
                                    ));
                                    assert(grads@[p as int] is Some);
                                    let g0 = grads@[p as int]->Some_0;
                                    assert(g0.elem(idx) == pos_fold(
                                        nv,
                                        g,
                                        id as int,
                                        p as int,
                                        idx,
                                        j as int,
                                        slot_value(
                                            nv,
                                            gmv,
                                            root as int,
                                            p as int,
                                            idx,
                                            id + 1,
                                        ),
                                    ));
                                    assert(pre.elem(idx) == g0.elem(idx));
                                    assert(cj.elem(idx) == contrib_elem(
                                        nv,
                                        g,
                                        id as int,
                                        j as int,
                                        idx,
                                    ));
                                }
                            }
                            s2
                        },
                    };
                    grads[p] = Some(newval);
                    proof {
                        assert forall|k: int|
                            0 <= k < n implies ((#[trigger] grads@[k]) is Some) == (
                        has_grad_cut(nv, root as int, k, id as int) || exists|jj: int|
                            0 <= jj < j + 1
                                && #[trigger] nv[id as int].parents_id@[jj] as int
                                == k) by {
                            if k == p {
                                assert(nv[id as int].parents_id@[j as int] as int == k);
                            }
                        }
                        assert forall|k: int| 0 <= k < n implies match grads@[k] {
                            Option::None => true,
                            Option::Some(g2) => g2.wf() && g2.shape@ == (
                            #[trigger] nv[k]).value.shape@ && forall|idx: Seq<int>|
                                in_shape(idx, g2.shape@) ==> #[trigger] g2.elem(idx)
                                    == pos_fold(
                                    nv,
                                    g,
                                    id as int,
                                    k,
                                    idx,
                                    j as int + 1,
                                    slot_value(nv, gmv, root as int, k, idx, id + 1),
                                ),
                        } by {
                            match grads@[k] {
                                Option::None => {},
                                Option::Some(g2) => {
                                    if k != p {
                                        assert forall|idx: Seq<int>|
                                            in_shape(idx, g2.shape@) implies
                                            #[trigger] g2.elem(idx) == pos_fold(
                                            nv,
                                            g,
                                            id as int,
                                            k,
                                            idx,
                                            j as int + 1,
                                            slot_value(
                                                nv,
                                                gmv,
                                                root as int,
                                                k,
                                                idx,
                                                id + 1,
                                            ),
                                        ) by {
                                            assert(nv[id as int].parents_id@[j as int] as int
                                                != k);
                                        }
                                    }
                                },
                            }
                        }
                    }
                    j = j + 1;
                }
                proof {
                    Self::lemma_touched_cut(nv, root as int, id as int, grads@, pl as int);
                    // each tracked slot now shows the model's value at the new cut
                    lemma_step_values(
                        nv,
                        gmv,
                        root as int,
                        id as int,
                        grads@,
                        g,
                        pl as int,
                    );
                }
            },
            None => {
                proof {
                    assert(false);
                }
            },
        }
    }

    /// Process one node of the backward sweep: when it holds an accumulated
    /// gradient and a rule, add one contribution to each parent's slot.  The
    /// ghost model records each processed node's final gradient, and every
    /// filled slot tracks the model's slot value at the current cut.
    #[verifier::rlimit(100)]
    fn backward_step(
        &self,
        grads: &mut Vec<Option<Tensor>>,
        root: NodeId,
        id: NodeId,
        gm0: Ghost<Seq<Tensor>>,
    ) -> (gmr: Ghost<Seq<Tensor>>)
        requires
            self.wf(),
            root < self.node_count(),
            id <= root,
            old(grads)@.len() == self.node_count(),
            gm0@.len() == self.node_count(),
            forall|k: int|
                0 <= k < old(grads)@.len() ==> ((#[trigger] old(grads)@[k]) is Some)
                    == has_grad_cut(self.nodes_view(), root as int, k, id as int),
            forall|k: int|
                id < k <= root && (#[trigger] old(grads)@[k]) is Some ==> tensor_eqv(
                    old(grads)@[k]->Some_0,
                    gm0@[k],
                ),
            forall|k: int|
                0 <= k < old(grads)@.len() ==> match old(grads)@[k] {
                    Option::None => true,
                    Option::Some(g) => g.wf() && g.shape@ == (
                    #[trigger] self.nodes_view()[k]).value.shape@ && forall|idx: Seq<int>|
                        in_shape(idx, g.shape@) ==> #[trigger] g.elem(idx) == slot_value(
                            self.nodes_view(),
                            gm0@,
                            root as int,
                            k,
                            idx,
                            id + 1,
                        ),
                },
        ensures
            final(grads)@.len() == self.node_count(),
            gmr@.len() == self.node_count(),
            forall|t: int| 0 <= t < gmr@.len() && t != id ==> #[trigger] gmr@[t] == gm0@[t],
            forall|k: int|
                0 <= k < final(grads)@.len() ==> ((#[trigger] final(grads)@[k]) is Some)
                    == has_grad_cut(self.nodes_view(), root as int, k, id - 1),
            forall|k: int|
                id <= k <= root && (#[trigger] final(grads)@[k]) is Some ==> tensor_eqv(
                    final(grads)@[k]->Some_0,
                    gmr@[k],
                ),
            forall|k: int|
                0 <= k < final(grads)@.len() ==> match final(grads)@[k] {
                    Option::None => true,
                    Option::Some(g) => g.wf() && g.shape@ == (
                    #[trigger] self.nodes_view()[k]).value.shape@ && forall|idx: Seq<int>|
                        in_shape(idx, g.shape@) ==> #[trigger] g.elem(idx) == slot_value(
                            self.nodes_view(),
                            gmr@,
                            root as int,
                            k,
                            idx,
                            id as int,
                        ),
                },
    {
        let ghost nv = self.nodes_view();
        let n = self.nodes.len();
        let gdup: Option<Tensor> = match &grads[id] {
            Some(g) => Some(g.duplicate()),
            None => None,
        };
        let ghost gmv: Seq<Tensor> = if gdup is Some {
            gm0@.update(id as int, gdup->Some_0)
        } else {
            gm0@
        };
        proof {
            // entries at or above the next sweep position are unchanged, so
            // every tracked slot value carries over to the updated model
            lemma_frame_values(nv, gm0@, gmv, root as int, grads@, id as int + 1);
        }
        let mut touched = false;
        match gdup {
            Some(g) => {
                proof {
                    assert(node_ok(nv, id as int));
                    assert(g.wf() && g.shape@ == nv[id as int].value.shape@) by {
                        assert(grads@[id as int] matches Some(g0) && g0.wf() && g0.shape@
                            == nv[id as int].value.shape@);
                    }
                    assert(tensor_eqv(grads@[id as int]->Some_0, gmv[id as int]));
                    assert(has_grad(nv, root as int, id as int)) by {
                        lemma_cut_low(nv, root as int, id as int, -1, id as int);
                    }
                }
                if self.nodes[id].vjp.is_some() {
                    self.push_contribs(grads, root, id, g, Ghost(gmv));
                    touched = true;
                }
            },
            None => {},
        }
        proof {
            if !touched {
                Self::lemma_untouched_cut(nv, root as int, id as int, grads@);
                // the skipped node contributes nothing, so slot values carry
                if grads@[id as int] is None {
                    assert(!has_grad_cut(nv, root as int, id as int, id as int));
                    assert(!has_grad(nv, root as int, id as int)) by {
                        lemma_cut_low(nv, root as int, id as int, -1, id as int);
                    }
                }
                lemma_skip_values(nv, gmv, root as int, id as int, grads@);
            }
        }
        Ghost(gmv)
    }

    /// Walk the trace backward from `root`, accumulating every gradient
    /// contribution, and report the accumulated gradient of each registered
    /// parameter in registration order.  The returned tensors agree with a
    /// gradient assignment of the sweep: the root seeded with ones and every
    /// reached slot holding exactly the ordered sum of its children's rule
    /// contributions (`grads_model_ok`).  A parameter that never receives a
    /// contribution is a build error, reported as `MissingGradient`; other
    /// nodes without gradients are forward-only branches and are skipped.
    #[verifier::rlimit(100)]
    pub fn backward_param_grads(&self, root: NodeId) -> (r: Result<Vec<Tensor>, GradError>)
        requires
            self.wf(),
            root < self.node_count(),
        ensures
            match r {
                Ok(gs) => {
                    &&& gs@.len() == self.params_view().len()
                    &&& forall|j: int|
                        0 <= j < self.params_view().len() ==> has_grad(
                            self.nodes_view(),
                            root as int,
                            #[trigger] self.params_view()[j] as int,
                        )
                    &&& forall|j: int|
                        0 <= j < gs@.len() ==> (#[trigger] gs@[j]).wf() && gs@[j].shape@
                            == self.nodes_view()[self.params_view()[j] as int].value.shape@
                    &&& exists|gm: Seq<Tensor>|
                        #[trigger] grads_model_ok(self.nodes_view(), root as int, gm) && forall|
                            j: int,
                        |
                            0 <= j < gs@.len() ==> tensor_eqv(
                                #[trigger] gs@[j],
                                gm[self.params_view()[j] as int],
                            )
                },
                Err(e) => {
                    &&& e == GradError::MissingGradient
                    &&& exists|j: int|
                        0 <= j < self.params_view().len() && !has_grad(
                            self.nodes_view(),
                            root as int,
                            #[trigger] self.params_view()[j] as int,
                        )
                },
            },
    {
        let ghost nv = self.nodes_view();
        let n = self.nodes.len();
        let mut grads: Vec<Option<Tensor>> = Vec::new();
        let mut t: usize = 0;
        while t < n
            invariant
                0 <= t <= n,
                grads@.len() == t,
                forall|k: int| 0 <= k < t ==> (#[trigger] grads@[k]) is None,
            decreases n - t,
        {
            grads.push(None);
            t = t + 1;
        }
        proof {
            assert(node_ok(nv, root as int));
        }
        let seed = Tensor::ones(self.nodes[root].value.shape.as_slice());
        let ghost mut gmv: Seq<Tensor> = Seq::new(n as nat, |k: int| seed);
        grads[root] = Some(seed);
        proof {
            assert forall|k: int| 0 <= k < n implies ((#[trigger] grads@[k]) is Some) == (
            has_grad_cut(nv, root as int, k, root as int)) by {
                if k != root && has_grad_cut(nv, root as int, k, root as int) {
                    let c = choose|c: int|
                        k < c <= root && root < c && #[trigger] grad_step(nv, c, k)
                            && has_grad_cut(nv, root as int, c, root as int);
                    assert(false);
                }
            }
            assert forall|k: int| 0 <= k < n implies match grads@[k] {
                Option::None => true,
                Option::Some(g) => g.wf() && g.shape@ == (#[trigger] nv[k]).value.shape@
                    && forall|idx: Seq<int>|
                    in_shape(idx, g.shape@) ==> #[trigger] g.elem(idx) == slot_value(
                        nv,
                        gmv,
                        root as int,
                        k,
                        idx,
                        root + 1,
                    ),
            } by {
                if k == root {
                    assert forall|idx: Seq<int>| in_shape(idx, seed.shape@) implies
                        #[trigger] seed.elem(idx) == slot_value(
                        nv,
                        gmv,
                        root as int,
                        k,
                        idx,
                        root + 1,
                    ) by {
                        assert(seed.elem(idx) == crate::rat::rat_one());
                    }
                }
            }
        }
        let mut i: usize = root + 1;
        while i > 0
            invariant
                0 <= i <= root + 1,
                root < self.node_count(),
                self.wf(),
                nv == self.nodes_view(),
                n == self.node_count(),
                grads@.len() == n,
                gmv.len() == n,
                forall|k: int|
                    0 <= k < n ==> ((#[trigger] grads@[k]) is Some) == has_grad_cut(
                        nv,
                        root as int,
                        k,
                        i - 1,
                    ),
                forall|k: int|
                    i <= k <= root && (#[trigger] grads@[k]) is Some ==> tensor_eqv(
                        grads@[k]->Some_0,
                        gmv[k],
                    ),
                forall|k: int|
                    0 <= k < n ==> match grads@[k] {
                        Option::None => true,
                        Option::Some(g) => g.wf() && g.shape@ == (#[trigger] nv[k]).value.shape@
                            && forall|idx: Seq<int>|
                            in_shape(idx, g.shape@) ==> #[trigger] g.elem(idx) == slot_value(
                                nv,
                                gmv,
                                root as int,
                                k,
                                idx,
                                i as int,
                            ),
                    },
            decreases i,
        {
            let id = i - 1;
            let gmr = self.backward_step(&mut grads, root, id, Ghost(gmv));
            proof {
                gmv = gmr@;
            }
            i = id;
        }
        // every reached slot now holds the model's final value
        proof {
            assert forall|k: int|
                0 <= k <= root && has_grad(nv, root as int, k) implies {
                let mt = #[trigger] gmv[k];
                &&& mt.wf()
                &&& mt.shape@ == nv[k].value.shape@
                &&& forall|idx: Seq<int>|
                    in_shape(idx, mt.shape@) ==> #[trigger] mt.elem(idx) == slot_value(
                        nv,
                        gmv,
                        root as int,
                        k,
                        idx,
                        k + 1,
                    )
            } by {
                assert(grads@[k] is Some);
                let g2 = grads@[k]->Some_0;
                assert(tensor_eqv(g2, gmv[k]));
                assert forall|idx: Seq<int>| in_shape(idx, gmv[k].shape@) implies
                    #[trigger] gmv[k].elem(idx) == slot_value(
                    nv,
                    gmv,
                    root as int,
                    k,
                    idx,
                    k + 1,
                ) by {
                    assert(g2.elem(idx) == slot_value(nv, gmv, root as int, k, idx, 0));
                    lemma_slot_low(nv, gmv, root as int, k, idx, 0);
                    assert(gmv[k].elem(idx) == g2.elem(idx));
                }
            }
            assert(grads_model_ok(nv, root as int, gmv));
        }
        // extract the parameter gradients, in registration order
        let pc = self.params_id.len();
        let mut res: Vec<Tensor> = Vec::new();
        let mut j: usize = 0;
        while j < pc
            invariant
                0 <= j <= pc,
                root < self.node_count(),
                self.wf(),
                nv == self.nodes_view(),
                n == self.node_count(),
                grads@.len() == n,
                gmv.len() == n,
                pc == self.params_view().len(),
                grads_model_ok(nv, root as int, gmv),
                forall|k: int|
                    0 <= k < n ==> ((#[trigger] grads@[k]) is Some) == has_grad_cut(
                        nv,
                        root as int,
                        k,
                        -1,
                    ),
                forall|k: int|
                    0 <= k <= root && (#[trigger] grads@[k]) is Some ==> tensor_eqv(
                        grads@[k]->Some_0,
                        gmv[k],
                    ),
                forall|k: int|
                    0 <= k < n ==> match grads@[k] {
                        Option::None => true,
                        Option::Some(g2) => g2.wf() && g2.shape@ == (
                        #[trigger] nv[k]).value.shape@,
                    },
                res@.len() == j,
                forall|t2: int|
                    0 <= t2 < j ==> has_grad(nv, root as int, #[trigger] self.params_view()[t2] as int),
                forall|t2: int|
                    0 <= t2 < j ==> (#[trigger] res@[t2]).wf() && res@[t2].shape@
                        == nv[self.params_view()[t2] as int].value.shape@ && tensor_eqv(
                        res@[t2],
                        gmv[self.params_view()[t2] as int],
                    ),
            decreases pc - j,
        {
            let p = self.params_id[j];
            match &grads[p] {
                Some(g) => {
                    res.push(g.duplicate());
                },
                None => {
                    proof {
                        assert(!has_grad(nv, root as int, self.params_view()[j as int] as int));
                    }
                    return Err(GradError::MissingGradient);
                },
            }
            j = j + 1;
        }
        Ok(res)
    }
}

} // verus!
