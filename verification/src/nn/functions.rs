//! Elementwise unary activation operators on the trace.

use crate::rat::Rat;
use crate::shape::in_shape;
use crate::tensor::Tensor;
use crate::trace::{appended, node_shape, node_value, tensor_eqv, unary_fwd, Node, NodeId, Trace,
    UnaryKind, VjpRule};
use vstd::prelude::*;

verus! {

/// Record an elementwise unary operator of the closed set on the trace.
pub fn apply_unary(tr: &mut Trace, a_id: NodeId, kind: UnaryKind) -> (r: NodeId)
    requires
        old(tr).wf(),
        a_id < old(tr).node_count(),
    ensures
        r == old(tr).node_count(),
        appended(*old(tr), *final(tr)),
        final(tr).nodes_view().last().parents_id@ == seq![a_id],
        (final(tr).nodes_view().last().vjp matches Some(VjpRule::UnaryRule { kind: k2, x })
            && k2 == kind && tensor_eqv(x, node_value(*old(tr), a_id))),
        final(tr).nodes_view().last().value.shape@ == node_shape(*old(tr), a_id),
        forall|idx: Seq<int>|
            in_shape(idx, node_shape(*old(tr), a_id))
                ==> #[trigger] final(tr).nodes_view().last().value.elem(idx) == unary_fwd(
                kind,
                node_value(*old(tr), a_id).elem(idx),
            ),
{
    let vx = tr.get_tensor(a_id).duplicate();
    proof {
        assert(crate::trace::node_ok(tr.nodes_view(), a_id as int));
    }
    let f = |v: Rat| -> (z: Rat)
        requires
            v.inv(),
        ensures
            z == unary_fwd(kind, v),
            z.inv(),
        {
            match kind {
                UnaryKind::Relu => v.max(Rat::zero()),
                UnaryKind::Square => v.mul(v),
            }
        };
    let value = vx.apply(f);
    let mut parents: Vec<NodeId> = Vec::new();
    parents.push(a_id);
    let node = Node {
        value,
        parents_id: parents,
        vjp: Some(VjpRule::UnaryRule { kind, x: vx }),
        is_param: false,
    };
    proof {
        let nodes2 = tr.nodes_view().push(node);
        assert(node.parents_id@ =~= seq![a_id]);
        assert(nodes2[a_id as int] == tr.nodes_view()[a_id as int]);
        assert(crate::trace::node_ok(nodes2, tr.nodes_view().len() as int));
        let v0 = node_value(*tr, a_id);
        assert forall|idx: Seq<int>| in_shape(idx, v0.shape@) implies #[trigger] node.value.elem(
            idx,
        ) == unary_fwd(kind, v0.elem(idx)) by {
            assert(f.ensures((v0.elem(idx),), node.value.elem(idx)));
        }
    }
    tr.push(node)
}

/// Record a rectified linear unit on the trace: `max(x, 0)` forward, an
/// indicator of strict positivity backward.
pub fn relu(tr: &mut Trace, a_id: NodeId) -> (r: NodeId)
    requires
        old(tr).wf(),
        a_id < old(tr).node_count(),
    ensures
        r == old(tr).node_count(),
        appended(*old(tr), *final(tr)),
        final(tr).nodes_view().last().parents_id@ == seq![a_id],
        (final(tr).nodes_view().last().vjp matches Some(VjpRule::UnaryRule { kind: k2, x })
            && k2 == UnaryKind::Relu && tensor_eqv(x, node_value(*old(tr), a_id))),
        final(tr).nodes_view().last().value.shape@ == node_shape(*old(tr), a_id),
        forall|idx: Seq<int>|
            in_shape(idx, node_shape(*old(tr), a_id))
                ==> #[trigger] final(tr).nodes_view().last().value.elem(idx) == unary_fwd(
                UnaryKind::Relu,
                node_value(*old(tr), a_id).elem(idx),
            ),
{
    apply_unary(tr, a_id, UnaryKind::Relu)
}

} // verus!
