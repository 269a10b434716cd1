//! Reduction operators over the whole tensor.

use crate::rat::{int_rat, rat_mul, rat_recip, seq_rat_sum, Rat};
use crate::shape::{in_shape, numel_checked, numel_of, idx_of};
use crate::tensor::Tensor;
use crate::trace::{appended, node_shape, node_value, Node, NodeId, Trace, VjpRule};
use vstd::prelude::*;

verus! {

/// The mean of a tensor's elements, taken in row-major order.
pub open spec fn mean_value(x: Tensor) -> Rat {
    rat_mul(
        seq_rat_sum(Seq::new(numel_of(x.shape@), |l: int| x.elem(idx_of(l, x.shape@)))),
        rat_recip(int_rat(numel_of(x.shape@) as int)),
    )
}

/// Record the mean over all elements of a node on the trace: a rank-zero
/// node whose backward rule spreads the upstream scalar evenly.
pub fn mean_all(tr: &mut Trace, x_id: NodeId) -> (r: NodeId)
    requires
        old(tr).wf(),
        x_id < old(tr).node_count(),
        numel_of(node_shape(*old(tr), x_id)) <= i64::MAX,
    ensures
        r == old(tr).node_count(),
        appended(*old(tr), *final(tr)),
        final(tr).nodes_view().last().parents_id@ == seq![x_id],
        (final(tr).nodes_view().last().vjp matches Some(VjpRule::MeanRule { x_shape })
            && x_shape@ == node_shape(*old(tr), x_id)),
        final(tr).nodes_view().last().value.shape@ == Seq::<usize>::empty(),
        final(tr).nodes_view().last().value.elem(Seq::<int>::empty()) == mean_value(
            node_value(*old(tr), x_id),
        ),
{
    let vx = tr.get_tensor(x_id).duplicate();
    proof {
        assert(crate::trace::node_ok(tr.nodes_view(), x_id as int));
    }
    let s = vx.sum_all();
    let n = match numel_checked(vx.shape.as_slice()) {
        Some(n) => n,
        None => {
            proof {
                assert(false);
            }
            0
        },
    };
    let scale = Rat::from_int(n as i64).recip();
    let f = |v: Rat| -> (z: Rat)
        requires
            v.inv(),
        ensures
            z == rat_mul(v, scale),
            z.inv(),
        { v.mul(scale) };
    let value = s.apply(f);
    let xsh = vx.shape.clone();
    proof {
        assert(xsh@ =~= vx.shape@);
    }
    let mut parents: Vec<NodeId> = Vec::new();
    parents.push(x_id);
    let node = Node {
        value,
        parents_id: parents,
        vjp: Some(VjpRule::MeanRule { x_shape: xsh }),
        is_param: false,
    };
    proof {
        let nodes2 = tr.nodes_view().push(node);
        assert(node.parents_id@ =~= seq![x_id]);
        assert(nodes2[x_id as int] == tr.nodes_view()[x_id as int]);
        assert(node.value.shape@ =~= Seq::<usize>::empty());
        assert(numel_of(node.value.shape@) == 1);
        assert(crate::trace::node_ok(nodes2, tr.nodes_view().len() as int));
        assert(in_shape(Seq::<int>::empty(), s.shape@)) by {
            assert(s.shape@ =~= Seq::<usize>::empty());
        }
        assert(f.ensures(
            (s.elem(Seq::<int>::empty()),),
            node.value.elem(Seq::<int>::empty()),
        ));
        let v0 = node_value(*tr, x_id);
        assert(Seq::new(numel_of(vx.shape@), |l: int| vx.elem(idx_of(l, vx.shape@))) =~= Seq::new(
            numel_of(v0.shape@),
            |l: int| v0.elem(idx_of(l, v0.shape@)),
        ));
    }
    tr.push(node)
}

} // verus!
