//! Composite losses.

use crate::rat::{rat_mul, rat_sub};
use crate::shape::{in_shape, numel_of};
use crate::tensor::{bshape_of, bshape_ok, bsrc_idx, ShapeError};
use crate::trace::{node_shape, node_value, tensor_eqv, unary_fwd, NodeId, Trace, UnaryKind,
    VjpRule};
use vstd::prelude::*;

verus! {

/// Record the mean-squared-error loss on the trace: the mean of the squared
/// broadcast difference of prediction and target.  Three nodes are pushed:
/// the difference, its square, and the mean.
pub fn mse(tr: &mut Trace, pred_id: NodeId, target_id: NodeId) -> (r: Result<
    NodeId,
    ShapeError,
>)
    requires
        old(tr).wf(),
        pred_id < old(tr).node_count(),
        target_id < old(tr).node_count(),
        bshape_ok(node_shape(*old(tr), pred_id), node_shape(*old(tr), target_id)) ==> numel_of(
            bshape_of(node_shape(*old(tr), pred_id), node_shape(*old(tr), target_id)),
        ) <= i64::MAX && numel_of(
            bshape_of(node_shape(*old(tr), pred_id), node_shape(*old(tr), target_id)),
        ) <= usize::MAX,
    ensures
        match r {
            Ok(id) => {
                &&& bshape_ok(node_shape(*old(tr), pred_id), node_shape(*old(tr), target_id))
                &&& id == old(tr).node_count() + 2
                &&& final(tr).wf()
                &&& final(tr).node_count() == old(tr).node_count() + 3
                &&& final(tr).params_view() == old(tr).params_view()
                &&& {
                    let diff_node = final(tr).nodes_view()[old(tr).node_count() as int];
                    let sq_node = final(tr).nodes_view()[old(tr).node_count() as int + 1];
                    let loss_node = final(tr).nodes_view()[old(tr).node_count() as int + 2];
                    let diff = diff_node.value;
                    let sq = sq_node.value;
                    let loss = loss_node.value;
                    &&& diff_node.parents_id@ == seq![pred_id, target_id]
                    &&& (diff_node.vjp matches Some(VjpRule::SubRule { a_shape, b_shape })
                        && a_shape@ == node_shape(*old(tr), pred_id) && b_shape@ == node_shape(
                        *old(tr),
                        target_id,
                    ))
                    &&& sq_node.parents_id@ == seq![old(tr).node_count() as NodeId]
                    &&& (sq_node.vjp matches Some(VjpRule::UnaryRule { kind, x }) && kind
                        == UnaryKind::Square && tensor_eqv(x, diff))
                    &&& loss_node.parents_id@ == seq![(old(tr).node_count() + 1) as NodeId]
                    &&& (loss_node.vjp matches Some(VjpRule::MeanRule { x_shape }) && x_shape@
                        == diff.shape@)
                    &&& diff.shape@ == bshape_of(
                        node_shape(*old(tr), pred_id),
                        node_shape(*old(tr), target_id),
                    )
                    &&& forall|idx: Seq<int>|
                        in_shape(idx, diff.shape@) ==> #[trigger] diff.elem(idx) == rat_sub(
                            node_value(*old(tr), pred_id).elem(
                                bsrc_idx(idx, node_shape(*old(tr), pred_id)),
                            ),
                            node_value(*old(tr), target_id).elem(
                                bsrc_idx(idx, node_shape(*old(tr), target_id)),
                            ),
                        )
                    &&& sq.shape@ == diff.shape@
                    &&& forall|idx: Seq<int>|
                        in_shape(idx, diff.shape@) ==> #[trigger] sq.elem(idx) == rat_mul(
                            diff.elem(idx),
                            diff.elem(idx),
                        )
                    &&& loss.shape@ == Seq::<usize>::empty()
                    &&& loss.elem(Seq::<int>::empty()) == crate::ops::shapes::mean_value(sq)
                }
            },
            Err(e) => {
                &&& !bshape_ok(node_shape(*old(tr), pred_id), node_shape(*old(tr), target_id))
                &&& e == ShapeError::Incompatible
                &&& final(tr).nodes_view() == old(tr).nodes_view()
                &&& final(tr).params_view() == old(tr).params_view()
            },
        },
{
    let diff_id = match crate::ops::elementwise::sub(tr, pred_id, target_id) {
        Ok(d) => d,
        Err(e) => {
            return Err(e);
        },
    };
    let ghost t1 = *tr;
    let square_id = crate::nn::functions::apply_unary(tr, diff_id, UnaryKind::Square);
    let ghost t2 = *tr;
    let m = crate::ops::shapes::mean_all(tr, square_id);
    proof {
        let base = old(tr).node_count() as int;
        assert(tr.nodes_view()[base] == t1.nodes_view()[base]);
        assert(tr.nodes_view()[base + 1] == t2.nodes_view()[base + 1]);
        assert(t2.nodes_view()[base] == t1.nodes_view()[base]);
        let diff = tr.nodes_view()[base].value;
        let sq = tr.nodes_view()[base + 1].value;
        assert(sq == t2.nodes_view().last().value);
        assert forall|idx: Seq<int>| in_shape(idx, diff.shape@) implies #[trigger] sq.elem(idx)
            == rat_mul(diff.elem(idx), diff.elem(idx)) by {
            assert(sq.elem(idx) == unary_fwd(UnaryKind::Square, diff.elem(idx)));
        }
    }
    Ok(m)
}

} // verus!
