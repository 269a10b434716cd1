//! The linear layer: `y = x W + b` over trace nodes.

use crate::nn::layers::bind::ParamCursor;
use crate::ops::linalg::{mm_entry, mm_grad_a_shape, mm_grad_b_shape, mmh_ok, mmh_req, mmh_shape};
use crate::rat::rat_add;
use crate::shape::{in_shape, numel_of};
use crate::tensor::{bshape_of, bshape_ok, bsrc_idx, ShapeError};
use crate::trace::{node_shape, node_value, tensor_eqv, NodeId, Trace, VjpRule};
use vstd::prelude::*;

verus! {

/// A linear layer holds the ids of its weight and bias parameter nodes.
pub struct Linear {
    pub w: NodeId,
    pub b: NodeId,
}

impl Linear {
    /// Bind the next two registered parameters as weight and bias.
    pub fn bind(cur: &mut ParamCursor) -> (r: Linear)
        requires
            old(cur).pos() + 2 <= old(cur).list().len(),
        ensures
            final(cur).list() == old(cur).list(),
            final(cur).pos() == old(cur).pos() + 2,
            r.w == old(cur).list()[old(cur).pos() as int],
            r.b == old(cur).list()[old(cur).pos() as int + 1],
    {
        let (w, b) = cur.take2();
        Linear { w, b }
    }

    /// Record `x W + b` on the trace: a matrix product node followed by a
    /// broadcast sum with the bias.
    pub fn apply(&self, tr: &mut Trace, x: NodeId) -> (r: Result<NodeId, ShapeError>)
        requires
            old(tr).wf(),
            x < old(tr).node_count(),
            self.w < old(tr).node_count(),
            self.b < old(tr).node_count(),
            node_shape(*old(tr), x).len() >= 2,
            node_shape(*old(tr), self.w).len() >= 2,
            mmh_req(node_shape(*old(tr), x), node_shape(*old(tr), self.w)),
            mmh_ok(node_shape(*old(tr), x), node_shape(*old(tr), self.w)) ==> {
                &&& numel_of(
                    mm_grad_a_shape(node_shape(*old(tr), x), node_shape(*old(tr), self.w)),
                ) <= usize::MAX
                &&& numel_of(
                    mm_grad_b_shape(node_shape(*old(tr), x), node_shape(*old(tr), self.w)),
                ) <= usize::MAX
                &&& (bshape_ok(
                    mmh_shape(node_shape(*old(tr), x), node_shape(*old(tr), self.w)),
                    node_shape(*old(tr), self.b),
                ) ==> numel_of(
                    bshape_of(
                        mmh_shape(node_shape(*old(tr), x), node_shape(*old(tr), self.w)),
                        node_shape(*old(tr), self.b),
                    ),
                ) <= usize::MAX)
            },
        ensures
            final(tr).wf(),
            final(tr).params_view() == old(tr).params_view(),
            match r {
                Ok(id) => {
                    &&& mmh_ok(node_shape(*old(tr), x), node_shape(*old(tr), self.w))
                    &&& bshape_ok(
                        mmh_shape(node_shape(*old(tr), x), node_shape(*old(tr), self.w)),
                        node_shape(*old(tr), self.b),
                    )
                    &&& id == old(tr).node_count() + 1
                    &&& final(tr).node_count() == old(tr).node_count() + 2
                    &&& {
                        let xw_node = final(tr).nodes_view()[old(tr).node_count() as int];
                        let out_node = final(tr).nodes_view()[old(tr).node_count() as int + 1];
                        &&& xw_node.parents_id@ == seq![x, self.w]
                        &&& (xw_node.vjp matches Some(VjpRule::MatMulRule { a, b }) && tensor_eqv(
                            a,
                            node_value(*old(tr), x),
                        ) && tensor_eqv(b, node_value(*old(tr), self.w)))
                        &&& xw_node.value.shape@ == mmh_shape(
                            node_shape(*old(tr), x),
                            node_shape(*old(tr), self.w),
                        )
                        &&& forall|oidx: Seq<int>|
                            in_shape(oidx, xw_node.value.shape@) ==> #[trigger] xw_node.value.elem(
                                oidx,
                            ) == mm_entry(
                                node_value(*old(tr), x),
                                node_value(*old(tr), self.w),
                                oidx,
                            )
                        &&& out_node.parents_id@ == seq![old(tr).node_count() as NodeId, self.b]
                        &&& (out_node.vjp matches Some(VjpRule::AddRule { a_shape, b_shape })
                            && a_shape@ == xw_node.value.shape@ && b_shape@ == node_shape(
                            *old(tr),
                            self.b,
                        ))
                        &&& out_node.value.shape@ == bshape_of(
                            xw_node.value.shape@,
                            node_shape(*old(tr), self.b),
                        )
                        &&& forall|idx: Seq<int>|
                            in_shape(idx, out_node.value.shape@) ==> #[trigger] out_node.value.elem(
                                idx,
                            ) == rat_add(
                                xw_node.value.elem(bsrc_idx(idx, xw_node.value.shape@)),
                                node_value(*old(tr), self.b).elem(
                                    bsrc_idx(idx, node_shape(*old(tr), self.b)),
                                ),
                            )
                    }
                },
                Err(e) => {
                    &&& !(mmh_ok(node_shape(*old(tr), x), node_shape(*old(tr), self.w))
                        && bshape_ok(
                        mmh_shape(node_shape(*old(tr), x), node_shape(*old(tr), self.w)),
                        node_shape(*old(tr), self.b),
                    ))
                    &&& (e == ShapeError::DimMismatch || e == ShapeError::Incompatible)
                    &&& (!mmh_ok(node_shape(*old(tr), x), node_shape(*old(tr), self.w))
                        ==> final(tr).nodes_view() == old(tr).nodes_view())
                    &&& (mmh_ok(node_shape(*old(tr), x), node_shape(*old(tr), self.w))
                        ==> final(tr).node_count() == old(tr).node_count() + 1)
                },
            },
    {
        let xw = match crate::ops::linalg::matmul(tr, x, self.w) {
            Ok(id) => id,
            Err(e) => {
                return Err(e);
            },
        };
        let ghost t1 = *tr;
        let r = crate::ops::elementwise::add(tr, xw, self.b);
        proof {
            let base = old(tr).node_count() as int;
            if r is Ok {
                assert(tr.nodes_view()[base] == t1.nodes_view()[base]);
                assert(t1.nodes_view()[base] == t1.nodes_view().last());
                assert(node_value(t1, xw) == tr.nodes_view()[base].value);
                assert(node_value(t1, self.b) == node_value(*old(tr), self.b));
            }
        }
        r
    }
}

} // verus!