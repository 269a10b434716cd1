//! Registering a parameter list on a trace.

use crate::shape::numel_of;
use crate::tensor::Tensor;
use crate::trace::{NodeId, Trace};
use vstd::prelude::*;

verus! {

/// Register every tensor of `params` as a trainable parameter, in order, and
/// hand back their node ids.
pub fn get_params_id(tr: &mut Trace, params: &Vec<Tensor>) -> (r: Vec<NodeId>)
    requires
        old(tr).wf(),
        forall|i: int|
            0 <= i < params@.len() ==> {
                &&& (#[trigger] params@[i]).wf()
                &&& 1 <= numel_of(params@[i].shape@)
                &&& numel_of(params@[i].shape@) <= usize::MAX
            },
    ensures
        final(tr).wf(),
        r@.len() == params@.len(),
        final(tr).node_count() == old(tr).node_count() + params@.len(),
        final(tr).params_view() == old(tr).params_view() + r@,
        forall|i: int|
            0 <= i < r@.len() ==> {
                &&& (#[trigger] r@[i]) == old(tr).node_count() + i
                &&& crate::trace::node_shape(*final(tr), r@[i]) == params@[i].shape@
            },
{
    let n = params.len();
    let mut ids: Vec<NodeId> = Vec::new();
    let mut i: usize = 0;
    proof {
        assert(tr.params_view() =~= old(tr).params_view() + ids@);
    }
    while i < n
        invariant
            0 <= i <= n,
            n == params@.len(),
            tr.wf(),
            forall|t: int|
                0 <= t < n ==> {
                    &&& (#[trigger] params@[t]).wf()
                    &&& 1 <= numel_of(params@[t].shape@)
                    &&& numel_of(params@[t].shape@) <= usize::MAX
                },
            ids@.len() == i,
            tr.node_count() == old(tr).node_count() + i,
            tr.params_view() == old(tr).params_view() + ids@,
            forall|t: int|
                0 <= t < i ==> {
                    &&& (#[trigger] ids@[t]) == old(tr).node_count() + t
                    &&& crate::trace::node_shape(*tr, ids@[t]) == params@[t].shape@
                },
        decreases n - i,
    {
        let ghost tr_pre = *tr;
        let id = tr.param(params[i].duplicate());
        ids.push(id);
        proof {
            assert(tr.params_view() =~= old(tr).params_view() + ids@);
            assert forall|t: int| 0 <= t < i + 1 implies {
                &&& (#[trigger] ids@[t]) == old(tr).node_count() + t
                &&& crate::trace::node_shape(*tr, ids@[t]) == params@[t].shape@
            } by {
                if t < i {
                    assert(tr.nodes_view()[ids@[t] as int] == tr_pre.nodes_view()[ids@[t] as int]);
                }
            }
        }
        i = i + 1;
    }
    ids
}

} // verus!
