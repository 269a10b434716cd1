//! Plain stochastic gradient descent.

use crate::rat::{rat_add, rat_mul, rat_neg, Rat};
use crate::shape::{in_shape, numel_of};
use crate::tensor::Tensor;
use vstd::prelude::*;

verus! {

/// A fixed-learning-rate gradient-descent step.
pub struct Sgd {
    pub lr: Rat,
}

impl Sgd {
    /// One update: every parameter moves against its gradient, scaled by the
    /// learning rate, order-matched to the registration order.
    pub fn update(&self, params: &Vec<Tensor>, grads: &Vec<Tensor>) -> (r: Vec<Tensor>)
        requires
            self.lr.inv(),
            params@.len() == grads@.len(),
            forall|i: int|
                0 <= i < params@.len() ==> {
                    &&& (#[trigger] params@[i]).wf()
                    &&& grads@[i].wf()
                    &&& grads@[i].shape@ == params@[i].shape@
                    &&& numel_of(params@[i].shape@) <= usize::MAX
                },
        ensures
            r@.len() == params@.len(),
            forall|i: int|
                0 <= i < r@.len() ==> {
                    &&& (#[trigger] r@[i]).wf()
                    &&& r@[i].shape@ == params@[i].shape@
                    &&& forall|idx: Seq<int>|
                        in_shape(idx, params@[i].shape@) ==> #[trigger] r@[i].elem(idx) == rat_add(
                            params@[i].elem(idx),
                            rat_mul(grads@[i].elem(idx), rat_neg(self.lr)),
                        )
                },
    {
        let neg_lr = self.lr.neg();
        let n = params.len();
        let mut out: Vec<Tensor> = Vec::new();
        let mut i: usize = 0;
        while i < n
            invariant
                0 <= i <= n,
                n == params@.len(),
                n == grads@.len(),
                neg_lr == rat_neg(self.lr),
                neg_lr.inv(),
                forall|t: int|
                    0 <= t < n ==> {
                        &&& (#[trigger] params@[t]).wf()
                        &&& grads@[t].wf()
                        &&& grads@[t].shape@ == params@[t].shape@
                        &&& numel_of(params@[t].shape@) <= usize::MAX
                    },
                out@.len() == i,
                forall|t: int|
                    0 <= t < i ==> {
                        &&& (#[trigger] out@[t]).wf()
                        &&& out@[t].shape@ == params@[t].shape@
                        &&& forall|idx: Seq<int>|
                            in_shape(idx, params@[t].shape@) ==> #[trigger] out@[t].elem(idx)
                                == rat_add(
                                params@[t].elem(idx),
                                rat_mul(grads@[t].elem(idx), rat_neg(self.lr)),
                            )
                    },
            decreases n - i,
        {
            let f = |v: Rat| -> (z: Rat)
                requires
                    v.inv(),
                ensures
                    z == rat_mul(v, neg_lr),
                    z.inv(),
                { v.mul(neg_lr) };
            proof {
                assert(params@[i as int].wf());
            }
            let step = grads[i].apply(f);
            proof {
                crate::tensor::lemma_bshape_self(params@[i as int].shape@);
            }
            let upd = match crate::ops::elementwise::add_direct(&params[i], &step) {
                Ok(t) => t,
                Err(_) => {
                    proof {
                        assert(false);
                    }
                    Tensor { data: Vec::new(), shape: Vec::new(), strides: Vec::new(), offset: 0 }
                },
            };
            proof {
                assert forall|idx: Seq<int>| in_shape(idx, params@[i as int].shape@) implies
                    #[trigger] upd.elem(idx) == rat_add(
                    params@[i as int].elem(idx),
                    rat_mul(grads@[i as int].elem(idx), rat_neg(self.lr)),
                ) by {
                    crate::tensor::lemma_bsrc_self(idx, params@[i as int].shape@);
                    assert(f.ensures((grads@[i as int].elem(idx),), step.elem(idx)));
                }
            }
            out.push(upd);
            i = i + 1;
        }
        out
    }
}

} // verus!
