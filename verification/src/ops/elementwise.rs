//! Elementwise binary operators over broadcast operands.
//!
//! Each forward rule reconciles the two operand shapes, reads both operands
//! through the broadcast projection and combines the scalars; the result is a
//! fresh dense tensor of the common shape.

use crate::rat::{rat_add, rat_mul, rat_recip, rat_sub, Rat};
use crate::shape::{idx_from_lin, in_shape, lemma_idx_of_lin, lemma_idx_of_lin_of,
    lemma_lin_of_bounds, numel_checked, numel_of, idx_of, seq_int};
use crate::tensor::{bshape_of, bshape_ok, bsrc_idx, can_broadcast_to, lemma_bshape_feasible,
    lemma_bsrc_in_shape, lemma_elem_in_bounds, lemma_numel_pos_dims, project_idx, ShapeError,
    Tensor};
use crate::trace::{appended, node_shape, node_value, tensor_eqv, Node, NodeId, Trace, VjpRule};
use vstd::prelude::*;

verus! {

/// What the last node of the trace looks like after a broadcast binary
/// operator has been recorded: two parents, the matching rule, and a value
/// combining the parents elementwise under broadcasting.
pub open spec fn binary_node_ensures(
    t0: Trace,
    t1: Trace,
    a: NodeId,
    b: NodeId,
    id: NodeId,
) -> bool {
    &&& id == t0.node_count()
    &&& appended(t0, t1)
    &&& bshape_ok(node_shape(t0, a), node_shape(t0, b))
    &&& t1.nodes_view().last().parents_id@ == seq![a, b]
    &&& t1.nodes_view().last().value.wf()
    &&& t1.nodes_view().last().value.shape@ == bshape_of(node_shape(t0, a), node_shape(t0, b))
}

/// Both operands can actually be presented under their common shape (this can
/// only fail when a zero-sized axis faces a one-sized axis).
pub open spec fn bcast_feasible(a: Seq<usize>, b: Seq<usize>) -> bool {
    bshape_ok(a, b) ==> can_broadcast_to(a, bshape_of(a, b)) && can_broadcast_to(
        b,
        bshape_of(a, b),
    )
}

/// Combine two broadcast operands elementwise with `f`.
fn map2<F: Fn(Rat, Rat) -> Rat>(a: &Tensor, b: &Tensor, f: F) -> (r: Result<Tensor, ShapeError>)
    requires
        a.wf(),
        b.wf(),
        bcast_feasible(a.shape@, b.shape@),
        bshape_ok(a.shape@, b.shape@) ==> numel_of(bshape_of(a.shape@, b.shape@)) <= usize::MAX,
        forall|x: Rat, y: Rat| x.inv() && y.inv() ==> #[trigger] f.requires((x, y)),
        forall|x: Rat, y: Rat, z: Rat| #[trigger] f.ensures((x, y), z) ==> z.inv(),
    ensures
        match r {
            Ok(t) => {
                &&& bshape_ok(a.shape@, b.shape@)
                &&& t.wf()
                &&& t.dense()
                &&& t.shape@ == bshape_of(a.shape@, b.shape@)
                &&& forall|idx: Seq<int>|
                    in_shape(idx, t.shape@) ==> f.ensures(
                        (a.elem(bsrc_idx(idx, a.shape@)), b.elem(bsrc_idx(idx, b.shape@))),
                        #[trigger] t.elem(idx),
                    ) && in_shape(bsrc_idx(idx, a.shape@), a.shape@) && in_shape(
                        bsrc_idx(idx, b.shape@),
                        b.shape@,
                    )
            },
            Err(e) => !bshape_ok(a.shape@, b.shape@) && e == ShapeError::Incompatible,
        },
{
    let out_shape = match Tensor::broadcast_shape(a.shape.as_slice(), b.shape.as_slice()) {
        Ok(v) => v,
        Err(e) => {
            return Err(e);
        },
    };
    let n = match numel_checked(out_shape.as_slice()) {
        Some(n) => n,
        None => {
            proof {
                assert(false);
            }
            0
        },
    };
    let mut data: Vec<Rat> = Vec::new();
    let mut ol: usize = 0;
    while ol < n
        invariant
            0 <= ol <= n,
            a.wf(),
            b.wf(),
            bshape_ok(a.shape@, b.shape@),
            can_broadcast_to(a.shape@, out_shape@),
            can_broadcast_to(b.shape@, out_shape@),
            out_shape@ == bshape_of(a.shape@, b.shape@),
            n as nat == numel_of(out_shape@),
            forall|x: Rat, y: Rat| x.inv() && y.inv() ==> #[trigger] f.requires((x, y)),
            forall|x: Rat, y: Rat, z: Rat| #[trigger] f.ensures((x, y), z) ==> z.inv(),
            data@.len() == ol,
            forall|l: int|
                0 <= l < ol ==> f.ensures(
                    (
                        a.elem(bsrc_idx(idx_of(l, out_shape@), a.shape@)),
                        b.elem(bsrc_idx(idx_of(l, out_shape@), b.shape@)),
                    ),
                    #[trigger] data@[l],
                ) && data@[l].inv(),
        decreases n - ol,
    {
        let oidx = idx_from_lin(out_shape.as_slice(), ol);
        proof {
            lemma_idx_of_lin(ol as int, out_shape@);
            lemma_bsrc_in_shape(a.shape@, out_shape@, seq_int(oidx@));
            lemma_bsrc_in_shape(b.shape@, out_shape@, seq_int(oidx@));
        }
        let ia = project_idx(oidx.as_slice(), a.shape.as_slice());
        let ib = project_idx(oidx.as_slice(), b.shape.as_slice());
        let x = a.get(ia.as_slice());
        let y = b.get(ib.as_slice());
        let z = f(x, y);
        data.push(z);
        ol = ol + 1;
    }
    match Tensor::from_owned(data, out_shape.as_slice()) {
        Ok(t) => {
            proof {
                assert forall|idx: Seq<int>| in_shape(idx, t.shape@) implies f.ensures(
                    (a.elem(bsrc_idx(idx, a.shape@)), b.elem(bsrc_idx(idx, b.shape@))),
                    #[trigger] t.elem(idx),
                ) && in_shape(bsrc_idx(idx, a.shape@), a.shape@) && in_shape(
                    bsrc_idx(idx, b.shape@),
                    b.shape@,
                ) by {
                    lemma_lin_of_bounds(idx, out_shape@);
                    lemma_idx_of_lin_of(idx, out_shape@);
                    lemma_bsrc_in_shape(a.shape@, out_shape@, idx);
                    lemma_bsrc_in_shape(b.shape@, out_shape@, idx);
                }
            }
            Ok(t)
        },
        Err(_) => {
            proof {
                assert(false);
            }
            Err(ShapeError::Incompatible)
        },
    }
}

/// Elementwise sum of two broadcast operands.
pub fn add_direct(a: &Tensor, b: &Tensor) -> (r: Result<Tensor, ShapeError>)
    requires
        a.wf(),
        b.wf(),
        bcast_feasible(a.shape@, b.shape@),
        bshape_ok(a.shape@, b.shape@) ==> numel_of(bshape_of(a.shape@, b.shape@)) <= usize::MAX,
    ensures
        match r {
            Ok(t) => {
                &&& bshape_ok(a.shape@, b.shape@)
                &&& t.wf()
                &&& t.dense()
                &&& t.shape@ == bshape_of(a.shape@, b.shape@)
                &&& forall|idx: Seq<int>|
                    in_shape(idx, t.shape@) ==> #[trigger] t.elem(idx) == rat_add(
                        a.elem(bsrc_idx(idx, a.shape@)),
                        b.elem(bsrc_idx(idx, b.shape@)),
                    )
            },
            Err(e) => !bshape_ok(a.shape@, b.shape@) && e == ShapeError::Incompatible,
        },
{
    let f = |x: Rat, y: Rat| -> (z: Rat)
        requires
            x.inv(),
            y.inv(),
        ensures
            z == rat_add(x, y),
            z.inv(),
        { x.add(y) };
    match map2(a, b, f) {
        Ok(t) => {
            proof {
                assert forall|idx: Seq<int>| in_shape(idx, t.shape@) implies #[trigger] t.elem(idx)
                    == rat_add(
                    a.elem(bsrc_idx(idx, a.shape@)),
                    b.elem(bsrc_idx(idx, b.shape@)),
                ) by {
                    assert(f.ensures(
                        (a.elem(bsrc_idx(idx, a.shape@)), b.elem(bsrc_idx(idx, b.shape@))),
                        t.elem(idx),
                    ));
                }
            }
            Ok(t)
        },
        Err(e) => Err(e),
    }
}

/// Elementwise difference of two broadcast operands.
pub fn sub_direct(a: &Tensor, b: &Tensor) -> (r: Result<Tensor, ShapeError>)
    requires
        a.wf(),
        b.wf(),
        bcast_feasible(a.shape@, b.shape@),
        bshape_ok(a.shape@, b.shape@) ==> numel_of(bshape_of(a.shape@, b.shape@)) <= usize::MAX,
    ensures
        match r {
            Ok(t) => {
                &&& bshape_ok(a.shape@, b.shape@)
                &&& t.wf()
                &&& t.dense()
                &&& t.shape@ == bshape_of(a.shape@, b.shape@)
                &&& forall|idx: Seq<int>|
                    in_shape(idx, t.shape@) ==> #[trigger] t.elem(idx) == rat_sub(
                        a.elem(bsrc_idx(idx, a.shape@)),
                        b.elem(bsrc_idx(idx, b.shape@)),
                    )
            },
            Err(e) => !bshape_ok(a.shape@, b.shape@) && e == ShapeError::Incompatible,
        },
{
    let f = |x: Rat, y: Rat| -> (z: Rat)
        requires
            x.inv(),
            y.inv(),
        ensures
            z == rat_sub(x, y),
            z.inv(),
        { x.sub(y) };
    match map2(a, b, f) {
        Ok(t) => {
            proof {
                assert forall|idx: Seq<int>| in_shape(idx, t.shape@) implies #[trigger] t.elem(idx)
                    == rat_sub(
                    a.elem(bsrc_idx(idx, a.shape@)),
                    b.elem(bsrc_idx(idx, b.shape@)),
                ) by {
                    assert(f.ensures(
                        (a.elem(bsrc_idx(idx, a.shape@)), b.elem(bsrc_idx(idx, b.shape@))),
                        t.elem(idx),
                    ));
                }
            }
            Ok(t)
        },
        Err(e) => Err(e),
    }
}

/// Elementwise (Hadamard) product of two broadcast operands.
pub fn hadamard_mul_direct(a: &Tensor, b: &Tensor) -> (r: Result<Tensor, ShapeError>)
    requires
        a.wf(),
        b.wf(),
        bcast_feasible(a.shape@, b.shape@),
        bshape_ok(a.shape@, b.shape@) ==> numel_of(bshape_of(a.shape@, b.shape@)) <= usize::MAX,
    ensures
        match r {
            Ok(t) => {
                &&& bshape_ok(a.shape@, b.shape@)
                &&& t.wf()
                &&& t.dense()
                &&& t.shape@ == bshape_of(a.shape@, b.shape@)
                &&& forall|idx: Seq<int>|
                    in_shape(idx, t.shape@) ==> #[trigger] t.elem(idx) == rat_mul(
                        a.elem(bsrc_idx(idx, a.shape@)),
                        b.elem(bsrc_idx(idx, b.shape@)),
                    )
            },
            Err(e) => !bshape_ok(a.shape@, b.shape@) && e == ShapeError::Incompatible,
        },
{
    let f = |x: Rat, y: Rat| -> (z: Rat)
        requires
            x.inv(),
            y.inv(),
        ensures
            z == rat_mul(x, y),
            z.inv(),
        { x.mul(y) };
    match map2(a, b, f) {
        Ok(t) => {
            proof {
                assert forall|idx: Seq<int>| in_shape(idx, t.shape@) implies #[trigger] t.elem(idx)
                    == rat_mul(
                    a.elem(bsrc_idx(idx, a.shape@)),
                    b.elem(bsrc_idx(idx, b.shape@)),
                ) by {
                    assert(f.ensures(
                        (a.elem(bsrc_idx(idx, a.shape@)), b.elem(bsrc_idx(idx, b.shape@))),
                        t.elem(idx),
                    ));
                }
            }
            Ok(t)
        },
        Err(e) => Err(e),
    }
}

/// Elementwise quotient of two broadcast operands: each element of the left
/// operand times the reciprocal of the matching element of the right one.
pub fn div_direct(a: &Tensor, b: &Tensor) -> (r: Result<Tensor, ShapeError>)
    requires
        a.wf(),
        b.wf(),
        bcast_feasible(a.shape@, b.shape@),
        bshape_ok(a.shape@, b.shape@) ==> numel_of(bshape_of(a.shape@, b.shape@)) <= usize::MAX,
        forall|idx: Seq<int>|
            in_shape(idx, b.shape@) ==> (#[trigger] b.elem(idx)).num != 0,
    ensures
        match r {
            Ok(t) => {
                &&& bshape_ok(a.shape@, b.shape@)
                &&& t.wf()
                &&& t.dense()
                &&& t.shape@ == bshape_of(a.shape@, b.shape@)
                &&& forall|idx: Seq<int>|
                    in_shape(idx, t.shape@) ==> #[trigger] t.elem(idx) == rat_mul(
                        a.elem(bsrc_idx(idx, a.shape@)),
                        rat_recip(b.elem(bsrc_idx(idx, b.shape@))),
                    )
            },
            Err(e) => !bshape_ok(a.shape@, b.shape@) && e == ShapeError::Incompatible,
        },
{
    let out_shape = match Tensor::broadcast_shape(a.shape.as_slice(), b.shape.as_slice()) {
        Ok(v) => v,
        Err(e) => {
            return Err(e);
        },
    };
    let n = match numel_checked(out_shape.as_slice()) {
        Some(n) => n,
        None => {
            proof {
                assert(false);
            }
            0
        },
    };
    let mut data: Vec<Rat> = Vec::new();
    let mut ol: usize = 0;
    while ol < n
        invariant
            0 <= ol <= n,
            a.wf(),
            b.wf(),
            bshape_ok(a.shape@, b.shape@),
            can_broadcast_to(a.shape@, out_shape@),
            can_broadcast_to(b.shape@, out_shape@),
            out_shape@ == bshape_of(a.shape@, b.shape@),
            n as nat == numel_of(out_shape@),
            forall|idx: Seq<int>|
                in_shape(idx, b.shape@) ==> (#[trigger] b.elem(idx)).num != 0,
            data@.len() == ol,
            forall|l: int|
                0 <= l < ol ==> #[trigger] data@[l] == rat_mul(
                    a.elem(bsrc_idx(idx_of(l, out_shape@), a.shape@)),
                    rat_recip(b.elem(bsrc_idx(idx_of(l, out_shape@), b.shape@))),
                ) && data@[l].inv(),
        decreases n - ol,
    {
        let oidx = idx_from_lin(out_shape.as_slice(), ol);
        proof {
            lemma_idx_of_lin(ol as int, out_shape@);
            lemma_bsrc_in_shape(a.shape@, out_shape@, seq_int(oidx@));
            lemma_bsrc_in_shape(b.shape@, out_shape@, seq_int(oidx@));
        }
        let ia = project_idx(oidx.as_slice(), a.shape.as_slice());
        let ib = project_idx(oidx.as_slice(), b.shape.as_slice());
        let x = a.get(ia.as_slice());
        let y = b.get(ib.as_slice());
        let z = x.mul(y.recip());
        data.push(z);
        ol = ol + 1;
    }
    match Tensor::from_owned(data, out_shape.as_slice()) {
        Ok(t) => {
            proof {
                assert forall|idx: Seq<int>| in_shape(idx, t.shape@) implies #[trigger] t.elem(idx)
                    == rat_mul(
                    a.elem(bsrc_idx(idx, a.shape@)),
                    rat_recip(b.elem(bsrc_idx(idx, b.shape@))),
                ) by {
                    lemma_lin_of_bounds(idx, out_shape@);
                    lemma_idx_of_lin_of(idx, out_shape@);
                }
            }
            Ok(t)
        },
        Err(_) => {
            proof {
                assert(false);
            }
            Err(ShapeError::Incompatible)
        },
    }
}

/// Record a broadcast elementwise sum of two nodes on the trace.
pub fn add(tr: &mut Trace, a: NodeId, b: NodeId) -> (r: Result<NodeId, ShapeError>)
    requires
        old(tr).wf(),
        a < old(tr).node_count(),
        b < old(tr).node_count(),
        bshape_ok(node_shape(*old(tr), a), node_shape(*old(tr), b)) ==> numel_of(
            bshape_of(node_shape(*old(tr), a), node_shape(*old(tr), b)),
        ) <= usize::MAX,
    ensures
        match r {
            Ok(id) => {
                &&& binary_node_ensures(*old(tr), *final(tr), a, b, id)
                &&& (final(tr).nodes_view().last().vjp matches Some(VjpRule::AddRule {
                    a_shape,
                    b_shape,
                }) && a_shape@ == node_shape(*old(tr), a) && b_shape@ == node_shape(*old(tr), b))
                &&& forall|idx: Seq<int>|
                    in_shape(
                        idx,
                        bshape_of(node_shape(*old(tr), a), node_shape(*old(tr), b)),
                    ) ==> #[trigger] final(tr).nodes_view().last().value.elem(idx) == rat_add(
                        node_value(*old(tr), a).elem(
                            bsrc_idx(idx, node_shape(*old(tr), a)),
                        ),
                        node_value(*old(tr), b).elem(
                            bsrc_idx(idx, node_shape(*old(tr), b)),
                        ),
                    )
            },
            Err(e) => {
                &&& !bshape_ok(node_shape(*old(tr), a), node_shape(*old(tr), b))
                &&& e == ShapeError::Incompatible
                &&& final(tr).nodes_view() == old(tr).nodes_view()
                &&& final(tr).params_view() == old(tr).params_view()
            },
        },
{
    let va = tr.get_tensor(a).duplicate();
    let vb = tr.get_tensor(b).duplicate();
    proof {
        assert(crate::trace::node_ok(tr.nodes_view(), a as int));
        assert(crate::trace::node_ok(tr.nodes_view(), b as int));
        lemma_numel_pos_dims(va.shape@);
        lemma_numel_pos_dims(vb.shape@);
        if bshape_ok(va.shape@, vb.shape@) {
            lemma_bshape_feasible(va.shape@, vb.shape@);
        }
    }
    let ash = va.shape.clone();
    let bsh = vb.shape.clone();
    proof {
        assert(ash@ =~= va.shape@);
        assert(bsh@ =~= vb.shape@);
    }
    match add_direct(&va, &vb) {
        Ok(value) => {
            proof {
                crate::shape::lemma_numel_pos(value.shape@);
            }
            let mut parents: Vec<NodeId> = Vec::new();
            parents.push(a);
            parents.push(b);
            let node = Node {
                value,
                parents_id: parents,
                vjp: Some(VjpRule::AddRule { a_shape: ash, b_shape: bsh }),
                is_param: false,
            };
            proof {
                let nodes2 = tr.nodes_view().push(node);
                assert(node.parents_id@ =~= seq![a, b]);
                assert(nodes2[a as int] == tr.nodes_view()[a as int]);
                assert(nodes2[b as int] == tr.nodes_view()[b as int]);
                assert(crate::trace::node_ok(nodes2, tr.nodes_view().len() as int));
            }
            let id = tr.push(node);
            Ok(id)
        },
        Err(e) => Err(e),
    }
}

/// Record a broadcast elementwise difference of two nodes on the trace.
pub fn sub(tr: &mut Trace, a: NodeId, b: NodeId) -> (r: Result<NodeId, ShapeError>)
    requires
        old(tr).wf(),
        a < old(tr).node_count(),
        b < old(tr).node_count(),
        bshape_ok(node_shape(*old(tr), a), node_shape(*old(tr), b)) ==> numel_of(
            bshape_of(node_shape(*old(tr), a), node_shape(*old(tr), b)),
        ) <= usize::MAX,
    ensures
        match r {
            Ok(id) => {
                &&& binary_node_ensures(*old(tr), *final(tr), a, b, id)
                &&& (final(tr).nodes_view().last().vjp matches Some(VjpRule::SubRule {
                    a_shape,
                    b_shape,
                }) && a_shape@ == node_shape(*old(tr), a) && b_shape@ == node_shape(*old(tr), b))
                &&& forall|idx: Seq<int>|
                    in_shape(
                        idx,
                        bshape_of(node_shape(*old(tr), a), node_shape(*old(tr), b)),
                    ) ==> #[trigger] final(tr).nodes_view().last().value.elem(idx) == rat_sub(
                        node_value(*old(tr), a).elem(
                            bsrc_idx(idx, node_shape(*old(tr), a)),
                        ),
                        node_value(*old(tr), b).elem(
                            bsrc_idx(idx, node_shape(*old(tr), b)),
                        ),
                    )
            },
            Err(e) => {
                &&& !bshape_ok(node_shape(*old(tr), a), node_shape(*old(tr), b))
                &&& e == ShapeError::Incompatible
                &&& final(tr).nodes_view() == old(tr).nodes_view()
                &&& final(tr).params_view() == old(tr).params_view()
            },
        },
{
    let va = tr.get_tensor(a).duplicate();
    let vb = tr.get_tensor(b).duplicate();
    proof {
        assert(crate::trace::node_ok(tr.nodes_view(), a as int));
        assert(crate::trace::node_ok(tr.nodes_view(), b as int));
        lemma_numel_pos_dims(va.shape@);
        lemma_numel_pos_dims(vb.shape@);
        if bshape_ok(va.shape@, vb.shape@) {
            lemma_bshape_feasible(va.shape@, vb.shape@);
        }
    }
    let ash = va.shape.clone();
    let bsh = vb.shape.clone();
    proof {
        assert(ash@ =~= va.shape@);
        assert(bsh@ =~= vb.shape@);
    }
    match sub_direct(&va, &vb) {
        Ok(value) => {
            proof {
                crate::shape::lemma_numel_pos(value.shape@);
            }
            let mut parents: Vec<NodeId> = Vec::new();
            parents.push(a);
            parents.push(b);
            let node = Node {
                value,
                parents_id: parents,
                vjp: Some(VjpRule::SubRule { a_shape: ash, b_shape: bsh }),
                is_param: false,
            };
            proof {
                let nodes2 = tr.nodes_view().push(node);
                assert(node.parents_id@ =~= seq![a, b]);
                assert(nodes2[a as int] == tr.nodes_view()[a as int]);
                assert(nodes2[b as int] == tr.nodes_view()[b as int]);
                assert(crate::trace::node_ok(nodes2, tr.nodes_view().len() as int));
            }
            let id = tr.push(node);
            Ok(id)
        },
        Err(e) => Err(e),
    }
}

/// Record a broadcast elementwise product of two nodes on the trace.
pub fn hadamard_mul(tr: &mut Trace, a: NodeId, b: NodeId) -> (r: Result<NodeId, ShapeError>)
    requires
        old(tr).wf(),
        a < old(tr).node_count(),
        b < old(tr).node_count(),
        bshape_ok(node_shape(*old(tr), a), node_shape(*old(tr), b)) ==> numel_of(
            bshape_of(node_shape(*old(tr), a), node_shape(*old(tr), b)),
        ) <= usize::MAX,
    ensures
        match r {
            Ok(id) => {
                &&& binary_node_ensures(*old(tr), *final(tr), a, b, id)
                &&& (final(tr).nodes_view().last().vjp matches Some(VjpRule::MulRule {
                    a: ac,
                    b: bc,
                }) && tensor_eqv(ac, node_value(*old(tr), a)) && tensor_eqv(
                    bc,
                    node_value(*old(tr), b),
                ))
                &&& forall|idx: Seq<int>|
                    in_shape(
                        idx,
                        bshape_of(node_shape(*old(tr), a), node_shape(*old(tr), b)),
                    ) ==> #[trigger] final(tr).nodes_view().last().value.elem(idx) == rat_mul(
                        node_value(*old(tr), a).elem(
                            bsrc_idx(idx, node_shape(*old(tr), a)),
                        ),
                        node_value(*old(tr), b).elem(
                            bsrc_idx(idx, node_shape(*old(tr), b)),
                        ),
                    )
            },
            Err(e) => {
                &&& !bshape_ok(node_shape(*old(tr), a), node_shape(*old(tr), b))
                &&& e == ShapeError::Incompatible
                &&& final(tr).nodes_view() == old(tr).nodes_view()
                &&& final(tr).params_view() == old(tr).params_view()
            },
        },
{
    let va = tr.get_tensor(a).duplicate();
    let vb = tr.get_tensor(b).duplicate();
    proof {
        assert(crate::trace::node_ok(tr.nodes_view(), a as int));
        assert(crate::trace::node_ok(tr.nodes_view(), b as int));
        lemma_numel_pos_dims(va.shape@);
        lemma_numel_pos_dims(vb.shape@);
        if bshape_ok(va.shape@, vb.shape@) {
            lemma_bshape_feasible(va.shape@, vb.shape@);
        }
    }
    match hadamard_mul_direct(&va, &vb) {
        Ok(value) => {
            proof {
                crate::shape::lemma_numel_pos(value.shape@);
            }
            let mut parents: Vec<NodeId> = Vec::new();
            parents.push(a);
            parents.push(b);
            let node = Node {
                value,
                parents_id: parents,
                vjp: Some(VjpRule::MulRule { a: va, b: vb }),
                is_param: false,
            };
            proof {
                let nodes2 = tr.nodes_view().push(node);
                assert(node.parents_id@ =~= seq![a, b]);
                assert(nodes2[a as int] == tr.nodes_view()[a as int]);
                assert(nodes2[b as int] == tr.nodes_view()[b as int]);
                assert(crate::trace::node_ok(nodes2, tr.nodes_view().len() as int));
            }
            let id = tr.push(node);
            Ok(id)
        },
        Err(e) => Err(e),
    }
}


/// Record a broadcast elementwise quotient of two nodes on the trace; its
/// backward rule follows the quotient rule.  The divisor must be elementwise
/// non-zero, since a rational has no value at a zero denominator.
pub fn div(tr: &mut Trace, a: NodeId, b: NodeId) -> (r: Result<NodeId, ShapeError>)
    requires
        old(tr).wf(),
        a < old(tr).node_count(),
        b < old(tr).node_count(),
        bshape_ok(node_shape(*old(tr), a), node_shape(*old(tr), b)) ==> numel_of(
            bshape_of(node_shape(*old(tr), a), node_shape(*old(tr), b)),
        ) <= usize::MAX,
        forall|idx: Seq<int>|
            in_shape(idx, node_shape(*old(tr), b)) ==> (#[trigger] node_value(
                *old(tr),
                b,
            ).elem(idx)).num != 0,
    ensures
        match r {
            Ok(id) => {
                &&& binary_node_ensures(*old(tr), *final(tr), a, b, id)
                &&& (final(tr).nodes_view().last().vjp matches Some(VjpRule::DivRule {
                    a: ac,
                    b: bc,
                }) && tensor_eqv(ac, node_value(*old(tr), a)) && tensor_eqv(
                    bc,
                    node_value(*old(tr), b),
                ))
                &&& forall|idx: Seq<int>|
                    in_shape(
                        idx,
                        bshape_of(node_shape(*old(tr), a), node_shape(*old(tr), b)),
                    ) ==> #[trigger] final(tr).nodes_view().last().value.elem(idx) == rat_mul(
                        node_value(*old(tr), a).elem(
                            bsrc_idx(idx, node_shape(*old(tr), a)),
                        ),
                        rat_recip(
                            node_value(*old(tr), b).elem(
                                bsrc_idx(idx, node_shape(*old(tr), b)),
                            ),
                        ),
                    )
            },
            Err(e) => {
                &&& !bshape_ok(node_shape(*old(tr), a), node_shape(*old(tr), b))
                &&& e == ShapeError::Incompatible
                &&& final(tr).nodes_view() == old(tr).nodes_view()
                &&& final(tr).params_view() == old(tr).params_view()
            },
        },
{
    let va = tr.get_tensor(a).duplicate();
    let vb = tr.get_tensor(b).duplicate();
    proof {
        assert(crate::trace::node_ok(tr.nodes_view(), a as int));
        assert(crate::trace::node_ok(tr.nodes_view(), b as int));
        lemma_numel_pos_dims(va.shape@);
        lemma_numel_pos_dims(vb.shape@);
        if bshape_ok(va.shape@, vb.shape@) {
            lemma_bshape_feasible(va.shape@, vb.shape@);
        }
        assert forall|idx: Seq<int>| in_shape(idx, vb.shape@) implies (#[trigger] vb.elem(
            idx,
        )).num != 0 by {
            assert(node_value(*tr, b).elem(idx) == vb.elem(idx));
        }
    }
    match div_direct(&va, &vb) {
        Ok(value) => {
            proof {
                crate::shape::lemma_numel_pos(value.shape@);
            }
            let mut parents: Vec<NodeId> = Vec::new();
            parents.push(a);
            parents.push(b);
            let node = Node {
                value,
                parents_id: parents,
                vjp: Some(VjpRule::DivRule { a: va, b: vb }),
                is_param: false,
            };
            proof {
                let nodes2 = tr.nodes_view().push(node);
                assert(node.parents_id@ =~= seq![a, b]);
                assert(nodes2[a as int] == tr.nodes_view()[a as int]);
                assert(nodes2[b as int] == tr.nodes_view()[b as int]);
                assert(crate::trace::node_ok(nodes2, tr.nodes_view().len() as int));
            }
            let id = tr.push(node);
            Ok(id)
        },
        Err(e) => Err(e),
    }
}

} // verus!
