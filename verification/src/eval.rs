//! The circuit evaluator: per-layer output vectors and the public-equality
//! invariant.
//!
//! Evaluation recomputes every gate from the witness's input wires in
//! dependency order — each gate once both of its operands have values,
//! which respects the layer order — and groups the resulting wire values
//! by layer.  The trailing public-equality segment of the final layer must
//! consist entirely of the additive identity; otherwise the circuit is
//! unsatisfied and proving must never proceed.

use crate::circuit::{first_gate, LayeredCircuit};
use crate::field::{frs_ok, vals, Fr};
use crate::solver::{compute_wires, witness_ok};
use vstd::prelude::*;

verus! {

/// Why evaluation failed.
#[derive(Clone, Copy, PartialEq, Eq, Structural, Debug)]
pub enum EvalError {
    /// A public-equality obligation of the final layer is not zero.
    UnsatisfiedCircuit,
}

/// The wires that sit in layer `l`, among the first `upto` wires, in
/// ascending order.
pub open spec fn wires_at_upto(depth: Seq<usize>, l: int, upto: int) -> Seq<int>
    decreases upto,
{
    if upto <= 0 {
        Seq::empty()
    } else {
        let pre = wires_at_upto(depth, l, upto - 1);
        if depth[upto - 1] == l {
            pre.push(upto - 1)
        } else {
            pre
        }
    }
}

impl LayeredCircuit {
    /// The wires of layer `l`, in ascending order.
    pub open spec fn wires_at(self, l: int) -> Seq<int> {
        wires_at_upto(self.depth@, l, self.n())
    }

    /// The input residues a witness supplies: the values of the input
    /// wires (the variables and the public-output wire).
    pub open spec fn inputs_of(self, w: Seq<Fr>) -> Seq<int> {
        vals(w.take(first_gate(self.vc())))
    }

    /// The output vector of layer `l` on the given input residues.
    pub open spec fn layer_vals(self, inputs: Seq<int>, l: int) -> Seq<int> {
        self.wires_at(l).map_values(|w: int| self.shape.wire_val(inputs, w))
    }

    /// The value of the one public-equality obligation wire.
    pub open spec fn obligation_val(self, inputs: Seq<int>) -> int {
        self.shape.wire_val(inputs, self.n() - 1)
    }
}

/// A layer holds at most as many wires as the circuit has.
pub proof fn lemma_wires_at_len(depth: Seq<usize>, l: int, upto: int)
    ensures
        wires_at_upto(depth, l, upto).len() <= if upto >= 0 {
            upto
        } else {
            0
        },
    decreases upto,
{
    if upto > 0 {
        lemma_wires_at_len(depth, l, upto - 1);
    }
}

/// Every entry of a layer's wire list is a wire index below `upto`.
pub proof fn lemma_wires_at_range(depth: Seq<usize>, l: int, upto: int)
    ensures
        forall|k: int|
            0 <= k < wires_at_upto(depth, l, upto).len() ==> 0 <= #[trigger] wires_at_upto(
                depth,
                l,
                upto,
            )[k] < upto,
    decreases upto,
{
    if upto > 0 {
        lemma_wires_at_range(depth, l, upto - 1);
        let pre = wires_at_upto(depth, l, upto - 1);
        let cur = wires_at_upto(depth, l, upto);
        assert forall|k: int| 0 <= k < cur.len() implies 0 <= #[trigger] cur[k] < upto by {
            if depth[upto - 1] == l {
                assert(cur == pre.push(upto - 1));
            } else {
                assert(cur == pre);
            }
            if k < pre.len() {
                assert(0 <= pre[k] < upto - 1);
            }
        }
    }
}

/// In a well-formed layered circuit the final layer consists of exactly
/// the obligation wire.
pub proof fn lemma_final_layer(depth: Seq<usize>, l: int, upto: int, n: int)
    requires
        0 < n <= depth.len(),
        upto <= n,
        l == depth[n - 1],
        forall|w: int| 0 <= w < n - 1 ==> #[trigger] depth[w] < depth[n - 1],
    ensures
        upto <= n - 1 ==> wires_at_upto(depth, l, upto) =~= Seq::<int>::empty(),
        upto == n ==> wires_at_upto(depth, l, upto) =~= seq![n - 1],
    decreases upto,
{
    if upto > 0 {
        lemma_final_layer(depth, l, upto - 1, n);
    }
}

/// Executes the layered circuit against a witness: recomputes every wire
/// from the witness's input wires in dependency order and returns the
/// per-layer output vectors, provided the trailing public-equality segment
/// of the final layer is all zero.  Fails with `UnsatisfiedCircuit`
/// exactly when the obligation value is not the additive identity.
pub fn evaluate(c: &LayeredCircuit, witness: &Vec<Fr>) -> (r: Result<Vec<Vec<Fr>>, EvalError>)
    requires
        c.wf(),
        frs_ok(witness@),
        witness@.len() == c.n(),
    ensures
        r is Ok <==> c.obligation_val(c.inputs_of(witness@)) == 0,
        r is Err ==> r->Err_0 == EvalError::UnsatisfiedCircuit,
        r is Ok ==> {
            let layers = r->Ok_0;
            &&& layers@.len() == c.num_layers()
            &&& forall|l: int|
                0 <= l < layers@.len() ==> vals(#[trigger] layers@[l]@) == c.layer_vals(
                    c.inputs_of(witness@),
                    l,
                )
            &&& forall|l: int| 0 <= l < layers@.len() ==> frs_ok(#[trigger] layers@[l]@)
        },
{
    let vc = c.shape.var_count;
    let fg = vc + 1;
    let mut inputs: Vec<Fr> = Vec::new();
    let mut j: usize = 0;
    while j < fg
        invariant
            0 <= j <= fg,
            witness@.len() >= fg,
            frs_ok(witness@),
            inputs@ == witness@.subrange(0, j as int),
        decreases fg - j,
    {
        inputs.push(witness[j]);
        proof {
            assert(inputs@ =~= witness@.subrange(0, j + 1 as int));
        }
        j = j + 1;
    }
    let ghost ivals = c.inputs_of(witness@);
    proof {
        assert(inputs@ =~= witness@.take(first_gate(c.vc())));
    }
    let vals_all = compute_wires(&c.shape, &inputs);
    let n = vals_all.len();
    proof {
        assert(n >= 2);
    }
    let obligation = vals_all[n - 1];
    if !obligation.is_zero() {
        return Err(EvalError::UnsatisfiedCircuit);
    }
    let num_layers = c.depth[n - 1] + 1;
    let mut layers: Vec<Vec<Fr>> = Vec::new();
    let mut l: usize = 0;
    while l < num_layers
        invariant
            0 <= l <= num_layers,
            c.wf(),
            witness_ok(c.shape, ivals, vals_all@),
            n == c.n(),
            num_layers == c.num_layers(),
            layers@.len() == l,
            forall|x: int|
                0 <= x < l ==> vals(#[trigger] layers@[x]@) == c.layer_vals(ivals, x),
            forall|x: int| 0 <= x < l ==> frs_ok(#[trigger] layers@[x]@),
        decreases num_layers - l,
    {
        let mut cur: Vec<Fr> = Vec::new();
        proof {
            assert(vals(cur@) =~= wires_at_upto(c.depth@, l as int, 0).map_values(
                |x: int| c.shape.wire_val(ivals, x),
            ));
        }
        let mut w: usize = 0;
        while w < n
            invariant
                0 <= w <= n,
                c.wf(),
                witness_ok(c.shape, ivals, vals_all@),
                n == c.n(),
                vals(cur@) == wires_at_upto(c.depth@, l as int, w as int).map_values(
                    |x: int| c.shape.wire_val(ivals, x),
                ),
                frs_ok(cur@),
            decreases n - w,
        {
            if c.depth[w] == l {
                let ghost cur0 = cur@;
                cur.push(vals_all[w]);
                proof {
                    let pre = wires_at_upto(c.depth@, l as int, w as int);
                    assert(wires_at_upto(c.depth@, l as int, w + 1 as int) == pre.push(w as int));
                    assert(vals_all@[w as int].val() == c.shape.wire_val(ivals, w as int));
                    assert(vals(cur@) =~= vals(cur0).push(vals_all@[w as int].val()));
                    assert(vals(cur0).push(vals_all@[w as int].val()) =~= pre.push(w as int)
                        .map_values(|x: int| c.shape.wire_val(ivals, x)));
                }
            } else {
                proof {
                    assert(wires_at_upto(c.depth@, l as int, w + 1 as int) == wires_at_upto(
                        c.depth@,
                        l as int,
                        w as int,
                    ));
                    assert(vals(cur@) =~= wires_at_upto(c.depth@, l as int, w + 1 as int)
                        .map_values(|x: int| c.shape.wire_val(ivals, x)));
                }
            }
            w = w + 1;
        }
        layers.push(cur);
        l = l + 1;
    }
    Ok(layers)
}

} // verus!
