//! The library-wide laws, each proved once and for all inputs.

use crate::circuit::{lemma_wire_val_range, CircuitShape, CompileResult, compiled_ok};
use crate::expr::{eval_expr, Expression};
use crate::field::{fsub, p, Fr, MODULUS};
use crate::protocol::{lemma_verify_accepts, prove_spec, public_table, verify_spec};
use crate::solver::witness_ok;
use vstd::arithmetic::div_mod::{lemma_mod_multiples_vanish, lemma_small_mod};
use vstd::prelude::*;

verus! {

/// A field difference of canonical residues vanishes exactly when the two
/// residues are equal.
pub proof fn lemma_fsub_zero_iff(x: int, y: int)
    requires
        0 <= x < p(),
        0 <= y < p(),
    ensures
        fsub(x, y) == 0 <==> x == y,
{
    if x >= y {
        lemma_small_mod((x - y) as nat, MODULUS as nat);
    } else {
        lemma_mod_multiples_vanish(1, x - y, p());
        lemma_small_mod((x - y + p()) as nat, MODULUS as nat);
    }
}

/// For every expression and every assignment of the declared arity, the
/// compiled circuit's public-equality segment evaluates to the additive
/// identity exactly when the expression's value over the field equals the
/// declared public output.
pub proof fn lemma_satisfaction_iff(
    e: Expression,
    arity: usize,
    cr: CompileResult,
    inputs: Seq<int>,
)
    requires
        compiled_ok(e, arity, cr),
        inputs.len() == arity + 1,
        forall|i: int| 0 <= i < inputs.len() ==> 0 <= #[trigger] inputs[i] < p(),
    ensures
        cr.layered_circuit.obligation_val(inputs) == 0 <==> eval_expr(e, inputs) == inputs[arity as int],
{
    let c = cr.layered_circuit;
    assert(c.obligation_val(inputs) == fsub(eval_expr(e, inputs), inputs[arity as int]));
    lemma_wire_val_range(c.vc(), c.shape.defs@, inputs, c.out_wire as int);
    assert(c.shape.wire_val(inputs, c.out_wire as int) == eval_expr(e, inputs));
    lemma_fsub_zero_iff(eval_expr(e, inputs), inputs[arity as int]);
}

/// Solving is deterministic: any two witnesses of one circuit on one
/// assignment are identical, element for element.
pub proof fn lemma_solve_deterministic(
    shape: CircuitShape,
    inputs: Seq<int>,
    w1: Seq<Fr>,
    w2: Seq<Fr>,
)
    requires
        witness_ok(shape, inputs, w1),
        witness_ok(shape, inputs, w2),
    ensures
        w1 == w2,
{
    assert forall|k: int| 0 <= k < w1.len() implies w1[k] == #[trigger] w2[k] by {
        assert(w1[k].val() == shape.wire_val(inputs, k));
        assert(w2[k].val() == shape.wire_val(inputs, k));
        assert(w1[k].v == w2[k].v);
    }
    assert(w1 =~= w2);
}

/// The whole pipeline is complete: whenever an assignment genuinely
/// satisfies an expression's arithmetic relation over the field, the
/// compiled circuit's honest proof of it is accepted by the verifier,
/// with the prover's own public inputs gathered.
pub proof fn lemma_pipeline_accepts(
    e: Expression,
    arity: usize,
    cr: CompileResult,
    inputs: Seq<int>,
)
    requires
        compiled_ok(e, arity, cr),
        inputs.len() == arity + 1,
        forall|i: int| 0 <= i < inputs.len() ==> 0 <= #[trigger] inputs[i] < p(),
        eval_expr(e, inputs) == inputs[arity as int],
    ensures
        verify_spec(
            cr.layered_circuit,
            public_table(inputs, cr.layered_circuit.vc()),
            prove_spec(cr.layered_circuit, inputs).1,
            prove_spec(cr.layered_circuit, inputs).0,
        ),
{
    lemma_satisfaction_iff(e, arity, cr, inputs);
    lemma_verify_accepts(cr.layered_circuit, inputs);
}

} // verus!
