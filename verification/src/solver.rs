//! The witness solver: evaluating every wire of a compiled circuit for a
//! concrete input assignment.
//!
//! Solving walks the wire table in dependency order (gates reference only
//! earlier wires), so every wire's value is computed once both of its
//! operands have values.  The result is the dense witness: one field
//! element per wire, indexed by the circuit's wire numbering.  Solving is
//! a pure function of the circuit and the assignment, so identical inputs
//! always yield an identical witness.

use crate::circuit::{def_ok_at, defs_ok, first_gate, wire_val_at, CircuitShape, WitnessSolver, WireDef, MAX_WIRES};
use crate::field::{fadd, fmul, frs_ok, fsub, vals, Fr};
use vstd::prelude::*;

verus! {

/// Why solving failed.
#[derive(Clone, Copy, PartialEq, Eq, Structural, Debug)]
pub enum SolveError {
    /// The assignment's length differs from the declared input arity.
    ArityMismatch,
}

/// The input residues a circuit is run on: the assignment followed by the
/// declared public-output value.
pub open spec fn inputs_seq(a: Seq<Fr>, public_output: Fr) -> Seq<int> {
    vals(a).push(public_output.val())
}

/// `w` is the dense witness of the circuit on the given input residues:
/// one well-formed element per wire, carrying exactly that wire's value.
pub open spec fn witness_ok(shape: CircuitShape, inputs: Seq<int>, w: Seq<Fr>) -> bool {
    &&& w.len() == shape.n()
    &&& frs_ok(w)
    &&& forall|k: int| 0 <= k < w.len() ==> #[trigger] w[k].val() == shape.wire_val(inputs, k)
}

/// Evaluates every gate of the wire table over the given values for the
/// input wires, in dependency order.
pub(crate) fn compute_wires(shape: &CircuitShape, inputs: &Vec<Fr>) -> (r: Vec<Fr>)
    requires
        shape.wf(),
        frs_ok(inputs@),
        inputs@.len() == first_gate(shape.var_count as int),
    ensures
        witness_ok(*shape, vals(inputs@), r@),
{
    let vc = shape.var_count;
    let mut w: Vec<Fr> = Vec::new();
    let mut j: usize = 0;
    while j < inputs.len()
        invariant
            0 <= j <= inputs@.len(),
            w@ == inputs@.subrange(0, j as int),
        decreases inputs@.len() - j,
    {
        w.push(inputs[j]);
        proof {
            assert(w@ =~= inputs@.subrange(0, j + 1 as int));
        }
        j = j + 1;
    }
    proof {
        assert(w@ =~= inputs@);
    }
    let ghost ivals = vals(inputs@);
    let mut i: usize = 0;
    while i < shape.defs.len()
        invariant
            0 <= i <= shape.defs@.len(),
            shape.wf(),
            frs_ok(inputs@),
            inputs@.len() == first_gate(shape.var_count as int),
            vc == shape.var_count,
            ivals == vals(inputs@),
            w@.len() == first_gate(vc as int) + i,
            frs_ok(w@),
            forall|k: int|
                0 <= k < w@.len() ==> #[trigger] w@[k].val() == wire_val_at(
                    vc as int,
                    shape.defs@,
                    ivals,
                    k,
                ),
        decreases shape.defs@.len() - i,
    {
        proof {
            assert(def_ok_at(vc as int, shape.defs@, i as int));
        }
        let d = shape.defs[i];
        let v = match d {
            WireDef::AddGate(a, b) => {
                let x = w[a].plus(w[b]);
                proof {
                    assert(wire_val_at(vc as int, shape.defs@, ivals, first_gate(vc as int) + i)
                        == fadd(
                        wire_val_at(vc as int, shape.defs@, ivals, a as int),
                        wire_val_at(vc as int, shape.defs@, ivals, b as int),
                    ));
                }
                x
            },
            WireDef::MulGate(a, b) => {
                let x = w[a].times(w[b]);
                proof {
                    assert(wire_val_at(vc as int, shape.defs@, ivals, first_gate(vc as int) + i)
                        == fmul(
                        wire_val_at(vc as int, shape.defs@, ivals, a as int),
                        wire_val_at(vc as int, shape.defs@, ivals, b as int),
                    ));
                }
                x
            },
            WireDef::SubGate(a, b) => {
                let x = w[a].minus(w[b]);
                proof {
                    assert(wire_val_at(vc as int, shape.defs@, ivals, first_gate(vc as int) + i)
                        == fsub(
                        wire_val_at(vc as int, shape.defs@, ivals, a as int),
                        wire_val_at(vc as int, shape.defs@, ivals, b as int),
                    ));
                }
                x
            },
            WireDef::ConstGate(c) => {
                proof {
                    assert(wire_val_at(vc as int, shape.defs@, ivals, first_gate(vc as int) + i)
                        == c.val());
                }
                c
            },
        };
        w.push(v);
        i = i + 1;
    }
    w
}

impl WitnessSolver {
    /// The artifact is usable: its wire table is well-formed.
    pub open spec fn wf(self) -> bool {
        self.shape.wf()
    }

    /// The input arity the compiler declared for this artifact.
    pub fn input_arity(&self) -> (r: usize)
        ensures
            r == self.shape.var_count,
    {
        self.shape.var_count
    }

    /// Produces the dense witness for the given assignment and declared
    /// public-output value.  Fails with `ArityMismatch` exactly when the
    /// assignment's length differs from the declared input arity; on
    /// success the witness carries, wire for wire, the circuit's values on
    /// those inputs, so identical inputs always yield an identical witness.
    pub fn solve(&self, assignment: &Vec<Fr>, public_output: Fr) -> (r: Result<
        Vec<Fr>,
        SolveError,
    >)
        requires
            self.wf(),
            frs_ok(assignment@),
            public_output.ok(),
        ensures
            r is Ok <==> assignment@.len() == self.shape.var_count,
            r is Err ==> r->Err_0 == SolveError::ArityMismatch,
            r is Ok ==> witness_ok(
                self.shape,
                inputs_seq(assignment@, public_output),
                r->Ok_0@,
            ),
    {
        if assignment.len() != self.shape.var_count {
            return Err(SolveError::ArityMismatch);
        }
        let mut inputs: Vec<Fr> = Vec::new();
        let mut j: usize = 0;
        while j < assignment.len()
            invariant
                0 <= j <= assignment@.len(),
                inputs@ == assignment@.subrange(0, j as int),
            decreases assignment@.len() - j,
        {
            inputs.push(assignment[j]);
            proof {
                assert(inputs@ =~= assignment@.subrange(0, j + 1 as int));
            }
            j = j + 1;
        }
        proof {
            assert(inputs@ =~= assignment@);
        }
        inputs.push(public_output);
        let w = compute_wires(&self.shape, &inputs);
        proof {
            assert(vals(inputs@) =~= inputs_seq(assignment@, public_output));
        }
        Ok(w)
    }
}

} // verus!
