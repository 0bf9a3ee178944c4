//! Circuits and the expression compiler.
//!
//! A circuit is a table of wires.  Wires `0 .. var_count` are the declared
//! input variables, wire `var_count` is the declared public-output wire,
//! and every later wire is defined by a gate over strictly earlier wires,
//! so the defining graph is acyclic by construction.  The last wire is the
//! public-equality obligation: the difference between the computed result
//! and the public-output wire, which must evaluate to zero.
//!
//! The layered form additionally assigns every wire a layer (its depth):
//! inputs and constants sit in layer zero and every gate sits strictly
//! above both of its operands, so evaluation layer by layer respects the
//! dependency order.

use crate::expr::{eval_expr, expr_size, expr_wf, BinOp, Expression};
use crate::field::{fadd, fmul, fsub, Fr, MODULUS};
use vstd::arithmetic::div_mod::{lemma_mod_bound, lemma_small_mod};
use vstd::prelude::*;

verus! {

/// The machine limit on the number of wires of a circuit.
pub const MAX_WIRES: usize = 0x1000_0000;

/// The larger of two integers.
pub open spec fn imax(a: int, b: int) -> int {
    if a >= b {
        a
    } else {
        b
    }
}

/// The definition of one wire: a gate over two earlier wires, or a
/// constant element.
#[derive(Clone, Copy, PartialEq, Eq, Structural, Debug)]
pub enum WireDef {
    AddGate(usize, usize),
    MulGate(usize, usize),
    SubGate(usize, usize),
    ConstGate(Fr),
}

/// The index of the first gate-defined wire: the input variables and the
/// public-output wire come first.
pub open spec fn first_gate(vc: int) -> int {
    vc + 1
}

/// Gate `i` references only wires created earlier, and a constant gate
/// holds a well-formed element.
pub open spec fn def_ok_at(vc: int, defs: Seq<WireDef>, i: int) -> bool {
    match defs[i] {
        WireDef::AddGate(a, b) => a < first_gate(vc) + i && b < first_gate(vc) + i,
        WireDef::MulGate(a, b) => a < first_gate(vc) + i && b < first_gate(vc) + i,
        WireDef::SubGate(a, b) => a < first_gate(vc) + i && b < first_gate(vc) + i,
        WireDef::ConstGate(c) => c.ok(),
    }
}

/// Every gate of the table is acyclic and well-formed.
pub open spec fn defs_ok(vc: int, defs: Seq<WireDef>) -> bool {
    forall|i: int| 0 <= i < defs.len() ==> #[trigger] def_ok_at(vc, defs, i)
}

/// The residue carried by wire `w`, given the residues of the input wires
/// (the variables followed by the public-output value).
pub open spec fn wire_val_at(vc: int, defs: Seq<WireDef>, inputs: Seq<int>, w: int) -> int
    decreases w,
{
    if w < first_gate(vc) {
        inputs[w]
    } else {
        match defs[w - first_gate(vc)] {
            WireDef::AddGate(a, b) => if a < w && b < w {
                fadd(wire_val_at(vc, defs, inputs, a as int), wire_val_at(vc, defs, inputs, b as int))
            } else {
                0
            },
            WireDef::MulGate(a, b) => if a < w && b < w {
                fmul(wire_val_at(vc, defs, inputs, a as int), wire_val_at(vc, defs, inputs, b as int))
            } else {
                0
            },
            WireDef::SubGate(a, b) => if a < w && b < w {
                fsub(wire_val_at(vc, defs, inputs, a as int), wire_val_at(vc, defs, inputs, b as int))
            } else {
                0
            },
            WireDef::ConstGate(c) => c.val(),
        }
    }
}

/// A wire keeps its value under any extension of the wire table.
pub proof fn lemma_wire_val_prefix(
    vc: int,
    d1: Seq<WireDef>,
    d2: Seq<WireDef>,
    inputs: Seq<int>,
    w: int,
)
    requires
        d1.len() <= d2.len(),
        forall|i: int| 0 <= i < d1.len() ==> d2[i] == #[trigger] d1[i],
        0 <= w < first_gate(vc) + d1.len(),
    ensures
        wire_val_at(vc, d2, inputs, w) == wire_val_at(vc, d1, inputs, w),
    decreases w,
{
    if w >= first_gate(vc) {
        let i = w - first_gate(vc);
        match d1[i] {
            WireDef::AddGate(a, b) => {
                if a < w && b < w {
                    lemma_wire_val_prefix(vc, d1, d2, inputs, a as int);
                    lemma_wire_val_prefix(vc, d1, d2, inputs, b as int);
                }
            },
            WireDef::MulGate(a, b) => {
                if a < w && b < w {
                    lemma_wire_val_prefix(vc, d1, d2, inputs, a as int);
                    lemma_wire_val_prefix(vc, d1, d2, inputs, b as int);
                }
            },
            WireDef::SubGate(a, b) => {
                if a < w && b < w {
                    lemma_wire_val_prefix(vc, d1, d2, inputs, a as int);
                    lemma_wire_val_prefix(vc, d1, d2, inputs, b as int);
                }
            },
            WireDef::ConstGate(c) => {},
        }
    }
}

/// Every wire carries a canonical residue when the inputs do.
pub proof fn lemma_wire_val_range(vc: int, defs: Seq<WireDef>, inputs: Seq<int>, w: int)
    requires
        defs_ok(vc, defs),
        0 <= w < first_gate(vc) + defs.len(),
        forall|i: int| 0 <= i < first_gate(vc) && i < inputs.len() ==> 0 <= #[trigger] inputs[i]
            < crate::field::p(),
        inputs.len() >= first_gate(vc),
    ensures
        0 <= wire_val_at(vc, defs, inputs, w) < crate::field::p(),
    decreases w,
{
    if w >= first_gate(vc) {
        let i = w - first_gate(vc);
        assert(def_ok_at(vc, defs, i));
        match defs[i] {
            WireDef::AddGate(a, b) => {
                lemma_wire_val_range(vc, defs, inputs, a as int);
                lemma_wire_val_range(vc, defs, inputs, b as int);
                lemma_mod_bound(
                    wire_val_at(vc, defs, inputs, a as int) + wire_val_at(vc, defs, inputs, b as int),
                    crate::field::p(),
                );
            },
            WireDef::MulGate(a, b) => {
                lemma_wire_val_range(vc, defs, inputs, a as int);
                lemma_wire_val_range(vc, defs, inputs, b as int);
                lemma_mod_bound(
                    wire_val_at(vc, defs, inputs, a as int) * wire_val_at(vc, defs, inputs, b as int),
                    crate::field::p(),
                );
            },
            WireDef::SubGate(a, b) => {
                lemma_wire_val_range(vc, defs, inputs, a as int);
                lemma_wire_val_range(vc, defs, inputs, b as int);
                lemma_mod_bound(
                    wire_val_at(vc, defs, inputs, a as int) - wire_val_at(vc, defs, inputs, b as int),
                    crate::field::p(),
                );
            },
            WireDef::ConstGate(c) => {},
        }
    }
}


/// The layer of wire `w`, as the wire table alone determines it: inputs
/// and constants sit at depth zero and every gate sits one above its
/// deeper operand.
pub open spec fn wire_depth(vc: int, defs: Seq<WireDef>, w: int) -> int
    decreases w,
{
    if w < first_gate(vc) {
        0
    } else {
        match defs[w - first_gate(vc)] {
            WireDef::AddGate(a, b) => if a < w && b < w {
                1 + imax(wire_depth(vc, defs, a as int), wire_depth(vc, defs, b as int))
            } else {
                0
            },
            WireDef::MulGate(a, b) => if a < w && b < w {
                1 + imax(wire_depth(vc, defs, a as int), wire_depth(vc, defs, b as int))
            } else {
                0
            },
            WireDef::SubGate(a, b) => if a < w && b < w {
                1 + imax(wire_depth(vc, defs, a as int), wire_depth(vc, defs, b as int))
            } else {
                0
            },
            WireDef::ConstGate(c) => 0,
        }
    }
}

/// Any depth table satisfying the layering conditions is exactly
/// `wire_depth`: a circuit's layering is determined by its wire table.
pub proof fn lemma_depth_determined(vc: int, defs: Seq<WireDef>, depth: Seq<usize>, w: int)
    requires
        defs_ok(vc, defs),
        depth.len() == first_gate(vc) + defs.len(),
        forall|x: int| 0 <= x < first_gate(vc) ==> #[trigger] depth[x] == 0,
        forall|i: int| 0 <= i < defs.len() ==> #[trigger] depth_ok_at(vc, defs, depth, i),
        0 <= w < depth.len(),
    ensures
        depth[w] == wire_depth(vc, defs, w),
    decreases w,
{
    if w >= first_gate(vc) {
        let i = w - first_gate(vc);
        assert(def_ok_at(vc, defs, i));
        assert(depth_ok_at(vc, defs, depth, i));
        match defs[i] {
            WireDef::AddGate(a, b) => {
                lemma_depth_determined(vc, defs, depth, a as int);
                lemma_depth_determined(vc, defs, depth, b as int);
            },
            WireDef::MulGate(a, b) => {
                lemma_depth_determined(vc, defs, depth, a as int);
                lemma_depth_determined(vc, defs, depth, b as int);
            },
            WireDef::SubGate(a, b) => {
                lemma_depth_determined(vc, defs, depth, a as int);
                lemma_depth_determined(vc, defs, depth, b as int);
            },
            WireDef::ConstGate(c) => {},
        }
    }
}

/// The unlayered builder form of a circuit: the wire table.
#[derive(Clone, Debug)]
pub struct CircuitShape {
    pub var_count: usize,
    pub defs: Vec<WireDef>,
}

impl CircuitShape {
    /// The number of wires.
    pub open spec fn n(self) -> int {
        self.var_count + 1 + self.defs@.len()
    }

    /// The wire table is acyclic, well-formed and within the machine limit.
    pub open spec fn wf(self) -> bool {
        self.n() <= MAX_WIRES && defs_ok(self.var_count as int, self.defs@)
    }

    /// The residue carried by wire `w` under the given input residues.
    pub open spec fn wire_val(self, inputs: Seq<int>, w: int) -> int {
        wire_val_at(self.var_count as int, self.defs@, inputs, w)
    }
}

/// Layer `i`'s gate sits strictly above both of its operands; constants
/// sit in the input layer.
pub open spec fn depth_ok_at(vc: int, defs: Seq<WireDef>, depth: Seq<usize>, i: int) -> bool {
    let w = first_gate(vc) + i;
    match defs[i] {
        WireDef::AddGate(a, b) => depth[w] == 1 + imax(depth[a as int] as int, depth[b as int] as int),
        WireDef::MulGate(a, b) => depth[w] == 1 + imax(depth[a as int] as int, depth[b as int] as int),
        WireDef::SubGate(a, b) => depth[w] == 1 + imax(depth[a as int] as int, depth[b as int] as int),
        WireDef::ConstGate(c) => depth[w] == 0,
    }
}

/// A layered circuit: the wire table plus a layer index for every wire,
/// the designated result wire, and the count of trailing public-equality
/// obligations in the final layer.
#[derive(Clone, Debug)]
pub struct LayeredCircuit {
    pub shape: CircuitShape,
    pub depth: Vec<usize>,
    pub out_wire: usize,
    pub zero_tail: usize,
}

impl LayeredCircuit {
    /// The number of wires.
    pub open spec fn n(self) -> int {
        self.shape.n()
    }

    /// The declared input arity (the number of input variables).
    pub open spec fn vc(self) -> int {
        self.shape.var_count as int
    }

    /// Structural well-formedness: an acyclic wire table, a consistent
    /// layering whose final layer consists exactly of the one equality
    /// obligation, and the obligation wire defined as the difference
    /// between the result wire and the public-output wire.
    pub open spec fn wf(self) -> bool {
        &&& self.shape.wf()
        &&& self.depth@.len() == self.n()
        &&& self.shape.defs@.len() >= 1
        &&& forall|w: int| 0 <= w < first_gate(self.vc()) ==> #[trigger] self.depth@[w] == 0
        &&& forall|i: int|
            0 <= i < self.shape.defs@.len() ==> #[trigger] depth_ok_at(
                self.vc(),
                self.shape.defs@,
                self.depth@,
                i,
            )
        &&& forall|w: int|
            0 <= w < self.n() - 1 ==> #[trigger] self.depth@[w] < self.depth@[self.n() - 1]
        &&& forall|w: int| 0 <= w < self.n() ==> #[trigger] self.depth@[w] < self.n()
        &&& self.out_wire < self.n() - 1
        &&& self.shape.defs@.last() == WireDef::SubGate(self.out_wire, self.shape.var_count)
        &&& self.zero_tail == 1
    }

    /// The number of layers: one more than the final layer's index.
    pub open spec fn num_layers(self) -> int {
        self.depth@[self.n() - 1] + 1
    }
}

/// Why compilation failed.
#[derive(Clone, Copy, PartialEq, Eq, Structural, Debug)]
pub enum CompileError {
    /// A variable reference is at or above the declared input arity.
    MalformedExpression,
    /// An operation tag of the textual description is not recognized.
    UnsupportedOperation,
}

/// The artifact that re-solves witnesses for new assignments without
/// recompiling the expression.
#[derive(Clone, Debug)]
pub struct WitnessSolver {
    pub shape: CircuitShape,
}

/// What a successful compilation yields: the layered circuit and the
/// witness-solver artifact, over one and the same wire table.
#[derive(Clone, Debug)]
pub struct CompileResult {
    pub layered_circuit: LayeredCircuit,
    pub witness_solver: WitnessSolver,
}


/// The gates that lowering an expression emits, with `base` gates already
/// in the table: one combining gate per operation node (after both
/// operand subtrees), one constant wire per literal, and nothing at all
/// for a variable reference.
pub open spec fn lowered_defs(e: Expression, vc: int, base: int) -> Seq<WireDef>
    decreases e,
{
    match e {
        Expression::Operation { op, left, right } => {
            let dl = lowered_defs(*left, vc, base);
            let dr = lowered_defs(*right, vc, base + dl.len());
            let lw = lowered_wire(*left, vc, base);
            let rw = lowered_wire(*right, vc, base + dl.len());
            let g = match op {
                BinOp::Add => WireDef::AddGate(lw as usize, rw as usize),
                BinOp::Mul => WireDef::MulGate(lw as usize, rw as usize),
            };
            dl + dr + seq![g]
        },
        Expression::Const { const_value } => seq![
            WireDef::ConstGate(Fr { v: const_value as u64 }),
        ],
        Expression::Var { index } => Seq::empty(),
    }
}

/// The wire that carries an expression's value after lowering with `base`
/// gates already in the table.
pub open spec fn lowered_wire(e: Expression, vc: int, base: int) -> int
    decreases e,
{
    match e {
        Expression::Operation { op, left, right } => {
            let dl = lowered_defs(*left, vc, base);
            let dr = lowered_defs(*right, vc, base + dl.len());
            first_gate(vc) + base + dl.len() + dr.len()
        },
        Expression::Const { const_value } => first_gate(vc) + base,
        Expression::Var { index } => index as int,
    }
}

/// The number of wires lowering emits: one per operation or constant
/// node, none per variable reference.
pub open spec fn gate_nodes(e: Expression) -> nat
    decreases e,
{
    match e {
        Expression::Operation { op, left, right } => 1 + gate_nodes(*left) + gate_nodes(*right),
        Expression::Const { const_value } => 1,
        Expression::Var { index } => 0,
    }
}

/// The lowering accounting, once and for all expressions: the emitted
/// table holds exactly one gate per operation or constant node and never
/// more than the expression's node count.
pub proof fn lemma_lowered_defs_len(e: Expression, vc: int, base: int)
    ensures
        lowered_defs(e, vc, base).len() == gate_nodes(e),
        gate_nodes(e) <= expr_size(e),
    decreases e,
{
    match e {
        Expression::Operation { op, left, right } => {
            lemma_lowered_defs_len(*left, vc, base);
            lemma_lowered_defs_len(*right, vc, base + lowered_defs(*left, vc, base).len());
        },
        Expression::Const { const_value } => {},
        Expression::Var { index } => {},
    }
}

/// The invariant the lowering pass maintains over the growing wire table
/// and its layering.
pub open spec fn lower_inv(vc: int, defs: Seq<WireDef>, depth: Seq<usize>) -> bool {
    &&& first_gate(vc) + defs.len() <= MAX_WIRES
    &&& defs_ok(vc, defs)
    &&& depth.len() == first_gate(vc) + defs.len()
    &&& forall|w: int| 0 <= w < first_gate(vc) ==> #[trigger] depth[w] == 0
    &&& forall|i: int| 0 <= i < defs.len() ==> #[trigger] depth_ok_at(vc, defs, depth, i)
    &&& forall|w: int| 0 <= w < depth.len() ==> #[trigger] depth[w] <= defs.len()
}

/// A successful compilation of `e` at the given arity: a well-formed
/// layered circuit whose result wire carries exactly the residue of the
/// expression, and whose obligation wire carries the difference between
/// that residue and the public-output input.  The wire table, the result
/// wire and the layering are each pinned as functions of the expression
/// and arity alone, so compilation is pure and deterministic.
pub open spec fn compiled_ok(e: Expression, arity: usize, cr: CompileResult) -> bool {
    let c = cr.layered_circuit;
    &&& c.wf()
    &&& cr.witness_solver.shape.var_count == c.shape.var_count
    &&& cr.witness_solver.shape.defs@ == c.shape.defs@
    &&& c.shape.var_count == arity
    &&& c.shape.defs@ == lowered_defs(e, arity as int, 0).push(
        WireDef::SubGate(c.out_wire, arity),
    )
    &&& c.out_wire as int == lowered_wire(e, arity as int, 0)
    &&& forall|w: int|
        0 <= w < c.n() ==> #[trigger] c.depth@[w] == wire_depth(arity as int, c.shape.defs@, w)
    &&& forall|inputs: Seq<int>|
        inputs.len() == arity + 1 ==> #[trigger] c.shape.wire_val(inputs, c.out_wire as int)
            == eval_expr(e, inputs)
    &&& forall|inputs: Seq<int>|
        inputs.len() == arity + 1 ==> #[trigger] c.shape.wire_val(inputs, c.n() - 1) == fsub(
            eval_expr(e, inputs),
            inputs[arity as int],
        )
}

/// Compilation is pure: any two successful compilations of one expression
/// at one arity yield the identical wire table, layering, result wire and
/// obligation, down to the witness-solver artifact.
pub proof fn lemma_compile_deterministic(
    e: Expression,
    arity: usize,
    cr1: CompileResult,
    cr2: CompileResult,
)
    requires
        compiled_ok(e, arity, cr1),
        compiled_ok(e, arity, cr2),
    ensures
        cr1.layered_circuit.out_wire == cr2.layered_circuit.out_wire,
        cr1.layered_circuit.shape.defs@ == cr2.layered_circuit.shape.defs@,
        cr1.layered_circuit.depth@ == cr2.layered_circuit.depth@,
        cr1.layered_circuit.zero_tail == cr2.layered_circuit.zero_tail,
        cr1.witness_solver.shape.defs@ == cr2.witness_solver.shape.defs@,
{
    let c1 = cr1.layered_circuit;
    let c2 = cr2.layered_circuit;
    assert(c1.out_wire == c2.out_wire);
    assert(c1.shape.defs@ == c2.shape.defs@);
    assert(c1.depth@.len() == c2.depth@.len());
    assert forall|w: int| 0 <= w < c1.depth@.len() implies c1.depth@[w] == #[trigger] c2.depth@[w]
        by {
        assert(c1.depth@[w] == wire_depth(arity as int, c1.shape.defs@, w));
        assert(c2.depth@[w] == wire_depth(arity as int, c2.shape.defs@, w));
    }
    assert(c1.depth@ =~= c2.depth@);
}

/// Recursively lowers an expression to wires, post-order: both operand
/// subtrees are fully lowered before the combining gate is emitted, so the
/// wire graph stays acyclic.
#[verifier::rlimit(100)]
fn lower(e: &Expression, var_count: usize, defs: &mut Vec<WireDef>, depth: &mut Vec<usize>) -> (r:
    Result<usize, CompileError>)
    requires
        lower_inv(var_count as int, old(defs)@, old(depth)@),
        first_gate(var_count as int) + old(defs)@.len() + expr_size(*e) <= MAX_WIRES,
    ensures
        lower_inv(var_count as int, final(defs)@, final(depth)@),
        old(defs)@.len() <= final(defs)@.len(),
        final(defs)@.len() <= old(defs)@.len() + expr_size(*e),
        forall|i: int| 0 <= i < old(defs)@.len() ==> final(defs)@[i] == #[trigger] old(defs)@[i],
        forall|w: int| 0 <= w < old(depth)@.len() ==> final(depth)@[w] == #[trigger] old(depth)@[w],
        r is Ok <==> expr_wf(*e, var_count as nat),
        r is Err ==> r->Err_0 == CompileError::MalformedExpression,
        r is Ok ==> {
            let w = r->Ok_0 as int;
            &&& 0 <= w < first_gate(var_count as int) + final(defs)@.len()
            &&& final(defs)@ == old(defs)@ + lowered_defs(
                *e,
                var_count as int,
                old(defs)@.len() as int,
            )
            &&& w == lowered_wire(*e, var_count as int, old(defs)@.len() as int)
            &&& forall|x: int|
                old(depth)@.len() <= x < final(depth)@.len() ==> #[trigger] final(depth)@[x]
                    <= final(depth)@[w]
            &&& forall|inputs: Seq<int>|
                inputs.len() == var_count + 1 ==> #[trigger] wire_val_at(
                    var_count as int,
                    final(defs)@,
                    inputs,
                    w,
                ) == eval_expr(*e, inputs)
        },
    decreases expr_size(*e),
{
    match e {
        Expression::Var { index } => {
            let idx = *index as usize;
            if idx < var_count {
                proof {
                    assert(defs@ =~= defs@ + lowered_defs(*e, var_count as int, defs@.len() as int));
                }
                Ok(idx)
            } else {
                Err(CompileError::MalformedExpression)
            }
        },
        Expression::Const { const_value } => {
            let c = Fr::from_u64(*const_value as u64);
            let wire = var_count + 1 + defs.len();
            defs.push(WireDef::ConstGate(c));
            depth.push(0);
            proof {
                let vd = defs@;
                let dd = depth@;
                let vc = var_count as int;
                assert forall|i: int| 0 <= i < vd.len() implies #[trigger] def_ok_at(vc, vd, i) by {
                    if i < vd.len() - 1 {
                        assert(def_ok_at(vc, old(defs)@, i));
                    }
                }
                assert forall|i: int| 0 <= i < vd.len() implies #[trigger] depth_ok_at(
                    vc,
                    vd,
                    dd,
                    i,
                ) by {
                    if i < vd.len() - 1 {
                        assert(def_ok_at(vc, old(defs)@, i));
                        assert(depth_ok_at(vc, old(defs)@, old(depth)@, i));
                    } else {
                        assert(dd[first_gate(vc) + i] == 0);
                    }
                }
                lemma_small_mod((*const_value as u64) as nat, MODULUS as nat);
                assert(c == Fr { v: *const_value as u64 });
                assert(vd =~= old(defs)@ + lowered_defs(*e, vc, old(defs)@.len() as int));
            }
            Ok(wire)
        },
        Expression::Operation { op, left, right } => {
            let lw = match lower(&**left, var_count, defs, depth) {
                Ok(x) => x,
                Err(err) => {
                    return Err(err);
                },
            };
            let ghost defs1 = defs@;
            let ghost depth1 = depth@;
            let rw = match lower(&**right, var_count, defs, depth) {
                Ok(x) => x,
                Err(err) => {
                    return Err(err);
                },
            };
            let ghost defs2 = defs@;
            let ghost depth2 = depth@;
            let da = depth[lw];
            let db = depth[rw];
            let dmax = if da >= db {
                da
            } else {
                db
            };
            let wire = var_count + 1 + defs.len();
            let gate = match op {
                BinOp::Add => WireDef::AddGate(lw, rw),
                BinOp::Mul => WireDef::MulGate(lw, rw),
            };
            defs.push(gate);
            depth.push(dmax + 1);
            proof {
                let vd = defs@;
                let dd = depth@;
                let vc = var_count as int;
                assert forall|i: int| 0 <= i < vd.len() implies #[trigger] def_ok_at(vc, vd, i) by {
                    if i < vd.len() - 1 {
                        assert(def_ok_at(vc, defs2, i));
                    }
                }
                assert forall|i: int| 0 <= i < vd.len() implies #[trigger] depth_ok_at(
                    vc,
                    vd,
                    dd,
                    i,
                ) by {
                    if i < vd.len() - 1 {
                        assert(def_ok_at(vc, defs2, i));
                        assert(depth_ok_at(vc, defs2, depth2, i));
                    } else {
                        assert(lw < depth1.len() && rw < depth2.len());
                        assert(dd[lw as int] == depth2[lw as int]);
                        assert(dd[rw as int] == depth2[rw as int]);
                        assert(dd[first_gate(vc) + i] == dmax + 1);
                    }
                }
                assert forall|x: int| old(depth)@.len() <= x < dd.len() implies #[trigger] dd[x]
                    <= dd[wire as int] by {
                    if x < depth1.len() {
                        assert(depth1[x] <= depth1[lw as int]);
                        assert(depth2[x] == depth1[x]);
                    } else if x < depth2.len() {
                        assert(depth2[x] <= depth2[rw as int]);
                    }
                }
                assert forall|inputs: Seq<int>| inputs.len() == var_count + 1 implies
                    #[trigger] wire_val_at(vc, vd, inputs, wire as int) == eval_expr(
                    *e,
                    inputs,
                ) by {
                    lemma_wire_val_prefix(vc, defs1, vd, inputs, lw as int);
                    lemma_wire_val_prefix(vc, defs2, vd, inputs, rw as int);
                }
                let b0 = old(defs)@.len() as int;
                let dl = lowered_defs(**left, vc, b0);
                let dr = lowered_defs(**right, vc, b0 + dl.len());
                assert(defs1 == old(defs)@ + dl);
                assert(defs2 == defs1 + dr);
                assert(lw as int == lowered_wire(**left, vc, b0));
                assert(rw as int == lowered_wire(**right, vc, b0 + dl.len()));
                assert(gate == match op {
                    BinOp::Add => WireDef::AddGate(
                        lowered_wire(**left, vc, b0) as usize,
                        lowered_wire(**right, vc, b0 + dl.len()) as usize,
                    ),
                    BinOp::Mul => WireDef::MulGate(
                        lowered_wire(**left, vc, b0) as usize,
                        lowered_wire(**right, vc, b0 + dl.len()) as usize,
                    ),
                });
                assert(vd =~= old(defs)@ + (dl + dr + seq![gate]));
                assert(vd =~= old(defs)@ + lowered_defs(*e, vc, b0));
                assert(wire as int == lowered_wire(*e, vc, b0));
            }
            Ok(wire)
        },
    }
}

/// Builds a second wire table holding the same gates.
fn copy_defs(defs: &Vec<WireDef>) -> (r: Vec<WireDef>)
    ensures
        r@ == defs@,
{
    let mut out: Vec<WireDef> = Vec::new();
    let mut i: usize = 0;
    while i < defs.len()
        invariant
            0 <= i <= defs@.len(),
            out@ == defs@.subrange(0, i as int),
        decreases defs@.len() - i,
    {
        out.push(defs[i]);
        proof {
            assert(out@ =~= defs@.subrange(0, i + 1 as int));
        }
        i = i + 1;
    }
    proof {
        assert(out@ =~= defs@);
    }
    out
}

/// Compiles an expression at the given input arity into a layered circuit
/// and a witness-solver artifact over the same wires.  Fails with
/// `MalformedExpression` exactly when some variable reference is at or
/// above the arity.  The compiled result wire carries the expression's
/// residue for every assignment, and the one trailing public-equality
/// obligation carries the difference between that residue and the
/// public-output input.
pub fn compile(e: &Expression, input_arity: usize) -> (r: Result<CompileResult, CompileError>)
    requires
        input_arity + expr_size(*e) + 2 <= MAX_WIRES,
    ensures
        r is Ok <==> expr_wf(*e, input_arity as nat),
        r is Err ==> r->Err_0 == CompileError::MalformedExpression,
        r is Ok ==> compiled_ok(*e, input_arity, r->Ok_0),
{
    let mut defs: Vec<WireDef> = Vec::new();
    let mut depth: Vec<usize> = Vec::new();
    let mut w: usize = 0;
    while w < input_arity + 1
        invariant
            0 <= w <= input_arity + 1,
            input_arity + 2 <= MAX_WIRES,
            depth@.len() == w,
            forall|x: int| 0 <= x < w ==> #[trigger] depth@[x] == 0,
        decreases input_arity + 1 - w,
    {
        depth.push(0);
        w = w + 1;
    }
    let out_wire = match lower(e, input_arity, &mut defs, &mut depth) {
        Ok(x) => x,
        Err(err) => {
            return Err(err);
        },
    };
    let ghost defs1 = defs@;
    let ghost depth1 = depth@;
    let d_out = depth[out_wire];
    defs.push(WireDef::SubGate(out_wire, input_arity));
    depth.push(d_out + 1);
    let solver_defs = copy_defs(&defs);
    let shape = CircuitShape { var_count: input_arity, defs };
    let layered = LayeredCircuit {
        shape,
        depth,
        out_wire,
        zero_tail: 1,
    };
    let solver = WitnessSolver {
        shape: CircuitShape { var_count: input_arity, defs: solver_defs },
    };
    let result = CompileResult { layered_circuit: layered, witness_solver: solver };
    proof {
        let c = result.layered_circuit;
        let vc = input_arity as int;
        let vd = c.shape.defs@;
        let dd = c.depth@;
        assert forall|i: int| 0 <= i < vd.len() implies #[trigger] def_ok_at(vc, vd, i) by {
            if i < vd.len() - 1 {
                assert(def_ok_at(vc, defs1, i));
            }
        }
        assert forall|i: int| 0 <= i < vd.len() implies #[trigger] depth_ok_at(vc, vd, dd, i) by {
            if i < vd.len() - 1 {
                assert(def_ok_at(vc, defs1, i));
                assert(depth_ok_at(vc, defs1, depth1, i));
            } else {
                assert(depth1[vc] == 0);
                assert(dd[out_wire as int] == d_out);
                assert(dd[first_gate(vc) + i] == d_out + 1);
            }
        }
        assert forall|x: int| 0 <= x < c.n() - 1 implies #[trigger] dd[x] < dd[c.n() - 1] by {
            if x >= depth1.len() {
            } else if x < first_gate(vc) {
            } else {
                assert(depth1[x] <= depth1[out_wire as int]);
            }
        }
        assert forall|inputs: Seq<int>| inputs.len() == input_arity + 1 implies
            #[trigger] c.shape.wire_val(inputs, c.n() - 1) == fsub(
            eval_expr(*e, inputs),
            inputs[vc],
        ) by {
            lemma_wire_val_prefix(vc, defs1, vd, inputs, out_wire as int);
            assert(vd[vd.len() - 1] == WireDef::SubGate(out_wire, input_arity));
            assert(wire_val_at(vc, vd, inputs, vc) == inputs[vc]);
            assert(wire_val_at(vc, vd, inputs, c.n() - 1) == fsub(
                wire_val_at(vc, vd, inputs, out_wire as int),
                wire_val_at(vc, vd, inputs, vc),
            ));
        }
        assert forall|inputs: Seq<int>| inputs.len() == input_arity + 1 implies
            #[trigger] c.shape.wire_val(inputs, c.out_wire as int) == eval_expr(*e, inputs) by {
            lemma_wire_val_prefix(vc, defs1, vd, inputs, out_wire as int);
        }
        assert(Seq::<WireDef>::empty() + lowered_defs(*e, vc, 0) =~= lowered_defs(*e, vc, 0));
        assert(vd =~= lowered_defs(*e, vc, 0).push(WireDef::SubGate(out_wire, input_arity)));
        assert forall|w: int| 0 <= w < c.n() implies #[trigger] c.depth@[w] == wire_depth(
            vc,
            c.shape.defs@,
            w,
        ) by {
            lemma_depth_determined(vc, c.shape.defs@, c.depth@, w);
        }
    }
    Ok(result)
}

} // verus!
