use zerok::circuit::{compile, CompileError};
use zerok::codec::circuit_to_bytes;
use zerok::eval::{evaluate, EvalError};
use zerok::expr::{BinOp, Expression};
use zerok::field::Fr;
use zerok::protocol::{prove, verify, ProveError};
use zerok::solver::SolveError;
use zerok::parser::{expression_to_text, parse_expression};
use zerok::world::World;

fn add_node(l: Expression, r: Expression) -> Expression {
    Expression::Operation { op: BinOp::Add, left: Box::new(l), right: Box::new(r) }
}

fn mul_node(l: Expression, r: Expression) -> Expression {
    Expression::Operation { op: BinOp::Mul, left: Box::new(l), right: Box::new(r) }
}

fn const_node(v: u32) -> Expression {
    Expression::Const { const_value: v }
}

fn var_node(i: u32) -> Expression {
    Expression::Var { index: i }
}

fn frs(vals: &[u64]) -> Vec<Fr> {
    vals.iter().map(|v| Fr::from_u64(*v)).collect()
}

/// The running example: add_node(add_node(var0, var1), const(2)) at arity 4.
fn example() -> Expression {
    add_node(add_node(var_node(0), var_node(1)), const_node(2))
}

#[test]
fn compile_solve_evaluate_satisfied() {
    let cr = compile(&example(), 4).unwrap();
    assert_eq!(cr.witness_solver.input_arity(), 4);
    let witness = cr
        .witness_solver
        .solve(&frs(&[1, 1, 2, 4]), Fr::from_u64(4))
        .unwrap();
    let layers = evaluate(&cr.layered_circuit, &witness).unwrap();
    // wires: 4 variables and the public output in layer 0 plus the
    // constant, then add, add, and the obligation in layers 1..=3
    assert_eq!(layers.len(), 4);
    assert_eq!(layers[3], vec![Fr::from_u64(0)]);
}

#[test]
fn evaluate_rejects_unsatisfied() {
    let cr = compile(&example(), 4).unwrap();
    let witness = cr
        .witness_solver
        .solve(&frs(&[1, 1, 2, 4]), Fr::from_u64(5))
        .unwrap();
    assert_eq!(
        evaluate(&cr.layered_circuit, &witness),
        Err(EvalError::UnsatisfiedCircuit)
    );
    assert!(matches!(
        prove(&cr.layered_circuit, &witness),
        Err(ProveError::UnsatisfiedCircuit)
    ));
}

#[test]
fn solve_wrong_arity_fails() {
    let cr = compile(&example(), 4).unwrap();
    assert_eq!(
        cr.witness_solver.solve(&frs(&[1, 1, 2]), Fr::from_u64(4)),
        Err(SolveError::ArityMismatch)
    );
    assert_eq!(
        cr.witness_solver.solve(&frs(&[1, 1, 2, 4, 9]), Fr::from_u64(4)),
        Err(SolveError::ArityMismatch)
    );
}

#[test]
fn compile_bad_var_index_fails() {
    let bad = add_node(var_node(0), var_node(4));
    assert!(matches!(compile(&bad, 4), Err(CompileError::MalformedExpression)));
    let worse = Expression::Var { index: 100 };
    assert!(matches!(compile(&worse, 4), Err(CompileError::MalformedExpression)));
}

#[test]
fn solve_is_deterministic() {
    let cr = compile(&example(), 4).unwrap();
    let w1 = cr.witness_solver.solve(&frs(&[1, 1, 2, 4]), Fr::from_u64(4)).unwrap();
    let w2 = cr.witness_solver.solve(&frs(&[1, 1, 2, 4]), Fr::from_u64(4)).unwrap();
    assert_eq!(w1, w2);
}

#[test]
fn prove_is_replayable() {
    let cr = compile(&example(), 4).unwrap();
    let witness = cr.witness_solver.solve(&frs(&[1, 1, 2, 4]), Fr::from_u64(4)).unwrap();
    let (v1, p1) = prove(&cr.layered_circuit, &witness).unwrap();
    let (v2, p2) = prove(&cr.layered_circuit, &witness).unwrap();
    assert_eq!(v1, v2);
    assert_eq!(p1.bytes, p2.bytes);
    // a proof round-trips byte-identically through clone
    let p3 = p1.clone();
    assert_eq!(p1.bytes, p3.bytes);
}

#[test]
fn prove_then_verify_accepts() {
    let cr = compile(&example(), 4).unwrap();
    let witness = cr.witness_solver.solve(&frs(&[1, 1, 2, 4]), Fr::from_u64(4)).unwrap();
    let c = &cr.layered_circuit;
    let (claimed, proof) = prove(c, &witness).unwrap();
    let world = World::single();
    let gathered = world
        .gather_public_inputs(&vec![vec![Fr::from_u64(4)]])
        .unwrap()
        .unwrap();
    assert!(verify(c, &gathered, claimed, &proof));
}

#[test]
fn every_single_byte_flip_is_rejected() {
    let cr = compile(&example(), 4).unwrap();
    let witness = cr.witness_solver.solve(&frs(&[1, 1, 2, 4]), Fr::from_u64(4)).unwrap();
    let c = &cr.layered_circuit;
    let (claimed, proof) = prove(c, &witness).unwrap();
    let gathered = vec![Fr::from_u64(4)];
    assert!(verify(c, &gathered, claimed, &proof));
    assert!(proof.bytes.len() > 0);
    for idx in 0..proof.bytes.len() {
        for flip in [0x01u8, 0x80u8, 0xffu8] {
            let mut bad = proof.clone();
            bad.bytes[idx] ^= flip;
            assert!(!verify(c, &gathered, claimed, &bad), "flip at {idx} accepted");
        }
    }
}

#[test]
fn truncated_and_padded_proofs_are_rejected() {
    let cr = compile(&example(), 4).unwrap();
    let witness = cr.witness_solver.solve(&frs(&[1, 1, 2, 4]), Fr::from_u64(4)).unwrap();
    let c = &cr.layered_circuit;
    let (claimed, proof) = prove(c, &witness).unwrap();
    let gathered = vec![Fr::from_u64(4)];
    let mut short = proof.clone();
    short.bytes.pop();
    assert!(!verify(c, &gathered, claimed, &short));
    let mut long = proof.clone();
    long.bytes.push(0);
    assert!(!verify(c, &gathered, claimed, &long));
    let empty = zerok::protocol::Proof { bytes: Vec::new() };
    assert!(!verify(c, &gathered, claimed, &empty));
}

#[test]
fn wrong_claimed_value_is_rejected() {
    let cr = compile(&example(), 4).unwrap();
    let witness = cr.witness_solver.solve(&frs(&[1, 1, 2, 4]), Fr::from_u64(4)).unwrap();
    let c = &cr.layered_circuit;
    let (claimed, proof) = prove(c, &witness).unwrap();
    let gathered = vec![Fr::from_u64(4)];
    let wrong = claimed.plus(Fr::one());
    assert!(!verify(c, &gathered, wrong, &proof));
}

#[test]
fn a_multiplicative_relation_proves_and_verifies() {
    // var0 * var1 + const(10) == 16 over [2, 3]
    let e = add_node(mul_node(var_node(0), var_node(1)), const_node(10));
    let cr = compile(&e, 2).unwrap();
    let witness = cr.witness_solver.solve(&frs(&[2, 3]), Fr::from_u64(16)).unwrap();
    let c = &cr.layered_circuit;
    let (claimed, proof) = prove(c, &witness).unwrap();
    assert!(verify(c, &vec![Fr::from_u64(16)], claimed, &proof));
    assert!(!verify(c, &vec![Fr::from_u64(17)], claimed, &proof));
}

#[test]
fn gather_concatenates_in_rank_order() {
    let world = World::with_rank(2, 0).unwrap();
    assert!(world.is_root());
    let s0 = frs(&[1, 2, 3]);
    let s1 = frs(&[4, 5, 6]);
    let gathered = world
        .gather_public_inputs(&vec![s0.clone(), s1.clone()])
        .unwrap()
        .unwrap();
    let mut manual = s0.clone();
    manual.extend_from_slice(&s1);
    assert_eq!(gathered, manual);
    // a non-root member receives nothing
    let member = World::with_rank(2, 1).unwrap();
    assert!(!member.is_root());
    assert_eq!(member.gather_public_inputs(&vec![s0.clone(), s1.clone()]).unwrap(), None);
    member.finalize();
    world.finalize();
}

#[test]
fn gather_aborts_on_missing_contribution() {
    let world = World::with_rank(2, 0).unwrap();
    let s0 = frs(&[1, 2]);
    assert_eq!(
        world.gather_public_inputs(&vec![s0]),
        Err(zerok::world::WorldError::DistributedSessionAbort)
    );
}

#[test]
fn verification_matches_on_gathered_and_manual_vectors() {
    let cr = compile(&example(), 4).unwrap();
    let witness = cr.witness_solver.solve(&frs(&[1, 1, 2, 4]), Fr::from_u64(4)).unwrap();
    let c = &cr.layered_circuit;
    let (claimed, proof) = prove(c, &witness).unwrap();
    let world = World::with_rank(2, 0).unwrap();
    let s0 = frs(&[4, 7]);
    let s1 = frs(&[9, 11]);
    let gathered = world
        .gather_public_inputs(&vec![s0.clone(), s1.clone()])
        .unwrap()
        .unwrap();
    let mut manual = s0.clone();
    manual.extend_from_slice(&s1);
    assert_eq!(
        verify(c, &gathered, claimed, &proof),
        verify(c, &manual, claimed, &proof)
    );
}

#[test]
fn expression_text_round_trips() {
    let e = add_node(mul_node(var_node(0), const_node(7)), add_node(var_node(3), const_node(0)));
    let text = expression_to_text(&e);
    let back = parse_expression(&text).unwrap();
    assert_eq!(expression_to_text(&back), text);
    let expected = "{op:\"add\",left:{op:\"mul\",left:{var:0},right:{const_value:7}},\
right:{op:\"add\",left:{var:3},right:{const_value:0}}}";
    assert_eq!(text, expected.as_bytes().to_vec());
}

#[test]
fn parsed_description_proves_and_verifies() {
    let text = "{op:\"add\",left:{op:\"add\",left:{var:0},right:{var:1}},right:{const_value:2}}";
    let e = parse_expression(&text.as_bytes().to_vec()).unwrap();
    let cr = compile(&e, 4).unwrap();
    let witness = cr.witness_solver.solve(&frs(&[1, 1, 2, 4]), Fr::from_u64(4)).unwrap();
    let (claimed, proof) = prove(&cr.layered_circuit, &witness).unwrap();
    assert!(verify(&cr.layered_circuit, &vec![Fr::from_u64(4)], claimed, &proof));
}

#[test]
fn malformed_descriptions_are_rejected() {
    let cases: [&str; 7] = [
        "",
        "{var:}",
        "{var:01}",
        "{vax:3}",
        "{op:\"add\",left:{var:0}}",
        "{op:\"add\",left:{var:0},right:{var:1}}x",
        "{const_value:4294967296}",
    ];
    for c in cases {
        assert!(
            matches!(
                parse_expression(&c.as_bytes().to_vec()),
                Err(CompileError::MalformedExpression)
            ),
            "accepted: {c}"
        );
    }
    assert!(matches!(
        parse_expression(&"{op:\"div\",left:{var:0},right:{var:1}}".as_bytes().to_vec()),
        Err(CompileError::UnsupportedOperation)
    ));
}

#[test]
fn a_proof_is_bound_to_its_circuit() {
    let cr1 = compile(&example(), 4).unwrap();
    let w1 = cr1.witness_solver.solve(&frs(&[1, 1, 2, 4]), Fr::from_u64(4)).unwrap();
    let (claimed, proof) = prove(&cr1.layered_circuit, &w1).unwrap();
    assert!(verify(&cr1.layered_circuit, &vec![Fr::from_u64(4)], claimed, &proof));
    // a structurally different circuit seeds a different transcript and
    // rejects the same proof, even with the same public inputs
    let other = add_node(mul_node(var_node(0), var_node(1)), const_node(2));
    let cr2 = compile(&other, 4).unwrap();
    assert!(!verify(&cr2.layered_circuit, &vec![Fr::from_u64(4)], claimed, &proof));
}

#[test]
fn compile_is_deterministic() {
    let cr1 = compile(&example(), 4).unwrap();
    let cr2 = compile(&example(), 4).unwrap();
    assert_eq!(
        circuit_to_bytes(&cr1.layered_circuit),
        circuit_to_bytes(&cr2.layered_circuit)
    );
    assert_eq!(cr1.layered_circuit.depth, cr2.layered_circuit.depth);
    assert_eq!(cr1.layered_circuit.out_wire, cr2.layered_circuit.out_wire);
    assert_eq!(
        circuit_to_bytes(&zerok::circuit::LayeredCircuit {
            shape: cr1.witness_solver.shape.clone(),
            depth: cr1.layered_circuit.depth.clone(),
            out_wire: cr1.layered_circuit.out_wire,
            zero_tail: 1,
        }),
        circuit_to_bytes(&cr2.layered_circuit)
    );
}
