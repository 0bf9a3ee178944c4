use zerok::circuit::compile;
use zerok::codec::{circuit_from_bytes, circuit_to_bytes, dec8, dec_fr, enc8, witness_from_bytes, witness_to_bytes};
use zerok::expr::{BinOp, Expression};
use zerok::field::{fr_from_decimal, Fr, MODULUS};
use zerok::transcript::{content_digest, Transcript};

#[test]
fn field_arithmetic_wraps_at_the_modulus() {
    let a = Fr::from_u64(MODULUS - 1);
    assert_eq!(a.plus(Fr::one()), Fr::zero());
    assert_eq!(Fr::zero().minus(Fr::one()), Fr::from_u64(MODULUS - 1));
    assert_eq!(Fr::from_u64(7).times(Fr::from_u64(6)), Fr::from_u64(42));
    assert!(Fr::zero().is_zero());
    assert!(!Fr::one().is_zero());
    // construction reduces modulo the field order
    assert_eq!(Fr::from_u64(MODULUS), Fr::zero());
}

#[test]
fn decimal_construction_reduces_large_integers() {
    assert_eq!(fr_from_decimal(b"123"), Some(Fr::from_u64(123)));
    assert_eq!(fr_from_decimal(b"0"), Some(Fr::zero()));
    // the modulus itself reduces to zero
    assert_eq!(fr_from_decimal(b"18446744069414584321"), Some(Fr::zero()));
    // one past the modulus reduces to one
    assert_eq!(fr_from_decimal(b"18446744069414584322"), Some(Fr::one()));
    // arbitrary-precision integers far beyond one machine word
    let two_to_128 = fr_from_decimal(b"340282366920938463463374607431768211456").unwrap();
    assert_eq!(two_to_128, Fr::from_u64(18446744065119617025));
    let two_to_64 = fr_from_decimal(b"18446744073709551616").unwrap();
    assert_eq!(two_to_64, Fr::from_u64(4294967295));
    assert_eq!(two_to_64.times(two_to_64), two_to_128);
    let minus_one = fr_from_decimal(b"18446744069414584320").unwrap();
    assert_eq!(minus_one.times(minus_one), Fr::one());
    assert_eq!(fr_from_decimal(b""), None);
    assert_eq!(fr_from_decimal(b"12a3"), None);
    assert_eq!(fr_from_decimal(b"-5"), None);
}

#[test]
fn eight_byte_codec_round_trips() {
    for v in [0u64, 1, 255, 256, 0xDEAD_BEEF, u64::MAX, MODULUS - 1] {
        let e = enc8(v);
        assert_eq!(e.len(), 8);
        assert_eq!(dec8(&e, 0), v);
    }
    let e = enc8(0x0102_0304_0506_0708);
    assert_eq!(e, vec![8u8, 7, 6, 5, 4, 3, 2, 1]);
}

#[test]
fn field_element_decode_rejects_non_canonical_bytes() {
    let good = enc8(MODULUS - 1);
    assert_eq!(dec_fr(&good, 0), Some(Fr::from_u64(MODULUS - 1)));
    let bad = enc8(MODULUS);
    assert_eq!(dec_fr(&bad, 0), None);
    let worst = enc8(u64::MAX);
    assert_eq!(dec_fr(&worst, 0), None);
}

#[test]
fn transcript_is_deterministic_and_sensitive() {
    let mut t1 = Transcript::new(vec![1, 2, 3]);
    let mut t2 = Transcript::new(vec![1, 2, 3]);
    let c1 = t1.challenge();
    let c2 = t2.challenge();
    assert_eq!(c1, c2);
    // identical follow-ups stay identical
    t1.absorb(&vec![9, 9]);
    t2.absorb(&vec![9, 9]);
    assert_eq!(t1.challenge(), t2.challenge());
    // a different seed gives a different first challenge
    let mut t3 = Transcript::new(vec![1, 2, 4]);
    assert_ne!(t3.challenge(), c1);
}

#[test]
fn content_digest_is_stable() {
    let d1 = content_digest(&vec![1, 2, 3]);
    let d2 = content_digest(&vec![1, 2, 3]);
    assert_eq!(d1, d2);
    assert_eq!(d1.len(), 32);
    assert_ne!(content_digest(&vec![1, 2, 4]), d1);
}

#[test]
fn witness_file_round_trips() {
    let w: Vec<Fr> = [5u64, 0, 7, MODULUS - 1].iter().map(|v| Fr::from_u64(*v)).collect();
    let bytes = witness_to_bytes(&w);
    assert_eq!(bytes.len(), 8 + 8 * w.len());
    assert_eq!(witness_from_bytes(&bytes), Some(w.clone()));
    // a non-canonical element is refused
    let mut bad = bytes.clone();
    for b in bad.iter_mut().skip(8).take(8) {
        *b = 0xff;
    }
    assert_eq!(witness_from_bytes(&bad), None);
    // a wrong length is refused
    let mut short = bytes.clone();
    short.pop();
    assert_eq!(witness_from_bytes(&short), None);
    // the empty witness round-trips too
    let none: Vec<Fr> = Vec::new();
    assert_eq!(witness_from_bytes(&witness_to_bytes(&none)), Some(none));
}

#[test]
fn circuit_file_round_trips() {
    let e = Expression::Operation {
        op: BinOp::Add,
        left: Box::new(Expression::Operation {
            op: BinOp::Mul,
            left: Box::new(Expression::Var { index: 0 }),
            right: Box::new(Expression::Var { index: 1 }),
        }),
        right: Box::new(Expression::Const { const_value: 9 }),
    };
    let cr = compile(&e, 2).unwrap();
    let bytes = circuit_to_bytes(&cr.layered_circuit);
    let back = circuit_from_bytes(&bytes).expect("a persisted circuit reads back");
    assert_eq!(circuit_to_bytes(&back), bytes);
    // the restored circuit proves and verifies just as the one it was written from
    let witness = cr.witness_solver.solve(
        &vec![Fr::from_u64(3), Fr::from_u64(5)],
        Fr::from_u64(24),
    ).unwrap();
    let (claimed, proof) = zerok::protocol::prove(&back, &witness).unwrap();
    assert!(zerok::protocol::verify(&back, &vec![Fr::from_u64(24)], claimed, &proof));
    // tampered structure bytes are refused or change the circuit
    let mut bad = bytes.clone();
    bad[16] = 99;
    assert!(circuit_from_bytes(&bad).is_none());
    assert!(circuit_from_bytes(&vec![1, 2, 3]).is_none());
}
