//! The sumcheck-based proving protocol and its verifier.
//!
//! The prover walks the circuit's layers from the output layer backward.
//! For each layer it commits the layer's claimed sum, then runs a
//! multi-round sumcheck over the layer's padded output vector: every round
//! appends the two committed polynomial values to the proof and draws the
//! next challenge from the Fiat-Shamir transcript, folding the table at
//! that challenge; each layer's claim is thereby reduced to a single
//! evaluation point.  The protocol finishes at the input layer with one
//! sumcheck over the circuit's public inputs, whose final folded value is
//! the claimed evaluation value.
//!
//! The verifier replays the identical transcript derivation from the proof
//! bytes, checks every round's committed pair against the running claim
//! and evaluates the committed line at the replayed challenge, requires
//! the output layer's claimed sum to be zero (the public-equality
//! obligations), and finishes by recomputing the entire input-layer stage
//! directly from the gathered public inputs.  Any inconsistency, malformed
//! element or length mismatch yields `false`; verification never panics.

use crate::circuit::{lemma_wire_val_range, LayeredCircuit};
use crate::codec::{
    circuit_bytes, circuit_to_bytes, dec8, dec_fr, enc8, le_bytes, le_val, lemma_le_bytes_len,
    lemma_le_roundtrip, lemma_pow256_8, push_bytes,
};
use crate::eval::{evaluate, lemma_final_layer, lemma_wires_at_len, lemma_wires_at_range};
use crate::field::{fadd, fmul, frs_ok, fsub, p, vals, Fr, MODULUS};
use crate::sumcheck::{
    even_odd_sums, evens, fold_exec, fold_once, fr_sum, is_pow2, lemma_fold_sum, lemma_fsum_bound,
    lemma_pow2_ceil, lemma_split_sum, odds, pad_exec, pad_table, pow2_ceil, pow2_ceil_exec,
    seq_fsum,
};
use crate::transcript::{challenge_of, next_state, Transcript};
use vstd::arithmetic::div_mod::lemma_small_mod;
use vstd::prelude::*;

verus! {

/// A serialized proof: an opaque ordered byte sequence.  It round-trips
/// byte-identically through `clone`.
#[derive(Clone, Debug)]
pub struct Proof {
    pub bytes: Vec<u8>,
}

/// Why proving refused to proceed.
#[derive(Clone, Copy, PartialEq, Eq, Structural, Debug)]
pub enum ProveError {
    /// A public-equality obligation of the final layer is not zero;
    /// proving against an unsatisfied circuit never proceeds.
    UnsatisfiedCircuit,
}

/// One whole sumcheck over a table: the bytes appended to the proof, the
/// final folded value, and the transcript state after the last round.
pub open spec fn sc_rounds(t: Seq<int>, st: Seq<u8>) -> (Seq<u8>, int, Seq<u8>)
    decreases t.len(),
{
    if t.len() == 0 {
        (Seq::empty(), 0, st)
    } else if t.len() == 1 {
        (Seq::empty(), t[0], st)
    } else {
        let g0 = seq_fsum(evens(t));
        let g1 = seq_fsum(odds(t));
        let msg = le_bytes(g0, 8) + le_bytes(g1, 8);
        let st1 = st + msg;
        let r = challenge_of(st1);
        let rec = sc_rounds(fold_once(t, r), next_state(st1));
        (msg + rec.0, rec.1, rec.2)
    }
}

/// What the prover emits for layers `l` down to `1`: for each layer, the
/// committed layer sum followed by its sumcheck rounds.  Yields the proof
/// bytes and the transcript state that the input-layer stage starts from.
pub open spec fn gate_chain(c: LayeredCircuit, inputs: Seq<int>, l: int, st: Seq<u8>) -> (
    Seq<u8>,
    Seq<u8>,
)
    decreases l,
{
    if l <= 0 {
        (Seq::empty(), st)
    } else {
        let t = pad_table(c.layer_vals(inputs, l));
        let sb = le_bytes(seq_fsum(t), 8);
        let rnd = sc_rounds(t, st + sb);
        let rest = gate_chain(c, inputs, l - 1, rnd.2);
        (sb + rnd.0 + rest.0, rest.1)
    }
}

/// The circuit's public input vector under the given input residues: the
/// values of the declared public wires.
pub open spec fn public_table(inputs: Seq<int>, vc: int) -> Seq<int> {
    seq![inputs[vc]]
}

/// What the prover emits for a satisfied circuit: the proof bytes and the
/// claimed evaluation value.  Both are functions of the circuit structure
/// and the witness alone, so identical inputs yield byte-identical proofs.
pub open spec fn prove_spec(c: LayeredCircuit, inputs: Seq<int>) -> (Seq<u8>, int) {
    let st0 = circuit_bytes(c);
    let gate = gate_chain(c, inputs, c.num_layers() - 1, st0);
    let t = pad_table(public_table(inputs, c.vc()));
    let sb = le_bytes(seq_fsum(t), 8);
    let rnd = sc_rounds(t, gate.1 + sb);
    (gate.0 + sb + rnd.0, rnd.1)
}

/// The verifier's view of one sumcheck over a table of `m` entries: reads
/// each round's committed pair, rejects a malformed element, checks the
/// pair against the running claim, and reduces the claim to the committed
/// line's value at the replayed challenge.  Yields the final claim, the
/// unread bytes and the transcript state.
pub open spec fn v_rounds(m: nat, claim: int, bytes: Seq<u8>, st: Seq<u8>) -> Option<
    (int, Seq<u8>, Seq<u8>),
>
    decreases m,
{
    if m <= 1 {
        Some((claim, bytes, st))
    } else if bytes.len() < 16 {
        None
    } else {
        let g0 = le_val(bytes.subrange(0, 8));
        let g1 = le_val(bytes.subrange(8, 16));
        if g0 >= p() || g1 >= p() {
            None
        } else if fadd(g0, g1) != claim {
            None
        } else {
            let st1 = st + bytes.subrange(0, 16);
            let r = challenge_of(st1);
            v_rounds(
                m / 2,
                fadd(g0, fmul(r, fsub(g1, g0))),
                bytes.subrange(16, bytes.len() as int),
                next_state(st1),
            )
        }
    }
}

/// What the verifier reads for layers `l` down to `1`: each layer's
/// claimed sum and its replayed rounds.  Yields the unread bytes and the
/// transcript state for the input-layer stage.
pub open spec fn v_gate_chain(c: LayeredCircuit, l: int, bytes: Seq<u8>, st: Seq<u8>) -> Option<
    (Seq<u8>, Seq<u8>),
>
    decreases l,
{
    if l <= 0 {
        Some((bytes, st))
    } else if bytes.len() < 8 {
        None
    } else {
        let s = le_val(bytes.subrange(0, 8));
        if s >= p() {
            None
        } else {
            let st1 = st + bytes.subrange(0, 8);
            let m = pow2_ceil(c.wires_at(l).len());
            match v_rounds(m, s, bytes.subrange(8, bytes.len() as int), st1) {
                Option::None => None,
                Option::Some((fin, rest, st2)) => v_gate_chain(c, l - 1, rest, st2),
            }
        }
    }
}

/// What the verifier accepts: the output layer's claimed sum is zero,
/// every gate layer's rounds are internally consistent under the replayed
/// transcript, and the whole input-layer stage — claimed sum, every round
/// message, and the final claimed value — matches a direct recomputation
/// from the gathered public inputs, with no proof byte left over.
pub open spec fn verify_spec(
    c: LayeredCircuit,
    gathered: Seq<int>,
    claimed: int,
    bytes: Seq<u8>,
) -> bool {
    let st0 = circuit_bytes(c);
    if bytes.len() < 8 {
        false
    } else if le_val(bytes.subrange(0, 8)) != 0 {
        false
    } else {
        match v_gate_chain(c, c.num_layers() - 1, bytes, st0) {
            Option::None => false,
            Option::Some((rest, st2)) => {
                let t = pad_table(gathered);
                let sb = le_bytes(seq_fsum(t), 8);
                let rnd = sc_rounds(t, st2 + sb);
                rest == sb + rnd.0 && claimed == rnd.1
            },
        }
    }
}

/// Runs one whole sumcheck over a padded table, appending each round's
/// committed pair to the proof and folding at the drawn challenge.
fn run_sumcheck(table: Vec<Fr>, tr: &mut Transcript, out: &mut Vec<u8>) -> (fin: Fr)
    requires
        frs_ok(table@),
        is_pow2(table@.len() as nat),
    ensures
        fin.ok(),
        ({
            let spec = sc_rounds(vals(table@), old(tr).state@);
            &&& final(out)@ == old(out)@ + spec.0
            &&& fin.val() == spec.1
            &&& final(tr).state@ == spec.2
        }),
    decreases table@.len(),
{
    if table.len() == 1 {
        proof {
            assert(sc_rounds(vals(table@), tr.state@).0 =~= Seq::<u8>::empty());
            assert(out@ =~= out@ + Seq::<u8>::empty());
        }
        return table[0];
    }
    let (g0, g1) = even_odd_sums(&table);
    let e0 = enc8(g0.v);
    let e1 = enc8(g1.v);
    push_bytes(out, &e0);
    push_bytes(out, &e1);
    let ghost st0 = tr.state@;
    let ghost bytes0 = old(out)@;
    tr.absorb(&e0);
    tr.absorb(&e1);
    proof {
        assert(tr.state@ =~= st0 + (e0@ + e1@));
    }
    let r = tr.challenge();
    let folded = fold_exec(&table, r);
    proof {
        assert(is_pow2(folded@.len() as nat));
    }
    let fin = run_sumcheck(folded, tr, out);
    proof {
        let t = vals(table@);
        let spec = sc_rounds(t, st0);
        let msg = le_bytes(seq_fsum(evens(t)), 8) + le_bytes(seq_fsum(odds(t)), 8);
        assert(e0@ + e1@ =~= msg);
        let rec = sc_rounds(fold_once(t, challenge_of(st0 + msg)), next_state(st0 + msg));
        assert(vals(folded@) == fold_once(t, challenge_of(st0 + msg)));
        assert(out@ =~= bytes0 + (msg + rec.0));
    }
    fin
}

/// Emits the proof stages of layers `l` down to `1`.
fn prove_gates(
    c: &LayeredCircuit,
    layers: &Vec<Vec<Fr>>,
    l: usize,
    tr: &mut Transcript,
    out: &mut Vec<u8>,
    Ghost(inputs): Ghost<Seq<int>>,
)
    requires
        c.wf(),
        l < layers@.len(),
        layers@.len() == c.num_layers(),
        forall|x: int|
            0 <= x < layers@.len() ==> vals(#[trigger] layers@[x]@) == c.layer_vals(inputs, x),
        forall|x: int| 0 <= x < layers@.len() ==> frs_ok(#[trigger] layers@[x]@),
    ensures
        ({
            let spec = gate_chain(*c, inputs, l as int, old(tr).state@);
            &&& final(out)@ == old(out)@ + spec.0
            &&& final(tr).state@ == spec.1
        }),
    decreases l,
{
    if l == 0 {
        proof {
            assert(out@ =~= out@ + gate_chain(*c, inputs, 0, tr.state@).0);
        }
        return ;
    }
    proof {
        lemma_wires_at_len(c.depth@, l as int, c.n());
        lemma_pow2_ceil(c.wires_at(l as int).len());
        assert(vals(layers@[l as int]@).len() == c.wires_at(l as int).len());
        assert(layers@[l as int]@.len() <= 0x1000_0000);
    }
    let t = pad_exec(&layers[l]);
    let s = fr_sum(&t);
    let es = enc8(s.v);
    let ghost st0 = tr.state@;
    let ghost bytes0 = out@;
    push_bytes(out, &es);
    tr.absorb(&es);
    let _final_eval = run_sumcheck(t, tr, out);
    let ghost st_mid = tr.state@;
    let ghost bytes_mid = out@;
    prove_gates(c, layers, l - 1, tr, out, Ghost(inputs));
    proof {
        let tspec = pad_table(c.layer_vals(inputs, l as int));
        let sb = le_bytes(seq_fsum(tspec), 8);
        let rnd = sc_rounds(tspec, st0 + sb);
        let rest = gate_chain(*c, inputs, l as int - 1, rnd.2);
        assert(es@ == sb);
        assert(bytes_mid =~= bytes0 + sb + rnd.0);
        assert(out@ =~= bytes0 + (sb + rnd.0 + rest.0));
    }
}

/// Produces the claimed evaluation value and the serialized proof for a
/// circuit and witness.  Refuses to proceed, with `UnsatisfiedCircuit`,
/// exactly when some public-equality obligation of the final layer is not
/// zero.  The result is a pure function of the circuit and witness, so an
/// identical pair always yields a byte-identical proof.
pub fn prove(c: &LayeredCircuit, witness: &Vec<Fr>) -> (r: Result<(Fr, Proof), ProveError>)
    requires
        c.wf(),
        frs_ok(witness@),
        witness@.len() == c.n(),
    ensures
        r is Ok <==> c.obligation_val(c.inputs_of(witness@)) == 0,
        r is Err ==> r->Err_0 == ProveError::UnsatisfiedCircuit,
        r is Ok ==> ({
            let spec = prove_spec(*c, c.inputs_of(witness@));
            &&& r->Ok_0.0.ok()
            &&& r->Ok_0.0.val() == spec.1
            &&& r->Ok_0.1.bytes@ == spec.0
        }),
{
    let layers = match evaluate(c, witness) {
        Result::Ok(ls) => ls,
        Result::Err(_) => {
            return Err(ProveError::UnsatisfiedCircuit);
        },
    };
    let ghost inputs = c.inputs_of(witness@);
    let seed = circuit_to_bytes(c);
    let mut tr = Transcript::new(seed);
    let mut out: Vec<u8> = Vec::new();
    let top = layers.len() - 1;
    prove_gates(c, &layers, top, &mut tr, &mut out, Ghost(inputs));
    let ghost gate_bytes = out@;
    let mut pv: Vec<Fr> = Vec::new();
    pv.push(witness[c.shape.var_count]);
    proof {
        assert(witness@[c.shape.var_count as int].val() == inputs[c.vc()]);
        assert(vals(pv@) =~= public_table(inputs, c.vc()));
        lemma_pow2_ceil(1);
    }
    let pt = pad_exec(&pv);
    let s = fr_sum(&pt);
    let es = enc8(s.v);
    let ghost st_gate = tr.state@;
    push_bytes(&mut out, &es);
    tr.absorb(&es);
    let fin = run_sumcheck(pt, &mut tr, &mut out);
    proof {
        let spec = prove_spec(*c, inputs);
        let t = pad_table(public_table(inputs, c.vc()));
        let sb = le_bytes(seq_fsum(t), 8);
        let rnd = sc_rounds(t, st_gate + sb);
        assert(vals(pt@) == t);
        assert(es@ == sb);
        assert(out@ =~= gate_bytes + sb + rnd.0);
    }
    Ok((fin, Proof { bytes: out }))
}

/// Replaying an honest prover's rounds succeeds: for a power-of-two table
/// of canonical residues, the verifier's round replay over the prover's
/// bytes accepts, reproduces the prover's final folded value and
/// transcript state, and leaves exactly the trailing bytes unread.
pub proof fn lemma_rounds_complete(t: Seq<int>, st: Seq<u8>, extra: Seq<u8>)
    requires
        is_pow2(t.len()),
        forall|i: int| 0 <= i < t.len() ==> 0 <= #[trigger] t[i] < p(),
    ensures
        v_rounds(t.len(), seq_fsum(t), sc_rounds(t, st).0 + extra, st) == Some(
            (sc_rounds(t, st).1, extra, sc_rounds(t, st).2),
        ),
    decreases t.len(),
{
    let spec = sc_rounds(t, st);
    if t.len() == 1 {
        assert(t.drop_last() =~= Seq::<int>::empty());
        assert(seq_fsum(Seq::<int>::empty()) == 0);
        assert(seq_fsum(t) == fadd(0, t[0]));
        lemma_small_mod(t[0] as nat, MODULUS as nat);
        assert(seq_fsum(t) == t[0]);
        assert(spec.0 + extra =~= extra);
    } else {
        let g0 = seq_fsum(evens(t));
        let g1 = seq_fsum(odds(t));
        let msg = le_bytes(g0, 8) + le_bytes(g1, 8);
        let st1 = st + msg;
        let r = challenge_of(st1);
        let t2 = fold_once(t, r);
        let rec = sc_rounds(t2, next_state(st1));
        let bytes = spec.0 + extra;
        lemma_le_bytes_len(g0, 8);
        lemma_le_bytes_len(g1, 8);
        lemma_fsum_bound(evens(t));
        lemma_fsum_bound(odds(t));
        lemma_pow256_8();
        lemma_le_roundtrip(g0, 8);
        lemma_le_roundtrip(g1, 8);
        assert(bytes.len() >= 16);
        assert(bytes.subrange(0, 8) =~= le_bytes(g0, 8));
        assert(bytes.subrange(8, 16) =~= le_bytes(g1, 8));
        lemma_split_sum(t);
        assert(bytes.subrange(0, 16) =~= msg);
        lemma_fold_sum(t, r);
        assert(t2.len() == t.len() / 2 && is_pow2(t2.len()));
        assert forall|i: int| 0 <= i < t2.len() implies 0 <= #[trigger] t2[i] < p() by {
            vstd::arithmetic::div_mod::lemma_mod_bound(
                t[2 * i] + (r * (((t[2 * i + 1] - t[2 * i]) % p())) % p()),
                p(),
            );
        }
        lemma_rounds_complete(t2, next_state(st1), extra);
        assert(bytes.subrange(16, bytes.len() as int) =~= rec.0 + extra);
    }
}

/// Replaying an honest prover's layer stages succeeds and leaves exactly
/// the trailing bytes unread.
pub proof fn lemma_gates_complete(
    c: LayeredCircuit,
    inputs: Seq<int>,
    l: int,
    st: Seq<u8>,
    extra: Seq<u8>,
)
    requires
        c.wf(),
        inputs.len() == c.vc() + 1,
        forall|i: int| 0 <= i < inputs.len() ==> 0 <= #[trigger] inputs[i] < p(),
        0 <= l < c.num_layers(),
    ensures
        v_gate_chain(c, l, gate_chain(c, inputs, l, st).0 + extra, st) == Some(
            (extra, gate_chain(c, inputs, l, st).1),
        ),
    decreases l,
{
    let chain = gate_chain(c, inputs, l, st);
    if l <= 0 {
        assert(chain.0 + extra =~= extra);
    } else {
        let lv = c.layer_vals(inputs, l);
        let t = pad_table(lv);
        let sfull = seq_fsum(t);
        let sb = le_bytes(sfull, 8);
        let rnd = sc_rounds(t, st + sb);
        let rest = gate_chain(c, inputs, l - 1, rnd.2);
        let bytes = chain.0 + extra;
        lemma_le_bytes_len(sfull, 8);
        lemma_fsum_bound(t);
        lemma_pow256_8();
        lemma_le_roundtrip(sfull, 8);
        assert(bytes.len() >= 8);
        assert(bytes.subrange(0, 8) =~= sb);
        lemma_pow2_ceil(lv.len());
        assert(t.len() == pow2_ceil(c.wires_at(l).len()));
        lemma_wires_at_range(c.depth@, l, c.n());
        assert forall|i: int| 0 <= i < t.len() implies 0 <= #[trigger] t[i] < p() by {
            if i < lv.len() {
                let w = c.wires_at(l)[i];
                lemma_wire_val_range(c.vc(), c.shape.defs@, inputs, w);
            }
        }
        lemma_rounds_complete(t, st + sb, rest.0 + extra);
        assert(bytes.subrange(8, bytes.len() as int) =~= rnd.0 + (rest.0 + extra));
        lemma_gates_complete(c, inputs, l - 1, rnd.2, extra);
    }
}

/// Completeness: for a well-formed circuit whose public-equality
/// obligation is satisfied, the verifier accepts the honest prover's proof
/// and claimed value, with the prover's own public inputs gathered.
pub proof fn lemma_verify_accepts(c: LayeredCircuit, inputs: Seq<int>)
    requires
        c.wf(),
        inputs.len() == c.vc() + 1,
        forall|i: int| 0 <= i < inputs.len() ==> 0 <= #[trigger] inputs[i] < p(),
        c.obligation_val(inputs) == 0,
    ensures
        verify_spec(
            c,
            public_table(inputs, c.vc()),
            prove_spec(c, inputs).1,
            prove_spec(c, inputs).0,
        ),
{
    let st0 = circuit_bytes(c);
    let top = c.num_layers() - 1;
    let gate = gate_chain(c, inputs, top, st0);
    let t = pad_table(public_table(inputs, c.vc()));
    let sb = le_bytes(seq_fsum(t), 8);
    let rnd = sc_rounds(t, gate.1 + sb);
    let bytes = gate.0 + sb + rnd.0;
    assert(c.depth@[0] == 0);
    assert(c.depth@[0] < c.depth@[c.n() - 1]);
    assert(top >= 1);
    // The output layer's committed sum is zero: its one wire is the
    // satisfied obligation.
    let lv_top = c.layer_vals(inputs, top);
    lemma_final_layer(c.depth@, top, c.n(), c.n());
    assert(c.wires_at(top) == seq![c.n() - 1]);
    assert(lv_top =~= seq![c.obligation_val(inputs)]);
    lemma_pow2_ceil(1);
    assert(pad_table(lv_top) =~= seq![0int, 0int]);
    assert(seq![0int, 0int].drop_last() =~= seq![0int]);
    assert(seq![0int].drop_last() =~= Seq::<int>::empty());
    lemma_small_mod(0nat, MODULUS as nat);
    assert(seq_fsum(Seq::<int>::empty()) == 0);
    assert(seq_fsum(seq![0int]) == fadd(0, 0) && fadd(0, 0) == 0);
    assert(seq_fsum(seq![0int, 0int]) == fadd(seq_fsum(seq![0int]), 0));
    let sb_top = le_bytes(0, 8);
    lemma_le_bytes_len(0, 8);
    let rnd_top = sc_rounds(pad_table(lv_top), st0 + sb_top);
    let rest_top = gate_chain(c, inputs, top - 1, rnd_top.2);
    assert(gate.0 == sb_top + rnd_top.0 + rest_top.0);
    assert(bytes.len() >= 8);
    assert(bytes.subrange(0, 8) =~= sb_top);
    lemma_pow256_8();
    lemma_le_roundtrip(0, 8);
    // Every gate layer replays successfully.
    lemma_gates_complete(c, inputs, top, st0, sb + rnd.0);
    assert(bytes =~= gate.0 + (sb + rnd.0));
    assert(v_gate_chain(c, top, bytes, st0) == Some((sb + rnd.0, gate.1)));
}

/// Copies `len` bytes starting at `off`.
fn copy_range(bytes: &Vec<u8>, off: usize, len: usize) -> (r: Vec<u8>)
    requires
        off + len <= bytes@.len(),
    ensures
        r@ == bytes@.subrange(off as int, off as int + len),
{
    let mut out: Vec<u8> = Vec::new();
    let blen = bytes.len();
    let mut i: usize = 0;
    while i < len
        invariant
            0 <= i <= len,
            off + len <= blen,
            blen == bytes@.len(),
            out@ == bytes@.subrange(off as int, off as int + i),
        decreases len - i,
    {
        out.push(bytes[off + i]);
        proof {
            assert(out@ =~= bytes@.subrange(off as int, off as int + i + 1));
        }
        i = i + 1;
    }
    out
}

/// Whether the proof bytes from `off` on are exactly the expected bytes.
fn tail_eq(bytes: &Vec<u8>, off: usize, expected: &Vec<u8>) -> (r: bool)
    requires
        off <= bytes@.len(),
    ensures
        r == (bytes@.subrange(off as int, bytes@.len() as int) == expected@),
{
    let blen = bytes.len();
    let elen = expected.len();
    if blen - off != elen {
        proof {
            assert(bytes@.subrange(off as int, bytes@.len() as int).len() != expected@.len());
        }
        return false;
    }
    let mut i: usize = 0;
    while i < elen
        invariant
            0 <= i <= elen,
            off + elen == blen,
            blen == bytes@.len(),
            elen == expected@.len(),
            forall|k: int| 0 <= k < i ==> bytes@[off + k] == #[trigger] expected@[k],
        decreases elen - i,
    {
        if bytes[off + i] != expected[i] {
            proof {
                let suffix = bytes@.subrange(off as int, bytes@.len() as int);
                assert(suffix[i as int] != expected@[i as int]);
            }
            return false;
        }
        i = i + 1;
    }
    proof {
        assert(bytes@.subrange(off as int, bytes@.len() as int) =~= expected@);
    }
    true
}

/// The number of wires in layer `l`.
fn layer_size(c: &LayeredCircuit, l: usize) -> (r: usize)
    requires
        c.wf(),
    ensures
        r == c.wires_at(l as int).len(),
{
    let n = c.depth.len();
    let mut count: usize = 0;
    let mut w: usize = 0;
    while w < n
        invariant
            0 <= w <= n,
            n == c.depth@.len(),
            count <= w,
            count == crate::eval::wires_at_upto(c.depth@, l as int, w as int).len(),
        decreases n - w,
    {
        proof {
            let pre = crate::eval::wires_at_upto(c.depth@, l as int, w as int);
            if c.depth@[w as int] == l {
                assert(crate::eval::wires_at_upto(c.depth@, l as int, w + 1 as int) == pre.push(
                    w as int,
                ));
            } else {
                assert(crate::eval::wires_at_upto(c.depth@, l as int, w + 1 as int) == pre);
            }
        }
        if c.depth[w] == l {
            count = count + 1;
        }
        w = w + 1;
    }
    proof {
        assert(c.depth@.len() == c.n());
    }
    count
}

/// Replays one sumcheck's rounds from the proof bytes: checks each
/// committed pair against the running claim and reduces the claim at the
/// replayed challenge.  Returns the final claim and the new read offset,
/// or nothing on a malformed element, a short proof, or an inconsistent
/// round.
fn v_rounds_exec(m: usize, claim: Fr, bytes: &Vec<u8>, off: usize, tr: &mut Transcript) -> (r:
    Option<(Fr, usize)>)
    requires
        claim.ok(),
        off <= bytes@.len(),
    ensures
        ({
            let spec = v_rounds(
                m as nat,
                claim.val(),
                bytes@.subrange(off as int, bytes@.len() as int),
                old(tr).state@,
            );
            match r {
                Option::None => spec is None,
                Option::Some((fin, off2)) => {
                    &&& off <= off2 <= bytes@.len()
                    &&& fin.ok()
                    &&& spec == Some(
                        (
                            fin.val(),
                            bytes@.subrange(off2 as int, bytes@.len() as int),
                            final(tr).state@,
                        ),
                    )
                },
            }
        }),
    decreases m,
{
    if m <= 1 {
        return Some((claim, off));
    }
    let blen = bytes.len();
    let ghost s = bytes@.subrange(off as int, bytes@.len() as int);
    if blen - off < 16 {
        return None;
    }
    proof {
        assert(s.subrange(0, 8) =~= bytes@.subrange(off as int, off as int + 8));
        assert(s.subrange(8, 16) =~= bytes@.subrange(off as int + 8, off as int + 16));
    }
    let g0 = match dec_fr(bytes, off) {
        Option::Some(x) => x,
        Option::None => {
            return None;
        },
    };
    let g1 = match dec_fr(bytes, off + 8) {
        Option::Some(x) => x,
        Option::None => {
            return None;
        },
    };
    if !(g0.plus(g1) == claim) {
        return None;
    }
    let msg = copy_range(bytes, off, 16);
    tr.absorb(&msg);
    proof {
        assert(s.subrange(0, 16) =~= bytes@.subrange(off as int, off as int + 16));
        assert(tr.state@ == old(tr).state@ + s.subrange(0, 16));
    }
    let ch = tr.challenge();
    let next = g0.plus(ch.times(g1.minus(g0)));
    let res = v_rounds_exec(m / 2, next, bytes, off + 16, tr);
    proof {
        assert(s.subrange(16, s.len() as int) =~= bytes@.subrange(
            off as int + 16,
            bytes@.len() as int,
        ));
    }
    res
}

/// Replays the stages of layers `l` down to `1` from the proof bytes.
fn v_gates_exec(c: &LayeredCircuit, l: usize, bytes: &Vec<u8>, off: usize, tr: &mut Transcript)
    -> (r: Option<usize>)
    requires
        c.wf(),
        off <= bytes@.len(),
    ensures
        ({
            let spec = v_gate_chain(
                *c,
                l as int,
                bytes@.subrange(off as int, bytes@.len() as int),
                old(tr).state@,
            );
            match r {
                Option::None => spec is None,
                Option::Some(off2) => {
                    &&& off <= off2 <= bytes@.len()
                    &&& spec == Some(
                        (bytes@.subrange(off2 as int, bytes@.len() as int), final(tr).state@),
                    )
                },
            }
        }),
    decreases l,
{
    if l == 0 {
        return Some(off);
    }
    let blen = bytes.len();
    let ghost s = bytes@.subrange(off as int, bytes@.len() as int);
    if blen - off < 8 {
        return None;
    }
    proof {
        assert(s.subrange(0, 8) =~= bytes@.subrange(off as int, off as int + 8));
    }
    let claim = match dec_fr(bytes, off) {
        Option::Some(x) => x,
        Option::None => {
            return None;
        },
    };
    let msg = copy_range(bytes, off, 8);
    tr.absorb(&msg);
    proof {
        assert(tr.state@ == old(tr).state@ + s.subrange(0, 8));
        lemma_wires_at_len(c.depth@, l as int, c.n());
    }
    let m = pow2_ceil_exec(layer_size(c, l));
    let res = match v_rounds_exec(m, claim, bytes, off + 8, tr) {
        Option::None => {
            proof {
                assert(s.subrange(8, s.len() as int) =~= bytes@.subrange(
                    off as int + 8,
                    bytes@.len() as int,
                ));
            }
            return None;
        },
        Option::Some((fin2, off2)) => {
            proof {
                assert(s.subrange(8, s.len() as int) =~= bytes@.subrange(
                    off as int + 8,
                    bytes@.len() as int,
                ));
            }
            v_gates_exec(c, l - 1, bytes, off2, tr)
        },
    };
    res
}

/// Checks a proof against a circuit, the gathered public inputs, and the
/// claimed evaluation value, by replaying the transcript derivation over
/// the proof bytes.  Returns `false` — and never panics — on any round
/// inconsistency, malformed element, wrong proof length, non-zero output
/// obligations, or final-value mismatch.
pub fn verify(c: &LayeredCircuit, gathered: &Vec<Fr>, claimed: Fr, proof: &Proof) -> (r: bool)
    requires
        c.wf(),
        frs_ok(gathered@),
        claimed.ok(),
        gathered@.len() <= 0x1000_0000,
    ensures
        r == verify_spec(*c, vals(gathered@), claimed.val(), proof.bytes@),
{
    let blen = proof.bytes.len();
    if blen < 8 {
        return false;
    }
    let s0 = dec8(&proof.bytes, 0);
    if s0 != 0 {
        return false;
    }
    let seed = circuit_to_bytes(c);
    let mut tr = Transcript::new(seed);
    let nn = c.depth.len();
    proof {
        assert(c.depth@.len() == c.n() && c.n() >= 2);
    }
    let top = c.depth[nn - 1];
    proof {
        assert(proof.bytes@.subrange(0, proof.bytes@.len() as int) =~= proof.bytes@);
    }
    let off = match v_gates_exec(c, top, &proof.bytes, 0, &mut tr) {
        Option::None => {
            return false;
        },
        Option::Some(o) => o,
    };
    let pt = pad_exec(gathered);
    let s = fr_sum(&pt);
    let es = enc8(s.v);
    let mut expected: Vec<u8> = Vec::new();
    push_bytes(&mut expected, &es);
    tr.absorb(&es);
    let fin = run_sumcheck(pt, &mut tr, &mut expected);
    let ok_tail = tail_eq(&proof.bytes, off, &expected);
    let ok_val = claimed == fin;
    proof {
        assert(vals(pt@) == pad_table(vals(gathered@)));
    }
    ok_tail && ok_val
}

} // verus!
