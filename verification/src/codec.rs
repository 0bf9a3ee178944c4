//! Byte encodings: little-endian fixed-width integers, field elements, and
//! the circuit's structural serialization.
//!
//! Every value that crosses into the proof byte stream or a persisted
//! artifact goes through these encoders, and the decoders are proved to
//! recover exactly what was encoded.

use crate::circuit::{def_ok_at, defs_ok, depth_ok_at, first_gate, lower_inv, CircuitShape, LayeredCircuit, WireDef, MAX_WIRES};
use crate::field::{Fr, MODULUS, p};
use crate::field::frs_ok;
use vstd::arithmetic::div_mod::{
    lemma_fundamental_div_mod, lemma_fundamental_div_mod_converse_div,
    lemma_fundamental_div_mod_converse_mod, lemma_mod_bound, lemma_multiply_divide_lt,
};
use vstd::prelude::*;

verus! {

/// 256 to the `k`-th power.
pub open spec fn pow256(k: nat) -> int
    decreases k,
{
    if k == 0 {
        1
    } else {
        256 * pow256((k - 1) as nat)
    }
}

/// The non-negative integer a little-endian byte sequence stands for.
pub open spec fn le_val(s: Seq<u8>) -> int
    decreases s.len(),
{
    if s.len() == 0 {
        0
    } else {
        s[0] + 256 * le_val(s.subrange(1, s.len() as int))
    }
}

/// The `k`-byte little-endian encoding of a non-negative integer.
pub open spec fn le_bytes(v: int, k: nat) -> Seq<u8>
    decreases k,
{
    if k == 0 {
        Seq::empty()
    } else {
        seq![(v % 256) as u8] + le_bytes(v / 256, (k - 1) as nat)
    }
}

/// The encoding is exactly `k` bytes long.
pub proof fn lemma_le_bytes_len(v: int, k: nat)
    ensures
        le_bytes(v, k).len() == k,
    decreases k,
{
    if k > 0 {
        lemma_le_bytes_len(v / 256, (k - 1) as nat);
    }
}

/// Decoding recovers what was encoded, for values within `k` bytes.
pub proof fn lemma_le_roundtrip(v: int, k: nat)
    requires
        0 <= v < pow256(k),
    ensures
        le_val(le_bytes(v, k)) == v,
    decreases k,
{
    if k > 0 {
        lemma_multiply_divide_lt(v, 256, pow256((k - 1) as nat));
        lemma_le_roundtrip(v / 256, (k - 1) as nat);
        lemma_le_bytes_len(v / 256, (k - 1) as nat);
        let s = le_bytes(v, k);
        assert(s.subrange(1, s.len() as int) =~= le_bytes(v / 256, (k - 1) as nat));
        lemma_mod_bound(v, 256);
        lemma_fundamental_div_mod(v, 256);
    }
}

/// A byte sequence decodes to a value within its width.
pub proof fn lemma_le_val_bound(s: Seq<u8>)
    ensures
        0 <= le_val(s) < pow256(s.len()),
    decreases s.len(),
{
    if s.len() > 0 {
        lemma_le_val_bound(s.subrange(1, s.len() as int));
    }
}

/// Every `u64` fits in eight bytes.
pub proof fn lemma_pow256_8()
    ensures
        pow256(8) == 0x1_0000_0000_0000_0000,
        pow256(7) == 0x100_0000_0000_0000,
{
    assert(pow256(0) == 1);
    assert(pow256(1) == 256);
    assert(pow256(2) == 0x1_0000);
    assert(pow256(3) == 0x100_0000);
    assert(pow256(4) == 0x1_0000_0000);
    assert(pow256(5) == 0x100_0000_0000);
    assert(pow256(6) == 0x1_0000_0000_0000);
    assert(pow256(7) == 0x100_0000_0000_0000);
    assert(pow256(8) == 0x1_0000_0000_0000_0000);
}

/// Encodes a machine word as eight little-endian bytes.
pub fn enc8(v: u64) -> (r: Vec<u8>)
    ensures
        r@ == le_bytes(v as int, 8),
        r@.len() == 8,
{
    let mut out: Vec<u8> = Vec::new();
    let mut tmp: u64 = v;
    let mut i: usize = 0;
    while i < 8
        invariant
            0 <= i <= 8,
            out@.len() == i,
            le_bytes(v as int, 8) =~= out@ + le_bytes(tmp as int, (8 - i) as nat),
        decreases 8 - i,
    {
        let ghost out0 = out@;
        let b = (tmp % 256) as u8;
        out.push(b);
        proof {
            assert(le_bytes(tmp as int, (8 - i) as nat) == seq![(tmp as int % 256) as u8]
                + le_bytes(tmp as int / 256, (8 - i - 1) as nat));
            assert(out0 + le_bytes(tmp as int, (8 - i) as nat) =~= out@ + le_bytes(
                tmp as int / 256,
                (8 - i - 1) as nat,
            ));
        }
        tmp = tmp / 256;
        i = i + 1;
    }
    proof {
        lemma_le_bytes_len(v as int, 8);
        assert(le_bytes(v as int, 8) =~= out@);
    }
    out
}

/// Decodes eight little-endian bytes starting at `off`.
pub fn dec8(bytes: &Vec<u8>, off: usize) -> (r: u64)
    requires
        off + 8 <= bytes@.len(),
    ensures
        r as int == le_val(bytes@.subrange(off as int, off as int + 8)),
{
    let mut v: u64 = 0;
    let mut i: usize = 8;
    let blen = bytes.len();
    proof {
        assert(bytes@.subrange(off as int + 8, off as int + 8) =~= Seq::<u8>::empty());
    }
    while i > 0
        invariant
            0 <= i <= 8,
            off + 8 <= blen,
            blen == bytes@.len(),
            v as int == le_val(bytes@.subrange(off + i as int, off as int + 8)),
        decreases i,
    {
        let ghost sfull = bytes@.subrange(off + i - 1 as int, off as int + 8);
        proof {
            lemma_le_val_bound(bytes@.subrange(off + i as int, off as int + 8));
            lemma_pow256_8();
            lemma_pow256_le(bytes@.subrange(off + i as int, off as int + 8).len(), 7);
            assert(sfull.subrange(1, sfull.len() as int) =~= bytes@.subrange(
                off + i as int,
                off as int + 8,
            ));
            assert(le_val(sfull) == sfull[0] + 256 * le_val(
                sfull.subrange(1, sfull.len() as int),
            ));
        }
        v = v * 256 + (bytes[off + i - 1] as u64);
        i = i - 1;
    }
    v
}

/// `pow256` is monotone in its exponent.
pub proof fn lemma_pow256_le(a: nat, b: nat)
    requires
        a <= b,
    ensures
        pow256(a) <= pow256(b),
        pow256(a) >= 1,
    decreases b,
{
    if a < b {
        lemma_pow256_le(a, (b - 1) as nat);
    } else if b > 0 {
        lemma_pow256_le((a - 1) as nat, (b - 1) as nat);
    }
}

/// Decodes eight bytes as a field element; fails exactly when the decoded
/// value is not a canonical residue.
pub fn dec_fr(bytes: &Vec<u8>, off: usize) -> (r: Option<Fr>)
    requires
        off + 8 <= bytes@.len(),
    ensures
        r is Some <==> le_val(bytes@.subrange(off as int, off as int + 8)) < p(),
        r is Some ==> r->0.ok() && r->0.val() == le_val(
            bytes@.subrange(off as int, off as int + 8),
        ),
{
    let v = dec8(bytes, off);
    if v < MODULUS {
        Some(Fr { v })
    } else {
        None
    }
}

/// Appends all bytes of `bs` to `out`.
pub fn push_bytes(out: &mut Vec<u8>, bs: &Vec<u8>)
    ensures
        final(out)@ == old(out)@ + bs@,
{
    let mut i: usize = 0;
    while i < bs.len()
        invariant
            0 <= i <= bs@.len(),
            out@ == old(out)@ + bs@.subrange(0, i as int),
        decreases bs@.len() - i,
    {
        out.push(bs[i]);
        proof {
            assert(old(out)@ + bs@.subrange(0, i + 1 as int) =~= (old(out)@ + bs@.subrange(
                0,
                i as int,
            )).push(bs@[i as int]));
        }
        i = i + 1;
    }
    proof {
        assert(bs@.subrange(0, bs@.len() as int) =~= bs@);
    }
}


/// Encoding a value and decoding it back is the identity on byte
/// sequences: a `k`-byte sequence is the encoding of its own value.
pub proof fn lemma_le_bytes_inverse(s: Seq<u8>)
    ensures
        le_bytes(le_val(s), s.len()) == s,
    decreases s.len(),
{
    if s.len() > 0 {
        let rest = s.subrange(1, s.len() as int);
        lemma_le_bytes_inverse(rest);
        lemma_le_val_bound(rest);
        let v = le_val(s);
        lemma_fundamental_div_mod_converse_mod(v, 256, le_val(rest), s[0] as int);
        lemma_fundamental_div_mod_converse_div(v, 256, le_val(rest), s[0] as int);
        assert(le_bytes(v, s.len()) =~= s);
    }
}

/// The serialization of a witness's elements, in wire order.
pub open spec fn elems_bytes(s: Seq<Fr>) -> Seq<u8>
    decreases s.len(),
{
    if s.len() == 0 {
        Seq::empty()
    } else {
        elems_bytes(s.drop_last()) + le_bytes(s.last().val(), 8)
    }
}

/// The witness file's body: the element count, then every element.
pub open spec fn witness_bytes(s: Seq<Fr>) -> Seq<u8> {
    le_bytes(s.len() as int, 8) + elems_bytes(s)
}

/// The element serialization is eight bytes per element, and element `i`
/// sits at offset `8 * i`.
pub proof fn lemma_elems_bytes_index(s: Seq<Fr>, i: int)
    requires
        0 <= i < s.len(),
    ensures
        elems_bytes(s).len() == 8 * s.len(),
        elems_bytes(s).subrange(8 * i, 8 * i + 8) == le_bytes(s[i].val(), 8),
    decreases s.len(),
{
    lemma_le_bytes_len(s.last().val(), 8);
    if s.len() == 1 {
        assert(elems_bytes(s.drop_last()) =~= Seq::<u8>::empty());
        assert(elems_bytes(s).subrange(0, 8) =~= le_bytes(s.last().val(), 8));
    } else if i < s.len() - 1 {
        lemma_elems_bytes_index(s.drop_last(), i);
        assert(elems_bytes(s).subrange(8 * i, 8 * i + 8) =~= elems_bytes(s.drop_last()).subrange(
            8 * i,
            8 * i + 8,
        ));
    } else {
        lemma_elems_bytes_index(s.drop_last(), 0);
        assert(elems_bytes(s).subrange(8 * i, 8 * i + 8) =~= le_bytes(s.last().val(), 8));
    }
}

/// Serializes a witness: the element count, then every element in wire
/// order.
pub fn witness_to_bytes(w: &Vec<Fr>) -> (r: Vec<u8>)
    ensures
        r@ == witness_bytes(w@),
{
    let mut out: Vec<u8> = Vec::new();
    let el = enc8(w.len() as u64);
    push_bytes(&mut out, &el);
    let mut i: usize = 0;
    while i < w.len()
        invariant
            0 <= i <= w@.len(),
            out@ == le_bytes(w@.len() as int, 8) + elems_bytes(w@.subrange(0, i as int)),
        decreases w@.len() - i,
    {
        let eb = enc8(w[i].v);
        push_bytes(&mut out, &eb);
        proof {
            let pre = w@.subrange(0, i as int);
            let cur = w@.subrange(0, i + 1 as int);
            assert(cur.drop_last() =~= pre);
            assert(cur.last() == w@[i as int]);
        }
        i = i + 1;
    }
    proof {
        assert(w@.subrange(0, w@.len() as int) =~= w@);
    }
    out
}

/// Whether a byte sequence is a well-formed witness file: the declared
/// count matches the length, and every element is a canonical residue.
pub open spec fn witness_bytes_wf(bytes: Seq<u8>) -> bool {
    &&& bytes.len() >= 8
    &&& bytes.len() == 8 + 8 * le_val(bytes.subrange(0, 8))
    &&& forall|i: int|
        0 <= i < le_val(bytes.subrange(0, 8)) ==> le_val(
            #[trigger] bytes.subrange(8 + 8 * i, 16 + 8 * i),
        ) < p()
}

/// Deserializes a witness file.  Fails exactly when the declared element
/// count does not match the file's length or some element is not a
/// canonical residue; on success the decoded witness re-serializes to the
/// very same bytes.
pub fn witness_from_bytes(bytes: &Vec<u8>) -> (r: Option<Vec<Fr>>)
    ensures
        r is Some <==> witness_bytes_wf(bytes@),
        r is Some ==> frs_ok(r->0@) && witness_bytes(r->0@) == bytes@,
{
    let blen = bytes.len();
    if blen < 8 {
        return None;
    }
    let k64 = dec8(bytes, 0);
    proof {
        lemma_le_val_bound(bytes@.subrange(0, 8));
        lemma_pow256_8();
    }
    if k64 > blen as u64 {
        // such a count can never match the file's length
        proof {
            assert(8 + 8 * le_val(bytes@.subrange(0, 8)) > blen);
        }
        return None;
    }
    let k = k64 as usize;
    let q = (blen - 8) / 8;
    let rm = (blen - 8) % 8;
    if q != k || rm != 0 {
        proof {
            if witness_bytes_wf(bytes@) {
                lemma_fundamental_div_mod_converse_div(blen - 8 as int, 8, k as int, 0);
                lemma_fundamental_div_mod_converse_mod(blen - 8 as int, 8, k as int, 0);
            }
        }
        return None;
    }
    proof {
        lemma_fundamental_div_mod(blen - 8 as int, 8);
    }
    let mut out: Vec<Fr> = Vec::new();
    let mut i: usize = 0;
    while i < k
        invariant
            0 <= i <= k,
            blen == bytes@.len(),
            blen == 8 + 8 * k,
            k == le_val(bytes@.subrange(0, 8)),
            out@.len() == i,
            frs_ok(out@),
            forall|x: int|
                0 <= x < i ==> #[trigger] out@[x].val() == le_val(
                    bytes@.subrange(8 + 8 * x, 16 + 8 * x),
                ),
        decreases k - i,
    {
        proof {
            assert(bytes@.subrange(8 + 8 * (i as int), (8 + 8 * (i as int)) + 8) =~= bytes@
                .subrange(8 + 8 * (i as int), 16 + 8 * (i as int)));
        }
        let f = match dec_fr(bytes, 8 + 8 * i) {
            Option::Some(f) => f,
            Option::None => {
                proof {
                    assert(le_val(bytes@.subrange(8 + 8 * (i as int), 16 + 8 * (i as int)))
                        >= p());
                }
                return None;
            },
        };
        out.push(f);
        i = i + 1;
    }
    proof {
        assert(witness_bytes(out@).len() == bytes@.len()) by {
            lemma_le_bytes_len(out@.len() as int, 8);
            if out@.len() > 0 {
                lemma_elems_bytes_index(out@, 0);
            } else {
                assert(elems_bytes(out@) =~= Seq::<u8>::empty());
            }
        }
        assert forall|j: int| 0 <= j < bytes@.len() implies witness_bytes(out@)[j] == #[trigger] bytes@[j]
            by {
            lemma_le_bytes_len(out@.len() as int, 8);
            if j < 8 {
                lemma_le_bytes_inverse(bytes@.subrange(0, 8));
                assert(le_bytes(k as int, 8) == bytes@.subrange(0, 8));
            } else {
                let x = (j - 8) / 8;
                let o = (j - 8) % 8;
                vstd::arithmetic::div_mod::lemma_fundamental_div_mod(j - 8, 8);
                lemma_elems_bytes_index(out@, x);
                lemma_le_bytes_inverse(bytes@.subrange(8 + 8 * x, 16 + 8 * x));
                assert(elems_bytes(out@).subrange(8 * x, 8 * x + 8) == bytes@.subrange(
                    8 + 8 * x,
                    16 + 8 * x,
                ));
                assert(witness_bytes(out@)[j] == elems_bytes(out@)[j - 8]);
                assert(elems_bytes(out@)[j - 8] == elems_bytes(out@).subrange(8 * x, 8 * x + 8)[o]);
                assert(bytes@[j] == bytes@.subrange(8 + 8 * x, 16 + 8 * x)[o]);
            }
        }
        assert(witness_bytes(out@) =~= bytes@);
        assert forall|x: int|
            0 <= x < le_val(bytes@.subrange(0, 8)) implies le_val(
            #[trigger] bytes@.subrange(8 + 8 * x, 16 + 8 * x),
        ) < p() by {
            assert(out@[x].val() == le_val(bytes@.subrange(8 + 8 * x, 16 + 8 * x)));
            assert(out@[x].ok());
        }
        assert(witness_bytes_wf(bytes@));
    }
    Some(out)
}

/// Serializing a well-formed witness and reading the file back yields the
/// witness again: the file format is lossless.
pub proof fn lemma_witness_roundtrip(w: Seq<Fr>)
    requires
        frs_ok(w),
        w.len() < 0x1_0000_0000_0000_0000,
    ensures
        witness_bytes_wf(witness_bytes(w)),
        forall|i: int|
            0 <= i < w.len() ==> le_val(
                #[trigger] witness_bytes(w).subrange(8 + 8 * i, 16 + 8 * i),
            ) == w[i].val(),
    decreases w.len(),
{
    let bytes = witness_bytes(w);
    lemma_le_bytes_len(w.len() as int, 8);
    lemma_pow256_8();
    lemma_le_roundtrip(w.len() as int, 8);
    assert(bytes.subrange(0, 8) =~= le_bytes(w.len() as int, 8));
    if w.len() > 0 {
        lemma_elems_bytes_index(w, 0);
    } else {
        assert(elems_bytes(w) =~= Seq::<u8>::empty());
    }
    assert forall|i: int| 0 <= i < w.len() implies le_val(
        #[trigger] bytes.subrange(8 + 8 * i, 16 + 8 * i),
    ) == w[i].val() by {
        lemma_elems_bytes_index(w, i);
        assert(bytes.subrange(8 + 8 * i, 16 + 8 * i) =~= elems_bytes(w).subrange(
            8 * i,
            8 * i + 8,
        ));
        lemma_le_roundtrip(w[i].val(), 8);
    }
    assert forall|i: int|
        0 <= i < le_val(bytes.subrange(0, 8)) implies le_val(
        #[trigger] bytes.subrange(8 + 8 * i, 16 + 8 * i),
    ) < p() by {
        assert(le_val(bytes.subrange(8 + 8 * i, 16 + 8 * i)) == w[i].val());
        assert(w[i].ok());
    }
    assert(witness_bytes_wf(bytes));
}


/// The structural serialization of one wire definition: a tag byte and two
/// eight-byte operands.
pub open spec fn def_bytes(d: WireDef) -> Seq<u8> {
    match d {
        WireDef::AddGate(a, b) => seq![1u8] + le_bytes(a as int, 8) + le_bytes(b as int, 8),
        WireDef::MulGate(a, b) => seq![2u8] + le_bytes(a as int, 8) + le_bytes(b as int, 8),
        WireDef::SubGate(a, b) => seq![3u8] + le_bytes(a as int, 8) + le_bytes(b as int, 8),
        WireDef::ConstGate(c) => seq![4u8] + le_bytes(c.val(), 8) + le_bytes(0, 8),
    }
}

/// The serialization of a whole gate table, in wire order.
pub open spec fn defs_bytes(defs: Seq<WireDef>) -> Seq<u8>
    decreases defs.len(),
{
    if defs.len() == 0 {
        Seq::empty()
    } else {
        defs_bytes(defs.drop_last()) + def_bytes(defs.last())
    }
}

/// The structural serialization of a layered circuit: arity, gate count,
/// then every gate.  It determines the Fiat-Shamir transcript's seed.
pub open spec fn circuit_bytes(c: LayeredCircuit) -> Seq<u8> {
    le_bytes(c.shape.var_count as int, 8) + le_bytes(c.shape.defs@.len() as int, 8) + defs_bytes(
        c.shape.defs@,
    )
}

/// Serializes one wire definition.
fn def_to_bytes(d: &WireDef) -> (r: Vec<u8>)
    ensures
        r@ == def_bytes(*d),
{
    let mut out: Vec<u8> = Vec::new();
    match d {
        WireDef::AddGate(a, b) => {
            out.push(1u8);
            let ea = enc8(*a as u64);
            push_bytes(&mut out, &ea);
            let eb = enc8(*b as u64);
            push_bytes(&mut out, &eb);
            proof {
                assert(out@ =~= def_bytes(*d));
            }
        },
        WireDef::MulGate(a, b) => {
            out.push(2u8);
            let ea = enc8(*a as u64);
            push_bytes(&mut out, &ea);
            let eb = enc8(*b as u64);
            push_bytes(&mut out, &eb);
            proof {
                assert(out@ =~= def_bytes(*d));
            }
        },
        WireDef::SubGate(a, b) => {
            out.push(3u8);
            let ea = enc8(*a as u64);
            push_bytes(&mut out, &ea);
            let eb = enc8(*b as u64);
            push_bytes(&mut out, &eb);
            proof {
                assert(out@ =~= def_bytes(*d));
            }
        },
        WireDef::ConstGate(c) => {
            out.push(4u8);
            let ec = enc8(c.v);
            push_bytes(&mut out, &ec);
            let ez = enc8(0u64);
            push_bytes(&mut out, &ez);
            proof {
                assert(out@ =~= def_bytes(*d));
            }
        },
    }
    out
}

/// Serializes the circuit's structure (the transcript seed and the
/// persisted circuit artifact's body).
pub fn circuit_to_bytes(c: &LayeredCircuit) -> (r: Vec<u8>)
    ensures
        r@ == circuit_bytes(*c),
{
    let mut out: Vec<u8> = Vec::new();
    let ev = enc8(c.shape.var_count as u64);
    push_bytes(&mut out, &ev);
    let el = enc8(c.shape.defs.len() as u64);
    push_bytes(&mut out, &el);
    let mut i: usize = 0;
    while i < c.shape.defs.len()
        invariant
            0 <= i <= c.shape.defs@.len(),
            out@ == le_bytes(c.shape.var_count as int, 8) + le_bytes(
                c.shape.defs@.len() as int,
                8,
            ) + defs_bytes(c.shape.defs@.subrange(0, i as int)),
        decreases c.shape.defs@.len() - i,
    {
        let db = def_to_bytes(&c.shape.defs[i]);
        push_bytes(&mut out, &db);
        proof {
            let pre = c.shape.defs@.subrange(0, i as int);
            let cur = c.shape.defs@.subrange(0, i + 1 as int);
            assert(cur.drop_last() =~= pre);
            assert(cur.last() == c.shape.defs@[i as int]);
            assert(defs_bytes(cur) == defs_bytes(pre) + def_bytes(c.shape.defs@[i as int]));
        }
        i = i + 1;
    }
    proof {
        assert(c.shape.defs@.subrange(0, c.shape.defs@.len() as int) =~= c.shape.defs@);
    }
    out
}


/// The wire definition a circuit file declares at gate slot `i` (junk
/// when the slot's tag is invalid; `chunk_ok` guards it).
pub open spec fn file_def(bytes: Seq<u8>, i: int) -> WireDef {
    let o = 16 + 17 * i;
    let tag = bytes[o];
    let a = le_val(bytes.subrange(o + 1, o + 9));
    let b = le_val(bytes.subrange(o + 9, o + 17));
    if tag == 1 {
        WireDef::AddGate(a as usize, b as usize)
    } else if tag == 2 {
        WireDef::MulGate(a as usize, b as usize)
    } else if tag == 3 {
        WireDef::SubGate(a as usize, b as usize)
    } else {
        WireDef::ConstGate(Fr { v: a as u64 })
    }
}

/// The whole gate table a circuit file declares.
pub open spec fn file_defs(bytes: Seq<u8>, cnt: int) -> Seq<WireDef> {
    Seq::new(cnt as nat, |i: int| file_def(bytes, i))
}

/// Gate slot `i` of a circuit file is well-formed: a known tag, operands
/// strictly below the slot's wire, and for a constant a canonical residue
/// with a zero second word.
pub open spec fn chunk_ok(bytes: Seq<u8>, vc: int, i: int) -> bool {
    let o = 16 + 17 * i;
    let tag = bytes[o];
    let a = le_val(bytes.subrange(o + 1, o + 9));
    let b = le_val(bytes.subrange(o + 9, o + 17));
    if tag == 1 || tag == 2 || tag == 3 {
        a < first_gate(vc) + i && b < first_gate(vc) + i
    } else if tag == 4 {
        a < p() && b == 0
    } else {
        false
    }
}

/// A well-formed circuit file: consistent declared sizes within the
/// machine limit, every gate slot well-formed, the last gate a
/// public-equality obligation against the public-output wire, and that
/// obligation strictly above every other wire.
pub open spec fn circuit_file_wf(bytes: Seq<u8>) -> bool {
    let vc = le_val(bytes.subrange(0, 8));
    let cnt = le_val(bytes.subrange(8, 16));
    &&& bytes.len() >= 16
    &&& cnt >= 1
    &&& vc + 1 + cnt <= MAX_WIRES
    &&& bytes.len() == 16 + 17 * cnt
    &&& forall|i: int| 0 <= i < cnt ==> #[trigger] chunk_ok(bytes, vc, i)
    &&& (file_defs(bytes, cnt).last() matches WireDef::SubGate(a, b) && b == vc)
    &&& forall|w: int|
        0 <= w < vc + cnt ==> #[trigger] crate::circuit::wire_depth(vc, file_defs(bytes, cnt), w)
            < crate::circuit::wire_depth(vc, file_defs(bytes, cnt), vc + cnt)
}

/// Deserializes a circuit file.  It succeeds exactly on well-formed
/// circuit files; on success the layered circuit is well-formed and
/// re-serializes to the very same bytes, so the persisted form is
/// lossless.
pub fn circuit_from_bytes(bytes: &Vec<u8>) -> (r: Option<LayeredCircuit>)
    ensures
        r is Some <==> circuit_file_wf(bytes@),
        r is Some ==> r->0.wf() && circuit_bytes(r->0) == bytes@,
{
    let blen = bytes.len();
    if blen < 16 {
        return None;
    }
    let vc64 = dec8(bytes, 0);
    let cnt64 = dec8(bytes, 8);
    if (vc64 as u128) + 1 + (cnt64 as u128) > MAX_WIRES as u128 {
        return None;
    }
    if cnt64 == 0 {
        return None;
    }
    let vc = vc64 as usize;
    let count = cnt64 as usize;
    let q = (blen - 16) / 17;
    let rm = (blen - 16) % 17;
    if q != count || rm != 0 {
        proof {
            if circuit_file_wf(bytes@) {
                lemma_fundamental_div_mod_converse_div(blen - 16 as int, 17, count as int, 0);
                lemma_fundamental_div_mod_converse_mod(blen - 16 as int, 17, count as int, 0);
            }
        }
        return None;
    }
    proof {
        lemma_fundamental_div_mod(blen - 16 as int, 17);
    }
    let mut defs: Vec<WireDef> = Vec::new();
    let mut depth: Vec<usize> = Vec::new();
    let mut w: usize = 0;
    while w < vc + 1
        invariant
            0 <= w <= vc + 1,
            vc + 2 <= MAX_WIRES,
            depth@.len() == w,
            forall|x: int| 0 <= x < w ==> #[trigger] depth@[x] == 0,
        decreases vc + 1 - w,
    {
        depth.push(0);
        w = w + 1;
    }
    let mut i: usize = 0;
    while i < count
        invariant
            0 <= i <= count,
            blen == bytes@.len(),
            blen == 16 + 17 * count,
            vc + 1 + count <= MAX_WIRES,
            defs@.len() == i,
            lower_inv(vc as int, defs@, depth@),
            defs_bytes(defs@) == bytes@.subrange(16, 16 + 17 * (i as int)),
            forall|j: int| 0 <= j < i ==> #[trigger] chunk_ok(bytes@, vc as int, j),
            forall|j: int| 0 <= j < i ==> defs@[j] == #[trigger] file_def(bytes@, j),
            count == le_val(bytes@.subrange(8, 16)),
            vc == le_val(bytes@.subrange(0, 8)),
        decreases count - i,
    {
        let off = 16 + 17 * i;
        let tag = bytes[off];
        proof {
            assert(bytes@.subrange(off + 1 as int, (off + 1) + 8 as int) =~= bytes@.subrange(
                off + 1 as int,
                off + 9 as int,
            ));
            assert(bytes@.subrange(off + 9 as int, (off + 9) + 8 as int) =~= bytes@.subrange(
                off + 9 as int,
                off + 17 as int,
            ));
        }
        let a64 = dec8(bytes, off + 1);
        let b64 = dec8(bytes, off + 9);
        let wire_limit = vc + 1 + i;
        let ghost defs0 = defs@;
        let ghost depth0 = depth@;
        let d: WireDef;
        if tag == 1 || tag == 2 || tag == 3 {
            if a64 >= wire_limit as u64 || b64 >= wire_limit as u64 {
                proof {
                    assert(!chunk_ok(bytes@, vc as int, i as int));
                }
                return None;
            }
            let a = a64 as usize;
            let b = b64 as usize;
            d = if tag == 1 {
                WireDef::AddGate(a, b)
            } else if tag == 2 {
                WireDef::MulGate(a, b)
            } else {
                WireDef::SubGate(a, b)
            };
            let da = depth[a];
            let db = depth[b];
            let dmax = if da >= db {
                da
            } else {
                db
            };
            depth.push(dmax + 1);
        } else if tag == 4 {
            if a64 >= MODULUS || b64 != 0 {
                proof {
                    assert(!chunk_ok(bytes@, vc as int, i as int));
                }
                return None;
            }
            d = WireDef::ConstGate(Fr { v: a64 });
            depth.push(0);
        } else {
            proof {
                assert(!chunk_ok(bytes@, vc as int, i as int));
            }
            return None;
        }
        defs.push(d);
        proof {
            assert(depth@.drop_last() =~= depth0);
        }
        proof {
            let vd = defs@;
            let dd = depth@;
            let vci = vc as int;
            assert forall|x: int| 0 <= x < vd.len() implies #[trigger] def_ok_at(vci, vd, x) by {
                if x < vd.len() - 1 {
                    assert(def_ok_at(vci, defs0, x));
                }
            }
            assert forall|x: int| 0 <= x < vd.len() implies #[trigger] depth_ok_at(
                vci,
                vd,
                dd,
                x,
            ) by {
                if x < vd.len() - 1 {
                    assert(def_ok_at(vci, defs0, x));
                    assert(depth_ok_at(vci, defs0, depth0, x));
                }
            }
            // the parsed gate writes back as the same seventeen bytes
            let o = off as int;
            lemma_le_bytes_inverse(bytes@.subrange(o + 1, o + 9));
            lemma_le_bytes_inverse(bytes@.subrange(o + 9, o + 17));
            assert(def_bytes(d) =~= bytes@.subrange(o, o + 17));
            assert(vd.drop_last() =~= defs0);
            assert(defs_bytes(vd) == defs_bytes(defs0) + def_bytes(d));
            assert(defs_bytes(vd) =~= bytes@.subrange(16, 16 + 17 * (i + 1 as int)));
            assert(chunk_ok(bytes@, vci, i as int));
            assert(defs@[i as int] == file_def(bytes@, i as int));
        }
        i = i + 1;
    }
    proof {
        assert(file_defs(bytes@, count as int) =~= defs@);
    }
    // the final wire must be the public-equality obligation
    let out_wire: usize;
    match defs[count - 1] {
        WireDef::SubGate(a, b) => {
            if b != vc {
                return None;
            }
            out_wire = a;
        },
        _ => {
            return None;
        },
    }
    // the obligation must sit strictly above every other wire
    let n = vc + 1 + count;
    let ghost vci = vc as int;
    proof {
        assert forall|y: int| 0 <= y < depth@.len() implies #[trigger] depth@[y]
            == crate::circuit::wire_depth(vci, defs@, y) by {
            crate::circuit::lemma_depth_determined(vci, defs@, depth@, y);
        }
    }
    let d_last = depth[n - 1];
    let mut x: usize = 0;
    while x < n - 1
        invariant
            0 <= x <= n - 1,
            n == depth@.len(),
            n == vci + 1 + count,
            d_last == depth@[n - 1],
            count == le_val(bytes@.subrange(8, 16)),
            vci == le_val(bytes@.subrange(0, 8)),
            defs@.len() == count,
            forall|j: int| 0 <= j < count ==> defs@[j] == #[trigger] file_def(bytes@, j),
            forall|y: int| 0 <= y < x ==> #[trigger] depth@[y] < d_last,
            forall|y: int|
                0 <= y < depth@.len() ==> #[trigger] depth@[y] == crate::circuit::wire_depth(
                    vci,
                    defs@,
                    y,
                ),
        decreases n - 1 - x,
    {
        if depth[x] >= d_last {
            proof {
                assert(file_defs(bytes@, count as int) =~= defs@);
                assert(crate::circuit::wire_depth(vci, defs@, x as int) >= crate::circuit::wire_depth(
                    vci,
                    defs@,
                    n - 1 as int,
                ));
            }
            return None;
        }
        x = x + 1;
    }
    let c = LayeredCircuit {
        shape: CircuitShape { var_count: vc, defs },
        depth,
        out_wire,
        zero_tail: 1,
    };
    proof {
        assert(c.shape.defs@.last() == WireDef::SubGate(out_wire, vc));
        assert(def_ok_at(vc as int, c.shape.defs@, count - 1 as int));
        lemma_le_bytes_inverse(bytes@.subrange(0, 8));
        lemma_le_bytes_inverse(bytes@.subrange(8, 16));
        assert(c.shape.defs@ =~= c.shape.defs@.subrange(0, c.shape.defs@.len() as int));
        assert(circuit_bytes(c) =~= bytes@);
        assert(circuit_file_wf(bytes@)) by {
            assert forall|w: int|
                0 <= w < vci + count implies #[trigger] crate::circuit::wire_depth(
                vci,
                file_defs(bytes@, count as int),
                w,
            ) < crate::circuit::wire_depth(vci, file_defs(bytes@, count as int), vci + count) by {
                assert(depth@[w] < d_last);
                assert(depth@[w] == crate::circuit::wire_depth(vci, defs@, w));
                assert(depth@[vci + count] == crate::circuit::wire_depth(vci, defs@, vci + count));
            }
            assert(file_defs(bytes@, count as int).last() == file_def(
                bytes@,
                count - 1 as int,
            ));
        }
    }
    Some(c)
}

/// One wire definition serializes to seventeen bytes: its tag and two
/// eight-byte words.
proof fn lemma_def_bytes_slots(d: WireDef)
    ensures
        def_bytes(d).len() == 17,
        d matches WireDef::AddGate(a, b) ==> def_bytes(d)[0] == 1 && def_bytes(d).subrange(1, 9)
            == le_bytes(a as int, 8) && def_bytes(d).subrange(9, 17) == le_bytes(b as int, 8),
        d matches WireDef::MulGate(a, b) ==> def_bytes(d)[0] == 2 && def_bytes(d).subrange(1, 9)
            == le_bytes(a as int, 8) && def_bytes(d).subrange(9, 17) == le_bytes(b as int, 8),
        d matches WireDef::SubGate(a, b) ==> def_bytes(d)[0] == 3 && def_bytes(d).subrange(1, 9)
            == le_bytes(a as int, 8) && def_bytes(d).subrange(9, 17) == le_bytes(b as int, 8),
        d matches WireDef::ConstGate(c) ==> def_bytes(d)[0] == 4 && def_bytes(d).subrange(1, 9)
            == le_bytes(c.val(), 8) && def_bytes(d).subrange(9, 17) == le_bytes(0, 8),
{
    match d {
        WireDef::AddGate(a, b) => {
            lemma_le_bytes_len(a as int, 8);
            lemma_le_bytes_len(b as int, 8);
            assert(def_bytes(d).subrange(1, 9) =~= le_bytes(a as int, 8));
            assert(def_bytes(d).subrange(9, 17) =~= le_bytes(b as int, 8));
        },
        WireDef::MulGate(a, b) => {
            lemma_le_bytes_len(a as int, 8);
            lemma_le_bytes_len(b as int, 8);
            assert(def_bytes(d).subrange(1, 9) =~= le_bytes(a as int, 8));
            assert(def_bytes(d).subrange(9, 17) =~= le_bytes(b as int, 8));
        },
        WireDef::SubGate(a, b) => {
            lemma_le_bytes_len(a as int, 8);
            lemma_le_bytes_len(b as int, 8);
            assert(def_bytes(d).subrange(1, 9) =~= le_bytes(a as int, 8));
            assert(def_bytes(d).subrange(9, 17) =~= le_bytes(b as int, 8));
        },
        WireDef::ConstGate(c) => {
            lemma_le_bytes_len(c.val(), 8);
            lemma_le_bytes_len(0, 8);
            assert(def_bytes(d).subrange(1, 9) =~= le_bytes(c.val(), 8));
            assert(def_bytes(d).subrange(9, 17) =~= le_bytes(0, 8));
        },
    }
}

/// Each serialized gate sits at a fixed offset: seventeen bytes per slot,
/// slot `i` at offset `17 * i` within the table's bytes.
proof fn lemma_defs_bytes_index(defs: Seq<WireDef>, i: int)
    requires
        0 <= i < defs.len(),
    ensures
        defs_bytes(defs).len() == 17 * defs.len(),
        defs_bytes(defs).subrange(17 * i, 17 * i + 17) == def_bytes(defs[i]),
    decreases defs.len(),
{
    lemma_def_bytes_slots(defs.last());
    if defs.len() == 1 {
        assert(defs_bytes(defs.drop_last()) =~= Seq::<u8>::empty());
        assert(defs_bytes(defs).subrange(0, 17) =~= def_bytes(defs.last()));
    } else if i < defs.len() - 1 {
        lemma_defs_bytes_index(defs.drop_last(), i);
        assert(defs_bytes(defs).subrange(17 * i, 17 * i + 17) =~= defs_bytes(
            defs.drop_last(),
        ).subrange(17 * i, 17 * i + 17));
    } else {
        lemma_defs_bytes_index(defs.drop_last(), 0);
        assert(defs_bytes(defs).subrange(17 * i, 17 * i + 17) =~= def_bytes(defs.last()));
    }
}

/// A well-formed circuit's serialization is a well-formed circuit file,
/// and the file declares exactly the circuit's gates: reading a genuinely
/// persisted circuit back always succeeds.
pub proof fn lemma_circuit_file_roundtrip(c: LayeredCircuit)
    requires
        c.wf(),
    ensures
        circuit_file_wf(circuit_bytes(c)),
        file_defs(circuit_bytes(c), c.shape.defs@.len() as int) == c.shape.defs@,
{
    let bytes = circuit_bytes(c);
    let vc = c.shape.var_count as int;
    let cnt = c.shape.defs@.len() as int;
    let defs = c.shape.defs@;
    lemma_le_bytes_len(vc, 8);
    lemma_le_bytes_len(cnt, 8);
    lemma_pow256_8();
    lemma_le_roundtrip(vc, 8);
    lemma_le_roundtrip(cnt, 8);
    lemma_defs_bytes_index(defs, 0);
    assert(bytes.subrange(0, 8) =~= le_bytes(vc, 8));
    assert(bytes.subrange(8, 16) =~= le_bytes(cnt, 8));
    assert(bytes.len() == 16 + 17 * cnt);
    assert forall|i: int|
        0 <= i < cnt implies #[trigger] chunk_ok(bytes, vc, i) && file_def(bytes, i) == defs[i] by {
        lemma_defs_bytes_index(defs, i);
        let d = defs[i];
        lemma_def_bytes_slots(d);
        let o = 16 + 17 * i;
        assert forall|j: int| 0 <= j < 17 implies #[trigger] bytes.subrange(o, o + 17)[j]
            == def_bytes(d)[j] by {
            assert(bytes[o + j] == defs_bytes(defs)[17 * i + j]);
            assert(defs_bytes(defs).subrange(17 * i, 17 * i + 17)[j] == defs_bytes(defs)[17 * i
                + j]);
        }
        assert(bytes.subrange(o, o + 17) =~= def_bytes(d));
        assert(bytes.subrange(o + 1, o + 9) =~= bytes.subrange(o, o + 17).subrange(1, 9));
        assert(bytes.subrange(o + 9, o + 17) =~= bytes.subrange(o, o + 17).subrange(9, 17));
        assert(bytes[o] == def_bytes(d)[0]);
        assert(def_ok_at(vc, defs, i));
        match d {
            WireDef::AddGate(a, b) => {
                lemma_le_roundtrip(a as int, 8);
                lemma_le_roundtrip(b as int, 8);
            },
            WireDef::MulGate(a, b) => {
                lemma_le_roundtrip(a as int, 8);
                lemma_le_roundtrip(b as int, 8);
            },
            WireDef::SubGate(a, b) => {
                lemma_le_roundtrip(a as int, 8);
                lemma_le_roundtrip(b as int, 8);
            },
            WireDef::ConstGate(cc) => {
                lemma_le_roundtrip(cc.val(), 8);
                lemma_le_roundtrip(0, 8);
            },
        }
    }
    assert forall|i: int| 0 <= i < cnt implies #[trigger] file_defs(bytes, cnt)[i] == defs[i] by {
        assert(chunk_ok(bytes, vc, i) && file_def(bytes, i) == defs[i]);
    }
    assert(file_defs(bytes, cnt) =~= defs);
    assert(file_defs(bytes, cnt).last() == file_def(bytes, cnt - 1));
    assert(defs.last() == WireDef::SubGate(c.out_wire, c.shape.var_count));
    assert forall|w: int|
        0 <= w < vc + cnt implies #[trigger] crate::circuit::wire_depth(
        vc,
        file_defs(bytes, cnt),
        w,
    ) < crate::circuit::wire_depth(vc, file_defs(bytes, cnt), vc + cnt) by {
        crate::circuit::lemma_depth_determined(vc, defs, c.depth@, w);
        crate::circuit::lemma_depth_determined(vc, defs, c.depth@, vc + cnt);
        assert(c.depth@[w] < c.depth@[c.n() - 1]);
    }
}

} // verus!
