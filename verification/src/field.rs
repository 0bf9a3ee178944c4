//! The prime field the whole pipeline computes in.
//!
//! A field element is a residue modulo `MODULUS`, held as a `u64` that is
//! always strictly below the modulus.  All arithmetic is stated over the
//! mathematical residues (`int` modulo `MODULUS`), and the executable
//! operations are proved to match those statements exactly.

use vstd::arithmetic::div_mod::{
    lemma_add_mod_noop, lemma_mod_bound, lemma_mod_multiples_vanish, lemma_small_mod,
};
use vstd::prelude::*;

verus! {

/// The field modulus: the prime 2^64 - 2^32 + 1.
pub const MODULUS: u64 = 0xFFFF_FFFF_0000_0001;

/// The modulus as a mathematical integer.
pub open spec fn p() -> int {
    MODULUS as int
}

/// Field addition on residues.
pub open spec fn fadd(a: int, b: int) -> int {
    (a + b) % p()
}

/// Field subtraction on residues.
pub open spec fn fsub(a: int, b: int) -> int {
    (a - b) % p()
}

/// Field multiplication on residues.
pub open spec fn fmul(a: int, b: int) -> int {
    (a * b) % p()
}

/// A field element: a residue modulo `MODULUS`.
#[derive(Clone, Copy, PartialEq, Eq, Structural, Debug, Hash)]
pub struct Fr {
    pub v: u64,
}

impl Fr {
    /// The residue this element stands for.
    pub open spec fn val(self) -> int {
        self.v as int
    }

    /// A well-formed element is strictly below the modulus.
    pub open spec fn ok(self) -> bool {
        self.v < MODULUS
    }

    /// The additive identity.
    pub fn zero() -> (r: Fr)
        ensures
            r.ok(),
            r.val() == 0,
    {
        Fr { v: 0 }
    }

    /// The multiplicative identity.
    pub fn one() -> (r: Fr)
        ensures
            r.ok(),
            r.val() == 1,
    {
        Fr { v: 1 }
    }

    /// The element standing for `u`, reduced modulo the field order.
    pub fn from_u64(u: u64) -> (r: Fr)
        ensures
            r.ok(),
            r.val() == u as int % p(),
    {
        Fr { v: u % MODULUS }
    }

    /// Whether this element is the additive identity.
    pub fn is_zero(self) -> (r: bool)
        ensures
            r == (self.val() == 0),
    {
        self.v == 0
    }

    /// Field addition.
    pub fn plus(self, o: Fr) -> (r: Fr)
        requires
            self.ok(),
            o.ok(),
        ensures
            r.ok(),
            r.val() == fadd(self.val(), o.val()),
    {
        let s: u128 = self.v as u128 + o.v as u128;
        let m: u128 = s % (MODULUS as u128);
        proof {
            lemma_mod_bound(s as int, MODULUS as int);
        }
        Fr { v: m as u64 }
    }

    /// Field subtraction.
    pub fn minus(self, o: Fr) -> (r: Fr)
        requires
            self.ok(),
            o.ok(),
        ensures
            r.ok(),
            r.val() == fsub(self.val(), o.val()),
    {
        let s: u128 = self.v as u128 + MODULUS as u128 - o.v as u128;
        let m: u128 = s % (MODULUS as u128);
        proof {
            lemma_mod_bound(s as int, MODULUS as int);
            lemma_mod_multiples_vanish(1, self.val() - o.val(), p());
        }
        Fr { v: m as u64 }
    }

    /// Field multiplication.
    pub fn times(self, o: Fr) -> (r: Fr)
        requires
            self.ok(),
            o.ok(),
        ensures
            r.ok(),
            r.val() == fmul(self.val(), o.val()),
    {
        proof {
            vstd::arithmetic::mul::lemma_mul_upper_bound(
                self.v as int,
                0xFFFF_FFFF_0000_0000,
                o.v as int,
                0xFFFF_FFFF_0000_0000,
            );
        }
        let s: u128 = (self.v as u128) * (o.v as u128);
        let m: u128 = s % (MODULUS as u128);
        proof {
            lemma_mod_bound(s as int, MODULUS as int);
        }
        Fr { v: m as u64 }
    }
}

/// Every element of the sequence is a well-formed field element.
pub open spec fn frs_ok(s: Seq<Fr>) -> bool {
    forall|i: int| 0 <= i < s.len() ==> #[trigger] s[i].ok()
}

/// The residues of a sequence of field elements.
pub open spec fn vals(s: Seq<Fr>) -> Seq<int> {
    s.map_values(|f: Fr| f.val())
}

/// The non-negative integer written by a sequence of decimal digit characters.
pub open spec fn dec_val(s: Seq<u8>) -> int
    decreases s.len(),
{
    if s.len() == 0 {
        0
    } else {
        dec_val(s.drop_last()) * 10 + (s.last() - 48)
    }
}

/// Whether every byte of the sequence is an ASCII decimal digit.
pub open spec fn all_digits(s: Seq<u8>) -> bool {
    forall|i: int| 0 <= i < s.len() ==> 48 <= #[trigger] s[i] <= 57
}

/// The element standing for the arbitrary-precision integer written in
/// decimal, reduced modulo the field order.  Fails exactly when the text is
/// empty or holds a byte that is not a decimal digit.
pub fn fr_from_decimal(s: &[u8]) -> (r: Option<Fr>)
    ensures
        r is Some <==> s@.len() > 0 && all_digits(s@),
        r is Some ==> r->0.ok() && r->0.val() == dec_val(s@) % p(),
{
    if s.len() == 0 {
        return None;
    }
    let mut acc: u64 = 0;
    let mut i: usize = 0;
    proof {
        lemma_small_mod(0nat, MODULUS as nat);
        assert(s@.subrange(0, 0) =~= Seq::<u8>::empty());
    }
    while i < s.len()
        invariant
            0 <= i <= s@.len(),
            s@.len() > 0,
            acc < MODULUS,
            acc as int == dec_val(s@.subrange(0, i as int)) % p(),
            all_digits(s@.subrange(0, i as int)),
        decreases s@.len() - i,
    {
        let b: u8 = s[i];
        if b < 48 || b > 57 {
            proof {
                assert(s@[i as int] == b);
            }
            return None;
        }
        let wide: u128 = (acc as u128) * 10 + (b - 48) as u128;
        let m: u128 = wide % (MODULUS as u128);
        proof {
            lemma_mod_bound(wide as int, MODULUS as int);
            let pre = s@.subrange(0, i as int);
            let cur = s@.subrange(0, i + 1 as int);
            assert(cur.drop_last() =~= pre);
            assert(cur.last() == b);
            // dec_val(cur) % p == (dec_val(pre) * 10 + d) % p, and replacing
            // dec_val(pre) by its residue leaves the result unchanged.
            lemma_mul_mod_noop_left_digits(dec_val(pre), (b - 48) as int);
        }
        acc = m as u64;
        i = i + 1;
    }
    proof {
        assert(s@.subrange(0, i as int) =~= s@);
    }
    Some(Fr { v: acc })
}

/// Folding one more decimal digit commutes with reduction modulo the field
/// order: `(x * 10 + d) % p == ((x % p) * 10 + d) % p`.
proof fn lemma_mul_mod_noop_left_digits(x: int, d: int)
    ensures
        (x * 10 + d) % p() == ((x % p()) * 10 + d) % p(),
{
    vstd::arithmetic::div_mod::lemma_mul_mod_noop_left(x, 10, p());
    lemma_add_mod_noop(x * 10, d, p());
    lemma_add_mod_noop((x % p()) * 10, d, p());
    lemma_mod_bound(d, p());
    lemma_small_mod((d % p()) as nat, MODULUS as nat);
}

} // verus!
