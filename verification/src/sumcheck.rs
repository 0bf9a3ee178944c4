//! The sumcheck round arithmetic.
//!
//! One sumcheck round over a table of residues commits the sums of the
//! even- and odd-indexed halves, then folds the table linearly at the
//! drawn challenge.  The two lemmas at the heart of the protocol state
//! that the committed pair adds up to the table's sum, and that the folded
//! table's sum is exactly the committed line evaluated at the challenge.

use crate::field::{fadd, fmul, frs_ok, fsub, p, vals, Fr, MODULUS};
use vstd::arithmetic::div_mod::{
    lemma_add_mod_noop, lemma_add_mod_noop_right, lemma_mod_bound, lemma_mul_mod_noop_right,
    lemma_sub_mod_noop,
};
use vstd::arithmetic::mul::{lemma_mul_is_distributive_add, lemma_mul_is_distributive_sub};
use vstd::prelude::*;

verus! {

/// The field sum of a sequence of residues.
pub open spec fn seq_fsum(s: Seq<int>) -> int
    decreases s.len(),
{
    if s.len() == 0 {
        0
    } else {
        fadd(seq_fsum(s.drop_last()), s.last())
    }
}

/// The even-indexed entries of a table (the "low half" of each pair).
pub open spec fn evens(s: Seq<int>) -> Seq<int> {
    Seq::new((s.len() / 2) as nat, |i: int| s[2 * i])
}

/// The odd-indexed entries of a table (the "high half" of each pair).
pub open spec fn odds(s: Seq<int>) -> Seq<int> {
    Seq::new((s.len() / 2) as nat, |i: int| s[2 * i + 1])
}

/// One sumcheck fold: each pair collapses to its line evaluated at `r`.
pub open spec fn fold_once(s: Seq<int>, r: int) -> Seq<int> {
    Seq::new((s.len() / 2) as nat, |i: int| fadd(s[2 * i], fmul(r, fsub(s[2 * i + 1], s[2 * i]))))
}

/// Whether `m` is a power of two.
pub open spec fn is_pow2(m: nat) -> bool
    decreases m,
{
    if m == 0 {
        false
    } else if m == 1 {
        true
    } else {
        m % 2 == 0 && is_pow2(m / 2)
    }
}

/// The smallest power of two at or above `n`, and at least two: a padded
/// table always has at least one sumcheck round, so every committed claim
/// gets checked.
pub open spec fn pow2_ceil(n: nat) -> nat
    decreases n,
{
    if n <= 2 {
        2
    } else {
        2 * pow2_ceil(((n + 1) / 2) as nat)
    }
}

/// A table padded with zeros to a power-of-two length.
pub open spec fn pad_table(s: Seq<int>) -> Seq<int> {
    s + Seq::new((pow2_ceil(s.len()) - s.len()) as nat, |i: int| 0)
}

/// `pow2_ceil` is a power of two, at or above its argument and no more
/// than a constant past its double.
pub proof fn lemma_pow2_ceil(n: nat)
    ensures
        pow2_ceil(n) >= n,
        pow2_ceil(n) >= 2,
        is_pow2(pow2_ceil(n)),
        n >= 2 ==> pow2_ceil(n) <= 2 * n - 2,
        pow2_ceil(n) <= 2 * n + 2,
    decreases n,
{
    if n > 2 {
        let m = ((n + 1) / 2) as nat;
        lemma_pow2_ceil(m);
        assert(4 * m <= 2 * (n + 1));
        assert(is_pow2(2 * pow2_ceil(m)));
    } else {
        assert(is_pow2(1nat));
        assert(is_pow2(2nat));
    }
}

/// Every field sum is a canonical residue.
pub proof fn lemma_fsum_bound(s: Seq<int>)
    ensures
        0 <= seq_fsum(s) < p(),
{
    if s.len() == 0 {
    } else {
        lemma_mod_bound(seq_fsum(s.drop_last()) + s.last(), p());
    }
}

/// Field addition reassociates.
pub proof fn lemma_fa_assoc(a: int, b: int, c: int)
    ensures
        fadd(fadd(a, b), c) == fadd(a, fadd(b, c)),
{
    lemma_add_mod_noop_right(c, a + b, p());
    lemma_add_mod_noop_right(a, b + c, p());
}

/// Two field sums of pairs regroup across the pairs.
pub proof fn lemma_fa_swap4(a: int, b: int, c: int, d: int)
    ensures
        fadd(fadd(a, b), fadd(c, d)) == fadd(fadd(a, c), fadd(b, d)),
{
    lemma_add_mod_noop(a + b, c + d, p());
    lemma_add_mod_noop(a + c, b + d, p());
}

/// Field multiplication distributes over a field sum.
pub proof fn lemma_fm_fa(r: int, x: int, y: int)
    ensures
        fmul(r, fadd(x, y)) == fadd(fmul(r, x), fmul(r, y)),
{
    lemma_mul_mod_noop_right(r, x + y, p());
    lemma_mul_is_distributive_add(r, x, y);
    lemma_add_mod_noop(r * x, r * y, p());
}

/// Field multiplication distributes over a field difference.
pub proof fn lemma_fm_fs(r: int, x: int, y: int)
    ensures
        fmul(r, fsub(x, y)) == fsub(fmul(r, x), fmul(r, y)),
{
    lemma_mul_mod_noop_right(r, x - y, p());
    lemma_mul_is_distributive_sub(r, x, y);
    lemma_sub_mod_noop(r * x, r * y, p());
}

/// A difference of field sums splits componentwise.
pub proof fn lemma_fs_fa(x: int, y: int, u: int, v: int)
    ensures
        fsub(fadd(x, y), fadd(u, v)) == fadd(fsub(x, u), fsub(y, v)),
{
    lemma_sub_mod_noop(x + y, u + v, p());
    lemma_add_mod_noop(x - u, y - v, p());
}

/// The two committed round values add up to the table's sum: for an
/// even-length table, the field sum splits into the sums of the even- and
/// odd-indexed entries.
pub proof fn lemma_split_sum(s: Seq<int>)
    requires
        s.len() % 2 == 0,
    ensures
        seq_fsum(s) == fadd(seq_fsum(evens(s)), seq_fsum(odds(s))),
    decreases s.len(),
{
    if s.len() == 0 {
        assert(evens(s).len() == 0 && odds(s).len() == 0);
        assert(seq_fsum(evens(s)) == 0 && seq_fsum(odds(s)) == 0);
        vstd::arithmetic::div_mod::lemma_small_mod(0nat, MODULUS as nat);
        assert(fadd(0, 0) == 0);
    } else {
        let s2 = s.subrange(0, s.len() - 2);
        let a = s[s.len() - 2];
        let b = s[s.len() - 1];
        lemma_split_sum(s2);
        let e2 = seq_fsum(evens(s2));
        let o2 = seq_fsum(odds(s2));
        assert(evens(s) =~= evens(s2).push(a));
        assert(odds(s) =~= odds(s2).push(b));
        assert(evens(s2).push(a).drop_last() =~= evens(s2));
        assert(odds(s2).push(b).drop_last() =~= odds(s2));
        assert(s.drop_last() =~= s2.push(a));
        assert(s2.push(a).drop_last() =~= s2);
        assert(seq_fsum(evens(s)) == fadd(e2, a));
        assert(seq_fsum(odds(s)) == fadd(o2, b));
        assert(seq_fsum(s2.push(a)) == fadd(seq_fsum(s2), a));
        assert(seq_fsum(s) == fadd(seq_fsum(s2.push(a)), b));
        lemma_fa_assoc(fadd(e2, o2), a, b);
        lemma_fa_swap4(e2, o2, a, b);
    }
}

/// The folded table's sum is the committed line evaluated at the
/// challenge: `sum(fold(s, r)) == g0 + r * (g1 - g0)` over the field,
/// where `g0` and `g1` are the even- and odd-indexed sums.
pub proof fn lemma_fold_sum(s: Seq<int>, r: int)
    requires
        s.len() % 2 == 0,
    ensures
        seq_fsum(fold_once(s, r)) == fadd(
            seq_fsum(evens(s)),
            fmul(r, fsub(seq_fsum(odds(s)), seq_fsum(evens(s)))),
        ),
    decreases s.len(),
{
    if s.len() == 0 {
        assert(evens(s).len() == 0 && odds(s).len() == 0 && fold_once(s, r).len() == 0);
        assert(seq_fsum(evens(s)) == 0 && seq_fsum(odds(s)) == 0 && seq_fsum(fold_once(s, r))
            == 0);
        vstd::arithmetic::div_mod::lemma_small_mod(0nat, MODULUS as nat);
        assert(r * 0 == 0);
        assert(fsub(0, 0) == 0);
        assert(fmul(r, 0) == 0);
        assert(fadd(0, 0) == 0);
    } else {
        let s2 = s.subrange(0, s.len() - 2);
        let a = s[s.len() - 2];
        let b = s[s.len() - 1];
        lemma_fold_sum(s2, r);
        let e2 = seq_fsum(evens(s2));
        let o2 = seq_fsum(odds(s2));
        let t = fadd(a, fmul(r, fsub(b, a)));
        assert(evens(s) =~= evens(s2).push(a));
        assert(odds(s) =~= odds(s2).push(b));
        assert(evens(s2).push(a).drop_last() =~= evens(s2));
        assert(odds(s2).push(b).drop_last() =~= odds(s2));
        assert(fold_once(s, r) =~= fold_once(s2, r).push(t));
        assert(fold_once(s2, r).push(t).drop_last() =~= fold_once(s2, r));
        // sum(fold(s)) == fadd(fadd(e2, fm(r, fs(o2, e2))), fadd(a, fm(r, fs(b, a))))
        lemma_fa_swap4(e2, fmul(r, fsub(o2, e2)), a, fmul(r, fsub(b, a)));
        // == fadd(fadd(e2, a), fadd(fm(r, fs(o2, e2)), fm(r, fs(b, a))))
        lemma_fm_fa(r, fsub(o2, e2), fsub(b, a));
        // == fadd(fadd(e2, a), fm(r, fadd(fs(o2, e2), fs(b, a))))
        lemma_fs_fa(o2, b, e2, a);
        // == fadd(fadd(e2, a), fm(r, fs(fadd(o2, b), fadd(e2, a))))
    }
}

/// The field sum of a vector of elements.
pub fn fr_sum(t: &Vec<Fr>) -> (r: Fr)
    requires
        frs_ok(t@),
    ensures
        r.ok(),
        r.val() == seq_fsum(vals(t@)),
{
    let mut acc = Fr::zero();
    let mut i: usize = 0;
    proof {
        assert(vals(t@).take(0) =~= Seq::<int>::empty());
    }
    while i < t.len()
        invariant
            0 <= i <= t@.len(),
            frs_ok(t@),
            acc.ok(),
            acc.val() == seq_fsum(vals(t@).take(i as int)),
        decreases t@.len() - i,
    {
        acc = acc.plus(t[i]);
        proof {
            assert(vals(t@).take(i + 1 as int).drop_last() =~= vals(t@).take(i as int));
            assert(vals(t@).take(i + 1 as int).last() == t@[i as int].val());
        }
        i = i + 1;
    }
    proof {
        assert(vals(t@).take(t@.len() as int) =~= vals(t@));
    }
    acc
}

/// The committed pair of one round: the field sums of the even- and
/// odd-indexed entries of an even-length table.
pub fn even_odd_sums(t: &Vec<Fr>) -> (r: (Fr, Fr))
    requires
        frs_ok(t@),
        t@.len() % 2 == 0,
    ensures
        r.0.ok(),
        r.1.ok(),
        r.0.val() == seq_fsum(evens(vals(t@))),
        r.1.val() == seq_fsum(odds(vals(t@))),
{
    let mut acc0 = Fr::zero();
    let mut acc1 = Fr::zero();
    let tl = t.len();
    let half = tl / 2;
    let mut i: usize = 0;
    proof {
        assert(evens(vals(t@)).take(0) =~= Seq::<int>::empty());
        assert(odds(vals(t@)).take(0) =~= Seq::<int>::empty());
    }
    while i < half
        invariant
            0 <= i <= half,
            tl == t@.len(),
            half == t@.len() / 2,
            t@.len() % 2 == 0,
            frs_ok(t@),
            acc0.ok(),
            acc1.ok(),
            acc0.val() == seq_fsum(evens(vals(t@)).take(i as int)),
            acc1.val() == seq_fsum(odds(vals(t@)).take(i as int)),
        decreases half - i,
    {
        acc0 = acc0.plus(t[2 * i]);
        acc1 = acc1.plus(t[2 * i + 1]);
        proof {
            assert(evens(vals(t@)).take(i + 1 as int).drop_last() =~= evens(vals(t@)).take(
                i as int,
            ));
            assert(evens(vals(t@)).take(i + 1 as int).last() == t@[2 * i as int].val());
            assert(odds(vals(t@)).take(i + 1 as int).drop_last() =~= odds(vals(t@)).take(i as int));
            assert(odds(vals(t@)).take(i + 1 as int).last() == t@[2 * i + 1 as int].val());
        }
        i = i + 1;
    }
    proof {
        assert(evens(vals(t@)).take(half as int) =~= evens(vals(t@)));
        assert(odds(vals(t@)).take(half as int) =~= odds(vals(t@)));
    }
    (acc0, acc1)
}

/// Folds an even-length table at the challenge `r`.
pub fn fold_exec(t: &Vec<Fr>, r: Fr) -> (out: Vec<Fr>)
    requires
        frs_ok(t@),
        r.ok(),
        t@.len() % 2 == 0,
    ensures
        frs_ok(out@),
        out@.len() == t@.len() / 2,
        vals(out@) == fold_once(vals(t@), r.val()),
{
    let mut out: Vec<Fr> = Vec::new();
    let tl = t.len();
    let half = tl / 2;
    let mut i: usize = 0;
    while i < half
        invariant
            0 <= i <= half,
            tl == t@.len(),
            half == t@.len() / 2,
            t@.len() % 2 == 0,
            frs_ok(t@),
            r.ok(),
            frs_ok(out@),
            out@.len() == i,
            forall|k: int|
                0 <= k < i ==> #[trigger] out@[k].val() == fold_once(vals(t@), r.val())[k],
        decreases half - i,
    {
        let v = t[2 * i].plus(r.times(t[2 * i + 1].minus(t[2 * i])));
        out.push(v);
        i = i + 1;
    }
    proof {
        assert(vals(out@) =~= fold_once(vals(t@), r.val()));
    }
    out
}

/// The smallest power of two at or above `n`.
pub fn pow2_ceil_exec(n: usize) -> (r: usize)
    requires
        n <= 0x1000_0000,
    ensures
        r == pow2_ceil(n as nat),
    decreases n,
{
    proof {
        lemma_pow2_ceil(n as nat);
    }
    if n <= 2 {
        2
    } else {
        2 * pow2_ceil_exec((n + 1) / 2)
    }
}

/// Pads a table with zeros to a power-of-two length.
pub fn pad_exec(t: &Vec<Fr>) -> (out: Vec<Fr>)
    requires
        frs_ok(t@),
        t@.len() <= 0x1000_0000,
    ensures
        frs_ok(out@),
        vals(out@) == pad_table(vals(t@)),
        is_pow2(out@.len() as nat),
        out@.len() <= 0x2000_0002,
        out@.len() == pow2_ceil(t@.len() as nat),
{
    let m = pow2_ceil_exec(t.len());
    proof {
        lemma_pow2_ceil(t@.len() as nat);
    }
    let mut out: Vec<Fr> = Vec::new();
    let mut i: usize = 0;
    while i < t.len()
        invariant
            0 <= i <= t@.len(),
            frs_ok(t@),
            out@ == t@.subrange(0, i as int),
        decreases t@.len() - i,
    {
        out.push(t[i]);
        proof {
            assert(out@ =~= t@.subrange(0, i + 1 as int));
        }
        i = i + 1;
    }
    proof {
        assert(out@ =~= t@);
    }
    while out.len() < m
        invariant
            t@.len() <= out@.len() <= m,
            m == pow2_ceil(t@.len() as nat),
            frs_ok(out@),
            out@.subrange(0, t@.len() as int) =~= t@,
            forall|k: int| t@.len() <= k < out@.len() ==> #[trigger] out@[k].val() == 0,
        decreases m - out@.len(),
    {
        out.push(Fr::zero());
    }
    proof {
        assert(vals(out@) =~= pad_table(vals(t@)));
    }
    out
}

} // verus!
