//! The textual expression description format.
//!
//! A node takes one of three shapes: a binary operation
//! `{op:"add",left:<node>,right:<node>}` (or `"mul"`), a constant
//! `{const_value:<decimal>}`, or a variable reference `{var:<decimal>}`.
//! The format is canonical: the writer emits exactly one text per
//! expression, with no whitespace anywhere and no leading zeros in
//! numbers, and the parser accepts nothing else — whatever parses is
//! proved to write back as the very input text, every canonical text is
//! accepted, and any other shape is a fatal parse failure.

use crate::circuit::CompileError;
use crate::expr::{expr_size, BinOp, Expression};
use crate::field::{all_digits, dec_val};
use vstd::arithmetic::div_mod::{
    lemma_fundamental_div_mod, lemma_fundamental_div_mod_converse_div,
    lemma_fundamental_div_mod_converse_mod,
};
use vstd::prelude::*;

verus! {

/// The decimal digits of a non-negative integer, most significant first,
/// with no leading zeros.
pub open spec fn dec_text(n: int) -> Seq<u8>
    decreases n,
{
    if n < 10 {
        seq![(48 + if n >= 0 {
            n
        } else {
            0
        }) as u8]
    } else {
        dec_text(n / 10) + seq![(48 + n % 10) as u8]
    }
}

/// The tag of a binary operator.
pub open spec fn op_tag(op: BinOp) -> Seq<u8> {
    match op {
        BinOp::Add => seq![97u8, 100u8, 100u8],
        BinOp::Mul => seq![109u8, 117u8, 108u8],
    }
}

/// The bytes of `{op:"`.
pub open spec fn lit_op_open() -> Seq<u8> {
    seq![123u8, 111u8, 112u8, 58u8, 34u8]
}

/// The bytes of `",left:`.
pub open spec fn lit_left() -> Seq<u8> {
    seq![34u8, 44u8, 108u8, 101u8, 102u8, 116u8, 58u8]
}

/// The bytes of `,right:`.
pub open spec fn lit_right() -> Seq<u8> {
    seq![44u8, 114u8, 105u8, 103u8, 104u8, 116u8, 58u8]
}

/// The bytes of `{const_value:`.
pub open spec fn lit_const() -> Seq<u8> {
    seq![123u8, 99u8, 111u8, 110u8, 115u8, 116u8, 95u8, 118u8, 97u8, 108u8, 117u8, 101u8, 58u8]
}

/// The bytes of `{var:`.
pub open spec fn lit_var() -> Seq<u8> {
    seq![123u8, 118u8, 97u8, 114u8, 58u8]
}

/// The canonical text of an expression.
pub open spec fn expr_text(e: Expression) -> Seq<u8>
    decreases e,
{
    match e {
        Expression::Operation { op, left, right } => lit_op_open() + op_tag(op) + lit_left()
            + expr_text(*left) + lit_right() + expr_text(*right) + seq![125u8],
        Expression::Const { const_value } => lit_const() + dec_text(const_value as int) + seq![
            125u8,
        ],
        Expression::Var { index } => lit_var() + dec_text(index as int) + seq![125u8],
    }
}

/// Appends the decimal digits of `n`.
fn push_dec(out: &mut Vec<u8>, n: u32)
    ensures
        final(out)@ == old(out)@ + dec_text(n as int),
    decreases n,
{
    if n < 10 {
        out.push((48 + n) as u8);
        proof {
            assert(out@ =~= old(out)@ + dec_text(n as int));
        }
    } else {
        push_dec(out, n / 10);
        out.push((48 + n % 10) as u8);
        proof {
            assert(out@ =~= old(out)@ + dec_text(n as int));
        }
    }
}

/// Appends a literal given as its bytes.
fn push_seq(out: &mut Vec<u8>, b0: &Vec<u8>)
    ensures
        final(out)@ == old(out)@ + b0@,
{
    crate::codec::push_bytes(out, b0);
}

/// The bytes of `{op:"` as a vector.
fn vec_op_open() -> (r: Vec<u8>)
    ensures
        r@ == lit_op_open(),
{
    let mut v: Vec<u8> = Vec::new();
    v.push(123);
    v.push(111);
    v.push(112);
    v.push(58);
    v.push(34);
    proof {
        assert(v@ =~= lit_op_open());
    }
    v
}

/// The bytes of `",left:` as a vector.
fn vec_left() -> (r: Vec<u8>)
    ensures
        r@ == lit_left(),
{
    let mut v: Vec<u8> = Vec::new();
    v.push(34);
    v.push(44);
    v.push(108);
    v.push(101);
    v.push(102);
    v.push(116);
    v.push(58);
    proof {
        assert(v@ =~= lit_left());
    }
    v
}

/// The bytes of `,right:` as a vector.
fn vec_right() -> (r: Vec<u8>)
    ensures
        r@ == lit_right(),
{
    let mut v: Vec<u8> = Vec::new();
    v.push(44);
    v.push(114);
    v.push(105);
    v.push(103);
    v.push(104);
    v.push(116);
    v.push(58);
    proof {
        assert(v@ =~= lit_right());
    }
    v
}

/// The bytes of `{const_value:` as a vector.
fn vec_const() -> (r: Vec<u8>)
    ensures
        r@ == lit_const(),
{
    let mut v: Vec<u8> = Vec::new();
    v.push(123);
    v.push(99);
    v.push(111);
    v.push(110);
    v.push(115);
    v.push(116);
    v.push(95);
    v.push(118);
    v.push(97);
    v.push(108);
    v.push(117);
    v.push(101);
    v.push(58);
    proof {
        assert(v@ =~= lit_const());
    }
    v
}

/// The bytes of `{var:` as a vector.
fn vec_var() -> (r: Vec<u8>)
    ensures
        r@ == lit_var(),
{
    let mut v: Vec<u8> = Vec::new();
    v.push(123);
    v.push(118);
    v.push(97);
    v.push(114);
    v.push(58);
    proof {
        assert(v@ =~= lit_var());
    }
    v
}

/// Appends the canonical text of an expression.
fn write_expr(e: &Expression, out: &mut Vec<u8>)
    ensures
        final(out)@ == old(out)@ + expr_text(*e),
    decreases expr_size(*e),
{
    match e {
        Expression::Operation { op, left, right } => {
            let lo = vec_op_open();
            push_seq(out, &lo);
            match op {
                BinOp::Add => {
                    out.push(97);
                    out.push(100);
                    out.push(100);
                },
                BinOp::Mul => {
                    out.push(109);
                    out.push(117);
                    out.push(108);
                },
            }
            let ll = vec_left();
            push_seq(out, &ll);
            write_expr(&**left, out);
            let lr = vec_right();
            push_seq(out, &lr);
            write_expr(&**right, out);
            out.push(125);
            proof {
                assert(out@ =~= old(out)@ + expr_text(*e));
            }
        },
        Expression::Const { const_value } => {
            let lc = vec_const();
            push_seq(out, &lc);
            push_dec(out, *const_value);
            out.push(125);
            proof {
                assert(out@ =~= old(out)@ + expr_text(*e));
            }
        },
        Expression::Var { index } => {
            let lv = vec_var();
            push_seq(out, &lv);
            push_dec(out, *index);
            out.push(125);
            proof {
                assert(out@ =~= old(out)@ + expr_text(*e));
            }
        },
    }
}

/// The canonical text of an expression.
pub fn expression_to_text(e: &Expression) -> (r: Vec<u8>)
    ensures
        r@ == expr_text(*e),
{
    let mut out: Vec<u8> = Vec::new();
    write_expr(e, &mut out);
    proof {
        assert(out@ =~= expr_text(*e));
    }
    out
}

/// The canonical text of `e` stands in `s` starting at `pos`.
pub open spec fn text_at(s: Seq<u8>, pos: int, e: Expression) -> bool {
    &&& 0 <= pos
    &&& pos + expr_text(e).len() <= s.len()
    &&& s.subrange(pos, pos + expr_text(e).len()) == expr_text(e)
}

/// The canonical decimal text of `v` stands in `s` at `pos`, delimited by
/// the end of the text or a non-digit byte.
pub open spec fn num_text_at(s: Seq<u8>, pos: int, v: u32) -> bool {
    let d = dec_text(v as int);
    &&& 0 <= pos
    &&& pos + d.len() <= s.len()
    &&& s.subrange(pos, pos + d.len()) == d
    &&& (pos + d.len() == s.len() || !(48 <= s[pos + d.len()] <= 57))
}

/// The canonical decimal text of a non-negative integer: at least one
/// byte, all digits, a leading zero only for zero itself, and reading the
/// digits back yields the integer.
proof fn lemma_dec_text_props(v: int)
    requires
        0 <= v,
    ensures
        dec_text(v).len() >= 1,
        all_digits(dec_text(v)),
        v >= 1 ==> dec_text(v)[0] != 48,
        v == 0 ==> dec_text(v) == seq![48u8],
        dec_val(dec_text(v)) == v,
    decreases v,
{
    if v < 10 {
        assert(dec_text(v) =~= seq![(48 + v) as u8]);
        assert(dec_text(v).drop_last() =~= Seq::<u8>::empty());
        assert(dec_val(Seq::<u8>::empty()) == 0);
        assert(dec_val(dec_text(v)) == v);
    } else {
        lemma_dec_text_props(v / 10);
        let pre = dec_text(v / 10);
        let d = dec_text(v);
        assert(d == pre + seq![(48 + v % 10) as u8]);
        assert(d[0] == pre[0]);
        assert(d.drop_last() =~= pre);
        assert(d.last() == (48 + v % 10) as u8);
        assert(dec_val(d) == dec_val(pre) * 10 + (v % 10));
        lemma_fundamental_div_mod(v, 10);
    }
}

/// Digit strings stand for non-negative integers.
proof fn lemma_dec_val_nonneg(s: Seq<u8>)
    requires
        all_digits(s),
    ensures
        dec_val(s) >= 0,
    decreases s.len(),
{
    if s.len() > 0 {
        assert(all_digits(s.drop_last())) by {
            assert(forall|i: int| 0 <= i < s.len() - 1 ==> s.drop_last()[i] == #[trigger] s[i]);
        }
        lemma_dec_val_nonneg(s.drop_last());
        assert(dec_val(s) == dec_val(s.drop_last()) * 10 + (s.last() - 48));
    }
}

/// A digit string's prefix never stands for more than the whole string.
proof fn lemma_dec_val_prefix_le(s: Seq<u8>, k: int)
    requires
        all_digits(s),
        0 <= k <= s.len(),
    ensures
        dec_val(s.subrange(0, k)) <= dec_val(s),
    decreases s.len() - k,
{
    if k < s.len() {
        assert(all_digits(s.drop_last())) by {
            assert(forall|i: int| 0 <= i < s.len() - 1 ==> s.drop_last()[i] == #[trigger] s[i]);
        }
        assert(s.drop_last().subrange(0, k) =~= s.subrange(0, k));
        lemma_dec_val_prefix_le(s.drop_last(), k);
        lemma_dec_val_nonneg(s.drop_last());
        assert(dec_val(s) == dec_val(s.drop_last()) * 10 + (s.last() - 48));
    } else {
        assert(s.subrange(0, k) =~= s);
    }
}

/// Unpacks an operation node's text: the opener, the tag, both keyword
/// separators, both operand texts and the closing brace stand at their
/// fixed offsets.
proof fn lemma_text_at_op(s: Seq<u8>, pos: int, op: BinOp, left: Box<Expression>, right: Box<Expression>)
    requires
        text_at(s, pos, Expression::Operation { op, left, right }),
    ensures
        expr_text(Expression::Operation { op, left, right }).len() == 23 + expr_text(*left).len()
            + expr_text(*right).len(),
        pos + 23 + expr_text(*left).len() + expr_text(*right).len() <= s.len(),
        s.subrange(pos, pos + 5) == lit_op_open(),
        s[pos + 1] == 111,
        s.subrange(pos + 5, pos + 8) == op_tag(op),
        s.subrange(pos + 8, pos + 15) == lit_left(),
        text_at(s, pos + 15, *left),
        s.subrange(
            pos + 15 + expr_text(*left).len(),
            pos + 22 + expr_text(*left).len(),
        ) == lit_right(),
        text_at(s, pos + 22 + expr_text(*left).len(), *right),
        s[pos + 22 + expr_text(*left).len() + expr_text(*right).len()] == 125,
{
    let t = expr_text(Expression::Operation { op, left, right });
    let l1 = expr_text(*left).len() as int;
    let l2 = expr_text(*right).len() as int;
    assert(op_tag(op).len() == 3) by {
        match op {
            BinOp::Add => {},
            BinOp::Mul => {},
        }
    }
    let g2 = lit_op_open() + op_tag(op);
    let g3 = g2 + lit_left();
    let g4 = g3 + expr_text(*left);
    let g5 = g4 + lit_right();
    let g6 = g5 + expr_text(*right);
    assert(t == g6 + seq![125u8]);
    assert(g2.len() == 8 && g3.len() == 15 && g4.len() == 15 + l1 && g5.len() == 22 + l1
        && g6.len() == 22 + l1 + l2);
    assert(t.len() == 23 + l1 + l2);
    let tl = t.len() as int;
    assert forall|j: int| 0 <= j < 5 implies s.subrange(pos, pos + 5)[j] == lit_op_open()[j] by {
        assert(s.subrange(pos, pos + tl)[j] == t[j]);
    }
    assert(s.subrange(pos, pos + 5) =~= lit_op_open());
    assert forall|j: int| 0 <= j < 3 implies s.subrange(pos + 5, pos + 8)[j] == op_tag(op)[j] by {
        assert(s.subrange(pos, pos + tl)[5 + j] == t[5 + j]);
    }
    assert(s.subrange(pos + 5, pos + 8) =~= op_tag(op));
    assert forall|j: int| 0 <= j < 7 implies s.subrange(pos + 8, pos + 15)[j] == lit_left()[j] by {
        assert(s.subrange(pos, pos + tl)[8 + j] == t[8 + j]);
    }
    assert(s.subrange(pos + 8, pos + 15) =~= lit_left());
    assert forall|j: int| 0 <= j < l1 implies s.subrange(pos + 15, pos + 15 + l1)[j] == expr_text(
        *left,
    )[j] by {
        assert(s.subrange(pos, pos + tl)[15 + j] == t[15 + j]);
    }
    assert(s.subrange(pos + 15, pos + 15 + l1) =~= expr_text(*left));
    assert forall|j: int| 0 <= j < 7 implies s.subrange(pos + 15 + l1, pos + 22 + l1)[j]
        == lit_right()[j] by {
        assert(s.subrange(pos, pos + tl)[15 + l1 + j] == t[15 + l1 + j]);
    }
    assert(s.subrange(pos + 15 + l1, pos + 22 + l1) =~= lit_right());
    assert forall|j: int| 0 <= j < l2 implies s.subrange(pos + 22 + l1, pos + 22 + l1 + l2)[j]
        == expr_text(*right)[j] by {
        assert(s.subrange(pos, pos + tl)[22 + l1 + j] == t[22 + l1 + j]);
    }
    assert(s.subrange(pos + 22 + l1, pos + 22 + l1 + l2) =~= expr_text(*right));
    assert(s.subrange(pos, pos + tl)[22 + l1 + l2] == t[22 + l1 + l2]);
    assert(s.subrange(pos, pos + tl)[1] == t[1]);
}

/// Unpacks a constant node's text.
proof fn lemma_text_at_const(s: Seq<u8>, pos: int, c: u32)
    requires
        text_at(s, pos, Expression::Const { const_value: c }),
    ensures
        expr_text(Expression::Const { const_value: c }).len() == 14 + dec_text(c as int).len(),
        pos + 14 + dec_text(c as int).len() <= s.len(),
        s.subrange(pos, pos + 13) == lit_const(),
        s[pos + 1] == 99,
        num_text_at(s, pos + 13, c),
        s[pos + 13 + dec_text(c as int).len()] == 125,
{
    let t = expr_text(Expression::Const { const_value: c });
    lemma_dec_text_props(c as int);
    let dl = dec_text(c as int).len() as int;
    let g2 = lit_const() + dec_text(c as int);
    assert(t == g2 + seq![125u8]);
    assert(g2.len() == 13 + dl);
    assert(t.len() == 14 + dl);
    let tl = t.len() as int;
    assert forall|j: int| 0 <= j < 13 implies s.subrange(pos, pos + 13)[j] == lit_const()[j] by {
        assert(s.subrange(pos, pos + tl)[j] == t[j]);
    }
    assert(s.subrange(pos, pos + 13) =~= lit_const());
    assert forall|j: int| 0 <= j < dl implies s.subrange(pos + 13, pos + 13 + dl)[j] == dec_text(
        c as int,
    )[j] by {
        assert(s.subrange(pos, pos + tl)[13 + j] == t[13 + j]);
    }
    assert(s.subrange(pos + 13, pos + 13 + dl) =~= dec_text(c as int));
    assert(s.subrange(pos, pos + tl)[13 + dl] == t[13 + dl]);
    assert(s.subrange(pos, pos + tl)[1] == t[1]);
}

/// Unpacks a variable node's text.
proof fn lemma_text_at_var(s: Seq<u8>, pos: int, i: u32)
    requires
        text_at(s, pos, Expression::Var { index: i }),
    ensures
        expr_text(Expression::Var { index: i }).len() == 6 + dec_text(i as int).len(),
        pos + 6 + dec_text(i as int).len() <= s.len(),
        s.subrange(pos, pos + 5) == lit_var(),
        s[pos + 1] == 118,
        num_text_at(s, pos + 5, i),
        s[pos + 5 + dec_text(i as int).len()] == 125,
{
    let t = expr_text(Expression::Var { index: i });
    lemma_dec_text_props(i as int);
    let dl = dec_text(i as int).len() as int;
    let g2 = lit_var() + dec_text(i as int);
    assert(t == g2 + seq![125u8]);
    assert(g2.len() == 5 + dl);
    assert(t.len() == 6 + dl);
    let tl = t.len() as int;
    assert forall|j: int| 0 <= j < 5 implies s.subrange(pos, pos + 5)[j] == lit_var()[j] by {
        assert(s.subrange(pos, pos + tl)[j] == t[j]);
    }
    assert(s.subrange(pos, pos + 5) =~= lit_var());
    assert forall|j: int| 0 <= j < dl implies s.subrange(pos + 5, pos + 5 + dl)[j] == dec_text(
        i as int,
    )[j] by {
        assert(s.subrange(pos, pos + tl)[5 + j] == t[5 + j]);
    }
    assert(s.subrange(pos + 5, pos + 5 + dl) =~= dec_text(i as int));
    assert(s.subrange(pos, pos + tl)[5 + dl] == t[5 + dl]);
    assert(s.subrange(pos, pos + tl)[1] == t[1]);
}

/// Whether the bytes match a literal starting at `pos`; on a match, the/// Whether the bytes match a literal starting at `pos`; on a match, the
/// position just past it.
fn eat(s: &Vec<u8>, pos: usize, lit: &Vec<u8>) -> (r: Option<usize>)
    requires
        pos <= s@.len(),
    ensures
        r is Some ==> r->0 == pos + lit@.len() && r->0 <= s@.len() && s@.subrange(
            pos as int,
            r->0 as int,
        ) == lit@,
        r is None ==> pos + lit@.len() > s@.len() || s@.subrange(
            pos as int,
            pos + lit@.len(),
        ) != lit@,
{
    let slen = s.len();
    let llen = lit.len();
    if slen - pos < llen {
        return None;
    }
    let mut i: usize = 0;
    while i < llen
        invariant
            0 <= i <= llen,
            llen == lit@.len(),
            slen == s@.len(),
            pos + llen <= slen,
            forall|k: int| 0 <= k < i ==> s@[pos + k] == #[trigger] lit@[k],
        decreases llen - i,
    {
        if s[pos + i] != lit[i] {
            proof {
                assert(s@.subrange(pos as int, pos + lit@.len())[i as int] == s@[pos + i]);
            }
            return None;
        }
        i = i + 1;
    }
    proof {
        assert(s@.subrange(pos as int, (pos + llen) as int) =~= lit@);
    }
    Some(pos + llen)
}

/// Digits written with no leading zero read back as themselves: decimal
/// text is canonical.
proof fn lemma_dec_text_inverse(s: Seq<u8>)
    requires
        s.len() >= 1,
        forall|i: int| 0 <= i < s.len() ==> 48 <= #[trigger] s[i] <= 57,
        s.len() > 1 ==> s[0] != 48,
    ensures
        dec_text(crate::field::dec_val(s)) == s,
    decreases s.len(),
{
    let v = crate::field::dec_val(s);
    assert(v == crate::field::dec_val(s.drop_last()) * 10 + (s.last() - 48));
    if s.len() == 1 {
        assert(s.drop_last() =~= Seq::<u8>::empty());
        assert(crate::field::dec_val(Seq::<u8>::empty()) == 0);
        assert(v == s[0] - 48);
        assert(dec_text(v) =~= s);
    } else {
        let pre = s.drop_last();
        lemma_dec_text_inverse(pre);
        lemma_dec_val_pos(pre);
        let vp = crate::field::dec_val(pre);
        assert(v == vp * 10 + (s.last() - 48));
        lemma_fundamental_div_mod_converse_div(v, 10, vp, s.last() - 48);
        lemma_fundamental_div_mod_converse_mod(v, 10, vp, s.last() - 48);
        assert(v >= 10);
        assert(dec_text(v) == dec_text(vp) + seq![(48 + (s.last() - 48)) as u8]);
        assert(dec_text(v) =~= s);
    }
}

/// A digit string with no leading zero and more than one digit stands for
/// at least one; any digit string is non-negative.
proof fn lemma_dec_val_pos(s: Seq<u8>)
    requires
        s.len() >= 1,
        forall|i: int| 0 <= i < s.len() ==> 48 <= #[trigger] s[i] <= 57,
        s.len() > 1 ==> s[0] != 48,
    ensures
        crate::field::dec_val(s) >= 0,
        s.len() > 1 || s[0] != 48 ==> crate::field::dec_val(s) >= 1,
    decreases s.len(),
{
    assert(crate::field::dec_val(s) == crate::field::dec_val(s.drop_last()) * 10 + (s.last()
        - 48));
    if s.len() > 1 {
        lemma_dec_val_pos(s.drop_last());
    } else {
        assert(s.drop_last() =~= Seq::<u8>::empty());
        assert(crate::field::dec_val(Seq::<u8>::empty()) == 0);
    }
}

/// Reads a canonical decimal number (no leading zeros, fitting a `u32`).
/// On success the consumed bytes are exactly the number's decimal text;
/// whenever such a text stands at `pos`, delimited by a non-digit or the
/// end, the read succeeds with exactly that number.
fn parse_num(s: &Vec<u8>, pos: usize) -> (r: Option<(u32, usize)>)
    requires
        pos <= s@.len(),
    ensures
        r is Some ==> ({
            let (v, p2) = r->0;
            &&& pos < p2 <= s@.len()
            &&& s@.subrange(pos as int, p2 as int) == dec_text(v as int)
        }),
        forall|v2: u32|
            num_text_at(s@, pos as int, v2) ==> (r is Some && (r->0).0 == v2 && (r->0).1 == pos
                + dec_text(v2 as int).len()),
{
    let slen = s.len();
    if pos >= slen {
        proof {
            assert forall|v2: u32| !num_text_at(s@, pos as int, v2) by {
                if num_text_at(s@, pos as int, v2) {
                    lemma_dec_text_props(v2 as int);
                }
            }
        }
        return None;
    }
    let first = s[pos];
    if first < 48 || first > 57 {
        proof {
            assert forall|v2: u32| !num_text_at(s@, pos as int, v2) by {
                if num_text_at(s@, pos as int, v2) {
                    lemma_dec_text_props(v2 as int);
                    let d2 = dec_text(v2 as int);
                    assert(s@.subrange(pos as int, pos + d2.len())[0] == s@[pos as int]);
                    assert(48 <= d2[0] <= 57);
                }
            }
        }
        return None;
    }
    if first == 48 {
        // a leading zero stands alone
        proof {
            assert(s@.subrange(pos as int, pos + 1 as int) =~= seq![48u8]);
            assert(dec_text(0) =~= seq![48u8]);
            assert forall|v2: u32|
                num_text_at(s@, pos as int, v2) implies (v2 == 0 && dec_text(v2 as int).len()
                == 1) by {
                lemma_dec_text_props(v2 as int);
                let d2 = dec_text(v2 as int);
                assert(s@.subrange(pos as int, pos + d2.len())[0] == s@[pos as int]);
            }
        }
        return Some((0, pos + 1));
    }
    let mut v: u32 = 0;
    let mut p: usize = pos;
    while p < slen && s[p] >= 48 && s[p] <= 57
        invariant
            pos <= p <= slen,
            slen == s@.len(),
            forall|k: int| pos <= k < p ==> 48 <= #[trigger] s@[k] <= 57,
            s@[pos as int] != 48,
            v as int == crate::field::dec_val(s@.subrange(pos as int, p as int)),
            p == pos ==> v == 0,
        decreases slen - p,
    {
        let d = s[p] - 48;
        if v > 429496729 || (v == 429496729 && d > 5) {
            proof {
                assert forall|v2: u32| !num_text_at(s@, pos as int, v2) by {
                    if num_text_at(s@, pos as int, v2) {
                        lemma_dec_text_props(v2 as int);
                        let d2 = dec_text(v2 as int);
                        let dl = d2.len() as int;
                        if p >= pos + dl {
                            assert(48 <= s@[pos + dl] <= 57);
                        } else {
                            let pre = s@.subrange(pos as int, p + 1 as int);
                            assert forall|j: int|
                                0 <= j < p + 1 - pos implies pre[j] == #[trigger] d2[j] by {
                                assert(s@.subrange(pos as int, pos + dl)[j] == s@[pos + j]);
                            }
                            assert(pre =~= d2.subrange(0, p + 1 - pos));
                            lemma_dec_val_prefix_le(d2, p + 1 - pos);
                            assert(pre.drop_last() =~= s@.subrange(pos as int, p as int));
                            assert(crate::field::dec_val(pre) == v * 10 + (s@[p as int] - 48));
                        }
                    }
                }
            }
            return None;
        }
        v = v * 10 + (d as u32);
        proof {
            let cur = s@.subrange(pos as int, p + 1 as int);
            assert(cur.drop_last() =~= s@.subrange(pos as int, p as int));
            assert(cur.last() == s@[p as int]);
        }
        p = p + 1;
    }
    if p == pos {
        return None;
    }
    proof {
        let digits = s@.subrange(pos as int, p as int);
        lemma_dec_text_inverse(digits);
        assert forall|v2: u32|
            num_text_at(s@, pos as int, v2) implies (v2 == v && p == pos + dec_text(
            v2 as int,
        ).len()) by {
            lemma_dec_text_props(v2 as int);
            let d2 = dec_text(v2 as int);
            let dl = d2.len() as int;
            if p < pos + dl {
                assert(s@.subrange(pos as int, pos + dl)[p - pos] == s@[p as int]);
                assert(48 <= d2[p - pos] <= 57);
            } else if p > pos + dl {
                assert(48 <= s@[pos + dl] <= 57);
            } else {
                assert(s@.subrange(pos as int, p as int) == d2);
                assert(crate::field::dec_val(d2) == v2);
            }
        }
    }
    Some((v, p))
}

/// At a position whose second byte is `o`, only an operation node's text
/// can stand.
proof fn lemma_only_op_here(s: Seq<u8>, pos: int, e2: Expression)
    requires
        text_at(s, pos, e2),
        0 <= pos + 1 < s.len(),
        s[pos + 1] == 111,
    ensures
        e2 is Operation,
{
    match e2 {
        Expression::Operation { op, left, right } => {},
        Expression::Const { const_value } => {
            lemma_text_at_const(s, pos, const_value);
        },
        Expression::Var { index } => {
            lemma_text_at_var(s, pos, index);
        },
    }
}

/// At a position whose second byte is `c`, only a constant node's text
/// can stand.
proof fn lemma_only_const_here(s: Seq<u8>, pos: int, e2: Expression)
    requires
        text_at(s, pos, e2),
        0 <= pos + 1 < s.len(),
        s[pos + 1] == 99,
    ensures
        e2 is Const,
{
    match e2 {
        Expression::Operation { op, left, right } => {
            lemma_text_at_op(s, pos, op, left, right);
        },
        Expression::Const { const_value } => {},
        Expression::Var { index } => {
            lemma_text_at_var(s, pos, index);
        },
    }
}

/// At a position whose second byte is `v`, only a variable node's text
/// can stand.
proof fn lemma_only_var_here(s: Seq<u8>, pos: int, e2: Expression)
    requires
        text_at(s, pos, e2),
        0 <= pos + 1 < s.len(),
        s[pos + 1] == 118,
    ensures
        e2 is Var,
{
    match e2 {
        Expression::Operation { op, left, right } => {
            lemma_text_at_op(s, pos, op, left, right);
        },
        Expression::Const { const_value } => {
            lemma_text_at_const(s, pos, const_value);
        },
        Expression::Var { index } => {},
    }
}

/// Parses one node starting at `pos`.  On success the consumed bytes are
/// exactly the returned expression's canonical text, and whenever some
/// expression's canonical text stands at `pos`, parsing succeeds and
/// consumes exactly that text.  An operation node whose tag is neither
/// `add` nor `mul` fails with `UnsupportedOperation`; any other malformed
/// shape fails with `MalformedExpression`.
#[verifier::rlimit(100)]
fn parse_node(s: &Vec<u8>, pos: usize) -> (r: Result<(Expression, usize), CompileError>)
    requires
        pos <= s@.len(),
    ensures
        r is Ok ==> ({
            let (e, p2) = r->Ok_0;
            &&& pos < p2 <= s@.len()
            &&& s@.subrange(pos as int, p2 as int) == expr_text(e)
        }),
        forall|e2: Expression|
            text_at(s@, pos as int, e2) ==> (r is Ok && (r->Ok_0).1 == pos + expr_text(e2).len()),
    decreases s@.len() - pos,
{
    let slen = s.len();
    let ghost posi = pos as int;
    let lo = vec_op_open();
    if let Some(p1) = eat(s, pos, &lo) {
        proof {
            assert(s@.subrange(posi, posi + 5)[1] == s@[posi + 1]);
            assert(s@[posi + 1] == 111);
        }
        if slen - p1 < 3 {
            proof {
                assert forall|e2: Expression| !text_at(s@, posi, e2) by {
                    if text_at(s@, posi, e2) {
                        lemma_only_op_here(s@, posi, e2);
                        match e2 {
                            Expression::Operation { op: op2, left, right } => {
                                lemma_text_at_op(s@, posi, op2, left, right);
                            },
                            _ => {},
                        }
                    }
                }
            }
            return Err(CompileError::MalformedExpression);
        }
        let t0 = s[p1];
        let t1 = s[p1 + 1];
        let t2 = s[p1 + 2];
        let op: BinOp;
        if t0 == 97 && t1 == 100 && t2 == 100 {
            op = BinOp::Add;
        } else if t0 == 109 && t1 == 117 && t2 == 108 {
            op = BinOp::Mul;
        } else {
            proof {
                assert forall|e2: Expression| !text_at(s@, posi, e2) by {
                    if text_at(s@, posi, e2) {
                        lemma_only_op_here(s@, posi, e2);
                        match e2 {
                            Expression::Operation { op: op2, left, right } => {
                                lemma_text_at_op(s@, posi, op2, left, right);
                                assert(s@.subrange(posi + 5, posi + 8)[0] == s@[posi + 5]);
                                assert(s@.subrange(posi + 5, posi + 8)[1] == s@[posi + 6]);
                                assert(s@.subrange(posi + 5, posi + 8)[2] == s@[posi + 7]);
                                match op2 {
                                    BinOp::Add => {},
                                    BinOp::Mul => {},
                                }
                            },
                            _ => {},
                        }
                    }
                }
            }
            return Err(CompileError::UnsupportedOperation);
        }
        let ll = vec_left();
        let p2 = match eat(s, p1 + 3, &ll) {
            Option::Some(x) => x,
            Option::None => {
                proof {
                    assert forall|e2: Expression| !text_at(s@, posi, e2) by {
                        if text_at(s@, posi, e2) {
                            lemma_only_op_here(s@, posi, e2);
                            match e2 {
                                Expression::Operation { op: op2, left, right } => {
                                    lemma_text_at_op(s@, posi, op2, left, right);
                                },
                                _ => {},
                            }
                        }
                    }
                }
                return Err(CompileError::MalformedExpression);
            },
        };
        let (left, p3) = match parse_node(s, p2) {
            Result::Ok(x) => x,
            Result::Err(err) => {
                proof {
                    assert forall|e2: Expression| !text_at(s@, posi, e2) by {
                        if text_at(s@, posi, e2) {
                            lemma_only_op_here(s@, posi, e2);
                            match e2 {
                                Expression::Operation { op: op2, left, right } => {
                                    lemma_text_at_op(s@, posi, op2, left, right);
                                    assert(text_at(s@, p2 as int, *left));
                                },
                                _ => {},
                            }
                        }
                    }
                }
                return Err(err);
            },
        };
        let lr = vec_right();
        let p4 = match eat(s, p3, &lr) {
            Option::Some(x) => x,
            Option::None => {
                proof {
                    assert forall|e2: Expression| !text_at(s@, posi, e2) by {
                        if text_at(s@, posi, e2) {
                            lemma_only_op_here(s@, posi, e2);
                            match e2 {
                                Expression::Operation { op: op2, left, right } => {
                                    lemma_text_at_op(s@, posi, op2, left, right);
                                    assert(text_at(s@, p2 as int, *left));
                                    assert(p3 == posi + 15 + expr_text(*left).len());
                                },
                                _ => {},
                            }
                        }
                    }
                }
                return Err(CompileError::MalformedExpression);
            },
        };
        let (right, p5) = match parse_node(s, p4) {
            Result::Ok(x) => x,
            Result::Err(err) => {
                proof {
                    assert forall|e2: Expression| !text_at(s@, posi, e2) by {
                        if text_at(s@, posi, e2) {
                            lemma_only_op_here(s@, posi, e2);
                            match e2 {
                                Expression::Operation { op: op2, left, right } => {
                                    lemma_text_at_op(s@, posi, op2, left, right);
                                    assert(text_at(s@, p2 as int, *left));
                                    assert(p3 == posi + 15 + expr_text(*left).len());
                                    assert(text_at(s@, p4 as int, *right));
                                },
                                _ => {},
                            }
                        }
                    }
                }
                return Err(err);
            },
        };
        if p5 >= slen || s[p5] != 125 {
            proof {
                assert forall|e2: Expression| !text_at(s@, posi, e2) by {
                    if text_at(s@, posi, e2) {
                        lemma_only_op_here(s@, posi, e2);
                        match e2 {
                            Expression::Operation { op: op2, left, right } => {
                                lemma_text_at_op(s@, posi, op2, left, right);
                                assert(text_at(s@, p2 as int, *left));
                                assert(p3 == posi + 15 + expr_text(*left).len());
                                assert(text_at(s@, p4 as int, *right));
                                assert(p5 == posi + 22 + expr_text(*left).len() + expr_text(
                                    *right,
                                ).len());
                            },
                            _ => {},
                        }
                    }
                }
            }
            return Err(CompileError::MalformedExpression);
        }
        let e = Expression::Operation { op, left: Box::new(left), right: Box::new(right) };
        proof {
            assert(s@.subrange(p1 as int, p1 + 3 as int) =~= op_tag(op));
            assert(s@.subrange(p5 as int, p5 + 1 as int) =~= seq![125u8]);
            assert(s@.subrange(posi, p5 + 1 as int) =~= lit_op_open() + op_tag(op) + lit_left()
                + expr_text(left) + lit_right() + expr_text(right) + seq![125u8]);
            assert forall|e2: Expression|
                text_at(s@, posi, e2) implies p5 + 1 == posi + expr_text(e2).len() by {
                lemma_only_op_here(s@, posi, e2);
                match e2 {
                    Expression::Operation { op: op2, left: l2, right: r2 } => {
                        lemma_text_at_op(s@, posi, op2, l2, r2);
                        assert(text_at(s@, p2 as int, *l2));
                        assert(p3 == posi + 15 + expr_text(*l2).len());
                        assert(text_at(s@, p4 as int, *r2));
                        assert(p5 == posi + 22 + expr_text(*l2).len() + expr_text(*r2).len());
                    },
                    _ => {},
                }
            }
        }
        return Ok((e, p5 + 1));
    }
    let lc = vec_const();
    if let Some(p1) = eat(s, pos, &lc) {
        proof {
            assert(s@.subrange(posi, posi + 13)[1] == s@[posi + 1]);
            assert(s@[posi + 1] == 99);
        }
        let (v, p2) = match parse_num(s, p1) {
            Option::Some(x) => x,
            Option::None => {
                proof {
                    assert forall|e2: Expression| !text_at(s@, posi, e2) by {
                        if text_at(s@, posi, e2) {
                            lemma_only_const_here(s@, posi, e2);
                            match e2 {
                                Expression::Const { const_value } => {
                                    lemma_text_at_const(s@, posi, const_value);
                                    assert(num_text_at(s@, p1 as int, const_value));
                                },
                                _ => {},
                            }
                        }
                    }
                }
                return Err(CompileError::MalformedExpression);
            },
        };
        if p2 >= slen || s[p2] != 125 {
            proof {
                assert forall|e2: Expression| !text_at(s@, posi, e2) by {
                    if text_at(s@, posi, e2) {
                        lemma_only_const_here(s@, posi, e2);
                        match e2 {
                            Expression::Const { const_value } => {
                                lemma_text_at_const(s@, posi, const_value);
                                assert(num_text_at(s@, p1 as int, const_value));
                                assert(p2 == posi + 13 + dec_text(const_value as int).len());
                            },
                            _ => {},
                        }
                    }
                }
            }
            return Err(CompileError::MalformedExpression);
        }
        let e = Expression::Const { const_value: v };
        proof {
            assert(s@.subrange(p2 as int, p2 + 1 as int) =~= seq![125u8]);
            assert(s@.subrange(posi, p2 + 1 as int) =~= lit_const() + dec_text(v as int) + seq![
                125u8,
            ]);
            assert forall|e2: Expression|
                text_at(s@, posi, e2) implies p2 + 1 == posi + expr_text(e2).len() by {
                lemma_only_const_here(s@, posi, e2);
                match e2 {
                    Expression::Const { const_value } => {
                        lemma_text_at_const(s@, posi, const_value);
                        assert(num_text_at(s@, p1 as int, const_value));
                        assert(p2 == posi + 13 + dec_text(const_value as int).len());
                    },
                    _ => {},
                }
            }
        }
        return Ok((e, p2 + 1));
    }
    let lv = vec_var();
    if let Some(p1) = eat(s, pos, &lv) {
        proof {
            assert(s@.subrange(posi, posi + 5)[1] == s@[posi + 1]);
            assert(s@[posi + 1] == 118);
        }
        let (v, p2) = match parse_num(s, p1) {
            Option::Some(x) => x,
            Option::None => {
                proof {
                    assert forall|e2: Expression| !text_at(s@, posi, e2) by {
                        if text_at(s@, posi, e2) {
                            lemma_only_var_here(s@, posi, e2);
                            match e2 {
                                Expression::Var { index } => {
                                    lemma_text_at_var(s@, posi, index);
                                    assert(num_text_at(s@, p1 as int, index));
                                },
                                _ => {},
                            }
                        }
                    }
                }
                return Err(CompileError::MalformedExpression);
            },
        };
        if p2 >= slen || s[p2] != 125 {
            proof {
                assert forall|e2: Expression| !text_at(s@, posi, e2) by {
                    if text_at(s@, posi, e2) {
                        lemma_only_var_here(s@, posi, e2);
                        match e2 {
                            Expression::Var { index } => {
                                lemma_text_at_var(s@, posi, index);
                                assert(num_text_at(s@, p1 as int, index));
                                assert(p2 == posi + 5 + dec_text(index as int).len());
                            },
                            _ => {},
                        }
                    }
                }
            }
            return Err(CompileError::MalformedExpression);
        }
        let e = Expression::Var { index: v };
        proof {
            assert(s@.subrange(p2 as int, p2 + 1 as int) =~= seq![125u8]);
            assert(s@.subrange(posi, p2 + 1 as int) =~= lit_var() + dec_text(v as int) + seq![
                125u8,
            ]);
            assert forall|e2: Expression|
                text_at(s@, posi, e2) implies p2 + 1 == posi + expr_text(e2).len() by {
                lemma_only_var_here(s@, posi, e2);
                match e2 {
                    Expression::Var { index } => {
                        lemma_text_at_var(s@, posi, index);
                        assert(num_text_at(s@, p1 as int, index));
                        assert(p2 == posi + 5 + dec_text(index as int).len());
                    },
                    _ => {},
                }
            }
        }
        return Ok((e, p2 + 1));
    }
    proof {
        assert forall|e2: Expression| !text_at(s@, posi, e2) by {
            if text_at(s@, posi, e2) {
                match e2 {
                    Expression::Operation { op: op2, left, right } => {
                        lemma_text_at_op(s@, posi, op2, left, right);
                    },
                    Expression::Const { const_value } => {
                        lemma_text_at_const(s@, posi, const_value);
                    },
                    Expression::Var { index } => {
                        lemma_text_at_var(s@, posi, index);
                    },
                }
            }
        }
    }
    Err(CompileError::MalformedExpression)
}

/// Parses a whole expression description.  Exactly the canonical texts
/// are accepted: the parse succeeds precisely when the input is the
/// canonical text of some expression, and on success the returned
/// expression's own text is the very input, so parsing is the writer's
/// inverse.  An unrecognized operation tag fails with
/// `UnsupportedOperation`; any other shape, trailing bytes included,
/// fails with `MalformedExpression`.
pub fn parse_expression(text: &Vec<u8>) -> (r: Result<Expression, CompileError>)
    ensures
        r is Ok <==> exists|e: Expression| text@ == expr_text(e),
        r is Ok ==> expr_text(r->Ok_0) == text@,
{
    match parse_node(text, 0) {
        Result::Ok((e, p)) => {
            if p == text.len() {
                proof {
                    assert(text@.subrange(0, text@.len() as int) =~= text@);
                    assert(text@ == expr_text(e));
                }
                Ok(e)
            } else {
                proof {
                    if exists|e2: Expression| text@ == expr_text(e2) {
                        let e2 = choose|e2: Expression| text@ == expr_text(e2);
                        assert(text@.subrange(0, text@.len() as int) =~= text@);
                        assert(text_at(text@, 0, e2));
                    }
                }
                Err(CompileError::MalformedExpression)
            }
        },
        Result::Err(err) => {
            proof {
                if exists|e2: Expression| text@ == expr_text(e2) {
                    let e2 = choose|e2: Expression| text@ == expr_text(e2);
                    assert(text@.subrange(0, text@.len() as int) =~= text@);
                    assert(text_at(text@, 0, e2));
                }
            }
            Err(err)
        },
    }
}

} // verus!
