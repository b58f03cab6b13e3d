//! Reading C expressions: what the text of an expression says.
use vstd::prelude::*;

use super::model::{expr_text, Names};
use crate::ir::{BinOp, Expr, UnOp, VReg, Width};
use crate::text::{decimal, digits_in, hexadecimal};

verus! {

/// A C expression: a name or number, a sign or complement of an expression, an expression cast to a
/// type, what a pointer to a type points to, or two expressions with an operator between them.
pub ghost enum C {
    Word(Seq<char>),
    Minus(Box<C>),
    Tilde(Box<C>),
    Cast(Seq<char>, Box<C>),
    Deref(Seq<char>, Box<C>),
    Pair(Seq<char>, Box<C>, Box<C>),
}

/// A character of a name or number: no blank and no punctuation.
pub open spec fn is_word(c: char) -> bool {
    c != ' ' && c != '(' && c != ')' && c != '*' && c != '-' && c != '~' && c != ',' && c != ';'
}

/// The number of characters that a name or number at the beginning has.
pub open spec fn word_len(t: Seq<char>) -> nat
    decreases t.len(),
{
    if t.len() > 0 && is_word(t[0]) {
        1 + word_len(t.skip(1))
    } else {
        0
    }
}

/// The number of characters up to a blank.
pub open spec fn blank_at(t: Seq<char>) -> nat
    decreases t.len(),
{
    if t.len() > 0 && t[0] != ' ' {
        1 + blank_at(t.skip(1))
    } else {
        0
    }
}

/// The text begins with the character.
pub open spec fn opens_with(t: Seq<char>, c: char) -> bool {
    t.len() > 0 && t[0] == c
}

/// The expression at the beginning of a text, and what comes behind it.
#[verifier::opaque]
pub open spec fn read(t: Seq<char>) -> Option<(C, Seq<char>)>
    decreases t.len(),
{
    if t.len() == 0 {
        None
    } else if t[0] == '-' {
        match read(t.skip(1)) {
            Some((c, r)) => Some((C::Minus(Box::new(c)), r)),
            None => None,
        }
    } else if t[0] == '~' {
        match read(t.skip(1)) {
            Some((c, r)) => Some((C::Tilde(Box::new(c)), r)),
            None => None,
        }
    } else if t[0] == '(' {
        let u = t.skip(1);
        let n = word_len(u) as int;
        if 0 < n < u.len() && u[n] == ')' {
            match read(u.skip(n + 1)) {
                Some((c, r)) => Some((C::Cast(u.take(n), Box::new(c)), r)),
                None => None,
            }
        } else if u.len() > 1 && u[0] == '*' && u[1] == '(' {
            let v = u.skip(2);
            let k = word_len(v) as int;
            if k + 3 <= v.len() && v[k] == ' ' && v[k + 1] == '*' && v[k + 2] == ')' {
                match read(v.skip(k + 3)) {
                    Some((c, r)) => if opens_with(r, ')') {
                        Some((C::Deref(v.take(k), Box::new(c)), r.skip(1)))
                    } else {
                        None
                    },
                    None => None,
                }
            } else {
                None
            }
        } else {
            match read(u) {
                Some((a, r)) => if opens_with(r, ')') {
                    Some((a, r.skip(1)))
                } else if opens_with(r, ' ') && r.len() < t.len() {
                    let o = r.skip(1);
                    let k = blank_at(o) as int;
                    if k < o.len() {
                        match read(o.skip(k + 1)) {
                            Some((b, q)) => if opens_with(q, ')') {
                                Some((C::Pair(o.take(k), Box::new(a), Box::new(b)), q.skip(1)))
                            } else {
                                None
                            },
                            None => None,
                        }
                    } else {
                        None
                    }
                } else {
                    None
                },
                None => None,
            }
        }
    } else {
        let n = word_len(t) as int;
        if n > 0 {
            Some((C::Word(t.take(n)), t.skip(n)))
        } else {
            None
        }
    }
}

/// The expressions up to the closing parenthesis, with commas between them, and what comes behind
/// it.
pub open spec fn read_list(t: Seq<char>) -> Option<(Seq<C>, Seq<char>)>
    decreases t.len(),
{
    match read(t) {
        Some((c, r)) => if opens_with(r, ')') {
            Some((seq![c], r.skip(1)))
        } else if r.len() > 1 && r.len() <= t.len() && r[0] == ',' && r[1] == ' ' {
            match read_list(r.skip(2)) {
                Some((cs, q)) => Some((seq![c] + cs, q)),
                None => None,
            }
        } else {
            None
        },
        None => None,
    }
}

/// The arguments up to the closing parenthesis, and what comes behind it.
pub open spec fn read_args(t: Seq<char>) -> Option<(Seq<C>, Seq<char>)> {
    if opens_with(t, ')') {
        Some((Seq::empty(), t.skip(1)))
    } else {
        read_list(t)
    }
}

/// No blank and no punctuation, and not empty.
pub open spec fn is_plain(t: Seq<char>) -> bool {
    t.len() > 0 && forall|i: int| 0 <= i < t.len() ==> is_word(#[trigger] t[i])
}

/// All names are plain.
pub open spec fn plain_names(names: Names) -> bool {
    &&& forall|r: u32| #[trigger]
        names.params.contains_key(r) ==> is_plain(names.params[r])
    &&& forall|a: u64| #[trigger] names.funcs.contains_key(a) ==> is_plain(names.funcs[a])
}

/// Nothing of a name or number follows.
pub open spec fn delimited(t: Seq<char>) -> bool {
    t.len() == 0 || !is_word(t[0])
}

/// The unsigned type of a width.
pub open spec fn unsigned_type(w: Width) -> Seq<char> {
    match w {
        Width::W8 => seq!['u', 'i', 'n', 't', '8', '_', 't'],
        Width::W16 => seq!['u', 'i', 'n', 't', '1', '6', '_', 't'],
        Width::W32 => seq!['u', 'i', 'n', 't', '3', '2', '_', 't'],
        Width::W64 => seq!['u', 'i', 'n', 't', '6', '4', '_', 't'],
    }
}

/// The signed type of a width.
pub open spec fn signed_type(w: Width) -> Seq<char> {
    match w {
        Width::W8 => seq!['i', 'n', 't', '8', '_', 't'],
        Width::W16 => seq!['i', 'n', 't', '1', '6', '_', 't'],
        Width::W32 => seq!['i', 'n', 't', '3', '2', '_', 't'],
        Width::W64 => seq!['i', 'n', 't', '6', '4', '_', 't'],
    }
}

/// The C operator of an operation.
pub open spec fn operator(op: BinOp) -> Seq<char> {
    match op {
        BinOp::Add => seq!['+'],
        BinOp::Sub => seq!['-'],
        BinOp::Mul => seq!['*'],
        BinOp::UDiv | BinOp::SDiv => seq!['/'],
        BinOp::UMod | BinOp::SMod => seq!['%'],
        BinOp::And => seq!['&'],
        BinOp::Or => seq!['|'],
        BinOp::Xor => seq!['^'],
        BinOp::Shl => seq!['<', '<'],
        BinOp::LShr | BinOp::AShr => seq!['>', '>'],
        BinOp::Eq => seq!['=', '='],
        BinOp::Ne => seq!['!', '='],
        BinOp::Ult | BinOp::Slt => seq!['<'],
        BinOp::Ule | BinOp::Sle => seq!['<', '='],
    }
}

/// The operation takes its operands with their signs.
pub open spec fn minds_signs(op: BinOp) -> bool {
    op == BinOp::SDiv || op == BinOp::SMod || op == BinOp::Slt || op == BinOp::Sle
}

/// The end of a number of the given width.
pub open spec fn suffix(w: Width) -> Seq<char> {
    match w {
        Width::W64 => seq!['U', 'L', 'L'],
        Width::W32 => seq!['U'],
        _ => Seq::empty(),
    }
}

/// The name of a register: that of a parameter, or `v` and the number.
pub open spec fn reg_word(names: Names, r: VReg) -> Seq<char> {
    if names.params.contains_key(r.0) {
        names.params[r.0]
    } else {
        seq!['v'] + decimal(r.0 as nat)
    }
}

/// The name of an address: that of the function there, or the number.
pub open spec fn addr_word(names: Names, a: u64) -> Seq<char> {
    if names.funcs.contains_key(a) {
        names.funcs[a]
    } else {
        seq!['0', 'x'] + hexadecimal(a as nat) + seq!['U', 'L', 'L']
    }
}

/// The name of a place on the stack, after its distance.
pub open spec fn slot_word(off: i32) -> Seq<char> {
    if off > 0 {
        seq!['l', 'o', 'c', 'a', 'l', '_'] + decimal(off as nat)
    } else {
        seq!['a', 'r', 'g', '_'] + decimal((-off) as nat)
    }
}

/// What the C code of an expression says.
pub open spec fn tree(names: Names, e: Expr) -> C
    decreases e,
{
    match e {
        Expr::Const(v, w) => if v < 0 {
            C::Minus(Box::new(C::Word(decimal((-v) as nat) + suffix(w))))
        } else {
            C::Word(decimal(v as nat) + suffix(w))
        },
        Expr::Reg(r, _) => C::Word(reg_word(names, r)),
        Expr::BinOp(op, l, r) => {
            let a = tree(names, *l);
            let b = tree(names, *r);
            let t = signed_type(l.value_width());
            if minds_signs(op) {
                C::Pair(
                    operator(op),
                    Box::new(C::Cast(t, Box::new(a))),
                    Box::new(C::Cast(t, Box::new(b))),
                )
            } else if op == BinOp::AShr {
                C::Pair(operator(op), Box::new(C::Cast(t, Box::new(a))), Box::new(b))
            } else {
                C::Pair(operator(op), Box::new(a), Box::new(b))
            }
        },
        Expr::UnOp(op, inner) => {
            let a = tree(names, *inner);
            match op {
                UnOp::Neg => C::Minus(Box::new(a)),
                UnOp::Not => C::Tilde(Box::new(a)),
                UnOp::ZExt(w) => C::Cast(unsigned_type(w), Box::new(a)),
                UnOp::SExt(w) => C::Cast(signed_type(w), Box::new(a)),
                UnOp::Trunc(w) => C::Cast(unsigned_type(w), Box::new(a)),
            }
        },
        Expr::Load(addr, w) => C::Deref(unsigned_type(w), Box::new(tree(names, *addr))),
        Expr::StackSlot(off, _) => C::Word(slot_word(off)),
        Expr::Addr(a) => C::Word(addr_word(names, a)),
    }
}

/// What the arguments say, in order.
pub open spec fn trees(names: Names, es: Seq<Expr>) -> Seq<C> {
    Seq::new(es.len(), |i: int| tree(names, es[i]))
}

proof fn lemma_word(w: Seq<char>, rest: Seq<char>)
    requires
        forall|i: int| 0 <= i < w.len() ==> is_word(#[trigger] w[i]),
        delimited(rest),
    ensures
        word_len(w + rest) == w.len(),
        (w + rest).take(w.len() as int) == w,
        (w + rest).skip(w.len() as int) == rest,
    decreases w.len(),
{
    assert((w + rest).take(w.len() as int) =~= w);
    assert((w + rest).skip(w.len() as int) =~= rest);
    if w.len() > 0 {
        assert((w + rest)[0] == w[0]);
        assert((w + rest).skip(1) =~= w.skip(1) + rest);
        assert forall|i: int| 0 <= i < w.skip(1).len() implies is_word(#[trigger] w.skip(1)[i]) by {
            assert(w.skip(1)[i] == w[i + 1]);
        }
        lemma_word(w.skip(1), rest);
    } else {
        assert(w + rest =~= rest);
    }
}

proof fn lemma_blank(w: Seq<char>, rest: Seq<char>)
    requires
        forall|i: int| 0 <= i < w.len() ==> #[trigger] w[i] != ' ',
        opens_with(rest, ' '),
    ensures
        blank_at(w + rest) == w.len(),
    decreases w.len(),
{
    if w.len() > 0 {
        assert((w + rest)[0] == w[0]);
        assert((w + rest).skip(1) =~= w.skip(1) + rest);
        assert forall|i: int| 0 <= i < w.skip(1).len() implies #[trigger] w.skip(1)[i] != ' ' by {
            assert(w.skip(1)[i] == w[i + 1]);
        }
        lemma_blank(w.skip(1), rest);
    } else {
        assert(w + rest =~= rest);
    }
}

proof fn lemma_read_word(w: Seq<char>, rest: Seq<char>)
    requires
        is_plain(w),
        delimited(rest),
    ensures
        read(w + rest) == Some((C::Word(w), rest)),
{
    reveal(read);
    lemma_word(w, rest);
    assert((w + rest)[0] == w[0]);
    assert(is_word(w[0]));
}

proof fn lemma_read_sign(c: char, x: Seq<char>, rest: Seq<char>, a: C)
    requires
        c == '-' || c == '~',
        read(x + rest) == Some((a, rest)),
    ensures
        c == '-' ==> read(seq![c] + x + rest) == Some((C::Minus(Box::new(a)), rest)),
        c == '~' ==> read(seq![c] + x + rest) == Some((C::Tilde(Box::new(a)), rest)),
{
    reveal(read);
    let t = seq![c] + x + rest;
    assert(t.skip(1) =~= x + rest);
    assert(t[0] == c);
}

/// Behind an opening parenthesis a type, the closing one and an expression.
proof fn lemma_casted(t: Seq<char>, n: int)
    requires
        t.len() > 0,
        t[0] == '(',
        n == word_len(t.skip(1)),
        0 < n < t.skip(1).len(),
        t.skip(1)[n] == ')',
    ensures
        read(t) == (match read(t.skip(1).skip(n + 1)) {
            Some((c, r)) => Some((C::Cast(t.skip(1).take(n), Box::new(c)), r)),
            None => None,
        }),
{
    reveal(read);
}

proof fn lemma_read_cast(ty: Seq<char>, x: Seq<char>, rest: Seq<char>, a: C)
    requires
        is_plain(ty),
        read(x + rest) == Some((a, rest)),
    ensures
        read(seq!['('] + ty + seq![')'] + x + rest) == Some((C::Cast(ty, Box::new(a)), rest)),
{
    let t = seq!['('] + ty + seq![')'] + x + rest;
    let u = t.skip(1);
    let tail = seq![')'] + x + rest;
    assert(u =~= ty + tail);
    assert(tail[0] == ')');
    lemma_word(ty, tail);
    let n = ty.len() as int;
    assert(u[n] == ')');
    assert(u.skip(n + 1) =~= x + rest);
    assert(u.take(n) =~= ty);
    assert(t[0] == '(');
    lemma_casted(t, n);
}

/// Behind an opening parenthesis a star, a pointer type in parentheses and an expression.
proof fn lemma_pointed(t: Seq<char>, k: int)
    requires
        t.len() > 3,
        t[0] == '(' && t[1] == '*' && t[2] == '(',
        k == word_len(t.skip(1).skip(2)),
        k + 3 <= t.skip(1).skip(2).len(),
        t.skip(1).skip(2)[k] == ' ',
        t.skip(1).skip(2)[k + 1] == '*',
        t.skip(1).skip(2)[k + 2] == ')',
    ensures
        read(t) == (match read(t.skip(1).skip(2).skip(k + 3)) {
            Some((c, r)) => if opens_with(r, ')') {
                Some((C::Deref(t.skip(1).skip(2).take(k), Box::new(c)), r.skip(1)))
            } else {
                None
            },
            None => None,
        }),
{
    reveal(read);
    let u = t.skip(1);
    assert(u[0] == '*' && u[1] == '(');
    assert(word_len(u) == 0);
}

proof fn lemma_read_deref(ty: Seq<char>, x: Seq<char>, rest: Seq<char>, a: C)
    requires
        is_plain(ty),
        read(x + (seq![')'] + rest)) == Some((a, seq![')'] + rest)),
    ensures
        read(seq!['(', '*', '('] + ty + seq![' ', '*', ')'] + x + seq![')'] + rest) == Some(
            (C::Deref(ty, Box::new(a)), rest),
        ),
{
    let t = seq!['(', '*', '('] + ty + seq![' ', '*', ')'] + x + seq![')'] + rest;
    let close = seq![')'] + rest;
    let tail = seq![' ', '*', ')'] + x + seq![')'] + rest;
    let v = t.skip(1).skip(2);
    assert(v =~= ty + tail);
    assert(tail[0] == ' ' && tail[1] == '*' && tail[2] == ')');
    lemma_word(ty, tail);
    let k = ty.len() as int;
    assert(v[k] == tail[0] && v[k + 1] == tail[1] && v[k + 2] == tail[2]);
    assert(v.skip(k + 3) =~= x + close);
    assert(v.take(k) =~= ty);
    assert(close.skip(1) =~= rest);
    assert(close[0] == ')');
    assert(t[0] == '(' && t[1] == '*' && t[2] == '(');
    lemma_pointed(t, k);
}

/// The text neither looks like a cast nor like a pointer behind an opening parenthesis.
spec fn is_clear(u: Seq<char>) -> bool {
    &&& u.len() > 0 && u[0] != '*'
    &&& word_len(u) > 0 && word_len(u) < u.len() ==> u[word_len(u) as int] != ')'
}

/// What stands behind an opening parenthesis: one expression, or two with an operator between them.
spec fn enclosed(t: Seq<char>) -> Option<(C, Seq<char>)> {
    match read(t.skip(1)) {
        Some((a, r)) => if opens_with(r, ')') {
            Some((a, r.skip(1)))
        } else if opens_with(r, ' ') && r.len() < t.len() {
            let o = r.skip(1);
            let k = blank_at(o) as int;
            if k < o.len() {
                match read(o.skip(k + 1)) {
                    Some((b, q)) => if opens_with(q, ')') {
                        Some((C::Pair(o.take(k), Box::new(a), Box::new(b)), q.skip(1)))
                    } else {
                        None
                    },
                    None => None,
                }
            } else {
                None
            }
        } else {
            None
        },
        None => None,
    }
}

proof fn lemma_enclosed(t: Seq<char>)
    requires
        t.len() > 0,
        t[0] == '(',
        is_clear(t.skip(1)),
    ensures
        read(t) == enclosed(t),
{
    reveal(read);
    let u = t.skip(1);
    let n = word_len(u) as int;
    assert(!(0 < n < u.len() && u[n] == ')'));
    assert(!(u.len() > 1 && u[0] == '*' && u[1] == '('));
}

proof fn lemma_read_single(x: Seq<char>, rest: Seq<char>, a: C)
    requires
        is_clear(x + (seq![')'] + rest)),
        read(x + (seq![')'] + rest)) == Some((a, seq![')'] + rest)),
    ensures
        read(seq!['('] + x + seq![')'] + rest) == Some((a, rest)),
{
    let t = seq!['('] + x + seq![')'] + rest;
    assert(t.skip(1) =~= x + (seq![')'] + rest));
    assert((seq![')'] + rest).skip(1) =~= rest);
    assert(t[0] == '(');
    lemma_enclosed(t);
}

#[verifier::rlimit(40)]
proof fn lemma_read_pair(x: Seq<char>, op: Seq<char>, y: Seq<char>, rest: Seq<char>, a: C, b: C)
    requires
        forall|i: int| 0 <= i < op.len() ==> #[trigger] op[i] != ' ',
        is_clear(x + (seq![' '] + op + seq![' '] + y + seq![')'] + rest)),
        read(x + (seq![' '] + op + seq![' '] + y + seq![')'] + rest)) == Some(
            (a, seq![' '] + op + seq![' '] + y + seq![')'] + rest),
        ),
        read(y + (seq![')'] + rest)) == Some((b, seq![')'] + rest)),
    ensures
        read(seq!['('] + x + seq![' '] + op + seq![' '] + y + seq![')'] + rest) == Some(
            (C::Pair(op, Box::new(a), Box::new(b)), rest),
        ),
{
    let t = seq!['('] + x + seq![' '] + op + seq![' '] + y + seq![')'] + rest;
    let close = seq![')'] + rest;
    let tail = seq![' '] + y + seq![')'] + rest;
    let r = seq![' '] + op + seq![' '] + y + seq![')'] + rest;
    assert(t.skip(1) =~= x + r);
    assert(t[0] == '(');
    lemma_enclosed(t);
    let o = r.skip(1);
    assert(o =~= op + tail);
    assert(tail[0] == ' ');
    lemma_blank(op, tail);
    let k = op.len() as int;
    assert(o.take(k) =~= op);
    assert(o.skip(k + 1) =~= y + close);
    assert(close.skip(1) =~= rest);
    assert(close[0] == ')');
    assert(r[0] == ' ');
    assert(r.len() < t.len());
}

/// The types as they are written.
pub proof fn lemma_types(w: Width)
    ensures
        w.c_name() == unsigned_type(w),
        w.c_name_signed() == signed_type(w),
        is_plain(unsigned_type(w)),
        is_plain(signed_type(w)),
{
    reveal_strlit("uint8_t");
    reveal_strlit("uint16_t");
    reveal_strlit("uint32_t");
    reveal_strlit("uint64_t");
    reveal_strlit("int8_t");
    reveal_strlit("int16_t");
    reveal_strlit("int32_t");
    reveal_strlit("int64_t");
    assert(w.c_name() =~= unsigned_type(w));
    assert(w.c_name_signed() =~= signed_type(w));
}

/// The operators as they are written.
pub proof fn lemma_operators(op: BinOp)
    ensures
        op.c_op() == operator(op),
        forall|i: int| 0 <= i < operator(op).len() ==> #[trigger] operator(op)[i] != ' ',
{
    reveal_strlit("+");
    reveal_strlit("-");
    reveal_strlit("*");
    reveal_strlit("/");
    reveal_strlit("%");
    reveal_strlit("&");
    reveal_strlit("|");
    reveal_strlit("^");
    reveal_strlit("<<");
    reveal_strlit(">>");
    reveal_strlit("==");
    reveal_strlit("!=");
    reveal_strlit("<");
    reveal_strlit("<=");
    assert(op.c_op() =~= operator(op));
}

proof fn lemma_digits(n: nat, base: nat)
    requires
        2 <= base <= 16,
    ensures
        is_plain(digits_in(n, base)),
    decreases n,
{
    if n >= base {
        vstd::arithmetic::div_mod::lemma_div_decreases(n as int, base as int);
        lemma_digits(n / base, base);
        vstd::arithmetic::div_mod::lemma_mod_bound(n as int, base as int);
    }
}

/// The names and numbers as they are written.
pub proof fn lemma_words(names: Names, r: VReg, a: u64, off: i32, w: Width)
    requires
        plain_names(names),
    ensures
        names.reg(r) == reg_word(names, r) && is_plain(reg_word(names, r)),
        names.addr(a) == addr_word(names, a) && is_plain(addr_word(names, a)),
        expr_text(names, Expr::StackSlot(off, w)) == slot_word(off) && is_plain(slot_word(off)),
{
    reveal_strlit("v");
    reveal_strlit("0x");
    reveal_strlit("ULL");
    reveal_strlit("local_");
    reveal_strlit("arg_");
    lemma_digits(r.0 as nat, 10);
    lemma_digits(a as nat, 16);
    if off > 0 {
        lemma_digits(off as nat, 10);
    } else {
        lemma_digits((-off) as nat, 10);
    }
    assert(names.reg(r) =~= reg_word(names, r));
    assert(names.addr(a) =~= addr_word(names, a));
    assert(expr_text(names, Expr::StackSlot(off, w)) =~= slot_word(off));
}

/// A number as it is written.
proof fn lemma_number(names: Names, v: i64, w: Width)
    ensures
        v >= 0 ==> expr_text(names, Expr::Const(v, w)) == decimal(v as nat) + suffix(w) && is_plain(
            decimal(v as nat) + suffix(w),
        ),
        v < 0 ==> expr_text(names, Expr::Const(v, w)) == seq!['-'] + (decimal((-v) as nat) + suffix(
            w,
        )) && is_plain(decimal((-v) as nat) + suffix(w)),
{
    reveal_strlit("-");
    reveal_strlit("U");
    reveal_strlit("ULL");
    reveal_strlit("");
    let e = Expr::Const(v, w);
    if v < 0 {
        lemma_digits((-v) as nat, 10);
        assert(expr_text(names, e) =~= seq!['-'] + (decimal((-v) as nat) + suffix(w)));
    } else {
        lemma_digits(v as nat, 10);
        assert(expr_text(names, e) =~= decimal(v as nat) + suffix(w));
    }
}

/// The text of an operation on two expressions, taken apart.
proof fn lemma_pair_text(names: Names, e: Expr)
    ensures
        e matches Expr::BinOp(op, l, r) ==> {
            let x = expr_text(names, *l);
            let y = expr_text(names, *r);
            let t = signed_type(l.value_width());
            let cx = seq!['('] + t + seq![')'] + x;
            let cy = seq!['('] + t + seq![')'] + y;
            let left = if minds_signs(op) || op == BinOp::AShr {
                cx
            } else {
                x
            };
            let right = if minds_signs(op) {
                cy
            } else {
                y
            };
            expr_text(names, e) == seq!['('] + left + seq![' '] + operator(op) + seq![' '] + right
                + seq![')']
        },
{
    if let Expr::BinOp(op, l, r) = e {
        reveal_strlit("((");
        reveal_strlit("(");
        reveal_strlit(")");
        reveal_strlit(" ");
        reveal_strlit(" (");
        reveal_strlit(" >> ");
        lemma_types(l.value_width());
        lemma_operators(op);
        let x = expr_text(names, *l);
        let y = expr_text(names, *r);
        let t = signed_type(l.value_width());
        let cx = seq!['('] + t + seq![')'] + x;
        let cy = seq!['('] + t + seq![')'] + y;
        if minds_signs(op) {
            assert(expr_text(names, e) =~= seq!['('] + cx + seq![' '] + operator(op) + seq![' ']
                + cy + seq![')']);
        } else if op == BinOp::AShr {
            assert(expr_text(names, e) =~= seq!['('] + cx + seq![' '] + operator(op) + seq![' ']
                + y + seq![')']);
        } else {
            assert(expr_text(names, e) =~= seq!['('] + x + seq![' '] + operator(op) + seq![' ']
                + y + seq![')']);
        }
    }
}

/// The text of an operation on one expression, or of a load, taken apart.
proof fn lemma_single_text(names: Names, e: Expr)
    ensures
        e matches Expr::UnOp(op, inner) ==> {
            let x = expr_text(names, *inner);
            expr_text(names, e) == seq!['('] + (match op {
                UnOp::Neg => seq!['-'] + x,
                UnOp::Not => seq!['~'] + x,
                UnOp::ZExt(w) => seq!['('] + unsigned_type(w) + seq![')'] + x,
                UnOp::SExt(w) => seq!['('] + signed_type(w) + seq![')'] + x,
                UnOp::Trunc(w) => seq!['('] + unsigned_type(w) + seq![')'] + x,
            }) + seq![')']
        },
        e matches Expr::Load(addr, w) ==> expr_text(names, e) == seq!['(', '*', '(']
            + unsigned_type(w) + seq![' ', '*', ')'] + expr_text(names, *addr) + seq![')'],
{
    reveal_strlit("(-");
    reveal_strlit("(~");
    reveal_strlit("((");
    reveal_strlit(")");
    reveal_strlit("(*(");
    reveal_strlit(" *)");
    match e {
        Expr::UnOp(op, inner) => {
            let x = expr_text(names, *inner);
            match op {
                UnOp::Neg => {
                    assert(expr_text(names, e) =~= seq!['('] + (seq!['-'] + x) + seq![')']);
                },
                UnOp::Not => {
                    assert(expr_text(names, e) =~= seq!['('] + (seq!['~'] + x) + seq![')']);
                },
                UnOp::ZExt(w) => {
                    lemma_types(w);
                    assert(expr_text(names, e) =~= seq!['('] + (seq!['('] + unsigned_type(w)
                        + seq![')'] + x) + seq![')']);
                },
                UnOp::SExt(w) => {
                    lemma_types(w);
                    assert(expr_text(names, e) =~= seq!['('] + (seq!['('] + signed_type(w)
                        + seq![')'] + x) + seq![')']);
                },
                UnOp::Trunc(w) => {
                    lemma_types(w);
                    assert(expr_text(names, e) =~= seq!['('] + (seq!['('] + unsigned_type(w)
                        + seq![')'] + x) + seq![')']);
                },
            }
        },
        Expr::Load(addr, w) => {
            lemma_types(w);
            assert(expr_text(names, e) =~= seq!['(', '*', '('] + unsigned_type(w) + seq![
                ' ',
                '*',
                ')',
            ] + expr_text(names, *addr) + seq![')']);
        },
        _ => {},
    }
}

/// Behind an opening parenthesis the text of an expression and a blank are clear.
proof fn lemma_clear(names: Names, e: Expr, rest: Seq<char>)
    requires
        plain_names(names),
        opens_with(rest, ' '),
    ensures
        is_clear(expr_text(names, e) + rest),
{
    let x = expr_text(names, e);
    let t = x + rest;
    match e {
        Expr::Const(v, w) => {
            lemma_number(names, v, w);
            if v >= 0 {
                lemma_word(x, rest);
                assert(t[x.len() as int] == rest[0]);
            } else {
                assert(t[0] == '-');
            }
        },
        Expr::Reg(r, w) => {
            lemma_words(names, r, 0, 0, w);
            lemma_word(x, rest);
            assert(t[x.len() as int] == rest[0]);
        },
        Expr::StackSlot(off, w) => {
            lemma_words(names, VReg(0), 0, off, w);
            lemma_word(x, rest);
            assert(t[x.len() as int] == rest[0]);
        },
        Expr::Addr(a) => {
            lemma_words(names, VReg(0), a, 0, Width::W8);
            lemma_word(x, rest);
            assert(t[x.len() as int] == rest[0]);
        },
        Expr::BinOp(..) => {
            lemma_pair_text(names, e);
            assert(t[0] == '(');
        },
        _ => {
            lemma_single_text(names, e);
            assert(t[0] == '(');
        },
    }
}

/// The C text of an expression, read, says what the expression is: every operation with its
/// operands in their order, every cast, every load with its type, every name and every number.
#[verifier::rlimit(40)]
pub proof fn lemma_read(names: Names, e: Expr, rest: Seq<char>)
    requires
        plain_names(names),
        delimited(rest),
    ensures
        read(expr_text(names, e) + rest) == Some((tree(names, e), rest)),
    decreases e, 1nat,
{
    let close = seq![')'] + rest;
    assert(close[0] == ')');
    match e {
        Expr::Const(v, w) => {
            lemma_number(names, v, w);
            if v >= 0 {
                lemma_read_word(decimal(v as nat) + suffix(w), rest);
            } else {
                let x = decimal((-v) as nat) + suffix(w);
                lemma_read_word(x, rest);
                lemma_read_sign('-', x, rest, C::Word(x));
            }
        },
        Expr::Reg(r, w) => {
            lemma_words(names, r, 0, 0, w);
            lemma_read_word(reg_word(names, r), rest);
        },
        Expr::StackSlot(off, w) => {
            lemma_words(names, VReg(0), 0, off, w);
            lemma_read_word(slot_word(off), rest);
        },
        Expr::Addr(a) => {
            lemma_words(names, VReg(0), a, 0, Width::W8);
            lemma_read_word(addr_word(names, a), rest);
        },
        Expr::BinOp(..) => {
            lemma_read_two(names, e, rest);
        },
        Expr::UnOp(..) => {
            lemma_read_one(names, e, rest);
        },
        Expr::Load(addr, w) => {
            lemma_single_text(names, e);
            lemma_types(w);
            let x = expr_text(names, *addr);
            lemma_read(names, *addr, close);
            lemma_read_deref(unsigned_type(w), x, rest, tree(names, *addr));
        },
    }
}

#[verifier::rlimit(60)]
proof fn lemma_read_two(names: Names, e: Expr, rest: Seq<char>)
    requires
        plain_names(names),
        delimited(rest),
        e is BinOp,
    ensures
        read(expr_text(names, e) + rest) == Some((tree(names, e), rest)),
    decreases e, 0nat,
{
    let close = seq![')'] + rest;
    assert(close[0] == ')');
    if let Expr::BinOp(op, l, r) = e {
        lemma_pair_text(names, e);
        lemma_operators(op);
        let x = expr_text(names, *l);
        let y = expr_text(names, *r);
        let a = tree(names, *l);
        let b = tree(names, *r);
        let t = signed_type(l.value_width());
        lemma_types(l.value_width());
        let cx = seq!['('] + t + seq![')'] + x;
        let cy = seq!['('] + t + seq![')'] + y;
        lemma_read(names, *r, close);
        let (right, tb) = if minds_signs(op) {
            (cy, C::Cast(t, Box::new(b)))
        } else {
            (y, b)
        };
        if minds_signs(op) {
            lemma_read_cast(t, y, close, b);
        }
        assert(read(right + close) == Some((tb, close)));
        let tail = seq![' '] + operator(op) + seq![' '] + right + seq![')'] + rest;
        assert(tail[0] == ' ');
        lemma_read(names, *l, tail);
        let (left, ta) = if minds_signs(op) || op == BinOp::AShr {
            (cx, C::Cast(t, Box::new(a)))
        } else {
            (x, a)
        };
        if minds_signs(op) || op == BinOp::AShr {
            lemma_read_cast(t, x, tail, a);
            assert((cx + tail)[0] == '(');
        } else {
            lemma_clear(names, *l, tail);
        }
        lemma_read_pair(left, operator(op), right, rest, ta, tb);
        assert(expr_text(names, e) + rest =~= seq!['('] + left + seq![' '] + operator(op)
            + seq![' '] + right + seq![')'] + rest);
    }
}

#[verifier::rlimit(60)]
proof fn lemma_read_one(names: Names, e: Expr, rest: Seq<char>)
    requires
        plain_names(names),
        delimited(rest),
        e is UnOp,
    ensures
        read(expr_text(names, e) + rest) == Some((tree(names, e), rest)),
    decreases e, 0nat,
{
    let close = seq![')'] + rest;
    assert(close[0] == ')');
    if let Expr::UnOp(op, inner) = e {
        lemma_single_text(names, e);
        let x = expr_text(names, *inner);
        let a = tree(names, *inner);
        lemma_read(names, *inner, close);
        let (y, t) = match op {
            UnOp::Neg => (seq!['-'] + x, C::Minus(Box::new(a))),
            UnOp::Not => (seq!['~'] + x, C::Tilde(Box::new(a))),
            UnOp::ZExt(w) => (
                seq!['('] + unsigned_type(w) + seq![')'] + x,
                C::Cast(unsigned_type(w), Box::new(a)),
            ),
            UnOp::SExt(w) => (
                seq!['('] + signed_type(w) + seq![')'] + x,
                C::Cast(signed_type(w), Box::new(a)),
            ),
            UnOp::Trunc(w) => (
                seq!['('] + unsigned_type(w) + seq![')'] + x,
                C::Cast(unsigned_type(w), Box::new(a)),
            ),
        };
        match op {
            UnOp::Neg => {
                lemma_read_sign('-', x, close, a);
            },
            UnOp::Not => {
                lemma_read_sign('~', x, close, a);
            },
            UnOp::ZExt(w) => {
                lemma_types(w);
                lemma_read_cast(unsigned_type(w), x, close, a);
            },
            UnOp::SExt(w) => {
                lemma_types(w);
                lemma_read_cast(signed_type(w), x, close, a);
            },
            UnOp::Trunc(w) => {
                lemma_types(w);
                lemma_read_cast(unsigned_type(w), x, close, a);
            },
        }
        assert(read(y + close) == Some((t, close)));
        assert((y + close)[0] == y[0]);
        assert(word_len(y + close) == 0);
        lemma_read_single(y, rest, t);
        assert(expr_text(names, e) + rest =~= seq!['('] + y + seq![')'] + rest);
    }
}

} // verus!
