//! The lines of a text, and what the parts of the C code add to them.
use vstd::prelude::*;

use super::model::{
    args_text, binop_text, block_with, cond_of, expr_text, goto, label, padding, test_text,
    unop_text, Context, Emission, Names,
};
use super::plan::Step;
use crate::ir::{BinOp, BlockModel, Expr, StmtModel, UnOp, VReg, Width};
use crate::text::{decimal, digit_char, digits_in, signed_decimal};

verus! {

/// The text holds no line break.
pub open spec fn unbroken(t: Seq<char>) -> bool {
    forall|i: int| 0 <= i < t.len() ==> #[trigger] t[i] != '\n'
}

/// The text ends with a line break, or is empty.
pub open spec fn complete(t: Seq<char>) -> bool {
    t.len() > 0 ==> t.last() == '\n'
}

/// Where the last line of a text begins.
pub open spec fn line_start(t: Seq<char>) -> int
    decreases t.len(),
{
    if t.len() == 0 || t.last() == '\n' {
        t.len() as int
    } else {
        line_start(t.drop_last())
    }
}

/// The lines of a text, without their line breaks; what stands behind the last line break is left
/// out.
pub open spec fn lines(t: Seq<char>) -> Seq<Seq<char>>
    decreases t.len(),
{
    if t.len() == 0 {
        Seq::empty()
    } else {
        let body = t.drop_last();
        if t.last() == '\n' && 0 <= line_start(body) <= body.len() {
            lines(body.take(line_start(body))).push(body.skip(line_start(body)))
        } else {
            lines(body)
        }
    }
}

/// The line without the blanks at its start.
pub open spec fn trimmed(l: Seq<char>) -> Seq<char>
    decreases l.len(),
{
    if l.len() > 0 && l[0] == ' ' {
        trimmed(l.skip(1))
    } else {
        l
    }
}

/// How many of the lines are `want`, but for the blanks at their start.
pub open spec fn tally(ls: Seq<Seq<char>>, want: Seq<char>) -> nat
    decreases ls.len(),
{
    if ls.len() == 0 {
        0
    } else {
        tally(ls.drop_last(), want) + if trimmed(ls.last()) == want {
            1nat
        } else {
            0
        }
    }
}

/// The line of an instruction that is not lifted.
pub open spec fn unhandled(what: Seq<char>) -> Seq<char> {
    "/* unhandled: "@ + what + " */"@
}

/// The line with the label of a block.
pub open spec fn label_line(id: u32) -> Seq<char> {
    label(id) + ":"@
}

proof fn lemma_line_start(a: Seq<char>, c: Seq<char>)
    requires
        complete(a),
        unbroken(c),
    ensures
        line_start(a + c) == a.len(),
    decreases c.len(),
{
    if c.len() == 0 {
        assert(a + c =~= a);
    } else {
        assert((a + c).drop_last() =~= a + c.drop_last());
        assert(c[c.len() - 1] != '\n');
        lemma_line_start(a, c.drop_last());
    }
}

/// One more line.
proof fn lemma_line_added(a: Seq<char>, c: Seq<char>)
    requires
        complete(a),
        unbroken(c),
    ensures
        lines(a + c + "\n"@) == lines(a).push(c),
        complete(a + c + "\n"@),
{
    reveal_strlit("\n");
    let t = a + c + "\n"@;
    assert(t.drop_last() =~= a + c);
    lemma_line_start(a, c);
    assert((a + c).take(a.len() as int) =~= a);
    assert((a + c).skip(a.len() as int) =~= c);
}

proof fn lemma_padding(levels: nat, c: Seq<char>)
    ensures
        unbroken(padding(levels)),
        trimmed(padding(levels) + c) == trimmed(c),
    decreases levels,
{
    if levels == 0 {
        assert(padding(levels) + c =~= c);
    } else {
        reveal_strlit("    ");
        let less = padding((levels - 1) as nat);
        let one = "    "@ + c;
        lemma_padding((levels - 1) as nat, one);
        lemma_padding((levels - 1) as nat, c);
        assert(padding(levels) + c =~= less + one);
        assert(one.skip(1).skip(1).skip(1).skip(1) =~= c);
        reveal_with_fuel(trimmed, 5);
        assert(one[0] == ' ' && one.skip(1)[0] == ' ' && one.skip(1).skip(1)[0] == ' ' && one.skip(
            1,
        ).skip(1).skip(1)[0] == ' ');
        assert(trimmed(one) == trimmed(c));
    }
}

/// The end of a line stays.
proof fn lemma_trimmed_end(l: Seq<char>)
    ensures
        trimmed(l).len() <= l.len(),
        forall|k: int|
            0 < k <= trimmed(l).len() ==> #[trigger] trimmed(l)[trimmed(l).len() - k] == l[l.len()
                - k],
    decreases l.len(),
{
    if l.len() > 0 && l[0] == ' ' {
        let rest = l.skip(1);
        lemma_trimmed_end(rest);
        assert forall|k: int| 0 < k <= trimmed(l).len() implies #[trigger] trimmed(
            l,
        )[trimmed(l).len() - k] == l[l.len() - k] by {
            assert(trimmed(rest)[trimmed(rest).len() - k] == rest[rest.len() - k]);
        }
    }
}

/// Digits are no line breaks, and the last one is a decimal digit in decimal.
proof fn lemma_digits(n: nat, base: nat)
    requires
        2 <= base <= 16,
    ensures
        unbroken(digits_in(n, base)),
        digits_in(n, base).len() > 0,
        base == 10 ==> '0' <= digits_in(n, base).last() <= '9',
    decreases n,
{
    if n >= base {
        vstd::arithmetic::div_mod::lemma_div_decreases(n as int, base as int);
        lemma_digits(n / base, base);
        assert(n % base < base);
    }
}

/// A number is told by its digits.
proof fn lemma_digits_injective(a: nat, b: nat)
    requires
        decimal(a) == decimal(b),
    ensures
        a == b,
    decreases a + b,
{
    let (x, y) = (decimal(a), decimal(b));
    if a >= 10 {
        lemma_digits(a / 10, 10);
        assert(x.len() > 1);
    }
    if b >= 10 {
        lemma_digits(b / 10, 10);
        assert(y.len() > 1);
    }
    assert(x.last() == y.last());
    if a >= 10 && b >= 10 {
        assert(x.drop_last() =~= decimal(a / 10));
        assert(y.drop_last() =~= decimal(b / 10));
        lemma_digits_injective(a / 10, b / 10);
        assert(digit_char(a % 10) == digit_char(b % 10));
        assert(a % 10 == b % 10);
    } else {
        assert(digit_char(a) == digit_char(b));
    }
}

pub(crate) proof fn lemma_label_injective(a: u32, b: u32)
    ensures
        label(a) == label(b) ==> a == b,
        label_line(a) == label_line(b) ==> a == b,
        goto(a) == goto(b) ==> a == b,
{
    reveal_strlit("block_");
    reveal_strlit("goto ");
    reveal_strlit(":");
    reveal_strlit(";");
    let (la, lb) = (label(a), label(b));
    if label_line(a) == label_line(b) {
        assert(la =~= label_line(a).drop_last());
        assert(lb =~= label_line(b).drop_last());
    }
    if goto(a) == goto(b) {
        assert(la =~= goto(a).drop_last().skip(5));
        assert(lb =~= goto(b).drop_last().skip(5));
    }
    if la == lb {
        assert(decimal(a as nat) =~= la.skip(6));
        assert(decimal(b as nat) =~= lb.skip(6));
        lemma_digits_injective(a as nat, b as nat);
    }
}

/// The characters at the ends of the lines that are told apart.
pub(crate) proof fn lemma_shapes(id: u32, what: Seq<char>)
    ensures
        unbroken(label(id)),
        unbroken(label_line(id)),
        unbroken(goto(id)),
        unbroken(what) ==> unbroken(unhandled(what)),
        trimmed(label_line(id)) == label_line(id),
        trimmed(goto(id)) == goto(id),
        trimmed(unhandled(what)) == unhandled(what),
        trimmed("/* back edge */"@) == "/* back edge */"@,
        unbroken("/* back edge */"@),
        label_line(id).len() > 0 && label_line(id).last() == ':',
        goto(id).len() > 1 && goto(id)[0] == 'g' && goto(id).last() == ';',
        goto(id)[goto(id).len() - 2] != ')',
        unhandled(what).len() > 3 && unhandled(what).last() == '/' && unhandled(what)[3] == 'u',
        "/* back edge */"@.len() > 3 && "/* back edge */"@.last() == '/' && "/* back edge */"@[3]
            == 'b',
{
    reveal_strlit("block_");
    reveal_strlit("goto ");
    reveal_strlit(":");
    reveal_strlit(";");
    reveal_strlit("/* unhandled: ");
    reveal_strlit(" */");
    reveal_strlit("/* back edge */");
    lemma_digits(id as nat, 10);
}

pub(crate) proof fn lemma_unhandled_injective(a: Seq<char>, b: Seq<char>)
    requires
        unhandled(a) == unhandled(b),
    ensures
        a == b,
{
    reveal_strlit("/* unhandled: ");
    reveal_strlit(" */");
    let (x, y) = (unhandled(a), unhandled(b));
    assert(a =~= x.subrange(14, x.len() - 3));
    assert(b =~= y.subrange(14, y.len() - 3));
}

/// A line of the C code that is no label, no jump and no remark.
pub open spec fn plain(c: Seq<char>) -> bool {
    &&& unbroken(c)
    &&& c.len() > 0
    &&& c.last() == ';' || c.last() == '{' || c.last() == '}'
    &&& forall|id: u32| trimmed(c) != #[trigger] goto(id)
}

proof fn lemma_plain(c: Seq<char>)
    requires
        unbroken(c),
        c.len() > 1,
        c.last() == ';' || c.last() == '{' || c.last() == '}',
        c.last() != ';' || c[0] != ' ' && c[0] != 'g' || c[c.len() - 2] == ')',
    ensures
        plain(c),
{
    assert forall|id: u32| trimmed(c) != #[trigger] goto(id) by {
        lemma_shapes(id, c);
        lemma_trimmed_end(c);
        if trimmed(c) == goto(id) {
            let t = trimmed(c);
            assert(t[t.len() - 1] == c[c.len() - 1]);
            assert(t[t.len() - 2] == c[c.len() - 2]);
        }
    }
}

/// No plain line is `want`.
pub open spec fn set_apart(want: Seq<char>) -> bool {
    forall|c: Seq<char>| #[trigger] plain(c) ==> trimmed(c) != want
}

/// Labels, jumps and remarks are set apart from the plain lines.
pub(crate) proof fn lemma_set_apart(id: u32, what: Seq<char>)
    ensures
        set_apart(label_line(id)),
        set_apart(goto(id)),
        set_apart(unhandled(what)),
{
    lemma_shapes(id, what);
    assert forall|c: Seq<char>| #[trigger] plain(c) implies trimmed(c) != label_line(id)
        && trimmed(c) != unhandled(what) by {
        lemma_trimmed_end(c);
        let t = trimmed(c);
        if t.len() > 0 {
            assert(t[t.len() - 1] == c[c.len() - 1]);
        }
    }
}

/// How many lines of the emission are `want`.
pub open spec fn hits(em: Emission, want: Seq<char>) -> nat {
    tally(lines(em.text), want)
}

/// From `a` to `b` only plain lines have been added.
spec fn still(a: Emission, b: Emission) -> bool {
    complete(a.text) ==> complete(b.text) && forall|want: Seq<char>|
        set_apart(want) ==> #[trigger] hits(b, want) == hits(a, want)
}

/// One more line of the emission.
pub(crate) proof fn lemma_line(em: Emission, c: Seq<char>)
    requires
        complete(em.text),
        unbroken(c),
    ensures
        complete(em.line(c).text),
        forall|want: Seq<char>| #[trigger]
            hits(em.line(c), want) == hits(em, want) + (if trimmed(c) == want {
                1nat
            } else {
                0
            }),
{
    let pad = padding(em.indent);
    lemma_padding(em.indent, c);
    assert(em.line(c).text =~= em.text + (pad + c) + "\n"@);
    lemma_line_added(em.text, pad + c);
    assert forall|want: Seq<char>| #[trigger]
        hits(em.line(c), want) == hits(em, want) + (if trimmed(c) == want {
            1nat
        } else {
            0
        }) by {
        let ls = lines(em.line(c).text);
        assert(ls.drop_last() =~= lines(em.text));
    }
}

proof fn lemma_plain_line(em: Emission, c: Seq<char>)
    requires
        plain(c),
    ensures
        still(em, em.line(c)),
{
    if complete(em.text) {
        lemma_line(em, c);
    }
}

/// The names are texts without line breaks; those of parameters begin with a `p`.
pub open spec fn tame(names: Names) -> bool {
    &&& forall|r: u32| #[trigger]
        names.params.contains_key(r) ==> unbroken(names.params[r]) && names.params[r].len() > 0
            && names.params[r][0] == 'p'
    &&& forall|a: u64| #[trigger] names.funcs.contains_key(a) ==> unbroken(names.funcs[a])
}

proof fn lemma_reg(names: Names, vr: VReg)
    requires
        tame(names),
    ensures
        unbroken(names.reg(vr)),
        names.reg(vr).len() > 0,
        names.reg(vr)[0] == 'p' || names.reg(vr)[0] == 'v',
{
    reveal_strlit("v");
    lemma_digits(vr.0 as nat, 10);
}

proof fn lemma_types(w: Width)
    ensures
        unbroken(w.c_name()),
        unbroken(w.c_name_signed()),
        w.c_name().len() > 0,
        w.c_name()[0] == 'u',
{
    reveal_strlit("uint8_t");
    reveal_strlit("uint16_t");
    reveal_strlit("uint32_t");
    reveal_strlit("uint64_t");
    reveal_strlit("int8_t");
    reveal_strlit("int16_t");
    reveal_strlit("int32_t");
    reveal_strlit("int64_t");
}

proof fn lemma_operators(op: BinOp)
    ensures
        unbroken(op.c_op()),
{
    reveal_strlit("+");
    reveal_strlit("-");
    reveal_strlit("*");
    reveal_strlit("/");
    reveal_strlit("%");
    reveal_strlit("&");
    reveal_strlit("|");
    reveal_strlit("^");
    reveal_strlit("<<");
    reveal_strlit(">>");
    reveal_strlit("==");
    reveal_strlit("!=");
    reveal_strlit("<");
    reveal_strlit("<=");
}

proof fn lemma_cat(a: Seq<char>, b: Seq<char>)
    requires
        unbroken(a),
        unbroken(b),
    ensures
        unbroken(a + b),
{
}

/// The literals that stand between the parts of expressions.
proof fn lemma_marks()
    ensures
        unbroken("(("@),
        unbroken("("@),
        unbroken(")"@),
        unbroken(" "@),
        unbroken(" ("@),
        unbroken(" >> "@),
        unbroken("(-"@),
        unbroken("(~"@),
{
    reveal_strlit("((");
    reveal_strlit("(");
    reveal_strlit(")");
    reveal_strlit(" ");
    reveal_strlit(" (");
    reveal_strlit(" >> ");
    reveal_strlit("(-");
    reveal_strlit("(~");
}

proof fn lemma_binop(op: BinOp, w: Width, l: Seq<char>, r: Seq<char>)
    requires
        unbroken(l),
        unbroken(r),
    ensures
        unbroken(binop_text(op, w, l, r)),
{
    lemma_types(w);
    lemma_operators(op);
    lemma_marks();
    let cast = w.c_name_signed();
    let left = "(("@ + cast + ")"@ + l;
    lemma_cat("(("@, cast);
    lemma_cat("(("@ + cast, ")"@);
    lemma_cat("(("@ + cast + ")"@, l);
    lemma_cat(left, " "@);
    lemma_cat(left + " "@, op.c_op());
    let mid = left + " "@ + op.c_op();
    lemma_cat(mid, " ("@);
    lemma_cat(mid + " ("@, cast);
    lemma_cat(mid + " ("@ + cast, ")"@);
    lemma_cat(mid + " ("@ + cast + ")"@, r);
    lemma_cat(mid + " ("@ + cast + ")"@ + r, ")"@);
    lemma_cat(left, " >> "@);
    lemma_cat(left + " >> "@, r);
    lemma_cat(left + " >> "@ + r, ")"@);
    lemma_cat("("@, l);
    lemma_cat("("@ + l, " "@);
    lemma_cat("("@ + l + " "@, op.c_op());
    lemma_cat("("@ + l + " "@ + op.c_op(), " "@);
    lemma_cat("("@ + l + " "@ + op.c_op() + " "@, r);
    lemma_cat("("@ + l + " "@ + op.c_op() + " "@ + r, ")"@);
}

proof fn lemma_unop(op: UnOp, inner: Seq<char>)
    requires
        unbroken(inner),
    ensures
        unbroken(unop_text(op, inner)),
{
    lemma_marks();
    lemma_cat("(-"@, inner);
    lemma_cat("(-"@ + inner, ")"@);
    lemma_cat("(~"@, inner);
    lemma_cat("(~"@ + inner, ")"@);
    let cast = match op {
        UnOp::ZExt(w) => w.c_name(),
        UnOp::SExt(w) => w.c_name_signed(),
        UnOp::Trunc(w) => w.c_name(),
        _ => Seq::empty(),
    };
    match op {
        UnOp::ZExt(w) => lemma_types(w),
        UnOp::SExt(w) => lemma_types(w),
        UnOp::Trunc(w) => lemma_types(w),
        _ => {},
    }
    lemma_cat("(("@, cast);
    lemma_cat("(("@ + cast, ")"@);
    lemma_cat("(("@ + cast + ")"@, inner);
    lemma_cat("(("@ + cast + ")"@ + inner, ")"@);
}

proof fn lemma_expr(names: Names, e: Expr)
    requires
        tame(names),
    ensures
        unbroken(expr_text(names, e)),
    decreases e,
{
    match e {
        Expr::Const(v, w) => {
            reveal_strlit("ULL");
            reveal_strlit("U");
            reveal_strlit("");
            reveal_strlit("-");
            if v < 0 {
                lemma_digits((-v) as nat, 10);
            } else {
                lemma_digits(v as nat, 10);
            }
            assert(unbroken(signed_decimal(v as int)));
        },
        Expr::Reg(vr, _) => {
            lemma_reg(names, vr);
        },
        Expr::BinOp(op, l, r) => {
            lemma_expr(names, *l);
            lemma_expr(names, *r);
            lemma_binop(op, l.value_width(), expr_text(names, *l), expr_text(names, *r));
        },
        Expr::UnOp(op, inner) => {
            lemma_expr(names, *inner);
            lemma_unop(op, expr_text(names, *inner));
        },
        Expr::Load(addr, w) => {
            lemma_expr(names, *addr);
            lemma_types(w);
            reveal_strlit("(*(");
            reveal_strlit(" *)");
            reveal_strlit(")");
        },
        Expr::StackSlot(off, _) => {
            reveal_strlit("local_");
            reveal_strlit("arg_");
            if off > 0 {
                lemma_digits(off as nat, 10);
            } else {
                lemma_digits((-off) as nat, 10);
            }
        },
        Expr::Addr(a) => {
            reveal_strlit("0x");
            reveal_strlit("ULL");
            lemma_digits(a as nat, 16);
        },
    }
}

proof fn lemma_args(names: Names, args: Seq<Expr>)
    requires
        tame(names),
    ensures
        unbroken(args_text(names, args)),
    decreases args.len(),
{
    if args.len() > 0 {
        reveal_strlit(", ");
        lemma_args(names, args.drop_last());
        lemma_expr(names, args.last());
        lemma_expr(names, args[0]);
    }
}

proof fn lemma_declare(em: Emission, names: Names, vr: VReg, w: Width)
    requires
        tame(names),
    ensures
        still(em, em.declare(names, vr, w)),
{
    let c = w.c_name() + " "@ + names.reg(vr) + ";"@;
    reveal_strlit(" ");
    reveal_strlit(";");
    lemma_types(w);
    lemma_reg(names, vr);
    lemma_plain(c);
    lemma_plain_line(em, c);
    if !em.declared.contains(vr.0) {
        let next = em.declare(names, vr, w);
        assert(next.text == em.line(c).text);
        assert(forall|want: Seq<char>| #[trigger] hits(next, want) == hits(em.line(c), want));
    }
}

proof fn lemma_declare_all(em: Emission, names: Names, e: Expr)
    requires
        tame(names),
    ensures
        still(em, em.declare_all(names, e)),
    decreases e,
{
    match e {
        Expr::Reg(vr, w) => {
            lemma_declare(em, names, vr, w);
        },
        Expr::BinOp(_, l, r) => {
            lemma_declare_all(em, names, *l);
            lemma_declare_all(em.declare_all(names, *l), names, *r);
        },
        Expr::UnOp(_, inner) => {
            lemma_declare_all(em, names, *inner);
        },
        Expr::Load(addr, _) => {
            lemma_declare_all(em, names, *addr);
        },
        _ => {},
    }
}

proof fn lemma_declare_each(em: Emission, names: Names, es: Seq<Expr>)
    requires
        tame(names),
    ensures
        still(em, em.declare_each(names, es)),
    decreases es.len(),
{
    if es.len() > 0 {
        lemma_declare_each(em, names, es.drop_last());
        lemma_declare_all(em.declare_each(names, es.drop_last()), names, es.last());
    }
}

/// The statement adds the line.
pub open spec fn remarks(s: StmtModel, want: Seq<char>) -> bool {
    s matches StmtModel::Unhandled(what) && unhandled(what) == want
}

/// An instruction that is not lifted is named without a line break.
pub open spec fn in_one_line(s: StmtModel) -> bool {
    s matches StmtModel::Unhandled(what) ==> unbroken(what)
}

/// What a statement adds.
proof fn lemma_stmt(em: Emission, names: Names, s: StmtModel)
    requires
        tame(names),
        in_one_line(s),
        complete(em.text),
    ensures
        complete(em.stmt(names, s).text),
        forall|want: Seq<char>|
            set_apart(want) ==> #[trigger] hits(em.stmt(names, s), want) == hits(em, want) + (
            if remarks(s, want) {
                1nat
            } else {
                0
            }),
{
    reveal_strlit(";");
    reveal_strlit(" = ");
    match s {
        StmtModel::Assign(dst, e) => {
            let c = names.reg(dst) + " = "@ + expr_text(names, e) + ";"@;
            let a = em.declare(names, dst, e.value_width());
            let b = a.declare_all(names, e);
            lemma_declare(em, names, dst, e.value_width());
            lemma_declare_all(a, names, e);
            lemma_reg(names, dst);
            lemma_expr(names, e);
            lemma_plain(c);
            lemma_plain_line(b, c);
        },
        StmtModel::Store { addr, val, width } => {
            let c = "*("@ + width.c_name() + " *)"@ + expr_text(names, addr) + " = "@ + expr_text(
                names,
                val,
            ) + ";"@;
            let a = em.declare_all(names, addr);
            let b = a.declare_all(names, val);
            reveal_strlit("*(");
            reveal_strlit(" *)");
            lemma_declare_all(em, names, addr);
            lemma_declare_all(a, names, val);
            lemma_types(width);
            lemma_expr(names, addr);
            lemma_expr(names, val);
            lemma_plain(c);
            lemma_plain_line(b, c);
        },
        StmtModel::Call { dst, func, args } => {
            let a = em.declare_all(names, func);
            let b = a.declare_each(names, args);
            let call = expr_text(names, func) + "("@ + args_text(names, args) + ")"@;
            reveal_strlit("(");
            reveal_strlit(")");
            lemma_declare_all(em, names, func);
            lemma_declare_each(a, names, args);
            lemma_expr(names, func);
            lemma_args(names, args);
            match dst {
                Some(d) => {
                    let c = names.reg(d) + " = "@ + call + ";"@;
                    lemma_declare(b, names, d, Width::W64);
                    lemma_reg(names, d);
                    lemma_plain(c);
                    lemma_plain_line(b.declare(names, d, Width::W64), c);
                },
                None => {
                    lemma_plain(call + ";"@);
                    lemma_plain_line(b, call + ";"@);
                },
            }
        },
        StmtModel::Return(Some(e)) => {
            let c = "return "@ + expr_text(names, e) + ";"@;
            reveal_strlit("return ");
            lemma_declare_all(em, names, e);
            lemma_expr(names, e);
            lemma_plain(c);
            lemma_plain_line(em.declare_all(names, e), c);
        },
        StmtModel::Return(None) => {
            reveal_strlit("return;");
            lemma_plain("return;"@);
            lemma_plain_line(em, "return;"@);
        },
        StmtModel::IndirectJump(e) => {
            let c = "goto *((void *)"@ + expr_text(names, e) + ");"@;
            reveal_strlit("goto *((void *)");
            reveal_strlit(");");
            lemma_declare_all(em, names, e);
            lemma_expr(names, e);
            lemma_plain(c);
            lemma_plain_line(em.declare_all(names, e), c);
        },
        StmtModel::Unhandled(what) => {
            lemma_shapes(0, what);
            lemma_line(em, unhandled(what));
        },
        _ => {},
    }
}

/// How many of the statements add the line.
pub open spec fn remarked(stmts: Seq<StmtModel>, want: Seq<char>) -> nat
    decreases stmts.len(),
{
    if stmts.len() == 0 {
        0
    } else {
        remarked(stmts.drop_last(), want) + if remarks(stmts.last(), want) {
            1nat
        } else {
            0
        }
    }
}

proof fn lemma_stmts(em: Emission, names: Names, stmts: Seq<StmtModel>)
    requires
        tame(names),
        forall|i: int| 0 <= i < stmts.len() ==> in_one_line(#[trigger] stmts[i]),
        complete(em.text),
    ensures
        complete(em.stmts(names, stmts).text),
        forall|want: Seq<char>|
            set_apart(want) ==> #[trigger] hits(em.stmts(names, stmts), want) == hits(em, want)
                + remarked(stmts, want),
    decreases stmts.len(),
{
    if stmts.len() > 0 {
        let rest = stmts.drop_last();
        assert forall|i: int| 0 <= i < rest.len() implies in_one_line(#[trigger] rest[i]) by {
            assert(in_one_line(stmts[i]));
        }
        lemma_stmts(em, names, rest);
        lemma_stmt(em.stmts(names, rest), names, stmts.last());
    }
}

/// The statements of the block with the given id.
pub open spec fn stmts_of(blocks: Seq<BlockModel>, id: u32) -> Seq<StmtModel> {
    match block_with(blocks, id) {
        Some(block) => block.stmts,
        None => Seq::empty(),
    }
}

/// No statement of the blocks gives more than one line for an instruction that is not lifted.
pub open spec fn all_in_one_line(blocks: Seq<BlockModel>) -> bool {
    forall|i: int, j: int|
        0 <= i < blocks.len() && 0 <= j < blocks[i].stmts.len() ==> in_one_line(
            #[trigger] blocks[i].stmts[j],
        )
}

proof fn lemma_stmts_of(blocks: Seq<BlockModel>, id: u32)
    requires
        all_in_one_line(blocks),
    ensures
        forall|j: int|
            0 <= j < stmts_of(blocks, id).len() ==> in_one_line(
                #[trigger] stmts_of(blocks, id)[j],
            ),
    decreases blocks.len(),
{
    if blocks.len() > 0 {
        let rest = blocks.skip(1);
        assert forall|i: int, j: int|
            0 <= i < rest.len() && 0 <= j < rest[i].stmts.len() implies in_one_line(
            #[trigger] rest[i].stmts[j],
        ) by {
            assert(in_one_line(blocks[i + 1].stmts[j]));
        }
        lemma_stmts_of(rest, id);
        if blocks[0].id == id {
            assert forall|j: int| 0 <= j < stmts_of(blocks, id).len() implies in_one_line(
                #[trigger] stmts_of(blocks, id)[j],
            ) by {
                assert(in_one_line(blocks[0].stmts[j]));
            }
        } else {
            assert(stmts_of(blocks, id) == stmts_of(rest, id));
        }
    }
}

/// How often a step adds the line, other than as a plain one.
pub open spec fn step_hits(cx: Context, step: Step, want: Seq<char>) -> nat {
    match step {
        Step::Block { id, led } => block_hits(cx, id, led, want),
        Step::While { id, led } => block_hits(cx, id, led, want),
        Step::BackEdge => if "/* back edge */"@ == want {
            1
        } else {
            0
        },
        Step::Goto(id) => if goto(id) == want {
            1
        } else {
            0
        },
        _ => 0,
    }
}

/// How often a block adds the line: as its label, and in its statements.
pub open spec fn block_hits(cx: Context, id: u32, led: bool, want: Seq<char>) -> nat {
    remarked(stmts_of(cx.blocks, id), want) + if cx.labelled(id, led) && label_line(id) == want {
        1nat
    } else {
        0
    }
}

/// How often the steps add the line.
pub open spec fn steps_hits(cx: Context, steps: Seq<Step>, want: Seq<char>) -> nat
    decreases steps.len(),
{
    if steps.len() == 0 {
        0
    } else {
        steps_hits(cx, steps.drop_last(), want) + step_hits(cx, steps.last(), want)
    }
}

proof fn lemma_at_block(cx: Context, em: Emission, id: u32, led: bool)
    requires
        complete(em.text),
    ensures
        complete(cx.at_block(em, id, led).text),
        forall|want: Seq<char>| #[trigger]
            hits(cx.at_block(em, id, led), want) == hits(em, want) + (if cx.labelled(id, led)
                && label_line(id) == want {
                1nat
            } else {
                0
            }),
{
    lemma_shapes(id, Seq::empty());
    lemma_line(em.shallower(), label_line(id));
    assert forall|want: Seq<char>| #[trigger]
        hits(cx.at_block(em, id, led), want) == hits(em, want) + (if cx.labelled(id, led)
            && label_line(id) == want {
            1nat
        } else {
            0
        }) by {
        assert(hits(em.shallower(), want) == hits(em, want));
        let marked = em.shallower().line(label_line(id));
        assert(hits(marked.deeper(), want) == hits(marked, want));
    }
}

proof fn lemma_body(cx: Context, em: Emission, id: u32)
    requires
        tame(cx.names),
        all_in_one_line(cx.blocks),
        complete(em.text),
    ensures
        complete(cx.body(em, id).text),
        forall|want: Seq<char>|
            set_apart(want) ==> #[trigger] hits(cx.body(em, id), want) == hits(em, want)
                + remarked(stmts_of(cx.blocks, id), want),
{
    lemma_stmts_of(cx.blocks, id);
    lemma_stmts(em, cx.names, stmts_of(cx.blocks, id));
}

proof fn lemma_test(cx: Context, em: Emission, id: u32, negated: bool, rest: Seq<char>)
    requires
        tame(cx.names),
        unbroken(rest),
        rest.len() > 1,
        rest.last() == '{' || rest.last() == '}',
    ensures
        still(em, cx.test(em, id, negated, rest)),
{
    if let Some(cond) = cond_of(cx.blocks, id) {
        let c = test_text(negated) + expr_text(cx.names, cond) + rest;
        reveal_strlit("if (");
        reveal_strlit("if (!");
        lemma_declare_all(em, cx.names, cond);
        lemma_expr(cx.names, cond);
        assert(c.last() == rest.last());
        lemma_plain(c);
        lemma_plain_line(em.declare_all(cx.names, cond), c);
    }
}

/// What a step adds.
proof fn lemma_step(cx: Context, em: Emission, step: Step)
    requires
        tame(cx.names),
        all_in_one_line(cx.blocks),
        complete(em.text),
    ensures
        complete(cx.step(em, step).text),
        forall|want: Seq<char>|
            set_apart(want) ==> #[trigger] hits(cx.step(em, step), want) == hits(em, want)
                + step_hits(cx, step, want),
{
    match step {
        Step::Block { id, led } => {
            lemma_at_block(cx, em, id, led);
            lemma_body(cx, cx.at_block(em, id, led), id);
        },
        Step::While { id, led } => {
            let a = cx.at_block(em, id, led);
            let b = a.line("while (1) {"@);
            reveal_strlit("while (1) {");
            lemma_at_block(cx, em, id, led);
            lemma_plain("while (1) {"@);
            lemma_plain_line(a, "while (1) {"@);
            assert(forall|want: Seq<char>| #[trigger] hits(b.deeper(), want) == hits(b, want));
            lemma_body(cx, b.deeper(), id);
        },
        Step::BackEdge => {
            lemma_shapes(0, Seq::empty());
            lemma_line(em, "/* back edge */"@);
        },
        Step::Goto(id) => {
            lemma_shapes(id, Seq::empty());
            lemma_line(em, goto(id));
        },
        Step::GotoIf { id, negated, target } => {
            reveal_strlit(") { goto ");
            reveal_strlit("; }");
            lemma_shapes(target, Seq::empty());
            lemma_test(cx, em, id, negated, ") { goto "@ + label(target) + "; }"@);
        },
        Step::ContinueIf { id, negated } => {
            reveal_strlit(") { continue; }");
            lemma_test(cx, em, id, negated, ") { continue; }"@);
        },
        Step::BreakIf { id, negated } => {
            reveal_strlit(") { break; }");
            lemma_test(cx, em, id, negated, ") { break; }"@);
        },
        Step::If(id) => {
            let a = cx.test(em, id, false, ") {"@);
            reveal_strlit(") {");
            lemma_test(cx, em, id, false, ") {"@);
            assert(forall|want: Seq<char>| #[trigger] hits(a.deeper(), want) == hits(a, want));
        },
        Step::Else => {
            let a = em.shallower();
            let b = a.line("} else {"@);
            reveal_strlit("} else {");
            lemma_plain("} else {"@);
            lemma_plain_line(a, "} else {"@);
            assert(forall|want: Seq<char>| #[trigger] hits(a, want) == hits(em, want));
            assert(forall|want: Seq<char>| #[trigger] hits(b.deeper(), want) == hits(b, want));
        },
        Step::Close => {
            lemma_close(em.shallower());
            assert(forall|want: Seq<char>| #[trigger] hits(em.shallower(), want) == hits(em, want));
        },
    }
}

/// A closing brace is a plain line.
pub(crate) proof fn lemma_close(em: Emission)
    requires
        complete(em.text),
    ensures
        complete(em.line("}"@).text),
        forall|want: Seq<char>|
            set_apart(want) ==> #[trigger] hits(em.line("}"@), want) == hits(em, want),
{
    reveal_strlit("}");
    assert forall|id: u32| trimmed("}"@) != #[trigger] goto(id) by {
        lemma_shapes(id, Seq::empty());
    }
    assert(plain("}"@));
    lemma_plain_line(em, "}"@);
}

/// A line that ends with an opening brace is a plain line.
pub(crate) proof fn lemma_opened_line(em: Emission, c: Seq<char>)
    requires
        complete(em.text),
        unbroken(c),
        c.len() > 1,
        c.last() == '{',
    ensures
        complete(em.line(c).text),
        forall|want: Seq<char>|
            set_apart(want) ==> #[trigger] hits(em.line(c), want) == hits(em, want),
{
    lemma_plain(c);
    lemma_plain_line(em, c);
}

/// What the steps add.
pub(crate) proof fn lemma_steps(cx: Context, em: Emission, steps: Seq<Step>)
    requires
        tame(cx.names),
        all_in_one_line(cx.blocks),
        complete(em.text),
    ensures
        complete(cx.steps(em, steps).text),
        forall|want: Seq<char>|
            set_apart(want) ==> #[trigger] hits(cx.steps(em, steps), want) == hits(em, want)
                + steps_hits(cx, steps, want),
    decreases steps.len(),
{
    if steps.len() > 0 {
        lemma_steps(cx, em, steps.drop_last());
        lemma_step(cx, cx.steps(em, steps.drop_last()), steps.last());
    }
}

} // verus!
