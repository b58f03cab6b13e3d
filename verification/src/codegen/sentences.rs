//! Reading C statements: what the line of a statement says.
use vstd::prelude::*;

use super::model::{args_text, expr_text, padding, Emission, Names};
use super::reading::{
    lemma_read, lemma_types, lemma_words, opens_with, plain_names, read, read_args, read_list,
    reg_word, tree, trees, unsigned_type, C,
};
use crate::ir::reads::{regs_of, regs_of_all};
use crate::ir::{Expr, StmtModel, VReg, Width};

verus! {

/// A call at the beginning of a text: the function, the arguments, and what comes behind it.
pub open spec fn read_call(t: Seq<char>) -> Option<(C, Seq<C>, Seq<char>)> {
    match read(t) {
        Some((f, r)) => if opens_with(r, '(') {
            match read_args(r.skip(1)) {
                Some((args, q)) => Some((f, args, q)),
                None => None,
            }
        } else {
            None
        },
        None => None,
    }
}

/// The text of several arguments is that of the first one, a comma and a blank, and that of the
/// others.
pub proof fn lemma_args_front(names: Names, args: Seq<Expr>)
    requires
        args.len() >= 2,
    ensures
        args_text(names, args) == expr_text(names, args[0]) + seq![',', ' '] + args_text(
            names,
            args.skip(1),
        ),
    decreases args.len(),
{
    reveal_strlit(", ");
    assert(", "@ =~= seq![',', ' ']);
    reveal_with_fuel(args_text, 3);
    let rest = args.drop_last();
    if args.len() == 2 {
        assert(rest[0] == args[0]);
        assert(args.skip(1)[0] == args[1]);
        assert(args_text(names, rest) == expr_text(names, args[0]));
    } else {
        lemma_args_front(names, rest);
        let tail = args.skip(1);
        assert(rest.skip(1) =~= tail.drop_last());
        assert(tail.last() == args.last());
        let a = expr_text(names, args[0]);
        let b = args_text(names, rest.skip(1));
        let c = expr_text(names, args.last());
        assert((a + seq![',', ' '] + b) + ", "@ + c =~= a + seq![',', ' '] + (b + ", "@ + c));
    }
}

proof fn lemma_read_list(names: Names, args: Seq<Expr>, rest: Seq<char>)
    requires
        plain_names(names),
        args.len() > 0,
    ensures
        read_list(args_text(names, args) + (seq![')'] + rest)) == Some(
            (trees(names, args), rest),
        ),
        args_text(names, args).len() > 0,
        args_text(names, args)[0] != ')',
    decreases args.len(),
{
    let close = seq![')'] + rest;
    let x = expr_text(names, args[0]);
    assert(close[0] == ')');
    assert(close.skip(1) =~= rest);
    if args.len() == 1 {
        lemma_read(names, args[0], close);
        lemma_first(names, args[0]);
        assert(trees(names, args) =~= seq![tree(names, args[0])]);
    } else {
        let tail = args.skip(1);
        lemma_args_front(names, args);
        lemma_read_list(names, tail, rest);
        let y = args_text(names, tail) + close;
        let r = seq![',', ' '] + y;
        assert(args_text(names, args) + close =~= x + r);
        assert(r[0] == ',' && r[1] == ' ');
        lemma_read(names, args[0], r);
        lemma_first(names, args[0]);
        assert(r.skip(2) =~= y);
        assert(trees(names, args) =~= seq![tree(names, args[0])] + trees(names, tail));
    }
}

/// The text of an expression does not begin with a closing parenthesis.
proof fn lemma_first(names: Names, e: Expr)
    requires
        plain_names(names),
    ensures
        expr_text(names, e).len() > 0,
        expr_text(names, e)[0] != ')',
{
    reveal(read);
    let none = Seq::<char>::empty();
    lemma_read(names, e, none);
    let x = expr_text(names, e);
    assert(x + none =~= x);
}

/// The text of a call, read, gives its function and exactly its arguments, in order.
proof fn lemma_read_call(names: Names, func: Expr, args: Seq<Expr>, rest: Seq<char>)
    requires
        plain_names(names),
    ensures
        read_call(
            expr_text(names, func) + "("@ + args_text(names, args) + ")"@ + rest,
        ) == Some((tree(names, func), trees(names, args), rest)),
{
    reveal_strlit("(");
    reveal_strlit(")");
    let f = expr_text(names, func);
    let a = args_text(names, args);
    let close = seq![')'] + rest;
    let r = seq!['('] + (a + close);
    assert(f + "("@ + a + ")"@ + rest =~= f + r);
    assert(r[0] == '(');
    lemma_read(names, func, r);
    assert(r.skip(1) =~= a + close);
    if args.len() == 0 {
        assert(a + close =~= close);
        assert(close[0] == ')');
        assert(close.skip(1) =~= rest);
        assert(trees(names, args) =~= Seq::empty());
    } else {
        lemma_read_list(names, args, rest);
        assert((a + close)[0] == a[0]);
    }
}

/// The line of a call, with or without a register for its result: what it says is the function and
/// exactly the arguments of the statement, in order, and the register.
pub proof fn lemma_call_line(
    em: Emission,
    names: Names,
    dst: Option<VReg>,
    func: Expr,
    args: Seq<Expr>,
) -> (r: (Seq<char>, Seq<char>))
    requires
        plain_names(names),
    ensures
        ({
            let (head, call) = r;
            let after = em.stmt(names, StmtModel::Call { dst, func, args });
            let ready = em.declare_all(names, func).declare_each(names, args);
            &&& dst is None ==> head == ready.text + padding(em.indent)
            &&& dst matches Some(d) ==> head == ready.declare(names, d, Width::W64).text + padding(
                em.indent,
            ) + reg_word(names, d) + seq![' ', '=', ' ']
            &&& after.text == head + call + seq!['\n']
            &&& read_call(call) == Some((tree(names, func), trees(names, args), seq![';']))
        }),
{
    reveal_strlit(";");
    reveal_strlit(" = ");
    reveal_strlit("\n");
    let f = expr_text(names, func) + "("@ + args_text(names, args) + ")"@;
    let call = f + seq![';'];
    lemma_read_call(names, func, args, seq![';']);
    let ready = em.declare_all(names, func).declare_each(names, args);
    lemma_indent_all(em, names, func);
    lemma_indent_each(em.declare_all(names, func), names, args);
    let after = em.stmt(names, StmtModel::Call { dst, func, args });
    match dst {
        Some(d) => {
            lemma_words(names, d, 0, 0, Width::W8);
            let head = ready.declare(names, d, Width::W64).text + padding(em.indent) + reg_word(
                names,
                d,
            ) + seq![' ', '=', ' '];
            assert(after.text =~= head + call + seq!['\n']);
            (head, call)
        },
        None => {
            let head = ready.text + padding(em.indent);
            assert(after.text =~= head + call + seq!['\n']);
            (head, call)
        },
    }
}

proof fn lemma_indent_all(em: Emission, names: Names, e: Expr)
    ensures
        em.declare_all(names, e).indent == em.indent,
    decreases e,
{
    match e {
        Expr::BinOp(_, l, r) => {
            lemma_indent_all(em, names, *l);
            lemma_indent_all(em.declare_all(names, *l), names, *r);
        },
        Expr::UnOp(_, inner) => {
            lemma_indent_all(em, names, *inner);
        },
        Expr::Load(addr, _) => {
            lemma_indent_all(em, names, *addr);
        },
        _ => {},
    }
}

proof fn lemma_indent_each(em: Emission, names: Names, es: Seq<Expr>)
    ensures
        em.declare_each(names, es).indent == em.indent,
    decreases es.len(),
{
    if es.len() > 0 {
        lemma_indent_each(em, names, es.drop_last());
        lemma_indent_all(em.declare_each(names, es.drop_last()), names, es.last());
    }
}

/// The line of an assignment says which register gets which expression.
pub proof fn lemma_assign_line(em: Emission, names: Names, dst: VReg, e: Expr) -> (x: Seq<char>)
    requires
        plain_names(names),
    ensures
        em.stmt(names, StmtModel::Assign(dst, e)).text == em.declare(
            names,
            dst,
            e.value_width(),
        ).declare_all(names, e).text + padding(em.indent) + reg_word(names, dst) + seq![
            ' ',
            '=',
            ' ',
        ] + x + seq!['\n'],
        read(x) == Some((tree(names, e), seq![';'])),
{
    reveal_strlit(";");
    reveal_strlit(" = ");
    reveal_strlit("\n");
    let x = expr_text(names, e) + seq![';'];
    lemma_read(names, e, seq![';']);
    lemma_words(names, dst, 0, 0, Width::W8);
    let ready = em.declare(names, dst, e.value_width());
    lemma_indent_all(ready, names, e);
    let head = ready.declare_all(names, e).text + padding(em.indent);
    assert(em.stmt(names, StmtModel::Assign(dst, e)).text =~= head + reg_word(names, dst) + seq![
        ' ',
        '=',
        ' ',
    ] + x + seq!['\n']);
    x
}

/// The line of a store says in which type and to which address which expression goes.
#[verifier::rlimit(40)]
pub proof fn lemma_store_line(
    em: Emission,
    names: Names,
    addr: Expr,
    val: Expr,
    width: Width,
) -> (r: (Seq<char>, Seq<char>))
    requires
        plain_names(names),
    ensures
        ({
            let (x, y) = r;
            &&& em.stmt(names, StmtModel::Store { addr, val, width }).text == em.declare_all(
                names,
                addr,
            ).declare_all(names, val).text + padding(em.indent) + seq!['*', '('] + unsigned_type(
                width,
            ) + seq![' ', '*', ')'] + x + seq!['\n']
            &&& read(x) == Some((tree(names, addr), seq![' ', '=', ' '] + y))
            &&& read(y) == Some((tree(names, val), seq![';']))
        }),
{
    reveal_strlit(";");
    reveal_strlit(" = ");
    reveal_strlit("\n");
    reveal_strlit("*(");
    reveal_strlit(" *)");
    let y = expr_text(names, val) + seq![';'];
    let x = expr_text(names, addr) + (seq![' ', '=', ' '] + y);
    lemma_read(names, val, seq![';']);
    assert((seq![' ', '=', ' '] + y)[0] == ' ');
    lemma_read(names, addr, seq![' ', '=', ' '] + y);
    lemma_types(width);
    lemma_indent_all(em, names, addr);
    lemma_indent_all(em.declare_all(names, addr), names, val);
    let head = em.declare_all(names, addr).declare_all(names, val).text + padding(em.indent);
    let a = expr_text(names, addr);
    let b = expr_text(names, val);
    assert("*("@ =~= seq!['*', '(']);
    assert(" *)"@ =~= seq![' ', '*', ')']);
    assert("*("@ + width.c_name() + " *)"@ + a + " = "@ + b + ";"@ =~= seq!['*', '(']
        + unsigned_type(width) + seq![' ', '*', ')'] + x);
    assert(em.stmt(names, StmtModel::Store { addr, val, width }).text =~= head + seq!['*', '(']
        + unsigned_type(width) + seq![' ', '*', ')'] + x + seq!['\n']);
    (x, y)
}

/// The line of a return says which expression is given back, where there is one; that of an
/// indirect jump to which expression it goes.
pub proof fn lemma_leaving_lines(em: Emission, names: Names, e: Expr) -> (r: (Seq<char>, Seq<char>))
    requires
        plain_names(names),
    ensures
        ({
            let (x, y) = r;
            let head = em.declare_all(names, e).text + padding(em.indent);
            &&& em.stmt(names, StmtModel::Return(Some(e))).text == head + seq![
                'r',
                'e',
                't',
                'u',
                'r',
                'n',
                ' ',
            ] + x + seq!['\n']
            &&& read(x) == Some((tree(names, e), seq![';']))
            &&& em.stmt(names, StmtModel::IndirectJump(e)).text == head + seq![
                'g',
                'o',
                't',
                'o',
                ' ',
                '*',
            ] + y + seq!['\n']
            &&& y == seq!['(', '(', 'v', 'o', 'i', 'd', ' ', '*', ')'] + expr_text(names, e) + seq![
                ')',
                ';',
            ]
            &&& em.stmt(names, StmtModel::Return(None)).text == em.text + padding(em.indent) + seq![
                'r',
                'e',
                't',
                'u',
                'r',
                'n',
                ';',
                '\n',
            ]
        }),
{
    reveal_strlit(";");
    reveal_strlit("\n");
    reveal_strlit("return ");
    reveal_strlit("return;");
    reveal_strlit("goto *((void *)");
    reveal_strlit(");");
    let x = expr_text(names, e) + seq![';'];
    let y = seq!['(', '(', 'v', 'o', 'i', 'd', ' ', '*', ')'] + expr_text(names, e) + seq![
        ')',
        ';',
    ];
    lemma_read(names, e, seq![';']);
    lemma_indent_all(em, names, e);
    let head = em.declare_all(names, e).text + padding(em.indent);
    assert(em.stmt(names, StmtModel::Return(Some(e))).text =~= head + seq![
        'r',
        'e',
        't',
        'u',
        'r',
        'n',
        ' ',
    ] + x + seq!['\n']);
    assert(em.stmt(names, StmtModel::IndirectJump(e)).text =~= head + seq![
        'g',
        'o',
        't',
        'o',
        ' ',
        '*',
    ] + y + seq!['\n']);
    assert(em.stmt(names, StmtModel::Return(None)).text =~= em.text + padding(em.indent) + seq![
        'r',
        'e',
        't',
        'u',
        'r',
        'n',
        ';',
        '\n',
    ]);
    (x, y)
}

/// Statements that pass control on within the function, and those without effect, give no line;
/// what is not known is named in a comment.
pub proof fn lemma_other_lines(em: Emission, names: Names, s: StmtModel)
    ensures
        s is Nop || s is Jump || s is Branch ==> em.stmt(names, s) == em,
        s matches StmtModel::Unhandled(what) ==> em.stmt(names, s).text == em.text + padding(
            em.indent,
        ) + seq!['/', '*', ' ', 'u', 'n', 'h', 'a', 'n', 'd', 'l', 'e', 'd', ':', ' '] + what + seq![
            ' ',
            '*',
            '/',
            '\n',
        ],
{
    if let StmtModel::Unhandled(what) = s {
        reveal_strlit("/* unhandled: ");
        reveal_strlit(" */");
        reveal_strlit("\n");
        assert(em.stmt(names, s).text =~= em.text + padding(em.indent) + seq![
            '/',
            '*',
            ' ',
            'u',
            'n',
            'h',
            'a',
            'n',
            'd',
            'l',
            'e',
            'd',
            ':',
            ' ',
        ] + what + seq![' ', '*', '/', '\n']);
    }
}

/// The line of a declaration: the type of the register and its name, once.
pub proof fn lemma_declaration(em: Emission, names: Names, r: VReg, w: Width)
    requires
        plain_names(names),
    ensures
        em.declare(names, r, w).declared == em.declared.insert(r.0),
        em.declared.contains(r.0) ==> em.declare(names, r, w).text == em.text,
        !em.declared.contains(r.0) ==> em.declare(names, r, w).text == em.text + padding(em.indent)
            + unsigned_type(w) + seq![' '] + reg_word(names, r) + seq![';', '\n'],
{
    reveal_strlit(" ");
    reveal_strlit(";");
    reveal_strlit("\n");
    lemma_types(w);
    lemma_words(names, r, 0, 0, w);
    if em.declared.contains(r.0) {
        assert(em.declared.insert(r.0) =~= em.declared);
    } else {
        assert(em.declare(names, r, w).text =~= em.text + padding(em.indent) + unsigned_type(w)
            + seq![' '] + reg_word(names, r) + seq![';', '\n']);
    }
}

/// Everything that an expression mentions is declared, and nothing else.
proof fn lemma_declared_all(em: Emission, names: Names, e: Expr)
    ensures
        em.declare_all(names, e).declared == em.declared.union(regs_of(e)),
    decreases e,
{
    match e {
        Expr::Reg(r, w) => {
            assert(em.declare_all(names, e).declared =~= em.declared.union(regs_of(e)));
        },
        Expr::BinOp(_, l, r) => {
            lemma_declared_all(em, names, *l);
            lemma_declared_all(em.declare_all(names, *l), names, *r);
            assert(em.declare_all(names, e).declared =~= em.declared.union(regs_of(e)));
        },
        Expr::UnOp(_, inner) => {
            lemma_declared_all(em, names, *inner);
        },
        Expr::Load(addr, _) => {
            lemma_declared_all(em, names, *addr);
        },
        _ => {
            assert(em.declare_all(names, e).declared =~= em.declared.union(regs_of(e)));
        },
    }
}

proof fn lemma_declared_each(em: Emission, names: Names, es: Seq<Expr>)
    ensures
        em.declare_each(names, es).declared == em.declared.union(regs_of_all(es)),
    decreases es.len(),
{
    if es.len() > 0 {
        lemma_declared_each(em, names, es.drop_last());
        lemma_declared_all(em.declare_each(names, es.drop_last()), names, es.last());
    }
    assert(em.declare_each(names, es).declared =~= em.declared.union(regs_of_all(es)));
}

/// Behind a statement its registers are declared, those that it reads and the one that it assigns,
/// and those declared before it, and no others.
pub proof fn lemma_declared(em: Emission, names: Names, s: StmtModel)
    ensures
        em.stmt(names, s).declared == em.declared.union(
            match s {
                StmtModel::Assign(dst, e) => regs_of(e).insert(dst.0),
                StmtModel::Store { addr, val, width } => regs_of(addr).union(regs_of(val)),
                StmtModel::Call { dst: Some(d), func, args } => regs_of(func).union(
                    regs_of_all(args),
                ).insert(d.0),
                StmtModel::Call { dst: None, func, args } => regs_of(func).union(regs_of_all(args)),
                StmtModel::Return(Some(e)) => regs_of(e),
                StmtModel::IndirectJump(e) => regs_of(e),
                _ => Set::empty(),
            },
        ),
{
    match s {
        StmtModel::Assign(dst, e) => {
            lemma_declared_all(em.declare(names, dst, e.value_width()), names, e);
            assert(em.stmt(names, s).declared =~= em.declared.union(regs_of(e).insert(dst.0)));
        },
        StmtModel::Store { addr, val, width } => {
            lemma_declared_all(em, names, addr);
            lemma_declared_all(em.declare_all(names, addr), names, val);
            assert(em.stmt(names, s).declared =~= em.declared.union(
                regs_of(addr).union(regs_of(val)),
            ));
        },
        StmtModel::Call { dst, func, args } => {
            lemma_declared_all(em, names, func);
            lemma_declared_each(em.declare_all(names, func), names, args);
            let all = regs_of(func).union(regs_of_all(args));
            match dst {
                Some(d) => {
                    assert(em.stmt(names, s).declared =~= em.declared.union(all.insert(d.0)));
                },
                None => {
                    assert(em.stmt(names, s).declared =~= em.declared.union(all));
                },
            }
        },
        StmtModel::Return(Some(e)) => {
            lemma_declared_all(em, names, e);
        },
        StmtModel::IndirectJump(e) => {
            lemma_declared_all(em, names, e);
        },
        _ => {
            assert(em.declared.union(Set::empty()) =~= em.declared);
        },
    }
}

/// The line of a call whatever the names are: behind the register, where there is one, stand the
/// function and in parentheses the text of every argument.
pub proof fn lemma_call_text(
    em: Emission,
    names: Names,
    dst: Option<VReg>,
    func: Expr,
    args: Seq<Expr>,
)
    ensures
        ({
            let after = em.stmt(names, StmtModel::Call { dst, func, args });
            let ready = em.declare_all(names, func).declare_each(names, args);
            let call = expr_text(names, func) + seq!['('] + args_text(names, args) + seq![
                ')',
                ';',
                '\n',
            ];
            &&& dst is None ==> after.text == ready.text + padding(em.indent) + call
            &&& dst matches Some(d) ==> after.text == ready.declare(names, d, Width::W64).text
                + padding(em.indent) + names.reg(d) + seq![' ', '=', ' '] + call
        }),
        args.len() == 0 ==> args_text(names, args).len() == 0,
        args.len() == 1 ==> args_text(names, args) == expr_text(names, args[0]),
        args.len() > 1 ==> args_text(names, args) == expr_text(names, args[0]) + seq![',', ' ']
            + args_text(names, args.skip(1)),
{
    reveal_strlit("(");
    reveal_strlit(")");
    reveal_strlit(";");
    reveal_strlit(" = ");
    reveal_strlit("\n");
    if args.len() > 1 {
        lemma_args_front(names, args);
    }
    let after = em.stmt(names, StmtModel::Call { dst, func, args });
    let ready = em.declare_all(names, func).declare_each(names, args);
    let call = expr_text(names, func) + seq!['('] + args_text(names, args) + seq![')', ';', '\n'];
    lemma_indent_all(em, names, func);
    lemma_indent_each(em.declare_all(names, func), names, args);
    match dst {
        Some(d) => {
            assert(after.text =~= ready.declare(names, d, Width::W64).text + padding(em.indent)
                + names.reg(d) + seq![' ', '=', ' '] + call);
        },
        None => {
            assert(after.text =~= ready.text + padding(em.indent) + call);
        },
    }
}

} // verus!
