//! Which registers become the parameters of a function.
use vstd::prelude::*;

use super::model::{
    param_name, param_names, param_regs, reads_of_expr, reads_of_exprs, reads_of_stmt,
    reads_of_stmts, writes_of_stmts,
};
use crate::ir::reads::regs_of;
use crate::ir::{BlockModel, Expr, StmtModel};

verus! {

/// The registers that an expression mentions, from left to right.
pub open spec fn mentions(e: Expr) -> Seq<u32>
    decreases e,
{
    match e {
        Expr::Reg(r, _) => seq![r.0],
        Expr::BinOp(_, l, r) => mentions(*l) + mentions(*r),
        Expr::UnOp(_, inner) => mentions(*inner),
        Expr::Load(addr, _) => mentions(*addr),
        Expr::Const(..) => Seq::empty(),
        Expr::StackSlot(..) => Seq::empty(),
        Expr::Addr(_) => Seq::empty(),
    }
}

/// The registers that the expressions mention, one expression behind the other.
pub open spec fn all_mentions(es: Seq<Expr>) -> Seq<u32>
    decreases es.len(),
{
    if es.len() == 0 {
        Seq::empty()
    } else {
        all_mentions(es.drop_last()) + mentions(es.last())
    }
}

/// The expressions of a statement whose registers count: value, address, callee, arguments,
/// returned value and condition.
pub open spec fn operands(s: StmtModel) -> Seq<Expr> {
    match s {
        StmtModel::Assign(_, e) => seq![e],
        StmtModel::Store { addr, val, width } => seq![addr, val],
        StmtModel::Call { dst, func, args } => seq![func] + args,
        StmtModel::Return(Some(e)) => seq![e],
        StmtModel::Branch { cond, true_id, false_id } => seq![cond],
        _ => Seq::empty(),
    }
}

/// Some operand of the statement mentions the register.
pub open spec fn uses(s: StmtModel, r: u32) -> bool {
    exists|k: int| 0 <= k < operands(s).len() && #[trigger] regs_of(operands(s)[k]).contains(r)
}

/// The statement gives the register a value.
pub open spec fn assigns(s: StmtModel, r: u32) -> bool {
    match s {
        StmtModel::Assign(dst, _) => dst.0 == r,
        StmtModel::Call { dst: Some(dst), .. } => dst.0 == r,
        _ => false,
    }
}

/// Statement `i` uses the register, and no statement before it assigns it.
pub open spec fn needs(stmts: Seq<StmtModel>, i: int, r: u32) -> bool {
    &&& 0 <= i < stmts.len() && uses(stmts[i], r)
    &&& forall|j: int| 0 <= j < i ==> !assigns(#[trigger] stmts[j], r)
}

/// The register may become a parameter: its value comes from outside.
pub open spec fn candidate(stmts: Seq<StmtModel>, r: u32) -> bool {
    exists|i: int| #[trigger] needs(stmts, i, r)
}

/// `r` stands in the list at a place up to which `q` does not.
pub open spec fn before_in(list: Seq<u32>, r: u32, q: u32) -> bool {
    exists|x: int|
        0 <= x < list.len() && #[trigger] list[x] == r && forall|z: int|
            0 <= z <= x ==> #[trigger] list[z] != q
}

/// Statement `i` mentions `r`, and up to that place nothing mentions `q`.
pub open spec fn sooner_at(stmts: Seq<StmtModel>, i: int, r: u32, q: u32) -> bool {
    &&& 0 <= i < stmts.len() && before_in(all_mentions(operands(stmts[i])), r, q)
    &&& forall|j: int| 0 <= j < i ==> !uses(#[trigger] stmts[j], q)
}

/// `r` is mentioned before `q` is.
pub open spec fn sooner(stmts: Seq<StmtModel>, r: u32, q: u32) -> bool {
    exists|i: int| #[trigger] sooner_at(stmts, i, r, q)
}

/// The registers of the list that are neither there yet nor written, put behind the others.
spec fn absorb(list: Seq<u32>, reads: Seq<u32>, written: Set<u32>) -> Seq<u32>
    decreases list.len(),
{
    if list.len() == 0 {
        reads
    } else {
        let rest = absorb(list.drop_last(), reads, written);
        let r = list.last();
        if !written.contains(r) && !rest.contains(r) {
            rest.push(r)
        } else {
            rest
        }
    }
}

proof fn lemma_absorb_joined(a: Seq<u32>, b: Seq<u32>, reads: Seq<u32>, written: Set<u32>)
    ensures
        absorb(a + b, reads, written) == absorb(b, absorb(a, reads, written), written),
    decreases b.len(),
{
    if b.len() == 0 {
        assert(a + b =~= a);
    } else {
        assert((a + b).drop_last() =~= a + b.drop_last());
        assert((a + b).last() == b.last());
        lemma_absorb_joined(a, b.drop_last(), reads, written);
    }
}

proof fn lemma_reads_of_expr(e: Expr, reads: Seq<u32>, written: Set<u32>)
    ensures
        reads_of_expr(e, reads, written) == absorb(mentions(e), reads, written),
    decreases e,
{
    match e {
        Expr::Reg(r, _) => {
            let list = seq![r.0];
            assert(list.drop_last() =~= Seq::empty());
            assert(list.last() == r.0);
            assert(absorb(list.drop_last(), reads, written) == reads);
        },
        Expr::BinOp(_, l, r) => {
            lemma_reads_of_expr(*l, reads, written);
            lemma_reads_of_expr(*r, reads_of_expr(*l, reads, written), written);
            lemma_absorb_joined(mentions(*l), mentions(*r), reads, written);
        },
        Expr::UnOp(_, inner) => {
            lemma_reads_of_expr(*inner, reads, written);
        },
        Expr::Load(addr, _) => {
            lemma_reads_of_expr(*addr, reads, written);
        },
        _ => {},
    }
}

proof fn lemma_reads_of_exprs(es: Seq<Expr>, reads: Seq<u32>, written: Set<u32>)
    ensures
        reads_of_exprs(es, reads, written) == absorb(all_mentions(es), reads, written),
    decreases es.len(),
{
    if es.len() > 0 {
        let rest = es.drop_last();
        lemma_reads_of_exprs(rest, reads, written);
        lemma_reads_of_expr(es.last(), reads_of_exprs(rest, reads, written), written);
        lemma_absorb_joined(all_mentions(rest), mentions(es.last()), reads, written);
    }
}

proof fn lemma_one(e: Expr)
    ensures
        all_mentions(seq![e]) == mentions(e),
{
    assert(seq![e].drop_last() =~= Seq::empty());
    assert(all_mentions(seq![e].drop_last()) =~= Seq::empty());
    assert(all_mentions(seq![e]) =~= mentions(e));
}

proof fn lemma_all_joined(a: Seq<Expr>, b: Seq<Expr>)
    ensures
        all_mentions(a + b) == all_mentions(a) + all_mentions(b),
    decreases b.len(),
{
    if b.len() == 0 {
        assert(a + b =~= a);
        assert(all_mentions(a) + all_mentions(b) =~= all_mentions(a));
    } else {
        assert((a + b).drop_last() =~= a + b.drop_last());
        lemma_all_joined(a, b.drop_last());
        assert(all_mentions(a) + (all_mentions(b.drop_last()) + mentions(b.last())) =~= (
        all_mentions(a) + all_mentions(b.drop_last())) + mentions(b.last()));
    }
}

proof fn lemma_reads_of_stmt(s: StmtModel, reads: Seq<u32>, written: Set<u32>)
    ensures
        reads_of_stmt(s, reads, written) == absorb(all_mentions(operands(s)), reads, written),
{
    match s {
        StmtModel::Assign(_, e) => {
            lemma_one(e);
            lemma_reads_of_expr(e, reads, written);
        },
        StmtModel::Store { addr, val, width } => {
            lemma_one(addr);
            lemma_one(val);
            lemma_all_joined(seq![addr], seq![val]);
            assert(seq![addr, val] =~= seq![addr] + seq![val]);
            lemma_absorb_joined(mentions(addr), mentions(val), reads, written);
            lemma_reads_of_expr(addr, reads, written);
            lemma_reads_of_expr(val, reads_of_expr(addr, reads, written), written);
        },
        StmtModel::Call { dst, func, args } => {
            lemma_one(func);
            lemma_all_joined(seq![func], args);
            lemma_absorb_joined(mentions(func), all_mentions(args), reads, written);
            lemma_reads_of_expr(func, reads, written);
            lemma_reads_of_exprs(args, reads_of_expr(func, reads, written), written);
        },
        StmtModel::Return(Some(e)) => {
            lemma_one(e);
            lemma_reads_of_expr(e, reads, written);
        },
        StmtModel::Branch { cond, true_id, false_id } => {
            lemma_one(cond);
            lemma_reads_of_expr(cond, reads, written);
        },
        _ => {},
    }
}

proof fn lemma_joined(s: Seq<u32>, t: Seq<u32>, x: u32)
    ensures
        (s + t).contains(x) <==> s.contains(x) || t.contains(x),
{
    if s.contains(x) {
        let i = choose|i: int| 0 <= i < s.len() && s[i] == x;
        assert((s + t)[i] == x);
    }
    if t.contains(x) {
        let i = choose|i: int| 0 <= i < t.len() && t[i] == x;
        assert((s + t)[s.len() + i] == x);
    }
}

proof fn lemma_mentions(e: Expr, r: u32)
    ensures
        mentions(e).contains(r) <==> regs_of(e).contains(r),
    decreases e,
{
    match e {
        Expr::Reg(v, _) => {
            assert(seq![v.0][0] == v.0);
        },
        Expr::BinOp(_, a, b) => {
            lemma_mentions(*a, r);
            lemma_mentions(*b, r);
            lemma_joined(mentions(*a), mentions(*b), r);
        },
        Expr::UnOp(_, inner) => {
            lemma_mentions(*inner, r);
        },
        Expr::Load(addr, _) => {
            lemma_mentions(*addr, r);
        },
        _ => {},
    }
}

proof fn lemma_all_mentions(es: Seq<Expr>, r: u32)
    ensures
        all_mentions(es).contains(r) <==> exists|k: int|
            0 <= k < es.len() && #[trigger] regs_of(es[k]).contains(r),
    decreases es.len(),
{
    if es.len() > 0 {
        let rest = es.drop_last();
        lemma_all_mentions(rest, r);
        lemma_mentions(es.last(), r);
        lemma_joined(all_mentions(rest), mentions(es.last()), r);
        if all_mentions(rest).contains(r) {
            let k = choose|k: int| 0 <= k < rest.len() && #[trigger] regs_of(rest[k]).contains(r);
            assert(regs_of(es[k]).contains(r));
        }
        if exists|k: int| 0 <= k < es.len() && #[trigger] regs_of(es[k]).contains(r) {
            let k = choose|k: int| 0 <= k < es.len() && #[trigger] regs_of(es[k]).contains(r);
            if k < rest.len() {
                assert(regs_of(rest[k]).contains(r));
            }
        }
        if mentions(es.last()).contains(r) {
            assert(regs_of(es[es.len() - 1]).contains(r));
        }
    }
}

proof fn lemma_uses(s: StmtModel, r: u32)
    ensures
        uses(s, r) <==> all_mentions(operands(s)).contains(r),
{
    lemma_all_mentions(operands(s), r);
}

proof fn lemma_pushed(s: Seq<u32>, x: u32, r: u32)
    ensures
        s.push(x).contains(r) <==> s.contains(r) || r == x,
{
    if s.contains(r) {
        let i = choose|i: int| 0 <= i < s.len() && s[i] == r;
        assert(s.push(x)[i] == r);
    }
    assert(s.push(x)[s.len() as int] == x);
}

/// What absorbing a list adds.
proof fn lemma_absorb(list: Seq<u32>, reads: Seq<u32>, written: Set<u32>)
    requires
        reads.no_duplicates(),
    ensures
        absorb(list, reads, written).no_duplicates(),
        absorb(list, reads, written).len() >= reads.len(),
        absorb(list, reads, written).take(reads.len() as int) == reads,
        forall|r: u32| #[trigger]
            absorb(list, reads, written).contains(r) <==> reads.contains(r) || list.contains(r)
                && !written.contains(r),
        forall|a: int, b: int|
            reads.len() <= a < b < absorb(list, reads, written).len() ==> before_in(
                list,
                #[trigger] absorb(list, reads, written)[a],
                #[trigger] absorb(list, reads, written)[b],
            ),
    decreases list.len(),
{
    let all = absorb(list, reads, written);
    if list.len() == 0 {
        assert(all.take(reads.len() as int) =~= reads);
    } else {
        let short = list.drop_last();
        let rest = absorb(short, reads, written);
        let x = list.last();
        lemma_absorb(short, reads, written);
        assert(list =~= short.push(x));
        assert(all.take(reads.len() as int) =~= rest.take(reads.len() as int));
        assert forall|r: u32| #[trigger] all.contains(r) <==> reads.contains(r) || list.contains(r)
            && !written.contains(r) by {
            lemma_pushed(short, x, r);
            lemma_pushed(rest, x, r);
            assert(rest.contains(r) <==> reads.contains(r) || short.contains(r)
                && !written.contains(r));
        }
        assert forall|a: int, b: int| reads.len() <= a < b < all.len() implies before_in(
            list,
            #[trigger] all[a],
            #[trigger] all[b],
        ) by {
            let r = all[a];
            let q = all[b];
            if b < rest.len() {
                assert(rest[a] == r && rest[b] == q);
                let p = choose|p: int|
                    0 <= p < short.len() && #[trigger] short[p] == r && forall|z: int|
                        0 <= z <= p ==> #[trigger] short[z] != q;
                assert(list[p] == r);
                assert forall|z: int| 0 <= z <= p implies #[trigger] list[z] != q by {
                    assert(short[z] == list[z]);
                }
            } else {
                assert(q == x && rest[a] == r);
                assert(rest.contains(r));
                assert(!reads.contains(r)) by {
                    if reads.contains(r) {
                        let c = choose|c: int| 0 <= c < reads.len() && reads[c] == r;
                        assert(rest.take(reads.len() as int)[c] == r);
                        assert(rest[c] == rest[a]);
                    }
                }
                assert(short.contains(r));
                let p = choose|p: int| 0 <= p < short.len() && short[p] == r;
                assert(list[p] == r);
                assert(!rest.contains(q));
                assert(!short.contains(q));
                assert forall|z: int| 0 <= z <= p implies #[trigger] list[z] != q by {
                    assert(short[z] == list[z]);
                }
            }
        }
    }
}

proof fn lemma_writes(stmts: Seq<StmtModel>, r: u32)
    ensures
        writes_of_stmts(stmts).contains(r) <==> exists|j: int|
            0 <= j < stmts.len() && assigns(#[trigger] stmts[j], r),
    decreases stmts.len(),
{
    if stmts.len() > 0 {
        let rest = stmts.drop_last();
        lemma_writes(rest, r);
        if exists|j: int| 0 <= j < rest.len() && assigns(#[trigger] rest[j], r) {
            let j = choose|j: int| 0 <= j < rest.len() && assigns(#[trigger] rest[j], r);
            assert(assigns(stmts[j], r));
        }
        if exists|j: int| 0 <= j < stmts.len() && assigns(#[trigger] stmts[j], r) {
            let j = choose|j: int| 0 <= j < stmts.len() && assigns(#[trigger] stmts[j], r);
            if j < rest.len() {
                assert(assigns(rest[j], r));
            }
        }
        assert(stmts[stmts.len() - 1] == stmts.last());
    }
}

/// The registers read from outside are the candidates, each once, in the order in which they are
/// first mentioned.
pub proof fn lemma_candidates(stmts: Seq<StmtModel>)
    ensures
        reads_of_stmts(stmts).no_duplicates(),
        forall|r: u32| #[trigger] reads_of_stmts(stmts).contains(r) <==> candidate(stmts, r),
        forall|a: int, b: int|
            0 <= a < b < reads_of_stmts(stmts).len() ==> sooner(
                stmts,
                #[trigger] reads_of_stmts(stmts)[a],
                #[trigger] reads_of_stmts(stmts)[b],
            ),
    decreases stmts.len(),
{
    if stmts.len() > 0 {
        let rest = stmts.drop_last();
        let n = rest.len() as int;
        let s = stmts.last();
        let reads = reads_of_stmts(rest);
        let written = writes_of_stmts(rest);
        let all = reads_of_stmts(stmts);
        let list = all_mentions(operands(s));
        lemma_candidates(rest);
        lemma_reads_of_stmt(s, reads, written);
        lemma_absorb(list, reads, written);
        assert forall|r: u32| #[trigger] all.contains(r) <==> candidate(stmts, r) by {
            lemma_uses(s, r);
            lemma_writes(rest, r);
            lemma_candidate_more(stmts, r);
            assert(reads.contains(r) <==> candidate(rest, r));
        }
        assert forall|a: int, b: int| 0 <= a < b < all.len() implies sooner(
            stmts,
            #[trigger] all[a],
            #[trigger] all[b],
        ) by {
            let r = all[a];
            let q = all[b];
            if b < reads.len() {
                assert(all.take(reads.len() as int)[a] == r && all.take(reads.len() as int)[b]
                    == q);
                let i = choose|i: int| #[trigger] sooner_at(rest, i, reads[a], reads[b]);
                assert(rest[i] == stmts[i]);
                assert forall|j: int| 0 <= j < i implies !uses(#[trigger] stmts[j], q) by {
                    assert(rest[j] == stmts[j]);
                }
                assert(sooner_at(stmts, i, r, q));
            } else {
                assert(!reads.contains(q)) by {
                    if reads.contains(q) {
                        let c = choose|c: int| 0 <= c < reads.len() && reads[c] == q;
                        assert(all.take(reads.len() as int)[c] == q);
                        assert(all[c] == all[b]);
                    }
                }
                assert(all.contains(q));
                assert(!written.contains(q));
                assert(!candidate(rest, q));
                lemma_writes(rest, q);
                assert forall|j: int| 0 <= j < n implies !uses(#[trigger] stmts[j], q) by {
                    assert(rest[j] == stmts[j]);
                    if uses(rest[j], q) {
                        assert(needs(rest, j, q));
                    }
                }
                if a < reads.len() {
                    assert(all.take(reads.len() as int)[a] == r);
                    assert(reads.contains(r));
                    let i = choose|i: int| #[trigger] needs(rest, i, r);
                    assert(rest[i] == stmts[i]);
                    lemma_uses(stmts[i], r);
                    lemma_uses(stmts[i], q);
                    let here = all_mentions(operands(stmts[i]));
                    let x = choose|x: int| 0 <= x < here.len() && here[x] == r;
                    assert(here[x] == r);
                    assert(!uses(stmts[i], q));
                    assert(before_in(here, r, q));
                    assert(sooner_at(stmts, i, r, q));
                } else {
                    assert(sooner_at(stmts, n, r, q));
                }
            }
        }
    }
}

proof fn lemma_candidate_more(stmts: Seq<StmtModel>, r: u32)
    requires
        stmts.len() > 0,
    ensures
        candidate(stmts, r) <==> candidate(stmts.drop_last(), r) || uses(stmts.last(), r) && !exists|
            j: int,
        |
            0 <= j < stmts.drop_last().len() && assigns(#[trigger] stmts.drop_last()[j], r),
{
    let rest = stmts.drop_last();
    let n = rest.len() as int;
    if candidate(rest, r) {
        let i = choose|i: int| #[trigger] needs(rest, i, r);
        assert(rest[i] == stmts[i]);
        assert forall|j: int| 0 <= j < i implies !assigns(#[trigger] stmts[j], r) by {
            assert(rest[j] == stmts[j]);
        }
        assert(needs(stmts, i, r));
    }
    if uses(stmts.last(), r) && !exists|j: int|
        0 <= j < rest.len() && assigns(#[trigger] rest[j], r) {
        assert forall|j: int| 0 <= j < n implies !assigns(#[trigger] stmts[j], r) by {
            assert(rest[j] == stmts[j]);
        }
        assert(needs(stmts, n, r));
    }
    if candidate(stmts, r) {
        let i = choose|i: int| #[trigger] needs(stmts, i, r);
        if i < n {
            assert(rest[i] == stmts[i]);
            assert forall|j: int| 0 <= j < i implies !assigns(#[trigger] rest[j], r) by {
                assert(rest[j] == stmts[j]);
            }
            assert(needs(rest, i, r));
        } else {
            assert forall|j: int| 0 <= j < n implies !assigns(#[trigger] rest[j], r) by {
                assert(rest[j] == stmts[j]);
            }
        }
    }
}

/// The parameters of a function are the first six of the registers that its first block reads from
/// outside: each of them is one, each stands once, an earlier one is mentioned sooner, and while
/// there are fewer than six no candidate is left out; one that is left out is mentioned later than
/// all of them.
pub proof fn lemma_parameters(blocks: Seq<BlockModel>)
    requires
        blocks.len() > 0,
    ensures
        param_regs(blocks).len() <= 6,
        param_regs(blocks).no_duplicates(),
        forall|r: u32| #[trigger]
            param_regs(blocks).contains(r) ==> candidate(blocks[0].stmts, r),
        forall|r: u32|
            param_regs(blocks).len() < 6 && candidate(blocks[0].stmts, r) ==> #[trigger] param_regs(
                blocks,
            ).contains(r),
        forall|a: int, b: int|
            0 <= a < b < param_regs(blocks).len() ==> sooner(
                blocks[0].stmts,
                #[trigger] param_regs(blocks)[a],
                #[trigger] param_regs(blocks)[b],
            ),
        forall|r: u32, a: int|
            candidate(blocks[0].stmts, r) && !param_regs(blocks).contains(r) && 0 <= a
                < param_regs(blocks).len() ==> #[trigger] sooner(
                blocks[0].stmts,
                param_regs(blocks)[a],
                r,
            ),
{
    let stmts = blocks[0].stmts;
    let reads = reads_of_stmts(stmts);
    let regs = param_regs(blocks);
    lemma_candidates(stmts);
    assert forall|r: u32| #[trigger] regs.contains(r) implies candidate(stmts, r) by {
        let i = choose|i: int| 0 <= i < regs.len() && regs[i] == r;
        assert(reads[i] == r);
        assert(reads.contains(r));
    }
    assert forall|r: u32| regs.len() < 6 && candidate(stmts, r) implies #[trigger] regs.contains(
        r,
    ) by {
        assert(reads.contains(r));
    }
    assert forall|a: int, b: int| 0 <= a < b < regs.len() implies sooner(
        stmts,
        #[trigger] regs[a],
        #[trigger] regs[b],
    ) by {
        assert(reads[a] == regs[a] && reads[b] == regs[b]);
    }
    assert forall|r: u32, a: int|
        candidate(stmts, r) && !regs.contains(r) && 0 <= a < regs.len() implies #[trigger] sooner(
        stmts,
        regs[a],
        r,
    ) by {
        assert(reads.contains(r));
        let b = choose|b: int| 0 <= b < reads.len() && reads[b] == r;
        if b < regs.len() {
            assert(regs[b] == r);
        }
        assert(reads[a] == regs[a] && reads[b] == r);
    }
}

/// The parameters are named after the registers of the calling convention, in its order.
pub proof fn lemma_parameter_names(regs: Seq<u32>)
    requires
        regs.no_duplicates(),
    ensures
        forall|r: u32| #[trigger] param_names(regs).contains_key(r) <==> regs.contains(r),
        forall|i: int|
            0 <= i < regs.len() ==> #[trigger] param_names(regs)[regs[i]] == param_name(i),
        param_name(0) == "param_rdi"@ && param_name(1) == "param_rsi"@ && param_name(2)
            == "param_rdx"@ && param_name(3) == "param_rcx"@ && param_name(4) == "param_r8"@
            && param_name(5) == "param_r9"@,
    decreases regs.len(),
{
    if regs.len() > 0 {
        let rest = regs.drop_last();
        lemma_parameter_names(rest);
        assert(regs =~= rest.push(regs.last()));
        assert forall|r: u32| #[trigger] param_names(regs).contains_key(r) <==> regs.contains(
            r,
        ) by {
            lemma_pushed(rest, regs.last(), r);
            assert(param_names(rest).contains_key(r) <==> rest.contains(r));
        }
        assert forall|i: int| 0 <= i < regs.len() implies #[trigger] param_names(regs)[regs[i]]
            == param_name(i) by {
            if i < rest.len() {
                assert(rest[i] == regs[i]);
                assert(regs[i] != regs[regs.len() - 1]);
                assert(param_names(rest)[rest[i]] == param_name(i));
            }
        }
    }
}

} // verus!
