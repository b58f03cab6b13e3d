//! The structure of a function passes control on as the terminators of its blocks do.
use vstd::prelude::*;

use super::complete::{
    around, lemma_leave, lemma_opened_add, lemma_region, lemma_single, lemma_turn, opened_by,
    Nesting,
};
use super::flow::{
    asks, beyond, closes, lands, lemma_around_add, lemma_beyond_past, lemma_lands_add,
    lemma_opened_none, lemma_passes_on_add, otherwise, passes_on,
};
use super::laws::{has_block, lemma_block_with};
use super::model::{block_with, entry_of, plan_of};
use super::plan::{Part, Shape, Step};
use crate::analysis::FunctionAnalysis;
use crate::finite::{lemma_outside32, lemma_outside32_subset, outside32};
use crate::ir::{BlockModel, StmtModel};

verus! {

/// The block that control passes to from the end of a block, where `holds` says whether the
/// condition of its branch holds.
pub open spec fn next_of(block: BlockModel, holds: bool) -> Option<u32> {
    match block.terminator() {
        Some(StmtModel::Jump(next)) => Some(next),
        Some(StmtModel::Branch { cond, true_id, false_id }) => Some(
            if holds {
                true_id
            } else {
                false_id
            },
        ),
        _ => None,
    }
}

/// Control arrives at `s` from in front of the steps; behind all of them, where that is `exit`.
spec fn lands_at(
    outer: Option<u32>,
    nest: Nesting,
    steps: Seq<Step>,
    exit: Option<u32>,
    s: u32,
) -> bool {
    ||| forall|fall: Option<u32>| #[trigger] lands(outer, nest, steps, fall) == Some(s)
    ||| exit == Some(s) && forall|fall: Option<u32>| #[trigger]
        lands(outer, nest, steps, fall) == fall
}

/// Control arrives at `s` from behind the statements of block `id`; behind all steps, where that is
/// `exit`.
spec fn passes_to(
    outer: Option<u32>,
    nest: Nesting,
    steps: Seq<Step>,
    id: u32,
    holds: bool,
    exit: Option<u32>,
    s: u32,
) -> bool {
    ||| forall|fall: Option<u32>| #[trigger]
        passes_on(outer, nest, steps, id, holds, fall) == Some(s)
    ||| exit == Some(s) && forall|fall: Option<u32>| #[trigger]
        passes_on(outer, nest, steps, id, holds, fall) == fall
}

/// From behind the statements of block `id` control arrives where the terminator says.
spec fn ends_right(
    sh: Shape,
    outer: Option<u32>,
    nest: Nesting,
    steps: Seq<Step>,
    id: u32,
    exit: Option<u32>,
) -> bool {
    match block_with(sh.blocks, id) {
        None => true,
        Some(block) => forall|holds: bool|
            (#[trigger] next_of(block, holds) matches Some(s) ==> has_block(sh.blocks, s)
                ==> passes_to(outer, nest, steps, id, holds, exit, s)),
    }
}

/// What is open in front of position `i` of the steps.
pub open spec fn nest_at(outer: Option<u32>, steps: Seq<Step>, i: int) -> Nesting {
    opened_by(outer, Some(Seq::empty()), steps.take(i))->0
}

/// So it is at position `i`, where that is the place of a block.
spec fn right_at(
    sh: Shape,
    outer: Option<u32>,
    steps: Seq<Step>,
    i: int,
    exit: Option<u32>,
) -> bool {
    steps[i].writes() matches Some(id) ==> ends_right(
        sh,
        outer,
        nest_at(outer, steps, i + 1),
        steps.skip(i + 1),
        id,
        exit,
    )
}

/// So it is for every block that the steps write.
spec fn flows(sh: Shape, outer: Option<u32>, steps: Seq<Step>, exit: Option<u32>) -> bool {
    forall|i: int| 0 <= i < steps.len() ==> #[trigger] right_at(sh, outer, steps, i, exit)
}

/// Where `x` is a block of the function, control arrives at it from in front of the steps.
spec fn links(
    sh: Shape,
    outer: Option<u32>,
    nest: Nesting,
    steps: Seq<Step>,
    x: Option<u32>,
    y: Option<u32>,
) -> bool {
    x matches Some(s) ==> has_block(sh.blocks, s) ==> lands_at(outer, nest, steps, y, s)
}

proof fn lemma_links_end(sh: Shape, outer: Option<u32>, nest: Nesting, x: Option<u32>)
    ensures
        links(sh, outer, nest, Seq::empty(), x, x),
{
}

/// Further steps behind the steps.
proof fn lemma_ends_add(
    sh: Shape,
    outer: Option<u32>,
    low: Nesting,
    high: Nesting,
    a: Seq<Step>,
    b: Seq<Step>,
    id: u32,
    x: Option<u32>,
    y: Option<u32>,
)
    requires
        closes(around(outer, low), high, a),
        ends_right(sh, around(outer, low), high, a, id, x),
        a.len() > 0 || !asks(b),
        links(sh, outer, low, b, x, y),
    ensures
        ends_right(sh, outer, low + high, a + b, id, y),
{
    if let Some(block) = block_with(sh.blocks, id) {
        assert forall|holds: bool|
            (#[trigger] next_of(block, holds) matches Some(s) ==> has_block(sh.blocks, s)
                ==> passes_to(outer, low + high, a + b, id, holds, y, s)) by {
            if let Some(s) = next_of(block, holds) {
                if has_block(sh.blocks, s) {
                    let inner = around(outer, low);
                    assert(passes_to(inner, high, a, id, holds, x, s));
                    assert forall|fall: Option<u32>| #[trigger]
                        passes_on(outer, low + high, a + b, id, holds, fall) == passes_on(
                            inner,
                            high,
                            a,
                            id,
                            holds,
                            lands(outer, low, b, fall),
                        ) by {
                        lemma_passes_on_add(outer, low, high, a, b, id, holds, fall);
                    }
                }
            }
        }
    }
}

/// The same nesting above what is open below it.
proof fn lemma_opened_shift(outer: Option<u32>, low: Nesting, high: Nesting, steps: Seq<Step>)
    requires
        opened_by(around(outer, low), Some(high), steps) is Some,
    ensures
        opened_by(outer, Some(low + high), steps) == Some(
            low + opened_by(around(outer, low), Some(high), steps)->0,
        ),
    decreases steps.len(),
{
    if steps.len() > 0 {
        let inner = around(outer, low);
        let before = steps.drop_last();
        lemma_opened_shift(outer, low, high, before);
        let nest = opened_by(inner, Some(high), before)->0;
        lemma_around_add(outer, low, nest);
        match steps.last() {
            Step::If(_) => {
                assert((low + nest).push(None) =~= low + nest.push(None));
            },
            Step::While { id, .. } => {
                assert((low + nest).push(Some(id)) =~= low + nest.push(Some(id)));
            },
            Step::Close => {
                assert((low + nest).drop_last() =~= low + nest.drop_last());
            },
            _ => {},
        }
    }
}

/// What is open at a position is closed behind it.
proof fn lemma_split(outer: Option<u32>, steps: Seq<Step>, i: int)
    requires
        closes(outer, Seq::empty(), steps),
        0 <= i <= steps.len(),
    ensures
        opened_by(outer, Some(Seq::empty()), steps.take(i)) is Some,
        closes(outer, nest_at(outer, steps, i), steps.skip(i)),
{
    assert(steps.take(i) + steps.skip(i) =~= steps);
    lemma_opened_add(outer, Some(Seq::empty()), steps.take(i), steps.skip(i));
    lemma_opened_none(outer, steps.skip(i));
}

/// Steps with others around them.
proof fn lemma_within(
    sh: Shape,
    outer: Option<u32>,
    p: Seq<Step>,
    low: Nesting,
    a: Seq<Step>,
    q: Seq<Step>,
    x: Option<u32>,
    y: Option<u32>,
)
    requires
        opened_by(outer, Some(Seq::empty()), p) == Some(low),
        closes(around(outer, low), Seq::empty(), a),
        flows(sh, around(outer, low), a, x),
        !asks(q),
        links(sh, outer, low, q, x, y),
    ensures
        forall|i: int|
            p.len() <= i < p.len() + a.len() ==> #[trigger] right_at(sh, outer, p + a + q, i, y),
{
    let all = p + a + q;
    let inner = around(outer, low);
    assert forall|i: int| p.len() <= i < p.len() + a.len() implies #[trigger] right_at(
        sh,
        outer,
        all,
        i,
        y,
    ) by {
        let k = i - p.len();
        assert(all[i] == a[k]);
        assert(right_at(sh, inner, a, k, x));
        if let Some(id) = a[k].writes() {
            let nest = nest_at(inner, a, k + 1);
            lemma_split(inner, a, k + 1);
            lemma_ends_add(sh, outer, low, nest, a.skip(k + 1), q, id, x, y);
            assert(all.skip(i + 1) =~= a.skip(k + 1) + q);
            assert(all.take(i + 1) =~= p + a.take(k + 1));
            lemma_opened_add(outer, Some(Seq::empty()), p, a.take(k + 1));
            lemma_opened_shift(outer, low, Seq::empty(), a.take(k + 1));
            assert(low + Seq::<Option<u32>>::empty() =~= low);
        }
    }
}

/// One part after the other.
proof fn lemma_flows_add(
    sh: Shape,
    outer: Option<u32>,
    a: Seq<Step>,
    b: Seq<Step>,
    x: Option<u32>,
    y: Option<u32>,
)
    requires
        closes(outer, Seq::empty(), a),
        closes(outer, Seq::empty(), b),
        flows(sh, outer, a, x),
        flows(sh, outer, b, y),
        !asks(b),
        links(sh, outer, Seq::empty(), b, x, y),
    ensures
        flows(sh, outer, a + b, y),
{
    let none = Seq::<Step>::empty();
    let open = Seq::<Option<u32>>::empty();
    lemma_within(sh, outer, none, open, a, b, x, y);
    assert(none + a + b =~= a + b);
    lemma_links_end(sh, outer, open, y);
    lemma_within(sh, outer, a, open, b, none, y, y);
    assert(a + b + none =~= a + b);
}

/// A block in front of the steps that end it.
proof fn lemma_flows_block(
    sh: Shape,
    outer: Option<u32>,
    id: u32,
    led: bool,
    a: Seq<Step>,
    x: Option<u32>,
)
    requires
        closes(outer, Seq::empty(), a),
        flows(sh, outer, a, x),
        ends_right(sh, outer, Seq::empty(), a, id, x),
    ensures
        flows(sh, outer, seq![Step::Block { id, led }] + a, x),
{
    let first = seq![Step::Block { id, led }];
    let none = Seq::<Step>::empty();
    let open = Seq::<Option<u32>>::empty();
    let all = first + a;
    lemma_single(Step::Block { id, led });
    lemma_links_end(sh, outer, open, x);
    lemma_within(sh, outer, first, open, a, none, x, x);
    assert(first + a + none =~= all);
    assert(right_at(sh, outer, all, 0, x)) by {
        assert(all.take(1) =~= first);
        assert(all.skip(1) =~= a);
        assert(opened_by(outer, Some(open), first) == Some(open));
    }
}

/// Where control goes behind a part.
spec fn behind(part: Part, follow: Option<u32>) -> Option<u32> {
    match part.next {
        Some((_, next)) => Some(next),
        None => follow,
    }
}

/// What holds of a region.
spec fn region_flows(
    sh: Shape,
    outer: Option<u32>,
    cur: u32,
    follow: Option<u32>,
    steps: Seq<Step>,
) -> bool {
    &&& closes(outer, Seq::empty(), steps)
    &&& flows(sh, outer, steps, follow)
    &&& !asks(steps)
    &&& links(sh, outer, Seq::empty(), steps, Some(cur), follow)
}

proof fn lemma_region_flows(
    sh: Shape,
    outer: Option<u32>,
    emitted: Set<u32>,
    start: u32,
    cur: u32,
    follow: Option<u32>,
    inner: Option<u32>,
)
    requires
        inner is Some ==> outer == inner,
    ensures
        region_flows(
            sh,
            outer,
            cur,
            follow,
            sh.region(emitted, start, cur, follow, inner).0,
        ),
    decreases outside32(emitted), 0nat,
{
    let open = Seq::<Option<u32>>::empty();
    let all = sh.region(emitted, start, cur, follow, inner).0;
    lemma_region(sh, emitted, start, cur, follow, inner);
    lemma_block_with(sh.blocks, cur);
    assert(around(outer, open) == outer);
    assert(closes(outer, open, all));
    if emitted.contains(cur) || Some(cur) == follow {
        if Some(cur) != follow {
            assert(forall|fall: Option<u32>| #[trigger]
                lands(outer, open, all, fall) == Some(cur));
        }
        assert forall|i: int| 0 <= i < all.len() implies #[trigger] right_at(
            sh,
            outer,
            all,
            i,
            follow,
        ) by {}
    } else if let Some(block) = block_with(sh.blocks, cur) {
        let seen = emitted.insert(cur);
        lemma_outside32(emitted, cur);
        lemma_turn_flows(sh, outer, emitted, start, cur, block, follow, inner);
        let part = sh.turn(seen, start, cur, block, follow, inner);
        lemma_outside32_subset(seen, seen.union(part.more));
        if let Some((first, next)) = part.next {
            let on = sh.region(seen.union(part.more), first, next, follow, inner).0;
            lemma_region_flows(
                sh,
                outer,
                seen.union(part.more),
                first,
                next,
                follow,
                inner,
            );
            lemma_flows_add(sh, outer, part.steps, on, Some(next), follow);
        }
        assert(all[0] == part.steps[0]);
        assert(forall|fall: Option<u32>| #[trigger] lands(outer, open, all, fall) == Some(cur));
    }
}

proof fn lemma_turn_flows(
    sh: Shape,
    outer: Option<u32>,
    emitted: Set<u32>,
    start: u32,
    cur: u32,
    block: BlockModel,
    follow: Option<u32>,
    inner: Option<u32>,
)
    requires
        inner is Some ==> outer == inner,
        !emitted.contains(cur),
        block_with(sh.blocks, cur) == Some(block),
    ensures
        ({
            let part = sh.turn(emitted.insert(cur), start, cur, block, follow, inner);
            &&& closes(outer, Seq::empty(), part.steps)
            &&& flows(sh, outer, part.steps, behind(part, follow))
            &&& part.steps.len() > 0
            &&& part.steps[0].writes() == Some(cur)
        }),
    decreases outside32(emitted.insert(cur)), 4nat,
{
    let seen = emitted.insert(cur);
    let part = sh.turn(seen, start, cur, block, follow, inner);
    lemma_turn(sh, emitted, start, cur, block, follow, inner);
    assert(around(outer, Seq::empty()) == outer);
    if sh.header(cur) {
        lemma_loop_flows(sh, outer, emitted, start, cur, block, follow);
    } else {
        lemma_leave_flows(sh, outer, seen, start, cur, block, follow, inner);
        let tail = sh.leave(seen, start, cur, block, follow, inner);
        lemma_flows_block(sh, outer, cur, cur != start, tail.steps, behind(part, follow));
    }
}

/// A loop around steps that go on with its header, behind a `break` or without one.
proof fn lemma_flows_loop(
    sh: Shape,
    outer: Option<u32>,
    id: u32,
    led: bool,
    head: Seq<Step>,
    a: Seq<Step>,
    exit: Option<u32>,
)
    requires
        head.len() == 0 || exists|negated: bool| head == seq![Step::BreakIf { id, negated }],
        closes(Some(id), Seq::empty(), a),
        flows(sh, Some(id), a, Some(id)),
        ends_right(sh, outer, seq![Some(id)], head + a + seq![Step::Close], id, exit),
    ensures
        flows(sh, outer, seq![Step::While { id, led }] + head + a + seq![Step::Close], exit),
{
    let first = seq![Step::While { id, led }];
    let p = first + head;
    let end = seq![Step::Close];
    let open = Seq::<Option<u32>>::empty();
    let low = seq![Some(id)];
    let all = p + a + end;
    lemma_single(Step::While { id, led });
    assert(open.push(Some(id)) =~= low);
    lemma_opened_add(outer, Some(open), first, head);
    if head.len() == 1 {
        assert(head =~= seq![head[0]]);
        lemma_single(head[0]);
    }
    assert(opened_by(outer, Some(open), p) == Some(low));
    assert(around(outer, low) == Some(id));
    assert(forall|fall: Option<u32>| #[trigger] lands(outer, low, end, fall) == Some(id));
    lemma_within(sh, outer, p, low, a, end, Some(id), exit);
    assert forall|i: int| 0 <= i < all.len() implies #[trigger] right_at(
        sh,
        outer,
        all,
        i,
        exit,
    ) by {
        if i == 0 {
            assert(all.take(1) =~= first);
            assert(all.skip(1) =~= head + a + end);
        }
    }
}

proof fn lemma_loop_flows(
    sh: Shape,
    outer: Option<u32>,
    emitted: Set<u32>,
    start: u32,
    cur: u32,
    block: BlockModel,
    follow: Option<u32>,
)
    requires
        sh.header(cur),
        !emitted.contains(cur),
        block_with(sh.blocks, cur) == Some(block),
    ensures
        ({
            let part = sh.whole_loop(emitted.insert(cur), start, cur, block);
            &&& flows(sh, outer, part.steps, behind(part, follow))
            &&& part.steps.len() > 0
            &&& part.steps[0].writes() == Some(cur)
        }),
    decreases outside32(emitted.insert(cur)), 3nat,
{
    let seen = emitted.insert(cur);
    let here = Some(cur);
    let part = sh.whole_loop(seen, start, cur, block);
    let led = cur != start;
    let open = Seq::<Option<u32>>::empty();
    let low = seq![here];
    let end = seq![Step::Close];
    assert(around(outer, low) == here);
    assert(low + open =~= low);
    assert(forall|fall: Option<u32>| #[trigger] lands(outer, low, end, fall) == here);
    match sh.exit_of(cur, block) {
        Some((body, exit, negated)) => {
            let test = seq![Step::BreakIf { id: cur, negated }];
            lemma_region_flows(sh, here, seen, body, body, here, here);
            let a = sh.region(seen, body, body, here, here).0;
            let tail = test + a + end;
            assert(tail.skip(1) =~= a + end);
            lemma_beyond_past(here, open, a, end);
            assert(end.skip(1) =~= Seq::empty());
            assert(beyond(a + end, 0) =~= Seq::empty());
            assert(low.drop_last() =~= open);
            let leaving = !negated;
            assert forall|fall: Option<u32>| #[trigger]
                passes_on(outer, low, tail, cur, leaving, fall) == fall by {
                assert(lands(outer, open, Seq::empty(), fall) == fall);
            }
            assert forall|fall: Option<u32>| has_block(sh.blocks, body) implies #[trigger]
                passes_on(outer, low, tail, cur, negated, fall) == Some(body) by {
                lemma_lands_add(outer, low, open, a, end, fall);
                assert(lands(here, open, a, here) == Some(body));
            }
            assert(ends_right(sh, outer, low, tail, cur, Some(exit))) by {
                assert forall|holds: bool|
                    (#[trigger] next_of(block, holds) matches Some(s) ==> has_block(sh.blocks, s)
                        ==> passes_to(outer, low, tail, cur, holds, Some(exit), s)) by {
                    if holds == negated {
                        assert(next_of(block, holds) == Some(body));
                    } else {
                        assert(holds == leaving);
                        assert(next_of(block, holds) == Some(exit));
                    }
                }
            }
            lemma_flows_loop(sh, outer, cur, led, test, a, Some(exit));
        },
        None => {
            let first = sh.leave(seen, cur, cur, block, here, here);
            lemma_leave_flows(sh, here, seen, cur, cur, block, here, here);
            let seen1 = seen.union(first.more);
            lemma_outside32_subset(seen, seen1);
            let rest = match first.next {
                Some((f, n)) => sh.region(seen1, f, n, here, here).0,
                None => Seq::empty(),
            };
            let a = first.steps + rest;
            if let Some((f, n)) = first.next {
                lemma_region_flows(sh, here, seen1, f, n, here, here);
            } else {
                lemma_links_end(sh, here, open, here);
            }
            let x = behind(first, here);
            lemma_flows_add(sh, here, first.steps, rest, x, here);
            lemma_opened_add(here, Some(open), first.steps, rest);
            lemma_ends_add(sh, here, open, open, first.steps, rest, cur, x, here);
            assert(open + open =~= open);
            lemma_ends_add(sh, outer, low, open, a, end, cur, here, follow);
            let none = Seq::<Step>::empty();
            assert(none + a + end =~= a + end);
            lemma_flows_loop(sh, outer, cur, led, none, a, follow);
            assert(seq![Step::While { id: cur, led }] + none + a + end =~= part.steps);
        },
    }
}

proof fn lemma_leave_flows(
    sh: Shape,
    outer: Option<u32>,
    seen: Set<u32>,
    start: u32,
    cur: u32,
    block: BlockModel,
    follow: Option<u32>,
    inner: Option<u32>,
)
    requires
        inner is Some ==> outer == inner,
        seen.contains(cur),
        block_with(sh.blocks, cur) == Some(block),
    ensures
        ({
            let part = sh.leave(seen, start, cur, block, follow, inner);
            &&& closes(outer, Seq::empty(), part.steps)
            &&& flows(sh, outer, part.steps, behind(part, follow))
            &&& ends_right(sh, outer, Seq::empty(), part.steps, cur, behind(part, follow))
        }),
    decreases outside32(seen), 2nat,
{
    let open = Seq::<Option<u32>>::empty();
    let part = sh.leave(seen, start, cur, block, follow, inner);
    lemma_leave(sh, seen, start, cur, block, follow, inner);
    assert(around(outer, open) == outer);
    match block.terminator() {
        Some(StmtModel::Jump(next)) => {
            if part.steps.len() > 0 {
                assert(part.steps.skip(1) =~= Seq::empty());
            }
            assert forall|holds: bool, fall: Option<u32>| #[trigger]
                passes_on(outer, open, part.steps, cur, holds, fall) == fall by {
                assert(lands(outer, open, Seq::empty(), fall) == fall);
            }
            assert forall|i: int| 0 <= i < part.steps.len() implies #[trigger] right_at(
                sh,
                outer,
                part.steps,
                i,
                behind(part, follow),
            ) by {}
        },
        Some(StmtModel::Branch { cond, true_id, false_id }) => {
            lemma_branch_flows(sh, outer, seen, start, cur, follow, inner, true_id, false_id);
        },
        _ => {},
    }
}

/// A jump back under a condition.
proof fn lemma_back_flows(
    sh: Shape,
    outer: Option<u32>,
    cur: u32,
    negated: bool,
    target: u32,
    inner: Option<u32>,
    exit: Option<u32>,
)
    requires
        inner is Some ==> outer == inner,
    ensures
        flows(sh, outer, sh.back_if(cur, negated, target, inner), exit),
        forall|holds: bool, fall: Option<u32>| #[trigger]
            passes_on(
                outer,
                Seq::empty(),
                sh.back_if(cur, negated, target, inner),
                cur,
                holds,
                fall,
            ) == (if holds != negated {
                Some(target)
            } else {
                fall
            }),
{
    let steps = sh.back_if(cur, negated, target, inner);
    assert(steps.skip(1) =~= Seq::empty());
    assert forall|i: int| 0 <= i < steps.len() implies #[trigger] right_at(
        sh,
        outer,
        steps,
        i,
        exit,
    ) by {}
}

/// A condition with one branch.
proof fn lemma_flows_if(sh: Shape, outer: Option<u32>, cur: u32, left: Seq<Step>, x: Option<u32>)
    requires
        closes(outer, Seq::empty(), left),
        flows(sh, outer, left, x),
    ensures
        ({
            let all = seq![Step::If(cur)] + left + seq![Step::Close];
            &&& flows(sh, outer, all, x)
            &&& forall|fall: Option<u32>| #[trigger]
                passes_on(outer, Seq::empty(), all, cur, true, fall) == lands(
                    outer,
                    Seq::empty(),
                    left,
                    fall,
                )
            &&& forall|fall: Option<u32>| #[trigger]
                passes_on(outer, Seq::empty(), all, cur, false, fall) == fall
        }),
{
    let first = seq![Step::If(cur)];
    let end = seq![Step::Close];
    let open = Seq::<Option<u32>>::empty();
    let low = seq![None::<u32>];
    let all = first + left + end;
    lemma_single(Step::If(cur));
    assert(open.push(None) =~= low);
    assert(low.drop_last() =~= open);
    assert(low + open =~= low);
    lemma_around_add(outer, open, low);
    assert(around(outer, low) == outer) by {
        assert(low.last() is None);
        assert(around(outer, open) == outer);
    }
    assert(end.skip(1) =~= Seq::empty());
    assert forall|fall: Option<u32>| #[trigger] lands(outer, low, end, fall) == fall by {
        assert(lands(outer, open, Seq::empty(), fall) == fall);
    }
    lemma_within(sh, outer, first, low, left, end, x, x);
    assert forall|i: int| 0 <= i < all.len() implies #[trigger] right_at(
        sh,
        outer,
        all,
        i,
        x,
    ) by {}
    assert(all.skip(1) =~= left + end);
    assert forall|fall: Option<u32>| #[trigger]
        passes_on(outer, open, all, cur, true, fall) == lands(outer, open, left, fall) by {
        lemma_lands_add(outer, low, open, left, end, fall);
    }
    lemma_beyond_past(outer, open, left, end);
    assert(otherwise(end, 0) == (end.skip(1), false));
    assert forall|fall: Option<u32>| #[trigger]
        passes_on(outer, open, all, cur, false, fall) == fall by {
        assert(lands(outer, open, Seq::empty(), fall) == fall);
    }
}

/// A condition with two branches.
proof fn lemma_flows_if_else(
    sh: Shape,
    outer: Option<u32>,
    cur: u32,
    left: Seq<Step>,
    right: Seq<Step>,
    x: Option<u32>,
)
    requires
        closes(outer, Seq::empty(), left),
        closes(outer, Seq::empty(), right),
        flows(sh, outer, left, x),
        flows(sh, outer, right, x),
    ensures
        ({
            let all = seq![Step::If(cur)] + left + (seq![Step::Else] + right) + seq![Step::Close];
            &&& flows(sh, outer, all, x)
            &&& forall|fall: Option<u32>| #[trigger]
                passes_on(outer, Seq::empty(), all, cur, true, fall) == lands(
                    outer,
                    Seq::empty(),
                    left,
                    fall,
                )
            &&& forall|fall: Option<u32>| #[trigger]
                passes_on(outer, Seq::empty(), all, cur, false, fall) == lands(
                    outer,
                    Seq::empty(),
                    right,
                    fall,
                )
        }),
{
    let first = seq![Step::If(cur)];
    let mid = seq![Step::Else];
    let end = seq![Step::Close];
    let open = Seq::<Option<u32>>::empty();
    let low = seq![None::<u32>];
    let all = first + left + (mid + right) + end;
    let q = mid + right + end;
    lemma_single(Step::If(cur));
    lemma_single(Step::Else);
    assert(open.push(None) =~= low);
    assert(low.drop_last() =~= open);
    assert(low + open =~= low);
    assert(around(outer, low) == outer) by {
        assert(low.last() is None);
        assert(around(outer, open) == outer);
    }
    assert(end.skip(1) =~= Seq::empty());
    assert forall|fall: Option<u32>| #[trigger] lands(outer, low, end, fall) == fall by {
        assert(lands(outer, open, Seq::empty(), fall) == fall);
    }
    assert(q.skip(1) =~= right + end);
    lemma_beyond_past(outer, open, right, end);
    assert(beyond(end, 0) =~= Seq::empty());
    assert forall|fall: Option<u32>| #[trigger] lands(outer, low, q, fall) == fall by {
        assert(lands(outer, open, Seq::empty(), fall) == fall);
    }
    lemma_within(sh, outer, first, low, left, q, x, x);
    assert(first + left + q =~= all);
    let p = first + left + mid;
    lemma_opened_add(outer, Some(open), first + left, mid);
    lemma_opened_add(outer, Some(open), first, left);
    lemma_opened_shift(outer, low, open, left);
    assert(opened_by(outer, Some(open), p) == Some(low));
    lemma_within(sh, outer, p, low, right, end, x, x);
    assert(p + right + end =~= all);
    assert forall|i: int| 0 <= i < all.len() implies #[trigger] right_at(
        sh,
        outer,
        all,
        i,
        x,
    ) by {}
    assert(all.skip(1) =~= left + q);
    assert forall|fall: Option<u32>| #[trigger]
        passes_on(outer, open, all, cur, true, fall) == lands(outer, open, left, fall) by {
        lemma_lands_add(outer, low, open, left, q, fall);
    }
    lemma_beyond_past(outer, open, left, q);
    assert(otherwise(q, 0) == (right + end, true));
    assert forall|fall: Option<u32>| #[trigger]
        passes_on(outer, open, all, cur, false, fall) == lands(outer, open, right, fall) by {
        lemma_lands_add(outer, low, open, right, end, fall);
    }
}

proof fn lemma_branch_flows(
    sh: Shape,
    outer: Option<u32>,
    seen: Set<u32>,
    start: u32,
    cur: u32,
    follow: Option<u32>,
    inner: Option<u32>,
    t: u32,
    f: u32,
)
    requires
        inner is Some ==> outer == inner,
    ensures
        ({
            let part = sh.branch(seen, start, cur, follow, inner, t, f);
            let exit = behind(part, follow);
            let open = Seq::<Option<u32>>::empty();
            &&& flows(sh, outer, part.steps, exit)
            &&& has_block(sh.blocks, t) ==> passes_to(outer, open, part.steps, cur, true, exit, t)
            &&& has_block(sh.blocks, f) ==> passes_to(outer, open, part.steps, cur, false, exit, f)
        }),
    decreases outside32(seen), 1nat,
{
    if sh.back_edge(cur, t) && seen.contains(t) {
        lemma_back_flows(sh, outer, cur, false, t, inner, Some(f));
    } else if sh.back_edge(cur, f) && seen.contains(f) {
        lemma_back_flows(sh, outer, cur, true, f, inner, Some(t));
    } else {
        let part = sh.branch(seen, start, cur, follow, inner, t, f);
        let join = sh.join(t, f);
        let after = match join {
            Some(j) => Some(j),
            None => follow,
        };
        assert(behind(part, follow) == after);
        lemma_region_flows(sh, outer, seen, t, t, after, inner);
        let left = sh.region(seen, t, t, after, inner);
        let seen1 = seen.union(left.1);
        lemma_outside32_subset(seen, seen1);
        if Some(f) != after {
            lemma_region_flows(sh, outer, seen1, f, f, after, inner);
            let right = sh.region(seen1, f, f, after, inner);
            lemma_flows_if_else(sh, outer, cur, left.0, right.0, after);
        } else {
            lemma_flows_if(sh, outer, cur, left.0, after);
            assert(seq![Step::If(cur)] + left.0 + Seq::empty() + seq![Step::Close] =~= seq![
                Step::If(cur),
            ] + left.0 + seq![Step::Close]);
        }
    }
}

/// The code of a function begins with its first block.
pub proof fn lemma_begins_with_entry(blocks: Seq<BlockModel>, analysis: FunctionAnalysis)
    requires
        blocks.len() > 0,
    ensures
        lands(None, Seq::empty(), plan_of(blocks, analysis), None) == Some(blocks[0].id),
{
    let sh = Shape { blocks, analysis };
    let entry = entry_of(blocks);
    lemma_region_flows(sh, None, Set::empty(), entry, entry, None, None);
    assert(has_block(blocks, entry));
}

/// Behind each block that the code of a function holds, control goes on with the block that the
/// terminator names, whatever the condition of a branch says; where the function has that block.
pub proof fn lemma_control_passes_on(
    blocks: Seq<BlockModel>,
    analysis: FunctionAnalysis,
    i: int,
    id: u32,
    block: BlockModel,
    holds: bool,
    next: u32,
)
    requires
        0 <= i < plan_of(blocks, analysis).len(),
        plan_of(blocks, analysis)[i].writes() == Some(id),
        block_with(blocks, id) == Some(block),
        next_of(block, holds) == Some(next),
        has_block(blocks, next),
    ensures
        ({
            let plan = plan_of(blocks, analysis);
            passes_on(None, nest_at(None, plan, i + 1), plan.skip(i + 1), id, holds, None) == Some(
                next,
            )
        }),
{
    let sh = Shape { blocks, analysis };
    let plan = plan_of(blocks, analysis);
    let entry = entry_of(blocks);
    lemma_region_flows(sh, None, Set::empty(), entry, entry, None, None);
    assert(right_at(sh, None, plan, i, None));
    assert(passes_to(
        None,
        nest_at(None, plan, i + 1),
        plan.skip(i + 1),
        id,
        holds,
        None,
        next,
    ));
}

} // verus!
