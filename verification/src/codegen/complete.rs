//! Every block that can be reached is written once, every jump finds its label, and loops and
//! conditions nest.
use vstd::prelude::*;

use super::laws::{
    goes_on, has_block, lemma_block_with, lemma_level_body, lemma_level_test, lemma_steps_go_on,
};
use super::model::{block_with, entry_of, label, plan_of, Context, Emission};
use super::plan::{jumped_to, targets, Shape, Step};
use crate::analysis::cfg::{edges_of, flow_edges};
use crate::analysis::FunctionAnalysis;
use crate::finite::{lemma_outside32, lemma_outside32_subset, outside32};
use crate::ir::{BlockModel, StmtModel};

verus! {

/// How many of the steps write the block.
pub open spec fn count(steps: Seq<Step>, id: u32) -> nat
    decreases steps.len(),
{
    if steps.len() == 0 {
        0
    } else {
        count(steps.drop_last(), id) + if steps.last().writes() == Some(id) {
            1nat
        } else {
            0
        }
    }
}

/// What is open around a place: conditions, and loops with their headers, the innermost last.
pub type Nesting = Seq<Option<u32>>;

/// The header of the innermost loop, where `outer` is that of the loop around all of it.
pub open spec fn around(outer: Option<u32>, open: Nesting) -> Option<u32>
    decreases open.len(),
{
    if open.len() == 0 {
        outer
    } else if open.last() is Some {
        open.last()
    } else {
        around(outer, open.drop_last())
    }
}

/// What is open after a step; nothing where the step cannot stand: where it closes what is not
/// open, goes on with a loop that is not around it, or leaves a loop other than the one that it
/// stands in.
pub open spec fn opened(
    outer: Option<u32>,
    open: Option<Nesting>,
    step: Step,
) -> Option<Nesting> {
    match open {
        None => None,
        Some(nest) => match step {
            Step::If(_) => Some(nest.push(None)),
            Step::While { id, .. } => Some(nest.push(Some(id))),
            Step::Else => if nest.len() > 0 && nest.last() is None {
                Some(nest)
            } else {
                None
            },
            Step::Close => if nest.len() > 0 {
                Some(nest.drop_last())
            } else {
                None
            },
            Step::ContinueIf { .. } => if around(outer, nest) is Some {
                Some(nest)
            } else {
                None
            },
            Step::BreakIf { id, .. } => if nest.len() > 0 && nest.last() == Some(id) {
                Some(nest)
            } else {
                None
            },
            _ => Some(nest),
        },
    }
}

/// What is open after the steps.
pub open spec fn opened_by(
    outer: Option<u32>,
    open: Option<Nesting>,
    steps: Seq<Step>,
) -> Option<Nesting>
    decreases steps.len(),
{
    if steps.len() == 0 {
        open
    } else {
        opened(outer, opened_by(outer, open, steps.drop_last()), steps.last())
    }
}

/// The steps can stand wherever `inner`, if it is a header, is that of the innermost loop; what
/// they open they close, and nothing else.
pub open spec fn balanced(inner: Option<u32>, steps: Seq<Step>) -> bool {
    forall|outer: Option<u32>, nest: Nesting|
        (inner is Some ==> around(outer, nest) == inner) ==> #[trigger] opened_by(
            outer,
            Some(nest),
            steps,
        ) == Some(nest)
}

/// A step that writes a block opens a loop exactly if the block is the header of one.
pub open spec fn fitting(sh: Shape, step: Step) -> bool {
    step.writes() matches Some(id) ==> (step is While <==> sh.header(id))
}

/// The steps write the blocks of `more`, each once, which are blocks of the function that are not
/// in `base`, headers as loops; and they jump to blocks of either set only.
pub open spec fn sound(sh: Shape, base: Set<u32>, steps: Seq<Step>, more: Set<u32>) -> bool {
    &&& forall|id: u32| #[trigger]
        count(steps, id) == (if more.contains(id) {
            1nat
        } else {
            0
        })
    &&& forall|id: u32| #[trigger]
        more.contains(id) ==> !base.contains(id) && has_block(sh.blocks, id)
    &&& forall|id: u32| #[trigger]
        jumped_to(steps, id) ==> base.contains(id) || more.contains(id)
    &&& forall|i: int| 0 <= i < steps.len() ==> fitting(sh, #[trigger] steps[i])
}

/// The block is in the set, or will be written, or there is none.
pub open spec fn covered(
    sh: Shape,
    set: Set<u32>,
    follow: Option<u32>,
    next: Option<(u32, u32)>,
    id: u32,
) -> bool {
    ||| set.contains(id)
    ||| Some(id) == follow
    ||| (match next {
        Some((_, n)) => n == id,
        None => false,
    })
    ||| !has_block(sh.blocks, id)
}

/// The ids of the blocks that control can pass to from the block with the given id.
pub open spec fn succs_of(blocks: Seq<BlockModel>, id: u32) -> Seq<u32> {
    match block_with(blocks, id) {
        Some(block) => block.successors(),
        None => Seq::empty(),
    }
}

/// Whatever control can pass to from the blocks of `from` is covered.
pub open spec fn closed(
    sh: Shape,
    set: Set<u32>,
    follow: Option<u32>,
    next: Option<(u32, u32)>,
    from: Set<u32>,
) -> bool {
    forall|b: u32, s: u32|
        from.contains(b) && #[trigger] succs_of(sh.blocks, b).contains(s) ==> covered(
            sh,
            set,
            follow,
            next,
            s,
        )
}

proof fn lemma_count_add(a: Seq<Step>, b: Seq<Step>, id: u32)
    ensures
        count(a + b, id) == count(a, id) + count(b, id),
    decreases b.len(),
{
    if b.len() == 0 {
        assert(a + b =~= a);
    } else {
        assert((a + b).drop_last() =~= a + b.drop_last());
        lemma_count_add(a, b.drop_last(), id);
    }
}

pub(crate) proof fn lemma_opened_add(
    outer: Option<u32>,
    open: Option<Nesting>,
    a: Seq<Step>,
    b: Seq<Step>,
)
    ensures
        opened_by(outer, open, a + b) == opened_by(outer, opened_by(outer, open, a), b),
    decreases b.len(),
{
    if b.len() == 0 {
        assert(a + b =~= a);
    } else {
        assert((a + b).drop_last() =~= a + b.drop_last());
        lemma_opened_add(outer, open, a, b.drop_last());
    }
}

proof fn lemma_jumped_add(a: Seq<Step>, b: Seq<Step>, id: u32)
    ensures
        jumped_to(a + b, id) <==> jumped_to(a, id) || jumped_to(b, id),
{
    let c = a + b;
    if jumped_to(a, id) {
        let i = choose|i: int| 0 <= i < a.len() && (#[trigger] a[i]).target() == Some(id);
        assert(c[i] == a[i]);
    }
    if jumped_to(b, id) {
        let i = choose|i: int| 0 <= i < b.len() && (#[trigger] b[i]).target() == Some(id);
        assert(c[a.len() + i] == b[i]);
    }
    if jumped_to(c, id) {
        let i = choose|i: int| 0 <= i < c.len() && (#[trigger] c[i]).target() == Some(id);
        if i < a.len() {
            assert(a[i] == c[i]);
        } else {
            assert(b[i - a.len()] == c[i]);
        }
    }
}

pub(crate) proof fn lemma_single(step: Step)
    ensures
        forall|id: u32| #[trigger]
            count(seq![step], id) == (if step.writes() == Some(id) {
                1nat
            } else {
                0
            }),
        forall|id: u32| #[trigger] jumped_to(seq![step], id) <==> step.target() == Some(id),
        forall|outer: Option<u32>, open: Option<Nesting>| #[trigger]
            opened_by(outer, open, seq![step]) == opened(outer, open, step),
{
    let one = seq![step];
    assert(one.drop_last() =~= Seq::empty());
    reveal_with_fuel(count, 2);
    reveal_with_fuel(opened_by, 2);
    assert(one.last() == step);
    assert forall|id: u32| #[trigger] jumped_to(one, id) <==> step.target() == Some(id) by {
        assert(one[0] == step);
    }
}

/// A step that writes nothing and jumps to `base` only.
proof fn lemma_sound_single(sh: Shape, base: Set<u32>, step: Step)
    requires
        step.writes() is None,
        step.target() matches Some(t) ==> base.contains(t),
    ensures
        sound(sh, base, seq![step], Set::empty()),
{
    lemma_single(step);
}

proof fn lemma_sound_none(sh: Shape, base: Set<u32>)
    ensures
        sound(sh, base, Seq::empty(), Set::empty()),
        forall|inner: Option<u32>| #[trigger] balanced(inner, Seq::empty()),
{
}

/// One part after the other.
proof fn lemma_sound_add(
    sh: Shape,
    base: Set<u32>,
    a: Seq<Step>,
    m: Set<u32>,
    b: Seq<Step>,
    n: Set<u32>,
)
    requires
        sound(sh, base, a, m),
        sound(sh, base.union(m), b, n),
    ensures
        sound(sh, base, a + b, m.union(n)),
{
    assert forall|id: u32| #[trigger]
        count(a + b, id) == (if m.union(n).contains(id) {
            1nat
        } else {
            0
        }) by {
        lemma_count_add(a, b, id);
        assert(count(a, id) == (if m.contains(id) {
            1nat
        } else {
            0
        }));
        assert(count(b, id) == (if n.contains(id) {
            1nat
        } else {
            0
        }));
        assert(n.contains(id) ==> !base.union(m).contains(id));
    }
    assert forall|id: u32| #[trigger] jumped_to(a + b, id) implies base.contains(id) || m.union(
        n,
    ).contains(id) by {
        lemma_jumped_add(a, b, id);
        assert(jumped_to(a, id) || jumped_to(b, id));
    }
    let c = a + b;
    assert forall|i: int| 0 <= i < c.len() implies fitting(sh, #[trigger] c[i]) by {
        if i < a.len() {
            assert(c[i] == a[i]);
        } else {
            assert(c[i] == b[i - a.len()]);
        }
    }
}

proof fn lemma_balanced_add(inner: Option<u32>, a: Seq<Step>, b: Seq<Step>)
    requires
        balanced(inner, a),
        balanced(inner, b),
    ensures
        balanced(inner, a + b),
{
    assert forall|outer: Option<u32>, nest: Nesting|
        (inner is Some ==> around(outer, nest) == inner) implies #[trigger] opened_by(
        outer,
        Some(nest),
        a + b,
    ) == Some(nest) by {
        lemma_opened_add(outer, Some(nest), a, b);
        assert(opened_by(outer, Some(nest), a) == Some(nest));
    }
}

/// What is written in a loop, with or without a `break` at its head.
proof fn lemma_balanced_loop(id: u32, led: bool, negated: bool, a: Seq<Step>)
    requires
        balanced(Some(id), a),
    ensures
        balanced(None, seq![Step::While { id, led }] + a + seq![Step::Close]),
        balanced(
            None,
            seq![Step::While { id, led }] + (seq![Step::BreakIf { id, negated }] + a) + seq![
                Step::Close,
            ],
        ),
{
    let start = seq![Step::While { id, led }];
    let test = seq![Step::BreakIf { id, negated }];
    let end = seq![Step::Close];
    lemma_single(Step::While { id, led });
    lemma_single(Step::BreakIf { id, negated });
    lemma_single(Step::Close);
    assert forall|outer: Option<u32>, nest: Nesting| #[trigger]
        opened_by(outer, Some(nest), start + a + end) == Some(nest) by {
        let deep = nest.push(Some(id));
        lemma_opened_add(outer, Some(nest), start + a, end);
        lemma_opened_add(outer, Some(nest), start, a);
        assert(opened_by(outer, Some(nest), start) == Some(deep));
        assert(around(outer, deep) == Some(id));
        assert(opened_by(outer, Some(deep), a) == Some(deep));
        assert(deep.drop_last() =~= nest);
    }
    assert forall|outer: Option<u32>, nest: Nesting| #[trigger]
        opened_by(outer, Some(nest), start + (test + a) + end) == Some(nest) by {
        let deep = nest.push(Some(id));
        lemma_opened_add(outer, Some(nest), start + (test + a), end);
        lemma_opened_add(outer, Some(nest), start, test + a);
        lemma_opened_add(outer, Some(deep), test, a);
        assert(opened_by(outer, Some(nest), start) == Some(deep));
        assert(opened_by(outer, Some(deep), test) == Some(deep));
        assert(around(outer, deep) == Some(id));
        assert(opened_by(outer, Some(deep), a) == Some(deep));
        assert(deep.drop_last() =~= nest);
    }
}

/// The one branch of a condition.
proof fn lemma_balanced_branch(inner: Option<u32>, cur: u32, left: Seq<Step>)
    requires
        balanced(inner, left),
    ensures
        balanced(inner, seq![Step::If(cur)] + left + seq![Step::Close]),
{
    let start = seq![Step::If(cur)];
    let end = seq![Step::Close];
    lemma_single(Step::If(cur));
    lemma_single(Step::Close);
    assert forall|outer: Option<u32>, nest: Nesting|
        (inner is Some ==> around(outer, nest) == inner) implies #[trigger] opened_by(
        outer,
        Some(nest),
        start + left + end,
    ) == Some(nest) by {
        let deep = nest.push(None);
        lemma_opened_add(outer, Some(nest), start + left, end);
        lemma_opened_add(outer, Some(nest), start, left);
        assert(opened_by(outer, Some(nest), start) == Some(deep));
        assert(deep.drop_last() =~= nest);
        assert(opened_by(outer, Some(deep), left) == Some(deep));
    }
}

/// The two branches of a condition.
proof fn lemma_balanced_branches(
    inner: Option<u32>,
    cur: u32,
    left: Seq<Step>,
    right: Seq<Step>,
)
    requires
        balanced(inner, left),
        balanced(inner, right),
    ensures
        balanced(
            inner,
            seq![Step::If(cur)] + left + (seq![Step::Else] + right) + seq![Step::Close],
        ),
{
    let start = seq![Step::If(cur)];
    let mid = seq![Step::Else];
    let end = seq![Step::Close];
    lemma_single(Step::If(cur));
    lemma_single(Step::Else);
    lemma_single(Step::Close);
    assert forall|outer: Option<u32>, nest: Nesting|
        (inner is Some ==> around(outer, nest) == inner) implies #[trigger] opened_by(
        outer,
        Some(nest),
        start + left + (mid + right) + end,
    ) == Some(nest) by {
        let deep = nest.push(None);
        lemma_opened_add(outer, Some(nest), start + left + (mid + right), end);
        lemma_opened_add(outer, Some(nest), start + left, mid + right);
        lemma_opened_add(outer, Some(nest), start, left);
        lemma_opened_add(outer, Some(deep), mid, right);
        assert(opened_by(outer, Some(nest), start) == Some(deep));
        assert(deep.drop_last() =~= nest);
        assert(opened_by(outer, Some(deep), left) == Some(deep));
        assert(opened_by(outer, Some(deep), mid) == Some(deep));
        assert(opened_by(outer, Some(deep), right) == Some(deep));
    }
}

/// What holds of a region.
pub open spec fn region_holds(
    sh: Shape,
    emitted: Set<u32>,
    cur: u32,
    follow: Option<u32>,
    inner: Option<u32>,
    result: (Seq<Step>, Set<u32>),
) -> bool {
    &&& sound(sh, emitted, result.0, result.1)
    &&& balanced(inner, result.0)
    &&& covered(sh, emitted.union(result.1), follow, None, cur)
    &&& closed(sh, emitted.union(result.1), follow, None, result.1)
}

/// A region writes blocks of the function that have not been written, each once; it jumps to
/// written blocks only; it closes what it opens; and whatever control can pass to from its blocks
/// is written with it, has been written, or is the block that follows.
pub proof fn lemma_region(
    sh: Shape,
    emitted: Set<u32>,
    start: u32,
    cur: u32,
    follow: Option<u32>,
    inner: Option<u32>,
)
    ensures
        region_holds(
            sh,
            emitted,
            cur,
            follow,
            inner,
            sh.region(emitted, start, cur, follow, inner),
        ),
    decreases outside32(emitted), 0nat,
{
    let result = sh.region(emitted, start, cur, follow, inner);
    lemma_block_with(sh.blocks, cur);
    if emitted.contains(cur) || Some(cur) == follow {
        lemma_sound_none(sh, emitted);
        if emitted.contains(cur) {
            lemma_sound_single(sh, emitted, Step::Goto(cur));
        }
        lemma_single(Step::Goto(cur));
    } else {
        match block_with(sh.blocks, cur) {
            None => {
                lemma_sound_none(sh, emitted);
            },
            Some(block) => {
                let seen = emitted.insert(cur);
                lemma_outside32(emitted, cur);
                lemma_turn(sh, emitted, start, cur, block, follow, inner);
                let part = sh.turn(seen, start, cur, block, follow, inner);
                let m = part.more.insert(cur);
                lemma_outside32_subset(seen, seen.union(part.more));
                assert(seen.union(part.more) =~= emitted.union(m));
                if let Some((first, next)) = part.next {
                    lemma_region(sh, seen.union(part.more), first, next, follow, inner);
                    let on = sh.region(seen.union(part.more), first, next, follow, inner);
                    lemma_sound_add(sh, emitted, part.steps, m, on.0, on.1);
                    lemma_balanced_add(inner, part.steps, on.0);
                    assert(emitted.union(m.union(on.1)) =~= emitted.union(m).union(on.1));
                }
            },
        }
    }
}

pub(crate) proof fn lemma_turn(
    sh: Shape,
    emitted: Set<u32>,
    start: u32,
    cur: u32,
    block: BlockModel,
    follow: Option<u32>,
    inner: Option<u32>,
)
    requires
        !emitted.contains(cur),
        block_with(sh.blocks, cur) == Some(block),
    ensures
        ({
            let part = sh.turn(emitted.insert(cur), start, cur, block, follow, inner);
            let m = part.more.insert(cur);
            &&& sound(sh, emitted, part.steps, m)
            &&& balanced(inner, part.steps)
            &&& closed(sh, emitted.union(m), follow, part.next, m)
        }),
    decreases outside32(emitted.insert(cur)), 4nat,
{
    let seen = emitted.insert(cur);
    let part = sh.turn(seen, start, cur, block, follow, inner);
    let m = part.more.insert(cur);
    assert(emitted.union(m) =~= seen.union(part.more));
    if sh.header(cur) {
        lemma_loop(sh, emitted, start, cur, block);
        assert forall|b: u32, s: u32|
            m.contains(b) && #[trigger] succs_of(sh.blocks, b).contains(s) implies covered(
            sh,
            emitted.union(m),
            follow,
            part.next,
            s,
        ) by {
            assert(covered(sh, emitted.union(m), None, part.next, s));
        }
    } else {
        lemma_leave(sh, seen, start, cur, block, follow, inner);
        let step = Step::Block { id: cur, led: cur != start };
        let tail = sh.leave(seen, start, cur, block, follow, inner);
        lemma_opening(sh, emitted, cur, step);
        assert(emitted.union(set![cur]) =~= seen);
        lemma_sound_add(sh, emitted, seq![step], set![cur], tail.steps, tail.more);
        assert(set![cur].union(tail.more) =~= m);
        lemma_single(step);
        lemma_balanced_add(inner, seq![step], tail.steps);
    }
}

/// The step that writes a block.
proof fn lemma_opening(sh: Shape, emitted: Set<u32>, cur: u32, step: Step)
    requires
        !emitted.contains(cur),
        block_with(sh.blocks, cur) is Some,
        step.writes() == Some(cur),
        step is While <==> sh.header(cur),
    ensures
        sound(sh, emitted, seq![step], set![cur]),
{
    lemma_block_with(sh.blocks, cur);
    lemma_single(step);
    assert forall|id: u32| #[trigger]
        count(seq![step], id) == (if set![cur].contains(id) {
            1nat
        } else {
            0
        }) by {}
}

proof fn lemma_loop(sh: Shape, emitted: Set<u32>, start: u32, cur: u32, block: BlockModel)
    requires
        sh.header(cur),
        !emitted.contains(cur),
        block_with(sh.blocks, cur) == Some(block),
    ensures
        ({
            let part = sh.whole_loop(emitted.insert(cur), start, cur, block);
            let m = part.more.insert(cur);
            &&& sound(sh, emitted, part.steps, m)
            &&& balanced(None, part.steps)
            &&& closed(sh, emitted.union(m), None, part.next, m)
        }),
    decreases outside32(emitted.insert(cur)), 3nat,
{
    let seen = emitted.insert(cur);
    let open = Step::While { id: cur, led: cur != start };
    let here = Some(cur);
    let all = sh.whole_loop(seen, start, cur, block);
    lemma_opening(sh, emitted, cur, open);
    assert(emitted.union(set![cur]) =~= seen);
    match sh.exit_of(cur, block) {
        Some((body, exit, negated)) => {
            let test = Step::BreakIf { id: cur, negated };
            lemma_region(sh, seen, body, body, here, here);
            let inside = sh.region(seen, body, body, here, here);
            lemma_sound_single(sh, seen, test);
            lemma_single(test);
            lemma_sound_add(sh, emitted, seq![open], set![cur], seq![test], Set::empty());
            assert(set![cur].union(Set::empty()) =~= set![cur]);
            lemma_sound_add(
                sh,
                emitted,
                seq![open] + seq![test],
                set![cur],
                inside.0,
                inside.1,
            );
            let m = set![cur].union(inside.1);
            lemma_sound_single(sh, emitted.union(m), Step::Close);
            lemma_sound_add(
                sh,
                emitted,
                seq![open] + seq![test] + inside.0,
                m,
                seq![Step::Close],
                Set::empty(),
            );
            assert(m.union(Set::empty()) =~= all.more.insert(cur));
            lemma_balanced_loop(cur, cur != start, negated, inside.0);
            assert(all.steps =~= seq![open] + (seq![test] + inside.0) + seq![Step::Close]);
            assert(emitted.union(all.more.insert(cur)) =~= seen.union(inside.1));
            assert forall|b: u32, s: u32|
                all.more.insert(cur).contains(b) && #[trigger] succs_of(sh.blocks, b).contains(
                    s,
                ) implies covered(
                sh,
                emitted.union(all.more.insert(cur)),
                None,
                all.next,
                s,
            ) by {
                if b != cur {
                    assert(covered(sh, seen.union(inside.1), here, None, s));
                } else {
                    assert(s == body || s == exit);
                }
            }
        },
        None => {
            lemma_leave(sh, seen, cur, cur, block, here, here);
            let first = sh.leave(seen, cur, cur, block, here, here);
            let seen1 = seen.union(first.more);
            lemma_outside32_subset(seen, seen1);
            let rest = match first.next {
                Some((f, n)) => sh.region(seen1, f, n, here, here),
                None => (Seq::empty(), Set::empty()),
            };
            if let Some((f, n)) = first.next {
                lemma_region(sh, seen1, f, n, here, here);
            } else {
                lemma_sound_none(sh, seen1);
            }
            lemma_sound_add(sh, emitted, seq![open], set![cur], first.steps, first.more);
            let m1 = set![cur].union(first.more);
            assert(emitted.union(m1) =~= seen1);
            lemma_sound_add(sh, emitted, seq![open] + first.steps, m1, rest.0, rest.1);
            let m2 = m1.union(rest.1);
            lemma_sound_single(sh, emitted.union(m2), Step::Close);
            lemma_sound_add(
                sh,
                emitted,
                seq![open] + first.steps + rest.0,
                m2,
                seq![Step::Close],
                Set::empty(),
            );
            assert(m2.union(Set::empty()) =~= all.more.insert(cur));
            lemma_balanced_add(here, first.steps, rest.0);
            lemma_balanced_loop(cur, cur != start, true, first.steps + rest.0);
            assert(all.steps =~= seq![open] + (first.steps + rest.0) + seq![Step::Close]);
            let set = emitted.union(all.more.insert(cur));
            assert(set =~= seen1.union(rest.1));
            assert forall|b: u32, s: u32|
                all.more.insert(cur).contains(b) && #[trigger] succs_of(sh.blocks, b).contains(
                    s,
                ) implies covered(sh, set, None, all.next, s) by {
                if rest.1.contains(b) {
                    assert(covered(sh, seen1.union(rest.1), here, None, s));
                } else {
                    assert(covered(sh, seen1, here, first.next, s));
                }
            }
        },
    }
}

pub(crate) proof fn lemma_leave(
    sh: Shape,
    seen: Set<u32>,
    start: u32,
    cur: u32,
    block: BlockModel,
    follow: Option<u32>,
    inner: Option<u32>,
)
    requires
        seen.contains(cur),
        block_with(sh.blocks, cur) == Some(block),
    ensures
        ({
            let part = sh.leave(seen, start, cur, block, follow, inner);
            &&& sound(sh, seen, part.steps, part.more)
            &&& balanced(inner, part.steps)
            &&& closed(sh, seen.union(part.more), follow, part.next, part.more.insert(cur))
        }),
    decreases outside32(seen), 2nat,
{
    lemma_sound_none(sh, seen);
    match block.terminator() {
        Some(StmtModel::Jump(next)) => {
            lemma_sound_single(sh, seen, Step::BackEdge);
            lemma_single(Step::BackEdge);
        },
        Some(StmtModel::Branch { cond, true_id, false_id }) => {
            lemma_branch(sh, seen, start, cur, follow, inner, true_id, false_id);
            let part = sh.branch(seen, start, cur, follow, inner, true_id, false_id);
            assert forall|b: u32, s: u32|
                part.more.insert(cur).contains(b) && #[trigger] succs_of(sh.blocks, b).contains(
                    s,
                ) implies covered(sh, seen.union(part.more), follow, part.next, s) by {
                if b == cur {
                    assert(s == true_id || s == false_id);
                }
            }
        },
        _ => {},
    }
}

proof fn lemma_branch(
    sh: Shape,
    seen: Set<u32>,
    start: u32,
    cur: u32,
    follow: Option<u32>,
    inner: Option<u32>,
    t: u32,
    f: u32,
)
    ensures
        ({
            let part = sh.branch(seen, start, cur, follow, inner, t, f);
            &&& sound(sh, seen, part.steps, part.more)
            &&& balanced(inner, part.steps)
            &&& closed(sh, seen.union(part.more), follow, part.next, part.more)
            &&& covered(sh, seen.union(part.more), follow, part.next, t)
            &&& covered(sh, seen.union(part.more), follow, part.next, f)
        }),
    decreases outside32(seen), 1nat,
{
    if sh.back_edge(cur, t) && seen.contains(t) {
        lemma_back_if(sh, seen, cur, false, t, inner);
    } else if sh.back_edge(cur, f) && seen.contains(f) {
        lemma_back_if(sh, seen, cur, true, f, inner);
    } else {
        let all = sh.branch(seen, start, cur, follow, inner, t, f);
        let join = sh.join(t, f);
        let after = match join {
            Some(j) => Some(j),
            None => follow,
        };
        let open = Step::If(cur);
        lemma_region(sh, seen, t, t, after, inner);
        let left = sh.region(seen, t, t, after, inner);
        let seen1 = seen.union(left.1);
        lemma_outside32_subset(seen, seen1);
        lemma_sound_single(sh, seen, open);
        assert(seen.union(Set::empty()) =~= seen);
        lemma_sound_add(sh, seen, seq![open], Set::empty(), left.0, left.1);
        assert(Set::<u32>::empty().union(left.1) =~= left.1);
        let right = if Some(f) != after {
            let (r, m) = sh.region(seen1, f, f, after, inner);
            (seq![Step::Else] + r, m)
        } else {
            (Seq::empty(), Set::empty())
        };
        if Some(f) != after {
            lemma_region(sh, seen1, f, f, after, inner);
            let r = sh.region(seen1, f, f, after, inner);
            lemma_sound_single(sh, seen1, Step::Else);
            assert(seen1.union(Set::empty()) =~= seen1);
            lemma_sound_add(sh, seen1, seq![Step::Else], Set::empty(), r.0, r.1);
            assert(Set::<u32>::empty().union(r.1) =~= r.1);
            lemma_balanced_branches(inner, cur, left.0, r.0);
        } else {
            lemma_sound_none(sh, seen1);
            lemma_balanced_branch(inner, cur, left.0);
            assert(seq![open] + left.0 + right.0 =~= seq![open] + left.0);
        }
        lemma_sound_add(sh, seen, seq![open] + left.0, left.1, right.0, right.1);
        let m = left.1.union(right.1);
        lemma_sound_single(sh, seen.union(m), Step::Close);
        lemma_sound_add(
            sh,
            seen,
            seq![open] + left.0 + right.0,
            m,
            seq![Step::Close],
            Set::empty(),
        );
        assert(m.union(Set::empty()) =~= m);
        let set = seen.union(m);
        assert(set =~= seen1.union(right.1));
        assert forall|b: u32, s: u32|
            m.contains(b) && #[trigger] succs_of(sh.blocks, b).contains(s) implies covered(
            sh,
            set,
            follow,
            all.next,
            s,
        ) by {
            if left.1.contains(b) {
                assert(covered(sh, seen1, after, None, s));
            } else {
                assert(covered(sh, set, after, None, s));
            }
        }
    }
}

proof fn lemma_back_if(
    sh: Shape,
    seen: Set<u32>,
    cur: u32,
    negated: bool,
    target: u32,
    inner: Option<u32>,
)
    requires
        seen.contains(target),
    ensures
        sound(sh, seen, sh.back_if(cur, negated, target, inner), Set::empty()),
        balanced(inner, sh.back_if(cur, negated, target, inner)),
{
    lemma_sound_single(sh, seen, Step::ContinueIf { id: cur, negated });
    lemma_sound_single(sh, seen, Step::GotoIf { id: cur, negated, target });
    lemma_single(Step::ContinueIf { id: cur, negated });
    lemma_single(Step::GotoIf { id: cur, negated, target });
}

/// No two blocks have the same id.
pub open spec fn distinct(blocks: Seq<BlockModel>) -> bool {
    forall|i: int, j: int|
        0 <= i < j < blocks.len() ==> (#[trigger] blocks[i]).id != (#[trigger] blocks[j]).id
}

/// A block that control can pass to from the first block by way of other blocks.
pub open spec fn meets(blocks: Seq<BlockModel>, p: Seq<u32>, id: u32) -> bool {
    &&& p.len() > 0
    &&& p[0] == entry_of(blocks)
    &&& p.last() == id
    &&& forall|i: int|
        0 <= i < p.len() - 1 ==> succs_of(blocks, #[trigger] p[i]).contains(p[i + 1])
}

/// The structure of a function writes no block twice, and a block of the function that control can
/// pass to from the first one exactly once.
pub proof fn lemma_written_once(
    blocks: Seq<BlockModel>,
    analysis: FunctionAnalysis,
    p: Seq<u32>,
    id: u32,
)
    ensures
        count(plan_of(blocks, analysis), id) <= 1,
        meets(blocks, p, id) && has_block(blocks, id) ==> count(plan_of(blocks, analysis), id)
            == 1,
{
    let sh = Shape { blocks, analysis };
    let entry = entry_of(blocks);
    lemma_region(sh, Set::empty(), entry, entry, None, None);
    let result = sh.region(Set::empty(), entry, entry, None, None);
    let all = Set::<u32>::empty().union(result.1);
    assert(all =~= result.1);
    assert(count(result.0, id) == (if result.1.contains(id) {
        1nat
    } else {
        0
    }));
    if meets(blocks, p, id) && has_block(blocks, id) {
        lemma_met(sh, result.1, p);
    }
}

proof fn lemma_met(sh: Shape, all: Set<u32>, p: Seq<u32>)
    requires
        p.len() > 0,
        covered(sh, all, None, None, p[0]),
        closed(sh, all, None, None, all),
        forall|i: int|
            0 <= i < p.len() - 1 ==> succs_of(sh.blocks, #[trigger] p[i]).contains(p[i + 1]),
        has_block(sh.blocks, p.last()),
    ensures
        all.contains(p.last()),
    decreases p.len(),
{
    if p.len() > 1 {
        let q = p.drop_last();
        let b = p[p.len() - 2];
        assert(succs_of(sh.blocks, b).contains(p.last()));
        lemma_block_with(sh.blocks, b);
        assert forall|i: int| 0 <= i < q.len() - 1 implies succs_of(
            sh.blocks,
            #[trigger] q[i],
        ).contains(q[i + 1]) by {
            assert(succs_of(sh.blocks, p[i]).contains(p[i + 1]));
        }
        lemma_met(sh, all, q);
    }
}

/// Every block that the structure of a function jumps to is written by it, and so has its label.
pub proof fn lemma_jumps_find_labels(
    blocks: Seq<BlockModel>,
    analysis: FunctionAnalysis,
    id: u32,
)
    ensures
        targets(plan_of(blocks, analysis)).contains(id) ==> count(plan_of(blocks, analysis), id)
            == 1,
{
    let sh = Shape { blocks, analysis };
    let entry = entry_of(blocks);
    lemma_region(sh, Set::empty(), entry, entry, None, None);
    let result = sh.region(Set::empty(), entry, entry, None, None);
    assert(count(result.0, id) == (if result.1.contains(id) {
        1nat
    } else {
        0
    }));
    if jumped_to(result.0, id) {
        assert(result.1.contains(id));
    }
}

/// The header of a loop that is written is written as a loop, and no other block is.
pub proof fn lemma_loops_opened(blocks: Seq<BlockModel>, analysis: FunctionAnalysis, i: int)
    requires
        0 <= i < plan_of(blocks, analysis).len(),
        plan_of(blocks, analysis)[i].writes() is Some,
    ensures
        plan_of(blocks, analysis)[i] is While <==> analysis.loops.loops@.contains_key(
            plan_of(blocks, analysis)[i].writes()->0,
        ),
{
    let sh = Shape { blocks, analysis };
    let entry = entry_of(blocks);
    lemma_region(sh, Set::empty(), entry, entry, None, None);
    assert(fitting(sh, plan_of(blocks, analysis)[i]));
}

/// What the structure of a function opens it closes; an `else` stands in a condition, a `continue`
/// in a loop, and the `break` at the head of a loop in that loop.
pub proof fn lemma_structure_nests(blocks: Seq<BlockModel>, analysis: FunctionAnalysis)
    ensures
        opened_by(None, Some(Seq::empty()), plan_of(blocks, analysis)) == Some(
            Seq::<Option<u32>>::empty(),
        ),
{
    let sh = Shape { blocks, analysis };
    let entry = entry_of(blocks);
    lemma_region(sh, Set::empty(), entry, entry, None, None);
}

proof fn lemma_step_level(cx: Context, em: Emission, step: Step)
    requires
        em.indent >= 1,
    ensures
        cx.step(em, step).indent == (match step {
            Step::If(_) => em.indent as int + 1,
            Step::While { .. } => em.indent as int + 1,
            Step::Close => em.indent - 1,
            _ => em.indent as int,
        }),
{
    match step {
        Step::Block { id, led } => lemma_level_body(cx, cx.at_block(em, id, led), id),
        Step::While { id, led } => lemma_level_body(
            cx,
            cx.at_block(em, id, led).line("while (1) {"@).deeper(),
            id,
        ),
        Step::GotoIf { id, negated, target } => lemma_level_test(
            cx,
            em,
            id,
            negated,
            ") { goto "@ + label(target) + "; }"@,
        ),
        Step::ContinueIf { id, negated } => lemma_level_test(
            cx,
            em,
            id,
            negated,
            ") { continue; }"@,
        ),
        Step::BreakIf { id, negated } => lemma_level_test(cx, em, id, negated, ") { break; }"@),
        Step::If(id) => lemma_level_test(cx, em, id, false, ") {"@),
        _ => {},
    }
}

proof fn lemma_steps_level(cx: Context, em: Emission, outer: Option<u32>, steps: Seq<Step>)
    requires
        em.indent >= 1,
        opened_by(outer, Some(Seq::empty()), steps) is Some,
    ensures
        cx.steps(em, steps).indent == em.indent + opened_by(
            outer,
            Some(Seq::empty()),
            steps,
        )->0.len(),
    decreases steps.len(),
{
    if steps.len() > 0 {
        lemma_steps_level(cx, em, outer, steps.drop_last());
        lemma_step_level(cx, cx.steps(em, steps.drop_last()), steps.last());
    }
}

/// A region leaves the text before it and the declarations as they are, and ends at the level at
/// which it began; the blocks that it writes are blocks of the function that had not been written.
pub proof fn lemma_region_text(
    cx: Context,
    em: Emission,
    emitted: Set<u32>,
    start: u32,
    cur: u32,
    follow: Option<u32>,
    inner: Option<u32>,
)
    requires
        em.indent >= 1,
    ensures
        ({
            let sh = Shape { blocks: cx.blocks, analysis: cx.analysis };
            let (steps, more) = sh.region(emitted, start, cur, follow, inner);
            &&& goes_on(em, cx.steps(em, steps))
            &&& cx.steps(em, steps).indent == em.indent
            &&& forall|id: u32| #[trigger]
                more.contains(id) ==> !emitted.contains(id) && has_block(cx.blocks, id)
        }),
{
    let sh = Shape { blocks: cx.blocks, analysis: cx.analysis };
    lemma_region(sh, emitted, start, cur, follow, inner);
    let (steps, more) = sh.region(emitted, start, cur, follow, inner);
    lemma_steps_go_on(cx, em, steps);
    assert(opened_by(inner, Some(Seq::empty()), steps) == Some(Seq::<Option<u32>>::empty()));
    lemma_steps_level(cx, em, inner, steps);
}

proof fn lemma_block_at(blocks: Seq<BlockModel>, i: int)
    requires
        distinct(blocks),
        0 <= i < blocks.len(),
    ensures
        block_with(blocks, blocks[i].id) == Some(blocks[i]),
    decreases blocks.len(),
{
    if i > 0 {
        let rest = blocks.skip(1);
        assert(blocks[0].id != blocks[i].id);
        assert forall|j: int, k: int| 0 <= j < k < rest.len() implies (#[trigger] rest[j]).id != (
        #[trigger] rest[k]).id by {
            assert(blocks[j + 1].id != blocks[k + 1].id);
        }
        lemma_block_at(rest, i - 1);
        assert(rest[i - 1] == blocks[i]);
    }
}

/// An edge comes from a block.
proof fn lemma_edge_source(blocks: Seq<BlockModel>, e: (u32, u32)) -> (i: int)
    requires
        flow_edges(blocks).contains(e),
    ensures
        0 <= i < blocks.len(),
        blocks[i].id == e.0,
        blocks[i].successors().contains(e.1),
    decreases blocks.len(),
{
    let rest = blocks.drop_last();
    let last = edges_of(blocks.last());
    let all = flow_edges(rest) + last;
    let k = choose|k: int| 0 <= k < all.len() && all[k] == e;
    if k < flow_edges(rest).len() {
        assert(flow_edges(rest)[k] == e);
        let i = lemma_edge_source(rest, e);
        assert(rest[i] == blocks[i]);
        i
    } else {
        let n = k - flow_edges(rest).len();
        assert(last[n] == e);
        assert(blocks.last().successors()[n] == e.1);
        blocks.len() - 1
    }
}

/// The code of a function holds every block that can be reached in its flow graph exactly once.
pub proof fn lemma_reachable_written(
    blocks: Seq<BlockModel>,
    analysis: FunctionAnalysis,
    id: u32,
)
    requires
        analysis.describes(blocks),
        distinct(blocks),
        analysis.cfg.graph().reachable(id),
        has_block(blocks, id),
    ensures
        count(plan_of(blocks, analysis), id) == 1,
{
    let g = analysis.cfg.graph();
    let p = choose|p: Seq<u32>| g.path_to(p, id);
    analysis.cfg.lemma_describes_wf(blocks);
    assert forall|i: int| 0 <= i < p.len() - 1 implies succs_of(blocks, #[trigger] p[i]).contains(
        p[i + 1],
    ) by {
        assert(g.step(p, i));
        assert(g.edge(p[i], p[i + 1]));
        let k = lemma_edge_source(blocks, (p[i], p[i + 1]));
        lemma_block_at(blocks, k);
    }
    assert(meets(blocks, p, id));
    lemma_written_once(blocks, analysis, p, id);
}

} // verus!
