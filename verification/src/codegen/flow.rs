//! Control passes through the C code of a function as it passes through its blocks.
use vstd::prelude::*;

use super::complete::{around, lemma_opened_add, lemma_single, opened, opened_by, Nesting};
use super::plan::Step;

verus! {

/// The steps behind the one that closes the innermost of what is open, where `deep` more have been
/// opened since.
pub open spec fn beyond(steps: Seq<Step>, deep: nat) -> Seq<Step>
    decreases steps.len(),
{
    if steps.len() == 0 {
        Seq::empty()
    } else {
        let rest = steps.skip(1);
        match steps[0] {
            Step::If(_) => beyond(rest, deep + 1),
            Step::While { .. } => beyond(rest, deep + 1),
            Step::Close => if deep == 0 {
                rest
            } else {
                beyond(rest, (deep - 1) as nat)
            },
            _ => beyond(rest, deep),
        }
    }
}

/// Where control goes on if a condition does not hold: in its `else`, which the second part says,
/// or behind the step that closes it.
pub open spec fn otherwise(steps: Seq<Step>, deep: nat) -> (Seq<Step>, bool)
    decreases steps.len(),
{
    if steps.len() == 0 {
        (Seq::empty(), false)
    } else {
        let rest = steps.skip(1);
        match steps[0] {
            Step::If(_) => otherwise(rest, deep + 1),
            Step::While { .. } => otherwise(rest, deep + 1),
            Step::Else => if deep == 0 {
                (rest, true)
            } else {
                otherwise(rest, deep)
            },
            Step::Close => if deep == 0 {
                (rest, false)
            } else {
                otherwise(rest, (deep - 1) as nat)
            },
            _ => otherwise(rest, deep),
        }
    }
}

pub proof fn lemma_beyond_len(steps: Seq<Step>, deep: nat)
    ensures
        beyond(steps, deep).len() <= steps.len(),
    decreases steps.len(),
{
    if steps.len() > 0 {
        let rest = steps.skip(1);
        lemma_beyond_len(rest, deep);
        lemma_beyond_len(rest, deep + 1);
        if deep > 0 {
            lemma_beyond_len(rest, (deep - 1) as nat);
        }
    }
}

/// The block at which control arrives from in front of the steps: the one that the next step
/// writes or jumps to, the header of a loop at its end, and behind all steps `fall`. `nest` is what
/// is open, and `outer` the header of the loop around all of it.
pub open spec fn lands(
    outer: Option<u32>,
    nest: Nesting,
    steps: Seq<Step>,
    fall: Option<u32>,
) -> Option<u32>
    decreases steps.len(),
{
    if steps.len() == 0 {
        fall
    } else {
        let rest = steps.skip(1);
        match steps[0] {
            Step::Block { id, .. } => Some(id),
            Step::While { id, .. } => Some(id),
            Step::BackEdge => lands(outer, nest, rest, fall),
            Step::Goto(id) => Some(id),
            Step::Else => {
                proof {
                    lemma_beyond_len(rest, 0);
                }
                lands(outer, nest.drop_last(), beyond(rest, 0), fall)
            },
            Step::Close => if nest.last() is Some {
                nest.last()
            } else {
                lands(outer, nest.drop_last(), rest, fall)
            },
            _ => None,
        }
    }
}

/// The block at which control arrives behind the statements of block `id`, where `holds` says
/// whether the condition of its branch holds; none where the condition of another block is asked.
pub open spec fn passes_on(
    outer: Option<u32>,
    nest: Nesting,
    steps: Seq<Step>,
    id: u32,
    holds: bool,
    fall: Option<u32>,
) -> Option<u32> {
    if steps.len() == 0 {
        fall
    } else {
        let rest = steps.skip(1);
        match steps[0] {
            Step::GotoIf { id: asked, negated, target } => if asked != id {
                None
            } else if holds != negated {
                Some(target)
            } else {
                lands(outer, nest, rest, fall)
            },
            Step::ContinueIf { id: asked, negated } => if asked != id {
                None
            } else if holds != negated {
                around(outer, nest)
            } else {
                lands(outer, nest, rest, fall)
            },
            Step::BreakIf { id: asked, negated } => if asked != id {
                None
            } else if holds != negated {
                lands(outer, nest.drop_last(), beyond(rest, 0), fall)
            } else {
                lands(outer, nest, rest, fall)
            },
            Step::If(asked) => if asked != id {
                None
            } else if holds {
                lands(outer, nest.push(None), rest, fall)
            } else {
                let (steps, inside) = otherwise(rest, 0);
                lands(
                    outer,
                    if inside {
                        nest.push(None)
                    } else {
                        nest
                    },
                    steps,
                    fall,
                )
            },
            _ => lands(outer, nest, steps, fall),
        }
    }
}

/// The steps close what is open, and nothing else.
pub open spec fn closes(outer: Option<u32>, nest: Nesting, steps: Seq<Step>) -> bool {
    opened_by(outer, Some(nest), steps) == Some(Seq::<Option<u32>>::empty())
}

/// The first step asks for a condition.
pub open spec fn asks(steps: Seq<Step>) -> bool {
    steps.len() > 0 && (steps[0] is GotoIf || steps[0] is ContinueIf || steps[0] is BreakIf
        || steps[0] is If)
}

pub(crate) proof fn lemma_opened_none(outer: Option<u32>, steps: Seq<Step>)
    ensures
        opened_by(outer, None, steps) is None,
    decreases steps.len(),
{
    if steps.len() > 0 {
        lemma_opened_none(outer, steps.drop_last());
    }
}

/// The first step on its own.
proof fn lemma_closes_front(outer: Option<u32>, nest: Nesting, steps: Seq<Step>)
    requires
        closes(outer, nest, steps),
    ensures
        steps.len() == 0 ==> nest.len() == 0,
        steps.len() > 0 ==> opened(outer, Some(nest), steps[0]) is Some && closes(
            outer,
            opened(outer, Some(nest), steps[0])->0,
            steps.skip(1),
        ),
{
    if steps.len() > 0 {
        let first = seq![steps[0]];
        let rest = steps.skip(1);
        lemma_single(steps[0]);
        assert(first + rest =~= steps);
        lemma_opened_add(outer, Some(nest), first, rest);
        lemma_opened_none(outer, rest);
    }
}

pub(crate) proof fn lemma_around_add(outer: Option<u32>, low: Nesting, high: Nesting)
    ensures
        around(outer, low + high) == around(around(outer, low), high),
    decreases high.len(),
{
    if high.len() == 0 {
        assert(low + high =~= low);
    } else {
        assert((low + high).drop_last() =~= low + high.drop_last());
        lemma_around_add(outer, low, high.drop_last());
    }
}

/// What closes something open within the steps lies within them.
proof fn lemma_beyond_add(
    outer: Option<u32>,
    nest: Nesting,
    a: Seq<Step>,
    b: Seq<Step>,
    deep: nat,
)
    requires
        closes(outer, nest, a),
        deep < nest.len(),
    ensures
        beyond(a + b, deep) == beyond(a, deep) + b,
        closes(outer, nest.take(nest.len() - 1 - deep), beyond(a, deep)),
    decreases a.len(),
{
    lemma_closes_front(outer, nest, a);
    let rest = a.skip(1);
    assert((a + b).skip(1) =~= rest + b);
    assert((a + b)[0] == a[0]);
    let next = opened(outer, Some(nest), a[0])->0;
    let low = nest.take(nest.len() - 1 - deep);
    match a[0] {
        Step::If(_) => {
            lemma_beyond_add(outer, next, rest, b, deep + 1);
            assert(next.take(next.len() - 1 - (deep + 1)) =~= low);
        },
        Step::While { .. } => {
            lemma_beyond_add(outer, next, rest, b, deep + 1);
            assert(next.take(next.len() - 1 - (deep + 1)) =~= low);
        },
        Step::Close => {
            if deep > 0 {
                lemma_beyond_add(outer, next, rest, b, (deep - 1) as nat);
                assert(next.take(next.len() - 1 - (deep - 1)) =~= low);
            } else {
                assert(low =~= next);
            }
        },
        _ => {
            lemma_beyond_add(outer, next, rest, b, deep);
        },
    }
}

/// What closes something that was open before the steps lies behind them.
pub(crate) proof fn lemma_beyond_past(outer: Option<u32>, nest: Nesting, a: Seq<Step>, b: Seq<Step>)
    requires
        closes(outer, nest, a),
    ensures
        beyond(a + b, nest.len()) == beyond(b, 0),
        otherwise(a + b, nest.len()) == otherwise(b, 0),
    decreases a.len(),
{
    lemma_closes_front(outer, nest, a);
    if a.len() == 0 {
        assert(a + b =~= b);
    } else {
        let rest = a.skip(1);
        assert((a + b).skip(1) =~= rest + b);
        assert((a + b)[0] == a[0]);
        lemma_beyond_past(outer, opened(outer, Some(nest), a[0])->0, rest, b);
    }
}

/// The `else` of a condition within the steps, or what closes it, lies within them.
proof fn lemma_otherwise_add(
    outer: Option<u32>,
    nest: Nesting,
    a: Seq<Step>,
    b: Seq<Step>,
    deep: nat,
)
    requires
        closes(outer, nest, a),
        deep < nest.len(),
    ensures
        otherwise(a + b, deep) == (otherwise(a, deep).0 + b, otherwise(a, deep).1),
        closes(
            outer,
            if otherwise(a, deep).1 {
                nest.take(nest.len() - deep)
            } else {
                nest.take(nest.len() - 1 - deep)
            },
            otherwise(a, deep).0,
        ),
    decreases a.len(),
{
    lemma_closes_front(outer, nest, a);
    let rest = a.skip(1);
    assert((a + b).skip(1) =~= rest + b);
    assert((a + b)[0] == a[0]);
    let next = opened(outer, Some(nest), a[0])->0;
    let low = nest.take(nest.len() - 1 - deep);
    let here = nest.take(nest.len() - deep);
    match a[0] {
        Step::If(_) => {
            lemma_otherwise_add(outer, next, rest, b, deep + 1);
            assert(next.take(next.len() - 1 - (deep + 1)) =~= low);
            assert(next.take(next.len() - (deep + 1)) =~= here);
        },
        Step::While { .. } => {
            lemma_otherwise_add(outer, next, rest, b, deep + 1);
            assert(next.take(next.len() - 1 - (deep + 1)) =~= low);
            assert(next.take(next.len() - (deep + 1)) =~= here);
        },
        Step::Close => {
            if deep > 0 {
                lemma_otherwise_add(outer, next, rest, b, (deep - 1) as nat);
                assert(next.take(next.len() - 1 - (deep - 1)) =~= low);
                assert(next.take(next.len() - (deep - 1)) =~= here);
            } else {
                assert(low =~= next);
            }
        },
        Step::Else => {
            if deep > 0 {
                lemma_otherwise_add(outer, next, rest, b, deep);
            } else {
                assert(here =~= next);
            }
        },
        _ => {
            lemma_otherwise_add(outer, next, rest, b, deep);
        },
    }
}

/// Control leaves the first steps only to arrive in front of the others.
pub(crate) proof fn lemma_lands_add(
    outer: Option<u32>,
    low: Nesting,
    high: Nesting,
    a: Seq<Step>,
    b: Seq<Step>,
    fall: Option<u32>,
)
    requires
        closes(around(outer, low), high, a),
    ensures
        lands(outer, low + high, a + b, fall) == lands(
            around(outer, low),
            high,
            a,
            lands(outer, low, b, fall),
        ),
    decreases a.len(),
{
    let inner = around(outer, low);
    lemma_closes_front(inner, high, a);
    if a.len() == 0 {
        assert(a + b =~= b);
        assert(low + high =~= low);
    } else {
        let rest = a.skip(1);
        assert((a + b).skip(1) =~= rest + b);
        assert((a + b)[0] == a[0]);
        let next = opened(inner, Some(high), a[0])->0;
        lemma_around_add(outer, low, high);
        match a[0] {
            Step::BackEdge => {
                lemma_lands_add(outer, low, high, rest, b, fall);
            },
            Step::Else => {
                lemma_beyond_add(inner, high, rest, b, 0);
                lemma_beyond_len(rest, 0);
                assert(high.take(high.len() - 1) =~= high.drop_last());
                assert((low + high).drop_last() =~= low + high.drop_last());
                lemma_lands_add(outer, low, high.drop_last(), beyond(rest, 0), b, fall);
            },
            Step::Close => {
                assert((low + high).last() == high.last());
                if high.last() is None {
                    assert((low + high).drop_last() =~= low + high.drop_last());
                    lemma_lands_add(outer, low, high.drop_last(), rest, b, fall);
                }
            },
            _ => {},
        }
    }
}

pub(crate) proof fn lemma_passes_on_add(
    outer: Option<u32>,
    low: Nesting,
    high: Nesting,
    a: Seq<Step>,
    b: Seq<Step>,
    id: u32,
    holds: bool,
    fall: Option<u32>,
)
    requires
        closes(around(outer, low), high, a),
        a.len() > 0 || !asks(b),
    ensures
        passes_on(outer, low + high, a + b, id, holds, fall) == passes_on(
            around(outer, low),
            high,
            a,
            id,
            holds,
            lands(outer, low, b, fall),
        ),
{
    let inner = around(outer, low);
    lemma_closes_front(inner, high, a);
    lemma_lands_add(outer, low, high, a, b, fall);
    if a.len() == 0 {
        assert(a + b =~= b);
        assert(low + high =~= low);
    } else {
        let rest = a.skip(1);
        assert((a + b).skip(1) =~= rest + b);
        assert((a + b)[0] == a[0]);
        let next = opened(inner, Some(high), a[0])->0;
        lemma_around_add(outer, low, high);
        match a[0] {
            Step::GotoIf { .. } => {
                lemma_lands_add(outer, low, high, rest, b, fall);
            },
            Step::ContinueIf { .. } => {
                lemma_lands_add(outer, low, high, rest, b, fall);
            },
            Step::BreakIf { .. } => {
                lemma_lands_add(outer, low, high, rest, b, fall);
                lemma_beyond_add(inner, high, rest, b, 0);
                assert(high.take(high.len() - 1) =~= high.drop_last());
                assert((low + high).drop_last() =~= low + high.drop_last());
                lemma_lands_add(outer, low, high.drop_last(), beyond(rest, 0), b, fall);
            },
            Step::If(_) => {
                assert((low + high).push(None) =~= low + next);
                lemma_lands_add(outer, low, next, rest, b, fall);
                lemma_otherwise_add(inner, next, rest, b, 0);
                assert(next.take(next.len() as int) =~= next);
                assert(next.take(next.len() - 1) =~= high);
                let (steps, inside) = otherwise(rest, 0);
                if inside {
                    lemma_lands_add(outer, low, next, steps, b, fall);
                } else {
                    lemma_lands_add(outer, low, high, steps, b, fall);
                }
            },
            _ => {},
        }
    }
}

} // verus!
