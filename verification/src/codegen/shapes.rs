//! Which constructs the structure of a function is made of.
use vstd::prelude::*;

use super::model::{block_with, plan_of};
use super::plan::{Shape, Step};
use crate::analysis::FunctionAnalysis;
use crate::ir::{BlockModel, StmtModel};

verus! {

/// The structure of a function begins with its first block, and nothing has been written before.
pub proof fn lemma_whole_shape(blocks: Seq<BlockModel>, analysis: FunctionAnalysis)
    requires
        blocks.len() > 0,
    ensures
        plan_of(blocks, analysis) == (Shape { blocks, analysis }).region(
            Set::empty(),
            blocks[0].id,
            blocks[0].id,
            None,
            None,
        ).0,
{
}

/// At a block that follows anyway nothing is written; at one that has been written there is a jump;
/// any other is written, and what its terminator leads to behind it.
pub proof fn lemma_region_shape(
    sh: Shape,
    emitted: Set<u32>,
    start: u32,
    cur: u32,
    follow: Option<u32>,
    inner: Option<u32>,
)
    ensures
        ({
            let (steps, more) = sh.region(emitted, start, cur, follow, inner);
            &&& Some(cur) == follow ==> steps.len() == 0
            &&& Some(cur) != follow && emitted.contains(cur) ==> steps == seq![Step::Goto(cur)]
            &&& Some(cur) == follow || emitted.contains(cur) || block_with(sh.blocks, cur) is None
                ==> more == Set::<u32>::empty()
            &&& Some(cur) != follow && !emitted.contains(cur) ==> (block_with(
                sh.blocks,
                cur,
            ) matches Some(block) ==> {
                let part = sh.turn(emitted.insert(cur), start, cur, block, follow, inner);
                &&& part.next is None ==> steps == part.steps && more == part.more.insert(cur)
                &&& part.next matches Some((first, next)) ==> {
                    let rest = sh.region(
                        emitted.insert(cur).union(part.more),
                        first,
                        next,
                        follow,
                        inner,
                    );
                    steps == part.steps + rest.0 && more == part.more.insert(cur).union(rest.1)
                }
            })
            &&& Some(cur) != follow && !emitted.contains(cur) && block_with(sh.blocks, cur) is None
                ==> steps.len() == 0
        }),
{
}

/// A block that is the header of a loop opens it, any other does not; it is led to unless its
/// region begins with it.
pub proof fn lemma_block_shape(
    sh: Shape,
    seen: Set<u32>,
    start: u32,
    cur: u32,
    block: BlockModel,
    follow: Option<u32>,
    inner: Option<u32>,
)
    ensures
        ({
            let part = sh.turn(seen, start, cur, block, follow, inner);
            let rest = sh.leave(seen, start, cur, block, follow, inner);
            let header = sh.analysis.loops.loops@.contains_key(cur);
            &&& part.steps.len() > 0
            &&& header ==> part.steps[0] == (Step::While { id: cur, led: cur != start })
                && part.steps.last() == Step::Close && part.steps.len() > 1
            &&& !header ==> part.steps == seq![Step::Block { id: cur, led: cur != start }]
                + rest.steps && part.next == rest.next && part.more == rest.more
        }),
{
}

/// A loop whose header ends in a branch of which exactly one side belongs to the loop ends there:
/// where the condition holds if that side leaves, else where it does not. The other side is the
/// body, and the region goes on with the side that leaves. The rest of any other loop stands in it.
pub proof fn lemma_loop_shape(sh: Shape, seen: Set<u32>, start: u32, cur: u32, block: BlockModel)
    ensures
        ({
            let part = sh.whole_loop(seen, start, cur, block);
            let members = sh.analysis.loops.loops@[cur]@;
            &&& block.stmts.len() > 0 ==> (
            block.stmts.last() matches StmtModel::Branch { cond, true_id, false_id } ==> {
                &&& members.contains(true_id) && !members.contains(false_id) ==> {
                    &&& part.steps[1] == (Step::BreakIf { id: cur, negated: true })
                    &&& part.next == Some((false_id, false_id))
                    &&& part.steps == seq![Step::While { id: cur, led: cur != start }] + seq![
                        Step::BreakIf { id: cur, negated: true },
                    ] + sh.region(seen, true_id, true_id, Some(cur), Some(cur)).0 + seq![
                        Step::Close,
                    ]
                }
                &&& !members.contains(true_id) && members.contains(false_id) ==> {
                    &&& part.steps[1] == (Step::BreakIf { id: cur, negated: false })
                    &&& part.next == Some((true_id, true_id))
                    &&& part.steps == seq![Step::While { id: cur, led: cur != start }] + seq![
                        Step::BreakIf { id: cur, negated: false },
                    ] + sh.region(seen, false_id, false_id, Some(cur), Some(cur)).0 + seq![
                        Step::Close,
                    ]
                }
                &&& members.contains(true_id) == members.contains(false_id) ==> part.next is None
            })
            &&& block.stmts.len() == 0 || !(block.stmts.last() is Branch) ==> part.next is None
        }),
{
}

/// Behind a jump the region goes on with its target; a remark stands there exactly if the jump
/// leads back and its target does not follow. Behind a return and an indirect jump nothing goes on.
pub proof fn lemma_jump_shape(
    sh: Shape,
    seen: Set<u32>,
    start: u32,
    cur: u32,
    block: BlockModel,
    follow: Option<u32>,
    inner: Option<u32>,
)
    requires
        block.stmts.len() > 0,
    ensures
        ({
            let part = sh.leave(seen, start, cur, block, follow, inner);
            &&& block.stmts.last() matches StmtModel::Jump(next) ==> {
                let back = sh.analysis.loops.back_edges@.contains((cur, next));
                &&& part.next == Some((start, next)) && part.more == Set::<u32>::empty()
                &&& back && Some(next) != follow ==> part.steps == seq![Step::BackEdge]
                &&& !back || Some(next) == follow ==> part.steps.len() == 0
            }
            &&& block.stmts.last() is Return || block.stmts.last() is IndirectJump ==> part.next
                is None && part.steps.len() == 0
        }),
{
}

/// A branch back to what has been written is a jump under its condition, or under the opposite for
/// the other side: the next round where it leads to the header of the innermost loop, else a jump
/// to a label; the region goes on with the other side. Any other branch is written with both sides
/// under the condition, up to where they join, and the region goes on there.
pub proof fn lemma_branch_shape(
    sh: Shape,
    seen: Set<u32>,
    start: u32,
    cur: u32,
    follow: Option<u32>,
    inner: Option<u32>,
    t: u32,
    f: u32,
)
    ensures
        ({
            let part = sh.branch(seen, start, cur, follow, inner, t, f);
            let edges = sh.analysis.loops.back_edges@;
            let back_t = edges.contains((cur, t)) && seen.contains(t);
            let back_f = edges.contains((cur, f)) && seen.contains(f);
            &&& back_t ==> part.next == Some((start, f)) && part.steps == seq![
                if Some(t) == inner {
                    Step::ContinueIf { id: cur, negated: false }
                } else {
                    Step::GotoIf { id: cur, negated: false, target: t }
                },
            ]
            &&& !back_t && back_f ==> part.next == Some((start, t)) && part.steps == seq![
                if Some(f) == inner {
                    Step::ContinueIf { id: cur, negated: true }
                } else {
                    Step::GotoIf { id: cur, negated: true, target: f }
                },
            ]
            &&& !back_t && !back_f ==> {
                let after = match sh.join(t, f) {
                    Some(j) => Some(j),
                    None => follow,
                };
                let left = sh.region(seen, t, t, after, inner);
                let right = sh.region(seen.union(left.1), f, f, after, inner);
                &&& Some(f) != after ==> part.steps == seq![Step::If(cur)] + left.0 + (seq![
                    Step::Else,
                ] + right.0) + seq![Step::Close]
                &&& Some(f) == after ==> part.steps == seq![Step::If(cur)] + left.0 + seq![
                    Step::Close,
                ]
                &&& sh.join(t, f) matches Some(j) ==> part.next == Some((start, j))
                &&& sh.join(t, f) is None ==> part.next is None
            }
        }),
{
    let after = match sh.join(t, f) {
        Some(j) => Some(j),
        None => follow,
    };
    let left = sh.region(seen, t, t, after, inner);
    assert(seq![Step::If(cur)] + left.0 + Seq::empty() + seq![Step::Close] =~= seq![Step::If(cur)]
        + left.0 + seq![Step::Close]);
}

} // verus!
