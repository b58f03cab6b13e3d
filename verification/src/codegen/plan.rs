//! The structure of the C code of a function: the order in which its blocks are written, and what
//! is written between them.
use vstd::prelude::*;

use super::model::{block_with, join_of};
use crate::analysis::FunctionAnalysis;
use crate::finite::{lemma_outside32, lemma_outside32_subset, outside32};
use crate::ir::{BlockModel, StmtModel};

verus! {

/// A step of the structure. Where a step names a block for its condition, the condition is that of
/// the branch at the end of the block, or its negation.
#[derive(Debug, Clone, Copy, PartialEq, Eq, Structural)]
pub enum Step {
    /// The statements of a block; `led` says that control comes from the block before it
    Block { id: u32, led: bool },
    /// A loop is opened, with the statements of its header
    While { id: u32, led: bool },
    /// A remark on an edge that leads back
    BackEdge,
    /// A jump to a block
    Goto(u32),
    /// A jump to a block under a condition
    GotoIf { id: u32, negated: bool, target: u32 },
    /// The next round of the loop around it under a condition
    ContinueIf { id: u32, negated: bool },
    /// The end of the loop around it under a condition
    BreakIf { id: u32, negated: bool },
    /// What is written under the condition is opened
    If(u32),
    /// What is written under the opposite of the condition is opened
    Else,
    /// The innermost loop or condition is closed
    Close,
}

impl Step {
    /// The block whose statements the step writes.
    pub open spec fn writes(self) -> Option<u32> {
        match self {
            Step::Block { id, .. } => Some(id),
            Step::While { id, .. } => Some(id),
            _ => None,
        }
    }

    /// The block to whose label the step jumps.
    pub open spec fn target(self) -> Option<u32> {
        match self {
            Step::Goto(id) => Some(id),
            Step::GotoIf { target, .. } => Some(target),
            _ => None,
        }
    }
}

/// Some step jumps to the label of the block.
pub open spec fn jumped_to(steps: Seq<Step>, id: u32) -> bool {
    exists|i: int| 0 <= i < steps.len() && (#[trigger] steps[i]).target() == Some(id)
}

/// The blocks to whose labels the steps jump.
pub open spec fn targets(steps: Seq<Step>) -> Set<u32> {
    Set::new(|id: u32| jumped_to(steps, id))
}

/// What the structure of a function depends on.
pub ghost struct Shape {
    pub blocks: Seq<BlockModel>,
    pub analysis: FunctionAnalysis,
}

/// The structure from some point on: the steps, the blocks that they write, and where it goes on;
/// that is the block and the block at which its region begins.
pub ghost struct Part {
    pub steps: Seq<Step>,
    pub more: Set<u32>,
    pub next: Option<(u32, u32)>,
}

impl Shape {
    pub open spec fn back_edge(self, src: u32, dst: u32) -> bool {
        self.analysis.loops.back_edges@.contains((src, dst))
    }

    pub open spec fn header(self, id: u32) -> bool {
        self.analysis.loops.loops@.contains_key(id)
    }

    /// The block belongs to the loop of the header.
    pub open spec fn member(self, header: u32, id: u32) -> bool {
        self.analysis.loops.loops@[header]@.contains(id)
    }

    pub open spec fn join(self, a: u32, b: u32) -> Option<u32> {
        join_of(self.analysis.cfg.graph(), self.analysis.dom.rpo@, a, b)
    }

    /// Control goes to a block that is written elsewhere: nothing where it follows anyway.
    pub open spec fn pass(self, cur: u32, follow: Option<u32>) -> Seq<Step> {
        if Some(cur) == follow {
            Seq::empty()
        } else {
            seq![Step::Goto(cur)]
        }
    }

    /// The structure from block `cur` on, up to the block `follow`. `emitted` has been written;
    /// `start` is the block at which the region began; `inner` is the header of the innermost loop
    /// around it. The result is the steps and the blocks that they write.
    pub open spec fn region(
        self,
        emitted: Set<u32>,
        start: u32,
        cur: u32,
        follow: Option<u32>,
        inner: Option<u32>,
    ) -> (Seq<Step>, Set<u32>)
        decreases outside32(emitted), 0nat,
    {
        if emitted.contains(cur) || Some(cur) == follow {
            (self.pass(cur, follow), Set::empty())
        } else {
            match block_with(self.blocks, cur) {
                None => (Seq::empty(), Set::empty()),
                Some(block) => {
                    let seen = emitted.insert(cur);
                    proof {
                        lemma_outside32(emitted, cur);
                    }
                    let part = self.turn(seen, start, cur, block, follow, inner);
                    proof {
                        lemma_outside32_subset(seen, seen.union(part.more));
                    }
                    match part.next {
                        None => (part.steps, part.more.insert(cur)),
                        Some((first, next)) => {
                            let (steps, more) = self.region(
                                seen.union(part.more),
                                first,
                                next,
                                follow,
                                inner,
                            );
                            (part.steps + steps, part.more.insert(cur).union(more))
                        },
                    }
                },
            }
        }
    }

    /// The structure of one block, with all that it encloses. A header opens a loop.
    pub open spec fn turn(
        self,
        seen: Set<u32>,
        start: u32,
        cur: u32,
        block: BlockModel,
        follow: Option<u32>,
        inner: Option<u32>,
    ) -> Part
        decreases outside32(seen), 4nat,
    {
        if self.header(cur) {
            self.whole_loop(seen, start, cur, block)
        } else {
            let part = self.leave(seen, start, cur, block, follow, inner);
            Part { steps: seq![Step::Block { id: cur, led: cur != start }] + part.steps, ..part }
        }
    }

    /// The structure of a loop. Where exactly one of the branches of its header leaves it, the loop
    /// ends there and the region goes on with that branch; otherwise all of the rest stands in the
    /// loop.
    pub open spec fn whole_loop(
        self,
        seen: Set<u32>,
        start: u32,
        cur: u32,
        block: BlockModel,
    ) -> Part
        decreases outside32(seen), 3nat,
    {
        let open = seq![Step::While { id: cur, led: cur != start }];
        match self.exit_of(cur, block) {
            Some((body, exit, negated)) => {
                let (steps, more) = self.region(seen, body, body, Some(cur), Some(cur));
                Part {
                    steps: open + seq![Step::BreakIf { id: cur, negated }] + steps
                        + seq![Step::Close],
                    more,
                    next: Some((exit, exit)),
                }
            },
            None => {
                let part = self.leave(seen, cur, cur, block, Some(cur), Some(cur));
                proof {
                    lemma_outside32_subset(seen, seen.union(part.more));
                }
                let (steps, more) = match part.next {
                    Some((first, next)) => self.region(
                        seen.union(part.more),
                        first,
                        next,
                        Some(cur),
                        Some(cur),
                    ),
                    None => (Seq::empty(), Set::empty()),
                };
                Part {
                    steps: open + part.steps + steps + seq![Step::Close],
                    more: part.more.union(more),
                    next: None,
                }
            },
        }
    }

    /// The branch of a header that stays in the loop, the one that leaves it, and whether it leaves
    /// where the condition does not hold.
    pub open spec fn exit_of(self, header: u32, block: BlockModel) -> Option<(u32, u32, bool)> {
        match block.terminator() {
            Some(StmtModel::Branch { cond, true_id, false_id }) => {
                let stays = self.member(header, true_id);
                if stays == self.member(header, false_id) {
                    None
                } else if stays {
                    Some((true_id, false_id, true))
                } else {
                    Some((false_id, true_id, false))
                }
            },
            _ => None,
        }
    }

    /// The structure after the statements of a block.
    pub open spec fn leave(
        self,
        seen: Set<u32>,
        start: u32,
        cur: u32,
        block: BlockModel,
        follow: Option<u32>,
        inner: Option<u32>,
    ) -> Part
        decreases outside32(seen), 2nat,
    {
        match block.terminator() {
            Some(StmtModel::Jump(next)) => Part {
                steps: if self.back_edge(cur, next) && Some(next) != follow {
                    seq![Step::BackEdge]
                } else {
                    Seq::empty()
                },
                more: Set::empty(),
                next: Some((start, next)),
            },
            Some(StmtModel::Branch { cond, true_id, false_id }) => self.branch(
                seen,
                start,
                cur,
                follow,
                inner,
                true_id,
                false_id,
            ),
            _ => Part { steps: Seq::empty(), more: Set::empty(), next: None },
        }
    }

    /// A jump back under a condition.
    pub open spec fn back_if(
        self,
        cur: u32,
        negated: bool,
        target: u32,
        inner: Option<u32>,
    ) -> Seq<Step> {
        if Some(target) == inner {
            seq![Step::ContinueIf { id: cur, negated }]
        } else {
            seq![Step::GotoIf { id: cur, negated, target }]
        }
    }

    /// The structure of the branch at the end of block `cur`. A branch back to what has been
    /// written is a jump, and the region goes on with the other branch. Otherwise each branch is
    /// written up to the join, or up to what follows where there is none, and the region goes on at
    /// the join.
    pub open spec fn branch(
        self,
        seen: Set<u32>,
        start: u32,
        cur: u32,
        follow: Option<u32>,
        inner: Option<u32>,
        t: u32,
        f: u32,
    ) -> Part
        decreases outside32(seen), 1nat,
    {
        if self.back_edge(cur, t) && seen.contains(t) {
            Part {
                steps: self.back_if(cur, false, t, inner),
                more: Set::empty(),
                next: Some((start, f)),
            }
        } else if self.back_edge(cur, f) && seen.contains(f) {
            Part {
                steps: self.back_if(cur, true, f, inner),
                more: Set::empty(),
                next: Some((start, t)),
            }
        } else {
            let join = self.join(t, f);
            let after = match join {
                Some(j) => Some(j),
                None => follow,
            };
            let (left, l) = self.region(seen, t, t, after, inner);
            proof {
                lemma_outside32_subset(seen, seen.union(l));
            }
            let (right, r) = if Some(f) != after {
                let (right, r) = self.region(seen.union(l), f, f, after, inner);
                (seq![Step::Else] + right, r)
            } else {
                (Seq::empty(), Set::empty())
            };
            Part {
                steps: seq![Step::If(cur)] + left + right + seq![Step::Close],
                more: l.union(r),
                next: match join {
                    Some(j) => Some((start, j)),
                    None => None,
                },
            }
        }
    }
}

} // verus!
