//! Control-flow analysis: the flow graph, the dominator tree and the loops of a function.
use vstd::prelude::*;

use crate::ir::{BlockModel, IrFunction};

pub mod cfg;
pub mod dom;
pub mod flows;
pub mod forward;
pub mod graph;
pub mod loops;
pub mod nesting;
pub mod order;

pub use self::cfg::Cfg;
pub use self::dom::DomTree;
pub use self::loops::LoopInfo;

verus! {

/// Full analysis result for a function
#[derive(Debug)]
pub struct FunctionAnalysis {
    pub cfg: Cfg,
    pub dom: DomTree,
    pub loops: LoopInfo,
}

impl FunctionAnalysis {
    /// The parts fit together: predecessor and successor lists agree, and immediate dominators
    /// come earlier in reverse post-order.
    pub open spec fn wf(self) -> bool {
        self.cfg.wf() && self.dom.wf()
    }

    /// This is the flow graph of the blocks, its dominator tree and its loops.
    pub open spec fn describes(self, blocks: Seq<BlockModel>) -> bool {
        &&& self.cfg.describes(blocks)
        &&& self.dom.describes(self.cfg)
        &&& self.loops.describes(self.cfg, self.dom)
    }

    pub fn analyze(func: &IrFunction) -> (analysis: Self)
        ensures
            analysis.describes(func@.blocks),
            analysis.wf(),
    {
        let cfg = Cfg::build(func);
        let dom = DomTree::compute(&cfg);
        let loops = LoopInfo::compute(&cfg, &dom);
        Self { cfg, dom, loops }
    }
}

} // verus!
