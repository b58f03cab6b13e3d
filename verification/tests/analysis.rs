use std::collections::HashSet;

use simple_decompiler::analysis::{Cfg, DomTree, FunctionAnalysis, LoopInfo};
use simple_decompiler::ir::{BasicBlock, Expr, IrFunction, Stmt, Width};

/// A function with the given blocks: id and successors, none for a return.
fn func(blocks: &[(u32, &[u32])]) -> IrFunction {
    let mut f = IrFunction::new(0x1000, "f".to_string());
    for (id, succs) in blocks {
        let mut b = BasicBlock::new(*id, 0x1000 + *id as u64);
        match succs.len() {
            0 => b.stmts.push(Stmt::Return(None)),
            1 => b.stmts.push(Stmt::Jump(succs[0])),
            _ => b.stmts.push(Stmt::Branch {
                cond: Expr::Const(1, Width::W8),
                true_id: succs[0],
                false_id: succs[1],
            }),
        }
        f.blocks.push(b);
    }
    f
}

fn set(ids: &[u32]) -> HashSet<u32> {
    ids.iter().copied().collect()
}

#[test]
fn cfg_of_a_diamond() {
    let cfg = Cfg::build(&func(&[(0, &[1, 2]), (1, &[3]), (2, &[3]), (3, &[])]));
    assert_eq!(cfg.entry, 0);
    assert_eq!(cfg.block_ids, vec![0, 1, 2, 3]);
    assert_eq!(cfg.successors(0), &[1, 2]);
    assert_eq!(cfg.successors(3), &[] as &[u32]);
    assert_eq!(cfg.predecessors(3), &[1, 2]);
    assert_eq!(cfg.predecessors(0), &[] as &[u32]);
    assert_eq!(cfg.successors(99), &[] as &[u32]);
    assert_eq!(cfg.predecessors(99), &[] as &[u32]);
}

#[test]
fn cfg_of_no_blocks() {
    let cfg = Cfg::build(&func(&[]));
    assert_eq!(cfg.entry, 0);
    assert!(cfg.block_ids.is_empty());
    assert!(cfg.succs.is_empty());
    assert!(cfg.preds.is_empty());
    let dom = DomTree::compute(&cfg);
    assert_eq!(dom.rpo, vec![0]);
}

#[test]
fn cfg_keeps_both_edges_of_a_branch_to_one_block() {
    let cfg = Cfg::build(&func(&[(5, &[6, 6]), (6, &[])]));
    assert_eq!(cfg.entry, 5);
    assert_eq!(cfg.successors(5), &[6, 6]);
    assert_eq!(cfg.predecessors(6), &[5, 5]);
}

#[test]
fn cfg_has_predecessors_of_missing_blocks() {
    let cfg = Cfg::build(&func(&[(0, &[9])]));
    assert_eq!(cfg.predecessors(9), &[0]);
    assert!(!cfg.succs.contains_key(&9));
    assert!(cfg.preds.contains_key(&9));
}

#[test]
fn predecessors_mirror_successors() {
    let cfg = Cfg::build(&func(&[(0, &[1, 2]), (1, &[0]), (2, &[2, 1]), (3, &[0, 2])]));
    for a in 0..5u32 {
        for b in 0..5u32 {
            assert_eq!(cfg.successors(a).contains(&b), cfg.predecessors(b).contains(&a));
        }
    }
}

#[test]
fn reverse_post_order_of_a_diamond() {
    let cfg = Cfg::build(&func(&[(0, &[1, 2]), (1, &[3]), (2, &[3]), (3, &[])]));
    let dom = DomTree::compute(&cfg);
    // the last successor is entered first, so it is left first and stands behind
    assert_eq!(dom.rpo, vec![0, 1, 2, 3]);
    for (i, id) in dom.rpo.iter().enumerate() {
        assert_eq!(dom.rpo_idx[id], i);
    }
}

#[test]
fn immediate_dominators_of_a_diamond() {
    let cfg = Cfg::build(&func(&[(0, &[1, 2]), (1, &[3]), (2, &[3]), (3, &[])]));
    let dom = DomTree::compute(&cfg);
    assert_eq!(dom.idom[&0], None);
    assert_eq!(dom.idom[&1], Some(0));
    assert_eq!(dom.idom[&2], Some(0));
    assert_eq!(dom.idom[&3], Some(0));
    let kids: HashSet<u32> = dom.children(0).into_iter().collect();
    assert_eq!(kids, set(&[1, 2, 3]));
    assert!(dom.children(3).is_empty());
    assert!(dom.children(77).is_empty());
}

#[test]
fn dominance_of_a_diamond() {
    let cfg = Cfg::build(&func(&[(0, &[1, 2]), (1, &[3]), (2, &[3]), (3, &[])]));
    let dom = DomTree::compute(&cfg);
    for b in 0..4 {
        assert!(dom.dominates(0, b));
        assert!(dom.dominates(b, b));
    }
    assert!(!dom.dominates(1, 3));
    assert!(!dom.dominates(2, 3));
    assert!(!dom.dominates(3, 0));
    assert!(!dom.dominates(1, 2));
}

#[test]
fn unreachable_blocks_have_no_dominator_but_themselves() {
    let cfg = Cfg::build(&func(&[(0, &[1]), (1, &[]), (2, &[1])]));
    let dom = DomTree::compute(&cfg);
    assert_eq!(dom.rpo, vec![0, 1]);
    assert!(!dom.idom.contains_key(&2));
    assert!(!dom.rpo_idx.contains_key(&2));
    assert!(dom.dominates(2, 2));
    assert!(!dom.dominates(0, 2));
    assert_eq!(dom.idom[&1], Some(0));
}

#[test]
fn irreducible_graph() {
    // two ways into the cycle 1 <-> 2
    let cfg = Cfg::build(&func(&[(0, &[1, 2]), (1, &[2]), (2, &[1, 3]), (3, &[])]));
    let dom = DomTree::compute(&cfg);
    assert_eq!(dom.idom[&1], Some(0));
    assert_eq!(dom.idom[&2], Some(0));
    assert_eq!(dom.idom[&3], Some(2));
    let info = LoopInfo::compute(&cfg, &dom);
    assert!(info.back_edges.is_empty());
    assert!(info.loops.is_empty());
}

#[test]
fn dominator_needs_more_than_one_pass() {
    let cfg = Cfg::build(&func(&[
        (0, &[4, 5]),
        (4, &[3]),
        (5, &[1]),
        (1, &[2]),
        (2, &[1, 3]),
        (3, &[2]),
    ]));
    let dom = DomTree::compute(&cfg);
    assert_eq!(dom.idom[&1], Some(0));
    assert_eq!(dom.idom[&2], Some(0));
    assert_eq!(dom.idom[&3], Some(0));
    assert_eq!(dom.idom[&4], Some(0));
    assert_eq!(dom.idom[&5], Some(0));
}

#[test]
fn dominance_is_what_every_path_passes() {
    let edges: [(u32, &[u32]); 7] = [
        (0, &[1]),
        (1, &[2, 3]),
        (2, &[4]),
        (3, &[4]),
        (4, &[5, 1]),
        (5, &[6]),
        (6, &[]),
    ];
    let cfg = Cfg::build(&func(&edges));
    let dom = DomTree::compute(&cfg);
    for a in 0..7u32 {
        // what can be reached without passing a
        let mut seen = HashSet::new();
        let mut work = vec![0u32];
        while let Some(n) = work.pop() {
            if n == a || !seen.insert(n) {
                continue;
            }
            work.extend_from_slice(cfg.successors(n));
        }
        for b in 0..7u32 {
            assert_eq!(dom.dominates(a, b), !seen.contains(&b), "{} {}", a, b);
        }
    }
}

#[test]
fn natural_loop_of_a_while() {
    // 0 -> 1; 1 -> 2 | 3; 2 -> 1
    let f = func(&[(0, &[1]), (1, &[2, 3]), (2, &[1]), (3, &[])]);
    let a = FunctionAnalysis::analyze(&f);
    assert_eq!(a.loops.back_edges, vec![(2, 1)]);
    assert!(a.loops.is_back_edge(2, 1));
    assert!(!a.loops.is_back_edge(1, 2));
    assert!(a.loops.is_loop_header(1));
    assert!(!a.loops.is_loop_header(2));
    assert_eq!(a.loops.loops[&1], set(&[1, 2]));
    assert_eq!(a.loops.block_loop[&1], 1);
    assert_eq!(a.loops.block_loop[&2], 1);
    assert!(!a.loops.block_loop.contains_key(&0));
    assert!(!a.loops.block_loop.contains_key(&3));
    assert_eq!(a.loops.loop_exits(1, &a.cfg), vec![1]);
    assert!(a.loops.loop_exits(3, &a.cfg).is_empty());
}

#[test]
fn self_loop_holds_its_block_only() {
    let a = FunctionAnalysis::analyze(&func(&[(0, &[1]), (1, &[1, 2]), (2, &[])]));
    assert_eq!(a.loops.back_edges, vec![(1, 1)]);
    assert_eq!(a.loops.loops[&1], set(&[1]));
    assert_eq!(a.loops.loop_exits(1, &a.cfg), vec![1]);
}

#[test]
fn nested_loops_give_the_innermost_header() {
    // outer 1..4, inner 2..3
    let a = FunctionAnalysis::analyze(&func(&[
        (0, &[1]),
        (1, &[2, 5]),
        (2, &[3]),
        (3, &[2, 4]),
        (4, &[1]),
        (5, &[]),
    ]));
    assert_eq!(a.loops.back_edges, vec![(3, 2), (4, 1)]);
    assert_eq!(a.loops.loops[&1], set(&[1, 2, 3, 4]));
    assert_eq!(a.loops.loops[&2], set(&[2, 3]));
    assert_eq!(a.loops.block_loop[&1], 1);
    assert_eq!(a.loops.block_loop[&2], 2);
    assert_eq!(a.loops.block_loop[&3], 2);
    assert_eq!(a.loops.block_loop[&4], 1);
    // the header dominates all blocks of its loop
    for (h, members) in &a.loops.loops {
        for b in members {
            assert!(a.dom.dominates(*h, *b));
        }
    }
}

#[test]
fn two_tails_share_one_loop() {
    let a = FunctionAnalysis::analyze(&func(&[(0, &[1, 2]), (1, &[0]), (2, &[0, 3]), (3, &[])]));
    assert_eq!(a.loops.back_edges, vec![(1, 0), (2, 0)]);
    assert_eq!(a.loops.loops.len(), 1);
    assert_eq!(a.loops.loops[&0], set(&[0, 1, 2]));
    assert_eq!(a.loops.loop_exits(0, &a.cfg), vec![2]);
}

#[test]
fn back_edges_are_edges_to_a_dominator() {
    let f = func(&[(0, &[1]), (1, &[2, 3]), (2, &[1, 4]), (3, &[4]), (4, &[0, 2])]);
    let a = FunctionAnalysis::analyze(&f);
    for src in 0..5u32 {
        for dst in a.cfg.successors(src) {
            assert_eq!(a.loops.is_back_edge(src, *dst), a.dom.dominates(*dst, src));
        }
    }
}

#[test]
fn edges_go_forward_unless_they_close_a_cycle() {
    let f = func(&[(0, &[1, 4]), (1, &[2, 3]), (2, &[1]), (3, &[5]), (4, &[3]), (5, &[])]);
    let cfg = Cfg::build(&f);
    let dom = DomTree::compute(&cfg);
    assert_eq!(dom.rpo.len(), 6);
    for src in 0..6 {
        for dst in cfg.successors(src) {
            let forward = dom.rpo_idx[&src] < dom.rpo_idx[dst];
            assert_eq!(forward, (src, *dst) != (2, 1));
        }
    }
}

#[test]
fn the_innermost_loop_lies_inside_the_others() {
    // loops 1..6, 2..5 and 3..4, and a loop 7 of its own
    let a = FunctionAnalysis::analyze(&func(&[
        (0, &[1]),
        (1, &[2, 7]),
        (2, &[3]),
        (3, &[4]),
        (4, &[3, 5]),
        (5, &[2, 6]),
        (6, &[1]),
        (7, &[7, 8]),
        (8, &[]),
    ]));
    assert_eq!(a.loops.loops.len(), 4);
    assert_eq!(a.loops.block_loop[&4], 3);
    assert_eq!(a.loops.block_loop[&5], 2);
    for (b, h) in &a.loops.block_loop {
        for members in a.loops.loops.values() {
            if members.contains(b) {
                assert!(a.loops.loops[h].is_subset(members));
            }
        }
    }
}
