//! The control-flow graph over basic blocks: for each block the blocks that
//! control may come from and the blocks that it may go to. A block is
//! numbered by its place among the blocks of the program. Control falls
//! through from every block to the next one, and where a block ends in a
//! branch, it may also pass to the block that begins at the branch target.

use crate::bytecode::Inst;
use crate::layout::Block;
use std::collections::HashMap;
use vstd::prelude::*;

verus! {

broadcast use vstd::std_specs::hash::group_hash_axioms;

/// Predecessors and successors of a block, each list ascending.
pub struct CFGNode {
    pub preds: Vec<Block>,
    pub succs: Vec<Block>,
}

/// Every block holds at least one instruction and ends inside a program of
/// `len` instructions.
pub open spec fn blocks_inside(blocks: Seq<(usize, usize)>, len: int) -> bool {
    forall|k: int| 0 <= k < blocks.len() ==> (#[trigger] blocks[k]).0 < blocks[k].1 <= len
}

/// Control may pass from the end of block `k` to the start of block `j`.
pub open spec fn edge(prog: Seq<Inst>, blocks: Seq<(usize, usize)>, k: int, j: int) -> bool {
    &&& 0 <= k < blocks.len()
    &&& 0 <= j < blocks.len()
    &&& (j == k + 1 || match prog[blocks[k].1 - 1] {
        Inst::Bne(_, _, target) => blocks[j].0 == target,
        _ => false,
    })
}

/// Strictly ascending: sorted and free of duplicates.
pub open spec fn ascending_blocks(s: Seq<Block>) -> bool {
    forall|i: int, j: int| 0 <= i < j < s.len() ==> s[i] < s[j]
}

/// The node lists exactly the edges into and out of block `k`.
pub open spec fn node_describes(
    prog: Seq<Inst>,
    blocks: Seq<(usize, usize)>,
    node: CFGNode,
    k: int,
) -> bool {
    &&& ascending_blocks(node.succs@)
    &&& ascending_blocks(node.preds@)
    &&& forall|j: Block| node.succs@.contains(j) <==> edge(prog, blocks, k, j as int)
    &&& forall|j: Block| node.preds@.contains(j) <==> edge(prog, blocks, j as int, k)
}

/// Whether control may pass from block `k` to block `j`.
pub fn has_edge(prog: &[Inst], blocks: &Vec<(usize, usize)>, k: usize, j: usize) -> (r: bool)
    requires
        blocks_inside(blocks@, prog@.len() as int),
        k < blocks@.len(),
        j < blocks@.len(),
    ensures
        r == edge(prog@, blocks@, k as int, j as int),
{
    if j > 0 && j - 1 == k {
        return true;
    }
    assert(blocks@[k as int].0 < blocks@[k as int].1 <= prog@.len());
    let end: usize = blocks[k].1;
    match prog[end - 1] {
        Inst::Bne(_, _, target) => blocks[j].0 == target as usize,
        _ => false,
    }
}

/// The blocks joined to block `k` by an edge, ascending: those that
/// control may pass to from `k`, or, with `incoming`, those that it may
/// come from.
fn neighbours(prog: &[Inst], blocks: &Vec<(usize, usize)>, k: usize, incoming: bool) -> (v: Vec<
    Block,
>)
    requires
        blocks_inside(blocks@, prog@.len() as int),
        blocks@.len() <= u32::MAX,
        k < blocks@.len(),
    ensures
        ascending_blocks(v@),
        forall|j: Block|
            v@.contains(j) <==> if incoming {
                edge(prog@, blocks@, j as int, k as int)
            } else {
                edge(prog@, blocks@, k as int, j as int)
            },
{
    let mut v: Vec<Block> = Vec::new();
    let mut j: usize = 0;
    while j < blocks.len()
        invariant
            blocks_inside(blocks@, prog@.len() as int),
            blocks@.len() <= u32::MAX,
            k < blocks@.len(),
            j <= blocks@.len(),
            ascending_blocks(v@),
            forall|i: int| 0 <= i < v@.len() ==> v@[i] < j,
            forall|x: Block|
                v@.contains(x) <==> x < j && if incoming {
                    edge(prog@, blocks@, x as int, k as int)
                } else {
                    edge(prog@, blocks@, k as int, x as int)
                },
        decreases blocks@.len() - j,
    {
        let joined = if incoming {
            has_edge(prog, blocks, j, k)
        } else {
            has_edge(prog, blocks, k, j)
        };
        let ghost before = v@;
        if joined {
            v.push(j as Block);
        }
        proof {
            assert forall|x: Block|
                v@.contains(x) <==> x < j + 1 && if incoming {
                    edge(prog@, blocks@, x as int, k as int)
                } else {
                    edge(prog@, blocks@, k as int, x as int)
                } by {
                if v@.contains(x) {
                    let i = choose|i: int| 0 <= i < v@.len() && v@[i] == x;
                    if i < before.len() {
                        assert(before[i] == x);
                        assert(before.contains(x));
                    }
                }
                if before.contains(x) {
                    let i = choose|i: int| 0 <= i < before.len() && before[i] == x;
                    assert(v@[i] == x);
                }
                if joined && x == j {
                    assert(v@[before.len() as int] == x);
                }
            }
        }
        j += 1;
    }
    v
}

/// The blocks that control may pass to from block `k`, ascending.
pub fn successors(prog: &[Inst], blocks: &Vec<(usize, usize)>, k: usize) -> (v: Vec<Block>)
    requires
        blocks_inside(blocks@, prog@.len() as int),
        blocks@.len() <= u32::MAX,
        k < blocks@.len(),
    ensures
        ascending_blocks(v@),
        forall|j: Block| v@.contains(j) <==> edge(prog@, blocks@, k as int, j as int),
{
    neighbours(prog, blocks, k, false)
}

/// The blocks from which control may pass to block `k`, ascending.
pub fn predecessors(prog: &[Inst], blocks: &Vec<(usize, usize)>, k: usize) -> (v: Vec<Block>)
    requires
        blocks_inside(blocks@, prog@.len() as int),
        blocks@.len() <= u32::MAX,
        k < blocks@.len(),
    ensures
        ascending_blocks(v@),
        forall|j: Block| v@.contains(j) <==> edge(prog@, blocks@, j as int, k as int),
{
    neighbours(prog, blocks, k, true)
}

/// Builds the control-flow graph of a program from its basic blocks: one
/// node for each block, under the block's number.
pub fn build_cfg(prog: &[Inst], blocks: &Vec<(usize, usize)>) -> (cfg: HashMap<Block, CFGNode>)
    requires
        blocks_inside(blocks@, prog@.len() as int),
        blocks@.len() <= u32::MAX,
    ensures
        forall|b: Block| #[trigger] cfg@.contains_key(b) <==> b < blocks@.len(),
        forall|b: Block|
            b < blocks@.len() ==> node_describes(prog@, blocks@, #[trigger] cfg@[b], b as int),
{
    let mut cfg: HashMap<Block, CFGNode> = HashMap::new();
    let mut k: usize = 0;
    while k < blocks.len()
        invariant
            blocks_inside(blocks@, prog@.len() as int),
            blocks@.len() <= u32::MAX,
            k <= blocks@.len(),
            forall|b: Block| #[trigger] cfg@.contains_key(b) <==> b < k,
            forall|b: Block|
                b < k ==> node_describes(prog@, blocks@, #[trigger] cfg@[b], b as int),
        decreases blocks@.len() - k,
    {
        let node = CFGNode {
            preds: predecessors(prog, blocks, k),
            succs: successors(prog, blocks, k),
        };
        cfg.insert(k as Block, node);
        k += 1;
    }
    cfg
}

/// In a graph built from the blocks of a program, `j` is listed as a
/// successor of `k` exactly if `k` is listed as a predecessor of `j`.
pub proof fn lemma_preds_mirror_succs(
    prog: Seq<Inst>,
    blocks: Seq<(usize, usize)>,
    cfg: Map<Block, CFGNode>,
    k: Block,
    j: Block,
)
    requires
        k < blocks.len(),
        j < blocks.len(),
        node_describes(prog, blocks, cfg[k], k as int),
        node_describes(prog, blocks, cfg[j], j as int),
    ensures
        cfg[k].succs@.contains(j) <==> cfg[j].preds@.contains(k),
{
}

} // verus!
