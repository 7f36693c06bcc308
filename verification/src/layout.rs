//! Program-order layout: blocks in one chain, and inside each block its
//! instructions in one chain. Blocks and instructions are small integer
//! ids; the links between them are ids too, kept in maps in which an
//! absent id stands for an unlinked node. The layout grows by appending
//! only.

use std::collections::HashMap;
use vstd::prelude::*;

verus! {

broadcast use vstd::std_specs::hash::group_hash_axioms;

/// Block id.
pub type Block = u32;

/// Instruction id.
pub type InstId = u32;

/// The element of `s` at `i`, or nothing when `i` is outside `s`.
pub open spec fn opt_at(s: Seq<u32>, i: int) -> Option<u32> {
    if 0 <= i < s.len() {
        Some(s[i])
    } else {
        None
    }
}

/// What a layout holds: the blocks in program order, for each block its
/// instructions in program order, and for each instruction its block.
pub struct LayoutModel {
    pub order: Seq<Block>,
    pub chains: Map<Block, Seq<InstId>>,
    pub owner: Map<InstId, Block>,
}

impl LayoutModel {
    pub open spec fn empty() -> LayoutModel {
        LayoutModel { order: Seq::empty(), chains: Map::empty(), owner: Map::empty() }
    }

    /// Instruction `x` stands in the chain of block `b`.
    pub open spec fn in_chain(self, b: Block, x: InstId) -> bool {
        self.chains.contains_key(b) && self.chains[b].contains(x)
    }

    /// Instruction `x` is recorded as belonging to block `b`.
    pub open spec fn owned_by(self, x: InstId, b: Block) -> bool {
        self.owner.contains_key(x) && self.owner[x] == b
    }

    /// No block occurs twice, exactly the blocks of the layout have a
    /// chain, no instruction occurs twice in a chain, and an instruction
    /// stands in the chain of a block exactly if it is recorded as
    /// belonging to it: so every instruction is in at most one block.
    pub open spec fn valid(self) -> bool {
        &&& self.order.no_duplicates()
        &&& forall|b: Block| #[trigger] self.chains.contains_key(b) <==> self.order.contains(b)
        &&& forall|b: Block| #[trigger]
            self.chains.contains_key(b) ==> self.chains[b].no_duplicates()
        &&& forall|x: InstId, b: Block|
            #![trigger self.in_chain(b, x)]
            #![trigger self.owned_by(x, b)]
            self.in_chain(b, x) <==> self.owned_by(x, b)
    }

    /// The block of instruction `x`, if it has been appended.
    pub open spec fn owner_of(self, x: InstId) -> Option<Block> {
        if self.owner.contains_key(x) {
            Some(self.owner[x])
        } else {
            None
        }
    }

    /// The block after `b` in program order, if `b` is in the layout and
    /// is not the last.
    pub open spec fn successor(self, b: Block) -> Option<Block> {
        if self.order.contains(b) {
            opt_at(self.order, self.order.index_of(b) + 1)
        } else {
            None
        }
    }

    /// The layout with `b` added as the last block, without instructions.
    pub open spec fn append_block(self, b: Block) -> LayoutModel {
        LayoutModel {
            order: self.order.push(b),
            chains: self.chains.insert(b, Seq::empty()),
            owner: self.owner,
        }
    }

    /// The layout with `x` added as the last instruction of block `b`.
    pub open spec fn append_inst(self, x: InstId, b: Block) -> LayoutModel {
        LayoutModel {
            order: self.order,
            chains: self.chains.insert(b, self.chains[b].push(x)),
            owner: self.owner.insert(x, b),
        }
    }
}

/// Appending a block that is not in a valid layout gives a valid layout.
pub proof fn lemma_append_block_valid(m: LayoutModel, b: Block)
    requires
        m.valid(),
        !m.order.contains(b),
    ensures
        m.append_block(b).valid(),
{
    let n = m.append_block(b);
    assert(n.order.no_duplicates()) by {
        assert forall|i: int, j: int| 0 <= i < n.order.len() && 0 <= j < n.order.len() && i
            != j implies n.order[i] != n.order[j] by {
            if i < m.order.len() {
                assert(m.order.contains(m.order[i]));
            }
            if j < m.order.len() {
                assert(m.order.contains(m.order[j]));
            }
        }
    }
    assert forall|c: Block| #[trigger] n.chains.contains_key(c) <==> n.order.contains(c) by {
        if n.order.contains(c) {
            let i = choose|i: int| 0 <= i < n.order.len() && n.order[i] == c;
            if i < m.order.len() {
                assert(m.order.contains(c));
                assert(m.chains.contains_key(c));
            }
        }
        if n.chains.contains_key(c) {
            if c == b {
                assert(n.order[m.order.len() as int] == c);
            } else {
                assert(m.chains.contains_key(c));
                let i = choose|i: int| 0 <= i < m.order.len() && m.order[i] == c;
                assert(n.order[i] == c);
            }
        }
    }
    assert(!m.chains.contains_key(b));
    assert forall|x: InstId, c: Block|
        #![trigger n.in_chain(c, x)]
        #![trigger n.owned_by(x, c)]
        n.in_chain(c, x) <==> n.owned_by(x, c) by {
        assert(m.in_chain(c, x) <==> m.owned_by(x, c));
        if c == b {
            assert(!m.in_chain(b, x));
            assert(!n.chains[b].contains(x));
        }
    }
}

/// Appending an instruction that has no block yet to a block of a valid
/// layout gives a valid layout.
pub proof fn lemma_append_inst_valid(m: LayoutModel, x: InstId, b: Block)
    requires
        m.valid(),
        m.order.contains(b),
        m.owner_of(x) is None,
    ensures
        m.append_inst(x, b).valid(),
{
    let n = m.append_inst(x, b);
    let old_chain = m.chains[b];
    let new_chain = n.chains[b];
    assert(m.chains.contains_key(b));
    assert(!m.in_chain(b, x)) by {
        assert(m.in_chain(b, x) <==> m.owned_by(x, b));
    }
    assert forall|c: Block| #[trigger] n.chains.contains_key(c) <==> n.order.contains(c) by {
        assert(m.chains.contains_key(c) <==> m.order.contains(c));
    }
    assert forall|c: Block| #[trigger] n.chains.contains_key(c) implies n.chains[c].no_duplicates() by {
        assert(m.chains.contains_key(c));
        if c == b {
            assert forall|i: int, j: int| 0 <= i < new_chain.len() && 0 <= j < new_chain.len()
                && i != j implies new_chain[i] != new_chain[j] by {
                if i < old_chain.len() {
                    assert(old_chain.contains(old_chain[i]));
                }
                if j < old_chain.len() {
                    assert(old_chain.contains(old_chain[j]));
                }
            }
        }
    }
    assert forall|y: InstId, c: Block|
        #![trigger n.in_chain(c, y)]
        #![trigger n.owned_by(y, c)]
        n.in_chain(c, y) <==> n.owned_by(y, c) by {
        assert(m.in_chain(c, y) <==> m.owned_by(y, c));
        if c == b {
            if new_chain.contains(y) {
                let i = choose|i: int| 0 <= i < new_chain.len() && new_chain[i] == y;
                if i < old_chain.len() {
                    assert(old_chain.contains(y));
                }
            }
            if old_chain.contains(y) {
                let i = choose|i: int| 0 <= i < old_chain.len() && old_chain[i] == y;
                assert(new_chain[i] == y);
            }
            assert(new_chain[old_chain.len() as int] == x);
        } else {
            if y == x {
                assert(!m.in_chain(c, x));
            }
        }
    }
}

/// One step of building a layout.
pub enum LayoutOp {
    AppendBlock(Block),
    AppendInst(InstId, Block),
}

/// The step is allowed on `m`: a block is appended once, an instruction is
/// appended once and to a block that is there.
pub open spec fn admissible(m: LayoutModel, op: LayoutOp) -> bool {
    match op {
        LayoutOp::AppendBlock(b) => !m.order.contains(b),
        LayoutOp::AppendInst(x, b) => m.order.contains(b) && m.owner_of(x) is None,
    }
}

pub open spec fn apply(m: LayoutModel, op: LayoutOp) -> LayoutModel {
    match op {
        LayoutOp::AppendBlock(b) => m.append_block(b),
        LayoutOp::AppendInst(x, b) => m.append_inst(x, b),
    }
}

/// The layout that the steps build, starting from the empty one.
pub open spec fn replay(ops: Seq<LayoutOp>) -> LayoutModel
    decreases ops.len(),
{
    if ops.len() == 0 {
        LayoutModel::empty()
    } else {
        apply(replay(ops.drop_last()), ops.last())
    }
}

/// Every step is allowed on the layout that the steps before it built.
pub open spec fn all_admissible(ops: Seq<LayoutOp>) -> bool
    decreases ops.len(),
{
    ops.len() == 0 || (all_admissible(ops.drop_last()) && admissible(
        replay(ops.drop_last()),
        ops.last(),
    ))
}

/// Layout consistency: after any sequence of allowed appends the layout is
/// valid, so that its block order holds no block twice and no instruction
/// is in two blocks; every instruction that was appended is recorded with
/// the block it was appended to; and every block that was appended is in
/// the block order.
pub proof fn lemma_layout_consistency(ops: Seq<LayoutOp>, k: int)
    requires
        all_admissible(ops),
        0 <= k < ops.len(),
    ensures
        replay(ops).valid(),
        ops[k] matches LayoutOp::AppendInst(x, b) ==> replay(ops).owner_of(x) == Some(b)
            && replay(ops).in_chain(b, x),
        ops[k] matches LayoutOp::AppendBlock(b) ==> replay(ops).order.contains(b),
    decreases ops.len(),
{
    let before = ops.drop_last();
    let m = replay(before);
    lemma_replay_valid(before);
    lemma_replay_valid(ops);
    let n = replay(ops);
    if k < before.len() {
        lemma_layout_consistency(before, k);
        assert(before[k] == ops[k]);
        match ops[k] {
            LayoutOp::AppendInst(x, b) => {
                assert(n.owner_of(x) == Some(b));
                assert(n.owned_by(x, b));
            },
            LayoutOp::AppendBlock(b) => {
                let i = choose|i: int| 0 <= i < m.order.len() && m.order[i] == b;
                match ops.last() {
                    LayoutOp::AppendBlock(c) => {
                        assert(n.order[i] == b);
                    },
                    LayoutOp::AppendInst(y, c) => {},
                }
            },
        }
    } else {
        match ops[k] {
            LayoutOp::AppendInst(x, b) => {
                assert(n.owned_by(x, b));
            },
            LayoutOp::AppendBlock(b) => {
                assert(n.order[m.order.len() as int] == b);
            },
        }
    }
}

/// A sequence of allowed appends builds a valid layout.
pub proof fn lemma_replay_valid(ops: Seq<LayoutOp>)
    requires
        all_admissible(ops),
    ensures
        replay(ops).valid(),
    decreases ops.len(),
{
    if ops.len() > 0 {
        lemma_replay_valid(ops.drop_last());
        match ops.last() {
            LayoutOp::AppendBlock(b) => lemma_append_block_valid(replay(ops.drop_last()), b),
            LayoutOp::AppendInst(x, b) => lemma_append_inst_valid(replay(ops.drop_last()), x, b),
        }
    }
}

#[derive(Clone, Copy)]
struct BlockNode {
    prev: Option<Block>,
    next: Option<Block>,
    first_inst: Option<InstId>,
    last_inst: Option<InstId>,
}

#[derive(Clone, Copy)]
struct InstNode {
    block: Option<Block>,
    prev: Option<InstId>,
    next: Option<InstId>,
}

pub struct Layout {
    blocks: HashMap<Block, BlockNode>,
    insts: HashMap<InstId, InstNode>,
    first_block: Option<Block>,
    last_block: Option<Block>,
    model: Ghost<LayoutModel>,
}

impl View for Layout {
    type V = LayoutModel;

    closed spec fn view(&self) -> LayoutModel {
        self.model@
    }
}

/// `HashMap::capacity` of std: how many entries the map can hold without
/// reallocating. The number is the allocator's; nothing is claimed of it.
#[verifier::external_body]
fn node_capacity(map: &HashMap<Block, BlockNode>) -> (n: usize) {
    map.capacity()
}

impl Layout {
    /// The links of the block at place `i` of the order agree with the
    /// order and with the block's chain.
    spec fn block_linked(&self, i: int) -> bool {
        let m = self.model@;
        let n = self.blocks@[m.order[i]];
        let c = m.chains[m.order[i]];
        &&& n.prev == opt_at(m.order, i - 1)
        &&& n.next == opt_at(m.order, i + 1)
        &&& n.first_inst == opt_at(c, 0)
        &&& n.last_inst == opt_at(c, c.len() - 1)
    }

    /// The links of the instruction at place `j` of the chain of `b` agree
    /// with the chain.
    spec fn inst_linked(&self, b: Block, j: int) -> bool {
        let c = self.model@.chains[b];
        let n = self.insts@[c[j]];
        &&& n.prev == opt_at(c, j - 1)
        &&& n.next == opt_at(c, j + 1)
    }

    /// The linked nodes and the ends of the block chain say what the model
    /// says, and the model is valid.
    pub closed spec fn wf(&self) -> bool {
        let m = self.model@;
        &&& m.valid()
        &&& self.first_block == opt_at(m.order, 0)
        &&& self.last_block == opt_at(m.order, m.order.len() - 1)
        &&& forall|b: Block| #[trigger] self.blocks@.contains_key(b) <==> m.order.contains(b)
        &&& forall|i: int| 0 <= i < m.order.len() ==> #[trigger] self.block_linked(i)
        &&& forall|x: InstId| #[trigger] self.insts@.contains_key(x) <==> m.owner.contains_key(x)
        &&& forall|x: InstId| #[trigger]
            self.insts@.contains_key(x) ==> self.insts@[x].block == Some(m.owner[x])
        &&& forall|b: Block, j: int|
            m.chains.contains_key(b) && 0 <= j < m.chains[b].len() ==> #[trigger] self.inst_linked(
                b,
                j,
            )
    }

    /// A well-formed layout has a valid model.
    pub proof fn lemma_wf_valid(&self)
        requires
            self.wf(),
        ensures
            self@.valid(),
    {
    }

    /// Create a new empty `Layout`.
    pub fn new() -> (l: Layout)
        ensures
            l.wf(),
            l@ == LayoutModel::empty(),
    {
        let l = Layout {
            blocks: HashMap::new(),
            insts: HashMap::new(),
            first_block: None,
            last_block: None,
            model: Ghost(LayoutModel::empty()),
        };
        assert(forall|b: Block| !l.model@.order.contains(b));
        l
    }

    /// Clear the layout.
    pub fn clear(&mut self)
        ensures
            final(self).wf(),
            final(self)@ == LayoutModel::empty(),
    {
        self.blocks.clear();
        self.insts.clear();
        self.first_block = None;
        self.last_block = None;
        self.model = Ghost(LayoutModel::empty());
        assert(forall|b: Block| !self.model@.order.contains(b));
    }

    /// The capacity of the block map.
    pub fn block_capacity(&self) -> usize {
        node_capacity(&self.blocks)
    }

    /// The node of `block`; an unlinked node if the block has none.
    fn block_node(&self, block: Block) -> (n: BlockNode)
        ensures
            self.blocks@.contains_key(block) ==> n == self.blocks@[block],
            !self.blocks@.contains_key(block) ==> n == (BlockNode {
                prev: None,
                next: None,
                first_inst: None,
                last_inst: None,
            }),
    {
        match self.blocks.get(&block) {
            Some(n) => *n,
            None => BlockNode { prev: None, next: None, first_inst: None, last_inst: None },
        }
    }

    /// The node of `inst`; an unlinked node if the instruction has none.
    fn inst_node(&self, inst: InstId) -> (n: InstNode)
        ensures
            self.insts@.contains_key(inst) ==> n == self.insts@[inst],
            !self.insts@.contains_key(inst) ==> n == (InstNode {
                block: None,
                prev: None,
                next: None,
            }),
    {
        match self.insts.get(&inst) {
            Some(n) => *n,
            None => InstNode { block: None, prev: None, next: None },
        }
    }

    /// Is `block` currently part of the layout?
    pub fn is_block_inserted(&self, block: Block) -> (r: bool)
        requires
            self.wf(),
        ensures
            r == self@.order.contains(block),
    {
        let node = self.block_node(block);
        let is_first = match self.first_block {
            Some(b) => b == block,
            None => false,
        };
        proof {
            let m = self.model@;
            if m.order.contains(block) {
                let i = choose|i: int| 0 <= i < m.order.len() && m.order[i] == block;
                assert(self.block_linked(i));
            } else {
                if m.order.len() > 0 {
                    assert(m.order.contains(m.order[0]));
                }
            }
        }
        is_first || node.prev.is_some()
    }

    /// Insert `block` as the last block in the layout.
    pub fn append_block(&mut self, block: Block)
        requires
            old(self).wf(),
            !old(self)@.order.contains(block),
        ensures
            final(self).wf(),
            final(self)@ == old(self)@.append_block(block),
    {
        let ghost m = self.model@;
        let ghost old_self = *self;
        let node = BlockNode {
            prev: self.last_block,
            next: None,
            first_inst: None,
            last_inst: None,
        };
        self.blocks.insert(block, node);
        match self.last_block {
            Some(last) => {
                proof {
                    assert(old_self.block_linked(m.order.len() - 1));
                    assert(m.order.contains(last));
                }
                let mut last_node = self.block_node(last);
                last_node.next = Some(block);
                self.blocks.insert(last, last_node);
            },
            None => {
                self.first_block = Some(block);
            },
        }
        self.last_block = Some(block);
        self.model = Ghost(m.append_block(block));
        proof {
            let n = self.model@;
            lemma_append_block_valid(m, block);
            assert forall|b: Block| #[trigger]
                self.blocks@.contains_key(b) <==> n.order.contains(b) by {
                assert(old_self.blocks@.contains_key(b) <==> m.order.contains(b));
                assert(n.chains.contains_key(b) <==> n.order.contains(b));
                assert(m.chains.contains_key(b) <==> m.order.contains(b));
            }
            assert forall|i: int| 0 <= i < n.order.len() implies #[trigger] self.block_linked(
                i,
            ) by {
                if i < m.order.len() {
                    assert(old_self.block_linked(i));
                    assert(m.order.contains(m.order[i]));
                    assert(m.order[i] != block);
                    if i < m.order.len() - 1 {
                        assert(m.order[i] != m.order[m.order.len() - 1]);
                    }
                }
            }
            assert forall|b: Block, j: int|
                n.chains.contains_key(b) && 0 <= j < n.chains[b].len() implies #[trigger] self.inst_linked(
                b,
                j,
            ) by {
                assert(old_self.inst_linked(b, j));
            }
        }
    }

    /// Get the block containing `inst`, or `None` if `inst` is not inserted
    /// in the layout.
    pub fn inst_block(&self, inst: InstId) -> (r: Option<Block>)
        requires
            self.wf(),
        ensures
            r == self@.owner_of(inst),
    {
        self.inst_node(inst).block
    }

    /// Append `inst` to the end of `block`.
    pub fn append_inst(&mut self, inst: InstId, block: Block)
        requires
            old(self).wf(),
            old(self)@.order.contains(block),
            old(self)@.owner_of(inst) is None,
        ensures
            final(self).wf(),
            final(self)@ == old(self)@.append_inst(inst, block),
            final(self)@.owner_of(inst) == Some(block),
    {
        let ghost m = self.model@;
        let ghost old_self = *self;
        let ghost chain = m.chains[block];
        let ghost at = m.order.index_of(block);
        proof {
            assert(m.chains.contains_key(block));
            assert(0 <= at < m.order.len() && m.order[at] == block);
            assert(old_self.block_linked(at));
            assert(!m.in_chain(block, inst)) by {
                assert(m.in_chain(block, inst) <==> m.owned_by(inst, block));
            }
        }
        let mut block_node = self.block_node(block);
        let inst_node = InstNode { block: Some(block), prev: block_node.last_inst, next: None };
        self.insts.insert(inst, inst_node);
        match block_node.last_inst {
            None => {
                block_node.first_inst = Some(inst);
            },
            Some(last) => {
                proof {
                    assert(chain.len() > 0 && last == chain[chain.len() - 1]);
                    assert(chain.contains(last));
                    assert(m.in_chain(block, last));
                    assert(m.owned_by(last, block));
                    assert(old_self.inst_linked(block, chain.len() - 1));
                }
                let mut last_node = self.inst_node(last);
                last_node.next = Some(inst);
                self.insts.insert(last, last_node);
            },
        }
        block_node.last_inst = Some(inst);
        self.blocks.insert(block, block_node);
        self.model = Ghost(m.append_inst(inst, block));
        proof {
            let n = self.model@;
            let new_chain = n.chains[block];
            lemma_append_inst_valid(m, inst, block);
            assert forall|b: Block| #[trigger]
                self.blocks@.contains_key(b) <==> n.order.contains(b) by {
                assert(old_self.blocks@.contains_key(b) <==> m.order.contains(b));
            }
            assert forall|i: int| 0 <= i < n.order.len() implies #[trigger] self.block_linked(
                i,
            ) by {
                assert(old_self.block_linked(i));
                if i != at {
                    assert(m.order[i] != m.order[at]);
                }
            }
            assert forall|x: InstId| #[trigger]
                self.insts@.contains_key(x) <==> n.owner.contains_key(x) by {
                assert(old_self.insts@.contains_key(x) <==> m.owner.contains_key(x));
            }
            assert forall|x: InstId| #[trigger]
                self.insts@.contains_key(x) implies self.insts@[x].block == Some(n.owner[x]) by {
                if x != inst {
                    assert(old_self.insts@.contains_key(x));
                }
            }
            assert forall|b: Block, j: int|
                n.chains.contains_key(b) && 0 <= j < n.chains[b].len() implies #[trigger] self.inst_linked(
                b,
                j,
            ) by {
                assert(m.chains.contains_key(b));
                if b != block {
                    let y = m.chains[b][j];
                    assert(old_self.inst_linked(b, j));
                    assert(m.chains[b].contains(y));
                    assert(m.in_chain(b, y));
                    assert(m.owned_by(y, b));
                    if chain.len() > 0 {
                        assert(chain.contains(chain[chain.len() - 1]));
                        assert(m.in_chain(block, chain[chain.len() - 1]));
                        assert(m.owned_by(chain[chain.len() - 1], block));
                    }
                } else if j < chain.len() {
                    let y = chain[j];
                    assert(old_self.inst_linked(b, j));
                    assert(chain.contains(y));
                    assert(m.in_chain(block, y));
                    assert(m.owned_by(y, block));
                    assert(new_chain[j] == y);
                    if j < chain.len() - 1 {
                        assert(y != chain[chain.len() - 1]);
                    }
                } else {
                    assert(new_chain[j] == inst);
                }
            }
        }
    }

    /// Return a cursor over all blocks in layout order.
    pub fn blocks(&self) -> (it: Blocks<'_>)
        requires
            self.wf(),
        ensures
            it.wf(),
            it.layout() == *self,
            it.remaining() == self@.order,
    {
        let it = Blocks { layout: self, next: self.first_block, pos: Ghost(0) };
        assert(it.remaining() =~= self@.order);
        it
    }

    /// Get the block following `block` in the layout order.
    pub fn next_block(&self, block: Block) -> (r: Option<Block>)
        requires
            self.wf(),
        ensures
            r == self@.successor(block),
    {
        proof {
            let m = self.model@;
            if m.order.contains(block) {
                let i = m.order.index_of(block);
                assert(0 <= i < m.order.len() && m.order[i] == block);
                assert(self.block_linked(i));
            }
        }
        self.block_node(block).next
    }

    /// All blocks in layout order, each once.
    pub fn block_order(&self) -> (v: Vec<Block>)
        requires
            self.wf(),
        ensures
            v@ == self@.order,
            v@.no_duplicates(),
    {
        let mut out: Vec<Block> = Vec::new();
        let mut it = self.blocks();
        loop
            invariant
                self.wf(),
                it.wf(),
                it.layout() == *self,
                out@ + it.remaining() == self@.order,
            decreases it.remaining().len(),
        {
            let ghost rest = it.remaining();
            match it.next() {
                Some(b) => {
                    out.push(b);
                    assert(out@ + it.remaining() =~= out@.drop_last() + rest);
                },
                None => {
                    assert(out@ + rest =~= out@);
                    return out;
                },
            }
        }
    }
}

/// Walks the blocks of a layout in layout order. See `Layout::blocks()`.
pub struct Blocks<'f> {
    layout: &'f Layout,
    next: Option<Block>,
    pos: Ghost<int>,
}

impl<'f> Blocks<'f> {
    /// The layout that is walked.
    pub closed spec fn layout(&self) -> Layout {
        *self.layout
    }

    /// The blocks still to come, in order.
    pub closed spec fn remaining(&self) -> Seq<Block> {
        self.layout@.order.skip(self.pos@)
    }

    pub closed spec fn wf(&self) -> bool {
        &&& self.layout.wf()
        &&& 0 <= self.pos@ <= self.layout@.order.len()
        &&& self.next == opt_at(self.layout@.order, self.pos@)
    }

    /// The next block in layout order, or `None` after the last.
    pub fn next(&mut self) -> (r: Option<Block>)
        requires
            old(self).wf(),
        ensures
            final(self).wf(),
            final(self).layout() == old(self).layout(),
            match r {
                Some(b) => old(self).remaining().len() > 0 && b == old(self).remaining()[0]
                    && final(self).remaining() == old(self).remaining().skip(1),
                None => old(self).remaining().len() == 0 && final(self).remaining() == old(
                    self,
                ).remaining(),
            },
    {
        match self.next {
            Some(block) => {
                let ghost order = self.layout@.order;
                let ghost p = self.pos@;
                proof {
                    assert(order[p] == block);
                    assert(order.contains(block));
                    self.layout.lemma_wf_valid();
                    let i = order.index_of(block);
                    assert(0 <= i < order.len() && order[i] == block);
                    assert(i == p);
                }
                self.next = self.layout.next_block(block);
                self.pos = Ghost(p + 1);
                assert(order.skip(p).skip(1) =~= order.skip(p + 1));
                Some(block)
            },
            None => None,
        }
    }
}

} // verus!
