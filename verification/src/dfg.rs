//! The data-flow graph: for each instruction its opcode and operands, and
//! for each instruction the instructions that use it as an operand.
//! Instructions get the ids 1, 2, 3, ... in the order in which they are
//! made; the graph only grows.

use crate::cfg::CFGNode;
use crate::layout::{Block, InstId, Layout, LayoutModel};
use std::collections::HashMap;
use vstd::prelude::*;

verus! {

broadcast use vstd::std_specs::hash::group_hash_axioms;

pub enum Opcode {
    Constant,
    Add,
    Sub,
    Bne,
    Phi,
}

#[allow(inconsistent_fields)]
pub enum InstData {
    Constant { opcode: Opcode, value: u32 },
    Binary { opcode: Opcode, inputs: [InstId; 2] },
    Bne { opcode: Opcode, inputs: [InstId; 2], succs: [Block; 2] },
    Phi { opcode: Opcode, inputs: Vec<InstId> },
}

/// The operands of an instruction, in order; a constant has none to give.
pub open spec fn inputs_spec(data: InstData) -> Option<Seq<InstId>> {
    match data {
        InstData::Constant { .. } => None,
        InstData::Binary { inputs, .. } => Some(seq![inputs@[0], inputs@[1]]),
        InstData::Bne { inputs, .. } => Some(seq![inputs@[0], inputs@[1]]),
        InstData::Phi { inputs, .. } => Some(inputs@),
    }
}

/// The operands of an instruction, in order.
pub open spec fn operands(data: InstData) -> Seq<InstId> {
    match inputs_spec(data) {
        Some(s) => s,
        None => Seq::empty(),
    }
}

/// Instruction `a` of the graph has `b` among its operands.
pub open spec fn uses(insts: Map<InstId, InstData>, a: InstId, b: InstId) -> bool {
    insts.contains_key(a) && operands(insts[a]).contains(b)
}

/// Strictly ascending: sorted and free of duplicates.
pub open spec fn ascending_ids(s: Seq<InstId>) -> bool {
    forall|i: int, j: int| 0 <= i < j < s.len() ==> s[i] < s[j]
}

impl InstData {
    /// The operands, or `None` for a constant.
    pub fn inputs(&self) -> (r: Option<Vec<InstId>>)
        ensures
            match inputs_spec(*self) {
                Some(s) => r matches Some(v) && v@ == s,
                None => r is None,
            },
    {
        match self {
            InstData::Constant { .. } => None,
            InstData::Binary { opcode, inputs } => {
                let mut v: Vec<InstId> = Vec::new();
                v.push(inputs[0]);
                v.push(inputs[1]);
                assert(v@ =~= seq![inputs@[0], inputs@[1]]);
                Some(v)
            },
            InstData::Bne { opcode, inputs, .. } => {
                let mut v: Vec<InstId> = Vec::new();
                v.push(inputs[0]);
                v.push(inputs[1]);
                assert(v@ =~= seq![inputs@[0], inputs@[1]]);
                Some(v)
            },
            InstData::Phi { opcode, inputs } => {
                let mut v: Vec<InstId> = Vec::new();
                let mut i: usize = 0;
                while i < inputs.len()
                    invariant
                        i <= inputs@.len(),
                        v@ == inputs@.take(i as int),
                    decreases inputs@.len() - i,
                {
                    v.push(inputs[i]);
                    assert(v@ =~= inputs@.take(i + 1));
                    i += 1;
                }
                assert(v@ =~= inputs@);
                Some(v)
            },
        }
    }
}

pub struct DataFlowGraph {
    // Data about all of the instructions, including opcodes and inputs.
    // The instructions in this map are not in program order.
    insts: HashMap<InstId, InstData>,
    // Users of instructions, each list ascending.
    users: HashMap<InstId, Vec<InstId>>,
}

impl View for DataFlowGraph {
    type V = Map<InstId, InstData>;

    closed spec fn view(&self) -> Map<InstId, InstData> {
        self.insts@
    }
}

impl DataFlowGraph {
    /// The instructions recorded as users of `b`, ascending.
    pub closed spec fn users_of(&self, b: InstId) -> Seq<InstId> {
        if self.users@.contains_key(b) {
            self.users@[b]@
        } else {
            Seq::empty()
        }
    }

    /// The ids in use are 1 up to the number of instructions.
    pub open spec fn ids_dense(&self) -> bool {
        &&& self@.dom().finite()
        &&& self@.len() <= u32::MAX
        &&& forall|k: InstId| #[trigger] self@.contains_key(k) <==> 1 <= k <= self@.len()
    }

    /// Def-use consistency: `a` is recorded as a user of `b` exactly if `b`
    /// is among the operands of `a`; and every list of users is ascending.
    pub open spec fn def_use_consistent(&self) -> bool {
        &&& forall|b: InstId| ascending_ids(#[trigger] self.users_of(b))
        &&& forall|a: InstId, b: InstId|
            self.users_of(b).contains(a) <==> #[trigger] uses(self@, a, b)
    }

    pub open spec fn wf(&self) -> bool {
        self.ids_dense() && self.def_use_consistent()
    }

    /// An empty graph.
    pub fn new() -> (g: DataFlowGraph)
        ensures
            g.wf(),
            g@ == Map::<InstId, InstData>::empty(),
    {
        let g = DataFlowGraph { insts: HashMap::new(), users: HashMap::new() };
        assert(forall|b: InstId| g.users_of(b) =~= Seq::<InstId>::empty());
        g
    }

    /// The number of instructions made so far.
    pub fn num_insts(&self) -> (n: usize)
        ensures
            n == self@.len(),
    {
        self.insts.len()
    }

    /// The users of `inst`, ascending.
    pub fn users(&self, inst: InstId) -> (v: Vec<InstId>)
        ensures
            v@ == self.users_of(inst),
    {
        let mut v: Vec<InstId> = Vec::new();
        match self.users.get(&inst) {
            Some(list) => {
                let mut i: usize = 0;
                while i < list.len()
                    invariant
                        i <= list@.len(),
                        v@ == list@.take(i as int),
                    decreases list@.len() - i,
                {
                    v.push(list[i]);
                    assert(v@ =~= list@.take(i + 1));
                    i += 1;
                }
                assert(v@ =~= list@);
            },
            None => {},
        }
        v
    }

    /// Records `user` as a user of `input`, unless it is the last one
    /// recorded already.
    fn add_user(&mut self, input: InstId, user: InstId)
        requires
            ascending_ids(old(self).users_of(input)),
            forall|k: int|
                0 <= k < old(self).users_of(input).len() ==> old(self).users_of(input)[k] <= user,
        ensures
            final(self)@ == old(self)@,
            ascending_ids(final(self).users_of(input)),
            forall|a: InstId|
                final(self).users_of(input).contains(a) <==> (old(self).users_of(input).contains(a)
                    || a == user),
            forall|b: InstId| b != input ==> final(self).users_of(b) == old(self).users_of(b),
    {
        let ghost before = self.users_of(input);
        let mut list: Vec<InstId> = match self.users.remove(&input) {
            Some(l) => l,
            None => Vec::new(),
        };
        assert(list@ == before);
        let n: usize = list.len();
        if n == 0 || list[n - 1] != user {
            list.push(user);
            proof {
                assert forall|a: InstId|
                    list@.contains(a) <==> (before.contains(a) || a == user) by {
                    if list@.contains(a) {
                        let k = choose|k: int| 0 <= k < list@.len() && list@[k] == a;
                        if k < n {
                            assert(before[k] == a);
                        }
                    }
                    if before.contains(a) {
                        let k = choose|k: int| 0 <= k < before.len() && before[k] == a;
                        assert(list@[k] == a);
                    }
                    if a == user {
                        assert(list@[n as int] == a);
                    }
                }
                assert forall|i: int, j: int| 0 <= i < j < list@.len() implies list@[i]
                    < list@[j] by {
                    if j == n {
                        assert(before[i] <= user);
                        if i < n - 1 {
                            assert(before[i] < before[n - 1]);
                        }
                    }
                }
            }
        } else {
            assert(before.contains(user)) by {
                assert(before[n - 1] == user);
            }
        }
        let ghost after = list@;
        self.users.insert(input, list);
        assert(self.users_of(input) == after);
        assert forall|b: InstId| b != input implies self.users_of(b) == old(self).users_of(b) by {}
    }

    /// Gives `data` the next free id and records the new instruction as a
    /// user of each of its operands.
    pub fn make_inst(&mut self, data: InstData) -> (ret: InstId)
        requires
            old(self).wf(),
            old(self)@.len() < u32::MAX,
        ensures
            final(self).wf(),
            ret == old(self)@.len() + 1,
            final(self)@ == old(self)@.insert(ret, data),
            forall|b: InstId, a: InstId|
                #![trigger final(self).users_of(b).contains(a)]
                final(self).users_of(b).contains(a) <==> (old(self).users_of(b).contains(a) || (a
                    == ret && operands(data).contains(b))),
    {
        let ghost old_insts = self.insts@;
        let ghost old_self = *self;
        let ret: InstId = (self.insts.len() + 1) as InstId;
        assert(!old_insts.contains_key(ret));
        let inputs: Vec<InstId> = match data.inputs() {
            Some(v) => v,
            None => Vec::new(),
        };
        assert(inputs@ =~= operands(data));
        let mut i: usize = 0;
        while i < inputs.len()
            invariant
                i <= inputs@.len(),
                old_self.wf(),
                old_insts == old_self@,
                ret == old_insts.len() + 1,
                self@ == old_insts,
                forall|b: InstId| ascending_ids(#[trigger] self.users_of(b)),
                forall|a: InstId, b: InstId|
                    #![trigger self.users_of(b).contains(a)]
                    self.users_of(b).contains(a) <==> (old_self.users_of(b).contains(a) || (a
                        == ret && inputs@.take(i as int).contains(b))),
            decreases inputs@.len() - i,
        {
            let input: InstId = inputs[i];
            let ghost mid = *self;
            proof {
                let list = self.users_of(input);
                assert(ascending_ids(list));
                assert forall|k: int| 0 <= k < list.len() implies list[k] <= ret by {
                    assert(list.contains(list[k]));
                    if list[k] != ret {
                        assert(old_self.users_of(input).contains(list[k]));
                        assert(uses(old_insts, list[k], input));
                        assert(old_insts.contains_key(list[k]));
                    }
                }
            }
            self.add_user(input, ret);
            proof {
                let done = inputs@.take(i as int);
                let next = inputs@.take(i + 1);
                assert(next =~= done.push(input));
                assert forall|a: InstId, b: InstId|
                    #![trigger self.users_of(b).contains(a)]
                    self.users_of(b).contains(a) <==> (old_self.users_of(b).contains(a) || (a
                        == ret && next.contains(b))) by {
                    assert(mid.users_of(b).contains(a) <==> (old_self.users_of(b).contains(a) || (a
                        == ret && done.contains(b))));
                    if next.contains(b) {
                        let k = choose|k: int| 0 <= k < next.len() && next[k] == b;
                        if k < done.len() {
                            assert(done[k] == b);
                        }
                    }
                    if done.contains(b) {
                        let k = choose|k: int| 0 <= k < done.len() && done[k] == b;
                        assert(next[k] == b);
                    }
                    assert(next[i as int] == input);
                }
                assert forall|b: InstId| ascending_ids(#[trigger] self.users_of(b)) by {
                    if b != input {
                        assert(self.users_of(b) == mid.users_of(b));
                    }
                }
            }
            i += 1;
        }
        assert(inputs@.take(i as int) =~= inputs@);
        let ghost filled = *self;
        self.insts.insert(ret, data);
        proof {
            let new_insts = self.insts@;
            assert(new_insts == old_insts.insert(ret, data));
            assert(new_insts.len() == old_insts.len() + 1);
            assert forall|k: InstId| #[trigger]
                new_insts.contains_key(k) <==> 1 <= k <= new_insts.len() by {
                assert(old_insts.contains_key(k) <==> 1 <= k <= old_insts.len());
            }
            assert forall|b: InstId| ascending_ids(#[trigger] self.users_of(b)) by {
                assert(self.users_of(b) == filled.users_of(b));
            }
            assert forall|b: InstId, a: InstId|
                #![trigger self.users_of(b).contains(a)]
                self.users_of(b).contains(a) <==> (old(self).users_of(b).contains(a) || (a == ret
                    && operands(data).contains(b))) by {
                assert(old_self == *old(self));
                assert(self@ == new_insts);
                assert(inputs@.contains(b) <==> uses(new_insts, ret, b));
                assert(self.users_of(b) == filled.users_of(b));
                assert(filled.users_of(b).contains(a) <==> (old_self.users_of(b).contains(a) || (a
                    == ret && inputs@.contains(b))));
            }
            assert forall|a: InstId, b: InstId|
                self.users_of(b).contains(a) <==> #[trigger] uses(new_insts, a, b) by {
                assert(old_self.users_of(b).contains(a) <==> uses(old_insts, a, b));
                assert(self.users_of(b) == filled.users_of(b));
                assert(filled.users_of(b).contains(a) <==> (old_self.users_of(b).contains(a) || (a
                    == ret && inputs@.contains(b))));
                if a != ret {
                    assert(uses(new_insts, a, b) <==> uses(old_insts, a, b));
                } else {
                    assert(!uses(old_insts, a, b));
                }
            }
        }
        ret
    }
}

/// What an analysis pass builds for one function: its data-flow graph, its
/// layout, and for each block its control-flow edges.
pub struct Function {
    pub dfg: DataFlowGraph,
    pub layout: Layout,
    pub cfg: HashMap<Block, CFGNode>,
}

impl Function {
    /// A function without instructions, blocks or edges.
    pub fn new() -> (f: Function)
        ensures
            f.dfg.wf(),
            f.dfg@ == Map::<InstId, InstData>::empty(),
            f.layout.wf(),
            f.layout@ == LayoutModel::empty(),
            f.cfg@ == Map::<Block, CFGNode>::empty(),
    {
        Function { dfg: DataFlowGraph::new(), layout: Layout::new(), cfg: HashMap::new() }
    }
}

} // verus!
