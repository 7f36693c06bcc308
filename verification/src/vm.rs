//! The interpreter: a fetch-execute loop over a decoded program, with one
//! 64-bit accumulator and 256 64-bit registers, all zero at the start.
//!
//! Decrementing a register that holds zero is an error, not a wrap-around.
//! Adding to the accumulator is arithmetic modulo 2^64. A taken branch to an
//! index beyond the end of the program is an error; a branch to the end
//! itself halts the machine.

use crate::bytecode::Inst;
use vstd::prelude::*;

verus! {

/// Number of registers.
pub const REG_COUNT: usize = 256;

/// Why execution stopped abnormally.
#[derive(Clone, Copy, Debug, PartialEq, Eq, Structural)]
pub enum ExecError {
    /// `dec` on a register that holds zero.
    RegisterUnderflow,
    /// A taken branch whose target lies beyond the end of the program.
    BranchOutOfRange,
}

/// How a run ended.
#[derive(Clone, Copy, Debug, PartialEq, Eq, Structural)]
pub enum Status {
    /// The instruction pointer reached the end of the program.
    Halted,
    /// The step budget ran out first.
    OutOfSteps,
    /// The instruction at the instruction pointer could not be executed.
    Failed(ExecError),
}

/// The machine as a mathematical value.
pub struct State {
    pub acc: u64,
    pub regs: Seq<u64>,
    pub pc: int,
    pub out: Seq<u64>,
}

impl State {
    /// The state in which every run starts.
    pub open spec fn initial() -> State {
        State { acc: 0, regs: Seq::new(256, |i: int| 0u64), pc: 0, out: Seq::empty() }
    }

    /// The register file has its fixed size and the instruction pointer is
    /// inside the program or just past its end.
    pub open spec fn valid_for(self, prog: Seq<Inst>) -> bool {
        self.regs.len() == 256 && 0 <= self.pc <= prog.len()
    }
}

/// Sum modulo 2^64.
pub open spec fn wrapping_sum(a: u64, b: u64) -> u64 {
    if a + b > u64::MAX {
        (a + b - u64::MAX - 1) as u64
    } else {
        (a + b) as u64
    }
}

/// The effect of one instruction on a state.
pub open spec fn exec_inst(inst: Inst, len: int, s: State) -> Result<State, ExecError> {
    match inst {
        Inst::Mov(d, src) => Ok(
            State { regs: s.regs.update(d as int, s.regs[src as int]), pc: s.pc + 1, ..s },
        ),
        Inst::Movi(d, imm) => Ok(
            State { regs: s.regs.update(d as int, imm as u64), pc: s.pc + 1, ..s },
        ),
        Inst::Ldai(imm) => Ok(State { acc: imm as u64, pc: s.pc + 1, ..s }),
        Inst::Lda(r) => Ok(State { acc: s.regs[r as int], pc: s.pc + 1, ..s }),
        Inst::Sta(r) => Ok(State { regs: s.regs.update(r as int, s.acc), pc: s.pc + 1, ..s }),
        Inst::Add(r) => Ok(
            State { acc: wrapping_sum(s.acc, s.regs[r as int]), pc: s.pc + 1, ..s },
        ),
        Inst::Dec(r) => if s.regs[r as int] == 0 {
            Err(ExecError::RegisterUnderflow)
        } else {
            Ok(
                State {
                    regs: s.regs.update(r as int, (s.regs[r as int] - 1) as u64),
                    pc: s.pc + 1,
                    ..s
                },
            )
        },
        Inst::Bne(a, b, target) => if s.regs[a as int] == s.regs[b as int] {
            Ok(State { pc: s.pc + 1, ..s })
        } else if target > len {
            Err(ExecError::BranchOutOfRange)
        } else {
            Ok(State { pc: target as int, ..s })
        },
        Inst::Print => Ok(State { out: s.out.push(s.acc), pc: s.pc + 1, ..s }),
    }
}

/// One step: the instruction at the instruction pointer is executed.
pub open spec fn step_spec(prog: Seq<Inst>, s: State) -> Result<State, ExecError> {
    exec_inst(prog[s.pc], prog.len() as int, s)
}

/// Runs from `s` for at most `fuel` steps. The state returned is the one in
/// which the run stopped; after a failure it is the state before the
/// failing instruction.
pub open spec fn run_spec(prog: Seq<Inst>, s: State, fuel: nat) -> (State, Status)
    decreases fuel,
{
    if s.pc >= prog.len() {
        (s, Status::Halted)
    } else if fuel == 0 {
        (s, Status::OutOfSteps)
    } else {
        match step_spec(prog, s) {
            Err(e) => (s, Status::Failed(e)),
            Ok(next) => run_spec(prog, next, (fuel - 1) as nat),
        }
    }
}

/// A step keeps a valid state valid.
pub proof fn lemma_step_valid(prog: Seq<Inst>, s: State)
    requires
        s.valid_for(prog),
        s.pc < prog.len(),
    ensures
        step_spec(prog, s) matches Ok(next) ==> next.valid_for(prog),
{
}

/// Determinism: two programs that hold the same instructions at the same
/// indices, run from the initial state under the same budget, end in the
/// same state, in the same way, with the same values printed in the same
/// order.
pub proof fn lemma_runs_agree(first: Seq<Inst>, second: Seq<Inst>, fuel: nat)
    requires
        first.len() == second.len(),
        forall|i: int| 0 <= i < first.len() ==> first[i] == second[i],
    ensures
        run_spec(first, State::initial(), fuel) == run_spec(second, State::initial(), fuel),
        run_spec(first, State::initial(), fuel).0.out == run_spec(
            second,
            State::initial(),
            fuel,
        ).0.out,
{
    assert(first =~= second);
}

/// The outcome does not depend on the budget: a run that ends, by halting
/// or by failing, within `fuel` steps ends in the same state, with the same
/// printed values in the same order, under every larger budget.
pub proof fn lemma_outcome_independent_of_budget(
    prog: Seq<Inst>,
    s: State,
    fuel: nat,
    more: nat,
)
    requires
        fuel <= more,
        run_spec(prog, s, fuel).1 != Status::OutOfSteps,
    ensures
        run_spec(prog, s, more) == run_spec(prog, s, fuel),
    decreases fuel,
{
    if s.pc >= prog.len() {
    } else if fuel == 0 {
    } else {
        match step_spec(prog, s) {
            Err(e) => {},
            Ok(next) => {
                lemma_outcome_independent_of_budget(
                    prog,
                    next,
                    (fuel - 1) as nat,
                    (more - 1) as nat,
                );
            },
        }
    }
}

/// Printing only appends: what had been printed before a run is the
/// beginning of what has been printed after it.
pub proof fn lemma_output_grows(prog: Seq<Inst>, s: State, fuel: nat)
    ensures
        s.out.is_prefix_of(run_spec(prog, s, fuel).0.out),
    decreases fuel,
{
    if s.pc >= prog.len() {
    } else if fuel == 0 {
    } else {
        match step_spec(prog, s) {
            Err(e) => {},
            Ok(next) => {
                lemma_output_grows(prog, next, (fuel - 1) as nat);
            },
        }
    }
}

/// The machine: accumulator, register file, instruction pointer, and the
/// values printed so far, oldest first.
pub struct Machine {
    pub acc: u64,
    pub regs: Vec<u64>,
    pub pc: usize,
    pub output: Vec<u64>,
}

impl View for Machine {
    type V = State;

    open spec fn view(&self) -> State {
        State { acc: self.acc, regs: self.regs@, pc: self.pc as int, out: self.output@ }
    }
}

impl Machine {
    /// A machine with everything zero and nothing printed.
    pub fn new() -> (m: Machine)
        ensures
            m@ == State::initial(),
    {
        let mut regs: Vec<u64> = Vec::new();
        let mut i: usize = 0;
        while i < REG_COUNT
            invariant
                i <= REG_COUNT,
                regs@.len() == i,
                forall|k: int| 0 <= k < i ==> regs@[k] == 0,
            decreases REG_COUNT - i,
        {
            regs.push(0);
            i += 1;
        }
        assert(regs@ =~= State::initial().regs);
        Machine { acc: 0, regs, pc: 0, output: Vec::new() }
    }

    /// Executes the instruction at the instruction pointer. On an error the
    /// machine is left as it was.
    pub fn step(&mut self, insts: &[Inst]) -> (r: Result<(), ExecError>)
        requires
            old(self)@.valid_for(insts@),
            old(self).pc < insts@.len(),
        ensures
            match step_spec(insts@, old(self)@) {
                Ok(next) => r is Ok && final(self)@ == next,
                Err(e) => r == Err::<(), ExecError>(e) && final(self)@ == old(self)@,
            },
            final(self)@.valid_for(insts@),
    {
        let inst = insts[self.pc];
        match inst {
            Inst::Mov(d, src) => {
                let v: u64 = self.regs[src as usize];
                self.regs.set(d as usize, v);
                self.pc = self.pc + 1;
            },
            Inst::Movi(d, imm) => {
                self.regs.set(d as usize, imm as u64);
                self.pc = self.pc + 1;
            },
            Inst::Ldai(imm) => {
                self.acc = imm as u64;
                self.pc = self.pc + 1;
            },
            Inst::Lda(r) => {
                self.acc = self.regs[r as usize];
                self.pc = self.pc + 1;
            },
            Inst::Sta(r) => {
                let v: u64 = self.acc;
                self.regs.set(r as usize, v);
                self.pc = self.pc + 1;
            },
            Inst::Add(r) => {
                let v: u64 = self.regs[r as usize];
                if self.acc > u64::MAX - v {
                    self.acc = self.acc - (u64::MAX - v) - 1;
                } else {
                    self.acc = self.acc + v;
                }
                self.pc = self.pc + 1;
            },
            Inst::Dec(r) => {
                let v: u64 = self.regs[r as usize];
                if v == 0 {
                    return Err(ExecError::RegisterUnderflow);
                }
                self.regs.set(r as usize, v - 1);
                self.pc = self.pc + 1;
            },
            Inst::Bne(a, b, target) => {
                if self.regs[a as usize] == self.regs[b as usize] {
                    self.pc = self.pc + 1;
                } else if target as usize > insts.len() {
                    return Err(ExecError::BranchOutOfRange);
                } else {
                    self.pc = target as usize;
                }
            },
            Inst::Print => {
                let v: u64 = self.acc;
                self.output.push(v);
                self.pc = self.pc + 1;
            },
        }
        Ok(())
    }
}

/// Runs a program from the initial state for at most `max_steps`
/// instructions, and returns the machine as the run left it, with the
/// printed values in order, and how the run ended.
pub fn interpret(insts: &[Inst], max_steps: u64) -> (r: (Machine, Status))
    ensures
        (r.0@, r.1) == run_spec(insts@, State::initial(), max_steps as nat),
        r.0@.valid_for(insts@),
{
    let mut m = Machine::new();
    let mut left: u64 = max_steps;
    loop
        invariant
            m@.valid_for(insts@),
            run_spec(insts@, m@, left as nat) == run_spec(
                insts@,
                State::initial(),
                max_steps as nat,
            ),
        decreases left,
    {
        if m.pc >= insts.len() {
            return (m, Status::Halted);
        }
        if left == 0 {
            return (m, Status::OutOfSteps);
        }
        match m.step(insts) {
            Err(e) => {
                return (m, Status::Failed(e));
            },
            Ok(_) => {
                left = left - 1;
            },
        }
    }
}

} // verus!
