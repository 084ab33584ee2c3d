//! The tape machine: its state, what each instruction does to it, and the
//! executable interpreter that follows those rules.

use vstd::prelude::*;
use crate::instruction::Instruction;

verus! {

/// The number of cells on the tape.
pub const TAPE_LEN: usize = 30_000;

/// Why an execution stopped before the end of its program.
#[derive(Clone, Copy, Debug, PartialEq, Eq, Structural)]
pub enum RuntimeError {
    /// The data pointer would have moved below the first cell.
    PointerUnderflow,
    /// The data pointer would have moved past the last cell.
    PointerOverflow,
    /// The program asked for input, and there is no input source.
    UnimplementedInput,
}

impl RuntimeError {
    /// A short description of the error, for a person to read.
    pub fn message(&self) -> (text: &'static str)
        ensures
            text@ == match *self {
                RuntimeError::PointerUnderflow => "Memory underflow"@,
                RuntimeError::PointerOverflow => "Memory overflow"@,
                RuntimeError::UnimplementedInput => "Input is not implemented"@,
            },
    {
        match self {
            RuntimeError::PointerUnderflow => "Memory underflow",
            RuntimeError::PointerOverflow => "Memory overflow",
            RuntimeError::UnimplementedInput => "Input is not implemented",
        }
    }
}

/// How far an execution has come when it returns without an error.
#[derive(Clone, Copy, Debug, PartialEq, Eq, Structural)]
pub enum Progress {
    /// The program counter is at or past the end of the program.
    Halted,
    /// The step budget ran out first; the machine can be run further.
    Suspended,
}

/// The mathematical state of a machine.
pub struct State {
    /// The cells, all of them.
    pub tape: Seq<u8>,
    /// The index of the current cell.
    pub pointer: int,
    /// The index of the instruction to execute next.
    pub counter: int,
    /// The bytes emitted so far, oldest first.
    pub output: Seq<u8>,
}

/// The cell value that the integer `value` wraps to.
pub open spec fn wrap(value: int) -> u8 {
    (value % 256) as u8
}

impl State {
    /// The state every execution starts from: a zeroed tape, both indices at 0, no output.
    pub open spec fn initial() -> State {
        State {
            tape: Seq::new(TAPE_LEN as nat, |i: int| 0u8),
            pointer: 0,
            counter: 0,
            output: Seq::empty(),
        }
    }

    /// The tape has its fixed length and both indices are in range.
    pub open spec fn wf(self) -> bool {
        &&& self.tape.len() == TAPE_LEN
        &&& 0 <= self.pointer < TAPE_LEN
        &&& 0 <= self.counter
    }

    /// The value of the current cell.
    pub open spec fn cell(self) -> u8 {
        self.tape[self.pointer]
    }

    /// Whether the program counter has left the program `code`.
    pub open spec fn halted(self, code: Seq<Instruction>) -> bool {
        self.counter >= code.len()
    }

    /// This state with the current cell set to `value` and the counter advanced.
    pub open spec fn store(self, value: u8) -> State {
        State { tape: self.tape.update(self.pointer, value), counter: self.counter + 1, ..self }
    }

    /// This state with the data pointer at `pointer` and the counter advanced.
    pub open spec fn seek(self, pointer: int) -> State {
        State { pointer, counter: self.counter + 1, ..self }
    }

    /// This state with the current cell emitted `count` times and the counter advanced.
    pub open spec fn emit(self, count: nat) -> State {
        State {
            output: self.output + Seq::new(count, |i: int| self.cell()),
            counter: self.counter + 1,
            ..self
        }
    }

    /// This state with the counter at `target` if `taken`, else advanced by one.
    pub open spec fn jump(self, taken: bool, target: int) -> State {
        State { counter: if taken { target } else { self.counter + 1 }, ..self }
    }
}

/// What executing `instruction` in state `s` leads to: the next state, or the error
/// that stops the execution.
pub open spec fn apply(instruction: Instruction, s: State) -> Result<State, RuntimeError> {
    match instruction {
        Instruction::Increment(n) => Ok(s.store(wrap(s.cell() + n))),
        Instruction::Decrement(n) => Ok(s.store(wrap(s.cell() - n))),
        Instruction::MoveLeft(n) => if s.pointer < n {
            Err(RuntimeError::PointerUnderflow)
        } else {
            Ok(s.seek(s.pointer - n))
        },
        Instruction::MoveRight(n) => if s.pointer + n >= TAPE_LEN {
            Err(RuntimeError::PointerOverflow)
        } else {
            Ok(s.seek(s.pointer + n))
        },
        Instruction::ReadInput => Err(RuntimeError::UnimplementedInput),
        Instruction::WriteOutput(n) => Ok(s.emit(n as nat)),
        Instruction::JumpIfZero(target) => Ok(s.jump(s.cell() == 0, target as int)),
        Instruction::JumpIfNonZero(target) => Ok(s.jump(s.cell() != 0, target as int)),
    }
}

/// One step of `code` from state `s`. A halted machine stays as it is.
pub open spec fn step_spec(code: Seq<Instruction>, s: State) -> Result<State, RuntimeError> {
    if s.halted(code) {
        Ok(s)
    } else {
        apply(code[s.counter], s)
    }
}

/// Up to `steps` steps of `code` from state `s`: the state reached, and the error that
/// stopped the execution there, if one did.
pub open spec fn run_spec(code: Seq<Instruction>, s: State, steps: nat) -> (State, Option<
    RuntimeError,
>)
    decreases steps,
{
    if steps == 0 {
        (s, None)
    } else {
        match step_spec(code, s) {
            Ok(next) => run_spec(code, next, (steps - 1) as nat),
            Err(e) => (s, Some(e)),
        }
    }
}

/// What a run reports for the end `(state, error)` that it reached.
pub open spec fn report(code: Seq<Instruction>, end: (State, Option<RuntimeError>)) -> Result<
    Progress,
    RuntimeError,
> {
    match end.1 {
        Some(e) => Err(e),
        None => Ok(
            if end.0.halted(code) {
                Progress::Halted
            } else {
                Progress::Suspended
            },
        ),
    }
}

/// A machine: a tape of `TAPE_LEN` byte cells, a data pointer, a program counter, and
/// the bytes it has emitted.
#[derive(Debug)]
pub struct Machine {
    tape: Vec<u8>,
    pointer: usize,
    counter: usize,
    output: Vec<u8>,
}

impl View for Machine {
    type V = State;

    closed spec fn view(&self) -> State {
        State {
            tape: self.tape@,
            pointer: self.pointer as int,
            counter: self.counter as int,
            output: self.output@,
        }
    }
}

impl Machine {
    /// A machine in the initial state.
    pub fn new() -> (machine: Machine)
        ensures
            machine@ == State::initial(),
            machine@.wf(),
    {
        let tape: Vec<u8> = vec![0u8; TAPE_LEN];
        let machine = Machine { tape, pointer: 0, counter: 0, output: Vec::new() };
        assert(machine@.tape =~= State::initial().tape);
        machine
    }

    /// The index of the current cell.
    pub fn pointer(&self) -> (pointer: usize)
        ensures
            pointer == self@.pointer,
    {
        self.pointer
    }

    /// The index of the instruction to execute next.
    pub fn counter(&self) -> (counter: usize)
        ensures
            counter == self@.counter,
    {
        self.counter
    }

    /// The value of the current cell.
    pub fn cell(&self) -> (value: u8)
        requires
            self@.wf(),
        ensures
            value == self@.cell(),
    {
        self.tape[self.pointer]
    }

    /// Executes the instruction under the program counter. A halted machine stays as it
    /// is; a failing instruction leaves the machine untouched.
    pub fn step(&mut self, code: &[Instruction]) -> (result: Result<(), RuntimeError>)
        requires
            old(self)@.wf(),
        ensures
            final(self)@.wf(),
            match result {
                Ok(()) => step_spec(code@, old(self)@) == Ok::<State, RuntimeError>(final(self)@),
                Err(e) => {
                    &&& step_spec(code@, old(self)@) == Err::<State, RuntimeError>(e)
                    &&& final(self)@ == old(self)@
                },
            },
    {
        if self.counter >= code.len() {
            return Ok(());
        }
        let cell: u8 = self.tape[self.pointer];
        match code[self.counter] {
            Instruction::Increment(n) => {
                let sum: usize = cell as usize + n % 256;
                proof {
                    vstd::arithmetic::div_mod::lemma_add_mod_noop_right(cell as int, n as int, 256);
                }
                self.tape[self.pointer] = (sum % 256) as u8;
                self.counter = self.counter + 1;
            },
            Instruction::Decrement(n) => {
                let difference: usize = cell as usize + 256 - n % 256;
                proof {
                    vstd::arithmetic::div_mod::lemma_sub_mod_noop_right(cell as int, n as int, 256);
                    vstd::arithmetic::div_mod::lemma_mod_add_multiples_vanish(
                        cell as int - (n as int) % 256,
                        256,
                    );
                }
                self.tape[self.pointer] = (difference % 256) as u8;
                self.counter = self.counter + 1;
            },
            Instruction::MoveLeft(n) => {
                if self.pointer < n {
                    return Err(RuntimeError::PointerUnderflow);
                }
                self.pointer = self.pointer - n;
                self.counter = self.counter + 1;
            },
            Instruction::MoveRight(n) => {
                if n >= TAPE_LEN - self.pointer {
                    return Err(RuntimeError::PointerOverflow);
                }
                self.pointer = self.pointer + n;
                self.counter = self.counter + 1;
            },
            Instruction::ReadInput => {
                return Err(RuntimeError::UnimplementedInput);
            },
            Instruction::WriteOutput(n) => {
                let mut written: usize = 0;
                while written < n
                    invariant
                        written <= n,
                        self.output@ == old(self).output@ + Seq::new(written as nat, |i: int| cell),
                        self.tape == old(self).tape,
                        self.pointer == old(self).pointer,
                        self.counter == old(self).counter,
                    decreases n - written,
                {
                    self.output.push(cell);
                    written = written + 1;
                    assert(self.output@ =~= old(self).output@ + Seq::new(
                        written as nat,
                        |i: int| cell,
                    ));
                }
                self.counter = self.counter + 1;
            },
            Instruction::JumpIfZero(target) => {
                if cell == 0 {
                    self.counter = target;
                } else {
                    self.counter = self.counter + 1;
                }
            },
            Instruction::JumpIfNonZero(target) => {
                if cell != 0 {
                    self.counter = target;
                } else {
                    self.counter = self.counter + 1;
                }
            },
        }
        Ok(())
    }

    /// Executes up to `budget` steps and stops early at the end of the program or at
    /// the first failing instruction, which leaves the machine in the state before it.
    pub fn run(&mut self, code: &[Instruction], budget: u64) -> (result: Result<
        Progress,
        RuntimeError,
    >)
        requires
            old(self)@.wf(),
        ensures
            final(self)@.wf(),
            final(self)@ == run_spec(code@, old(self)@, budget as nat).0,
            result == report(code@, run_spec(code@, old(self)@, budget as nat)),
    {
        let mut spent: u64 = 0;
        while spent < budget && self.counter < code.len()
            invariant
                spent <= budget,
                self@.wf(),
                run_spec(code@, old(self)@, budget as nat) == run_spec(
                    code@,
                    self@,
                    (budget - spent) as nat,
                ),
            decreases budget - spent,
        {
            match self.step(code) {
                Ok(()) => {
                    spent = spent + 1;
                },
                Err(e) => {
                    return Err(e);
                },
            }
        }
        proof {
            lemma_run_halted(code@, self@, (budget - spent) as nat);
        }
        if self.counter >= code.len() {
            Ok(Progress::Halted)
        } else {
            Ok(Progress::Suspended)
        }
    }

    /// The cells of the tape.
    pub fn tape(&self) -> (cells: &Vec<u8>)
        ensures
            cells@ == self@.tape,
    {
        &self.tape
    }

    /// The bytes emitted and not yet taken, oldest first.
    pub fn output(&self) -> (bytes: &Vec<u8>)
        ensures
            bytes@ == self@.output,
    {
        &self.output
    }

    /// Hands over the bytes emitted so far and starts the record of output afresh.
    pub fn take_output(&mut self) -> (bytes: Vec<u8>)
        ensures
            bytes@ == old(self)@.output,
            final(self)@ == (State { output: Seq::empty(), ..old(self)@ }),
    {
        let mut bytes: Vec<u8> = Vec::new();
        std::mem::swap(&mut bytes, &mut self.output);
        bytes
    }
}

/// A run from a halted state, or of no steps, ends where it began, without an error.
pub proof fn lemma_run_halted(code: Seq<Instruction>, s: State, steps: nat)
    requires
        steps == 0 || s.halted(code),
    ensures
        run_spec(code, s, steps) == (s, None::<RuntimeError>),
    decreases steps,
{
    if steps > 0 {
        lemma_run_halted(code, s, (steps - 1) as nat);
    }
}

/// A step from a well-formed state leads to a well-formed state: the data pointer
/// never leaves the tape, and the tape keeps its length.
pub proof fn lemma_step_keeps_wf(code: Seq<Instruction>, s: State)
    requires
        s.wf(),
    ensures
        step_spec(code, s) matches Ok(next) ==> next.wf(),
{
}

/// However long a run from a well-formed state lasts, it ends in a well-formed state.
pub proof fn lemma_run_keeps_wf(code: Seq<Instruction>, s: State, steps: nat)
    requires
        s.wf(),
    ensures
        run_spec(code, s, steps).0.wf(),
    decreases steps,
{
    if steps > 0 {
        if let Ok(next) = step_spec(code, s) {
            lemma_step_keeps_wf(code, s);
            lemma_run_keeps_wf(code, next, (steps - 1) as nat);
        }
    }
}

/// A run can be cut in two: running on from where a shorter run stopped without an
/// error gives what the longer run gives.
pub proof fn lemma_run_resumes(code: Seq<Instruction>, s: State, first: nat, second: nat)
    requires
        run_spec(code, s, first).1 is None,
    ensures
        run_spec(code, s, first + second) == run_spec(code, run_spec(code, s, first).0, second),
    decreases first,
{
    if first > 0 {
        if let Ok(next) = step_spec(code, s) {
            lemma_run_resumes(code, next, (first - 1) as nat, second);
        }
    }
}

/// What was emitted before a run began plays no part in it: with `earlier` put in
/// front of the output at the start, the run ends with the same error, in the same
/// state, with `earlier` in front of its output. So output may be taken from a machine
/// between two runs without changing what the machine goes on to emit.
pub proof fn lemma_run_ignores_earlier_output(
    code: Seq<Instruction>,
    s: State,
    earlier: Seq<u8>,
    steps: nat,
)
    ensures
        ({
            let plain = run_spec(code, s, steps);
            let extended = run_spec(code, State { output: earlier + s.output, ..s }, steps);
            &&& extended.1 == plain.1
            &&& extended.0 == State { output: earlier + plain.0.output, ..plain.0 }
        }),
    decreases steps,
{
    let longer = State { output: earlier + s.output, ..s };
    if steps > 0 {
        match step_spec(code, s) {
            Ok(next) => {
                let longer_next = State { output: earlier + next.output, ..next };
                assert(step_spec(code, longer) is Ok);
                assert(step_spec(code, longer)->Ok_0.output =~= longer_next.output);
                assert(step_spec(code, longer) == Ok::<State, RuntimeError>(longer_next));
                lemma_run_ignores_earlier_output(code, next, earlier, (steps - 1) as nat);
            },
            Err(e) => {
                assert(step_spec(code, longer) == Err::<State, RuntimeError>(e));
            },
        }
    }
}

/// What `execute` hands back: the bytes emitted, and how the execution ended.
#[derive(Debug)]
pub struct Execution {
    /// The bytes emitted, oldest first; on an error, those emitted before it.
    pub output: Vec<u8>,
    /// Whether the program halted or ran out of budget, or the error that stopped it.
    pub result: Result<Progress, RuntimeError>,
}

/// Executes `instructions` on a fresh machine for up to `budget` steps.
pub fn execute(instructions: &[Instruction], budget: u64) -> (execution: Execution)
    ensures
        execution.output@ == run_spec(instructions@, State::initial(), budget as nat).0.output,
        execution.result == report(
            instructions@,
            run_spec(instructions@, State::initial(), budget as nat),
        ),
{
    let mut machine = Machine::new();
    let result = machine.run(instructions, budget);
    Execution { output: machine.take_output(), result }
}

} // verus!
