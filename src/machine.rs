use vstd::prelude::*;
use crate::compiler::valid_program;
use crate::types::BrainCommand;

verus! {

/// Number of cells on the tape.
pub const TAPE_SIZE: usize = 30000;

/// Why a running program stopped before its end.
#[derive(Debug, Clone, Copy, PartialEq, Eq, Structural)]
pub enum RuntimeError {
    /// The pointer was moved left of the first cell or right of the last.
    TapeBounds,
    /// An `Input` instruction found the input at its end.
    InputExhausted,
    /// The program was still running when its step budget ran out.
    StepLimit,
}

/// What one step of the machine asks of its surroundings.
#[derive(Debug, Clone, Copy, PartialEq, Eq, Structural)]
pub enum Event {
    /// An instruction was executed; nothing is to be done.
    Continue,
    /// An `Output` instruction was executed; the byte is to be written.
    Output(u8),
    /// The current instruction is `Input`: a byte is to be read and handed
    /// to `supply_input`. The machine has not moved.
    NeedInput,
    /// The program counter is past the last instruction.
    Halted,
}

/// The state of a machine, as mathematics.
pub struct MachineState {
    pub tape: Seq<i32>,
    pub pointer: int,
    pub pc: int,
}

/// A tape of `TAPE_SIZE` wrapping cells, a pointer into it and a program
/// counter.
pub struct Machine {
    tape: Vec<i32>,
    pointer: usize,
    pc: usize,
}

impl View for Machine {
    type V = MachineState;

    closed spec fn view(&self) -> MachineState {
        MachineState { tape: self.tape@, pointer: self.pointer as int, pc: self.pc as int }
    }
}

/// A full tape with the pointer on a cell of it.
pub open spec fn state_wf(m: MachineState) -> bool {
    &&& m.tape.len() == TAPE_SIZE
    &&& 0 <= m.pointer < TAPE_SIZE
    &&& 0 <= m.pc <= usize::MAX
}

/// The state before a program starts: every cell zero, pointer and program
/// counter at zero.
pub open spec fn initial_state() -> MachineState {
    MachineState { tape: Seq::new(TAPE_SIZE as nat, |i: int| 0i32), pointer: 0, pc: 0 }
}

/// `m` with the current cell set to `v` and the program counter advanced.
pub open spec fn write_cell(m: MachineState, v: i32) -> MachineState {
    MachineState { tape: m.tape.update(m.pointer, v), pointer: m.pointer, pc: m.pc + 1 }
}

/// `m` with the program counter at `pc`.
pub open spec fn goto(m: MachineState, pc: int) -> MachineState {
    MachineState { tape: m.tape, pointer: m.pointer, pc }
}

/// One step of program `p` from state `m`. A taken jump sets the program
/// counter to one past its target; `Input` is left to `input_step`.
pub open spec fn step_spec(p: Seq<BrainCommand>, m: MachineState) -> Result<
    (MachineState, Event),
    RuntimeError,
> {
    if m.pc >= p.len() {
        Ok((m, Event::Halted))
    } else {
        let cell = m.tape[m.pointer];
        match p[m.pc] {
            BrainCommand::Decrement => Ok((write_cell(m, cell.wrapping_sub(1)), Event::Continue)),
            BrainCommand::Increment => Ok((write_cell(m, cell.wrapping_add(1)), Event::Continue)),
            BrainCommand::Input => Ok((m, Event::NeedInput)),
            BrainCommand::JumpBackward(t) => if cell != 0 {
                Ok((goto(m, t->0 + 1), Event::Continue))
            } else {
                Ok((goto(m, m.pc + 1), Event::Continue))
            },
            BrainCommand::JumpForward(t) => if cell == 0 {
                Ok((goto(m, t->0 + 1), Event::Continue))
            } else {
                Ok((goto(m, m.pc + 1), Event::Continue))
            },
            BrainCommand::MoveLeft => if m.pointer == 0 {
                Err(RuntimeError::TapeBounds)
            } else {
                Ok(
                    (
                        MachineState { tape: m.tape, pointer: m.pointer - 1, pc: m.pc + 1 },
                        Event::Continue,
                    ),
                )
            },
            BrainCommand::MoveRight => if m.pointer + 1 >= TAPE_SIZE {
                Err(RuntimeError::TapeBounds)
            } else {
                Ok(
                    (
                        MachineState { tape: m.tape, pointer: m.pointer + 1, pc: m.pc + 1 },
                        Event::Continue,
                    ),
                )
            },
            BrainCommand::Noop => Ok((goto(m, m.pc + 1), Event::Continue)),
            BrainCommand::Output => Ok((goto(m, m.pc + 1), Event::Output(cell as u8))),
        }
    }
}

/// The `Input` instruction at the program counter of `m`, given what was
/// read: the byte goes into the current cell; the end of input is an error.
pub open spec fn input_step(m: MachineState, byte: Option<u8>) -> Result<
    MachineState,
    RuntimeError,
> {
    match byte {
        Some(b) => Ok(write_cell(m, b as i32)),
        None => Err(RuntimeError::InputExhausted),
    }
}

/// `m` is stopped at an `Input` instruction of `p`.
pub open spec fn awaits_input(p: Seq<BrainCommand>, m: MachineState) -> bool {
    0 <= m.pc < p.len() && p[m.pc] == BrainCommand::Input
}

/// `o` written before the run `r`.
pub open spec fn prepend(o: Seq<u8>, r: (Seq<u8>, Result<(), RuntimeError>)) -> (
    Seq<u8>,
    Result<(), RuntimeError>,
) {
    (o + r.0, r.1)
}

/// What program `p` writes, and how it stops, when run from `m` on the bytes
/// `input` for at most `fuel` instructions: `Ok` once the program counter is
/// past the last instruction, else the error that stopped it.
pub open spec fn run_spec(p: Seq<BrainCommand>, m: MachineState, input: Seq<u8>, fuel: nat) -> (
    Seq<u8>,
    Result<(), RuntimeError>,
)
    decreases fuel,
{
    if m.pc >= p.len() {
        (Seq::empty(), Ok(()))
    } else if fuel == 0 {
        (Seq::empty(), Err(RuntimeError::StepLimit))
    } else {
        match step_spec(p, m) {
            Err(e) => (Seq::empty(), Err(e)),
            Ok((next, Event::Output(b))) => prepend(
                seq![b],
                run_spec(p, next, input, (fuel - 1) as nat),
            ),
            Ok((_, Event::NeedInput)) => {
                let byte = if input.len() > 0 {
                    Some(input[0])
                } else {
                    None
                };
                match input_step(m, byte) {
                    Err(e) => (Seq::empty(), Err(e)),
                    Ok(next) => run_spec(p, next, input.drop_first(), (fuel - 1) as nat),
                }
            },
            Ok((next, _)) => run_spec(p, next, input, (fuel - 1) as nat),
        }
    }
}

/// What a run wrote, and how it stopped.
pub struct RunOutcome {
    pub output: Vec<u8>,
    pub status: Result<(), RuntimeError>,
}

/// Runs `program` on a fresh machine, reading bytes from `input` in order,
/// for at most `max_steps` instructions. Output written before an error is
/// kept.
pub fn run(program: &Vec<BrainCommand>, input: &Vec<u8>, max_steps: usize) -> (r: RunOutcome)
    requires
        valid_program(program@),
    ensures
        (r.output@, r.status) == run_spec(program@, initial_state(), input@, max_steps as nat),
{
    let mut m = Machine::new();
    let mut output: Vec<u8> = Vec::new();
    let mut read: usize = 0;
    let mut left: usize = max_steps;
    let ghost total = run_spec(program@, initial_state(), input@, max_steps as nat);
    assert(output@ + total.0 =~= total.0);
    assert(input@.skip(0) =~= input@);
    loop
        invariant
            state_wf(m@),
            valid_program(program@),
            read <= input.len(),
            total == run_spec(program@, initial_state(), input@, max_steps as nat),
            total == prepend(output@, run_spec(program@, m@, input@.skip(read as int), left as nat)),
        decreases left,
    {
        let ghost rest = input@.skip(read as int);
        if m.pc() >= program.len() {
            assert(output@ + Seq::<u8>::empty() =~= output@);
            return RunOutcome { output, status: Ok(()) };
        }
        if left == 0 {
            assert(output@ + Seq::<u8>::empty() =~= output@);
            return RunOutcome { output, status: Err(RuntimeError::StepLimit) };
        }
        let ghost before = m@;
        match m.step(program) {
            Err(e) => {
                assert(output@ + Seq::<u8>::empty() =~= output@);
                return RunOutcome { output, status: Err(e) };
            },
            Ok(Event::Output(b)) => {
                let ghost after = run_spec(program@, m@, rest, (left - 1) as nat);
                assert(output@ + (seq![b] + after.0) =~= output@.push(b) + after.0);
                output.push(b);
            },
            Ok(Event::NeedInput) => {
                let byte = if read < input.len() {
                    Some(input[read])
                } else {
                    None
                };
                match m.supply_input(program, byte) {
                    Err(e) => {
                        assert(output@ + Seq::<u8>::empty() =~= output@);
                        return RunOutcome { output, status: Err(e) };
                    },
                    Ok(()) => {
                        assert(rest.drop_first() =~= input@.skip(read + 1));
                        read = read + 1;
                    },
                }
            },
            Ok(_) => {},
        }
        left = left - 1;
    }
}

impl Machine {
    /// A machine in its initial state.
    pub fn new() -> (m: Machine)
        ensures
            m@ == initial_state(),
            state_wf(m@),
    {
        let mut tape: Vec<i32> = Vec::new();
        while tape.len() < TAPE_SIZE
            invariant
                tape.len() <= TAPE_SIZE,
                forall|i: int| 0 <= i < tape.len() ==> tape@[i] == 0,
            decreases TAPE_SIZE - tape.len(),
        {
            tape.push(0);
        }
        let m = Machine { tape, pointer: 0, pc: 0 };
        assert(m@.tape =~= initial_state().tape);
        m
    }

    /// The value of the cell under the pointer.
    pub fn current_cell(&self) -> (r: i32)
        requires
            state_wf(self@),
        ensures
            r == self@.tape[self@.pointer],
    {
        self.tape[self.pointer]
    }

    /// The index of the cell under the pointer.
    pub fn pointer(&self) -> (r: usize)
        ensures
            r == self@.pointer,
    {
        self.pointer
    }

    /// The index of the next instruction.
    pub fn pc(&self) -> (r: usize)
        ensures
            r == self@.pc,
    {
        self.pc
    }

    /// Executes the instruction at the program counter, unless it is `Input`,
    /// for which it returns `Event::NeedInput` and leaves the machine as it is.
    /// On an error the machine is left as it was.
    pub fn step(&mut self, program: &Vec<BrainCommand>) -> (r: Result<Event, RuntimeError>)
        requires
            state_wf(old(self)@),
            valid_program(program@),
        ensures
            state_wf(final(self)@),
            match step_spec(program@, old(self)@) {
                Ok((s, e)) => r == Ok::<Event, RuntimeError>(e) && final(self)@ == s,
                Err(e) => r == Err::<Event, RuntimeError>(e) && final(self)@ == old(self)@,
            },
    {
        if self.pc >= program.len() {
            return Ok(Event::Halted);
        }
        let cell = self.tape[self.pointer];
        match program[self.pc] {
            BrainCommand::Decrement => {
                self.tape[self.pointer] = cell.wrapping_sub(1);
                self.pc = self.pc + 1;
            },
            BrainCommand::Increment => {
                self.tape[self.pointer] = cell.wrapping_add(1);
                self.pc = self.pc + 1;
            },
            BrainCommand::Input => {
                return Ok(Event::NeedInput);
            },
            BrainCommand::JumpBackward(pos) => {
                if cell != 0 {
                    self.pc = pos.unwrap() + 1;
                } else {
                    self.pc = self.pc + 1;
                }
            },
            BrainCommand::JumpForward(pos) => {
                if cell == 0 {
                    self.pc = pos.unwrap() + 1;
                } else {
                    self.pc = self.pc + 1;
                }
            },
            BrainCommand::MoveLeft => {
                if self.pointer == 0 {
                    return Err(RuntimeError::TapeBounds);
                }
                self.pointer = self.pointer - 1;
                self.pc = self.pc + 1;
            },
            BrainCommand::MoveRight => {
                if self.pointer + 1 >= TAPE_SIZE {
                    return Err(RuntimeError::TapeBounds);
                }
                self.pointer = self.pointer + 1;
                self.pc = self.pc + 1;
            },
            BrainCommand::Noop => {
                self.pc = self.pc + 1;
            },
            BrainCommand::Output => {
                self.pc = self.pc + 1;
                return Ok(Event::Output(cell as u8));
            },
        }
        Ok(Event::Continue)
    }

    /// Completes the `Input` instruction at the program counter with what was
    /// read: `Some(b)` stores `b` in the current cell and moves on; `None`, the
    /// end of input, is `InputExhausted` and leaves the machine as it was.
    pub fn supply_input(&mut self, program: &Vec<BrainCommand>, byte: Option<u8>) -> (r: Result<
        (),
        RuntimeError,
    >)
        requires
            state_wf(old(self)@),
            awaits_input(program@, old(self)@),
        ensures
            state_wf(final(self)@),
            match input_step(old(self)@, byte) {
                Ok(s) => r == Ok::<(), RuntimeError>(()) && final(self)@ == s,
                Err(e) => r == Err::<(), RuntimeError>(e) && final(self)@ == old(self)@,
            },
    {
        match byte {
            Some(b) => {
                // the program counter indexes an instruction, so its successor fits
                let end = program.len();
                assert(self.pc < end);
                self.tape[self.pointer] = b as i32;
                self.pc = self.pc + 1;
                Ok(())
            },
            None => Err(RuntimeError::InputExhausted),
        }
    }
}

} // verus!
