//! The executable engine: an owned memory tape, a decoded instruction
//! sequence, the precomputed loop-jump table, and the two cursors.

use vstd::prelude::*;
use crate::instructions::Instructions;
use crate::semantics::{
    RAM_SIZE, SYM_POINTER_FORWARD, SYM_POINTER_BACKWARD, SYM_CELL_INCREMENT, SYM_CELL_DECREMENT,
    SYM_OUTPUT, SYM_INPUT, SYM_LOOP_START, SYM_LOOP_END,
};
use crate::semantics::{decode, lemma_decode_append, lemma_decode_singleton};
use crate::semantics::{
    resolve, resolve_from, resolve_inv, table_matches, table_complete, lemma_resolve_inv_open,
    lemma_resolve_inv_close, lemma_resolve_props,
};
use crate::semantics::{State, RunResult, run, step};

verus! {

/// The ways a run can fail.
#[derive(Clone, Copy, Debug, PartialEq, Eq, Structural)]
pub enum Error {
    /// An unmatched `]` or `[` was found while resolving loops.
    MalformedProgram,
    /// A `,` executed with no input byte left to supply.
    InputExhausted,
    /// The step budget ran out before the program halted.
    StepLimitReached,
}

/// The execution engine.
pub struct Interpreter {
    /// The memory tape: `RAM_SIZE` cells, circularly indexed.
    pub ram: Vec<u8>,
    /// The decoded instruction sequence; fixed once loading completes.
    pub program: Vec<Instructions>,
    /// Loop-jump table, same length as `program`: at the position of a
    /// loop bracket, the position of its matching partner; 0 elsewhere.
    pub jump_map: Vec<usize>,
    /// The tape pointer, always below `RAM_SIZE`.
    pub ptr: usize,
    /// The program counter, always at most `program.len()`.
    pub pc: usize,
}

impl Interpreter {
    /// Structural validity of an engine: the tape has its fixed size and
    /// both cursors are in range.
    pub open spec fn wf(self) -> bool {
        &&& self.ram@.len() == RAM_SIZE
        &&& self.ptr < RAM_SIZE
        &&& self.pc <= self.program@.len()
    }

    /// The ghost machine state this engine is at, given the whole input,
    /// how many of its bytes are already consumed, and the output produced
    /// so far.
    pub open spec fn cur_state(self, input: Seq<u8>, consumed: int, output: Seq<u8>) -> State {
        State {
            tape: self.ram@,
            ptr: self.ptr as int,
            pc: self.pc as int,
            input: input.skip(consumed),
            output: output,
        }
    }

    /// The engine's tape and cursors are those of ghost state `s`.
    pub open spec fn agrees(self, s: State) -> bool {
        &&& self.ram@ == s.tape
        &&& self.ptr as int == s.ptr
        &&& self.pc as int == s.pc
    }

    /// A fresh engine: zeroed tape, empty program, both cursors at 0.
    pub fn new() -> (interp: Interpreter)
        ensures
            interp.wf(),
            interp.ram@ == Seq::new(RAM_SIZE as nat, |i: int| 0u8),
            interp.program@ == Seq::<Instructions>::empty(),
            interp.jump_map@ == Seq::<usize>::empty(),
            interp.ptr == 0,
            interp.pc == 0,
    {
        let mut ram: Vec<u8> = Vec::new();
        let mut i: usize = 0;
        while i < RAM_SIZE
            invariant
                i <= RAM_SIZE,
                ram@.len() == i,
                forall|k: int| 0 <= k < i ==> ram@[k] == 0u8,
            decreases RAM_SIZE - i,
        {
            ram.push(0);
            i = i + 1;
        }
        proof {
            assert(ram@ =~= Seq::new(RAM_SIZE as nat, |i: int| 0u8));
        }
        Interpreter { ram, program: Vec::new(), jump_map: Vec::new(), ptr: 0, pc: 0 }
    }

    /// Appends to the instruction sequence what `source` decodes to: each of
    /// the eight recognized symbols becomes its instruction, every other
    /// byte is discarded as a comment.  Tape, cursors and jump table are
    /// untouched.
    pub fn load_program(&mut self, source: &[u8])
        requires
            old(self).wf(),
        ensures
            final(self).wf(),
            final(self).program@ == old(self).program@ + decode(source@),
            final(self).ram@ == old(self).ram@,
            final(self).jump_map@ == old(self).jump_map@,
            final(self).ptr == old(self).ptr,
            final(self).pc == old(self).pc,
    {
        let ghost orig: Interpreter = *self;
        let n = source.len();
        let mut i: usize = 0;
        while i < n
            invariant
                n == source@.len(),
                i <= n,
                self.program@ == orig.program@ + decode(source@.take(i as int)),
                self.ram@ == orig.ram@,
                self.jump_map@ == orig.jump_map@,
                self.ptr == orig.ptr,
                self.pc == orig.pc,
                orig.wf(),
            decreases n - i,
        {
            let b = source[i];
            proof {
                assert(source@.take(i + 1) =~= source@.take(i as int) + seq![source@[i as int]]);
                lemma_decode_append(source@.take(i as int), seq![source@[i as int]]);
                lemma_decode_singleton(source@[i as int]);
            }
            if b == SYM_POINTER_FORWARD {
                self.program.push(Instructions::IncrementPointer);
            } else if b == SYM_POINTER_BACKWARD {
                self.program.push(Instructions::DecrementPointer);
            } else if b == SYM_CELL_INCREMENT {
                self.program.push(Instructions::IncrementByte);
            } else if b == SYM_CELL_DECREMENT {
                self.program.push(Instructions::DecrementByte);
            } else if b == SYM_OUTPUT {
                self.program.push(Instructions::WriteByte);
            } else if b == SYM_INPUT {
                self.program.push(Instructions::ReadByte);
            } else if b == SYM_LOOP_START {
                self.program.push(Instructions::JumpForward);
            } else if b == SYM_LOOP_END {
                self.program.push(Instructions::JumpBackward);
            }
            proof {
                assert(self.program@ =~= orig.program@ + decode(source@.take(i + 1)));
            }
            i = i + 1;
        }
        proof {
            assert(source@.take(n as int) =~= source@);
        }
    }

    /// Resolves every loop bracket to its partner in one linear pass with a
    /// stack of open `[` positions, rebuilding the jump table.  Returns
    /// `Err(Error::MalformedProgram)` exactly when a `]` has no open `[`, or
    /// a `[` is never closed; the table is rebuilt exactly when every
    /// bracket matches.  Tape, program and cursors are untouched.
    pub fn precompute_jumps(&mut self) -> (r: Result<(), Error>)
        requires
            old(self).wf(),
        ensures
            final(self).wf(),
            final(self).program@ == old(self).program@,
            final(self).ram@ == old(self).ram@,
            final(self).ptr == old(self).ptr,
            final(self).pc == old(self).pc,
            match r {
                Ok(_) => resolve(old(self).program@) is Some && table_matches(
                    old(self).program@,
                    final(self).jump_map@,
                ),
                Err(e) => e == Error::MalformedProgram && resolve(old(self).program@) is None
                    && final(self).jump_map@ == old(self).jump_map@,
            },
    {
        let ghost prog = self.program@;
        let n = self.program.len();
        let mut table: Vec<usize> = Vec::new();
        let mut k: usize = 0;
        while k < n
            invariant
                k <= n,
                table@.len() == k,
                forall|j: int| 0 <= j < k ==> table@[j] == 0usize,
            decreases n - k,
        {
            table.push(0);
            k = k + 1;
        }
        let mut stack: Vec<usize> = Vec::new();
        let ghost mut gtable: Map<int, int> = Map::empty();
        let mut pc_: usize = 0;
        let ghost orig: Interpreter = *self;
        proof {
            assert(stack@.map_values(|x: usize| x as int) =~= Seq::<int>::empty());
        }
        while pc_ < n
            invariant
                n == prog.len(),
                self.program@ == prog,
                self.ram@ == orig.ram@,
                self.jump_map@ == orig.jump_map@,
                self.ptr == orig.ptr,
                self.pc == orig.pc,
                self.wf(),
                pc_ <= n,
                table@.len() == n,
                resolve_inv(prog, pc_ as nat, stack@.map_values(|x: usize| x as int), gtable),
                resolve_from(prog, pc_ as nat, stack@.map_values(|x: usize| x as int), gtable)
                    == resolve(prog),
                forall|j: int|
                    #[trigger] gtable.dom().contains(j) ==> table@[j] as int == gtable[j],
                forall|j: int|
                    0 <= j < n && !gtable.dom().contains(j) ==> #[trigger] table@[j] == 0usize,
            decreases n - pc_,
        {
            let ghost gstack = stack@.map_values(|x: usize| x as int);
            let instr = self.program[pc_];
            match instr {
                Instructions::JumpForward => {
                    stack.push(pc_);
                    proof {
                        assert(stack@.map_values(|x: usize| x as int) =~= gstack.push(pc_ as int));
                        lemma_resolve_inv_open(prog, pc_ as nat, gstack, gtable);
                    }
                },
                Instructions::JumpBackward => {
                    if stack.len() == 0 {
                        proof {
                            assert(resolve(prog) is None);
                        }
                        return Err(Error::MalformedProgram);
                    }
                    let target = stack.pop().unwrap();
                    proof {
                        assert(gstack.last() == target as int);
                        assert(stack@.map_values(|x: usize| x as int) =~= gstack.drop_last());
                        lemma_resolve_inv_close(prog, pc_ as nat, gstack, gtable);
                    }
                    table.set(target, pc_);
                    table.set(pc_, target);
                    proof {
                        gtable = gtable.insert(target as int, pc_ as int).insert(
                            pc_ as int,
                            target as int,
                        );
                    }
                },
                _ => {},
            }
            pc_ = pc_ + 1;
        }
        if stack.len() > 0 {
            proof {
                assert(resolve(prog) is None);
            }
            return Err(Error::MalformedProgram);
        }
        proof {
            assert(resolve(prog) == Some(gtable));
        }
        self.jump_map = table;
        Ok(())
    }

    /// Resolves the loops, then runs the machine for at most `max_steps`
    /// steps, reading from `input` and collecting the output.  On a
    /// malformed program nothing runs and the engine is unchanged.
    /// Otherwise the result and the engine's final tape and cursors are
    /// exactly those of the small-step machine: the collected output on a
    /// normal halt, `Error::InputExhausted` when a `,` finds no input byte
    /// left, and `Error::StepLimitReached` when the budget ran out first.
    pub fn execute_program(&mut self, input: &[u8], max_steps: u64) -> (r: Result<Vec<u8>, Error>)
        requires
            old(self).wf(),
        ensures
            final(self).wf(),
            final(self).program@ == old(self).program@,
            match resolve(old(self).program@) {
                None => {
                    &&& r == Err::<Vec<u8>, Error>(Error::MalformedProgram)
                    &&& final(self).ram@ == old(self).ram@
                    &&& final(self).jump_map@ == old(self).jump_map@
                    &&& final(self).ptr == old(self).ptr
                    &&& final(self).pc == old(self).pc
                },
                Some(table) => {
                    &&& table_matches(old(self).program@, final(self).jump_map@)
                    &&& match run(
                        old(self).program@,
                        table,
                        old(self).cur_state(input@, 0, Seq::empty()),
                        max_steps as nat,
                    ) {
                        RunResult::Halted(s) => (match r {
                            Ok(out) => out@ == s.output,
                            Err(_) => false,
                        }) && final(self).agrees(s),
                        RunResult::InputExhausted(s) => r == Err::<Vec<u8>, Error>(
                            Error::InputExhausted,
                        ) && final(self).agrees(s),
                        RunResult::OutOfFuel(s) => r == Err::<Vec<u8>, Error>(
                            Error::StepLimitReached,
                        ) && final(self).agrees(s),
                    }
                },
            },
    {
        let ghost prog = self.program@;
        let ghost s0 = self.cur_state(input@, 0, Seq::empty());
        match self.precompute_jumps() {
            Err(e) => {
                return Err(e);
            },
            Ok(_) => {},
        }
        proof {
            lemma_resolve_props(prog);
        }
        let ghost table: Map<int, int> = resolve(prog)->Some_0;
        let mut out: Vec<u8> = Vec::new();
        let mut next_in: usize = 0;
        let mut steps: u64 = max_steps;
        let ghost fuel0 = max_steps as nat;
        let in_len = input.len();
        while self.pc < self.program.len()
            invariant
                self.wf(),
                self.program@ == prog,
                prog == old(self).program@,
                s0 == old(self).cur_state(input@, 0, Seq::empty()),
                resolve(prog) == Some(table),
                table_complete(prog, table),
                table_matches(prog, self.jump_map@),
                in_len == input@.len(),
                next_in <= in_len,
                fuel0 == max_steps as nat,
                steps <= max_steps,
                run(prog, table, s0, fuel0) == run(
                    prog,
                    table,
                    self.cur_state(input@, next_in as int, out@),
                    steps as nat,
                ),
            decreases steps,
        {
            let ghost pre = self.cur_state(input@, next_in as int, out@);
            if steps == 0 {
                return Err(Error::StepLimitReached);
            }
            let instr = self.program[self.pc];
            match instr {
                Instructions::IncrementPointer => {
                    if self.ptr == RAM_SIZE - 1 {
                        self.ptr = 0;
                    } else {
                        self.ptr = self.ptr + 1;
                    }
                    self.pc = self.pc + 1;
                },
                Instructions::DecrementPointer => {
                    if self.ptr == 0 {
                        self.ptr = RAM_SIZE - 1;
                    } else {
                        self.ptr = self.ptr - 1;
                    }
                    self.pc = self.pc + 1;
                },
                Instructions::IncrementByte => {
                    let v = self.ram[self.ptr];
                    let w = if v == 255 {
                        0
                    } else {
                        v + 1
                    };
                    self.ram.set(self.ptr, w);
                    self.pc = self.pc + 1;
                },
                Instructions::DecrementByte => {
                    let v = self.ram[self.ptr];
                    let w = if v == 0 {
                        255
                    } else {
                        v - 1
                    };
                    self.ram.set(self.ptr, w);
                    self.pc = self.pc + 1;
                },
                Instructions::WriteByte => {
                    let v = self.ram[self.ptr];
                    out.push(v);
                    self.pc = self.pc + 1;
                },
                Instructions::ReadByte => {
                    if next_in == in_len {
                        proof {
                            assert(pre.input =~= Seq::<u8>::empty());
                            assert(step(prog, table, pre) is None);
                        }
                        return Err(Error::InputExhausted);
                    }
                    let byte = input[next_in];
                    self.ram.set(self.ptr, byte);
                    next_in = next_in + 1;
                    self.pc = self.pc + 1;
                    proof {
                        assert(input@.skip(next_in - 1).drop_first() =~= input@.skip(
                            next_in as int,
                        ));
                        assert(input@.skip(next_in - 1)[0] == input@[next_in - 1]);
                    }
                },
                Instructions::JumpForward => {
                    let v = self.ram[self.ptr];
                    if v == 0 {
                        self.pc = self.jump_map[self.pc];
                    } else {
                        self.pc = self.pc + 1;
                    }
                },
                Instructions::JumpBackward => {
                    let v = self.ram[self.ptr];
                    if v != 0 {
                        self.pc = self.jump_map[self.pc];
                    } else {
                        self.pc = self.pc + 1;
                    }
                },
            }
            steps = steps - 1;
            proof {
                let post = self.cur_state(input@, next_in as int, out@);
                assert(step(prog, table, pre) is Some);
                assert(step(prog, table, pre)->Some_0 =~= post);
                assert(run(prog, table, pre, (steps + 1) as nat) == run(
                    prog,
                    table,
                    post,
                    steps as nat,
                ));
            }
        }
        proof {
            let cur = self.cur_state(input@, next_in as int, out@);
            assert(run(prog, table, cur, steps as nat) == RunResult::Halted(cur));
        }
        Ok(out)
    }
}

} // verus!
