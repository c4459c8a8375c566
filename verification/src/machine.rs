//! The tape machine: a fixed tape of byte cells, a data pointer and an
//! instruction cursor, with the effect of each instruction on them.
use vstd::prelude::*;
use crate::instruction::Op;

verus! {

/// Number of cells on the tape.
pub const TAPE_LEN: usize = 30000;

/// The mathematical state of a machine.
pub struct Snapshot {
    /// The cells, `TAPE_LEN` of them.
    pub tape: Seq<u8>,
    /// Index of the current cell.
    pub ptr: int,
    /// Address of the instruction to execute next.
    pub pc: int,
}

/// The value a cell holding `cell` has after `d` is added to it.
pub open spec fn wrap_add(cell: u8, d: int) -> u8 {
    ((cell as int + d) % 256) as u8
}

/// The state every run starts in: all cells zero, pointer and cursor at 0.
pub open spec fn initial() -> Snapshot {
    Snapshot { tape: Seq::new(TAPE_LEN as nat, |i: int| 0u8), ptr: 0, pc: 0 }
}

/// The effect of `op` on `s`, where `byte` is the byte that the input stream
/// delivered if `op` is `In`. A `Move` that would leave the tape changes
/// nothing and yields the index it tried to reach.
pub open spec fn apply(s: Snapshot, op: Op, byte: u8) -> Result<Snapshot, int> {
    match op {
        Op::Move { d } => if 0 <= s.ptr + d < TAPE_LEN {
            Ok(Snapshot { ptr: s.ptr + d, pc: s.pc + 1, ..s })
        } else {
            Err(s.ptr + d)
        },
        Op::Add { d } => Ok(
            Snapshot {
                tape: s.tape.update(s.ptr, wrap_add(s.tape[s.ptr], d as int)),
                pc: s.pc + 1,
                ..s
            },
        ),
        Op::Out => Ok(Snapshot { pc: s.pc + 1, ..s }),
        Op::In => Ok(Snapshot { tape: s.tape.update(s.ptr, byte), pc: s.pc + 1, ..s }),
        Op::JmpZ { addr } => Ok(
            Snapshot { pc: if s.tape[s.ptr] == 0 { addr as int } else { s.pc + 1 }, ..s },
        ),
        Op::JmpNz { addr } => Ok(
            Snapshot { pc: if s.tape[s.ptr] != 0 { addr as int } else { s.pc + 1 }, ..s },
        ),
    }
}

/// Computes `wrap_add` without leaving the machine's integers.
fn wrapped(cell: u8, d: i128) -> (r: u8)
    ensures
        r == wrap_add(cell, d as int),
{
    // `k` is `d` modulo 256; for a negative `d` it is found from `-(d + 1)`,
    // which cannot overflow.
    let k: u16 = if d >= 0 {
        (d % 256) as u16
    } else {
        let e: i128 = -(d + 1);
        let low: i128 = e % 256;
        assert(d as int == (-(e / 256) - 1) * 256 + (255 - low)) by {
            vstd::arithmetic::div_mod::lemma_fundamental_div_mod(e as int, 256);
        }
        proof {
            vstd::arithmetic::div_mod::lemma_fundamental_div_mod_converse(
                d as int,
                256,
                -(e as int / 256) - 1,
                255 - low,
            );
        }
        (255 - low) as u16
    };
    assert(k as int == (d as int) % 256);
    let sum: u16 = cell as u16 + k;
    proof {
        vstd::arithmetic::div_mod::lemma_add_mod_noop(cell as int, d as int, 256);
        vstd::arithmetic::div_mod::lemma_small_mod(cell as nat, 256);
    }
    (sum % 256) as u8
}

/// A tape, a data pointer and an instruction cursor.
#[derive(Debug)]
pub struct Machine {
    tape: Vec<u8>,
    ptr: usize,
    pc: usize,
}

impl View for Machine {
    type V = Snapshot;

    closed spec fn view(&self) -> Snapshot {
        Snapshot { tape: self.tape@, ptr: self.ptr as int, pc: self.pc as int }
    }
}

impl Machine {
    #[verifier::type_invariant]
    spec fn valid(self) -> bool {
        self.tape.len() == TAPE_LEN && self.ptr < TAPE_LEN
    }

    /// A machine in the initial state.
    pub fn new() -> (m: Machine)
        ensures
            m@ == initial(),
    {
        let m = Machine { tape: vec![0u8; TAPE_LEN], ptr: 0, pc: 0 };
        assert(m.tape@ =~= initial().tape);
        m
    }

    /// The value of the current cell.
    pub fn cell(&self) -> (b: u8)
        ensures
            0 <= self@.ptr < self@.tape.len(),
            b == self@.tape[self@.ptr],
    {
        proof {
            use_type_invariant(self);
        }
        self.tape[self.ptr]
    }

    /// Index of the current cell.
    pub fn pointer(&self) -> (p: usize)
        ensures
            p == self@.ptr,
            p < TAPE_LEN,
    {
        proof {
            use_type_invariant(self);
        }
        self.ptr
    }

    /// Address of the instruction to execute next.
    pub fn cursor(&self) -> (pc: usize)
        ensures
            pc == self@.pc,
    {
        self.pc
    }

    /// Executes `op`, with `byte` as the byte read if `op` is `In`.
    ///
    /// Returns the index that a `Move` tried to reach if it lies off the
    /// tape; the machine is then unchanged.
    pub(crate) fn apply(&mut self, op: Op, byte: u8) -> (r: Result<(), i128>)
        requires
            old(self)@.pc < usize::MAX,
            op matches Op::Move { d } ==> -(usize::MAX as int) <= d <= usize::MAX as int,
        ensures
            match apply(old(self)@, op, byte) {
                Ok(s) => r is Ok && final(self)@ == s,
                Err(idx) => r == Err::<(), i128>(idx as i128) && idx == idx as i128 && final(self)@ == old(
                    self,
                )@,
            },
    {
        proof {
            use_type_invariant(&*self);
        }
        match op {
            Op::Move { d } => {
                let idx: i128 = self.ptr as i128 + d;
                if idx < 0 || idx >= TAPE_LEN as i128 {
                    return Err(idx);
                }
                self.ptr = idx as usize;
                self.pc = self.pc + 1;
            },
            Op::Add { d } => {
                let cell: u8 = wrapped(self.tape[self.ptr], d);
                self.tape[self.ptr] = cell;
                self.pc = self.pc + 1;
            },
            Op::Out => {
                self.pc = self.pc + 1;
            },
            Op::In => {
                self.tape[self.ptr] = byte;
                self.pc = self.pc + 1;
            },
            Op::JmpZ { addr } => {
                if self.tape[self.ptr] == 0 {
                    self.pc = addr;
                } else {
                    self.pc = self.pc + 1;
                }
            },
            Op::JmpNz { addr } => {
                if self.tape[self.ptr] != 0 {
                    self.pc = addr;
                } else {
                    self.pc = self.pc + 1;
                }
            },
        }
        Ok(())
    }
}

} // verus!
