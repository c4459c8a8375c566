//! What running a program means, as mathematics: a run is a machine state
//! together with the bytes it has taken from the input and given to the
//! output, advanced one instruction at a time.
use vstd::prelude::*;
use crate::instruction::Op;
use crate::machine::{apply, Snapshot};

verus! {

/// Why a run cannot go on.
pub enum Fault {
    /// A `Move` tried to reach cell `idx`, which is not on the tape.
    Overflow { idx: int },
    /// An `In` found the input used up.
    Starved,
}

/// A run at one moment.
pub struct Run {
    /// The machine.
    pub state: Snapshot,
    /// How many bytes of the input have been read.
    pub taken: nat,
    /// The bytes written so far.
    pub output: Seq<u8>,
    /// Set once an instruction has failed; the rest is then as it was
    /// before that instruction.
    pub fault: Option<Fault>,
}

/// The run that starts from `s` with nothing read and nothing written.
pub open spec fn begin(s: Snapshot) -> Run {
    Run { state: s, taken: 0, output: Seq::empty(), fault: None }
}

/// The cursor of `r` is on an instruction of `ops`.
pub open spec fn on_program(ops: Seq<Op>, r: Run) -> bool {
    0 <= r.state.pc < ops.len()
}

/// The run has come to its end without a fault.
pub open spec fn halted(ops: Seq<Op>, r: Run) -> bool {
    r.fault is None && !on_program(ops, r)
}

/// The run after the instruction under its cursor. A run that has halted
/// or failed stays as it is.
pub open spec fn step(ops: Seq<Op>, input: Seq<u8>, r: Run) -> Run {
    if r.fault is Some || !on_program(ops, r) {
        r
    } else {
        let op = ops[r.state.pc];
        if op is In && r.taken >= input.len() {
            Run { fault: Some(Fault::Starved), ..r }
        } else {
            let byte = if op is In {
                input[r.taken as int]
            } else {
                0u8
            };
            match apply(r.state, op, byte) {
                Ok(s) => Run {
                    state: s,
                    taken: if op is In {
                        r.taken + 1
                    } else {
                        r.taken
                    },
                    output: if op is Out {
                        r.output.push(r.state.tape[r.state.ptr])
                    } else {
                        r.output
                    },
                    fault: None,
                },
                Err(idx) => Run { fault: Some(Fault::Overflow { idx }), ..r },
            }
        }
    }
}

/// The run after `n` steps from `r`.
pub open spec fn run(ops: Seq<Op>, input: Seq<u8>, r: Run, n: nat) -> Run
    decreases n,
{
    if n == 0 {
        r
    } else {
        step(ops, input, run(ops, input, r, (n - 1) as nat))
    }
}

/// A run reads its input from the front: while it has no fault, bytes
/// appended to the input change nothing of it.
pub proof fn lemma_run_ignores_unread(
    ops: Seq<Op>,
    input: Seq<u8>,
    more: Seq<u8>,
    r: Run,
    n: nat,
)
    requires
        run(ops, input, r, n).fault is None,
    ensures
        run(ops, input + more, r, n) == run(ops, input, r, n),
    decreases n,
{
    if n > 0 {
        let before = run(ops, input, r, (n - 1) as nat);
        assert(before.fault is None);
        lemma_run_ignores_unread(ops, input, more, r, (n - 1) as nat);
        if on_program(ops, before) && ops[before.state.pc] is In {
            assert(before.taken < input.len());
            assert((input + more)[before.taken as int] == input[before.taken as int]);
        }
    }
}

/// Running `a` steps and then `b` more is running `a + b` steps.
pub proof fn lemma_run_split(ops: Seq<Op>, input: Seq<u8>, r: Run, a: nat, b: nat)
    ensures
        run(ops, input, r, a + b) == run(ops, input, run(ops, input, r, a), b),
    decreases b,
{
    if b > 0 {
        lemma_run_split(ops, input, r, a, (b - 1) as nat);
        assert(run(ops, input, r, a + b) == step(
            ops,
            input,
            run(ops, input, r, (a + b - 1) as nat),
        ));
    }
}

} // verus!
