//! The translator from source text to instructions, and the executor that
//! runs them.
use vstd::prelude::*;
use vstd::string::StringExecFns;
use vstd::string::StringSliceAdditionalSpecFns;
use crate::instruction::Op;
use crate::machine::{apply, initial, Machine, Snapshot};
use crate::semantics::{begin, lemma_run_ignores_unread, on_program, run, step, Fault, Run};
use crate::source::{
    balanced, close_of, col_of, count, depth, emitted, is_bump, is_shift, lemma_paired_unique,
    lemma_position_bounds, lemma_run, lemma_stray_close_unique, lemma_unclosed_open_unique,
    line_of, net, open_of, paired, program, same_run, stray_close, stray_close_pos, token_end,
    unclosed_open, unclosed_open_pos, CLOSE, COMMA, DOT, LEFT, MINUS, NEWLINE, OPEN, PLUS,
    RIGHT,
};
use crate::stream::{error_text, read_byte, write_byte};
use crate::text::{decimal, decimal_text};

verus! {

/// Why a source text cannot be translated.
#[derive(Clone, Copy, Debug, PartialEq, Eq, Structural)]
pub enum BuildErrorKind {
    /// A `]` with no `[` before it to close.
    BracketNotMatch,
    /// A `[` that is never closed.
    BracketNotClosed,
}

/// A malformed bracket, with the line and column of the bracket at fault,
/// both counted from 1.
#[derive(Clone, Copy, Debug, PartialEq, Eq, Structural)]
pub struct BuildError {
    /// Line of the bracket: one more than the newlines before it.
    pub line: usize,
    /// Column of the bracket: one more than the bytes before it in its line.
    pub col: usize,
    /// What is wrong with the bracket.
    pub kind: BuildErrorKind,
}

/// Why a run stopped before its end.
#[derive(Debug, PartialEq)]
pub enum RuntimeErrorKind {
    /// The data pointer was moved to `idx`, which is not on the tape.
    DataOverflow { idx: i128 },
    /// A stream failed, or the input had no byte left; `err` is what the
    /// stream said.
    IO { err: String },
}

/// The first fault of a run.
#[derive(Debug, PartialEq)]
pub struct RuntimeError {
    /// What went wrong.
    pub kind: RuntimeErrorKind,
}

impl RuntimeError {
    /// The fault as a line of text.
    pub fn to_string(&self) -> (text: String)
        ensures
            text@ == match self.kind {
                RuntimeErrorKind::DataOverflow { idx } => "data overflow, idx = "@ + decimal(
                    idx as int,
                ),
                RuntimeErrorKind::IO { err } => "io err: "@ + err@,
            },
    {
        match &self.kind {
            RuntimeErrorKind::DataOverflow { idx } => {
                let number: String = decimal_text(*idx);
                String::from_str("data overflow, idx = ").concat(number.as_str())
            },
            RuntimeErrorKind::IO { err } => String::from_str("io err: ").concat(err.as_str()),
        }
    }
}

/// How far a run has come.
#[derive(Clone, Copy, Debug, PartialEq, Eq, Structural)]
pub enum Progress {
    /// The cursor has run past the last instruction.
    Halted,
    /// The step limit was reached first; the run can be taken up again.
    Running,
}

/// The error of kind `kind` for the bracket at position `p` of `s`.
pub open spec fn error_at(s: Seq<u8>, p: int, kind: BuildErrorKind) -> BuildError {
    BuildError { line: line_of(s, p) as usize, col: col_of(s, p) as usize, kind }
}

/// What translating `s` yields. The first `]` without a `[` is an error;
/// failing that, the outermost `[` without a `]`; otherwise `s` stands for
/// its folded program.
pub open spec fn translate(s: Seq<u8>) -> Result<Seq<Op>, BuildError> {
    if exists|p: int| stray_close(s, p) {
        Err(error_at(s, stray_close_pos(s), BuildErrorKind::BracketNotMatch))
    } else if exists|p: int| unclosed_open(s, p) {
        Err(error_at(s, unclosed_open_pos(s), BuildErrorKind::BracketNotClosed))
    } else {
        Ok(program(s, true))
    }
}

/// The longest run a source text can hold bounds every `Move`.
pub open spec fn move_in_reach(d: i128) -> bool {
    -(usize::MAX as int) <= d <= usize::MAX as int
}

/// Every jump points just past its partner, which points back just past the
/// jump: a `JmpZ` forward to a `JmpNz`, a `JmpNz` backward to a `JmpZ`.
pub open spec fn well_formed(ops: Seq<Op>) -> bool {
    forall|k: int|
        0 <= k < ops.len() ==> match #[trigger] ops[k] {
            Op::JmpZ { addr } => k + 1 < addr <= ops.len() && ops[addr - 1] == (Op::JmpNz {
                addr: (k + 1) as usize,
            }),
            Op::JmpNz { addr } => 1 <= addr <= k && ops[addr - 1] == (Op::JmpZ {
                addr: (k + 1) as usize,
            }),
            Op::Move { d } => move_in_reach(d),
            _ => true,
        }
}

/// The effect on `s` of the instruction under its cursor, with `byte` as the
/// byte read if that instruction is `In`. Past the end of `ops` nothing
/// changes.
pub open spec fn next(ops: Seq<Op>, s: Snapshot, byte: u8) -> Result<Snapshot, int> {
    if 0 <= s.pc < ops.len() {
        apply(s, ops[s.pc], byte)
    } else {
        Ok(s)
    }
}

/// The result `r` and the state `s1` are those of a run of `ops` from `s0`
/// that read exactly the bytes of `input` and completed `n` instructions,
/// under a limit of `limit` instructions.
///
/// `Halted`: the cursor has left the program. `Running`: the limit was
/// reached first. `DataOverflow`: the next instruction is a `Move` to the cell
/// reported, off the tape. `IO`: the next instruction is an `In` or an `Out`,
/// and its stream failed.
pub open spec fn accounts(
    ops: Seq<Op>,
    s0: Snapshot,
    input: Seq<u8>,
    n: nat,
    limit: nat,
    r: Result<Progress, RuntimeError>,
    s1: Snapshot,
) -> bool {
    let e = run(ops, input, begin(s0), n);
    &&& n <= limit
    &&& e.fault is None
    &&& e.state == s1
    &&& e.taken == input.len()
    &&& match r {
        Ok(Progress::Halted) => !on_program(ops, e),
        Ok(Progress::Running) => n == limit && on_program(ops, e),
        Err(fault) => n < limit && on_program(ops, e) && match fault.kind {
            RuntimeErrorKind::DataOverflow { idx } => step(ops, input, e).fault == Some(
                Fault::Overflow { idx: idx as int },
            ),
            RuntimeErrorKind::IO { err } => ops[e.state.pc] is In || ops[e.state.pc] is Out,
        },
    }
}

/// The fault that a failed stream stands for.
fn io_fault(err: std::io::Error) -> (r: RuntimeError)
    ensures
        r.kind is IO,
{
    RuntimeError { kind: RuntimeErrorKind::IO { err: error_text(&err) } }
}

/// A `[` that waits for its `]`: where it stands in the source, and the
/// address just after its instruction.
#[derive(Debug)]
struct LeftBracketInfo {
    line: usize,
    col: usize,
    addr: usize,
}

/// Some open bracket still waits at instruction `k`.
spec fn awaited(stack: Seq<LeftBracketInfo>, k: int) -> bool {
    exists|t: int| 0 <= t < stack.len() && #[trigger] stack[t].addr == k + 1
}

/// What holds of the `t`-th waiting bracket, which stands at `o`, when the
/// first `i` bytes have been read.
spec fn entry_ok(s: Seq<u8>, i: int, ops: Seq<Op>, e: LeftBracketInfo, o: int, t: int) -> bool {
    &&& 0 <= o < i
    &&& depth(s, o) == t
    &&& forall|q: int| o < q <= i ==> depth(s, q) > t
    &&& e.addr == count(s, o + 1, true)
    &&& 1 <= e.addr <= ops.len()
    &&& ops[e.addr - 1] == (Op::JmpZ { addr: 0 })
    &&& emitted(s, i, true)[e.addr - 1] == (Op::JmpZ {
        addr: count(s, close_of(s, o) + 1, true) as usize,
    })
    &&& e.line == line_of(s, o)
    &&& e.col == col_of(s, o)
}

/// What holds of the instruction at `k` when the first `i` bytes have been
/// read: it is final, or its bracket still waits.
spec fn op_ok(s: Seq<u8>, i: int, ops: Seq<Op>, stack: Seq<LeftBracketInfo>, k: int) -> bool {
    &&& ops[k] == emitted(s, i, true)[k] || awaited(stack, k)
    &&& match ops[k] {
        Op::JmpZ { addr } => awaited(stack, k) || (k + 1 < addr <= ops.len() && ops[addr - 1] == (
        Op::JmpNz { addr: (k + 1) as usize })),
        Op::JmpNz { addr } => 1 <= addr <= k && ops[addr - 1] == (Op::JmpZ {
            addr: (k + 1) as usize,
        }),
        Op::Move { d } => move_in_reach(d),
        _ => true,
    }
}

/// Whether `a` and `b` are bytes of one kind of run.
fn same_kind(a: u8, b: u8) -> (r: bool)
    ensures
        r == same_run(a, b),
{
    ((a == LEFT || a == RIGHT) && (b == LEFT || b == RIGHT)) || ((a == PLUS || a == MINUS) && (b
        == PLUS || b == MINUS))
}

/// Whether the run of `first` goes on past the byte at `i`.
fn goes_on(bytes: &[u8], i: usize, first: u8) -> (r: bool)
    requires
        i < bytes@.len(),
    ensures
        r == (i + 1 < bytes@.len() && same_run(first, bytes@[i + 1])),
{
    let n: usize = bytes.len();
    i + 1 < n && same_kind(first, bytes[i + 1])
}

/// Reads the run that starts at `start`: returns the index of its last byte
/// and the sum of its signs.
fn scan_run(bytes: &[u8], start: usize) -> (r: (usize, i128))
    requires
        start < bytes@.len(),
        is_shift(bytes@[start as int]) || is_bump(bytes@[start as int]),
    ensures
        start <= r.0 < bytes@.len(),
        forall|j: int| start <= j <= r.0 ==> same_run(bytes@[start as int], #[trigger] bytes@[j]),
        r.0 + 1 == bytes@.len() || !same_run(bytes@[start as int], bytes@[r.0 + 1]),
        r.1 == net(bytes@, start as int, r.0 + 1),
        -(r.0 + 1 - start) <= r.1 <= r.0 + 1 - start,
{
    let n: usize = bytes.len();
    let first: u8 = bytes[start];
    let mut i: usize = start;
    let mut delta: i128 = if first == RIGHT || first == PLUS {
        1
    } else {
        -1
    };
    assert(net(bytes@, start as int, start as int) == 0);
    let mut more: bool = goes_on(bytes, i, first);
    while more
        invariant
            n == bytes@.len(),
            start <= i < bytes@.len(),
            first == bytes@[start as int],
            is_shift(first) || is_bump(first),
            forall|j: int| start <= j <= i ==> same_run(first, #[trigger] bytes@[j]),
            more == (i + 1 < bytes@.len() && same_run(first, bytes@[i + 1])),
            delta == net(bytes@, start as int, i + 1),
            -(i + 1 - start) <= delta <= i + 1 - start,
        decreases bytes@.len() - i,
    {
        let c: u8 = bytes[i + 1];
        if c == RIGHT || c == PLUS {
            delta = delta + 1;
        } else {
            delta = delta - 1;
        }
        i = i + 1;
        more = goes_on(bytes, i, first);
    }
    (i, delta)
}

/// A translated program.
#[derive(Debug)]
pub struct Interpreter {
    ops: Vec<Op>,
}

impl View for Interpreter {
    type V = Seq<Op>;

    closed spec fn view(&self) -> Seq<Op> {
        self.ops@
    }
}

impl Interpreter {
    #[verifier::type_invariant]
    spec fn valid(self) -> bool {
        well_formed(self.ops@)
    }

    /// The instructions of the program.
    pub fn ops(&self) -> (ops: &Vec<Op>)
        ensures
            ops@ == self@,
            well_formed(self@),
    {
        proof {
            use_type_invariant(self);
        }
        &self.ops
    }

    /// Translates source text into a program.
    ///
    /// Bytes other than the eight commands are comments. Runs of `<` `>` and
    /// runs of `+` `-` are folded into one instruction each, or into none
    /// where they sum to zero. A `]` that closes nothing is reported where it
    /// stands; failing that, the outermost `[` that is never closed. A text
    /// is translated exactly when its brackets are balanced.
    pub fn build(code: &str) -> (r: Result<Interpreter, BuildError>)
        ensures
            r is Ok <==> balanced(code.spec_bytes()),
            match r {
                Ok(it) => translate(code.spec_bytes()) == Ok::<Seq<Op>, BuildError>(it@)
                    && well_formed(it@),
                Err(e) => translate(code.spec_bytes()) == Err::<Seq<Op>, BuildError>(e),
            },
    {
        let bytes: &[u8] = code.as_bytes();
        let n: usize = bytes.len();
        let ghost s: Seq<u8> = bytes@;
        let mut ops: Vec<Op> = Vec::new();
        let mut stack: Vec<LeftBracketInfo> = Vec::new();
        let ghost mut opens: Seq<int> = Seq::empty();
        // newlines read so far, and bytes read since the last of them
        let mut line: usize = 0;
        let mut col: usize = 0;
        let mut i: usize = 0;
        while i < n
            invariant
                s == bytes@,
                s == code.spec_bytes(),
                n == s.len(),
                0 <= i <= n,
                i == 0 || token_end(s, i as int, true),
                line + 1 == line_of(s, i as int),
                col + 1 == col_of(s, i as int),
                ops@.len() == count(s, i as int, true),
                ops@.len() == emitted(s, i as int, true).len(),
                ops@.len() <= i,
                forall|q: int| 0 <= q <= i ==> depth(s, q) >= 0,
                stack@.len() == depth(s, i as int),
                opens.len() == stack@.len(),
                forall|t: int, u: int|
                    0 <= t < u < stack@.len() ==> (#[trigger] stack@[t]).addr < (
                    #[trigger] stack@[u]).addr,
                forall|t: int|
                    0 <= t < stack@.len() ==> entry_ok(s, i as int, ops@, #[trigger] stack@[t], opens[t], t),
                forall|k: int| 0 <= k < ops@.len() ==> op_ok(s, i as int, ops@, stack@, k),
            decreases n - i,
        {
            let c: u8 = bytes[i];
            let ghost i0: int = i as int;
            let ghost i1: int = i + 1;
            let ghost stack0: Seq<LeftBracketInfo> = stack@;
            let ghost ops0: Seq<Op> = ops@;
            proof {
                lemma_position_bounds(s, i as int);
            }
            if c == LEFT || c == RIGHT || c == PLUS || c == MINUS {
                let (last, delta) = scan_run(bytes, i);
                proof {
                    lemma_run(s, i as int, last as int);
                    lemma_position_bounds(s, last + 1);
                }
                if delta != 0 {
                    if c == LEFT || c == RIGHT {
                        ops.push(Op::Move { d: delta });
                    } else {
                        ops.push(Op::Add { d: delta });
                    }
                }
                let ghost end: int = last + 1;
                proof {
                    assert(token_end(s, end, true));
                    assert forall|k: int| 0 <= k < ops@.len() implies op_ok(
                        s,
                        end,
                        ops@,
                        stack@,
                        k,
                    ) by {
                        if k < ops0.len() {
                            assert(op_ok(s, i0, ops0, stack@, k));
                        }
                    }
                }
                col = col + (last - i);
                i = last;
            } else if c == DOT || c == COMMA {
                ops.push(if c == DOT { Op::Out } else { Op::In });
                proof {
                    assert forall|k: int| 0 <= k < ops@.len() implies op_ok(
                        s,
                        i1,
                        ops@,
                        stack@,
                        k,
                    ) by {
                        if k < ops0.len() {
                            assert(op_ok(s, i0, ops0, stack@, k));
                        }
                    }
                }
            } else if c == OPEN {
                ops.push(Op::JmpZ { addr: 0 });
                stack.push(LeftBracketInfo { line: line + 1, col: col + 1, addr: ops.len() });
                proof {
                    opens = opens.push(i as int);
                    assert(stack@.last().addr == ops0.len() + 1);
                    assert forall|k: int| 0 <= k < ops@.len() implies op_ok(
                        s,
                        i1,
                        ops@,
                        stack@,
                        k,
                    ) by {
                        if k < ops0.len() {
                            assert(op_ok(s, i0, ops0, stack0, k));
                            if awaited(stack0, k) {
                                let t = choose|t: int|
                                    0 <= t < stack0.len() && #[trigger] stack0[t].addr == k + 1;
                                assert(stack@[t].addr == k + 1);
                            }
                        } else {
                            assert(stack@[stack@.len() - 1].addr == k + 1);
                        }
                    }
                }
            } else if c == CLOSE {
                match stack.pop() {
                    Some(info) => {
                        let ghost o: int = opens.last();
                        proof {
                            opens = opens.drop_last();
                            assert(paired(s, o, i as int));
                            lemma_paired_unique(s, o, i as int, o, close_of(s, o));
                            lemma_paired_unique(s, o, i as int, open_of(s, i as int), i as int);
                        }
                        ops.push(Op::JmpNz { addr: info.addr });
                        let here: usize = ops.len();
                        ops.set(info.addr - 1, Op::JmpZ { addr: here });
                        proof {
                            assert(entry_ok(s, i0, ops0, stack0[stack0.len() - 1], o, stack0.len() - 1));
                            assert forall|k: int| 0 <= k < ops@.len() implies op_ok(
                                s,
                                i1,
                                ops@,
                                stack@,
                                k,
                            ) by {
                                if k < ops0.len() && k != info.addr - 1 {
                                    assert(op_ok(s, i0, ops0, stack0, k));
                                    if awaited(stack0, k) {
                                        let t = choose|t: int|
                                            0 <= t < stack0.len() && #[trigger] stack0[t].addr == k + 1;
                                        assert(t < stack0.len() - 1);
                                        assert(stack@[t].addr == k + 1);
                                    }
                                }
                            }
                        }
                    },
                    None => {
                        proof {
                            assert(stray_close(s, i as int));
                            assert(depth(s, i + 1) < 0);
                            lemma_stray_close_unique(s, i as int, stray_close_pos(s));
                        }
                        return Err(
                            BuildError {
                                line: line + 1,
                                col: col + 1,
                                kind: BuildErrorKind::BracketNotMatch,
                            },
                        );
                    },
                }
            }
            proof {
                if !(c == LEFT || c == RIGHT || c == PLUS || c == MINUS || c == DOT || c == COMMA
                    || c == OPEN || c == CLOSE) {
                    assert forall|k: int| 0 <= k < ops@.len() implies op_ok(
                        s,
                        i1,
                        ops@,
                        stack@,
                        k,
                    ) by {
                        assert(op_ok(s, i0, ops0, stack@, k));
                    }
                }
            }
            if c == NEWLINE {
                line = line + 1;
                col = 0;
            } else {
                col = col + 1;
            }
            i = i + 1;
        }
        if stack.len() > 0 {
            let info = &stack[0];
            proof {
                assert(entry_ok(s, n as int, ops@, stack@[0], opens[0], 0));
                assert(unclosed_open(s, opens[0]));
                assert(!exists|p: int| stray_close(s, p));
                lemma_unclosed_open_unique(s, opens[0], unclosed_open_pos(s));
                lemma_position_bounds(s, opens[0]);
                assert(depth(s, n as int) > 0);
            }
            return Err(
                BuildError { line: info.line, col: info.col, kind: BuildErrorKind::BracketNotClosed },
            );
        }
        proof {
            assert(!exists|p: int| stray_close(s, p));
            assert(!exists|p: int| unclosed_open(s, p));
            assert forall|k: int| 0 <= k < ops@.len() implies ops@[k] == program(s, true)[k] by {
                assert(op_ok(s, n as int, ops@, stack@, k));
            }
            assert(ops@ =~= program(s, true));
            assert forall|k: int| 0 <= k < ops@.len() implies match #[trigger] ops@[k] {
                Op::JmpZ { addr } => k + 1 < addr <= ops@.len() && ops@[addr - 1] == (Op::JmpNz {
                    addr: (k + 1) as usize,
                }),
                Op::JmpNz { addr } => 1 <= addr <= k && ops@[addr - 1] == (Op::JmpZ {
                    addr: (k + 1) as usize,
                }),
                Op::Move { d } => move_in_reach(d),
                _ => true,
            } by {
                assert(op_ok(s, n as int, ops@, stack@, k));
            }
        }
        Ok(Interpreter { ops })
    }

    /// The instruction under the cursor of `m`; `None` where the cursor has
    /// left the program.
    pub fn pending(&self, m: &Machine) -> (op: Option<Op>)
        ensures
            op == if 0 <= m@.pc < self@.len() {
                Some(self@[m@.pc])
            } else {
                None::<Op>
            },
    {
        let pc: usize = m.cursor();
        if pc < self.ops.len() {
            Some(self.ops[pc])
        } else {
            None
        }
    }

    /// Executes the instruction under the cursor of `m`, with `byte` as the
    /// byte read if that instruction is `In`. An `Out` only moves the
    /// cursor: the byte it writes is the current cell, which the caller hands
    /// to the output before this step.
    ///
    /// A `Move` off the tape fails with the index it tried to reach and
    /// leaves `m` as it was. Past the end of the program nothing happens.
    pub fn step(&self, m: &mut Machine, byte: u8) -> (r: Result<(), RuntimeError>)
        ensures
            match next(self@, old(m)@, byte) {
                Ok(s) => r is Ok && final(m)@ == s,
                Err(idx) => r == Err::<(), RuntimeError>(
                    RuntimeError { kind: RuntimeErrorKind::DataOverflow { idx: idx as i128 } },
                ) && idx == idx as i128 && final(m)@ == old(m)@,
            },
    {
        proof {
            use_type_invariant(self);
        }
        let pc: usize = m.cursor();
        if pc >= self.ops.len() {
            return Ok(());
        }
        let op: Op = self.ops[pc];
        match m.apply(op, byte) {
            Ok(()) => Ok(()),
            Err(idx) => Err(RuntimeError { kind: RuntimeErrorKind::DataOverflow { idx } }),
        }
    }

    /// Goes on with the run of `m`: executes instructions until the cursor
    /// leaves the program, an instruction fails, or `max_steps` instructions
    /// are done. Each `In` takes one byte from `read`, each `Out` gives one
    /// byte to `write`.
    ///
    /// Whatever the streams did, the outcome is that of the run on the bytes
    /// that were read: see [`accounts`].
    pub fn resume<R: std::io::Read, W: std::io::Write>(
        &self,
        m: &mut Machine,
        read: &mut R,
        write: &mut W,
        max_steps: u64,
    ) -> (r: Result<Progress, RuntimeError>)
        ensures
            exists|input: Seq<u8>, n: nat|
                accounts(self@, old(m)@, input, n, max_steps as nat, r, final(m)@),
    {
        let ghost s0: Snapshot = m@;
        let ghost mut input: Seq<u8> = Seq::empty();
        let ghost mut output: Seq<u8> = Seq::empty();
        let mut done: u64 = 0;
        while done < max_steps && m.cursor() < self.ops.len()
            invariant
                s0 == old(m)@,
                done <= max_steps,
                run(self@, input, begin(s0), done as nat) == (Run {
                    state: m@,
                    taken: input.len(),
                    output,
                    fault: None,
                }),
            decreases max_steps - done,
        {
            let op: Op = self.ops[m.cursor()];
            let byte: u8 = match op {
                Op::In => match read_byte(read) {
                    Ok(b) => {
                        proof {
                            lemma_run_ignores_unread(
                                self@,
                                input,
                                seq![b],
                                begin(s0),
                                done as nat,
                            );
                            input = input + seq![b];
                        }
                        b
                    },
                    Err(err) => {
                        let r = Err(io_fault(err));
                        proof {
                            assert(accounts(self@, s0, input, done as nat, max_steps as nat, r, m@));
                        }
                        return r;
                    },
                },
                Op::Out => match write_byte(write, m.cell()) {
                    Ok(()) => {
                        proof {
                            output = output.push(m@.tape[m@.ptr]);
                        }
                        0
                    },
                    Err(err) => {
                        let r = Err(io_fault(err));
                        proof {
                            assert(accounts(self@, s0, input, done as nat, max_steps as nat, r, m@));
                        }
                        return r;
                    },
                },
                _ => 0,
            };
            match self.step(m, byte) {
                Ok(()) => {},
                Err(err) => {
                    let r = Err(err);
                    proof {
                        assert(accounts(self@, s0, input, done as nat, max_steps as nat, r, m@));
                    }
                    return r;
                },
            }
            done = done + 1;
        }
        let r = if m.cursor() < self.ops.len() {
            Ok(Progress::Running)
        } else {
            Ok(Progress::Halted)
        };
        proof {
            assert(accounts(self@, s0, input, done as nat, max_steps as nat, r, m@));
        }
        r
    }

    /// Runs the program from the initial state: all cells zero, pointer and
    /// cursor at 0. Stops with `Progress::Running` once `max_steps`
    /// instructions are done; see [`Interpreter::resume`].
    pub fn execute<R: std::io::Read, W: std::io::Write>(
        &self,
        read: &mut R,
        write: &mut W,
        max_steps: u64,
    ) -> (r: Result<Progress, RuntimeError>)
        ensures
            exists|input: Seq<u8>, n: nat, end: Snapshot|
                accounts(self@, initial(), input, n, max_steps as nat, r, end),
    {
        let mut m: Machine = Machine::new();
        let r = self.resume(&mut m, read, write, max_steps);
        proof {
            let (input, n) = choose|input: Seq<u8>, n: nat|
                accounts(self@, initial(), input, n, max_steps as nat, r, m@);
            assert(accounts(self@, initial(), input, n, max_steps as nat, r, m@));
        }
        r
    }
}

} // verus!
