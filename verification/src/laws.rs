//! What holds of every source text, every program and every run.
use vstd::prelude::*;
use crate::folding::{
    always_in_range, lemma_close_of, lemma_emitted_len, lemma_emitted_prefix,
    lemma_folded_follows, lemma_kept_at_end, lemma_op_at, lemma_open_of, lemma_run_begin,
    lemma_token_of, lemma_unfolded_follows,
};
use crate::instruction::Op;
use crate::interpreter::{error_at, translate, well_formed, BuildError, BuildErrorKind};
use crate::machine::{apply, initial, wrap_add, Snapshot, TAPE_LEN};
use crate::semantics::{begin, halted, lemma_run_split, on_program, run, step, Fault, Run};
use crate::source::{
    balanced, close_of, depth, lemma_paired_unique, lemma_pairs_nest, lemma_run, lemma_stray_close_unique,
    lemma_unclosed_open_unique, nested, net, open_of, program, run_begin, same_run,
    stray_close,
    stray_close_pos, token_begin, unclosed_open, unclosed_open_pos,
};

verus! {

/// A text whose brackets are not nested has a first `]` that closes nothing.
pub proof fn lemma_stray_close_exists(s: Seq<u8>, q: int)
    requires
        0 <= q <= s.len(),
        depth(s, q) < 0,
    ensures
        exists|p: int| stray_close(s, p),
    decreases q,
{
    if forall|j: int| 0 <= j < q ==> depth(s, j) >= 0 {
        assert(stray_close(s, q - 1));
    } else {
        let j = choose|j: int| 0 <= j < q && depth(s, j) < 0;
        lemma_stray_close_exists(s, j);
    }
}

/// A nested text that ends inside a loop has an outermost `[` that is never
/// closed: it stands where the depth is zero for the last time, at or
/// before `q`.
pub proof fn lemma_unclosed_open_exists(s: Seq<u8>, q: int)
    requires
        nested(s),
        0 <= q < s.len(),
        forall|j: int| q < j <= s.len() ==> depth(s, j) > 0,
    ensures
        exists|p: int| unclosed_open(s, p),
    decreases q,
{
    if depth(s, q) == 0 {
        assert(unclosed_open(s, q));
    } else {
        assert(depth(s, 0) == 0);
        lemma_unclosed_open_exists(s, q - 1);
    }
}

/// A text with every bracket paired is translated, into its folded program.
pub proof fn law_balanced_text_builds(s: Seq<u8>)
    requires
        balanced(s),
    ensures
        translate(s) == Ok::<Seq<Op>, BuildError>(program(s, true)),
{
    assert forall|p: int| !stray_close(s, p) by {
        if stray_close(s, p) {
            assert(depth(s, p + 1) >= 0);
        }
    }
    assert forall|p: int| !unclosed_open(s, p) by {
        if unclosed_open(s, p) {
            assert(depth(s, s.len() as int) > 0);
        }
    }
}

/// A text is translated only if every bracket in it is paired.
pub proof fn law_built_text_is_balanced(s: Seq<u8>)
    requires
        translate(s) is Ok,
    ensures
        balanced(s),
{
    if !nested(s) {
        let q = choose|q: int| 0 <= q <= s.len() && depth(s, q) < 0;
        lemma_stray_close_exists(s, q);
    }
    if depth(s, s.len() as int) != 0 {
        assert(depth(s, 0) == 0);
        lemma_unclosed_open_exists(s, s.len() - 1);
    }
}

/// The first `]` that closes nothing is reported, at its own line and
/// column.
pub proof fn law_stray_close_is_reported(s: Seq<u8>, p: int)
    requires
        stray_close(s, p),
    ensures
        translate(s) == Err::<Seq<Op>, BuildError>(
            error_at(s, p, BuildErrorKind::BracketNotMatch),
        ),
{
    lemma_stray_close_unique(s, p, stray_close_pos(s));
}

/// Where no `]` is at fault, the outermost `[` that is never closed is
/// reported, at its own line and column.
pub proof fn law_unclosed_open_is_reported(s: Seq<u8>, p: int)
    requires
        nested(s),
        unclosed_open(s, p),
    ensures
        translate(s) == Err::<Seq<Op>, BuildError>(
            error_at(s, p, BuildErrorKind::BracketNotClosed),
        ),
{
    assert forall|j: int| !stray_close(s, j) by {
        if stray_close(s, j) {
            assert(depth(s, j + 1) >= 0);
        }
    }
    lemma_unclosed_open_unique(s, p, unclosed_open_pos(s));
}

/// A `Move` succeeds exactly when it lands on the tape, cells 0 to
/// `TAPE_LEN - 1`; one that does not reports the index it tried to reach,
/// -1 one step off the left end and `TAPE_LEN` one step off the right.
pub proof fn law_tape_bound(s: Snapshot, d: i128, byte: u8)
    ensures
        0 <= s.ptr + d <= TAPE_LEN - 1 ==> apply(s, Op::Move { d }, byte) == Ok::<Snapshot, int>(
            Snapshot { ptr: s.ptr + d, pc: s.pc + 1, ..s },
        ),
        !(0 <= s.ptr + d <= TAPE_LEN - 1) ==> apply(s, Op::Move { d }, byte) == Err::<
            Snapshot,
            int,
        >(s.ptr + d),
{
}

/// Cell arithmetic is modulo 256: an `Add` changes the current cell alone,
/// to the one byte that differs from the sum by a multiple of 256. One more
/// than 255 is 0, one less than 0 is 255.
pub proof fn law_cell_wraps(s: Snapshot, d: i128, byte: u8)
    requires
        0 <= s.ptr < s.tape.len(),
    ensures
        apply(s, Op::Add { d }, byte) == Ok::<Snapshot, int>(
            Snapshot { tape: s.tape.update(s.ptr, wrap_add(s.tape[s.ptr], d as int)), pc: s.pc + 1, ..s },
        ),
        0 <= wrap_add(s.tape[s.ptr], d as int) < 256,
        (s.tape[s.ptr] + d - wrap_add(s.tape[s.ptr], d as int)) % 256 == 0,
        wrap_add(255, 1) == 0,
        wrap_add(0, -1) == 255,
{
}

/// A loop whose cell is zero on entry is skipped: the `JmpZ` moves the
/// cursor just past its `JmpNz` and changes nothing else.
pub proof fn law_loop_is_skipped_on_zero(ops: Seq<Op>, input: Seq<u8>, r: Run)
    requires
        well_formed(ops),
        r.fault is None,
        on_program(ops, r),
        ops[r.state.pc] is JmpZ,
        r.state.tape[r.state.ptr] == 0,
    ensures
        ({
            let after = step(ops, input, r);
            &&& after == Run { state: Snapshot { pc: after.state.pc, ..r.state }, ..r }
            &&& r.state.pc + 1 < after.state.pc <= ops.len()
            &&& ops[after.state.pc - 1] == Op::JmpNz { addr: (r.state.pc + 1) as usize }
        }),
{
}

/// A loop whose cell is not zero on entry is entered: the `JmpZ` moves the
/// cursor to the first instruction of the body.
pub proof fn law_loop_is_entered_on_nonzero(ops: Seq<Op>, input: Seq<u8>, r: Run)
    requires
        r.fault is None,
        on_program(ops, r),
        ops[r.state.pc] is JmpZ,
        r.state.tape[r.state.ptr] != 0,
    ensures
        step(ops, input, r) == (Run { state: Snapshot { pc: r.state.pc + 1, ..r.state }, ..r }),
{
}

/// At the end of a loop body, a cell that has come down to zero ends the
/// loop: the `JmpNz` moves the cursor to the instruction after it, which is
/// where its `JmpZ` skips to.
pub proof fn law_loop_ends_on_zero(ops: Seq<Op>, input: Seq<u8>, r: Run)
    requires
        well_formed(ops),
        r.fault is None,
        on_program(ops, r),
        ops[r.state.pc] is JmpNz,
        r.state.tape[r.state.ptr] == 0,
    ensures
        step(ops, input, r) == (Run { state: Snapshot { pc: r.state.pc + 1, ..r.state }, ..r }),
        ops[ops[r.state.pc]->JmpNz_addr - 1] == (Op::JmpZ { addr: (r.state.pc + 1) as usize }),
{
}

/// At the end of a loop body, a cell that is not zero starts the body again:
/// the `JmpNz` moves the cursor just past its `JmpZ` and changes nothing
/// else.
pub proof fn law_loop_repeats_on_nonzero(ops: Seq<Op>, input: Seq<u8>, r: Run)
    requires
        well_formed(ops),
        r.fault is None,
        on_program(ops, r),
        ops[r.state.pc] is JmpNz,
        r.state.tape[r.state.ptr] != 0,
    ensures
        ({
            let after = step(ops, input, r);
            &&& after == Run { state: Snapshot { pc: after.state.pc, ..r.state }, ..r }
            &&& 1 <= after.state.pc <= r.state.pc
            &&& ops[after.state.pc - 1] == Op::JmpZ { addr: (r.state.pc + 1) as usize }
        }),
{
}

/// The program of a balanced text, folded or not, is well formed: each `[`
/// jumps just past its `]`, and each `]` just past its `[`.
pub proof fn law_program_is_well_formed(s: Seq<u8>, fold: bool)
    requires
        balanced(s),
        s.len() <= usize::MAX,
    ensures
        well_formed(program(s, fold)),
{
    let ops = program(s, fold);
    let len = s.len() as int;
    lemma_emitted_len(s, len, fold);
    assert forall|k: int| 0 <= k < ops.len() implies match #[trigger] ops[k] {
        Op::JmpZ { addr } => k + 1 < addr <= ops.len() && ops[addr - 1] == (Op::JmpNz {
            addr: (k + 1) as usize,
        }),
        Op::JmpNz { addr } => 1 <= addr <= k && ops[addr - 1] == (Op::JmpZ {
            addr: (k + 1) as usize,
        }),
        Op::Move { d } => -(usize::MAX as int) <= d <= usize::MAX as int,
        _ => true,
    } by {
        let e = lemma_token_of(s, k, len, fold);
        let q = token_begin(s, e, fold);
        lemma_op_at(s, e, fold);
        lemma_run_begin(s, e - 1);
        if ops[k] is Move {
            assert forall|i: int| q <= i <= e - 1 implies same_run(s[q], #[trigger] s[i]) by {}
            if fold {
                lemma_run(s, q, e - 1);
            } else {
                assert(net(s, q, q) == 0);
            }
        } else if ops[k] is JmpZ {
            assert(q == e - 1);
            let c = close_of(s, q);
            lemma_close_of(s, q);
            lemma_open_of(s, c);
            lemma_paired_unique(s, q, c, open_of(s, c), c);
            assert(run_begin(s, c) == c);
            lemma_op_at(s, c + 1, fold);
            lemma_emitted_prefix(s, q + 1, c, fold);
            lemma_emitted_len(s, c + 1, fold);
        } else if ops[k] is JmpNz {
            assert(q == e - 1);
            let o = open_of(s, q);
            lemma_open_of(s, q);
            lemma_close_of(s, o);
            lemma_paired_unique(s, o, q, o, close_of(s, o));
            assert(run_begin(s, o) == o);
            lemma_op_at(s, o + 1, fold);
            lemma_emitted_prefix(s, o + 1, q, fold);
            lemma_emitted_len(s, q + 1, fold);
        }
    }
}

/// The loop `[-]` stands at address `k` of `ops`.
pub open spec fn countdown_at(ops: Seq<Op>, k: int) -> bool {
    &&& 0 <= k
    &&& k + 3 <= ops.len()
    &&& k + 3 <= usize::MAX
    &&& ops[k] == Op::JmpZ { addr: (k + 3) as usize }
    &&& ops[k + 1] == Op::Add { d: -1i128 }
    &&& ops[k + 2] == Op::JmpNz { addr: (k + 1) as usize }
}

/// The run `r` with its current cell set to `v` and its cursor to `pc`.
pub open spec fn with_cell(r: Run, v: u8, pc: int) -> Run {
    Run { state: Snapshot { tape: r.state.tape.update(r.state.ptr, v), pc, ..r.state }, ..r }
}

/// Inside the loop `[-]` at `k`, with `v` in the current cell and the
/// cursor on the `-`, the loop is left after `2 * v` steps with the cell at
/// zero.
pub proof fn lemma_countdown(ops: Seq<Op>, input: Seq<u8>, r: Run, k: int, v: u8)
    requires
        countdown_at(ops, k),
        r.fault is None,
        0 <= r.state.ptr < r.state.tape.len(),
        v >= 1,
    ensures
        run(ops, input, with_cell(r, v, k + 1), 2 * v as nat) == with_cell(r, 0, k + 3),
    decreases v,
{
    let from = with_cell(r, v, k + 1);
    let lower = (v - 1) as u8;
    assert(wrap_add(v, -1) == lower);
    let mid = step(ops, input, from);
    assert(mid.state.tape =~= r.state.tape.update(r.state.ptr, lower));
    assert(mid == with_cell(r, lower, k + 2));
    let back = step(ops, input, mid);
    assert(run(ops, input, from, 1) == mid) by {
        assert(run(ops, input, from, 0) == from);
    }
    assert(run(ops, input, from, 2) == back);
    if lower == 0 {
        assert(back == with_cell(r, 0, k + 3));
    } else {
        assert(back == with_cell(r, lower, k + 1));
        lemma_countdown(ops, input, r, k, lower);
        lemma_run_split(ops, input, from, 2, 2 * lower as nat);
    }
}

/// A loop that counts its cell down ends: the loop `[-]`, entered with `v`
/// in the current cell, is left after `2 * v + 1` steps, with the cell at
/// zero, the cursor just past the loop, and nothing else changed.
pub proof fn law_countdown_loop_ends(ops: Seq<Op>, input: Seq<u8>, r: Run)
    requires
        countdown_at(ops, r.state.pc),
        r.fault is None,
        0 <= r.state.ptr < r.state.tape.len(),
    ensures
        run(ops, input, r, 2 * r.state.tape[r.state.ptr] as nat + 1) == with_cell(
            r,
            0,
            r.state.pc + 3,
        ),
{
    let k = r.state.pc;
    let v = r.state.tape[r.state.ptr];
    let first = step(ops, input, r);
    assert(run(ops, input, r, 1) == first) by {
        assert(run(ops, input, r, 0) == r);
    }
    if v == 0 {
        assert(r.state.tape.update(r.state.ptr, 0) =~= r.state.tape);
    } else {
        assert(r.state.tape.update(r.state.ptr, v) =~= r.state.tape);
        assert(first == with_cell(r, v, k + 1));
        lemma_countdown(ops, input, r, k, v);
        lemma_run_split(ops, input, r, 1, 2 * v as nat);
    }
}

/// The instruction at `i` stands between the `JmpZ` at `k` and its `JmpNz`.
pub open spec fn inside(ops: Seq<Op>, k: int, i: int) -> bool {
    0 <= k < i < ops.len() && ops[k] is JmpZ && i < ops[k]->JmpZ_addr - 1
}

/// Each loop encloses whole loops only: a jump between a `JmpZ` and its
/// `JmpNz` has its own partner between them too.
pub open spec fn loops_nest(ops: Seq<Op>) -> bool {
    forall|k: int, i: int|
        inside(ops, k, i) ==> match #[trigger] ops[i] {
            Op::JmpZ { addr } => addr < (#[trigger] ops[k])->JmpZ_addr,
            Op::JmpNz { addr } => k + 1 < addr,
            _ => true,
        }
}

/// In the program of a balanced text, folded or not, each loop encloses
/// whole loops only.
pub proof fn law_loops_nest(s: Seq<u8>, fold: bool)
    requires
        balanced(s),
        s.len() <= usize::MAX,
    ensures
        loops_nest(program(s, fold)),
{
    let ops = program(s, fold);
    let len = s.len() as int;
    lemma_emitted_len(s, len, fold);
    law_program_is_well_formed(s, fold);
    assert forall|k: int, i: int| inside(ops, k, i) implies match #[trigger] ops[i] {
        Op::JmpZ { addr } => addr < (#[trigger] ops[k])->JmpZ_addr,
        Op::JmpNz { addr } => k + 1 < addr,
        _ => true,
    } by {
        // the `[` of the outer loop and its `]`
        let o = lemma_token_of(s, k, len, fold) - 1;
        lemma_op_at(s, o + 1, fold);
        lemma_run_begin(s, o);
        let c = close_of(s, o);
        lemma_close_of(s, o);
        assert(run_begin(s, c) == c);
        lemma_op_at(s, c + 1, fold);
        lemma_emitted_len(s, c + 1, fold);
        if ops[i] is JmpZ || ops[i] is JmpNz {
            // the bracket of the inner jump stands between them
            let q = lemma_token_of(s, i, len, fold) - 1;
            lemma_op_at(s, q + 1, fold);
            lemma_run_begin(s, q);
            if q <= o {
                lemma_emitted_prefix(s, q + 1, o, fold);
            }
            if q >= c {
                lemma_emitted_prefix(s, c, q, fold);
            }
            assert(o < q < c);
            if ops[i] is JmpZ {
                let c2 = close_of(s, q);
                lemma_close_of(s, q);
                lemma_pairs_nest(s, o, c, q, c2);
                lemma_emitted_len(s, c2 + 1, fold);
                lemma_emitted_prefix(s, c2 + 1, c, fold);
            } else {
                let o2 = open_of(s, q);
                lemma_open_of(s, q);
                lemma_paired_unique(s, o, c, o2, q);
                if o2 < o {
                    lemma_pairs_nest(s, o2, q, o, c);
                }
                assert(run_begin(s, o2) == o2);
                lemma_op_at(s, o2 + 1, fold);
                lemma_emitted_len(s, o2 + 1, fold);
                lemma_emitted_prefix(s, o + 1, o2, fold);
            }
        }
    }
}

/// The run `f` of the folded program shows what the run `u` of the
/// unfolded one shows: the same bytes written, the same bytes read, the
/// same fault or none; and where `u` has come to its end, so has `f`, on
/// the same tape with the same pointer.
pub open spec fn same_behaviour(s: Seq<u8>, u: Run, f: Run) -> bool {
    &&& f.output == u.output
    &&& f.taken == u.taken
    &&& f.fault == u.fault
    &&& halted(program(s, false), u) ==> {
        &&& halted(program(s, true), f)
        &&& f.state.tape == u.state.tape
        &&& f.state.ptr == u.state.ptr
    }
}

/// Folding loses no behaviour. Take a balanced text and any input, and run
/// its unfolded program for `n` steps. If that run has not left the tape,
/// then the folded program, on the same input, shows the same behaviour
/// after some number of steps, no more than `n`.
pub proof fn law_folding_preserves_behaviour(s: Seq<u8>, input: Seq<u8>, n: nat)
    requires
        balanced(s),
        s.len() <= usize::MAX,
        !(run(program(s, false), input, begin(initial()), n).fault matches Some(
            Fault::Overflow { .. },
        )),
    ensures
        exists|m: nat|
            m <= n && same_behaviour(
                s,
                run(program(s, false), input, begin(initial()), n),
                #[trigger] run(program(s, true), input, begin(initial()), m),
            ),
{
    let m = lemma_folded_follows(s, input, n);
    let u = run(program(s, false), input, begin(initial()), n);
    let f = run(program(s, true), input, begin(initial()), m);
    if halted(program(s, false), u) {
        lemma_kept_at_end(s, u, f);
    }
    assert(same_behaviour(s, u, f));
}

/// Folding adds no behaviour. Take a balanced text and an input on which
/// its unfolded program never leaves the tape, and run its folded program
/// for `m` steps. Then the unfolded program, on the same input, shows the
/// same behaviour after some number of steps, no fewer than `m`.
pub proof fn law_folding_adds_no_behaviour(s: Seq<u8>, input: Seq<u8>, m: nat)
    requires
        balanced(s),
        s.len() <= usize::MAX,
        always_in_range(s, input),
    ensures
        exists|n: nat|
            n >= m && same_behaviour(
                s,
                #[trigger] run(program(s, false), input, begin(initial()), n),
                run(program(s, true), input, begin(initial()), m),
            ),
{
    let n = lemma_unfolded_follows(s, input, m);
    let u = run(program(s, false), input, begin(initial()), n);
    let f = run(program(s, true), input, begin(initial()), m);
    if halted(program(s, false), u) {
        lemma_kept_at_end(s, u, f);
    }
    assert(same_behaviour(s, u, f));
}

} // verus!
