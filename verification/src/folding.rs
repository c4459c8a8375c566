//! Folding changes no behaviour: the folded program of a text follows the
//! unfolded one token by token.
use vstd::prelude::*;
use crate::machine::{initial, wrap_add, Snapshot, TAPE_LEN};
use crate::semantics::{begin, halted, on_program, run, step, Fault, Run};
use crate::source::{
    balanced, close_of, count, depth, emits, emitted, is_bump, is_shift, lemma_run, nested, net,
    op_of, open_of, paired, program, run_begin, same_run, sign, token_begin, token_end, CLOSE,
    COMMA, DOT, OPEN,
};

verus! {

/// The byte `c` is one of the eight commands.
pub open spec fn is_command(c: u8) -> bool {
    is_shift(c) || is_bump(c) || c == DOT || c == COMMA || c == OPEN || c == CLOSE
}

/// `emitted` holds `count` instructions, at most one per byte.
pub proof fn lemma_emitted_len(s: Seq<u8>, p: int, fold: bool)
    requires
        0 <= p,
    ensures
        emitted(s, p, fold).len() == count(s, p, fold),
        count(s, p, fold) <= p,
    decreases p,
{
    if p > 0 {
        lemma_emitted_len(s, p - 1, fold);
    }
}

/// What has been emitted stays: the instructions up to `p` are the first of
/// those up to any later position `at`.
pub proof fn lemma_emitted_prefix(s: Seq<u8>, p: int, at: int, fold: bool)
    requires
        0 <= p <= at,
    ensures
        count(s, p, fold) <= count(s, at, fold),
        forall|k: int|
            0 <= k < count(s, p, fold) ==> emitted(s, at, fold)[k] == emitted(s, p, fold)[k],
    decreases at - p,
{
    if p < at {
        lemma_emitted_prefix(s, p, at - 1, fold);
        lemma_emitted_len(s, at - 1, fold);
        lemma_emitted_len(s, p, fold);
    }
}

/// The instruction of the token that ends at `p` stands in the program at
/// the address that was counted before it.
pub proof fn lemma_op_at(s: Seq<u8>, p: int, fold: bool)
    requires
        token_end(s, p, fold),
        emits(s, token_begin(s, p, fold), p),
    ensures
        count(s, p, fold) == count(s, p - 1, fold) + 1,
        count(s, p - 1, fold) < program(s, fold).len(),
        program(s, fold)[count(s, p - 1, fold) as int] == op_of(
            s,
            token_begin(s, p, fold),
            p,
            fold,
        ),
{
    lemma_emitted_len(s, p - 1, fold);
    lemma_emitted_len(s, p, fold);
    lemma_emitted_len(s, s.len() as int, fold);
    lemma_emitted_prefix(s, p, s.len() as int, fold);
}

/// Adding in two goes as adding at once.
pub proof fn lemma_wrap_add_twice(c: u8, a: int, b: int)
    ensures
        wrap_add(wrap_add(c, a), b) == wrap_add(c, a + b),
        wrap_add(c, 0) == c,
{
    vstd::arithmetic::div_mod::lemma_add_mod_noop(c + a, b, 256);
    vstd::arithmetic::div_mod::lemma_mod_twice(c + a, 256);
    vstd::arithmetic::div_mod::lemma_add_mod_noop((c + a) % 256, b, 256);
}

/// In a balanced text the depth comes back to that of an `[`: searching
/// forward from `q`, past which it has stayed above so far, finds its `]`.
pub proof fn lemma_close_exists(s: Seq<u8>, o: int, q: int)
    requires
        balanced(s),
        0 <= o < q <= s.len(),
        s[o] == OPEN,
        forall|j: int| o < j <= q ==> depth(s, j) > depth(s, o),
    ensures
        exists|c: int| paired(s, o, c),
    decreases s.len() - q,
{
    assert(depth(s, o) >= 0);
    assert(q < s.len());
    if depth(s, q + 1) > depth(s, o) {
        lemma_close_exists(s, o, q + 1);
    } else {
        assert(depth(s, q) > depth(s, o));
        assert(depth(s, q + 1) >= depth(s, q) - 1);
        assert(depth(s, q + 1) == depth(s, o));
        assert(paired(s, o, q));
    }
}

/// In a nested text the depth was once that after a `]`: searching backward
/// from `q`, from which on it has stayed above, finds its `[`.
pub proof fn lemma_open_exists(s: Seq<u8>, c: int, q: int)
    requires
        nested(s),
        0 <= q <= c < s.len(),
        s[c] == CLOSE,
        forall|j: int| q <= j <= c ==> #[trigger] depth(s, j) > depth(s, c + 1),
    ensures
        exists|o: int| paired(s, o, c),
    decreases q,
{
    assert(depth(s, c + 1) >= 0);
    assert(depth(s, 0) == 0);
    assert(q > 0);
    if depth(s, q - 1) > depth(s, c + 1) {
        lemma_open_exists(s, c, q - 1);
    } else {
        assert(depth(s, q) > depth(s, c + 1));
        assert(depth(s, q) <= depth(s, q - 1) + 1);
        assert(depth(s, q - 1) == depth(s, c + 1));
        assert(paired(s, q - 1, c));
    }
}

/// In a balanced text every `[` has its `]`, which stands later and is
/// followed by a token boundary.
pub proof fn lemma_close_of(s: Seq<u8>, o: int)
    requires
        balanced(s),
        0 <= o < s.len(),
        s[o] == OPEN,
    ensures
        paired(s, o, close_of(s, o)),
        s[close_of(s, o)] == CLOSE,
{
    assert(depth(s, o + 1) == depth(s, o) + 1);
    lemma_close_exists(s, o, o + 1);
    let c = close_of(s, o);
    assert(depth(s, c) > depth(s, o));
}

/// In a balanced text every `]` has its `[`, which stands earlier.
pub proof fn lemma_open_of(s: Seq<u8>, c: int)
    requires
        balanced(s),
        0 <= c < s.len(),
        s[c] == CLOSE,
    ensures
        paired(s, open_of(s, c), c),
        s[open_of(s, c)] == OPEN,
{
    assert(depth(s, c + 1) == depth(s, c) - 1);
    lemma_open_exists(s, c, c);
    let o = open_of(s, c);
    assert(depth(s, o + 1) > depth(s, o));
}

/// A token may begin at `p`.
pub open spec fn boundary(s: Seq<u8>, p: int) -> bool {
    0 <= p <= s.len() && (p == 0 || p == s.len() || !same_run(s[p - 1], s[p]))
}

/// The tape is whole and the pointer is on it.
pub open spec fn sound(st: Snapshot) -> bool {
    st.tape.len() == TAPE_LEN && 0 <= st.ptr < TAPE_LEN
}

/// The run `u` of the unfolded program and the run `f` of the folded one
/// are at the same place in the text: `f` is before the token that begins at
/// `p`, and `u` has done the first `j` bytes of it. They have read and
/// written the same, and differ by what those `j` bytes did.
pub open spec fn follows(s: Seq<u8>, u: Run, f: Run, p: int, j: int) -> bool {
    &&& boundary(s, p)
    &&& 0 <= j
    &&& p + j <= s.len()
    &&& j > 0 ==> p + j < s.len() && forall|i: int|
        p <= i <= p + j ==> same_run(s[p], #[trigger] s[i])
    &&& u.fault is None
    &&& f.fault is None
    &&& u.state.pc == count(s, p + j, false)
    &&& f.state.pc == count(s, p, true)
    &&& u.taken == f.taken
    &&& u.output == f.output
    &&& sound(u.state)
    &&& sound(f.state)
    &&& if j == 0 {
        u.state.tape == f.state.tape && u.state.ptr == f.state.ptr
    } else if is_shift(s[p]) {
        u.state.tape == f.state.tape && u.state.ptr == f.state.ptr + net(s, p, p + j)
    } else {
        u.state.ptr == f.state.ptr && u.state.tape == f.state.tape.update(
            f.state.ptr,
            wrap_add(f.state.tape[f.state.ptr], net(s, p, p + j)),
        )
    }
}

/// The two runs are at the same place, or both have found the input used
/// up at the same place.
pub open spec fn kept(s: Seq<u8>, u: Run, f: Run) -> bool {
    ||| exists|p: int, j: int| follows(s, u, f, p, j)
    ||| (u.fault == Some(Fault::Starved) && f.fault == Some(Fault::Starved) && u.taken == f.taken
        && u.output == f.output)
}

/// Comments stand for nothing in either program: from a boundary before the
/// end of the unfolded program, the next command is at a boundary with the
/// same two addresses.
pub proof fn lemma_skip_comments(s: Seq<u8>, p: int) -> (at: int)
    requires
        boundary(s, p),
        count(s, p, false) < count(s, s.len() as int, false),
    ensures
        p <= at < s.len(),
        boundary(s, at),
        is_command(s[at]),
        count(s, at, false) == count(s, p, false),
        count(s, at, true) == count(s, p, true),
    decreases s.len() - p,
{
    if is_command(s[p]) {
        p
    } else {
        assert(run_begin(s, p) == p);
        assert(token_end(s, p + 1, true));
        assert(count(s, p + 1, true) == count(s, p, true));
        assert(count(s, p + 1, false) == count(s, p, false));
        lemma_skip_comments(s, p + 1)
    }
}

/// Where the unfolded program has come to its end, so has the folded one.
pub proof fn lemma_comments_to_end(s: Seq<u8>, p: int)
    requires
        boundary(s, p),
        count(s, p, false) == count(s, s.len() as int, false),
    ensures
        count(s, p, true) == count(s, s.len() as int, true),
    decreases s.len() - p,
{
    if p < s.len() {
        lemma_emitted_prefix(s, p + 1, s.len() as int, false);
        assert(net(s, p, p) == 0);
        assert(net(s, p, p + 1) == sign(s[p]));
        assert(!is_command(s[p]));
        assert(run_begin(s, p) == p);
        assert(token_end(s, p + 1, true));
        assert(count(s, p + 1, true) == count(s, p, true));
        lemma_comments_to_end(s, p + 1);
    }
}

/// The unfolded program holds one instruction for each command byte.
pub proof fn lemma_plain_op(s: Seq<u8>, q: int)
    requires
        0 <= q < s.len(),
        is_command(s[q]),
    ensures
        count(s, q + 1, false) == count(s, q, false) + 1,
        count(s, q, false) < program(s, false).len(),
        program(s, false)[count(s, q, false) as int] == op_of(s, q, q + 1, false),
        net(s, q, q + 1) == sign(s[q]),
{
    assert(net(s, q, q) == 0);
    assert(net(s, q, q + 1) == sign(s[q]));
    lemma_op_at(s, q + 1, false);
}

/// The folded program holds, for the run from `p` up to `e`, one
/// instruction with the run's sum, or none where the sum is zero.
pub proof fn lemma_folded_run(s: Seq<u8>, p: int, e: int)
    requires
        boundary(s, p),
        p < e <= s.len(),
        forall|i: int| p <= i < e ==> same_run(s[p], #[trigger] s[i]),
        token_end(s, e, true),
    ensures
        -(e - p) <= net(s, p, e) <= e - p,
        boundary(s, e),
        net(s, p, e) == 0 ==> count(s, e, true) == count(s, p, true),
        net(s, p, e) != 0 ==> {
            &&& count(s, e, true) == count(s, p, true) + 1
            &&& count(s, p, true) < program(s, true).len()
            &&& program(s, true)[count(s, p, true) as int] == op_of(s, p, e, true)
        },
{
    assert(same_run(s[p], s[p]));
    lemma_run(s, p, e - 1);
    if net(s, p, e) != 0 {
        lemma_op_at(s, e, true);
    }
}

/// The folded program holds one instruction for a command byte that is no
/// part of a run.
pub proof fn lemma_folded_single(s: Seq<u8>, p: int)
    requires
        0 <= p < s.len(),
        s[p] == DOT || s[p] == COMMA || s[p] == OPEN || s[p] == CLOSE,
    ensures
        boundary(s, p),
        boundary(s, p + 1),
        count(s, p + 1, true) == count(s, p, true) + 1,
        count(s, p, true) < program(s, true).len(),
        program(s, true)[count(s, p, true) as int] == op_of(s, p, p + 1, true),
{
    assert(run_begin(s, p) == p);
    lemma_op_at(s, p + 1, true);
}

/// The step of the unfolded run from `u` does not leave the tape.
pub open spec fn in_range(s: Seq<u8>, input: Seq<u8>, u: Run) -> bool {
    !(step(program(s, false), input, u).fault matches Some(Fault::Overflow { .. }))
}

/// One byte of a run: the unfolded run does it; the folded run waits for
/// the end of the run and then does the whole of it at once, or nothing
/// where the run sums to zero.
pub proof fn lemma_step_in_run(
    s: Seq<u8>,
    input: Seq<u8>,
    u: Run,
    f: Run,
    p: int,
    j: int,
) -> (to: (bool, int, int))
    requires
        s.len() <= usize::MAX,
        follows(s, u, f, p, j),
        p + j < s.len(),
        is_shift(s[p + j]) || is_bump(s[p + j]),
        in_range(s, input, u),
    ensures
        follows(
            s,
            step(program(s, false), input, u),
            if to.0 {
                step(program(s, true), input, f)
            } else {
                f
            },
            to.1,
            to.2,
        ),
        to.1 + to.2 == p + j + 1,
{
    let q = p + j;
    let e = q + 1;
    let u2 = step(program(s, false), input, u);
    let f2 = step(program(s, true), input, f);
    let c = f.state.tape[f.state.ptr];
    lemma_plain_op(s, q);
    assert(same_run(s[p], s[q]));
    assert(net(s, p, e) == net(s, p, q) + sign(s[q]));
    assert(net(s, p, p) == 0);
    lemma_wrap_add_twice(c, net(s, p, q), sign(s[q]));
    assert(u2.fault is None);
    assert(sound(u2.state));
    assert forall|i: int| p <= i < e implies same_run(s[p], #[trigger] s[i]) by {}
    if e < s.len() && same_run(s[q], s[e]) {
        assert(same_run(s[p], s[e]));
        if is_bump(s[p]) {
            assert(u2.state.tape =~= f.state.tape.update(
                f.state.ptr,
                wrap_add(c, net(s, p, e)),
            ));
        }
        assert(follows(s, u2, f, p, j + 1));
        (false, p, j + 1)
    } else {
        assert(token_end(s, e, true));
        lemma_folded_run(s, p, e);
        if net(s, p, e) == 0 {
            if is_bump(s[p]) {
                assert(u2.state.tape =~= f.state.tape);
            }
            assert(follows(s, u2, f, e, 0));
            (false, e, 0)
        } else {
            if is_bump(s[p]) {
                assert(u2.state.tape =~= f2.state.tape);
            }
            assert(follows(s, u2, f2, e, 0));
            (true, e, 0)
        }
    }
}

/// A `.` or a `,`: both runs do the same.
pub proof fn lemma_step_single(s: Seq<u8>, input: Seq<u8>, u: Run, f: Run, p: int)
    requires
        s.len() <= usize::MAX,
        follows(s, u, f, p, 0),
        p < s.len(),
        s[p] == DOT || s[p] == COMMA,
    ensures
        kept(
            s,
            step(program(s, false), input, u),
            step(program(s, true), input, f),
        ),
{
    let u2 = step(program(s, false), input, u);
    let f2 = step(program(s, true), input, f);
    lemma_plain_op(s, p);
    lemma_folded_single(s, p);
    if u2.fault is None {
        assert(u2.state.tape =~= f2.state.tape);
        assert(follows(s, u2, f2, p + 1, 0));
    }
}

/// A `[`: both runs skip to just after its `]`, or both enter the loop.
pub proof fn lemma_step_open(s: Seq<u8>, input: Seq<u8>, u: Run, f: Run, p: int)
    requires
        balanced(s),
        s.len() <= usize::MAX,
        follows(s, u, f, p, 0),
        p < s.len(),
        s[p] == OPEN,
    ensures
        kept(
            s,
            step(program(s, false), input, u),
            step(program(s, true), input, f),
        ),
{
    let u2 = step(program(s, false), input, u);
    let f2 = step(program(s, true), input, f);
    let c = close_of(s, p);
    lemma_plain_op(s, p);
    lemma_folded_single(s, p);
    lemma_close_of(s, p);
    lemma_emitted_len(s, c + 1, false);
    lemma_emitted_len(s, c + 1, true);
    if u.state.tape[u.state.ptr] == 0 {
        assert(boundary(s, c + 1));
        assert(follows(s, u2, f2, c + 1, 0));
    } else {
        assert(follows(s, u2, f2, p + 1, 0));
    }
}

/// A `]`: both runs go back to just after its `[`, or both leave the loop.
pub proof fn lemma_step_close(s: Seq<u8>, input: Seq<u8>, u: Run, f: Run, p: int)
    requires
        balanced(s),
        s.len() <= usize::MAX,
        follows(s, u, f, p, 0),
        p < s.len(),
        s[p] == CLOSE,
    ensures
        kept(
            s,
            step(program(s, false), input, u),
            step(program(s, true), input, f),
        ),
{
    let u2 = step(program(s, false), input, u);
    let f2 = step(program(s, true), input, f);
    let o = open_of(s, p);
    lemma_plain_op(s, p);
    lemma_folded_single(s, p);
    lemma_open_of(s, p);
    lemma_emitted_len(s, o + 1, false);
    lemma_emitted_len(s, o + 1, true);
    if u.state.tape[u.state.ptr] != 0 {
        assert(boundary(s, o + 1));
        assert(follows(s, u2, f2, o + 1, 0));
    } else {
        assert(follows(s, u2, f2, p + 1, 0));
    }
}

/// One step of the unfolded run that does not leave the tape is followed by
/// the folded run, in one step or in none. Returned: whether the folded run
/// steps, and where the two runs then are. Where the folded run waits, the
/// unfolded one has moved on in the text.
pub proof fn lemma_follow_step(
    s: Seq<u8>,
    input: Seq<u8>,
    u: Run,
    f: Run,
    p: int,
    j: int,
) -> (to: (bool, int, int))
    requires
        balanced(s),
        s.len() <= usize::MAX,
        follows(s, u, f, p, j),
        on_program(program(s, false), u),
        in_range(s, input, u),
    ensures
        kept(
            s,
            step(program(s, false), input, u),
            if to.0 {
                step(program(s, true), input, f)
            } else {
                f
            },
        ),
        !to.0 ==> follows(s, step(program(s, false), input, u), f, to.1, to.2) && to.1 + to.2 > p
            + j,
{
    lemma_emitted_len(s, s.len() as int, false);
    if j > 0 {
        assert(same_run(s[p], s[p + j]));
        lemma_step_in_run(s, input, u, f, p, j)
    } else {
        let at = lemma_skip_comments(s, p);
        assert(follows(s, u, f, at, 0));
        if is_shift(s[at]) || is_bump(s[at]) {
            lemma_step_in_run(s, input, u, f, at, 0)
        } else {
            if s[at] == OPEN {
                lemma_step_open(s, input, u, f, at);
            } else if s[at] == CLOSE {
                lemma_step_close(s, input, u, f, at);
            } else {
                lemma_step_single(s, input, u, f, at);
            }
            (true, at, 0)
        }
    }
}

/// The folded run follows the unfolded one: whatever the unfolded run has
/// reached in `n` steps without leaving the tape, the folded run has
/// reached in some `m` steps, no more than `n`.
pub proof fn lemma_folded_follows(s: Seq<u8>, input: Seq<u8>, n: nat) -> (m: nat)
    requires
        balanced(s),
        s.len() <= usize::MAX,
        !(run(program(s, false), input, begin(initial()), n).fault matches Some(
            Fault::Overflow { .. },
        )),
    ensures
        m <= n,
        kept(
            s,
            run(program(s, false), input, begin(initial()), n),
            run(program(s, true), input, begin(initial()), m),
        ),
    decreases n,
{
    let start = begin(initial());
    if n == 0 {
        assert(follows(s, start, start, 0, 0));
        0
    } else {
        let u = run(program(s, false), input, start, (n - 1) as nat);
        let m0 = lemma_folded_follows(s, input, (n - 1) as nat);
        let f = run(program(s, true), input, start, m0);
        if u.fault is Some || !on_program(program(s, false), u) {
            m0
        } else {
            let (p, j) = choose|p: int, j: int| follows(s, u, f, p, j);
            let to = lemma_follow_step(s, input, u, f, p, j);
            if to.0 {
                (m0 + 1) as nat
            } else {
                m0
            }
        }
    }
}

/// The unfolded program never leaves the tape on `input`.
pub open spec fn always_in_range(s: Seq<u8>, input: Seq<u8>) -> bool {
    forall|k: nat|
        !(#[trigger] run(program(s, false), input, begin(initial()), k).fault matches Some(
            Fault::Overflow { .. },
        ))
}

/// Before a step of the folded run, the unfolded run does the bytes that
/// stand for nothing in the folded program, and then the token of that step:
/// from step `n` on it reaches, at the step returned, where the folded run
/// is after its step `m + 1`.
pub proof fn lemma_catch_up(s: Seq<u8>, input: Seq<u8>, n: nat, m: nat, p: int, j: int) -> (n2:
    nat)
    requires
        balanced(s),
        s.len() <= usize::MAX,
        always_in_range(s, input),
        follows(
            s,
            run(program(s, false), input, begin(initial()), n),
            run(program(s, true), input, begin(initial()), m),
            p,
            j,
        ),
        on_program(program(s, true), run(program(s, true), input, begin(initial()), m)),
    ensures
        n2 > n,
        kept(
            s,
            run(program(s, false), input, begin(initial()), n2),
            run(program(s, true), input, begin(initial()), m + 1),
        ),
    decreases s.len() - (p + j),
{
    let start = begin(initial());
    let u = run(program(s, false), input, start, n);
    let f = run(program(s, true), input, start, m);
    let len = s.len() as int;
    lemma_emitted_len(s, len, false);
    lemma_emitted_len(s, len, true);
    lemma_emitted_prefix(s, p + j, len, false);
    if j > 0 {
        lemma_plain_op(s, p + j);
    } else if count(s, p, false) == count(s, len, false) {
        lemma_comments_to_end(s, p);
    }
    assert(on_program(program(s, false), u));
    assert(run(program(s, false), input, start, n + 1) == step(program(s, false), input, u));
    assert(run(program(s, true), input, start, m + 1) == step(program(s, true), input, f));
    let to = lemma_follow_step(s, input, u, f, p, j);
    if to.0 {
        n + 1
    } else {
        lemma_catch_up(s, input, n + 1, m, to.1, to.2)
    }
}

/// The unfolded run follows the folded one: where it never leaves the tape,
/// whatever the folded run has reached in `m` steps, the unfolded run has
/// reached in some `n` steps, no fewer than `m`.
pub proof fn lemma_unfolded_follows(s: Seq<u8>, input: Seq<u8>, m: nat) -> (n: nat)
    requires
        balanced(s),
        s.len() <= usize::MAX,
        always_in_range(s, input),
    ensures
        n >= m,
        kept(
            s,
            run(program(s, false), input, begin(initial()), n),
            run(program(s, true), input, begin(initial()), m),
        ),
    decreases m,
{
    let start = begin(initial());
    if m == 0 {
        assert(follows(s, start, start, 0, 0));
        0
    } else {
        let n0 = lemma_unfolded_follows(s, input, (m - 1) as nat);
        let u = run(program(s, false), input, start, n0);
        let f = run(program(s, true), input, start, (m - 1) as nat);
        assert(run(program(s, false), input, start, n0 + 1) == step(program(s, false), input, u));
        if f.fault is Some {
            n0 + 1
        } else {
            let (p, j) = choose|p: int, j: int| follows(s, u, f, p, j);
            if on_program(program(s, true), f) {
                lemma_catch_up(s, input, n0, (m - 1) as nat, p, j)
            } else {
                if on_program(program(s, false), u) {
                    lemma_follow_step(s, input, u, f, p, j);
                }
                n0 + 1
            }
        }
    }
}

/// Two runs at the same place have read and written the same; and where
/// the unfolded program has come to its end, so has the folded one, on the
/// same tape.
pub proof fn lemma_kept_at_end(s: Seq<u8>, u: Run, f: Run)
    requires
        kept(s, u, f),
        halted(program(s, false), u),
    ensures
        halted(program(s, true), f),
        f.state.tape == u.state.tape,
        f.state.ptr == u.state.ptr,
{
    let (p, j) = choose|p: int, j: int| follows(s, u, f, p, j);
    let len = s.len() as int;
    lemma_emitted_len(s, len, false);
    lemma_emitted_len(s, len, true);
    lemma_emitted_prefix(s, p + j, len, false);
    if j > 0 {
        lemma_plain_op(s, p + j);
    }
    lemma_comments_to_end(s, p);
}

/// Every instruction of a program comes from a token: the one at address
/// `k`, counted among the first `p` bytes, from the token that ends at the
/// position returned.
pub proof fn lemma_token_of(s: Seq<u8>, k: int, p: int, fold: bool) -> (e: int)
    requires
        0 <= p <= s.len(),
        0 <= k < count(s, p, fold),
    ensures
        0 < e <= p,
        token_end(s, e, fold),
        emits(s, token_begin(s, e, fold), e),
        count(s, e - 1, fold) == k,
    decreases p,
{
    if k < count(s, p - 1, fold) {
        lemma_token_of(s, k, p - 1, fold)
    } else {
        p
    }
}

/// The start of a token is not after its last byte, and the byte there is
/// of the kind of the last one.
pub proof fn lemma_run_begin(s: Seq<u8>, p: int)
    requires
        0 <= p < s.len(),
    ensures
        0 <= run_begin(s, p) <= p,
        run_begin(s, p) == p || same_run(s[run_begin(s, p)], s[p]),
        forall|i: int| run_begin(s, p) <= i <= p ==> same_run(s[p], #[trigger] s[i]) || i == p,
        run_begin(s, p) == 0 || !same_run(s[run_begin(s, p) - 1], s[run_begin(s, p)]),
    decreases p,
{
    if 0 < p && same_run(s[p - 1], s[p]) {
        lemma_run_begin(s, p - 1);
    }
}

} // verus!
