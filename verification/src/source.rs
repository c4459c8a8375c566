//! What a source text means: where its brackets pair up, which line and
//! column a byte stands at, and which instructions its bytes stand for.
//!
//! Everything here is stated over the bytes of the text. A position `p` is an
//! index between bytes: position 0 is before the first byte, position
//! `s.len()` after the last.
use vstd::prelude::*;
use crate::instruction::Op;

verus! {

/// `<`: one cell to the left.
pub const LEFT: u8 = 60;

/// `>`: one cell to the right.
pub const RIGHT: u8 = 62;

/// `+`: one more in the current cell.
pub const PLUS: u8 = 43;

/// `-`: one less in the current cell.
pub const MINUS: u8 = 45;

/// `.`: write the current cell.
pub const DOT: u8 = 46;

/// `,`: read into the current cell.
pub const COMMA: u8 = 44;

/// `[`: start of a loop.
pub const OPEN: u8 = 91;

/// `]`: end of a loop.
pub const CLOSE: u8 = 93;

/// The byte that ends a line.
pub const NEWLINE: u8 = 10;

/// `<` or `>`.
pub open spec fn is_shift(c: u8) -> bool {
    c == LEFT || c == RIGHT
}

/// `+` or `-`.
pub open spec fn is_bump(c: u8) -> bool {
    c == PLUS || c == MINUS
}

/// What one byte of a run contributes to the run's sum.
pub open spec fn sign(c: u8) -> int {
    if c == RIGHT || c == PLUS {
        1
    } else {
        -1
    }
}

/// Two neighbouring bytes belong to the same run.
pub open spec fn same_run(a: u8, b: u8) -> bool {
    (is_shift(a) && is_shift(b)) || (is_bump(a) && is_bump(b))
}

/// Number of `[` minus number of `]` among the first `p` bytes.
pub open spec fn depth(s: Seq<u8>, p: int) -> int
    decreases p,
{
    if p <= 0 {
        0
    } else if s[p - 1] == OPEN {
        depth(s, p - 1) + 1
    } else if s[p - 1] == CLOSE {
        depth(s, p - 1) - 1
    } else {
        depth(s, p - 1)
    }
}

/// No `]` comes before its `[`.
pub open spec fn nested(s: Seq<u8>) -> bool {
    forall|q: int| 0 <= q <= s.len() ==> depth(s, q) >= 0
}

/// Every bracket has its partner.
pub open spec fn balanced(s: Seq<u8>) -> bool {
    nested(s) && depth(s, s.len() as int) == 0
}

/// The byte at `c` is the `]` that closes the `[` at `o`.
pub open spec fn paired(s: Seq<u8>, o: int, c: int) -> bool {
    &&& 0 <= o < c < s.len()
    &&& depth(s, c + 1) == depth(s, o)
    &&& forall|q: int| o < q <= c ==> depth(s, q) > depth(s, o)
}

/// The byte at `p` is the first `]` that has no `[` before it to close.
pub open spec fn stray_close(s: Seq<u8>, p: int) -> bool {
    &&& 0 <= p < s.len()
    &&& depth(s, p + 1) < 0
    &&& forall|q: int| 0 <= q <= p ==> depth(s, q) >= 0
}

/// The byte at `p` is the outermost `[` that is never closed.
pub open spec fn unclosed_open(s: Seq<u8>, p: int) -> bool {
    &&& 0 <= p < s.len()
    &&& depth(s, p) == 0
    &&& forall|q: int| p < q <= s.len() ==> depth(s, q) > 0
}

/// Position of the first `]` that closes nothing, where there is one.
pub open spec fn stray_close_pos(s: Seq<u8>) -> int {
    choose|p: int| stray_close(s, p)
}

/// Position of the outermost `[` that is never closed, where there is one.
pub open spec fn unclosed_open_pos(s: Seq<u8>) -> int {
    choose|p: int| unclosed_open(s, p)
}

/// Position of the `]` that closes the `[` at `o`.
pub open spec fn close_of(s: Seq<u8>, o: int) -> int {
    choose|c: int| paired(s, o, c)
}

/// Position of the `[` that the `]` at `c` closes.
pub open spec fn open_of(s: Seq<u8>, c: int) -> int {
    choose|o: int| paired(s, o, c)
}

/// Line of the byte at `p`, counted from 1.
pub open spec fn line_of(s: Seq<u8>, p: int) -> int
    decreases p,
{
    if p <= 0 {
        1
    } else if s[p - 1] == NEWLINE {
        line_of(s, p - 1) + 1
    } else {
        line_of(s, p - 1)
    }
}

/// Column of the byte at `p`, counted from 1 in its line.
pub open spec fn col_of(s: Seq<u8>, p: int) -> int
    decreases p,
{
    if p <= 0 || s[p - 1] == NEWLINE {
        1
    } else {
        col_of(s, p - 1) + 1
    }
}

/// Start of the run that the byte at `p` belongs to; `p` itself where the
/// byte before it is of another kind.
pub open spec fn run_begin(s: Seq<u8>, p: int) -> int
    decreases p,
{
    if 0 < p < s.len() && same_run(s[p - 1], s[p]) {
        run_begin(s, p - 1)
    } else {
        p
    }
}

/// Sum of the signs of the bytes from `a` up to, not including, `b`.
pub open spec fn net(s: Seq<u8>, a: int, b: int) -> int
    decreases b - a,
{
    if b <= a {
        0
    } else {
        net(s, a, b - 1) + sign(s[b - 1])
    }
}

/// A token ends at position `p`, just after the byte at `p - 1`. With
/// folding a token is a whole run of moves, a whole run of adds, or a single
/// byte of another kind; without folding every byte is a token.
pub open spec fn token_end(s: Seq<u8>, p: int, fold: bool) -> bool {
    0 < p <= s.len() && (!fold || p == s.len() || !same_run(s[p - 1], s[p]))
}

/// Start of the token that ends at `p`.
pub open spec fn token_begin(s: Seq<u8>, p: int, fold: bool) -> int {
    if fold {
        run_begin(s, p - 1)
    } else {
        p - 1
    }
}

/// The token from `q` to `p` stands for an instruction: comments and runs
/// that sum to zero stand for none.
pub open spec fn emits(s: Seq<u8>, q: int, p: int) -> bool {
    let c = s[q];
    if is_shift(c) || is_bump(c) {
        net(s, q, p) != 0
    } else {
        c == DOT || c == COMMA || c == OPEN || c == CLOSE
    }
}

/// Number of instructions that the tokens ending at or before `p` stand for.
/// This is the address of the instruction of the next token.
pub open spec fn count(s: Seq<u8>, p: int, fold: bool) -> nat
    decreases p,
{
    if p <= 0 {
        0
    } else if token_end(s, p, fold) && emits(s, token_begin(s, p, fold), p) {
        count(s, p - 1, fold) + 1
    } else {
        count(s, p - 1, fold)
    }
}

/// The instruction that the token from `q` to `p` stands for. A `[` jumps to
/// the address just after its `]`, a `]` to the address just after its `[`.
pub open spec fn op_of(s: Seq<u8>, q: int, p: int, fold: bool) -> Op {
    let c = s[q];
    if is_shift(c) {
        Op::Move { d: net(s, q, p) as i128 }
    } else if is_bump(c) {
        Op::Add { d: net(s, q, p) as i128 }
    } else if c == DOT {
        Op::Out
    } else if c == COMMA {
        Op::In
    } else if c == OPEN {
        Op::JmpZ { addr: count(s, close_of(s, q) + 1, fold) as usize }
    } else {
        Op::JmpNz { addr: count(s, open_of(s, q) + 1, fold) as usize }
    }
}

/// The instructions that the tokens ending at or before `p` stand for.
pub open spec fn emitted(s: Seq<u8>, p: int, fold: bool) -> Seq<Op>
    decreases p,
{
    if p <= 0 {
        Seq::empty()
    } else if token_end(s, p, fold) && emits(s, token_begin(s, p, fold), p) {
        emitted(s, p - 1, fold).push(op_of(s, token_begin(s, p, fold), p, fold))
    } else {
        emitted(s, p - 1, fold)
    }
}

/// The program that `s` stands for, with runs folded or not.
pub open spec fn program(s: Seq<u8>, fold: bool) -> Seq<Op> {
    emitted(s, s.len() as int, fold)
}

/// At most one position holds the first `]` that closes nothing.
pub proof fn lemma_stray_close_unique(s: Seq<u8>, one: int, other: int)
    requires
        stray_close(s, one),
        stray_close(s, other),
    ensures
        one == other,
{
    if one < other {
        assert(depth(s, one + 1) >= 0);
    } else if other < one {
        assert(depth(s, other + 1) >= 0);
    }
}

/// At most one position holds the outermost unclosed `[`.
pub proof fn lemma_unclosed_open_unique(s: Seq<u8>, one: int, other: int)
    requires
        unclosed_open(s, one),
        unclosed_open(s, other),
    ensures
        one == other,
{
    if one < other {
        assert(depth(s, other) > 0);
    } else if other < one {
        assert(depth(s, one) > 0);
    }
}

/// A `[` has at most one `]`, and a `]` at most one `[`.
pub proof fn lemma_paired_unique(s: Seq<u8>, o1: int, c1: int, o2: int, c2: int)
    requires
        paired(s, o1, c1),
        paired(s, o2, c2),
    ensures
        o1 == o2 <==> c1 == c2,
{
    if o1 == o2 {
        if c1 < c2 {
            assert(depth(s, c1 + 1) > depth(s, o2));
        } else if c2 < c1 {
            assert(depth(s, c2 + 1) > depth(s, o1));
        }
    }
    if c1 == c2 {
        // the later of the two opens lies inside the other pair, on a deeper level
        if o1 < o2 {
            assert(depth(s, o2) > depth(s, o1));
        } else if o2 < o1 {
            assert(depth(s, o1) > depth(s, o2));
        }
    }
}

/// Loops do not cross: a `[` inside a loop has its `]` inside that loop.
pub proof fn lemma_pairs_nest(s: Seq<u8>, o1: int, c1: int, o2: int, c2: int)
    requires
        paired(s, o1, c1),
        paired(s, o2, c2),
        o1 < o2 < c1,
    ensures
        c2 < c1,
{
    assert(depth(s, o2) > depth(s, o1));
    if c2 >= c1 {
        assert(depth(s, c1 + 1) > depth(s, o2) || c2 == c1);
    }
}

/// Lines and columns start at 1 and grow by at most one per byte.
pub proof fn lemma_position_bounds(s: Seq<u8>, p: int)
    requires
        0 <= p,
    ensures
        1 <= line_of(s, p) <= p + 1,
        1 <= col_of(s, p) <= p + 1,
    decreases p,
{
    if p > 0 {
        lemma_position_bounds(s, p - 1);
    }
}

/// Inside a run nothing but the column and the run's sum moves: the bytes
/// from `a` to `b` are one run that starts at `a`.
pub proof fn lemma_run(s: Seq<u8>, a: int, b: int)
    requires
        0 <= a <= b < s.len(),
        is_shift(s[a]) || is_bump(s[a]),
        a == 0 || !same_run(s[a - 1], s[a]),
        forall|j: int| a <= j <= b ==> same_run(s[a], #[trigger] s[j]),
    ensures
        run_begin(s, b) == a,
        forall|q: int| a <= q <= b + 1 ==> depth(s, q) == depth(s, a),
        line_of(s, b + 1) == line_of(s, a),
        col_of(s, b + 1) == col_of(s, a) + (b + 1 - a),
        count(s, b, true) == count(s, a, true),
        emitted(s, b, true) == emitted(s, a, true),
        -(b + 1 - a) <= net(s, a, b + 1) <= b + 1 - a,
    decreases b - a,
{
    assert(same_run(s[a], s[b]));
    if a < b {
        lemma_run(s, a, b - 1);
        assert(same_run(s[a], s[b - 1]));
        assert(same_run(s[b - 1], s[b]));
        assert(!token_end(s, b, true));
        assert forall|q: int| a <= q <= b + 1 implies depth(s, q) == depth(s, a) by {
            if q == b + 1 {
                assert(depth(s, b) == depth(s, a));
            }
        }
    } else {
        assert(net(s, a, a) == 0);
        assert forall|q: int| a <= q <= b + 1 implies depth(s, q) == depth(s, a) by {}
    }
}

} // verus!
