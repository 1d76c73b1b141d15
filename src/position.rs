//! Line and column positions, and the deltas that tokens advance them by.

use vstd::prelude::*;

verus! {

/// A line/column coordinate. Read as a cursor it is absolute; read as a
/// delta it is the amount that some text advances a cursor by.
#[derive(PartialEq, Eq, Clone, Copy, Debug)]
pub struct Position {
    pub line: usize,
    pub col: usize,
}

/// Number of newlines in `s`.
pub open spec fn lines_in(s: Seq<char>) -> nat
    decreases s.len(),
{
    if s.len() == 0 {
        0
    } else if s.last() == '\n' {
        lines_in(s.drop_last()) + 1
    } else {
        lines_in(s.drop_last())
    }
}

/// Number of characters after the last newline of `s` (all of them when
/// there is none).
pub open spec fn trailing_col(s: Seq<char>) -> nat
    decreases s.len(),
{
    if s.len() == 0 {
        0
    } else if s.last() == '\n' {
        0
    } else {
        trailing_col(s.drop_last()) + 1
    }
}

/// The delta of the text `s`, as a pair (lines, column).
pub open spec fn delta_of(s: Seq<char>) -> (nat, nat) {
    (lines_in(s), trailing_col(s))
}

/// A base position advanced by a delta: the column adds up on the same
/// line, and restarts at the delta's column once a newline was crossed.
pub open spec fn compose_spec(base: (nat, nat), delta: (nat, nat)) -> (nat, nat) {
    if delta.0 == 0 {
        (base.0, base.1 + delta.1)
    } else {
        (base.0 + delta.0, delta.1)
    }
}

impl Position {
    pub open spec fn view(&self) -> (nat, nat) {
        (self.line as nat, self.col as nat)
    }

    /// This position advanced by `delta`.
    pub fn compose(&self, delta: &Position) -> (r: Position)
        requires
            delta.line == 0 ==> self.col + delta.col <= usize::MAX,
            self.line + delta.line <= usize::MAX,
        ensures
            r.view() == compose_spec(self.view(), delta.view()),
    {
        if delta.line == 0 {
            Position { line: self.line, col: self.col + delta.col }
        } else {
            Position { line: self.line + delta.line, col: delta.col }
        }
    }
}

proof fn lemma_delta_bounded(s: Seq<char>)
    ensures
        lines_in(s) <= s.len(),
        trailing_col(s) <= s.len(),
    decreases s.len(),
{
    if s.len() > 0 {
        lemma_delta_bounded(s.drop_last());
    }
}

/// The delta of the characters `code[start..start + length]`; with `start`
/// zero it is the absolute position of offset `length`.
pub fn span_delta(code: &Vec<char>, start: usize, length: usize) -> (r: Position)
    requires
        start + length <= code@.len(),
    ensures
        r.view() == delta_of(code@.subrange(start as int, start + length)),
{
    let mut line: usize = 0;
    let mut col: usize = 0;
    let n = code.len();
    assert(start + length <= n);
    let end = start + length;
    let mut k: usize = start;
    while k < end
        invariant
            end == start + length,
            start <= k <= end <= code@.len(),
            line == lines_in(code@.subrange(start as int, k as int)),
            col == trailing_col(code@.subrange(start as int, k as int)),
        decreases end - k,
    {
        let ghost prefix = code@.subrange(start as int, k as int);
        let ghost next = code@.subrange(start as int, k + 1);
        assert(next.drop_last() == prefix);
        proof {
            lemma_delta_bounded(prefix);
        }
        if code[k] == '\n' {
            line = line + 1;
            col = 0;
        } else {
            col = col + 1;
        }
        k = k + 1;
    }
    Position { line, col }
}

/// Advancing a position by the delta of `a` and then by the delta of `b` is
/// advancing it by the delta of `a` followed by `b`.
pub proof fn lemma_compose_concat(base: (nat, nat), a: Seq<char>, b: Seq<char>)
    ensures
        compose_spec(compose_spec(base, delta_of(a)), delta_of(b)) == compose_spec(
            base,
            delta_of(a + b),
        ),
    decreases b.len(),
{
    if b.len() == 0 {
        assert(a + b == a);
    } else {
        let b0 = b.drop_last();
        lemma_compose_concat(base, a, b0);
        assert((a + b).drop_last() == a + b0);
        assert((a + b).last() == b.last());
    }
}

/// `p` is at or before `q`, by line and then by column.
pub open spec fn lex_le(p: (nat, nat), q: (nat, nat)) -> bool {
    p.0 < q.0 || (p.0 == q.0 && p.1 <= q.1)
}

/// Positions grow with offsets: the position of offset `a` is at or before
/// that of any later offset `b`.
pub proof fn lemma_positions_ordered(s: Seq<char>, a: int, b: int)
    requires
        0 <= a <= b <= s.len(),
    ensures
        lex_le(delta_of(s.subrange(0, a)), delta_of(s.subrange(0, b))),
    decreases b - a,
{
    if a < b {
        lemma_positions_ordered(s, a, b - 1);
        assert(s.subrange(0, b).drop_last() == s.subrange(0, b - 1));
    }
}

} // verus!
