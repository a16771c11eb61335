//! The grammar, stated over `Seq<char>` and character positions.
//!
//! Every rule is a spec function from an input `s` and a start position `i`
//! to a [`Step`]: the position where the rule stopped with what it built, or
//! the position and kind of the failure.
use vstd::prelude::*;

verus! {

/// What a parser expected at the position where it failed.
#[derive(Clone, Copy, Debug, PartialEq, Eq, Structural)]
pub enum ErrorKind {
    /// A run of ASCII letters and digits was required and none was found.
    ExpectedIdentifier,
    /// A parenthesized call was opened and its `)` was not found.
    ExpectedClosingDelimiter,
}

/// The mathematical form of a parsed expression.
pub enum Tree {
    Term(Seq<char>),
    Func(Seq<char>, Seq<Tree>),
}

/// The result of a grammar rule started at some position.
pub enum Step<T> {
    /// The rule succeeded; parsing goes on at the position.
    Done(int, T),
    /// The rule failed at the position.
    Fail(int, ErrorKind),
}

pub open spec fn is_space(c: char) -> bool {
    c == ' ' || c == '\t' || c == '\r' || c == '\n'
}

pub open spec fn is_alnum(c: char) -> bool {
    ('0' <= c && c <= '9') || ('a' <= c && c <= 'z') || ('A' <= c && c <= 'Z')
}

/// The number of whitespace characters starting at `i`.
pub open spec fn space_count(s: Seq<char>, i: int) -> nat
    decreases s.len() - i,
{
    if 0 <= i < s.len() && is_space(s[i]) {
        1 + space_count(s, i + 1)
    } else {
        0
    }
}

/// The number of letters and digits starting at `i`.
pub open spec fn alnum_count(s: Seq<char>, i: int) -> nat
    decreases s.len() - i,
{
    if 0 <= i < s.len() && is_alnum(s[i]) {
        1 + alnum_count(s, i + 1)
    } else {
        0
    }
}

/// A run of letters and digits lies inside the input.
pub proof fn lemma_alnum_count_bound(s: Seq<char>, i: int)
    ensures
        alnum_count(s, i) > 0 ==> 0 <= i && i + alnum_count(s, i) <= s.len(),
    decreases s.len() - i,
{
    if 0 <= i < s.len() && is_alnum(s[i]) {
        lemma_alnum_count_bound(s, i + 1);
    }
}

/// Whitespace skipping stays inside the input.
pub proof fn lemma_space_count_bound(s: Seq<char>, i: int)
    ensures
        space_count(s, i) > 0 ==> 0 <= i && i + space_count(s, i) <= s.len(),
    decreases s.len() - i,
{
    if 0 <= i < s.len() && is_space(s[i]) {
        lemma_space_count_bound(s, i + 1);
    }
}

/// The first position at or after `i` that whitespace skipping stops at.
pub open spec fn skip_space(s: Seq<char>, i: int) -> int {
    i + space_count(s, i)
}

/// Whitespace, then a nonempty run of letters and digits: a term, or a
/// function's name.
pub open spec fn word(s: Seq<char>, i: int) -> Step<Seq<char>> {
    let j = skip_space(s, i);
    let n = alnum_count(s, j);
    if n > 0 {
        Step::Done(j + n, s.subrange(j, j + n))
    } else {
        Step::Fail(j, ErrorKind::ExpectedIdentifier)
    }
}

/// An expression: a term, else a parenthesized call.
pub open spec fn node(s: Seq<char>, i: int) -> Step<Tree>
    decreases s.len() - i, 2int,
{
    match word(s, i) {
        Step::Done(k, w) => Step::Done(k, Tree::Term(w)),
        Step::Fail(_, _) => group(s, i),
    }
}

/// Whitespace, `(`, a call, whitespace, `)`.
pub open spec fn group(s: Seq<char>, i: int) -> Step<Tree>
    decreases s.len() - i, 1int,
{
    let j = skip_space(s, i);
    if 0 <= j < s.len() && s[j] == '(' {
        match call(s, j + 1) {
            Step::Done(k, t) => {
                let m = skip_space(s, k);
                if 0 <= m < s.len() && s[m] == ')' {
                    Step::Done(m + 1, t)
                } else {
                    Step::Fail(m, ErrorKind::ExpectedClosingDelimiter)
                }
            },
            Step::Fail(p, e) => Step::Fail(p, e),
        }
    } else {
        Step::Fail(j, ErrorKind::ExpectedIdentifier)
    }
}

/// A function's name followed by its arguments.
pub open spec fn call(s: Seq<char>, i: int) -> Step<Tree>
    decreases s.len() - i, 0int,
{
    let j = skip_space(s, i);
    let n = alnum_count(s, j);
    if n > 0 {
        proof {
            lemma_alnum_count_bound(s, j);
        }
        match args(s, j + n) {
            Step::Done(k, ts) => Step::Done(k, Tree::Func(s.subrange(j, j + n), ts)),
            Step::Fail(p, e) => Step::Fail(p, e),
        }
    } else {
        Step::Fail(j, ErrorKind::ExpectedIdentifier)
    }
}

/// One or more expressions.
///
/// An expression that succeeds always ends past its start and inside the
/// input (`lemma_node_progress`); the test of that here only makes the
/// recursion's termination evident.
pub open spec fn args(s: Seq<char>, i: int) -> Step<Seq<Tree>>
    decreases s.len() - i, 3int,
{
    match node(s, i) {
        Step::Done(k, t) => {
            if i < k <= s.len() {
                let rest = more(s, k);
                Step::Done(rest.0, seq![t] + rest.1)
            } else {
                Step::Done(k, seq![t])
            }
        },
        Step::Fail(p, e) => Step::Fail(p, e),
    }
}

/// Zero or more expressions: stops, at the position where it began the
/// attempt, before the first expression that fails.
pub open spec fn more(s: Seq<char>, i: int) -> (int, Seq<Tree>)
    decreases s.len() - i, 4int,
{
    match node(s, i) {
        Step::Done(k, t) => {
            if i < k <= s.len() {
                let rest = more(s, k);
                (rest.0, seq![t] + rest.1)
            } else {
                (k, seq![t])
            }
        },
        Step::Fail(_, _) => (i, seq![]),
    }
}

/// A successful expression lies past its start and inside the input.
pub proof fn lemma_node_progress(s: Seq<char>, i: int)
    requires
        0 <= i,
    ensures
        node(s, i) matches Step::Done(k, _) ==> i < k <= s.len(),
    decreases s.len() - i, 2int,
{
    lemma_space_count_bound(s, i);
    lemma_alnum_count_bound(s, skip_space(s, i));
    lemma_group_progress(s, i);
}

/// A successful parenthesized call lies past its start and inside the input.
pub proof fn lemma_group_progress(s: Seq<char>, i: int)
    requires
        0 <= i,
    ensures
        group(s, i) matches Step::Done(k, _) ==> i < k <= s.len(),
    decreases s.len() - i, 1int,
{
    lemma_space_count_bound(s, i);
    let j = skip_space(s, i);
    if 0 <= j < s.len() && s[j] == '(' {
        lemma_call_progress(s, j + 1);
        if let Step::Done(k, _) = call(s, j + 1) {
            lemma_space_count_bound(s, k);
        }
    }
}

/// A successful call lies past its start and inside the input.
pub proof fn lemma_call_progress(s: Seq<char>, i: int)
    requires
        0 <= i,
    ensures
        call(s, i) matches Step::Done(k, _) ==> i < k <= s.len(),
    decreases s.len() - i, 0int,
{
    lemma_space_count_bound(s, i);
    let j = skip_space(s, i);
    lemma_alnum_count_bound(s, j);
    if alnum_count(s, j) > 0 {
        lemma_args_progress(s, j + alnum_count(s, j));
    }
}

/// Successful arguments lie past their start and inside the input.
pub proof fn lemma_args_progress(s: Seq<char>, i: int)
    requires
        0 <= i,
    ensures
        args(s, i) matches Step::Done(k, _) ==> i < k <= s.len(),
    decreases s.len() - i, 3int,
{
    lemma_node_progress(s, i);
    if let Step::Done(k, _) = node(s, i) {
        if i < k <= s.len() {
            lemma_more_progress(s, k);
        }
    }
}

/// Further arguments end at or after their start, inside the input.
pub proof fn lemma_more_progress(s: Seq<char>, i: int)
    requires
        0 <= i <= s.len(),
    ensures
        i <= more(s, i).0 <= s.len(),
    decreases s.len() - i, 4int,
{
    lemma_node_progress(s, i);
    if let Step::Done(k, _) = node(s, i) {
        if i < k <= s.len() {
            lemma_more_progress(s, k);
        }
    }
}

} // verus!
