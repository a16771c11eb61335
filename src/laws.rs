//! Properties of the grammar as a whole. The public parsers report the
//! grammar's steps exactly (see their contracts), so each property here is a
//! property of what they return.
use vstd::prelude::*;
use crate::grammar::{
    alnum_count, args, call, group, is_alnum, is_space, lemma_alnum_count_bound,
    lemma_call_progress, lemma_node_progress, lemma_space_count_bound, more, node, skip_space,
    space_count, word, ErrorKind, Step, Tree,
};

verus! {

/// A nonempty run of ASCII letters and digits.
pub open spec fn is_identifier(w: Seq<char>) -> bool {
    w.len() > 0 && forall|k: int| 0 <= k < w.len() ==> is_alnum(#[trigger] w[k])
}

/// A run of `n` letters and digits at `i` that ends at the end of the input
/// or before some other character is counted whole.
pub proof fn lemma_alnum_run(s: Seq<char>, i: int, n: nat)
    requires
        0 <= i,
        i + n <= s.len(),
        forall|k: int| i <= k < i + n ==> is_alnum(#[trigger] s[k]),
        i + n == s.len() || !is_alnum(s[i + n]),
    ensures
        alnum_count(s, i) == n,
    decreases n,
{
    if n > 0 {
        lemma_alnum_run(s, i + 1, (n - 1) as nat);
    }
}

/// An identifier alone parses to a term holding all of it, and nothing is
/// left over.
pub proof fn lemma_identifier_is_term(s: Seq<char>)
    requires
        is_identifier(s),
    ensures
        node(s, 0) == Step::Done(s.len() as int, Tree::Term(s)),
{
    lemma_alnum_run(s, 0, s.len());
    assert(is_alnum(s[0]));
    assert(space_count(s, 0) == 0);
    assert(s.subrange(0, s.len() as int) =~= s);
}

/// A call with no arguments, `(name)`, fails with an expected identifier at
/// its `)`.
pub proof fn lemma_call_without_arguments(name: Seq<char>)
    requires
        is_identifier(name),
    ensures
        node(seq!['('] + name + seq![')'], 0) == Step::<Tree>::Fail(
            name.len() + 1int,
            ErrorKind::ExpectedIdentifier,
        ),
{
    let s = seq!['('] + name + seq![')'];
    let m = name.len() + 1int;
    assert(s[0] == '(');
    assert(s[m] == ')');
    assert forall|k: int| 1 <= k < m implies is_alnum(#[trigger] s[k]) by {
        assert(s[k] == name[k - 1]);
    }
    lemma_alnum_run(s, 1, name.len());
    assert(is_alnum(s[1]));
    assert(space_count(s, 1) == 0);
    assert(space_count(s, 0) == 0);
    assert(space_count(s, m) == 0);
    assert(alnum_count(s, m) == 0);
    assert(word(s, m) == Step::<Seq<char>>::Fail(m, ErrorKind::ExpectedIdentifier));
    assert(group(s, m) == Step::<Tree>::Fail(m, ErrorKind::ExpectedIdentifier));
    assert(node(s, m) == Step::<Tree>::Fail(m, ErrorKind::ExpectedIdentifier));
    assert(args(s, m) == Step::<Seq<Tree>>::Fail(m, ErrorKind::ExpectedIdentifier));
    assert(call(s, 1) == Step::<Tree>::Fail(m, ErrorKind::ExpectedIdentifier));
}

/// A run of `n` whitespace characters at `i` that ends at the end of the
/// input or before some other character is skipped whole.
pub proof fn lemma_space_run(s: Seq<char>, i: int, n: nat)
    requires
        0 <= i,
        i + n <= s.len(),
        forall|k: int| i <= k < i + n ==> is_space(#[trigger] s[k]),
        i + n == s.len() || !is_space(s[i + n]),
    ensures
        space_count(s, i) == n,
    decreases n,
{
    if n > 0 {
        lemma_space_run(s, i + 1, (n - 1) as nat);
    }
}

/// `sp` whitespace characters at `i` followed by an identifier of length
/// `n` that ends at the end of the input or before a character that is no
/// letter or digit: a word, and so a term.
pub proof fn lemma_term_at(s: Seq<char>, i: int, sp: nat, n: nat)
    requires
        0 <= i,
        n > 0,
        i + sp + n <= s.len(),
        forall|k: int| i <= k < i + sp ==> is_space(#[trigger] s[k]),
        forall|k: int| i + sp <= k < i + sp + n ==> is_alnum(#[trigger] s[k]),
        i + sp + n == s.len() || !is_alnum(s[i + sp + n]),
    ensures
        word(s, i) == Step::Done(i + sp + n, s.subrange(i + sp, i + sp + n)),
        node(s, i) == Step::Done(i + sp + n, Tree::Term(s.subrange(i + sp, i + sp + n))),
{
    assert(is_alnum(s[i + sp]));
    lemma_space_run(s, i, sp);
    lemma_alnum_run(s, i + sp, n);
}

/// Where the input ends, or a character stands that can start no
/// expression, no expression is found, and a run of further arguments ends.
pub proof fn lemma_no_node_at(s: Seq<char>, i: int)
    requires
        0 <= i <= s.len(),
        i == s.len() || (!is_space(s[i]) && !is_alnum(s[i]) && s[i] != '('),
    ensures
        node(s, i) == Step::<Tree>::Fail(i, ErrorKind::ExpectedIdentifier),
        more(s, i) == (i, Seq::<Tree>::empty()),
{
    assert(space_count(s, i) == 0);
    assert(alnum_count(s, i) == 0);
}

/// A call of a name on two terms, `(name a1 a2)`, parses to that call, and
/// nothing is left over.
pub proof fn lemma_call_on_two_terms(name: Seq<char>, a1: Seq<char>, a2: Seq<char>)
    requires
        is_identifier(name),
        is_identifier(a1),
        is_identifier(a2),
    ensures
        ({
            let s = seq!['('] + name + seq![' '] + a1 + seq![' '] + a2 + seq![')'];
            node(s, 0) == Step::Done(
                s.len() as int,
                Tree::Func(name, seq![Tree::Term(a1), Tree::Term(a2)]),
            )
        }),
{
    let s = seq!['('] + name + seq![' '] + a1 + seq![' '] + a2 + seq![')'];
    let p1: int = name.len() + 1int;
    let q1: int = p1 + 1 + a1.len();
    let q2: int = q1 + 1 + a2.len();
    assert(s.len() == q2 + 1);
    assert(s[0] == '(');
    assert(s[p1] == ' ');
    assert(s[q1] == ' ');
    assert(s[q2] == ')');
    assert forall|k: int| 1 <= k < p1 implies is_alnum(#[trigger] s[k]) by {
        assert(s[k] == name[k - 1]);
    }
    assert forall|k: int| p1 + 1 <= k < q1 implies is_alnum(#[trigger] s[k]) by {
        assert(s[k] == a1[k - p1 - 1]);
    }
    assert forall|k: int| q1 + 1 <= k < q2 implies is_alnum(#[trigger] s[k]) by {
        assert(s[k] == a2[k - q1 - 1]);
    }
    assert(s.subrange(1, p1) =~= name);
    assert(s.subrange(p1 + 1, q1) =~= a1);
    assert(s.subrange(q1 + 1, q2) =~= a2);
    lemma_term_at(s, 1, 0, name.len());
    lemma_term_at(s, p1, 1, a1.len());
    lemma_term_at(s, q1, 1, a2.len());
    lemma_no_node_at(s, q2);
    assert(seq![Tree::Term(a2)] + Seq::<Tree>::empty() =~= seq![Tree::Term(a2)]);
    assert(more(s, q1) == (q2, seq![Tree::Term(a2)]));
    assert(seq![Tree::Term(a1)] + seq![Tree::Term(a2)] =~= seq![Tree::Term(a1), Tree::Term(a2)]);
    assert(args(s, p1) == Step::Done(q2, seq![Tree::Term(a1), Tree::Term(a2)]));
    assert(space_count(s, 0) == 0);
    assert(alnum_count(s, 0) == 0);
    assert(space_count(s, q2) == 0);
}

/// A call of a name on two terms whose `)` is missing, `(name a1 a2`, fails
/// with an expected closing delimiter at the end of the input.
pub proof fn lemma_unterminated_call(name: Seq<char>, a1: Seq<char>, a2: Seq<char>)
    requires
        is_identifier(name),
        is_identifier(a1),
        is_identifier(a2),
    ensures
        ({
            let s = seq!['('] + name + seq![' '] + a1 + seq![' '] + a2;
            node(s, 0) == Step::<Tree>::Fail(s.len() as int, ErrorKind::ExpectedClosingDelimiter)
        }),
{
    let s = seq!['('] + name + seq![' '] + a1 + seq![' '] + a2;
    let p1: int = name.len() + 1int;
    let q1: int = p1 + 1 + a1.len();
    let q2: int = q1 + 1 + a2.len();
    assert(s.len() == q2);
    assert(s[0] == '(');
    assert(s[p1] == ' ');
    assert(s[q1] == ' ');
    assert forall|k: int| 1 <= k < p1 implies is_alnum(#[trigger] s[k]) by {
        assert(s[k] == name[k - 1]);
    }
    assert forall|k: int| p1 + 1 <= k < q1 implies is_alnum(#[trigger] s[k]) by {
        assert(s[k] == a1[k - p1 - 1]);
    }
    assert forall|k: int| q1 + 1 <= k < q2 implies is_alnum(#[trigger] s[k]) by {
        assert(s[k] == a2[k - q1 - 1]);
    }
    lemma_term_at(s, 1, 0, name.len());
    lemma_term_at(s, p1, 1, a1.len());
    lemma_term_at(s, q1, 1, a2.len());
    lemma_no_node_at(s, q2);
    assert(more(s, q1) == (q2, seq![Tree::Term(s.subrange(q1 + 1, q2))]));
    assert(space_count(s, 0) == 0);
    assert(alnum_count(s, 0) == 0);
    assert(space_count(s, q2) == 0);
}

/// An empty pair of parentheses in the first argument's place,
/// `(name ()` followed by any text, fails with an expected identifier at the
/// inner `)`.
pub proof fn lemma_empty_parentheses_rejected(name: Seq<char>, rest: Seq<char>)
    requires
        is_identifier(name),
    ensures
        ({
            let s = seq!['('] + name + seq![' ', '(', ')'] + rest;
            node(s, 0) == Step::<Tree>::Fail(name.len() + 3int, ErrorKind::ExpectedIdentifier)
        }),
{
    let s = seq!['('] + name + seq![' ', '(', ')'] + rest;
    let p1: int = name.len() + 1int;
    assert(s[0] == '(');
    assert(s[p1] == ' ');
    assert(s[p1 + 1] == '(');
    assert(s[p1 + 2] == ')');
    assert forall|k: int| 1 <= k < p1 implies is_alnum(#[trigger] s[k]) by {
        assert(s[k] == name[k - 1]);
    }
    lemma_term_at(s, 1, 0, name.len());
    lemma_no_node_at(s, p1 + 2);
    assert(space_count(s, p1 + 1) == 0);
    assert(space_count(s, p1) == 1);
    assert(alnum_count(s, p1 + 1) == 0);
    assert(call(s, p1 + 2) == Step::<Tree>::Fail(p1 + 2, ErrorKind::ExpectedIdentifier));
    assert(node(s, p1) == Step::<Tree>::Fail(p1 + 2, ErrorKind::ExpectedIdentifier));
    assert(space_count(s, 0) == 0);
    assert(alnum_count(s, 0) == 0);
}

/// A step moved `d` positions to the right.
pub open spec fn shifted<T>(st: Step<T>, d: int) -> Step<T> {
    match st {
        Step::Done(k, x) => Step::Done(k + d, x),
        Step::Fail(p, e) => Step::Fail(p + d, e),
    }
}

/// After whitespace from `k`, the input holds a `)`: a run of arguments
/// that reaches `k` stops there.
pub open spec fn closes_at(e: Seq<char>, k: int) -> bool {
    let m = skip_space(e, k);
    0 <= m < e.len() && e[m] == ')'
}

/// `e` stands in `s` from position `d` on, and what follows it in `s`, if
/// anything, is a character that can neither continue a run of whitespace
/// or of letters and digits nor open a call.
pub open spec fn embeds(s: Seq<char>, d: int, e: Seq<char>) -> bool {
    &&& 0 <= d
    &&& d + e.len() <= s.len()
    &&& forall|j: int| 0 <= j < e.len() ==> #[trigger] s[d + j] == e[j]
    &&& d + e.len() == s.len() || {
        let c = s[d + e.len()];
        !is_space(c) && !is_alnum(c) && c != '('
    }
}

proof fn lemma_embed_counts(s: Seq<char>, d: int, e: Seq<char>, j: int)
    requires
        embeds(s, d, e),
        0 <= j <= e.len(),
    ensures
        space_count(s, d + j) == space_count(e, j),
        alnum_count(s, d + j) == alnum_count(e, j),
    decreases e.len() - j,
{
    if j < e.len() {
        assert(s[d + j] == e[j]);
        lemma_embed_counts(s, d, e, j + 1);
    }
}

proof fn lemma_embed_word(s: Seq<char>, d: int, e: Seq<char>, i: int)
    requires
        embeds(s, d, e),
        0 <= i <= e.len(),
    ensures
        skip_space(s, d + i) == skip_space(e, i) + d,
        skip_space(e, i) <= e.len(),
        word(s, d + i) == shifted(word(e, i), d),
{
    lemma_embed_counts(s, d, e, i);
    lemma_space_count_bound(e, i);
    let j = skip_space(e, i);
    lemma_embed_counts(s, d, e, j);
    lemma_alnum_count_bound(e, j);
    let n = alnum_count(e, j);
    if n > 0 {
        assert forall|k: int| 0 <= k < n implies s.subrange(d + j, d + j + n)[k] == #[trigger] e.subrange(j, j + n)[k] by {
            assert(s[d + (j + k)] == e[j + k]);
        }
        assert(s.subrange(d + j, d + j + n) =~= e.subrange(j, j + n));
    }
}

proof fn lemma_closes_embed(s: Seq<char>, d: int, e: Seq<char>, k: int)
    requires
        embeds(s, d, e),
        0 <= k <= e.len(),
        closes_at(e, k),
    ensures
        node(e, k) is Fail,
        node(s, d + k) is Fail,
        more(e, k) == (k, Seq::<Tree>::empty()),
        more(s, d + k) == (d + k, Seq::<Tree>::empty()),
{
    lemma_embed_word(s, d, e, k);
    let m = skip_space(e, k);
    assert(s[d + m] == e[m]);
    assert(alnum_count(e, m) == 0);
}

proof fn lemma_embed_node(s: Seq<char>, d: int, e: Seq<char>, i: int)
    requires
        embeds(s, d, e),
        0 <= i <= e.len(),
    ensures
        node(e, i) is Done ==> node(s, d + i) == shifted(node(e, i), d),
    decreases e.len() - i, 2int,
{
    lemma_embed_word(s, d, e, i);
    lemma_embed_group(s, d, e, i);
}

proof fn lemma_embed_group(s: Seq<char>, d: int, e: Seq<char>, i: int)
    requires
        embeds(s, d, e),
        0 <= i <= e.len(),
    ensures
        group(e, i) is Done ==> group(s, d + i) == shifted(group(e, i), d),
    decreases e.len() - i, 1int,
{
    lemma_embed_word(s, d, e, i);
    let j = skip_space(e, i);
    if j < e.len() && e[j] == '(' {
        assert(s[d + j] == e[j]);
        lemma_embed_call(s, d, e, j + 1);
        if let Step::Done(k, t) = call(e, j + 1) {
            lemma_call_progress(e, j + 1);
            lemma_embed_word(s, d, e, k);
            let m = skip_space(e, k);
            if m < e.len() {
                assert(s[d + m] == e[m]);
            }
        }
    }
}

proof fn lemma_embed_call(s: Seq<char>, d: int, e: Seq<char>, i: int)
    requires
        embeds(s, d, e),
        0 <= i <= e.len(),
    ensures
        call(e, i) matches Step::Done(k, _) && closes_at(e, k) ==> call(s, d + i) == shifted(
            call(e, i),
            d,
        ),
    decreases e.len() - i, 0int,
{
    lemma_embed_word(s, d, e, i);
    let j = skip_space(e, i);
    lemma_embed_counts(s, d, e, j);
    lemma_alnum_count_bound(e, j);
    let n = alnum_count(e, j);
    if n > 0 {
        lemma_embed_args(s, d, e, j + n);
        assert(s.subrange(d + j, d + j + n) =~= e.subrange(j, j + n)) by {
            assert forall|k: int| 0 <= k < n implies s.subrange(d + j, d + j + n)[k]
                == #[trigger] e.subrange(j, j + n)[k] by {
                assert(s[d + (j + k)] == e[j + k]);
            }
        }
    }
}

proof fn lemma_embed_args(s: Seq<char>, d: int, e: Seq<char>, i: int)
    requires
        embeds(s, d, e),
        0 <= i <= e.len(),
    ensures
        args(e, i) matches Step::Done(k, _) && closes_at(e, k) ==> args(s, d + i) == shifted(
            args(e, i),
            d,
        ),
    decreases e.len() - i, 3int,
{
    lemma_embed_node(s, d, e, i);
    lemma_node_progress(e, i);
    if let Step::Done(k, t) = node(e, i) {
        lemma_embed_more(s, d, e, k);
    }
}

proof fn lemma_embed_more(s: Seq<char>, d: int, e: Seq<char>, i: int)
    requires
        embeds(s, d, e),
        0 <= i <= e.len(),
    ensures
        closes_at(e, more(e, i).0) ==> more(s, d + i) == (more(e, i).0 + d, more(e, i).1),
    decreases e.len() - i, 4int,
{
    lemma_embed_node(s, d, e, i);
    lemma_node_progress(e, i);
    if let Step::Done(k, t) = node(e, i) {
        lemma_embed_more(s, d, e, k);
    } else if closes_at(e, i) {
        lemma_closes_embed(s, d, e, i);
    }
}

/// An expression keeps its tree as an argument: if `e` alone parses whole
/// to `t`, then the call `(name e)` parses whole to the call of `name` on
/// `t`.
pub proof fn lemma_nested_argument(name: Seq<char>, e: Seq<char>, t: Tree)
    requires
        is_identifier(name),
        node(e, 0) == Step::Done(e.len() as int, t),
    ensures
        ({
            let s = seq!['('] + name + seq![' '] + e + seq![')'];
            node(s, 0) == Step::Done(s.len() as int, Tree::Func(name, seq![t]))
        }),
{
    let s = seq!['('] + name + seq![' '] + e + seq![')'];
    let p1: int = name.len() + 1int;
    let d: int = p1 + 1;
    let z: int = d + e.len();
    assert(s.len() == z + 1);
    assert(s[0] == '(');
    assert(s[p1] == ' ');
    assert(s[z] == ')');
    assert forall|j: int| 0 <= j < e.len() implies #[trigger] s[d + j] == e[j] by {
        assert(s[d + j] == e[j]);
    }
    assert(embeds(s, d, e));
    lemma_embed_node(s, d, e, 0);
    assert(node(s, d) == Step::Done(z, t));
    assert(space_count(s, p1) == 1 + space_count(s, d));
    assert(word(s, p1) == word(s, d));
    assert(group(s, p1) == group(s, d));
    assert(node(s, p1) == Step::Done(z, t));
    lemma_no_node_at(s, z);
    assert(seq![t] + Seq::<Tree>::empty() =~= seq![t]);
    assert(args(s, p1) == Step::Done(z, seq![t]));
    assert forall|k: int| 1 <= k < p1 implies is_alnum(#[trigger] s[k]) by {
        assert(s[k] == name[k - 1]);
    }
    assert(s.subrange(1, p1) =~= name);
    lemma_term_at(s, 1, 0, name.len());
    assert(space_count(s, 0) == 0);
    assert(alnum_count(s, 0) == 0);
    assert(space_count(s, z) == 0);
}

/// `w` may be put between `a` and `b` as extra whitespace: it is all
/// whitespace, and it does not split a run of letters and digits.
pub open spec fn insertable(a: Seq<char>, w: Seq<char>, b: Seq<char>) -> bool {
    &&& forall|k: int| 0 <= k < w.len() ==> is_space(#[trigger] w[k])
    &&& !(a.len() > 0 && b.len() > 0 && is_alnum(a.last()) && is_alnum(b[0]))
}

/// Two steps agree but for positions: both succeed with the same value, or
/// both fail with the same kind.
pub open spec fn same_outcome<T>(x: Step<T>, y: Step<T>) -> bool {
    match (x, y) {
        (Step::Done(_, u), Step::Done(_, v)) => u == v,
        (Step::Fail(_, e), Step::Fail(_, f)) => e == f,
        _ => false,
    }
}

/// Position `q` in `a + w + b` stands for position `p` in `a + b`, where
/// `n` is the length of `a` and `dl` that of `w`; at the seam both sides of
/// `w` stand for it.
pub open spec fn tracks(p: int, q: int, n: int, dl: int) -> bool {
    (p < n && q == p) || (p > n && q == p + dl) || (p == n && (q == n || q == n + dl))
}

/// Where a position after whitespace skipping in `a + b` lands in
/// `a + w + b`.
pub open spec fn moved(p: int, n: int, dl: int) -> int {
    if p < n {
        p
    } else {
        p + dl
    }
}

/// Two steps agree, positions tracked.
pub open spec fn tracked_steps<T>(x: Step<T>, y: Step<T>, n: int, dl: int) -> bool {
    match (x, y) {
        (Step::Done(k, u), Step::Done(k2, v)) => u == v && tracks(k, k2, n, dl),
        (Step::Fail(p, e), Step::Fail(p2, f)) => e == f && tracks(p, p2, n, dl),
        _ => false,
    }
}

/// The characters of `a + w + b` against those of `a + b`.
proof fn lemma_spliced_chars(a: Seq<char>, w: Seq<char>, b: Seq<char>)
    ensures
        forall|p: int| 0 <= p < a.len() ==> #[trigger] (a + w + b)[p] == (a + b)[p],
        forall|p: int|
            a.len() <= p < a.len() + b.len() ==> #[trigger] (a + w + b)[p + w.len()] == (a
                + b)[p],
        forall|p: int|
            a.len() <= p < a.len() + w.len() ==> #[trigger] (a + w + b)[p] == w[p - a.len()],
{
    assert forall|p: int| a.len() <= p < a.len() + b.len() implies #[trigger] (a + w + b)[p
        + w.len()] == (a + b)[p] by {
        assert((a + w + b)[p + w.len()] == b[p - a.len()]);
    }
}

/// Whitespace skipping stops at the end or before a non-space.
proof fn lemma_skip_stops(s: Seq<char>, i: int)
    requires
        0 <= i <= s.len(),
    ensures
        i <= skip_space(s, i) <= s.len(),
        skip_space(s, i) == s.len() || !is_space(s[skip_space(s, i)]),
    decreases s.len() - i,
{
    if i < s.len() && is_space(s[i]) {
        lemma_skip_stops(s, i + 1);
    }
}

/// Skipping through `w` and on.
proof fn lemma_splice_seam(a: Seq<char>, w: Seq<char>, b: Seq<char>, q: int)
    requires
        insertable(a, w, b),
        a.len() <= q <= a.len() + w.len(),
    ensures
        skip_space(a + w + b, q) == skip_space(a + w + b, (a.len() + w.len()) as int),
    decreases a.len() + w.len() - q,
{
    lemma_spliced_chars(a, w, b);
    if q < a.len() + w.len() {
        assert(is_space(w[q - a.len()]));
        lemma_splice_seam(a, w, b, q + 1);
    }
}

/// Whitespace skipping from tracked positions ends at tracked positions.
proof fn lemma_splice_skip(a: Seq<char>, w: Seq<char>, b: Seq<char>, i: int, i2: int)
    requires
        insertable(a, w, b),
        0 <= i <= a.len() + b.len(),
        tracks(i, i2, a.len() as int, w.len() as int),
    ensures
        skip_space(a + w + b, i2) == moved(
            skip_space(a + b, i),
            a.len() as int,
            w.len() as int,
        ),
    decreases a.len() + b.len() - i, if i == a.len() && i2 == a.len() {
        1int
    } else {
        0int
    },
{
    let s = a + b;
    let s2 = a + w + b;
    let n = a.len() as int;
    let dl = w.len() as int;
    lemma_spliced_chars(a, w, b);
    if i == n && i2 == n && dl > 0 {
        lemma_splice_seam(a, w, b, n);
        lemma_splice_skip(a, w, b, i, n + dl);
    } else if i < s.len() && is_space(s[i]) {
        lemma_splice_skip(a, w, b, i + 1, i2 + 1);
    } else if i < s.len() {
        assert(s2[i2] == s[i]);
    }
}

/// Runs of letters and digits from tracked positions after whitespace.
proof fn lemma_splice_prefix_run(a: Seq<char>, w: Seq<char>, b: Seq<char>, q: int)
    requires
        insertable(a, w, b),
        0 <= q < a.len(),
    ensures
        alnum_count(a + w + b, q) == alnum_count(a + b, q),
        q + alnum_count(a + b, q) <= a.len(),
    decreases a.len() - q,
{
    let s = a + b;
    let s2 = a + w + b;
    let n = a.len() as int;
    lemma_spliced_chars(a, w, b);
    assert(s2[q] == s[q]);
    if is_alnum(s[q]) {
        if q + 1 < n {
            lemma_splice_prefix_run(a, w, b, q + 1);
        } else {
            assert(a.last() == s[q]);
            if b.len() > 0 {
                assert(s[n] == b[0]);
            }
            assert(alnum_count(s, n) == 0);
            if w.len() > 0 {
                assert(s2[n] == w[0]);
                assert(!is_alnum(w[0]));
            } else if b.len() > 0 {
                assert(s2[n] == b[0]);
            }
            assert(alnum_count(s2, n) == 0);
        }
    }
}

proof fn lemma_splice_suffix_run(a: Seq<char>, w: Seq<char>, b: Seq<char>, q: int)
    requires
        a.len() <= q <= a.len() + b.len(),
    ensures
        alnum_count(a + w + b, q + w.len()) == alnum_count(a + b, q),
    decreases a.len() + b.len() - q,
{
    lemma_spliced_chars(a, w, b);
    if q < a.len() + b.len() {
        lemma_splice_suffix_run(a, w, b, q + 1);
    }
}

proof fn lemma_splice_word(a: Seq<char>, w: Seq<char>, b: Seq<char>, i: int, i2: int)
    requires
        insertable(a, w, b),
        0 <= i <= a.len() + b.len(),
        tracks(i, i2, a.len() as int, w.len() as int),
    ensures
        tracked_steps(word(a + b, i), word(a + w + b, i2), a.len() as int, w.len() as int),
{
    let s = a + b;
    let s2 = a + w + b;
    let n = a.len() as int;
    let dl = w.len() as int;
    lemma_spliced_chars(a, w, b);
    lemma_splice_skip(a, w, b, i, i2);
    lemma_skip_stops(s, i);
    let j = skip_space(s, i);
    let j2 = moved(j, n, dl);
    let c = alnum_count(s, j);
    lemma_alnum_count_bound(s, j);
    if j < n {
        lemma_splice_prefix_run(a, w, b, j);
        assert(s2.subrange(j2, j2 + c) =~= s.subrange(j, j + c));
    } else {
        lemma_splice_suffix_run(a, w, b, j);
        assert(s2.subrange(j2, j2 + c) =~= s.subrange(j, j + c));
    }
}

proof fn lemma_splice_node(a: Seq<char>, w: Seq<char>, b: Seq<char>, i: int, i2: int)
    requires
        insertable(a, w, b),
        0 <= i <= a.len() + b.len(),
        tracks(i, i2, a.len() as int, w.len() as int),
    ensures
        tracked_steps(node(a + b, i), node(a + w + b, i2), a.len() as int, w.len() as int),
    decreases a.len() + b.len() - i, 2int,
{
    lemma_splice_word(a, w, b, i, i2);
    lemma_splice_group(a, w, b, i, i2);
}

proof fn lemma_splice_group(a: Seq<char>, w: Seq<char>, b: Seq<char>, i: int, i2: int)
    requires
        insertable(a, w, b),
        0 <= i <= a.len() + b.len(),
        tracks(i, i2, a.len() as int, w.len() as int),
    ensures
        tracked_steps(group(a + b, i), group(a + w + b, i2), a.len() as int, w.len() as int),
    decreases a.len() + b.len() - i, 1int,
{
    let s = a + b;
    let s2 = a + w + b;
    let n = a.len() as int;
    let dl = w.len() as int;
    lemma_spliced_chars(a, w, b);
    lemma_splice_skip(a, w, b, i, i2);
    lemma_skip_stops(s, i);
    let j = skip_space(s, i);
    let j2 = moved(j, n, dl);
    if j < s.len() {
        assert(s2[j2] == s[j]);
    }
    if j < s.len() && s[j] == '(' {
        lemma_splice_call(a, w, b, j + 1, j2 + 1);
        lemma_call_progress(s, j + 1);
        if let Step::Done(k, t) = call(s, j + 1) {
            lemma_splice_skip(a, w, b, k, call(s2, j2 + 1)->Done_0);
            lemma_skip_stops(s, k);
            let m = skip_space(s, k);
            if m < s.len() {
                assert(s2[moved(m, n, dl)] == s[m]);
            }
        }
    }
}

proof fn lemma_splice_call(a: Seq<char>, w: Seq<char>, b: Seq<char>, i: int, i2: int)
    requires
        insertable(a, w, b),
        0 <= i <= a.len() + b.len(),
        tracks(i, i2, a.len() as int, w.len() as int),
    ensures
        tracked_steps(call(a + b, i), call(a + w + b, i2), a.len() as int, w.len() as int),
    decreases a.len() + b.len() - i, 0int,
{
    let s = a + b;
    let s2 = a + w + b;
    lemma_splice_word(a, w, b, i, i2);
    lemma_space_count_bound(s, i);
    lemma_alnum_count_bound(s, skip_space(s, i));
    if let Step::Done(k, x) = word(s, i) {
        lemma_splice_args(a, w, b, k, word(s2, i2)->Done_0);
    }
}

proof fn lemma_splice_args(a: Seq<char>, w: Seq<char>, b: Seq<char>, i: int, i2: int)
    requires
        insertable(a, w, b),
        0 <= i <= a.len() + b.len(),
        tracks(i, i2, a.len() as int, w.len() as int),
    ensures
        tracked_steps(args(a + b, i), args(a + w + b, i2), a.len() as int, w.len() as int),
    decreases a.len() + b.len() - i, 3int,
{
    let s = a + b;
    let s2 = a + w + b;
    lemma_splice_node(a, w, b, i, i2);
    lemma_node_progress(s, i);
    lemma_node_progress(s2, i2);
    if let Step::Done(k, x) = node(s, i) {
        lemma_splice_more(a, w, b, k, node(s2, i2)->Done_0);
    }
}

proof fn lemma_splice_more(a: Seq<char>, w: Seq<char>, b: Seq<char>, i: int, i2: int)
    requires
        insertable(a, w, b),
        0 <= i <= a.len() + b.len(),
        tracks(i, i2, a.len() as int, w.len() as int),
    ensures
        tracks(more(a + b, i).0, more(a + w + b, i2).0, a.len() as int, w.len() as int),
        more(a + b, i).1 == more(a + w + b, i2).1,
    decreases a.len() + b.len() - i, 4int,
{
    let s = a + b;
    let s2 = a + w + b;
    lemma_splice_node(a, w, b, i, i2);
    lemma_node_progress(s, i);
    lemma_node_progress(s2, i2);
    if let Step::Done(k, x) = node(s, i) {
        lemma_splice_more(a, w, b, k, node(s2, i2)->Done_0);
    }
}

/// Extra whitespace between tokens changes no tree: putting a run of
/// whitespace `w` anywhere in `a + b` but inside a run of letters and digits
/// leaves the outcome of parsing an expression the same, the same tree on
/// success and the same kind of error on failure.
pub proof fn lemma_whitespace_insensitive(a: Seq<char>, w: Seq<char>, b: Seq<char>)
    requires
        insertable(a, w, b),
    ensures
        same_outcome(node(a + b, 0), node(a + w + b, 0)),
{
    lemma_splice_node(a, w, b, 0, 0);
}

/// A tree as parsing builds it: every text is an identifier and every call
/// has at least one argument.
pub open spec fn well_formed(t: Tree) -> bool
    decreases t,
{
    match t {
        Tree::Term(w) => is_identifier(w),
        Tree::Func(name, ts) => is_identifier(name) && ts.len() >= 1 && forall|k: int|
            0 <= k < ts.len() ==> well_formed(#[trigger] ts[k]),
    }
}

proof fn lemma_word_identifier(s: Seq<char>, i: int)
    ensures
        word(s, i) matches Step::Done(_, w) ==> is_identifier(w),
{
    let j = skip_space(s, i);
    let n = alnum_count(s, j);
    lemma_alnum_count_bound(s, j);
    if n > 0 {
        assert forall|k: int| 0 <= k < n implies is_alnum(#[trigger] s.subrange(j, j + n)[k]) by {
            lemma_alnum_run_chars(s, j, k);
        }
    }
}

proof fn lemma_alnum_run_chars(s: Seq<char>, i: int, k: int)
    requires
        0 <= k < alnum_count(s, i),
    ensures
        is_alnum(s[i + k]),
    decreases k,
{
    if k > 0 {
        lemma_alnum_run_chars(s, i + 1, k - 1);
    }
}

proof fn lemma_node_well_formed(s: Seq<char>, i: int)
    requires
        0 <= i,
    ensures
        node(s, i) matches Step::Done(_, t) ==> well_formed(t),
    decreases s.len() - i, 2int,
{
    lemma_word_identifier(s, i);
    lemma_group_well_formed(s, i);
}

proof fn lemma_group_well_formed(s: Seq<char>, i: int)
    requires
        0 <= i,
    ensures
        group(s, i) matches Step::Done(_, t) ==> well_formed(t),
    decreases s.len() - i, 1int,
{
    let j = skip_space(s, i);
    if 0 <= j < s.len() && s[j] == '(' {
        lemma_call_well_formed(s, j + 1);
    }
}

proof fn lemma_call_well_formed(s: Seq<char>, i: int)
    requires
        0 <= i,
    ensures
        call(s, i) matches Step::Done(_, t) ==> well_formed(t),
    decreases s.len() - i, 0int,
{
    lemma_word_identifier(s, i);
    let j = skip_space(s, i);
    lemma_alnum_count_bound(s, j);
    if alnum_count(s, j) > 0 {
        lemma_args_well_formed(s, j + alnum_count(s, j));
    }
}

proof fn lemma_args_well_formed(s: Seq<char>, i: int)
    requires
        0 <= i,
    ensures
        args(s, i) matches Step::Done(_, ts) ==> ts.len() >= 1 && forall|k: int|
            0 <= k < ts.len() ==> well_formed(#[trigger] ts[k]),
    decreases s.len() - i, 3int,
{
    lemma_node_well_formed(s, i);
    if let Step::Done(k, t) = node(s, i) {
        if i < k <= s.len() {
            lemma_more_well_formed(s, k);
            let rest = more(s, k).1;
            assert forall|m: int| 0 <= m < 1 + rest.len() implies well_formed(
                #[trigger] (seq![t] + rest)[m],
            ) by {
                if m > 0 {
                    assert((seq![t] + rest)[m] == rest[m - 1]);
                }
            }
        }
    }
}

proof fn lemma_more_well_formed(s: Seq<char>, i: int)
    requires
        0 <= i,
    ensures
        forall|k: int| 0 <= k < more(s, i).1.len() ==> well_formed(#[trigger] more(s, i).1[k]),
    decreases s.len() - i, 4int,
{
    lemma_node_well_formed(s, i);
    if let Step::Done(k, t) = node(s, i) {
        if i < k <= s.len() {
            lemma_more_well_formed(s, k);
            let rest = more(s, k).1;
            assert forall|m: int| 0 <= m < 1 + rest.len() implies well_formed(
                #[trigger] (seq![t] + rest)[m],
            ) by {
                if m > 0 {
                    assert((seq![t] + rest)[m] == rest[m - 1]);
                }
            }
        }
    }
}

/// Every tree that parsing builds is well formed: its texts are
/// identifiers and each of its calls has at least one argument.
pub proof fn lemma_parsed_tree_well_formed(s: Seq<char>)
    ensures
        node(s, 0) matches Step::Done(_, t) ==> well_formed(t),
{
    lemma_node_well_formed(s, 0);
}

} // verus!
