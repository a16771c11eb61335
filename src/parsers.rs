//! The executable parsers.
//!
//! Each public parser takes the text and returns the unconsumed rest with
//! what it built, or a [`ParseError`]. Nodes borrow their text from the input.
use vstd::prelude::*;
use vstd::string::*;
use crate::grammar::{
    alnum_count, args, call, group, is_alnum, is_space, more, node, skip_space, space_count, word,
    ErrorKind, Step, Tree,
};

verus! {

/// A parsed expression: a term, or a function applied to one or more
/// arguments.
#[derive(Debug)]
pub enum ParsedSNode<'a> {
    Term(&'a str),
    Func(&'a str, Vec<ParsedSNode<'a>>),
}

pub type ParsedArgs<'a> = Vec<ParsedSNode<'a>>;

/// Where and why parsing stopped: `input` is the unconsumed rest of the text.
#[derive(Debug)]
pub struct ParseError<'a> {
    pub input: &'a str,
    pub kind: ErrorKind,
}

/// The tree that a node stands for.
pub open spec fn tree_of(n: ParsedSNode) -> Tree
    decreases n,
{
    match n {
        ParsedSNode::Term(t) => Tree::Term(t@),
        ParsedSNode::Func(name, a) => Tree::Func(name@, trees_of(a@)),
    }
}

/// The trees that a sequence of nodes stands for.
pub open spec fn trees_of(v: Seq<ParsedSNode>) -> Seq<Tree>
    decreases v,
{
    if v.len() == 0 {
        seq![]
    } else {
        seq![tree_of(v[0])] + trees_of(v.drop_first())
    }
}


/// The same sequence of trees, element by element.
pub proof fn lemma_trees_of_index(v: Seq<ParsedSNode>)
    ensures
        trees_of(v).len() == v.len(),
        forall|i: int| 0 <= i < v.len() ==> #[trigger] trees_of(v)[i] == tree_of(v[i]),
    decreases v.len(),
{
    if v.len() > 0 {
        lemma_trees_of_index(v.drop_first());
    }
}

/// Trees of a sequence with one more node at its end.
pub proof fn lemma_trees_of_push(v: Seq<ParsedSNode>, n: ParsedSNode)
    ensures
        trees_of(v.push(n)) == trees_of(v).push(tree_of(n)),
{
    lemma_trees_of_index(v);
    lemma_trees_of_index(v.push(n));
    assert(trees_of(v.push(n)) =~= trees_of(v).push(tree_of(n)));
}

/// What a parser hands back at a position, or the position and kind of its
/// failure.
type Found<T> = Result<(usize, T), (usize, ErrorKind)>;

/// The grammar step that a found node stands for.
pub open spec fn node_step(r: Result<(usize, ParsedSNode), (usize, ErrorKind)>) -> Step<Tree> {
    match r {
        Ok((k, n)) => Step::Done(k as int, tree_of(n)),
        Err((p, e)) => Step::Fail(p as int, e),
    }
}

/// The grammar step that a found word stands for.
pub open spec fn word_step(r: Result<(usize, &str), (usize, ErrorKind)>) -> Step<Seq<char>> {
    match r {
        Ok((k, w)) => Step::Done(k as int, w@),
        Err((p, e)) => Step::Fail(p as int, e),
    }
}

/// The grammar step that found arguments stand for.
pub open spec fn args_step(r: Result<(usize, Vec<ParsedSNode>), (usize, ErrorKind)>) -> Step<
    Seq<Tree>,
> {
    match r {
        Ok((k, v)) => Step::Done(k as int, trees_of(v@)),
        Err((p, e)) => Step::Fail(p as int, e),
    }
}

/// Every position in a found result lies in `0..=n`; one after a success
/// lies past the start `i`.
pub open spec fn in_bounds<T>(r: Result<(usize, T), (usize, ErrorKind)>, i: int, n: int) -> bool {
    match r {
        Ok((k, _)) => i < k <= n,
        Err((p, _)) => p <= n,
    }
}

fn is_space_char(c: char) -> (b: bool)
    ensures
        b == is_space(c),
{
    c == ' ' || c == '\t' || c == '\r' || c == '\n'
}

fn is_alnum_char(c: char) -> (b: bool)
    ensures
        b == is_alnum(c),
{
    ('0' <= c && c <= '9') || ('a' <= c && c <= 'z') || ('A' <= c && c <= 'Z')
}

/// The characters of `s`, in order.
fn chars_of(s: &str) -> (r: Vec<char>)
    ensures
        r@ == s@,
{
    let mut v: Vec<char> = Vec::new();
    for c in it: s.chars()
        invariant
            v@ == it.seq().take(it.index() as int),
    {
        v.push(c);
    }
    v
}

/// Skips whitespace from `i`.
fn skip_from(cs: &Vec<char>, i: usize) -> (j: usize)
    requires
        i <= cs.len(),
    ensures
        j == skip_space(cs@, i as int),
        i <= j <= cs.len(),
{
    let mut j = i;
    while j < cs.len() && is_space_char(cs[j])
        invariant
            i <= j <= cs.len(),
            j + space_count(cs@, j as int) == i + space_count(cs@, i as int),
        decreases cs.len() - j,
    {
        j = j + 1;
    }
    j
}

/// Skips letters and digits from `i`.
fn run_from(cs: &Vec<char>, i: usize) -> (j: usize)
    requires
        i <= cs.len(),
    ensures
        j == i + alnum_count(cs@, i as int),
        i <= j <= cs.len(),
{
    let mut j = i;
    while j < cs.len() && is_alnum_char(cs[j])
        invariant
            i <= j <= cs.len(),
            j + alnum_count(cs@, j as int) == i + alnum_count(cs@, i as int),
        decreases cs.len() - j,
    {
        j = j + 1;
    }
    j
}

fn word_at<'a>(src: &'a str, cs: &Vec<char>, i: usize) -> (r: Found<&'a str>)
    requires
        cs@ == src@,
        i <= cs.len(),
    ensures
        word_step(r) == word(cs@, i as int),
        in_bounds(r, i as int, cs.len() as int),
{
    let j = skip_from(cs, i);
    let k = run_from(cs, j);
    if k > j {
        Ok((k, src.substring_char(j, k)))
    } else {
        Err((j, ErrorKind::ExpectedIdentifier))
    }
}

fn node_at<'a>(src: &'a str, cs: &Vec<char>, i: usize) -> (r: Found<ParsedSNode<'a>>)
    requires
        cs@ == src@,
        i <= cs.len(),
    ensures
        node_step(r) == node(cs@, i as int),
        in_bounds(r, i as int, cs.len() as int),
    decreases cs.len() - i, 2int,
{
    match word_at(src, cs, i) {
        Ok((k, w)) => Ok((k, ParsedSNode::Term(w))),
        Err(_) => group_at(src, cs, i),
    }
}

fn group_at<'a>(src: &'a str, cs: &Vec<char>, i: usize) -> (r: Found<ParsedSNode<'a>>)
    requires
        cs@ == src@,
        i <= cs.len(),
    ensures
        node_step(r) == group(cs@, i as int),
        in_bounds(r, i as int, cs.len() as int),
    decreases cs.len() - i, 1int,
{
    let j = skip_from(cs, i);
    if j < cs.len() && cs[j] == '(' {
        match call_at(src, cs, j + 1) {
            Ok((k, t)) => {
                let m = skip_from(cs, k);
                if m < cs.len() && cs[m] == ')' {
                    Ok((m + 1, t))
                } else {
                    Err((m, ErrorKind::ExpectedClosingDelimiter))
                }
            },
            Err(e) => Err(e),
        }
    } else {
        Err((j, ErrorKind::ExpectedIdentifier))
    }
}

fn call_at<'a>(src: &'a str, cs: &Vec<char>, i: usize) -> (r: Found<ParsedSNode<'a>>)
    requires
        cs@ == src@,
        i <= cs.len(),
    ensures
        node_step(r) == call(cs@, i as int),
        in_bounds(r, i as int, cs.len() as int),
    decreases cs.len() - i, 0int,
{
    let j = skip_from(cs, i);
    let k = run_from(cs, j);
    if k > j {
        let name = src.substring_char(j, k);
        match args_at(src, cs, k) {
            Ok((m, a)) => Ok((m, ParsedSNode::Func(name, a))),
            Err(e) => Err(e),
        }
    } else {
        Err((j, ErrorKind::ExpectedIdentifier))
    }
}

fn args_at<'a>(src: &'a str, cs: &Vec<char>, i: usize) -> (r: Found<ParsedArgs<'a>>)
    requires
        cs@ == src@,
        i <= cs.len(),
    ensures
        args_step(r) == args(cs@, i as int),
        in_bounds(r, i as int, cs.len() as int),
    decreases cs.len() - i, 3int,
{
    match node_at(src, cs, i) {
        Ok((k, t)) => {
            let ghost s = cs@;
            let ghost first = tree_of(t);
            let mut v: Vec<ParsedSNode<'a>> = vec![t];
            let mut pos = k;
            proof {
                lemma_trees_of_index(v@);
                assert(trees_of(v@) =~= seq![first]);
            }
            loop
                invariant
                    cs@ == s,
                    cs@ == src@,
                    i < pos <= cs.len(),
                    args(s, i as int) == Step::Done(
                        more(s, pos as int).0,
                        trees_of(v@) + more(s, pos as int).1,
                    ),
                ensures
                    i < pos <= cs.len(),
                    args(s, i as int) == Step::Done(pos as int, trees_of(v@)),
                decreases cs.len() - pos,
            {
                match node_at(src, cs, pos) {
                    Ok((k2, t2)) => {
                        proof {
                            lemma_trees_of_push(v@, t2);
                            assert(trees_of(v@) + more(s, pos as int).1 =~= trees_of(v@).push(
                                tree_of(t2),
                            ) + more(s, k2 as int).1);
                        }
                        v.push(t2);
                        pos = k2;
                    },
                    Err(_) => {
                        assert(more(s, pos as int) == (pos as int, Seq::<Tree>::empty()));
                        assert(trees_of(v@) + more(s, pos as int).1 =~= trees_of(v@));
                        break;
                    },
                }
            }
            Ok((pos, v))
        },
        Err(e) => Err(e),
    }
}

/// The unconsumed rest of the text with what was parsed, or the error.
pub type ParseResult<'a, T> = Result<(&'a str, T), ParseError<'a>>;

/// `r` reports the grammar step `st` on text `s`: on success the rest is the
/// text after the step's position and `view` of the value is the step's
/// value; on failure the error's input is the text after the failure's
/// position and its kind is the failure's kind.
pub open spec fn reports<T, U>(
    s: Seq<char>,
    r: ParseResult<T>,
    st: Step<U>,
    view: spec_fn(T) -> U,
) -> bool {
    match (st, r) {
        (Step::Done(k, x), Ok((rest, v))) => rest@ == s.skip(k) && view(v) == x,
        (Step::Fail(p, e), Err(err)) => err.input@ == s.skip(p) && err.kind == e,
        _ => false,
    }
}

/// Turns positions into the rest of the text.
fn finish<'a, T>(src: &'a str, n: usize, r: Found<T>) -> (out: ParseResult<'a, T>)
    requires
        n == src@.len(),
        match r {
            Ok((k, _)) => k <= n,
            Err((p, _)) => p <= n,
        },
    ensures
        match (r, out) {
            (Ok((k, x)), Ok((rest, y))) => rest@ == src@.skip(k as int) && y == x,
            (Err((p, e)), Err(err)) => err.input@ == src@.skip(p as int) && err.kind == e,
            _ => false,
        },
{
    match r {
        Ok((k, x)) => Ok((src.substring_char(k, n), x)),
        Err((p, e)) => Err(ParseError { input: src.substring_char(p, n), kind: e }),
    }
}

/// Parses an expression: a term, else a parenthesized call.
pub fn parse_sexpr<'a>(input: &'a str) -> (r: ParseResult<'a, ParsedSNode<'a>>)
    ensures
        reports(input@, r, node(input@, 0), |n: ParsedSNode| tree_of(n)),
{
    let cs = chars_of(input);
    let found = node_at(input, &cs, 0);
    finish(input, cs.len(), found)
}

/// Parses a term: whitespace, then a nonempty run of ASCII letters and digits.
pub fn parse_term_node<'a>(input: &'a str) -> (r: ParseResult<'a, ParsedSNode<'a>>)
    ensures
        reports(
            input@,
            r,
            match word(input@, 0) {
                Step::Done(k, w) => Step::Done(k, Tree::Term(w)),
                Step::Fail(p, e) => Step::Fail(p, e),
            },
            |n: ParsedSNode| tree_of(n),
        ),
{
    let cs = chars_of(input);
    let found = match word_at(input, &cs, 0) {
        Ok((k, w)) => Ok((k, ParsedSNode::Term(w))),
        Err(e) => Err(e),
    };
    finish(input, cs.len(), found)
}

/// Parses a parenthesized call: whitespace, `(`, a call, whitespace, `)`.
pub fn parse_func_node<'a>(input: &'a str) -> (r: ParseResult<'a, ParsedSNode<'a>>)
    ensures
        reports(input@, r, group(input@, 0), |n: ParsedSNode| tree_of(n)),
{
    let cs = chars_of(input);
    let found = group_at(input, &cs, 0);
    finish(input, cs.len(), found)
}

/// Parses a call without its parentheses: a name, then one or more arguments.
pub fn parse_func_call<'a>(input: &'a str) -> (r: ParseResult<'a, ParsedSNode<'a>>)
    ensures
        reports(input@, r, call(input@, 0), |n: ParsedSNode| tree_of(n)),
{
    let cs = chars_of(input);
    let found = call_at(input, &cs, 0);
    finish(input, cs.len(), found)
}

/// Parses a function's name: whitespace, then a nonempty run of ASCII
/// letters and digits.
pub fn parse_func_name<'a>(input: &'a str) -> (r: ParseResult<'a, &'a str>)
    ensures
        reports(input@, r, word(input@, 0), |w: &str| w@),
{
    let cs = chars_of(input);
    let found = word_at(input, &cs, 0);
    finish(input, cs.len(), found)
}

/// Parses one or more arguments, each a term or a parenthesized call.
pub fn parse_func_args<'a>(input: &'a str) -> (r: ParseResult<'a, ParsedArgs<'a>>)
    ensures
        reports(input@, r, args(input@, 0), |v: ParsedArgs| trees_of(v@)),
{
    let cs = chars_of(input);
    let found = args_at(input, &cs, 0);
    finish(input, cs.len(), found)
}

/// Consumes the longest prefix of spaces, tabs, carriage returns and line
/// feeds; it never fails.
pub fn skip_spaces<'a>(input: &'a str) -> (r: ParseResult<'a, &'a str>)
    ensures
        r is Ok,
        r matches Ok((rest, taken)) && rest@ == input@.skip(skip_space(input@, 0))
            && taken@ == input@.take(skip_space(input@, 0)),
{
    let cs = chars_of(input);
    let j = skip_from(&cs, 0);
    Ok((input.substring_char(j, cs.len()), input.substring_char(0, j)))
}

} // verus!
