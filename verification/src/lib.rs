//! Front end and evaluation core of the kot build-description language:
//! a lexer that turns source text into positioned tokens, a
//! precedence-climbing parser that builds a positioned syntax tree, a
//! stack of lexical scope frames, and a tree-walking evaluator.

use vstd::prelude::*;

#[verifier::loop_isolation(false)]
pub mod ast;
#[verifier::loop_isolation(false)]
pub mod config;
#[verifier::loop_isolation(false)]
pub mod parser;
#[verifier::loop_isolation(false)]
pub mod environment;
#[verifier::loop_isolation(false)]
pub mod interpreter;
#[verifier::loop_isolation(false)]
pub mod laws;
#[verifier::loop_isolation(false)]
pub mod lexer;
#[verifier::loop_isolation(false)]
pub mod token;

verus! {

/// A 1-based source position (line and column), carried by every token
/// and every syntax-tree node for diagnostics.
#[derive(Copy, Clone, Debug, Eq, PartialEq, Structural)]
pub struct Pos {
    pub line: usize,
    pub col: usize,
}

impl Pos {
    pub fn new(line: usize, col: usize) -> (r: Self)
        ensures
            r.line == line,
            r.col == col,
    {
        Self { line, col }
    }
}

/// A fixed string value carrying exactly the given characters: the string
/// that collecting those characters yields, whatever they came from.
pub open spec fn string_of(cs: Seq<char>) -> String {
    choose|s: String| s@ == cs
}

/// Relies on String::from_iter over characters: the collected string holds
/// exactly the given characters in order, and collecting equal characters
/// yields equal strings, so the result is the string of those characters.
#[verifier::external_body]
pub(crate) fn string_from_chars(v: &Vec<char>) -> (r: String)
    ensures
        r@ == v@,
        r == string_of(v@),
{
    v.iter().collect()
}

/// Relies on str::to_owned: the owned string holds exactly the slice's
/// characters, and equal slices yield equal strings, so the result is the
/// string of those characters.
#[verifier::external_body]
pub(crate) fn string_lit(s: &str) -> (r: String)
    ensures
        r@ == s@,
        r == string_of(s@),
{
    s.to_owned()
}

/// An owned copy of a string, equal to the original.
pub fn clone_string(s: &String) -> (r: String)
    ensures
        r == *s,
{
    s.clone()
}

/// The characters of a string slice, as an indexable vector.
pub fn chars_of(s: &str) -> (r: Vec<char>)
    ensures
        r@ == s@,
{
    let mut v: Vec<char> = Vec::new();
    for c in it: s.chars()
        invariant
            it.seq() == s@,
            v@ == it.seq().take(it.index() as int),
    {
        v.push(c);
        proof {
            assert(v@ =~= it.seq().take(it.index() as int + 1));
        }
    }
    proof {
        assert(v@ =~= s@);
    }
    v
}

} // verus!
