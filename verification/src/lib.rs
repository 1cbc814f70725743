//! An LBNF (Labelled BNF) grammar library: an abstract-syntax model of an
//! LBNF program, a canonical printer from the model back to LBNF source
//! text, and a parser from source text to the model.
//!
//! The library's central contract is the round-trip law: for every grammar
//! tree the parser can produce, printing it (in either mode) and parsing
//! the result yields the original tree.

/// The structure of LBNF grammar.
pub mod grammar;

/// The canonical printer from the model to LBNF source text.
pub mod printer;

/// The printer's stated laws.
pub mod laws;

/// The parser from LBNF source text to the model.
pub mod parser;

use crate::grammar::{wf_grammar, Grammar, Mode};
use crate::laws::grammar_like;
use crate::parser::{err_names_input, printable_grammar, ParseError};
use crate::printer::grammar_text;
use vstd::prelude::*;

verus! {

/// Parses the given string as an LBNF grammar.  Returns the grammar tree
/// when the text is valid, a structured failure otherwise.  Every tree
/// returned is well-formed; every failure names the offending position
/// and the character found there; empty input yields the empty grammar.
///
/// The last clause is the round-trip law: whenever the input is the
/// printed form of a printable grammar — one of rules whose labels and
/// categories are well-formed and whose terminals hold no backslash —
/// in either mode, parsing succeeds and returns that grammar.
pub fn parse(input: &str) -> (r: Result<Grammar, ParseError>)
    ensures
        r matches Ok(g) ==> wf_grammar(g),
        r matches Err(e) ==> err_names_input(input@, e),
        input@.len() == 0 ==> (r matches Ok(g) && g.definitions@.len() == 0),
        forall|g: Grammar, mode: Mode|
            printable_grammar(g) && input@ == #[trigger] grammar_text(g, mode) ==> (r matches Ok(p)
                && grammar_like(g, p)),
{
    crate::parser::parse_text(input)
}

} // verus!
