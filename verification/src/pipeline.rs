//! The whole pipeline: text to tokens to declarations to resolved types to
//! rendered declarations, with no backward step and no partial output.

use vstd::prelude::*;

use crate::ast::{resolved_models, ResolvedModel, ResolvedType};
use crate::emitter::{emit, render_batch};
use crate::lexer::{lex, lex_from, LexError};
use crate::parser::{parse, parse_decls, ParseError};
use crate::resolver::{resolve_batch, resolve_models};

verus! {

/// Any failure of one input batch: lexical or grammatical. A failed batch
/// produces no output at all.
#[derive(Debug, Clone, Copy, PartialEq, Eq, Structural)]
pub enum Error {
    Lex(LexError),
    Parse(ParseError),
}

/// What the pipeline owes for a given input text: the resolved types of the
/// batch and their rendering, or the first error met.
pub open spec fn generate_spec(s: Seq<u8>) -> Result<(Seq<ResolvedModel>, Seq<u8>), Error> {
    match lex_from(s, 0) {
        Err(p) => Err(Error::Lex(LexError { pos: p as usize })),
        Ok(toks) => match parse_decls(toks, 0, true) {
            Err(e) => Err(Error::Parse(e)),
            Ok(ds) => Ok((resolve_models(ds), render_batch(resolve_models(ds)))),
        },
    }
}

/// The resolved types of one batch, in declaration order, together with
/// their rendering.
pub struct Output {
    pub types: Vec<ResolvedType>,
    pub rendering: Vec<u8>,
}

/// Runs the pipeline on one input batch: lexes, parses, resolves every
/// declaration against the first, and renders the result.
pub fn generate(input: &Vec<u8>) -> (r: Result<Output, Error>)
    ensures
        ({
            let g = generate_spec(input@);
            match r {
                Ok(o) => g matches Ok(p) && resolved_models(o.types@) == p.0 && o.rendering@
                    == p.1,
                Err(e) => g == Err::<(Seq<ResolvedModel>, Seq<u8>), Error>(e),
            }
        }),
{
    match lex(input) {
        Err(e) => Err(Error::Lex(e)),
        Ok(toks) => match parse(&toks) {
            Err(e) => Err(Error::Parse(e)),
            Ok(decls) => {
                let types = resolve_batch(&decls);
                let rendering = emit(&types);
                Ok(Output { types, rendering })
            },
        },
    }
}

/// Law: the pipeline is a pure function of the input text; resolving the
/// same batch twice yields byte-identical output.
pub proof fn lemma_deterministic(a: Seq<u8>, b: Seq<u8>)
    requires
        a == b,
    ensures
        generate_spec(a) == generate_spec(b),
{
}

} // verus!
