//! A verified interpreter for a minimal esoteric language of eight
//! single-character instructions over a 256-cell byte tape: lexing,
//! bracket validation, tree building, and tree-walking execution, each
//! proved against a mathematical semantics.

use vstd::prelude::*;

mod interp;
mod lexer;
mod parser;
mod syntax;
mod token;

pub use interp::init_state;
pub use interp::lemma_output_deterministic;
pub use interp::lemma_run_cmd_mono;
pub use interp::lemma_run_cmds_append;
pub use interp::lemma_run_cmds_mono;
pub use interp::lemma_run_cmds_snoc;
pub use interp::lemma_run_deterministic;
pub use interp::run_cmd;
pub use interp::run_cmds;
pub use interp::run_interpreter;
pub use interp::run_output;
pub use interp::state_wf;
pub use interp::wrap_dec;
pub use interp::wrap_inc;
pub use interp::State;
pub use lexer::char_token;
pub use lexer::char_tokens;
pub use lexer::lemma_lex_idempotent;
pub use lexer::lemma_lex_render_roundtrip;
pub use lexer::lexical_analysis;
pub use lexer::render;
pub use lexer::render_tokens;
pub use lexer::spec_lex;
pub use lexer::token_char;
pub use parser::lemma_render_cmd_balanced;
pub use parser::lemma_render_cmds_balanced;
pub use parser::lemma_render_cmds_snoc;
pub use parser::lemma_render_count;
pub use parser::parse;
pub use parser::render_cmd;
pub use parser::render_cmds;
pub use parser::top_count;
pub use syntax::balanced;
pub use syntax::delta;
pub use syntax::depth;
pub use syntax::lemma_depth_add;
pub use syntax::lemma_depth_snoc;
pub use syntax::syntax_analysis;
pub use token::Command;
pub use token::Token;

verus! {

/// What one whole run of the pipeline came to.
#[derive(Debug, PartialEq, Eq)]
pub enum RunResult {
    /// The loop brackets of the source are unbalanced; nothing was run
    /// and no output was produced.
    SyntaxError,
    /// The program is well formed but did not finish within the given
    /// iteration budget.
    OutOfFuel,
    /// The program finished; these are the bytes it wrote, in order.
    Output(Vec<u8>),
}

/// The whole pipeline: lex the source, validate the brackets, build the
/// instruction tree, and run it on the given input with the given
/// loop-iteration budget. An unbalanced source is rejected before any
/// instruction runs; otherwise the result is exactly what the semantics
/// assigns to the tree whose spelling is the source's token sequence.
pub fn run_program(source: &str, input: &[u8], fuel: u64) -> (result: RunResult)
    ensures
        ({
            let toks = spec_lex(source@);
            match result {
                RunResult::SyntaxError => !balanced(toks),
                RunResult::OutOfFuel => balanced(toks) && (exists|cmds: Seq<Command>|
                    #[trigger] render_cmds(cmds) == toks && run_output(
                        cmds,
                        input@,
                        fuel as nat,
                    ) is None),
                RunResult::Output(out) => balanced(toks) && (exists|cmds: Seq<Command>|
                    #[trigger] render_cmds(cmds) == toks && run_output(cmds, input@, fuel as nat)
                        == Some(out@)),
            }
        }),
{
    let tokens = lexical_analysis(source);
    if !syntax_analysis(tokens.as_slice()) {
        return RunResult::SyntaxError;
    }
    proof {
        assert(tokens@.subrange(0, tokens@.len() as int) =~= tokens@);
    }
    let commands = parse(tokens.as_slice(), 0, tokens.len());
    match run_interpreter(commands.as_slice(), input, fuel) {
        Some(out) => RunResult::Output(out),
        None => RunResult::OutOfFuel,
    }
}

} // verus!
