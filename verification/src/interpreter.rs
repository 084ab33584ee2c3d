//! Source text in, output out: the compiler and the machine put together.

use vstd::prelude::*;
use crate::compiler::{compile, compile_spec, CompileError};
use crate::machine::{execute, report, run_spec, Execution, Progress, RuntimeError, State};

verus! {

/// What interpreting `text` for up to `budget` steps gives: the compile error, or the
/// output of the compiled program run from the initial state, and how that run ended.
pub open spec fn interpret_spec(text: Seq<char>, budget: nat) -> Result<
    (Seq<u8>, Result<Progress, RuntimeError>),
    CompileError,
> {
    match compile_spec(text) {
        Ok(code) => {
            let end = run_spec(code, State::initial(), budget);
            Ok((end.0.output, report(code, end)))
        },
        Err(e) => Err(e),
    }
}

/// Compiles `source` and executes the result on a fresh machine for up to `budget`
/// steps.
pub fn interpret(source: &str, budget: u64) -> (result: Result<Execution, CompileError>)
    ensures
        match result {
            Ok(execution) => interpret_spec(source@, budget as nat) == Ok::<
                (Seq<u8>, Result<Progress, RuntimeError>),
                CompileError,
            >((execution.output@, execution.result)),
            Err(e) => interpret_spec(source@, budget as nat) == Err::<
                (Seq<u8>, Result<Progress, RuntimeError>),
                CompileError,
            >(e),
        },
{
    match compile(source) {
        Ok(code) => Ok(execute(code.as_slice(), budget)),
        Err(e) => Err(e),
    }
}

} // verus!
