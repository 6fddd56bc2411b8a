//! From source text to what a back end runs.

use vstd::prelude::*;
use crate::aot::{plan, plans, Emit};
use crate::bytecode::{assemble, optimize, optimized, packs, Stmt};
use crate::link::link;
use crate::nesting::balanced;
use crate::parse::{left_open, lex, marks, parse, stray_close, ParseError, Unmatched};

verus! {

/// The back end that is to run a program.
#[derive(Debug, Clone, Copy, PartialEq, Eq, Structural)]
pub enum Backend {
    /// The portable interpreter of packed words.
    Rs,
    /// The threaded interpreter of packed words, emitted as machine code.
    Asm,
    /// Machine code emitted for the program itself.
    AOT,
}

/// What a back end is handed.
#[derive(Debug)]
pub enum Job {
    /// Packed words for the portable interpreter.
    Interpret(Vec<i32>),
    /// Packed words for the threaded interpreter.
    Thread(Vec<i32>),
    /// The plan of the machine code to emit.
    Native(Vec<Emit>),
}

/// A program made ready for its back end.
#[derive(Debug)]
pub struct Build {
    pub job: Job,
    /// The optimization level asked for is none that exists; the program was
    /// built without optimization.
    pub level_refused: bool,
}

/// The statements that are built from a source text at an optimization
/// level: level 1 optimizes, every other level does not.
pub open spec fn statements(src: Seq<char>, opt_level: usize) -> Seq<Stmt> {
    if opt_level == 1 {
        optimized(link(lex(src)))
    } else {
        link(lex(src))
    }
}

/// Reads a source text, optimizes it at level 1, and makes it ready for the
/// back end. Levels other than 0 and 1 do not exist: the program is then
/// built as at level 0, and the build says so.
pub fn build(src: &str, opt_level: usize, backend: Backend) -> (r: Result<Build, ParseError>)
    ensures
        r is Ok <==> balanced(marks(src@)),
        match r {
            Ok(b) => {
                &&& b.level_refused == (opt_level > 1)
                &&& match b.job {
                    Job::Interpret(words) => backend == Backend::Rs && packs(words@, statements(src@, opt_level)),
                    Job::Thread(words) => backend == Backend::Asm && packs(words@, statements(src@, opt_level)),
                    Job::Native(entries) => backend == Backend::AOT && plans(
                        entries@,
                        statements(src@, opt_level),
                    ),
                }
            },
            Err(e) => match e.kind {
                Unmatched::Close => stray_close(src@, e.index as int),
                Unmatched::Open => left_open(src@) && e.index == src@.len() - 1,
            },
        },
{
    let parsed = parse(src);
    let mut ir = match parsed {
        Ok(ir) => ir,
        Err(e) => {
            return Err(e);
        },
    };
    if opt_level == 1 {
        ir = optimize(ir);
    }
    let job = match backend {
        Backend::Rs => Job::Interpret(assemble(ir.as_slice())),
        Backend::Asm => Job::Thread(assemble(ir.as_slice())),
        Backend::AOT => Job::Native(plan(ir.as_slice())),
    };
    Ok(Build { job, level_refused: opt_level > 1 })
}

} // verus!
