//! Direct execution of the intermediate representation: the reference
//! against which the other back ends are held.

use vstd::prelude::*;
use crate::bytecode::Stmt;
use crate::machine::{attend, boot, course, execute, plain, serve, tick, Cpu, Report, Signal, Step, World};

verus! {

/// Runs the statement at the program counter, if there is one. A byte to
/// write or a cell to read into is handed to the caller, who resumes by
/// calling again.
pub fn step(code: &[Stmt], data: &mut [u8], cpu: &mut Cpu) -> (signal: Signal)
    ensures
        tick(plain(code@), *old(cpu), old(data)@) == (Step { cpu: *final(cpu), tape: final(data)@, signal }),
{
    if cpu.ip < code.len() {
        execute(code[cpu.ip], code.len(), data, cpu)
    } else {
        Signal::Halt
    }
}

/// Runs a program from its first statement for at most `fuel` steps, reading from `input`.
pub fn run(code: &[Stmt], data: &mut [u8], input: &[u8], fuel: usize) -> (report: Report)
    ensures
        course(plain(code@), boot(old(data)@, input@), fuel as nat) == (
            report.world(final(data)@, input@),
            report.end,
        ),
{
    let mut cpu = Cpu { ip: 0, dp: 0 };
    let mut output: Vec<u8> = Vec::new();
    let mut consumed: usize = 0;
    let mut starved = false;
    let mut left = fuel;
    assert(input@.skip(0) =~= input@);
    while left > 0
        invariant
            consumed <= input@.len(),
            course(plain(code@), boot(old(data)@, input@), fuel as nat) == course(
                plain(code@),
                World { cpu, tape: data@, input: input@.skip(consumed as int), output: output@, starved },
                left as nat,
            ),
        decreases left,
    {
        let ghost before = World { cpu, tape: data@, input: input@.skip(consumed as int), output: output@, starved };
        let signal = step(code, data, &mut cpu);
        match signal {
            Signal::Halt | Signal::OutOfTape | Signal::BadWord => {
                return Report { end: signal, cpu, output, consumed, starved };
            },
            _ => {},
        }
        let ghost stepped = Step { cpu, tape: data@, signal };
        attend(signal, data, input, &mut output, &mut consumed, &mut starved);
        proof {
            let after = World { cpu, tape: data@, input: input@.skip(consumed as int), output: output@, starved };
            assert(serve(before, stepped) == after);
        }
        left = left - 1;
    }
    let end = if cpu.ip < code.len() { Signal::Next } else { Signal::Halt };
    Report { end, cpu, output, consumed, starved }
}

} // verus!
