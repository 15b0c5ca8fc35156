//! The stack machine. Each word's score selects an instruction; the machine
//! runs over an eight-bit operand stack with wrapping arithmetic. The run
//! ends at STOP or when the program counter walks off either end of the
//! program; popping an empty stack is a stack underflow and aborts the run.
use vstd::prelude::*;

use crate::score::Word;

verus! {

/// The instruction a score selects. Scores five to seventeen are bound to
/// the thirteen named instructions; every other score is a no-op.
#[allow(non_camel_case_types)]
#[derive(Debug, Clone, Copy, PartialEq, Eq, Structural)]
pub enum Command {
    PUSH,
    DISCARD,
    ADD,
    INPUT,
    OUTPUT,
    SUBTRACT,
    SWAP,
    DUP,
    SKIP_AHEAD_ZERO,
    SKIP_AHEAD_NONZERO,
    SKIP_BACK_ZERO,
    SKIP_BACK_NONZERO,
    STOP,
    NOP,
}

pub open spec fn action_spec(act: u8) -> Command {
    if act == 5 {
        Command::PUSH
    } else if act == 6 {
        Command::DISCARD
    } else if act == 7 {
        Command::ADD
    } else if act == 8 {
        Command::INPUT
    } else if act == 9 {
        Command::OUTPUT
    } else if act == 10 {
        Command::SUBTRACT
    } else if act == 11 {
        Command::SWAP
    } else if act == 12 {
        Command::DUP
    } else if act == 13 {
        Command::SKIP_AHEAD_ZERO
    } else if act == 14 {
        Command::SKIP_AHEAD_NONZERO
    } else if act == 15 {
        Command::SKIP_BACK_ZERO
    } else if act == 16 {
        Command::SKIP_BACK_NONZERO
    } else if act == 17 {
        Command::STOP
    } else {
        Command::NOP
    }
}

/// The instruction bound to a score. Total: unmapped scores are no-ops.
pub fn action(act: u8) -> (r: Command)
    ensures
        r == action_spec(act),
{
    match act {
        5 => Command::PUSH,
        6 => Command::DISCARD,
        7 => Command::ADD,
        8 => Command::INPUT,
        9 => Command::OUTPUT,
        10 => Command::SUBTRACT,
        11 => Command::SWAP,
        12 => Command::DUP,
        13 => Command::SKIP_AHEAD_ZERO,
        14 => Command::SKIP_AHEAD_NONZERO,
        15 => Command::SKIP_BACK_ZERO,
        16 => Command::SKIP_BACK_NONZERO,
        17 => Command::STOP,
        _ => Command::NOP,
    }
}

/// The scores of a program's words, which alone drive the machine.
pub open spec fn scores_of(ws: Seq<Word>) -> Seq<u8> {
    ws.map_values(|w: Word| w.score)
}

/// The machine after some number of steps: still running with the given
/// state, halted, or aborted by a stack underflow.
pub enum Status {
    Running { stack: Seq<u8>, pc: int, out: Seq<u8> },
    Halted { out: Seq<u8> },
    Underflow { out: Seq<u8> },
}

pub open spec fn wrap_add(x: u8, y: u8) -> u8 {
    ((x as int + y as int) % 256) as u8
}

pub open spec fn wrap_sub(x: u8, y: u8) -> u8 {
    ((x as int - y as int) % 256) as u8
}

/// The machine's state after `fuel` steps from the given state. One
/// recursion step is one executed instruction. The input instruction pushes
/// the fixed placeholder byte 97, there being no interactive source. A
/// branch or operand fetch that leaves the program, on either side, halts
/// the run, as does advancing past the final word.
pub open spec fn run_steps(prog: Seq<u8>, stack: Seq<u8>, pc: int, out: Seq<u8>, fuel: nat) -> Status
    decreases fuel,
{
    let n = prog.len() as int;
    if fuel == 0 {
        Status::Running { stack, pc, out }
    } else if pc < 0 || pc >= n {
        Status::Halted { out }
    } else {
        match action_spec(prog[pc]) {
            Command::PUSH => {
                if pc + 1 >= n {
                    Status::Halted { out }
                } else {
                    run_steps(prog, stack.push(prog[pc + 1]), pc + 2, out, (fuel - 1) as nat)
                }
            },
            Command::DISCARD => {
                if stack.len() == 0 {
                    Status::Underflow { out }
                } else {
                    run_steps(prog, stack.drop_last(), pc + 1, out, (fuel - 1) as nat)
                }
            },
            Command::ADD => {
                if stack.len() < 2 {
                    Status::Underflow { out }
                } else {
                    let x = stack.last();
                    let y = stack.drop_last().last();
                    run_steps(
                        prog,
                        stack.drop_last().drop_last().push(wrap_add(x, y)),
                        pc + 1,
                        out,
                        (fuel - 1) as nat,
                    )
                }
            },
            Command::INPUT => run_steps(prog, stack.push(97), pc + 1, out, (fuel - 1) as nat),
            Command::OUTPUT => {
                if stack.len() == 0 {
                    Status::Underflow { out }
                } else {
                    run_steps(
                        prog,
                        stack.drop_last(),
                        pc + 1,
                        out.push(stack.last()),
                        (fuel - 1) as nat,
                    )
                }
            },
            Command::SUBTRACT => {
                if stack.len() < 2 {
                    Status::Underflow { out }
                } else {
                    let x = stack.last();
                    let y = stack.drop_last().last();
                    run_steps(
                        prog,
                        stack.drop_last().drop_last().push(wrap_sub(y, x)),
                        pc + 1,
                        out,
                        (fuel - 1) as nat,
                    )
                }
            },
            Command::SWAP => {
                if stack.len() < 2 {
                    Status::Underflow { out }
                } else {
                    let x = stack.last();
                    let y = stack.drop_last().last();
                    run_steps(
                        prog,
                        stack.drop_last().drop_last().push(x).push(y),
                        pc + 1,
                        out,
                        (fuel - 1) as nat,
                    )
                }
            },
            Command::DUP => {
                if stack.len() == 0 {
                    Status::Underflow { out }
                } else {
                    run_steps(prog, stack.push(stack.last()), pc + 1, out, (fuel - 1) as nat)
                }
            },
            Command::SKIP_AHEAD_ZERO => {
                if stack.len() == 0 {
                    Status::Underflow { out }
                } else if stack.last() == 0 {
                    if pc + 1 >= n {
                        Status::Halted { out }
                    } else {
                        run_steps(
                            prog,
                            stack.drop_last(),
                            pc + 2 + prog[pc + 1],
                            out,
                            (fuel - 1) as nat,
                        )
                    }
                } else {
                    run_steps(prog, stack.drop_last(), pc + 2, out, (fuel - 1) as nat)
                }
            },
            Command::SKIP_AHEAD_NONZERO => {
                if stack.len() == 0 {
                    Status::Underflow { out }
                } else if stack.last() != 0 {
                    if pc + 1 >= n {
                        Status::Halted { out }
                    } else {
                        run_steps(
                            prog,
                            stack.drop_last(),
                            pc + 2 + prog[pc + 1],
                            out,
                            (fuel - 1) as nat,
                        )
                    }
                } else {
                    run_steps(prog, stack.drop_last(), pc + 2, out, (fuel - 1) as nat)
                }
            },
            Command::SKIP_BACK_ZERO => {
                if stack.len() == 0 {
                    Status::Underflow { out }
                } else if stack.last() == 0 {
                    if pc + 1 >= n {
                        Status::Halted { out }
                    } else if pc - prog[pc + 1] < 0 {
                        Status::Halted { out }
                    } else {
                        run_steps(
                            prog,
                            stack.drop_last(),
                            pc - prog[pc + 1] + 1,
                            out,
                            (fuel - 1) as nat,
                        )
                    }
                } else {
                    run_steps(prog, stack.drop_last(), pc + 1, out, (fuel - 1) as nat)
                }
            },
            Command::SKIP_BACK_NONZERO => {
                if stack.len() == 0 {
                    Status::Underflow { out }
                } else if stack.last() != 0 {
                    if pc + 1 >= n {
                        Status::Halted { out }
                    } else if pc - prog[pc + 1] < 0 {
                        Status::Halted { out }
                    } else {
                        run_steps(
                            prog,
                            stack.drop_last(),
                            pc - prog[pc + 1] + 1,
                            out,
                            (fuel - 1) as nat,
                        )
                    }
                } else {
                    run_steps(prog, stack.drop_last(), pc + 1, out, (fuel - 1) as nat)
                }
            },
            Command::STOP => Status::Halted { out },
            Command::NOP => run_steps(prog, stack, pc + 1, out, (fuel - 1) as nat),
        }
    }
}

/// How a bounded run of the machine ended, with the bytes it emitted.
#[derive(Debug)]
pub enum RunOutcome {
    Halted { output: Vec<u8> },
    StackUnderflow { output: Vec<u8> },
    OutOfFuel { output: Vec<u8> },
}

/// Runs the program for at most `fuel` instructions, returning the emitted
/// bytes and how the run ended.
pub fn run_beatnik(words: &[Word], fuel: u64) -> (r: RunOutcome)
    ensures
        ({
            let result = run_steps(scores_of(words@), Seq::empty(), 0, Seq::empty(), fuel as nat);
            match r {
                RunOutcome::Halted { output } => result == (Status::Halted { out: output@ }),
                RunOutcome::StackUnderflow { output } => result == (Status::Underflow {
                    out: output@,
                }),
                RunOutcome::OutOfFuel { output } => result matches Status::Running {
                    stack,
                    pc,
                    out,
                } && out == output@,
            }
        }),
{
    let ghost prog = scores_of(words@);
    let n = words.len();
    let mut stack: Vec<u8> = Vec::new();
    let mut out: Vec<u8> = Vec::new();
    let mut pc: usize = 0;
    let mut steps: u64 = fuel;
    let mut pct: Ghost<int> = Ghost(0);
    loop
        invariant
            n == words@.len(),
            prog == scores_of(words@),
            pc <= n,
            (pc < n && pct@ == pc as int) || (pc == n && pct@ >= n),
            steps <= fuel,
            run_steps(prog, Seq::empty(), 0, Seq::empty(), fuel as nat) == run_steps(
                prog,
                stack@,
                pct@,
                out@,
                steps as nat,
            ),
        decreases steps,
    {
        if steps == 0 {
            return RunOutcome::OutOfFuel { output: out };
        }
        if pc >= n {
            return RunOutcome::Halted { output: out };
        }
        let sc = words[pc].score;
        let ghost stack0 = stack@;
        let ghost out0 = out@;
        let ghost pct0 = pct@;
        let ghost steps0 = steps as nat;
        proof {
            assert(prog[pc as int] == sc);
        }
        match action(sc) {
            Command::PUSH => {
                if pc + 1 >= n {
                    return RunOutcome::Halted { output: out };
                }
                stack.push(words[pc + 1].score);
                proof {
                    assert(prog[pc as int + 1] == words@[pc as int + 1].score);
                }
                pc = pc + 2;
                pct = Ghost(pct@ + 2);
                proof {
                    assert(run_steps(prog, stack0, pct0, out0, steps0) == run_steps(
                        prog,
                        stack@,
                        pct@,
                        out@,
                        (steps0 - 1) as nat,
                    ));
                }
            },
            Command::DISCARD => {
                if stack.len() == 0 {
                    return RunOutcome::StackUnderflow { output: out };
                }
                let _ = stack.pop();
                pc = pc + 1;
                pct = Ghost(pct@ + 1);
                proof {
                    assert(run_steps(prog, stack0, pct0, out0, steps0) == run_steps(
                        prog,
                        stack@,
                        pct@,
                        out@,
                        (steps0 - 1) as nat,
                    ));
                }
            },
            Command::ADD => {
                if stack.len() < 2 {
                    return RunOutcome::StackUnderflow { output: out };
                }
                let x = stack.pop().unwrap();
                let y = stack.pop().unwrap();
                let sum: u16 = (x as u16) + (y as u16);
                stack.push((sum % 256) as u8);
                pc = pc + 1;
                pct = Ghost(pct@ + 1);
                proof {
                    assert(run_steps(prog, stack0, pct0, out0, steps0) == run_steps(
                        prog,
                        stack@,
                        pct@,
                        out@,
                        (steps0 - 1) as nat,
                    ));
                }
            },
            Command::INPUT => {
                stack.push(97);
                pc = pc + 1;
                pct = Ghost(pct@ + 1);
                proof {
                    assert(run_steps(prog, stack0, pct0, out0, steps0) == run_steps(
                        prog,
                        stack@,
                        pct@,
                        out@,
                        (steps0 - 1) as nat,
                    ));
                }
            },
            Command::OUTPUT => {
                if stack.len() == 0 {
                    return RunOutcome::StackUnderflow { output: out };
                }
                let x = stack.pop().unwrap();
                out.push(x);
                pc = pc + 1;
                pct = Ghost(pct@ + 1);
                proof {
                    assert(run_steps(prog, stack0, pct0, out0, steps0) == run_steps(
                        prog,
                        stack@,
                        pct@,
                        out@,
                        (steps0 - 1) as nat,
                    ));
                }
            },
            Command::SUBTRACT => {
                if stack.len() < 2 {
                    return RunOutcome::StackUnderflow { output: out };
                }
                let x = stack.pop().unwrap();
                let y = stack.pop().unwrap();
                let diff: u16 = ((y as u16) + 256) - (x as u16);
                stack.push((diff % 256) as u8);
                proof {
                    vstd::arithmetic::div_mod::lemma_mod_add_multiples_vanish(
                        y as int - x as int,
                        256,
                    );
                }
                pc = pc + 1;
                pct = Ghost(pct@ + 1);
                proof {
                    assert(run_steps(prog, stack0, pct0, out0, steps0) == run_steps(
                        prog,
                        stack@,
                        pct@,
                        out@,
                        (steps0 - 1) as nat,
                    ));
                }
            },
            Command::SWAP => {
                if stack.len() < 2 {
                    return RunOutcome::StackUnderflow { output: out };
                }
                let x = stack.pop().unwrap();
                let y = stack.pop().unwrap();
                stack.push(x);
                stack.push(y);
                pc = pc + 1;
                pct = Ghost(pct@ + 1);
                proof {
                    assert(run_steps(prog, stack0, pct0, out0, steps0) == run_steps(
                        prog,
                        stack@,
                        pct@,
                        out@,
                        (steps0 - 1) as nat,
                    ));
                }
            },
            Command::DUP => {
                if stack.len() == 0 {
                    return RunOutcome::StackUnderflow { output: out };
                }
                let x = stack.pop().unwrap();
                stack.push(x);
                stack.push(x);
                pc = pc + 1;
                pct = Ghost(pct@ + 1);
                proof {
                    assert(stack@ =~= stack0.push(stack0.last()));
                    assert(run_steps(prog, stack0, pct0, out0, steps0) == run_steps(
                        prog,
                        stack@,
                        pct@,
                        out@,
                        (steps0 - 1) as nat,
                    ));
                }
            },
            Command::SKIP_AHEAD_ZERO => {
                if stack.len() == 0 {
                    return RunOutcome::StackUnderflow { output: out };
                }
                let check = stack.pop().unwrap();
                if check == 0 {
                    if pc + 1 >= n {
                        return RunOutcome::Halted { output: out };
                    }
                    let s = words[pc + 1].score as usize;
                    let a = pc + 1;
                    pct = Ghost(pct@ + 2 + words@[pc as int + 1].score as int);
                    if s >= n - a {
                        pc = n;
                    } else {
                        pc = a + s + 1;
                    }
                    proof {
                        assert(run_steps(prog, stack0, pct0, out0, steps0) == run_steps(
                            prog,
                            stack@,
                            pct@,
                            out@,
                            (steps0 - 1) as nat,
                        ));
                    }
                } else {
                    let a = pc + 1;
                    pct = Ghost(pct@ + 2);
                    if a >= n {
                        pc = n;
                    } else {
                        pc = a + 1;
                    }
                    proof {
                        assert(run_steps(prog, stack0, pct0, out0, steps0) == run_steps(
                            prog,
                            stack@,
                            pct@,
                            out@,
                            (steps0 - 1) as nat,
                        ));
                    }
                }
            },
            Command::SKIP_AHEAD_NONZERO => {
                if stack.len() == 0 {
                    return RunOutcome::StackUnderflow { output: out };
                }
                let check = stack.pop().unwrap();
                if check != 0 {
                    if pc + 1 >= n {
                        return RunOutcome::Halted { output: out };
                    }
                    let s = words[pc + 1].score as usize;
                    let a = pc + 1;
                    pct = Ghost(pct@ + 2 + words@[pc as int + 1].score as int);
                    if s >= n - a {
                        pc = n;
                    } else {
                        pc = a + s + 1;
                    }
                    proof {
                        assert(run_steps(prog, stack0, pct0, out0, steps0) == run_steps(
                            prog,
                            stack@,
                            pct@,
                            out@,
                            (steps0 - 1) as nat,
                        ));
                    }
                } else {
                    let a = pc + 1;
                    pct = Ghost(pct@ + 2);
                    if a >= n {
                        pc = n;
                    } else {
                        pc = a + 1;
                    }
                    proof {
                        assert(run_steps(prog, stack0, pct0, out0, steps0) == run_steps(
                            prog,
                            stack@,
                            pct@,
                            out@,
                            (steps0 - 1) as nat,
                        ));
                    }
                }
            },
            Command::SKIP_BACK_ZERO => {
                if stack.len() == 0 {
                    return RunOutcome::StackUnderflow { output: out };
                }
                let check = stack.pop().unwrap();
                if check == 0 {
                    if pc + 1 >= n {
                        return RunOutcome::Halted { output: out };
                    }
                    let s = words[pc + 1].score as usize;
                    if s > pc {
                        return RunOutcome::Halted { output: out };
                    }
                    pc = pc - s + 1;
                    pct = Ghost(pc as int);
                    proof {
                        assert(run_steps(prog, stack0, pct0, out0, steps0) == run_steps(
                            prog,
                            stack@,
                            pct@,
                            out@,
                            (steps0 - 1) as nat,
                        ));
                    }
                } else {
                    pc = pc + 1;
                    pct = Ghost(pct@ + 1);
                    proof {
                        assert(run_steps(prog, stack0, pct0, out0, steps0) == run_steps(
                            prog,
                            stack@,
                            pct@,
                            out@,
                            (steps0 - 1) as nat,
                        ));
                    }
                }
            },
            Command::SKIP_BACK_NONZERO => {
                if stack.len() == 0 {
                    return RunOutcome::StackUnderflow { output: out };
                }
                let check = stack.pop().unwrap();
                if check != 0 {
                    if pc + 1 >= n {
                        return RunOutcome::Halted { output: out };
                    }
                    let s = words[pc + 1].score as usize;
                    if s > pc {
                        return RunOutcome::Halted { output: out };
                    }
                    pc = pc - s + 1;
                    pct = Ghost(pc as int);
                    proof {
                        assert(run_steps(prog, stack0, pct0, out0, steps0) == run_steps(
                            prog,
                            stack@,
                            pct@,
                            out@,
                            (steps0 - 1) as nat,
                        ));
                    }
                } else {
                    pc = pc + 1;
                    pct = Ghost(pct@ + 1);
                    proof {
                        assert(run_steps(prog, stack0, pct0, out0, steps0) == run_steps(
                            prog,
                            stack@,
                            pct@,
                            out@,
                            (steps0 - 1) as nat,
                        ));
                    }
                }
            },
            Command::STOP => {
                return RunOutcome::Halted { output: out };
            },
            Command::NOP => {
                pc = pc + 1;
                pct = Ghost(pct@ + 1);
                proof {
                    assert(run_steps(prog, stack0, pct0, out0, steps0) == run_steps(
                        prog,
                        stack@,
                        pct@,
                        out@,
                        (steps0 - 1) as nat,
                    ));
                }
            },
        }
        steps = steps - 1;
    }
}

/// Once the machine has halted or underflowed, more fuel changes nothing:
/// the outcome of a bounded run is stable in the bound.
pub proof fn lemma_run_steps_stable(
    prog: Seq<u8>,
    stack: Seq<u8>,
    pc: int,
    out: Seq<u8>,
    f1: nat,
    f2: nat,
)
    requires
        f1 <= f2,
        !(run_steps(prog, stack, pc, out, f1) is Running),
    ensures
        run_steps(prog, stack, pc, out, f2) == run_steps(prog, stack, pc, out, f1),
    decreases f1,
{
    let n = prog.len() as int;
    if f1 == 0 {
        assert(run_steps(prog, stack, pc, out, f1) is Running);
    } else if pc < 0 || pc >= n {
    } else {
        match action_spec(prog[pc]) {
            Command::PUSH => {
                if pc + 1 < n {
                    lemma_run_steps_stable(
                        prog,
                        stack.push(prog[pc + 1]),
                        pc + 2,
                        out,
                        (f1 - 1) as nat,
                        (f2 - 1) as nat,
                    );
                }
            },
            Command::DISCARD => {
                if stack.len() > 0 {
                    lemma_run_steps_stable(
                        prog,
                        stack.drop_last(),
                        pc + 1,
                        out,
                        (f1 - 1) as nat,
                        (f2 - 1) as nat,
                    );
                }
            },
            Command::ADD => {
                if stack.len() >= 2 {
                    let x = stack.last();
                    let y = stack.drop_last().last();
                    lemma_run_steps_stable(
                        prog,
                        stack.drop_last().drop_last().push(wrap_add(x, y)),
                        pc + 1,
                        out,
                        (f1 - 1) as nat,
                        (f2 - 1) as nat,
                    );
                }
            },
            Command::INPUT => {
                lemma_run_steps_stable(
                    prog,
                    stack.push(97),
                    pc + 1,
                    out,
                    (f1 - 1) as nat,
                    (f2 - 1) as nat,
                );
            },
            Command::OUTPUT => {
                if stack.len() > 0 {
                    lemma_run_steps_stable(
                        prog,
                        stack.drop_last(),
                        pc + 1,
                        out.push(stack.last()),
                        (f1 - 1) as nat,
                        (f2 - 1) as nat,
                    );
                }
            },
            Command::SUBTRACT => {
                if stack.len() >= 2 {
                    let x = stack.last();
                    let y = stack.drop_last().last();
                    lemma_run_steps_stable(
                        prog,
                        stack.drop_last().drop_last().push(wrap_sub(y, x)),
                        pc + 1,
                        out,
                        (f1 - 1) as nat,
                        (f2 - 1) as nat,
                    );
                }
            },
            Command::SWAP => {
                if stack.len() >= 2 {
                    let x = stack.last();
                    let y = stack.drop_last().last();
                    lemma_run_steps_stable(
                        prog,
                        stack.drop_last().drop_last().push(x).push(y),
                        pc + 1,
                        out,
                        (f1 - 1) as nat,
                        (f2 - 1) as nat,
                    );
                }
            },
            Command::DUP => {
                if stack.len() > 0 {
                    lemma_run_steps_stable(
                        prog,
                        stack.push(stack.last()),
                        pc + 1,
                        out,
                        (f1 - 1) as nat,
                        (f2 - 1) as nat,
                    );
                }
            },
            Command::SKIP_AHEAD_ZERO => {
                if stack.len() > 0 {
                    if stack.last() == 0 {
                        if pc + 1 < n {
                            lemma_run_steps_stable(
                                prog,
                                stack.drop_last(),
                                pc + 2 + prog[pc + 1],
                                out,
                                (f1 - 1) as nat,
                                (f2 - 1) as nat,
                            );
                        }
                    } else {
                        lemma_run_steps_stable(
                            prog,
                            stack.drop_last(),
                            pc + 2,
                            out,
                            (f1 - 1) as nat,
                            (f2 - 1) as nat,
                        );
                    }
                }
            },
            Command::SKIP_AHEAD_NONZERO => {
                if stack.len() > 0 {
                    if stack.last() != 0 {
                        if pc + 1 < n {
                            lemma_run_steps_stable(
                                prog,
                                stack.drop_last(),
                                pc + 2 + prog[pc + 1],
                                out,
                                (f1 - 1) as nat,
                                (f2 - 1) as nat,
                            );
                        }
                    } else {
                        lemma_run_steps_stable(
                            prog,
                            stack.drop_last(),
                            pc + 2,
                            out,
                            (f1 - 1) as nat,
                            (f2 - 1) as nat,
                        );
                    }
                }
            },
            Command::SKIP_BACK_ZERO => {
                if stack.len() > 0 {
                    if stack.last() == 0 {
                        if pc + 1 < n && pc - prog[pc + 1] >= 0 {
                            lemma_run_steps_stable(
                                prog,
                                stack.drop_last(),
                                pc - prog[pc + 1] + 1,
                                out,
                                (f1 - 1) as nat,
                                (f2 - 1) as nat,
                            );
                        }
                    } else {
                        lemma_run_steps_stable(
                            prog,
                            stack.drop_last(),
                            pc + 1,
                            out,
                            (f1 - 1) as nat,
                            (f2 - 1) as nat,
                        );
                    }
                }
            },
            Command::SKIP_BACK_NONZERO => {
                if stack.len() > 0 {
                    if stack.last() != 0 {
                        if pc + 1 < n && pc - prog[pc + 1] >= 0 {
                            lemma_run_steps_stable(
                                prog,
                                stack.drop_last(),
                                pc - prog[pc + 1] + 1,
                                out,
                                (f1 - 1) as nat,
                                (f2 - 1) as nat,
                            );
                        }
                    } else {
                        lemma_run_steps_stable(
                            prog,
                            stack.drop_last(),
                            pc + 1,
                            out,
                            (f1 - 1) as nat,
                            (f2 - 1) as nat,
                        );
                    }
                }
            },
            Command::STOP => {
            },
            Command::NOP => {
                lemma_run_steps_stable(prog, stack, pc + 1, out, (f1 - 1) as nat, (f2 - 1) as nat);
            },
        }
    }
}

} // verus!
