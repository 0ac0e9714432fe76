//! Tree-walking interpreter over a fixed 256-cell byte tape with a single
//! wrapping data pointer, plus the mathematical semantics it is proved
//! against.
//!
//! The semantics is a fuel-indexed evaluator: entering one more loop
//! iteration costs one unit of fuel, and `None` means the fuel ran out
//! before the program finished. A run that finishes is unaffected by extra
//! fuel, so every terminating program has one result, reached under every
//! large enough fuel. The executable interpreter takes the fuel as an
//! explicit iteration budget and returns exactly what the semantics says
//! for that budget: the language accepts programs that never halt, and a
//! verified function must terminate, so the budget is how a caller decides
//! how long to wait.

use vstd::prelude::*;

use crate::token::Command;

verus! {

broadcast use vstd::seq::group_seq_axioms, vstd::std_specs::vec::group_vec_axioms;

/// The mathematical execution state: the 256-cell tape, the data pointer,
/// the input bytes not yet consumed, and the output bytes emitted so far.
#[verifier::ext_equal]
pub struct State {
    pub tape: Seq<u8>,
    pub ptr: u8,
    pub input: Seq<u8>,
    pub output: Seq<u8>,
}

/// A state is well formed when its tape has exactly 256 cells, so the
/// 8-bit pointer can never leave the tape.
pub open spec fn state_wf(s: State) -> bool {
    s.tape.len() == 256
}

/// The fresh state a run starts from: all cells zero, pointer at zero,
/// nothing read, nothing written.
pub open spec fn init_state(input: Seq<u8>) -> State {
    State { tape: Seq::new(256, |i: int| 0u8), ptr: 0u8, input: input, output: Seq::empty() }
}

/// Increment modulo 256.
pub open spec fn wrap_inc(x: u8) -> u8 {
    if x == 255 {
        0
    } else {
        (x + 1) as u8
    }
}

/// Decrement modulo 256.
pub open spec fn wrap_dec(x: u8) -> u8 {
    if x == 0 {
        255
    } else {
        (x - 1) as u8
    }
}

/// One instruction of the semantics. Arithmetic on cells and pointer
/// wraps; output appends the current cell; input overwrites the current
/// cell, or does nothing when the stream is exhausted; a loop repeats its
/// body while the current cell is nonzero, spending one fuel unit per
/// iteration, and `None` reports that the fuel ran out.
pub open spec fn run_cmd(c: Command, s: State, fuel: nat) -> Option<State>
    decreases fuel, 0nat, 0nat,
{
    match c {
        Command::Right => Some(State { ptr: wrap_inc(s.ptr), ..s }),
        Command::Left => Some(State { ptr: wrap_dec(s.ptr), ..s }),
        Command::Inc => Some(
            State { tape: s.tape.update(s.ptr as int, wrap_inc(s.tape[s.ptr as int])), ..s },
        ),
        Command::Dec => Some(
            State { tape: s.tape.update(s.ptr as int, wrap_dec(s.tape[s.ptr as int])), ..s },
        ),
        Command::Out => Some(State { output: s.output.push(s.tape[s.ptr as int]), ..s }),
        Command::In => if s.input.len() == 0 {
            Some(s)
        } else {
            Some(
                State {
                    tape: s.tape.update(s.ptr as int, s.input[0]),
                    input: s.input.drop_first(),
                    ..s
                },
            )
        },
        Command::Loop { commands } => {
            if s.tape[s.ptr as int] == 0 {
                Some(s)
            } else if fuel == 0 {
                None
            } else {
                match run_cmds(commands@, s, (fuel - 1) as nat) {
                    Some(s1) => run_cmd(c, s1, (fuel - 1) as nat),
                    None => None,
                }
            }
        },
    }
}

/// A command sequence runs left to right, threading the state through;
/// the first instruction to run out of fuel aborts the run.
pub open spec fn run_cmds(cmds: Seq<Command>, s: State, fuel: nat) -> Option<State>
    decreases fuel, 1nat, cmds.len(),
{
    if cmds.len() == 0 {
        Some(s)
    } else {
        match run_cmd(cmds[0], s, fuel) {
            Some(s1) => run_cmds(cmds.drop_first(), s1, fuel),
            None => None,
        }
    }
}

/// The output of running a program from the fresh state on the given
/// input, under the given fuel.
pub open spec fn run_output(cmds: Seq<Command>, input: Seq<u8>, fuel: nat) -> Option<Seq<u8>> {
    match run_cmds(cmds, init_state(input), fuel) {
        Some(s) => Some(s.output),
        None => None,
    }
}

/// A finished run stays finished, with the same result, under any larger
/// fuel.
pub proof fn lemma_run_cmd_mono(c: Command, s: State, f1: nat, f2: nat)
    requires
        f1 <= f2,
        run_cmd(c, s, f1) is Some,
    ensures
        run_cmd(c, s, f2) == run_cmd(c, s, f1),
    decreases f1, 0nat, 0nat,
{
    match c {
        Command::Loop { commands } => {
            if s.tape[s.ptr as int] == 0 {
            } else {
                match run_cmds(commands@, s, (f1 - 1) as nat) {
                    Some(s1) => {
                        lemma_run_cmds_mono(commands@, s, (f1 - 1) as nat, (f2 - 1) as nat);
                        lemma_run_cmd_mono(c, s1, (f1 - 1) as nat, (f2 - 1) as nat);
                    },
                    None => {
                        assert(false);
                    },
                }
            }
        },
        _ => {},
    }
}

/// Fuel monotonicity for command sequences.
pub proof fn lemma_run_cmds_mono(cmds: Seq<Command>, s: State, f1: nat, f2: nat)
    requires
        f1 <= f2,
        run_cmds(cmds, s, f1) is Some,
    ensures
        run_cmds(cmds, s, f2) == run_cmds(cmds, s, f1),
    decreases f1, 1nat, cmds.len(),
{
    if cmds.len() == 0 {
    } else {
        match run_cmd(cmds[0], s, f1) {
            Some(s1) => {
                lemma_run_cmd_mono(cmds[0], s, f1, f2);
                lemma_run_cmds_mono(cmds.drop_first(), s1, f1, f2);
            },
            None => {
                assert(false);
            },
        }
    }
}

/// Law: the semantics is deterministic — two finished runs of the same
/// program from the same state agree, whatever fuel each was given.
pub proof fn lemma_run_deterministic(cmds: Seq<Command>, s: State, f1: nat, f2: nat)
    requires
        run_cmds(cmds, s, f1) is Some,
        run_cmds(cmds, s, f2) is Some,
    ensures
        run_cmds(cmds, s, f1) == run_cmds(cmds, s, f2),
{
    if f1 <= f2 {
        lemma_run_cmds_mono(cmds, s, f1, f2);
    } else {
        lemma_run_cmds_mono(cmds, s, f2, f1);
    }
}

/// Law: a program's output on a given finite input stream is unique —
/// any two finished runs produce the same bytes in the same order.
pub proof fn lemma_output_deterministic(cmds: Seq<Command>, input: Seq<u8>, f1: nat, f2: nat)
    requires
        run_output(cmds, input, f1) is Some,
        run_output(cmds, input, f2) is Some,
    ensures
        run_output(cmds, input, f1) == run_output(cmds, input, f2),
{
    lemma_run_deterministic(cmds, init_state(input), f1, f2);
}

/// Running a concatenation runs the first part, then the second.
pub proof fn lemma_run_cmds_append(a: Seq<Command>, b: Seq<Command>, s: State, fuel: nat)
    ensures
        run_cmds(a + b, s, fuel) == (match run_cmds(a, s, fuel) {
            Some(s1) => run_cmds(b, s1, fuel),
            None => None,
        }),
    decreases a.len(),
{
    if a.len() == 0 {
        assert(a + b =~= b);
    } else {
        assert((a + b).len() > 0 && (a + b)[0] == a[0]);
        assert((a + b).drop_first() =~= a.drop_first() + b);
        match run_cmd(a[0], s, fuel) {
            Some(s1) => {
                lemma_run_cmds_append(a.drop_first(), b, s1, fuel);
            },
            None => {},
        }
    }
}

/// Running one more command runs the sequence, then that command.
pub proof fn lemma_run_cmds_snoc(cmds: Seq<Command>, c: Command, s: State, fuel: nat)
    ensures
        run_cmds(cmds.push(c), s, fuel) == (match run_cmds(cmds, s, fuel) {
            Some(s1) => run_cmd(c, s1, fuel),
            None => None,
        }),
{
    let one = seq![c];
    assert(one.drop_first() =~= Seq::<Command>::empty());
    assert(cmds.push(c) =~= cmds + one);
    lemma_run_cmds_append(cmds, one, s, fuel);
    match run_cmds(cmds, s, fuel) {
        Some(s1) => {
            match run_cmd(c, s1, fuel) {
                Some(t) => {
                    assert(run_cmds(one.drop_first(), t, fuel) == Some(t));
                },
                None => {},
            }
        },
        None => {},
    }
}

/// The interpreter's live state: the owned tape and pointer, the input
/// bytes with a cursor marking how far they were consumed, and the output
/// collected so far.
struct Machine {
    tape: Vec<u8>,
    ptr: u8,
    input: Vec<u8>,
    pos: usize,
    output: Vec<u8>,
}

impl Machine {
    /// The mathematical state this machine stands for; the unread part of
    /// the input is the model's input stream.
    spec fn view(self) -> State {
        State {
            tape: self.tape@,
            ptr: self.ptr,
            input: self.input@.skip(self.pos as int),
            output: self.output@,
        }
    }

    spec fn wf(self) -> bool {
        self.tape@.len() == 256 && self.pos <= self.input@.len()
    }
}

/// Executes one instruction under the given iteration budget. Returns
/// whether the budget sufficed; either way the machine ends exactly where
/// the semantics says a run under that fuel ends or gives up.
fn interp_cmd(c: &Command, m: &mut Machine, fuel: u64) -> (ok: bool)
    requires
        old(m).wf(),
    ensures
        final(m).wf(),
        ok ==> run_cmd(*c, old(m).view(), fuel as nat) == Some(final(m).view()),
        !ok ==> run_cmd(*c, old(m).view(), fuel as nat) is None,
    decreases *c,
{
    match c {
        Command::Right => {
            m.ptr = if m.ptr == 255 {
                0
            } else {
                m.ptr + 1
            };
            proof {
                assert(run_cmd(*c, old(m).view(), fuel as nat) == Some(m.view()));
            }
            true
        },
        Command::Left => {
            m.ptr = if m.ptr == 0 {
                255
            } else {
                m.ptr - 1
            };
            proof {
                assert(run_cmd(*c, old(m).view(), fuel as nat) == Some(m.view()));
            }
            true
        },
        Command::Inc => {
            let i = m.ptr as usize;
            let v = m.tape[i];
            let nv = if v == 255 {
                0
            } else {
                v + 1
            };
            m.tape[i] = nv;
            proof {
                assert(run_cmd(*c, old(m).view(), fuel as nat) == Some(m.view()));
            }
            true
        },
        Command::Dec => {
            let i = m.ptr as usize;
            let v = m.tape[i];
            let nv = if v == 0 {
                255
            } else {
                v - 1
            };
            m.tape[i] = nv;
            proof {
                assert(run_cmd(*c, old(m).view(), fuel as nat) == Some(m.view()));
            }
            true
        },
        Command::Out => {
            let i = m.ptr as usize;
            let v = m.tape[i];
            m.output.push(v);
            proof {
                assert(run_cmd(*c, old(m).view(), fuel as nat) == Some(m.view()));
            }
            true
        },
        Command::In => {
            if m.pos < m.input.len() {
                let b = m.input[m.pos];
                let i = m.ptr as usize;
                m.tape[i] = b;
                m.pos = m.pos + 1;
                proof {
                    assert(old(m).view().input[0] == b);
                    assert(m.view().input =~= old(m).view().input.drop_first());
                    assert(run_cmd(*c, old(m).view(), fuel as nat) == Some(m.view()));
                }
            } else {
                proof {
                    assert(old(m).view().input.len() == 0);
                    assert(run_cmd(*c, old(m).view(), fuel as nat) == Some(m.view()));
                }
            }
            true
        },
        Command::Loop { commands } => {
            let mut f = fuel;
            while m.tape[m.ptr as usize] != 0
                invariant
                    m.wf(),
                    *c == (Command::Loop { commands: *commands }),
                    run_cmd(*c, old(m).view(), fuel as nat) == run_cmd(*c, m.view(), f as nat),
                decreases f,
            {
                if f == 0 {
                    proof {
                        assert(run_cmd(*c, m.view(), 0) is None);
                    }
                    return false;
                }
                f = f - 1;
                let ghost prev = m.view();
                proof {
                    assert(decreases_to!(*c => *commands));
                    assert(decreases_to!(*commands => commands@));
                }
                let ok = interp_cmds(commands.as_slice(), m, f);
                proof {
                    assert(run_cmd(*c, prev, (f as nat + 1) as nat) == (match run_cmds(
                        commands@,
                        prev,
                        f as nat,
                    ) {
                        Some(s1) => run_cmd(*c, s1, f as nat),
                        None => None,
                    }));
                }
                if !ok {
                    return false;
                }
            }
            proof {
                assert(run_cmd(*c, m.view(), f as nat) == Some(m.view()));
            }
            true
        },
    }
}

/// Executes a command sequence in order against the machine under the
/// given iteration budget, stopping early when the budget runs out.
fn interp_cmds(commands: &[Command], m: &mut Machine, fuel: u64) -> (ok: bool)
    requires
        old(m).wf(),
    ensures
        final(m).wf(),
        ok ==> run_cmds(commands@, old(m).view(), fuel as nat) == Some(final(m).view()),
        !ok ==> run_cmds(commands@, old(m).view(), fuel as nat) is None,
    decreases commands@,
{
    let n = commands.len();
    let mut i: usize = 0;
    proof {
        assert(commands@.subrange(0, 0) =~= Seq::<Command>::empty());
    }
    while i < n
        invariant
            n == commands@.len(),
            i <= n,
            m.wf(),
            run_cmds(commands@.subrange(0, i as int), old(m).view(), fuel as nat) == Some(
                m.view(),
            ),
        decreases n - i,
    {
        let ghost prev = m.view();
        let ok = interp_cmd(&commands[i], m, fuel);
        proof {
            assert(commands@.subrange(0, i + 1 as int) =~= commands@.subrange(0, i as int).push(
                commands@[i as int],
            ));
            lemma_run_cmds_snoc(
                commands@.subrange(0, i as int),
                commands@[i as int],
                old(m).view(),
                fuel as nat,
            );
        }
        if !ok {
            proof {
                assert(commands@ =~= commands@.subrange(0, i + 1 as int) + commands@.subrange(
                    i + 1 as int,
                    n as int,
                ));
                lemma_run_cmds_append(
                    commands@.subrange(0, i + 1 as int),
                    commands@.subrange(i + 1 as int, n as int),
                    old(m).view(),
                    fuel as nat,
                );
            }
            return false;
        }
        i = i + 1;
    }
    proof {
        assert(commands@.subrange(0, n as int) =~= commands@);
    }
    true
}

/// Runs an instruction tree from the fresh state — 256 zero cells,
/// pointer at zero — consuming bytes from `input`, with `fuel` as the
/// loop-iteration budget. Returns the bytes the program wrote, exactly as
/// the semantics assigns them under that fuel, or `None` when the budget
/// ran out first.
pub fn run_interpreter(commands: &[Command], input: &[u8], fuel: u64) -> (output: Option<Vec<u8>>)
    ensures
        match output {
            Some(out) => run_output(commands@, input@, fuel as nat) == Some(out@),
            None => run_output(commands@, input@, fuel as nat) is None,
        },
{
    let mut tape: Vec<u8> = Vec::new();
    let mut k: usize = 0;
    while k < 256
        invariant
            k <= 256,
            tape@.len() == k,
            forall|j: int| 0 <= j < k ==> tape@[j] == 0u8,
        decreases 256 - k,
    {
        tape.push(0u8);
        k = k + 1;
    }
    let mut inp: Vec<u8> = Vec::new();
    let mut r: usize = 0;
    while r < input.len()
        invariant
            r <= input@.len(),
            inp@ == input@.subrange(0, r as int),
        decreases input@.len() - r,
    {
        proof {
            assert(input@.subrange(0, r + 1 as int) =~= input@.subrange(0, r as int).push(
                input@[r as int],
            ));
        }
        inp.push(input[r]);
        r = r + 1;
    }
    proof {
        assert(input@.subrange(0, input@.len() as int) =~= input@);
    }
    let mut m = Machine { tape: tape, ptr: 0, input: inp, pos: 0, output: Vec::new() };
    proof {
        assert(m.view().tape =~= init_state(input@).tape);
        assert(m.view().input =~= init_state(input@).input);
        assert(m.view().output =~= init_state(input@).output);
        assert(m.view() == init_state(input@));
    }
    let ok = interp_cmds(commands, &mut m, fuel);
    if ok {
        Some(m.output)
    } else {
        None
    }
}

} // verus!
