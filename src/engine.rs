use vstd::prelude::*;
use crate::error::BfError;
use crate::token::Token;
use crate::lexer::{lex, lex_spec, lemma_lex_units};
use crate::fold::{fold, fold_spec};
use crate::resolve::{resolve, resolved, resolved_at, balanced, closes_at, opens_at};

verus! {

/// What a step asks of the machine's surroundings.
#[derive(Debug, Clone, Copy, PartialEq, Eq, Structural)]
pub enum Event {
    /// The step was taken; nothing to do.
    Continue,
    /// The step was taken and wrote this byte to the output.
    Emit(u8),
    /// The current instruction reads a byte: hand it over with `resume_input`.
    NeedInput,
    /// The instruction pointer is past the end: the run is over.
    Halt,
}

/// A machine configuration: instruction pointer, data pointer and tape.
pub struct Conf {
    pub ip: int,
    pub dp: int,
    pub tape: Seq<u8>,
}

/// Every jump target of the program is an index into it.
pub open spec fn targets_in_range(s: Seq<Token>) -> bool {
    forall|i: int|
        0 <= i < s.len() ==> {
            &&& (#[trigger] s[i] matches Token::LoopOpen(t) ==> t < s.len())
            &&& (s[i] matches Token::LoopClose(t) ==> t < s.len())
        }
}

/// The tape after making sure that index `p` exists: unchanged where it does,
/// otherwise extended by zero cells up to and including `p`.
pub open spec fn grow(tape: Seq<u8>, p: int) -> Seq<u8> {
    if p < tape.len() {
        tape
    } else {
        tape + Seq::new((p + 1 - tape.len()) as nat, |_k: int| 0u8)
    }
}

/// `a` plus `n`, modulo 256.
pub open spec fn add_byte(a: u8, n: int) -> u8 {
    ((a + n % 256) % 256) as u8
}

/// `a` minus `n`, modulo 256.
pub open spec fn sub_byte(a: u8, n: int) -> u8 {
    ((a + 256 - n % 256) % 256) as u8
}

/// One step of the machine on program `prog` from configuration `c`: the
/// next configuration and what the step reports. After a taken jump the next
/// instruction is the one just past the bracket's partner.
pub open spec fn exec_step(prog: Seq<Token>, c: Conf) -> (Conf, Result<Event, BfError>) {
    if c.ip >= prog.len() {
        (c, Ok(Event::Halt))
    } else {
        let next = Conf { ip: c.ip + 1, ..c };
        match prog[c.ip] {
            Token::MoveRight(n) => if c.dp + n > usize::MAX {
                (c, Err(BfError::TapeLimit))
            } else {
                (Conf { ip: c.ip + 1, dp: c.dp + n, tape: grow(c.tape, c.dp + n) }, Ok(Event::Continue))
            },
            Token::MoveLeft(n) => if n > c.dp {
                (c, Err(BfError::PointerUnderflow))
            } else {
                (Conf { ip: c.ip + 1, dp: c.dp - n, tape: c.tape }, Ok(Event::Continue))
            },
            Token::Increment(n) => (
                Conf { ip: c.ip + 1, dp: c.dp, tape: c.tape.update(c.dp, add_byte(c.tape[c.dp], n as int)) },
                Ok(Event::Continue),
            ),
            Token::Decrement(n) => (
                Conf { ip: c.ip + 1, dp: c.dp, tape: c.tape.update(c.dp, sub_byte(c.tape[c.dp], n as int)) },
                Ok(Event::Continue),
            ),
            Token::Output => (next, Ok(Event::Emit(c.tape[c.dp]))),
            Token::Input => (c, Ok(Event::NeedInput)),
            Token::LoopOpen(t) => if c.tape[c.dp] == 0 {
                (Conf { ip: t + 1, ..c }, Ok(Event::Continue))
            } else {
                (next, Ok(Event::Continue))
            },
            Token::LoopClose(t) => if c.tape[c.dp] != 0 {
                (Conf { ip: t + 1, ..c }, Ok(Event::Continue))
            } else {
                (next, Ok(Event::Continue))
            },
        }
    }
}

/// The configuration after an `Input` instruction receives `v`; the end of
/// input reads as zero.
pub open spec fn exec_input(c: Conf, v: Option<u8>) -> Conf {
    let b = match v {
        Some(b) => b,
        None => 0u8,
    };
    Conf { ip: c.ip + 1, dp: c.dp, tape: c.tape.update(c.dp, b) }
}

/// Everything needed to run a program: its tape, data pointer, code and
/// instruction pointer.
pub struct State {
    /// Index of the current tape cell (the data pointer).
    pub memptr: usize,
    /// Index of the next instruction (the instruction pointer).
    pub instptr: usize,
    /// The tape.
    pub memory: Vec<u8>,
    /// The resolved program.
    pub inst: Vec<Token>,
    /// Length of the program.
    pub last: usize,
}

impl State {
    /// The machine configuration that the state holds.
    pub open spec fn conf(&self) -> Conf {
        Conf { ip: self.instptr as int, dp: self.memptr as int, tape: self.memory@ }
    }

    /// The data pointer is on the tape, the instruction pointer is at most
    /// one past the program, and every jump target is in the program.
    pub open spec fn wf(&self) -> bool {
        &&& self.memptr < self.memory@.len()
        &&& self.last == self.inst@.len()
        &&& self.instptr <= self.inst@.len()
        &&& targets_in_range(self.inst@)
    }

    /// A machine with no program and a tape of one zero cell.
    pub fn new() -> (r: State)
        ensures
            r.wf(),
            r.inst@.len() == 0,
            r.instptr == 0,
            r.memptr == 0,
            r.memory@ == seq![0u8],
    {
        State { memptr: 0, instptr: 0, memory: vec![0u8], inst: Vec::new(), last: 0 }
    }

    /// A machine at the start of `inst`, with a tape of one zero cell.
    pub fn from_program(inst: Vec<Token>) -> (r: State)
        requires
            targets_in_range(inst@),
        ensures
            r.wf(),
            r.inst@ == inst@,
            r.instptr == 0,
            r.memptr == 0,
            r.memory@ == seq![0u8],
    {
        let mut st = State::new();
        st.last = inst.len();
        st.inst = inst;
        st
    }
}

/// Moves the data pointer `amount` cells right, growing the tape with zero
/// cells so that the new position exists.
pub fn inc_data(state: &mut State, amount: usize)
    requires
        old(state).wf(),
        old(state).memptr + amount <= usize::MAX,
    ensures
        final(state).wf(),
        final(state).memptr == old(state).memptr + amount,
        final(state).memory@ == grow(old(state).memory@, old(state).memptr + amount),
        final(state).memory@.len() == if old(state).memptr + amount < old(state).memory@.len() {
            old(state).memory@.len() as int
        } else {
            old(state).memptr + amount + 1
        },
        forall|k: int| 0 <= k < old(state).memory@.len() ==> final(state).memory@[k] == old(state).memory@[k],
        forall|k: int| old(state).memory@.len() <= k < final(state).memory@.len() ==> final(state).memory@[k] == 0,
        final(state).instptr == old(state).instptr,
        final(state).inst@ == old(state).inst@,
        final(state).last == old(state).last,
{
    let ghost m0 = state.memory@;
    state.memptr = state.memptr + amount;
    if state.memptr >= state.memory.len() {
        let n: usize = state.memptr - state.memory.len() + 1;
        let mut k: usize = 0;
        while k < n
            invariant
                0 <= k <= n,
                n == state.memptr - m0.len() + 1,
                state.memory@ =~= m0 + Seq::new(k as nat, |_k: int| 0u8),
                state.memptr == old(state).memptr + amount,
                state.instptr == old(state).instptr,
                state.inst@ == old(state).inst@,
                state.last == old(state).last,
            decreases n - k,
        {
            state.memory.push(0);
            k += 1;
        }
    }
}

/// Moves the data pointer `amount` cells left; fails with `PointerUnderflow`,
/// leaving the state as it was, where that would pass the first cell.
pub fn dec_data(state: &mut State, amount: usize) -> (r: Result<(), BfError>)
    requires
        old(state).wf(),
    ensures
        final(state).wf(),
        r is Ok <==> amount <= old(state).memptr,
        r matches Err(e) ==> e == BfError::PointerUnderflow && *final(state) == *old(state),
        r is Ok ==> final(state).memptr == old(state).memptr - amount,
        final(state).memory@ == old(state).memory@,
        final(state).instptr == old(state).instptr,
        final(state).inst@ == old(state).inst@,
        final(state).last == old(state).last,
{
    if amount > state.memptr {
        return Err(BfError::PointerUnderflow);
    }
    state.memptr = state.memptr - amount;
    Ok(())
}

/// Adds `amount` to the current cell, wrapping modulo 256.
pub fn incbyte(state: &mut State, amount: u8)
    requires
        old(state).wf(),
    ensures
        final(state).wf(),
        final(state).memory@ == old(state).memory@.update(
            old(state).memptr as int,
            add_byte(old(state).memory@[old(state).memptr as int], amount as int),
        ),
        final(state).memptr == old(state).memptr,
        final(state).instptr == old(state).instptr,
        final(state).inst@ == old(state).inst@,
        final(state).last == old(state).last,
{
    let p = state.memptr;
    let v = state.memory[p].wrapping_add(amount);
    state.memory.set(p, v);
}

/// Subtracts `amount` from the current cell, wrapping modulo 256.
pub fn decbyte(state: &mut State, amount: u8)
    requires
        old(state).wf(),
    ensures
        final(state).wf(),
        final(state).memory@ == old(state).memory@.update(
            old(state).memptr as int,
            sub_byte(old(state).memory@[old(state).memptr as int], amount as int),
        ),
        final(state).memptr == old(state).memptr,
        final(state).instptr == old(state).instptr,
        final(state).inst@ == old(state).inst@,
        final(state).last == old(state).last,
{
    let p = state.memptr;
    let v = state.memory[p].wrapping_sub(amount);
    state.memory.set(p, v);
}

/// Stores a byte read from the input in the current cell; the end of input
/// (`None`) stores zero.
pub fn inbyte(state: &mut State, val: Option<u8>)
    requires
        old(state).wf(),
    ensures
        final(state).wf(),
        final(state).memory@ == old(state).memory@.update(
            old(state).memptr as int,
            match val {
                Some(b) => b,
                None => 0u8,
            },
        ),
        final(state).memptr == old(state).memptr,
        final(state).instptr == old(state).instptr,
        final(state).inst@ == old(state).inst@,
        final(state).last == old(state).last,
{
    let b: u8 = match val {
        Some(b) => b,
        None => 0,
    };
    let p = state.memptr;
    state.memory.set(p, b);
}

/// Completes the `Input` instruction for which `step` reported `NeedInput`:
/// stores the byte read (zero at the end of input) and moves on to the next
/// instruction.
pub fn resume_input(state: &mut State, val: Option<u8>)
    requires
        old(state).wf(),
        old(state).instptr < old(state).inst@.len(),
        old(state).inst@[old(state).instptr as int] is Input,
    ensures
        final(state).wf(),
        final(state).conf() == exec_input(old(state).conf(), val),
        final(state).inst@ == old(state).inst@,
        final(state).last == old(state).last,
{
    inbyte(state, val);
    state.instptr = state.instptr + 1;
}

/// Sets the instruction pointer for a taken forward jump.
pub fn jump_forward(state: &mut State, pos: usize)
    requires
        old(state).wf(),
        pos <= old(state).inst@.len(),
    ensures
        final(state).wf(),
        final(state).instptr == pos,
        final(state).memptr == old(state).memptr,
        final(state).memory@ == old(state).memory@,
        final(state).inst@ == old(state).inst@,
        final(state).last == old(state).last,
{
    state.instptr = pos;
}

/// Sets the instruction pointer for a taken backward jump.
pub fn jump_rev(state: &mut State, pos: usize)
    requires
        old(state).wf(),
        pos <= old(state).inst@.len(),
    ensures
        final(state).wf(),
        final(state).instptr == pos,
        final(state).memptr == old(state).memptr,
        final(state).memory@ == old(state).memory@,
        final(state).inst@ == old(state).inst@,
        final(state).last == old(state).last,
{
    state.instptr = pos;
}

/// Executes the instruction at the instruction pointer. An `Input`
/// instruction is not executed here: the step reports `NeedInput` and leaves
/// the state as it is, and `resume_input` completes it. On an error the state is
/// left as it was.
pub fn step(state: &mut State) -> (r: Result<Event, BfError>)
    requires
        old(state).wf(),
    ensures
        final(state).wf(),
        (final(state).conf(), r) == exec_step(old(state).inst@, old(state).conf()),
        final(state).inst@ == old(state).inst@,
        final(state).last == old(state).last,
{
    if state.instptr >= state.inst.len() {
        return Ok(Event::Halt);
    }
    let ip = state.instptr;
    match state.inst[ip] {
        Token::MoveRight(a) => {
            if a > usize::MAX - state.memptr {
                return Err(BfError::TapeLimit);
            }
            inc_data(state, a);
        },
        Token::MoveLeft(a) => {
            match dec_data(state, a) {
                Ok(()) => {},
                Err(e) => {
                    return Err(e);
                },
            }
        },
        Token::Increment(a) => incbyte(state, (a % 256) as u8),
        Token::Decrement(a) => decbyte(state, (a % 256) as u8),
        Token::Output => {
            let b = state.memory[state.memptr];
            state.instptr = ip + 1;
            return Ok(Event::Emit(b));
        },
        Token::Input => {
            return Ok(Event::NeedInput);
        },
        Token::LoopOpen(a) => {
            if state.memory[state.memptr] == 0 {
                jump_forward(state, a + 1);
                return Ok(Event::Continue);
            }
        },
        Token::LoopClose(a) => {
            if state.memory[state.memptr] != 0 {
                jump_rev(state, a + 1);
                return Ok(Event::Continue);
            }
        },
    }
    state.instptr = ip + 1;
    Ok(Event::Continue)
}

/// The jump targets of a resolved program are indices into it.
pub proof fn lemma_resolved_targets_in_range(src: Seq<Token>, r: Seq<Token>)
    requires
        resolved(src, r),
    ensures
        targets_in_range(r),
{
    assert forall|i: int| 0 <= i < r.len() implies {
        &&& (#[trigger] r[i] matches Token::LoopOpen(t) ==> t < r.len())
        &&& (r[i] matches Token::LoopClose(t) ==> t < r.len())
    } by {
        assert(resolved_at(src, r, i));
    }
}

/// The program that a source text stands for: lexed, folded and resolved.
/// Fails with `MalformedProgram` exactly when a bracket has no partner.
pub fn compile(src: &[u8]) -> (r: Result<Vec<Token>, BfError>)
    ensures
        r is Ok <==> balanced(fold_spec(lex_spec(src@))),
        r matches Ok(v) ==> resolved(fold_spec(lex_spec(src@)), v@),
        r matches Err(e) ==> e == BfError::MalformedProgram,
{
    let tokens = lex(src);
    proof {
        lemma_lex_units(src@);
    }
    let folded = fold(&tokens);
    resolve(&folded)
}

impl State {
    /// A machine at the start of the program that `src` stands for; fails
    /// with `MalformedProgram`, before anything runs, where a bracket has no
    /// partner.
    pub fn from_source(src: &[u8]) -> (r: Result<State, BfError>)
        ensures
            r is Ok <==> balanced(fold_spec(lex_spec(src@))),
            r matches Err(e) ==> e == BfError::MalformedProgram,
            r matches Ok(st) ==> {
                &&& st.wf()
                &&& resolved(fold_spec(lex_spec(src@)), st.inst@)
                &&& st.instptr == 0
                &&& st.memptr == 0
                &&& st.memory@ == seq![0u8]
            },
    {
        match compile(src) {
            Ok(v) => {
                proof {
                    lemma_resolved_targets_in_range(fold_spec(lex_spec(src@)), v@);
                }
                Ok(State::from_program(v))
            },
            Err(e) => Err(e),
        }
    }
}

/// A right move by `n` followed at once by a left move by `n` brings the
/// data pointer back, and leaves every cell that was on the tape as it was;
/// the cells added on the way are zero.
pub proof fn lemma_right_left_round_trip(prog: Seq<Token>, c: Conf, n: usize)
    requires
        0 <= c.ip,
        c.ip + 1 < prog.len(),
        0 <= c.dp < c.tape.len(),
        prog[c.ip] == Token::MoveRight(n),
        prog[c.ip + 1] == Token::MoveLeft(n),
        c.dp + n <= usize::MAX,
    ensures
        ({
            let (c1, r1) = exec_step(prog, c);
            let (c2, r2) = exec_step(prog, c1);
            &&& r1 == Ok::<Event, BfError>(Event::Continue)
            &&& r2 == Ok::<Event, BfError>(Event::Continue)
            &&& c2.dp == c.dp
            &&& c2.ip == c.ip + 2
            &&& c2.tape.len() >= c.tape.len()
            &&& c2.tape.subrange(0, c.tape.len() as int) == c.tape
            &&& forall|k: int| c.tape.len() <= k < c2.tape.len() ==> c2.tape[k] == 0
        }),
{
    let (c1, r1) = exec_step(prog, c);
    let (c2, r2) = exec_step(prog, c1);
    assert(c2.tape.subrange(0, c.tape.len() as int) =~= c.tape);
}

/// On a resolved program a loop's `LoopOpen` over a zero cell goes on just past
/// its matching `LoopClose`, and a `LoopClose` over a non-zero cell goes on just past
/// its matching `LoopOpen`; otherwise both go on to the next instruction.
pub proof fn lemma_loop_semantics(src: Seq<Token>, prog: Seq<Token>, c: Conf)
    requires
        resolved(src, prog),
        0 <= c.ip < prog.len(),
        0 <= c.dp < c.tape.len(),
    ensures
        ({
            let (c1, r1) = exec_step(prog, c);
            &&& src[c.ip] is LoopOpen && c.tape[c.dp] == 0 ==> exists|j: int|
                closes_at(src, c.ip, j) && c1.ip == j + 1
            &&& src[c.ip] is LoopClose && c.tape[c.dp] != 0 ==> exists|j: int|
                opens_at(src, c.ip, j) && c1.ip == j + 1
            &&& (src[c.ip] is LoopOpen || src[c.ip] is LoopClose) ==> {
                &&& r1 == Ok::<Event, BfError>(Event::Continue)
                &&& c1.dp == c.dp
                &&& c1.tape == c.tape
                &&& (src[c.ip] is LoopOpen && c.tape[c.dp] != 0 ==> c1.ip == c.ip + 1)
                &&& (src[c.ip] is LoopClose && c.tape[c.dp] == 0 ==> c1.ip == c.ip + 1)
            }
        }),
{
    assert(resolved_at(src, prog, c.ip));
}

} // verus!
