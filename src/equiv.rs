use vstd::prelude::*;
use crate::token::{Token, depth, weight, lemma_depth_split, lemma_depth_one};
use crate::resolve::{closes_at, resolved, resolved_at, lemma_close_inverse, lemma_open_inverse, lemma_close_unique, lemma_open_unique};
use crate::lexer::{lex_spec, lemma_lex_units};
use crate::engine::{Conf, Event, exec_step, exec_input, grow, add_byte, sub_byte};
use crate::fold::{counted, count_of, unit_run, expand, with_count, units, fold_spec, lemma_fold_expand};

verus! {

/// Where a run of a program ends: final tape, data pointer and output.
pub struct Outcome {
    pub tape: Seq<u8>,
    pub dp: int,
    pub output: Seq<u8>,
}

/// Index in the spelt-out program at which instruction `i` of `f` begins.
pub open spec fn pos(f: Seq<Token>, i: int) -> int {
    expand(f.subrange(0, i)).len() as int
}

/// Spelling out distributes over concatenation.
pub proof fn lemma_expand_add(a: Seq<Token>, b: Seq<Token>)
    ensures
        expand(a + b) == expand(a) + expand(b),
    decreases b.len(),
{
    if b.len() == 0 {
        assert(a + b =~= a);
        assert(expand(a) + expand(b) =~= expand(a));
    } else {
        assert((a + b).drop_last() =~= a + b.drop_last());
        assert((a + b).last() == b.last());
        lemma_expand_add(a, b.drop_last());
        assert(expand(a + b) =~= expand(a) + expand(b));
    }
}

/// Instruction `i` of `f` spells out as the block of `expand(f)` between
/// `pos(f, i)` and `pos(f, i + 1)`.
pub proof fn lemma_block(f: Seq<Token>, i: int)
    requires
        0 <= i < f.len(),
    ensures
        pos(f, i + 1) == pos(f, i) + unit_run(f[i]).len(),
        pos(f, i + 1) <= expand(f).len(),
        forall|o: int| 0 <= o < unit_run(f[i]).len() ==> expand(f)[pos(f, i) + o] == unit_run(f[i])[o],
{
    let pre = f.subrange(0, i + 1);
    assert(pre.drop_last() =~= f.subrange(0, i));
    assert(pre.last() == f[i]);
    assert(f =~= pre + f.subrange(i + 1, f.len() as int));
    lemma_expand_add(pre, f.subrange(i + 1, f.len() as int));
    assert forall|o: int| 0 <= o < unit_run(f[i]).len() implies expand(f)[pos(f, i) + o] == unit_run(f[i])[o] by {
        assert(expand(f)[pos(f, i) + o] == expand(pre)[pos(f, i) + o]);
    }
}

/// Where `i <= k`, `pos` grows by at least one per instruction of positive count.
pub proof fn lemma_pos_mono(f: Seq<Token>, i: int, k: int)
    requires
        0 <= i <= k <= f.len(),
        forall|x: int| 0 <= x < f.len() ==> count_of(#[trigger] f[x]) >= 1,
    ensures
        pos(f, i) + (k - i) <= pos(f, k),
    decreases k - i,
{
    if i < k {
        lemma_pos_mono(f, i, k - 1);
        lemma_block(f, k - 1);
        assert(count_of(f[k - 1]) >= 1);
    }
}

/// `pos` never decreases.
pub proof fn lemma_pos_weak_mono(f: Seq<Token>, i: int, k: int)
    requires
        0 <= i <= k <= f.len(),
    ensures
        pos(f, i) <= pos(f, k),
    decreases k - i,
{
    if i < k {
        lemma_pos_weak_mono(f, i, k - 1);
        lemma_block(f, k - 1);
    }
}

/// A stretch of instructions that are no brackets has depth zero.
pub proof fn lemma_depth_zero(s: Seq<Token>, lo: int, hi: int)
    requires
        lo <= hi,
        forall|k: int| lo <= k < hi ==> weight(#[trigger] s[k]) == 0,
    ensures
        depth(s, lo, hi) == 0,
    decreases hi - lo,
{
    if lo < hi {
        lemma_depth_zero(s, lo, hi - 1);
    }
}

/// The depth inside the block of instruction `b`, from its start up to `x`,
/// is zero unless `x` is the block's end, where it is the weight of `f[b]`.
pub proof fn lemma_depth_in_block(f: Seq<Token>, b: int, x: int)
    requires
        0 <= b < f.len(),
        pos(f, b) <= x <= pos(f, b + 1),
    ensures
        depth(expand(f), pos(f, b), x) == if x == pos(f, b + 1) { weight(f[b]) } else { 0 },
{
    let e = expand(f);
    lemma_block(f, b);
    if counted(f[b]) {
        assert forall|k: int| pos(f, b) <= k < x implies weight(#[trigger] e[k]) == 0 by {
            assert(e[pos(f, b) + (k - pos(f, b))] == unit_run(f[b])[k - pos(f, b)]);
        }
        lemma_depth_zero(e, pos(f, b), x);
    } else if x == pos(f, b + 1) {
        lemma_depth_one(e, pos(f, b));
        assert(e[pos(f, b) + 0] == unit_run(f[b])[0]);
    }
}

/// Spelling out keeps the depth between instruction boundaries.
pub proof fn lemma_depth_expand(f: Seq<Token>, a: int, b: int)
    requires
        0 <= a <= b <= f.len(),
    ensures
        depth(expand(f), pos(f, a), pos(f, b)) == depth(f, a, b),
    decreases b - a,
{
    if a < b {
        lemma_depth_expand(f, a, b - 1);
        lemma_pos_weak_mono(f, a, b - 1);
        lemma_block(f, b - 1);
        lemma_depth_split(expand(f), pos(f, a), pos(f, b - 1), pos(f, b));
        lemma_depth_in_block(f, b - 1, pos(f, b));
    }
}

/// The block of instruction `k` holds position `x`, for some `k` from `k0` on.
pub proof fn lemma_find_block(f: Seq<Token>, x: int, k0: int) -> (b: int)
    requires
        0 <= k0 < f.len(),
        pos(f, k0) <= x < pos(f, f.len() as int),
    ensures
        k0 <= b < f.len(),
        pos(f, b) <= x < pos(f, b + 1),
    decreases f.len() - k0,
{
    lemma_block(f, k0);
    if x < pos(f, k0 + 1) {
        k0
    } else {
        lemma_find_block(f, x, k0 + 1)
    }
}

/// A matching pair of brackets in `f` is a matching pair in its spelt-out form.
pub proof fn lemma_closes_expand(f: Seq<Token>, i: int, j: int)
    requires
        closes_at(f, i, j),
        forall|x: int| 0 <= x < f.len() ==> count_of(#[trigger] f[x]) >= 1,
    ensures
        closes_at(expand(f), pos(f, i), pos(f, j)),
{
    let e = expand(f);
    lemma_close_inverse(f, i, j);
    lemma_block(f, i);
    lemma_block(f, j);
    lemma_pos_mono(f, i, j);
    assert(e[pos(f, i) + 0] == unit_run(f[i])[0]);
    lemma_depth_expand(f, i, j + 1);
    lemma_depth_in_block(f, j, pos(f, j + 1));
    lemma_pos_len(f);
    assert forall|k: int| pos(f, i) < k <= pos(f, j) implies depth(e, pos(f, i), k) > 0 by {
        if k == pos(f, j) {
            lemma_depth_expand(f, i, j);
        } else {
            let b = lemma_find_block(f, k, i);
            if b >= j {
                lemma_pos_weak_mono(f, j, b);
            }
            lemma_block(f, b);
            lemma_depth_expand(f, i, b);
            lemma_pos_weak_mono(f, i, b);
            lemma_depth_split(e, pos(f, i), pos(f, b), k);
            lemma_depth_in_block(f, b, k);
        }
    }
    lemma_depth_split(e, pos(f, i), pos(f, j), pos(f, j + 1));
    lemma_depth_expand(f, i, j);
}

/// The whole program ends where its spelt-out form ends.
pub proof fn lemma_pos_len(f: Seq<Token>)
    ensures
        pos(f, f.len() as int) == expand(f).len(),
{
    assert(f.subrange(0, f.len() as int) =~= f);
}

/// Runs `prog` from `c` for at most `fuel` steps, reading `input` one byte
/// per `Input` instruction (zero once it is used up): where it reaches the
/// end of the program, the final tape, data pointer and all output; `None`
/// where a step fails or the steps run out first.
pub open spec fn run_spec(prog: Seq<Token>, c: Conf, input: Seq<u8>, fuel: nat) -> Option<Outcome>
    decreases fuel,
{
    if fuel == 0 {
        None
    } else {
        let (c1, r) = exec_step(prog, c);
        match r {
            Ok(Event::Halt) => Some(Outcome { tape: c.tape, dp: c.dp, output: Seq::empty() }),
            Ok(Event::Continue) => run_spec(prog, c1, input, (fuel - 1) as nat),
            Ok(Event::Emit(b)) => match run_spec(prog, c1, input, (fuel - 1) as nat) {
                Some(o) => Some(Outcome { tape: o.tape, dp: o.dp, output: seq![b] + o.output }),
                None => None,
            },
            Ok(Event::NeedInput) => if input.len() > 0 {
                run_spec(prog, exec_input(c, Some(input[0])), input.drop_first(), (fuel - 1) as nat)
            } else {
                run_spec(prog, exec_input(c, None), input, (fuel - 1) as nat)
            },
            Err(_) => None,
        }
    }
}

/// More steps change nothing for a run that has already ended.
pub proof fn lemma_run_fuel(prog: Seq<Token>, c: Conf, input: Seq<u8>, fuel: nat, more: nat)
    requires
        run_spec(prog, c, input, fuel) is Some,
        fuel <= more,
    ensures
        run_spec(prog, c, input, more) == run_spec(prog, c, input, fuel),
    decreases fuel,
{
    let (c1, r) = exec_step(prog, c);
    match r {
        Ok(Event::Halt) => {},
        Ok(Event::Continue) => {
            lemma_run_fuel(prog, c1, input, (fuel - 1) as nat, (more - 1) as nat);
        },
        Ok(Event::Emit(b)) => {
            lemma_run_fuel(prog, c1, input, (fuel - 1) as nat, (more - 1) as nat);
        },
        Ok(Event::NeedInput) => {
            if input.len() > 0 {
                lemma_run_fuel(prog, exec_input(c, Some(input[0])), input.drop_first(), (fuel - 1) as nat, (more - 1) as nat);
            } else {
                lemma_run_fuel(prog, exec_input(c, None), input, (fuel - 1) as nat, (more - 1) as nat);
            }
        },
        Err(_) => {},
    }
}

/// What a pointer move or cell change does to the data pointer and tape
/// (the instruction pointer aside); `None` where it fails.
pub open spec fn effect(t: Token, c: Conf) -> Option<Conf> {
    match t {
        Token::MoveRight(n) => if c.dp + n > usize::MAX {
            None
        } else {
            Some(Conf { ip: c.ip, dp: c.dp + n, tape: grow(c.tape, c.dp + n) })
        },
        Token::MoveLeft(n) => if n > c.dp {
            None
        } else {
            Some(Conf { ip: c.ip, dp: c.dp - n, tape: c.tape })
        },
        Token::Increment(n) => Some(Conf { ip: c.ip, dp: c.dp, tape: c.tape.update(c.dp, add_byte(c.tape[c.dp], n as int)) }),
        Token::Decrement(n) => Some(Conf { ip: c.ip, dp: c.dp, tape: c.tape.update(c.dp, sub_byte(c.tape[c.dp], n as int)) }),
        _ => Some(c),
    }
}

/// Growing in two steps is growing once to the larger index.
pub proof fn lemma_grow_twice(t: Seq<u8>, p: int, q: int)
    requires
        0 <= p <= q,
    ensures
        grow(grow(t, p), q) == grow(t, q),
        grow(t, q).len() > q,
{
    assert(grow(grow(t, p), q) =~= grow(t, q));
}

/// One more added after `m`, or one more taken after `m`, modulo 256.
pub proof fn lemma_byte_steps(a: u8, m: int)
    requires
        m >= 0,
    ensures
        add_byte(add_byte(a, 1), m) == add_byte(a, m + 1),
        sub_byte(sub_byte(a, 1), m) == sub_byte(a, m + 1),
{
    let x = a as int;
    let q = m / 256;
    let r = m % 256;
    assert(m == 256 * q + r) by {
        vstd::arithmetic::div_mod::lemma_fundamental_div_mod(m, 256);
    }
    assert(0 <= r < 256);
    if r == 255 {
        assert((m + 1) % 256 == 0) by {
            vstd::arithmetic::div_mod::lemma_fundamental_div_mod_converse(m + 1, 256, q + 1, 0);
        }
    } else {
        assert((m + 1) % 256 == r + 1) by {
            vstd::arithmetic::div_mod::lemma_fundamental_div_mod_converse(m + 1, 256, q, r + 1);
        }
    }
}

/// A counted instruction with count `n + 1` does what its unit form
/// followed by the same instruction with count `n` does, and fails where that
/// pair fails.
pub proof fn lemma_effect_split(t: Token, c: Conf, n: nat)
    requires
        counted(t),
        count_of(t) == n + 1,
        n >= 1,
        0 <= c.dp < c.tape.len(),
    ensures
        effect(t, c) == match effect(with_count(t, 1), c) {
            Some(c1) => effect(with_count(t, n), c1),
            None => None::<Conf>,
        },
        effect(t, c) matches Some(c2) ==> 0 <= c2.dp < c2.tape.len(),
{
    match t {
        Token::MoveRight(_) => {
            if c.dp + n + 1 <= usize::MAX {
                lemma_grow_twice(c.tape, c.dp + 1, c.dp + n + 1);
            }
        },
        Token::Increment(_) => {
            lemma_byte_steps(c.tape[c.dp], n as int);
            assert(c.tape.update(c.dp, add_byte(c.tape[c.dp], 1)).update(c.dp, add_byte(add_byte(c.tape[c.dp], 1), n as int)) =~= c.tape.update(c.dp, add_byte(c.tape[c.dp], (n + 1) as int)));
        },
        Token::Decrement(_) => {
            lemma_byte_steps(c.tape[c.dp], n as int);
            assert(c.tape.update(c.dp, sub_byte(c.tape[c.dp], 1)).update(c.dp, sub_byte(sub_byte(c.tape[c.dp], 1), n as int)) =~= c.tape.update(c.dp, sub_byte(c.tape[c.dp], (n + 1) as int)));
        },
        _ => {},
    }
}

/// A run of `count_of(t)` unit instructions of `t`'s kind, taken one by one,
/// ends where `t` taken at once ends, when the run as a whole ends at all.
pub proof fn lemma_run_units(pu: Seq<Token>, c: Conf, input: Seq<u8>, fuel: nat, t: Token)
    requires
        counted(t),
        count_of(t) >= 1,
        0 <= c.ip,
        c.ip + count_of(t) <= pu.len(),
        forall|k: int| c.ip <= k < c.ip + count_of(t) ==> pu[k] == with_count(t, 1),
        0 <= c.dp < c.tape.len(),
        run_spec(pu, c, input, fuel) is Some,
    ensures
        fuel > count_of(t),
        effect(t, c) is Some,
        0 <= effect(t, c)->Some_0.dp < effect(t, c)->Some_0.tape.len(),
        run_spec(pu, c, input, fuel) == run_spec(
            pu,
            Conf { ip: c.ip + count_of(t), dp: effect(t, c)->Some_0.dp, tape: effect(t, c)->Some_0.tape },
            input,
            (fuel - count_of(t)) as nat,
        ),
    decreases count_of(t),
{
    let n = count_of(t);
    let u = with_count(t, 1);
    assert(pu[c.ip] == u);
    let c1 = effect(u, c)->Some_0;
    let next = Conf { ip: c.ip + 1, dp: c1.dp, tape: c1.tape };
    assert(run_spec(pu, c, input, fuel) == run_spec(pu, next, input, (fuel - 1) as nat));
    if c1.dp + 1 <= usize::MAX {
        lemma_grow_twice(c.tape, c.dp + 1, c.dp + 1);
    }
    if n == 1 {
        assert(u == t);
    } else {
        let t2 = with_count(t, (n - 1) as nat);
        assert(with_count(t2, 1) == u);
        lemma_run_units(pu, next, input, (fuel - 1) as nat, t2);
        lemma_effect_split(t, c, (n - 1) as nat);
    }
}

/// The jump targets of the resolved folded program, carried to the
/// spelt-out program, are those of the resolved unit program.
pub proof fn lemma_targets_expand(lexed: Seq<Token>, pu: Seq<Token>, pf: Seq<Token>, i: int)
    requires
        units(lexed),
        lexed.len() <= usize::MAX,
        resolved(lexed, pu),
        resolved(fold_spec(lexed), pf),
        0 <= i < pf.len(),
    ensures
        pf[i] matches Token::LoopOpen(j) ==> j < pf.len() && fold_spec(lexed)[j as int] is LoopClose
            && pu[pos(fold_spec(lexed), i)] == Token::LoopOpen(pos(fold_spec(lexed), j as int) as usize),
        pf[i] matches Token::LoopClose(j) ==> j < pf.len() && fold_spec(lexed)[j as int] is LoopOpen
            && pu[pos(fold_spec(lexed), i)] == Token::LoopClose(pos(fold_spec(lexed), j as int) as usize),
{
    let f = fold_spec(lexed);
    lemma_fold_expand(lexed);
    lemma_pos_len(f);
    lemma_block(f, i);
    assert(resolved_at(f, pf, i));
    let p = pos(f, i);
    assert(lexed[p + 0] == unit_run(f[i])[0]);
    match pf[i] {
        Token::LoopOpen(j) => {
            if f[i] is LoopOpen {
                lemma_closes_expand(f, i, j as int);
                lemma_close_inverse(f, i, j as int);
                assert(resolved_at(lexed, pu, p));
                lemma_close_unique(lexed, p, pos(f, j as int), pu[p]->LoopOpen_0 as int);
            }
        },
        Token::LoopClose(j) => {
            if f[i] is LoopClose {
                lemma_open_inverse(f, i, j as int);
                lemma_closes_expand(f, j as int, i);
                lemma_close_inverse(lexed, pos(f, j as int), p);
                assert(resolved_at(lexed, pu, p));
                lemma_open_unique(lexed, p, pos(f, j as int), pu[p]->LoopClose_0 as int);
            }
        },
        _ => {},
    }
}

/// From configurations that agree at an instruction boundary, a run of the
/// resolved unit program that ends gives the same outcome as the resolved
/// folded program run with the same steps.
pub proof fn lemma_fold_sim(
    lexed: Seq<Token>,
    pu: Seq<Token>,
    pf: Seq<Token>,
    cu: Conf,
    cf: Conf,
    input: Seq<u8>,
    fuel: nat,
)
    requires
        units(lexed),
        lexed.len() <= usize::MAX,
        resolved(lexed, pu),
        resolved(fold_spec(lexed), pf),
        0 <= cf.ip <= pf.len(),
        cu.ip == pos(fold_spec(lexed), cf.ip),
        cu.dp == cf.dp,
        cu.tape == cf.tape,
        0 <= cu.dp < cu.tape.len(),
        run_spec(pu, cu, input, fuel) is Some,
    ensures
        run_spec(pf, cf, input, fuel) == run_spec(pu, cu, input, fuel),
    decreases fuel,
{
    let f = fold_spec(lexed);
    lemma_fold_expand(lexed);
    lemma_pos_len(f);
    if cf.ip < pf.len() {
        let i = cf.ip;
        lemma_block(f, i);
        assert(resolved_at(f, pf, i));
        let p = cu.ip;
        assert(lexed[p + 0] == unit_run(f[i])[0]);
        assert(count_of(f[i]) >= 1);
        if counted(f[i]) {
            let t = f[i];
            let n = count_of(t);
            assert forall|k: int| p <= k < p + n implies pu[k] == with_count(t, 1) by {
                assert(lexed[p + (k - p)] == unit_run(t)[k - p]);
                assert(resolved_at(lexed, pu, k));
            }
            lemma_run_units(pu, cu, input, fuel, t);
            let c2 = effect(t, cu)->Some_0;
            let cu2 = Conf { ip: p + n, dp: c2.dp, tape: c2.tape };
            let cf2 = Conf { ip: i + 1, dp: c2.dp, tape: c2.tape };
            assert(run_spec(pf, cf, input, fuel) == run_spec(pf, cf2, input, (fuel - 1) as nat));
            lemma_fold_sim(lexed, pu, pf, cu2, cf2, input, (fuel - n) as nat);
            lemma_run_fuel(pf, cf2, input, (fuel - n) as nat, (fuel - 1) as nat);
        } else {
            assert(resolved_at(lexed, pu, p));
            lemma_targets_expand(lexed, pu, pf, i);
            let (cu1, ru) = exec_step(pu, cu);
            let (cf1, rf) = exec_step(pf, cf);
            match pf[i] {
                Token::LoopOpen(j) => {
                    if cf.tape[cf.dp] == 0 {
                        lemma_block(f, j as int);
                    }
                    lemma_fold_sim(lexed, pu, pf, cu1, cf1, input, (fuel - 1) as nat);
                },
                Token::LoopClose(j) => {
                    if cf.tape[cf.dp] != 0 {
                        lemma_block(f, j as int);
                    }
                    lemma_fold_sim(lexed, pu, pf, cu1, cf1, input, (fuel - 1) as nat);
                },
                Token::Output => {
                    lemma_fold_sim(lexed, pu, pf, cu1, cf1, input, (fuel - 1) as nat);
                },
                Token::Input => {
                    if input.len() > 0 {
                        let v = Some(input[0]);
                        lemma_fold_sim(lexed, pu, pf, exec_input(cu, v), exec_input(cf, v), input.drop_first(), (fuel - 1) as nat);
                    } else {
                        lemma_fold_sim(lexed, pu, pf, exec_input(cu, None), exec_input(cf, None), input, (fuel - 1) as nat);
                    }
                },
                _ => {},
            }
        }
    }
}

/// The configuration a run starts from: first instruction, first cell, a
/// tape of one zero cell.
pub open spec fn start() -> Conf {
    Conf { ip: 0, dp: 0, tape: seq![0u8] }
}

/// Folding keeps behaviour: where the resolved unit program of a source text
/// ends on `input` within `fuel` steps, the resolved folded program ends
/// within as many steps with the same output, final tape and data pointer.
pub proof fn lemma_fold_preserves_behaviour(src: Seq<u8>, pu: Seq<Token>, pf: Seq<Token>, input: Seq<u8>, fuel: nat)
    requires
        lex_spec(src).len() <= usize::MAX,
        resolved(lex_spec(src), pu),
        resolved(fold_spec(lex_spec(src)), pf),
        run_spec(pu, start(), input, fuel) is Some,
    ensures
        run_spec(pf, start(), input, fuel) == run_spec(pu, start(), input, fuel),
{
    lemma_lex_units(src);
    let f = fold_spec(lex_spec(src));
    assert(f.subrange(0, 0) =~= Seq::<Token>::empty());
    lemma_fold_sim(lex_spec(src), pu, pf, start(), start(), input, fuel);
}

/// Where `t` taken at once succeeds, its unit instructions taken one by one
/// reach the same configuration, using `count_of(t)` more steps.
pub proof fn lemma_units_run(pu: Seq<Token>, c: Conf, input: Seq<u8>, fuel: nat, t: Token)
    requires
        counted(t),
        count_of(t) >= 1,
        0 <= c.ip,
        c.ip + count_of(t) <= pu.len(),
        forall|k: int| c.ip <= k < c.ip + count_of(t) ==> pu[k] == with_count(t, 1),
        0 <= c.dp < c.tape.len(),
        effect(t, c) is Some,
    ensures
        0 <= effect(t, c)->Some_0.dp < effect(t, c)->Some_0.tape.len(),
        run_spec(pu, c, input, fuel + count_of(t)) == run_spec(
            pu,
            Conf { ip: c.ip + count_of(t), dp: effect(t, c)->Some_0.dp, tape: effect(t, c)->Some_0.tape },
            input,
            fuel,
        ),
    decreases count_of(t),
{
    let n = count_of(t);
    let u = with_count(t, 1);
    assert(pu[c.ip] == u);
    if n == 1 {
        assert(u == t);
        if c.dp + 1 <= usize::MAX {
            lemma_grow_twice(c.tape, c.dp + 1, c.dp + 1);
        }
        assert(run_spec(pu, c, input, fuel + 1) == run_spec(pu, Conf { ip: c.ip + 1, dp: effect(t, c)->Some_0.dp, tape: effect(t, c)->Some_0.tape }, input, fuel));
    } else {
        lemma_effect_split(t, c, (n - 1) as nat);
        let c1 = effect(u, c)->Some_0;
        if c.dp + 1 <= usize::MAX {
            lemma_grow_twice(c.tape, c.dp + 1, c.dp + 1);
        }
        let next = Conf { ip: c.ip + 1, dp: c1.dp, tape: c1.tape };
        let t2 = with_count(t, (n - 1) as nat);
        assert(with_count(t2, 1) == u);
        assert(run_spec(pu, c, input, fuel + n) == run_spec(pu, next, input, (fuel + n - 1) as nat));
        lemma_units_run(pu, next, input, fuel, t2);
    }
}

/// From configurations that agree at an instruction boundary, a run of the
/// resolved folded program that ends is matched by a run of the resolved
/// unit program, with the number of steps returned, that gives the same outcome.
pub proof fn lemma_fold_sim_back(
    lexed: Seq<Token>,
    pu: Seq<Token>,
    pf: Seq<Token>,
    cu: Conf,
    cf: Conf,
    input: Seq<u8>,
    fuel: nat,
) -> (fu: nat)
    requires
        units(lexed),
        lexed.len() <= usize::MAX,
        resolved(lexed, pu),
        resolved(fold_spec(lexed), pf),
        0 <= cf.ip <= pf.len(),
        cu.ip == pos(fold_spec(lexed), cf.ip),
        cu.dp == cf.dp,
        cu.tape == cf.tape,
        0 <= cu.dp < cu.tape.len(),
        run_spec(pf, cf, input, fuel) is Some,
    ensures
        run_spec(pu, cu, input, fu) == run_spec(pf, cf, input, fuel),
    decreases fuel,
{
    let f = fold_spec(lexed);
    lemma_fold_expand(lexed);
    lemma_pos_len(f);
    if cf.ip < pf.len() {
        let i = cf.ip;
        lemma_block(f, i);
        assert(resolved_at(f, pf, i));
        let p = cu.ip;
        assert(lexed[p + 0] == unit_run(f[i])[0]);
        assert(count_of(f[i]) >= 1);
        if counted(f[i]) {
            let t = f[i];
            let n = count_of(t);
            assert forall|k: int| p <= k < p + n implies pu[k] == with_count(t, 1) by {
                assert(lexed[p + (k - p)] == unit_run(t)[k - p]);
                assert(resolved_at(lexed, pu, k));
            }
            let c2 = effect(t, cu)->Some_0;
            let cu2 = Conf { ip: p + n, dp: c2.dp, tape: c2.tape };
            let cf2 = Conf { ip: i + 1, dp: c2.dp, tape: c2.tape };
            assert(run_spec(pf, cf, input, fuel) == run_spec(pf, cf2, input, (fuel - 1) as nat));
            lemma_units_run(pu, cu, input, 0, t);
            let rest = lemma_fold_sim_back(lexed, pu, pf, cu2, cf2, input, (fuel - 1) as nat);
            lemma_units_run(pu, cu, input, rest, t);
            rest + n
        } else {
            assert(resolved_at(lexed, pu, p));
            lemma_targets_expand(lexed, pu, pf, i);
            let (cu1, ru) = exec_step(pu, cu);
            let (cf1, rf) = exec_step(pf, cf);
            match pf[i] {
                Token::LoopOpen(j) => {
                    if cf.tape[cf.dp] == 0 {
                        lemma_block(f, j as int);
                    }
                    let rest = lemma_fold_sim_back(lexed, pu, pf, cu1, cf1, input, (fuel - 1) as nat);
                    rest + 1
                },
                Token::LoopClose(j) => {
                    if cf.tape[cf.dp] != 0 {
                        lemma_block(f, j as int);
                    }
                    let rest = lemma_fold_sim_back(lexed, pu, pf, cu1, cf1, input, (fuel - 1) as nat);
                    rest + 1
                },
                Token::Output => {
                    let rest = lemma_fold_sim_back(lexed, pu, pf, cu1, cf1, input, (fuel - 1) as nat);
                    rest + 1
                },
                Token::Input => {
                    if input.len() > 0 {
                        let v = Some(input[0]);
                        let rest = lemma_fold_sim_back(lexed, pu, pf, exec_input(cu, v), exec_input(cf, v), input.drop_first(), (fuel - 1) as nat);
                        rest + 1
                    } else {
                        let rest = lemma_fold_sim_back(lexed, pu, pf, exec_input(cu, None), exec_input(cf, None), input, (fuel - 1) as nat);
                        rest + 1
                    }
                },
                _ => 0,
            }
        }
    } else {
        1
    }
}

/// Folding keeps behaviour the other way too: where the resolved folded
/// program of a source text ends on `input`, the resolved unit program ends
/// on it with the same output, final tape and data pointer, after the number
/// of steps returned.
pub proof fn lemma_fold_reflects_behaviour(src: Seq<u8>, pu: Seq<Token>, pf: Seq<Token>, input: Seq<u8>, fuel: nat) -> (fu: nat)
    requires
        lex_spec(src).len() <= usize::MAX,
        resolved(lex_spec(src), pu),
        resolved(fold_spec(lex_spec(src)), pf),
        run_spec(pf, start(), input, fuel) is Some,
    ensures
        run_spec(pu, start(), input, fu) == run_spec(pf, start(), input, fuel),
{
    lemma_lex_units(src);
    let f = fold_spec(lex_spec(src));
    assert(f.subrange(0, 0) =~= Seq::<Token>::empty());
    lemma_fold_sim_back(lex_spec(src), pu, pf, start(), start(), input, fuel)
}

} // verus!
