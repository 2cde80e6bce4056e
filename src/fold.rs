use vstd::prelude::*;
use crate::token::Token;

verus! {

/// The instruction is a pointer move or a cell change, which carry a count.
pub open spec fn counted(t: Token) -> bool {
    t is MoveRight || t is MoveLeft || t is Increment || t is Decrement
}

/// Every counted instruction has a count of one, as the lexer makes them.
pub open spec fn units(s: Seq<Token>) -> bool {
    forall|i: int|
        0 <= i < s.len() ==> (counted(#[trigger] s[i]) ==> count_of(s[i]) == 1)
}

/// The count of a counted instruction (one for the others).
pub open spec fn count_of(t: Token) -> nat {
    match t {
        Token::MoveRight(n) => n as nat,
        Token::MoveLeft(n) => n as nat,
        Token::Increment(n) => n as nat,
        Token::Decrement(n) => n as nat,
        _ => 1,
    }
}

/// `prev` with its count raised by one, where the unit instruction `t` of the
/// same counted kind can be merged into it.
pub open spec fn merge(prev: Token, t: Token) -> Option<Token> {
    match (prev, t) {
        (Token::MoveRight(b), Token::MoveRight(_)) => Some(Token::MoveRight((b + 1) as usize)),
        (Token::MoveLeft(b), Token::MoveLeft(_)) => Some(Token::MoveLeft((b + 1) as usize)),
        (Token::Increment(b), Token::Increment(_)) => Some(Token::Increment((b + 1) as usize)),
        (Token::Decrement(b), Token::Decrement(_)) => Some(Token::Decrement((b + 1) as usize)),
        _ => None,
    }
}

/// The folded program: each maximal run of one counted kind becomes a single
/// instruction with the run's length as its count; the rest stays in order.
pub open spec fn fold_spec(s: Seq<Token>) -> Seq<Token>
    decreases s.len(),
{
    if s.len() == 0 {
        Seq::empty()
    } else {
        let f = fold_spec(s.drop_last());
        if f.len() > 0 && merge(f.last(), s.last()) is Some {
            f.update(f.len() - 1, merge(f.last(), s.last())->Some_0)
        } else {
            f.push(s.last())
        }
    }
}

/// Collapses runs of unit moves and cell changes into counted instructions.
pub fn fold(src: &Vec<Token>) -> (r: Vec<Token>)
    requires
        units(src@),
    ensures
        r@ == fold_spec(src@),
        r@.len() <= src@.len(),
{
    let mut out: Vec<Token> = Vec::new();
    let mut i: usize = 0;
    while i < src.len()
        invariant
            i <= src@.len(),
            units(src@),
            out@ == fold_spec(src@.subrange(0, i as int)),
            out@.len() <= i,
            forall|k: int| 0 <= k < out@.len() ==> count_of(#[trigger] out@[k]) <= i,
        decreases src.len() - i,
    {
        let t = src[i];
        proof {
            let pre = src@.subrange(0, i as int + 1);
            assert(pre.drop_last() =~= src@.subrange(0, i as int));
            assert(pre.last() == t);
        }
        let n = out.len();
        let merged: Option<Token> = if n == 0 {
            None
        } else {
            proof {
                assert(count_of(out@[n - 1]) <= i);
            }
            match (out[n - 1], t) {
                (Token::MoveRight(b), Token::MoveRight(_)) => Some(Token::MoveRight(b + 1)),
                (Token::MoveLeft(b), Token::MoveLeft(_)) => Some(Token::MoveLeft(b + 1)),
                (Token::Increment(b), Token::Increment(_)) => Some(Token::Increment(b + 1)),
                (Token::Decrement(b), Token::Decrement(_)) => Some(Token::Decrement(b + 1)),
                _ => None,
            }
        };
        let ghost prev = out@;
        match merged {
            Some(m) => out.set(n - 1, m),
            None => out.push(t),
        }
        proof {
            assert forall|k: int| 0 <= k < out@.len() implies count_of(#[trigger] out@[k]) <= i + 1 by {
                if k < prev.len() && k != n - 1 {
                    assert(out@[k] == prev[k]);
                } else if k < prev.len() {
                    assert(count_of(prev[k]) <= i);
                }
            }
        }
        i += 1;
    }
    assert(src@.subrange(0, src@.len() as int) =~= src@);
    out
}

/// The instruction of the same kind as `t` with count `n` (`t` itself where
/// it carries no count).
pub open spec fn with_count(t: Token, n: nat) -> Token {
    match t {
        Token::MoveRight(_) => Token::MoveRight(n as usize),
        Token::MoveLeft(_) => Token::MoveLeft(n as usize),
        Token::Increment(_) => Token::Increment(n as usize),
        Token::Decrement(_) => Token::Decrement(n as usize),
        _ => t,
    }
}

/// The unit instructions that one instruction stands for.
pub open spec fn unit_run(t: Token) -> Seq<Token> {
    if counted(t) {
        Seq::new(count_of(t), |_k: int| with_count(t, 1))
    } else {
        seq![t]
    }
}

/// The program with every counted instruction spelt out as unit instructions.
pub open spec fn expand(s: Seq<Token>) -> Seq<Token>
    decreases s.len(),
{
    if s.len() == 0 {
        Seq::empty()
    } else {
        expand(s.drop_last()) + unit_run(s.last())
    }
}

/// Folding loses nothing: spelling the folded program's counted instructions
/// out again gives back the unit program, and every count lies between one
/// and the program's length.
pub proof fn lemma_fold_expand(s: Seq<Token>)
    requires
        units(s),
        s.len() <= usize::MAX,
    ensures
        expand(fold_spec(s)) == s,
        forall|k: int| 0 <= k < fold_spec(s).len() ==>
            1 <= count_of(#[trigger] fold_spec(s)[k]) <= s.len(),
    decreases s.len(),
{
    if s.len() > 0 {
        let s0 = s.drop_last();
        let t = s.last();
        assert forall|i: int| 0 <= i < s0.len() && counted(#[trigger] s0[i]) implies count_of(s0[i]) == 1 by {
            assert(s0[i] == s[i]);
        }
        lemma_fold_expand(s0);
        let f = fold_spec(s0);
        assert(counted(s[s.len() - 1]) ==> count_of(s[s.len() - 1]) == 1);
        let r = fold_spec(s);
        if f.len() > 0 && merge(f.last(), t) is Some {
            let m = merge(f.last(), t)->Some_0;
            assert(count_of(f[f.len() - 1]) <= s0.len());
            assert(r.drop_last() =~= f.drop_last());
            assert(unit_run(m) =~= unit_run(f.last()).push(t));
            assert(expand(r) =~= expand(f.drop_last()) + unit_run(f.last()).push(t));
            assert(expand(f) == expand(f.drop_last()) + unit_run(f.last()));
            assert(s =~= s0.push(t));
            assert(expand(r) =~= s);
        } else {
            assert(r.drop_last() =~= f);
            assert(unit_run(t) =~= seq![t]);
            assert(expand(r) =~= s);
        }
        assert forall|k: int| 0 <= k < r.len() implies 1 <= count_of(#[trigger] r[k]) <= s.len() by {
            if k < f.len() {
                assert(count_of(f[k]) <= s0.len());
            }
        }
    }
}

} // verus!
