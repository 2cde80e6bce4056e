use vstd::prelude::*;
use crate::token::{Token, token_of};
use crate::fold::{units, counted, count_of};

verus! {

/// The instructions that a source text stands for, in order, other bytes skipped.
pub open spec fn lex_spec(src: Seq<u8>) -> Seq<Token>
    decreases src.len(),
{
    if src.len() == 0 {
        Seq::empty()
    } else {
        let rest = lex_spec(src.drop_last());
        match token_of(src.last()) {
            Some(t) => rest.push(t),
            None => rest,
        }
    }
}

/// Turns source bytes into unit instructions; every byte that is not one of
/// the eight operators is dropped.
pub fn lex(src: &[u8]) -> (r: Vec<Token>)
    ensures
        r@ == lex_spec(src@),
{
    let mut out: Vec<Token> = Vec::new();
    let mut i: usize = 0;
    while i < src.len()
        invariant
            i <= src@.len(),
            out@ == lex_spec(src@.subrange(0, i as int)),
        decreases src.len() - i,
    {
        let b = src[i];
        proof {
            let pre = src@.subrange(0, i as int + 1);
            assert(pre.drop_last() =~= src@.subrange(0, i as int));
            assert(pre.last() == b);
        }
        if b == 62 { // '>'
            out.push(Token::MoveRight(1));
        } else if b == 60 { // '<'
            out.push(Token::MoveLeft(1));
        } else if b == 43 { // '+'
            out.push(Token::Increment(1));
        } else if b == 45 { // '-'
            out.push(Token::Decrement(1));
        } else if b == 46 { // '.'
            out.push(Token::Output);
        } else if b == 44 { // ','
            out.push(Token::Input);
        } else if b == 91 { // '['
            out.push(Token::LoopOpen(0));
        } else if b == 93 { // ']'
            out.push(Token::LoopClose(0));
        }
        i += 1;
    }
    assert(src@.subrange(0, src@.len() as int) =~= src@);
    out
}

/// The lexer's instructions carry unit counts.
pub proof fn lemma_lex_units(src: Seq<u8>)
    ensures
        units(lex_spec(src)),
    decreases src.len(),
{
    if src.len() > 0 {
        lemma_lex_units(src.drop_last());
        let rest = lex_spec(src.drop_last());
        let r = lex_spec(src);
        assert forall|i: int| 0 <= i < r.len() && counted(#[trigger] r[i]) implies count_of(r[i]) == 1 by {
            if i < rest.len() {
                assert(r[i] == rest[i]);
            }
        }
    }
}

} // verus!
