use vstd::prelude::*;

verus! {

/// One instruction of a program.
///
/// The counted variants carry how many times the operation is applied; the
/// bracket variants carry the index of their matching partner once the
/// program has been resolved.
#[derive(Debug, Clone, Copy, PartialEq, Eq, Structural)]
pub enum Token {
    MoveRight(usize),
    MoveLeft(usize),
    Increment(usize),
    Decrement(usize),
    LoopOpen(usize),
    LoopClose(usize),
    Input,
    Output,
}

/// The instruction that a source byte stands for, if any, with a unit count.
pub open spec fn token_of(b: u8) -> Option<Token> {
    if b == 62 { // '>'
        Some(Token::MoveRight(1))
    } else if b == 60 { // '<'
        Some(Token::MoveLeft(1))
    } else if b == 43 { // '+'
        Some(Token::Increment(1))
    } else if b == 45 { // '-'
        Some(Token::Decrement(1))
    } else if b == 46 { // '.'
        Some(Token::Output)
    } else if b == 44 { // ','
        Some(Token::Input)
    } else if b == 91 { // '['
        Some(Token::LoopOpen(0))
    } else if b == 93 { // ']'
        Some(Token::LoopClose(0))
    } else {
        None
    }
}

/// Contribution of one instruction to the bracket nesting depth.
pub open spec fn weight(t: Token) -> int {
    match t {
        Token::LoopOpen(_) => 1,
        Token::LoopClose(_) => -1,
        _ => 0,
    }
}

/// Opening brackets minus closing brackets among `s[lo..hi]`.
pub open spec fn depth(s: Seq<Token>, lo: int, hi: int) -> int
    decreases hi - lo,
{
    if hi <= lo {
        0
    } else {
        depth(s, lo, hi - 1) + weight(s[hi - 1])
    }
}

/// The depth of a single instruction is its weight.
pub proof fn lemma_depth_one(s: Seq<Token>, i: int)
    ensures
        depth(s, i, i + 1) == weight(s[i]),
{
    reveal_with_fuel(depth, 2);
}

/// `depth` splits at any point between its bounds.
pub proof fn lemma_depth_split(s: Seq<Token>, lo: int, mid: int, hi: int)
    requires
        lo <= mid <= hi,
    ensures
        depth(s, lo, hi) == depth(s, lo, mid) + depth(s, mid, hi),
    decreases hi - mid,
{
    if hi > mid {
        lemma_depth_split(s, lo, mid, hi - 1);
    }
}

/// `depth` never moves by more than one per instruction.
pub proof fn lemma_depth_bound(s: Seq<Token>, lo: int, hi: int)
    requires
        lo <= hi,
    ensures
        -(hi - lo) <= depth(s, lo, hi) <= hi - lo,
    decreases hi - lo,
{
    if hi > lo {
        lemma_depth_bound(s, lo, hi - 1);
    }
}

} // verus!
