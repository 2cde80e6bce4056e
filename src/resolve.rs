use vstd::prelude::*;
use crate::error::BfError;
use crate::token::{Token, depth, lemma_depth_one, lemma_depth_split, lemma_depth_bound};

verus! {

/// The `LoopOpen` at `i` is matched by the `LoopClose` at `j`: the brackets between
/// them balance, and no earlier point after `i` closes it.
pub open spec fn closes_at(s: Seq<Token>, i: int, j: int) -> bool {
    &&& 0 <= i < j < s.len()
    &&& s[i] is LoopOpen
    &&& depth(s, i, j + 1) == 0
    &&& forall|k: int| i < k <= j ==> depth(s, i, k) > 0
}

/// The `LoopClose` at `j` is matched by the `LoopOpen` at `i`: the brackets between
/// them balance, and no later point before `j` opens it.
pub open spec fn opens_at(s: Seq<Token>, j: int, i: int) -> bool {
    &&& 0 <= i < j < s.len()
    &&& s[j] is LoopClose
    &&& depth(s, i, j + 1) == 0
    &&& forall|k: int| i < k < j ==> #[trigger] depth(s, k, j + 1) < 0
}

/// Every bracket of the program has a matching partner.
pub open spec fn balanced(s: Seq<Token>) -> bool {
    forall|i: int|
        0 <= i < s.len() ==> {
            &&& (s[i] is LoopOpen ==> exists|j: int| closes_at(s, i, j))
            &&& (s[i] is LoopClose ==> exists|j: int| opens_at(s, i, j))
        }
}

/// The instruction at `i` of `r` is that of `src` with its jump target filled in.
pub open spec fn resolved_at(src: Seq<Token>, r: Seq<Token>, i: int) -> bool {
    match src[i] {
        Token::LoopOpen(_) => r[i] is LoopOpen && closes_at(src, i, r[i]->LoopOpen_0 as int),
        Token::LoopClose(_) => r[i] is LoopClose && opens_at(src, i, r[i]->LoopClose_0 as int),
        _ => r[i] == src[i],
    }
}

/// `r` is `src` with every bracket pointing at its matching partner.
pub open spec fn resolved(src: Seq<Token>, r: Seq<Token>) -> bool {
    &&& r.len() == src.len()
    &&& forall|i: int| 0 <= i < src.len() ==> #[trigger] resolved_at(src, r, i)
}

/// Index of the `LoopClose` that matches the `LoopOpen` at `pos`, scanning forward
/// with a nesting level; `None` where the program ends first.
pub fn forward_ofset(inst: &Vec<Token>, pos: usize) -> (r: Option<usize>)
    requires
        pos < inst@.len(),
        inst@[pos as int] is LoopOpen,
    ensures
        match r {
            Some(j) => closes_at(inst@, pos as int, j as int),
            None => forall|j: int| !closes_at(inst@, pos as int, j),
        },
{
    let ghost s = inst@;
    let mut level: usize = 1;
    let mut p: usize = pos;
    proof {
        lemma_depth_one(s, pos as int);
    }
    while level != 0
        invariant
            pos <= p < s.len(),
            s == inst@,
            s[pos as int] is LoopOpen,
            level as int == depth(s, pos as int, p + 1),
            forall|k: int| pos < k <= p ==> depth(s, pos as int, k) > 0,
            level == 0 ==> p > pos,
        decreases s.len() - p,
    {
        if p >= inst.len() - 1 {
            proof {
                assert forall|j: int| !closes_at(s, pos as int, j) by {
                    if closes_at(s, pos as int, j) {
                        if j > p {
                        } else if j < p {
                        } else {
                        }
                    }
                }
            }
            return None;
        }
        proof {
            lemma_depth_bound(s, pos as int, p + 1);
            lemma_depth_one(s, p + 1);
        }
        p += 1;
        match inst[p] {
            Token::LoopOpen(_) => {
                level += 1;
            },
            Token::LoopClose(_) => {
                level -= 1;
            },
            _ => {},
        }
    }
    Some(p)
}

/// Index of the `LoopOpen` that matches the `LoopClose` at `pos`, scanning backward
/// with a nesting level; `None` where the program's start comes first.
pub fn rev_ofset(inst: &Vec<Token>, pos: usize) -> (r: Option<usize>)
    requires
        pos < inst@.len(),
        inst@[pos as int] is LoopClose,
    ensures
        match r {
            Some(i) => opens_at(inst@, pos as int, i as int),
            None => forall|i: int| !opens_at(inst@, pos as int, i),
        },
{
    let ghost s = inst@;
    let mut level: usize = 1;
    let mut p: usize = pos;
    proof {
        lemma_depth_one(s, pos as int);
    }
    while level != 0
        invariant
            p <= pos < s.len(),
            s == inst@,
            s[pos as int] is LoopClose,
            level as int == -depth(s, p as int, pos + 1),
            forall|k: int| p < k < pos ==> #[trigger] depth(s, k, pos + 1) < 0,
            level == 0 ==> p < pos,
        decreases p,
    {
        if p == 0 {
            proof {
                assert forall|i: int| !opens_at(s, pos as int, i) by {
                    if opens_at(s, pos as int, i) {
                        if i > 0 {
                        } else {
                        }
                    }
                }
            }
            return None;
        }
        proof {
            lemma_depth_bound(s, p as int, pos + 1);
            lemma_depth_split(s, p - 1, p as int, pos + 1);
            lemma_depth_one(s, p - 1);
            assert(level <= pos);
        }
        assert(pos < inst.len());
        p -= 1;
        match inst[p] {
            Token::LoopOpen(_) => {
                level -= 1;
            },
            Token::LoopClose(_) => {
                level += 1;
            },
            _ => {},
        }
    }
    Some(p)
}

/// Fills in the jump target of every bracket; fails with `MalformedProgram`
/// exactly when some bracket has no matching partner.
pub fn resolve(src: &Vec<Token>) -> (r: Result<Vec<Token>, BfError>)
    ensures
        r is Ok <==> balanced(src@),
        r matches Ok(v) ==> resolved(src@, v@),
        r matches Err(e) ==> e == BfError::MalformedProgram,
{
    let mut out: Vec<Token> = Vec::new();
    let mut i: usize = 0;
    while i < src.len()
        invariant
            i <= src@.len(),
            out@.len() == i,
            forall|k: int| 0 <= k < i ==> #[trigger] resolved_at(src@, out@, k),
        decreases src.len() - i,
    {
        let t = src[i];
        let ghost prev = out@;
        match t {
            Token::LoopOpen(_) => {
                match forward_ofset(src, i) {
                    Some(j) => out.push(Token::LoopOpen(j)),
                    None => {
                        proof {
                            assert(!balanced(src@));
                        }
                        return Err(BfError::MalformedProgram);
                    },
                }
            },
            Token::LoopClose(_) => {
                match rev_ofset(src, i) {
                    Some(j) => out.push(Token::LoopClose(j)),
                    None => {
                        proof {
                            assert(!balanced(src@));
                        }
                        return Err(BfError::MalformedProgram);
                    },
                }
            },
            _ => out.push(t),
        }
        proof {
            assert forall|k: int| 0 <= k < i + 1 implies #[trigger] resolved_at(src@, out@, k) by {
                if k < i {
                    assert(resolved_at(src@, prev, k));
                    assert(out@[k] == prev[k]);
                }
            }
        }
        i += 1;
    }
    proof {
        assert forall|k: int| 0 <= k < src@.len() implies {
            &&& (src@[k] is LoopOpen ==> exists|j: int| closes_at(src@, k, j))
            &&& (src@[k] is LoopClose ==> exists|j: int| opens_at(src@, k, j))
        } by {
            assert(resolved_at(src@, out@, k));
        }
    }
    Ok(out)
}

/// A matching `LoopClose` found from the `LoopOpen` side finds that `LoopOpen` back.
pub proof fn lemma_close_inverse(s: Seq<Token>, i: int, j: int)
    requires
        closes_at(s, i, j),
    ensures
        opens_at(s, j, i),
{
    lemma_depth_split(s, i, j, j + 1);
    lemma_depth_one(s, j);
    assert forall|k: int| i < k < j implies #[trigger] depth(s, k, j + 1) < 0 by {
        lemma_depth_split(s, i, k, j + 1);
    }
}

/// A matching `LoopOpen` found from the `LoopClose` side finds that `LoopClose` back.
pub proof fn lemma_open_inverse(s: Seq<Token>, j: int, i: int)
    requires
        opens_at(s, j, i),
    ensures
        closes_at(s, i, j),
{
    lemma_depth_split(s, i, i + 1, j + 1);
    lemma_depth_one(s, i);
    lemma_depth_one(s, j);
    if i + 1 < j {
        assert(depth(s, i + 1, j + 1) < 0);
    }
    assert forall|k: int| i < k <= j implies depth(s, i, k) > 0 by {
        lemma_depth_split(s, i, k, j + 1);
        if k < j {
            assert(depth(s, k, j + 1) < 0);
        }
    }
}

/// A `LoopOpen` has at most one matching `LoopClose`.
pub proof fn lemma_close_unique(s: Seq<Token>, i: int, j1: int, j2: int)
    requires
        closes_at(s, i, j1),
        closes_at(s, i, j2),
    ensures
        j1 == j2,
{
    if j1 < j2 {
        assert(depth(s, i, j1 + 1) > 0);
    } else if j2 < j1 {
        assert(depth(s, i, j2 + 1) > 0);
    }
}

/// A `LoopClose` has at most one matching `LoopOpen`.
pub proof fn lemma_open_unique(s: Seq<Token>, j: int, i1: int, i2: int)
    requires
        opens_at(s, j, i1),
        opens_at(s, j, i2),
    ensures
        i1 == i2,
{
    if i1 < i2 {
        assert(depth(s, i2, j + 1) < 0);
    } else if i2 < i1 {
        assert(depth(s, i1, j + 1) < 0);
    }
}

/// In a resolved program the jump targets are mutual inverses: the `LoopOpen` at
/// `i` targets a `LoopClose` that targets `i`, and the `LoopClose` at `i` targets an
/// `LoopOpen` that targets `i`.
pub proof fn lemma_targets_mutual(src: Seq<Token>, r: Seq<Token>, i: int)
    requires
        resolved(src, r),
        0 <= i < r.len(),
    ensures
        r[i] matches Token::LoopOpen(j) ==> j < r.len() && r[j as int] == Token::LoopClose(i as usize),
        r[i] matches Token::LoopClose(j) ==> j < r.len() && r[j as int] == Token::LoopOpen(i as usize),
{
    assert(resolved_at(src, r, i));
    match r[i] {
        Token::LoopOpen(j) => {
            if src[i] is LoopOpen {
                lemma_close_inverse(src, i, j as int);
                assert(resolved_at(src, r, j as int));
                lemma_open_unique(src, j as int, i, r[j as int]->LoopClose_0 as int);
            }
        },
        Token::LoopClose(j) => {
            if src[i] is LoopClose {
                lemma_open_inverse(src, i, j as int);
                assert(resolved_at(src, r, j as int));
                lemma_close_unique(src, j as int, i, r[j as int]->LoopOpen_0 as int);
            }
        },
        _ => {},
    }
}

} // verus!
