//! Balance validator: decides whether every loop-end token closes a
//! previously opened loop and no loop stays open at end of input.

use vstd::prelude::*;

use crate::token::Token;

verus! {

/// How one token changes the number of open loops.
pub open spec fn delta(t: Token) -> int {
    match t {
        Token::Begin => 1,
        Token::End => -1,
        _ => 0,
    }
}

/// Net number of loops a token sequence leaves open (may be negative
/// when it closes loops it never opened).
pub open spec fn depth(toks: Seq<Token>) -> int
    decreases toks.len(),
{
    if toks.len() == 0 {
        0
    } else {
        delta(toks[0]) + depth(toks.drop_first())
    }
}

/// Well-formed loop brackets: no prefix closes more loops than it opened,
/// and the whole sequence leaves none open.
pub open spec fn balanced(toks: Seq<Token>) -> bool {
    &&& depth(toks) == 0
    &&& forall|k: int| 0 <= k <= toks.len() ==> depth(#[trigger] toks.subrange(0, k)) >= 0
}

/// Depth is additive over concatenation.
pub proof fn lemma_depth_add(a: Seq<Token>, b: Seq<Token>)
    ensures
        depth(a + b) == depth(a) + depth(b),
    decreases a.len(),
{
    if a.len() == 0 {
        assert(a + b =~= b);
    } else {
        assert((a + b).len() > 0 && (a + b)[0] == a[0]);
        assert((a + b).drop_first() =~= a.drop_first() + b);
        lemma_depth_add(a.drop_first(), b);
        assert(depth(a + b) == delta(a[0]) + depth(a.drop_first() + b));
    }
}

/// Appending one token adds that token's delta to the depth.
pub proof fn lemma_depth_snoc(toks: Seq<Token>, t: Token)
    ensures
        depth(toks.push(t)) == depth(toks) + delta(t),
{
    let one = seq![t];
    assert(one.drop_first() =~= Seq::<Token>::empty());
    assert(depth(one.drop_first()) == 0);
    assert(depth(one) == delta(t));
    assert(toks.push(t) =~= toks + one);
    lemma_depth_add(toks, one);
}

/// Decides bracket balance by scanning with an open-loop counter:
/// a loop-end with no open loop, or a loop left open at the end of the
/// tokens, makes the program invalid.
pub fn syntax_analysis(tokens: &[Token]) -> (valid: bool)
    ensures
        valid == balanced(tokens@),
{
    let n = tokens.len();
    let mut count: usize = 0;
    let mut i: usize = 0;
    while i < n
        invariant
            n == tokens@.len(),
            i <= n,
            count <= i,
            count as int == depth(tokens@.subrange(0, i as int)),
            forall|k: int| 0 <= k <= i ==> depth(#[trigger] tokens@.subrange(0, k)) >= 0,
        decreases n - i,
    {
        proof {
            assert(tokens@.subrange(0, i + 1 as int) =~= tokens@.subrange(0, i as int).push(
                tokens@[i as int],
            ));
            lemma_depth_snoc(tokens@.subrange(0, i as int), tokens@[i as int]);
        }
        match tokens[i] {
            Token::Begin => {
                count = count + 1;
            },
            Token::End => {
                if count == 0 {
                    proof {
                        assert(depth(tokens@.subrange(0, i + 1 as int)) < 0);
                    }
                    return false;
                }
                count = count - 1;
            },
            _ => {},
        }
        i = i + 1;
    }
    proof {
        assert(tokens@.subrange(0, n as int) =~= tokens@);
    }
    count == 0
}

} // verus!
