//! Lexer: turns source text into the sequence of instruction tokens,
//! silently dropping every character that is not one of the eight symbols.

use vstd::prelude::*;
use vstd::string::StrSliceExecFns;

use crate::token::Token;

verus! {

/// The token a character stands for, or `None` for a comment character.
pub open spec fn char_token(c: char) -> Option<Token> {
    if c == '>' {
        Some(Token::Right)
    } else if c == '<' {
        Some(Token::Left)
    } else if c == '+' {
        Some(Token::Inc)
    } else if c == '-' {
        Some(Token::Dec)
    } else if c == '.' {
        Some(Token::Out)
    } else if c == ',' {
        Some(Token::In)
    } else if c == '[' {
        Some(Token::Begin)
    } else if c == ']' {
        Some(Token::End)
    } else {
        None
    }
}

/// The character a token is written as.
pub open spec fn token_char(t: Token) -> char {
    match t {
        Token::Right => '>',
        Token::Left => '<',
        Token::Inc => '+',
        Token::Dec => '-',
        Token::Out => '.',
        Token::In => ',',
        Token::Begin => '[',
        Token::End => ']',
    }
}

/// The tokens of one character: one token for an instruction symbol,
/// none for anything else.
pub open spec fn char_tokens(c: char) -> Seq<Token> {
    match char_token(c) {
        Some(t) => seq![t],
        None => Seq::empty(),
    }
}

/// The token sequence of a source text, in source order.
pub open spec fn spec_lex(text: Seq<char>) -> Seq<Token>
    decreases text.len(),
{
    if text.len() == 0 {
        Seq::empty()
    } else {
        char_tokens(text[0]) + spec_lex(text.drop_first())
    }
}

/// The textual rendering of a token sequence, one character per token.
pub open spec fn render_tokens(toks: Seq<Token>) -> Seq<char>
    decreases toks.len(),
{
    if toks.len() == 0 {
        Seq::empty()
    } else {
        seq![token_char(toks[0])] + render_tokens(toks.drop_first())
    }
}

/// Lexing one more character appends that character's tokens.
proof fn lemma_spec_lex_snoc(text: Seq<char>, c: char)
    ensures
        spec_lex(text.push(c)) == spec_lex(text) + char_tokens(c),
    decreases text.len(),
{
    let s1 = text.push(c);
    if text.len() == 0 {
        assert(s1.len() == 1 && s1[0] == c);
        assert(s1.drop_first() =~= Seq::<char>::empty());
        assert(spec_lex(s1.drop_first()) =~= Seq::<Token>::empty());
        assert(spec_lex(s1) == char_tokens(c) + spec_lex(s1.drop_first()));
        assert(spec_lex(text) =~= Seq::<Token>::empty());
        assert(spec_lex(s1) =~= spec_lex(text) + char_tokens(c));
    } else {
        assert(s1.len() == text.len() + 1 && s1[0] == text[0]);
        assert(s1.drop_first() =~= text.drop_first().push(c));
        lemma_spec_lex_snoc(text.drop_first(), c);
        assert(spec_lex(s1) == char_tokens(text[0]) + spec_lex(s1.drop_first()));
        assert(spec_lex(text) == char_tokens(text[0]) + spec_lex(text.drop_first()));
        assert(spec_lex(s1) =~= spec_lex(text) + char_tokens(c));
    }
}

/// Rendering one more token appends its character.
proof fn lemma_render_tokens_snoc(toks: Seq<Token>, t: Token)
    ensures
        render_tokens(toks.push(t)) == render_tokens(toks).push(token_char(t)),
    decreases toks.len(),
{
    let s1 = toks.push(t);
    if toks.len() == 0 {
        assert(s1.len() == 1 && s1[0] == t);
        assert(s1.drop_first() =~= Seq::<Token>::empty());
        assert(render_tokens(s1.drop_first()) =~= Seq::<char>::empty());
        assert(render_tokens(s1) == seq![token_char(t)] + render_tokens(s1.drop_first()));
        assert(render_tokens(toks) =~= Seq::<char>::empty());
        assert(render_tokens(s1) =~= render_tokens(toks).push(token_char(t)));
    } else {
        assert(s1.len() == toks.len() + 1 && s1[0] == toks[0]);
        assert(s1.drop_first() =~= toks.drop_first().push(t));
        lemma_render_tokens_snoc(toks.drop_first(), t);
        assert(render_tokens(s1) == seq![token_char(toks[0])] + render_tokens(s1.drop_first()));
        assert(render_tokens(toks) == seq![token_char(toks[0])] + render_tokens(
            toks.drop_first(),
        ));
        assert(render_tokens(s1) =~= render_tokens(toks).push(token_char(t)));
    }
}

/// Law: re-lexing the textual rendering of any token sequence yields that
/// sequence back, so lexing discards nothing but comment characters.
pub proof fn lemma_lex_render_roundtrip(toks: Seq<Token>)
    ensures
        spec_lex(render_tokens(toks)) == toks,
    decreases toks.len(),
{
    if toks.len() == 0 {
    } else {
        let rendered = render_tokens(toks);
        assert(rendered[0] == token_char(toks[0]));
        assert(char_tokens(rendered[0]) =~= seq![toks[0]]);
        assert(rendered.drop_first() =~= render_tokens(toks.drop_first()));
        lemma_lex_render_roundtrip(toks.drop_first());
        assert(spec_lex(rendered) =~= seq![toks[0]] + toks.drop_first());
        assert(seq![toks[0]] + toks.drop_first() =~= toks);
    }
}

/// Law: lexing is idempotent across a textual round trip — rendering the
/// tokens of a text and lexing again gives the same token sequence.
pub proof fn lemma_lex_idempotent(text: Seq<char>)
    ensures
        spec_lex(render_tokens(spec_lex(text))) == spec_lex(text),
{
    lemma_lex_render_roundtrip(spec_lex(text));
}

/// Converts source text to its token sequence; every character that is not
/// one of the eight instruction symbols is dropped without effect.
pub fn lexical_analysis(text: &str) -> (tokens: Vec<Token>)
    ensures
        tokens@ == spec_lex(text@),
{
    let n = text.unicode_len();
    let mut tokens: Vec<Token> = Vec::new();
    let mut i: usize = 0;
    while i < n
        invariant
            n == text@.len(),
            i <= n,
            tokens@ == spec_lex(text@.subrange(0, i as int)),
        decreases n - i,
    {
        let c = text.get_char(i);
        proof {
            assert(text@.subrange(0, i + 1 as int) =~= text@.subrange(0, i as int).push(
                text@[i as int],
            ));
            lemma_spec_lex_snoc(text@.subrange(0, i as int), text@[i as int]);
        }
        match c {
            '>' => tokens.push(Token::Right),
            '<' => tokens.push(Token::Left),
            '+' => tokens.push(Token::Inc),
            '-' => tokens.push(Token::Dec),
            '.' => tokens.push(Token::Out),
            ',' => tokens.push(Token::In),
            '[' => tokens.push(Token::Begin),
            ']' => tokens.push(Token::End),
            _ => (),
        }
        i = i + 1;
    }
    proof {
        assert(text@.subrange(0, n as int) =~= text@);
    }
    tokens
}

/// Renders a token sequence back to source characters, one per token.
pub fn render(tokens: &[Token]) -> (out: Vec<char>)
    ensures
        out@ == render_tokens(tokens@),
{
    let n = tokens.len();
    let mut out: Vec<char> = Vec::new();
    let mut i: usize = 0;
    while i < n
        invariant
            n == tokens@.len(),
            i <= n,
            out@ == render_tokens(tokens@.subrange(0, i as int)),
        decreases n - i,
    {
        proof {
            assert(tokens@.subrange(0, i + 1 as int) =~= tokens@.subrange(0, i as int).push(
                tokens@[i as int],
            ));
            lemma_render_tokens_snoc(tokens@.subrange(0, i as int), tokens@[i as int]);
        }
        let c = match tokens[i] {
            Token::Right => '>',
            Token::Left => '<',
            Token::Inc => '+',
            Token::Dec => '-',
            Token::Out => '.',
            Token::In => ',',
            Token::Begin => '[',
            Token::End => ']',
        };
        out.push(c);
        i = i + 1;
    }
    proof {
        assert(tokens@.subrange(0, n as int) =~= tokens@);
    }
    out
}

} // verus!
