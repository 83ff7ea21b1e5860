//! The lexer: source text to tokens.
//!
//! Each of the eight instruction characters maps to its token; every other
//! character is a comment and is silently skipped. Lexing never fails.

use vstd::prelude::*;

verus! {

/// One of the eight instructions, named after its character.
#[derive(Eq, PartialEq, Copy, Clone, Debug, Structural)]
pub enum Token {
    /// `<`: move the pointer one cell left.
    Left,
    /// `>`: move the pointer one cell right.
    Right,
    /// `+`: increment the current cell.
    Plus,
    /// `-`: decrement the current cell.
    Minus,
    /// `[`: open a loop.
    LeftBracket,
    /// `]`: close a loop.
    RightBracket,
    /// `.`: emit the current cell.
    Dot,
    /// `,`: read input (recognized but inert).
    Comma,
}

/// The token a character denotes, or `None` for a comment character.
pub open spec fn token_of(c: char) -> Option<Token> {
    match c {
        '<' => Some(Token::Left),
        '>' => Some(Token::Right),
        '+' => Some(Token::Plus),
        '-' => Some(Token::Minus),
        '[' => Some(Token::LeftBracket),
        ']' => Some(Token::RightBracket),
        '.' => Some(Token::Dot),
        ',' => Some(Token::Comma),
        _ => None,
    }
}

/// Whether a character denotes an instruction at all.
pub open spec fn is_instruction(c: char) -> bool {
    token_of(c) is Some
}

/// What the lexer returns: the tokens of the instruction characters of
/// `s`, in order, with every comment character dropped.
pub open spec fn spec_lex(s: Seq<char>) -> Seq<Token>
    decreases s.len(),
{
    if s.len() == 0 {
        Seq::empty()
    } else {
        match token_of(s.last()) {
            Some(t) => spec_lex(s.drop_last()).push(t),
            None => spec_lex(s.drop_last()),
        }
    }
}

/// Scans the source left to right, mapping each instruction character to
/// its token and skipping everything else.
pub fn lex(code: String) -> (tokens: Vec<Token>)
    ensures
        tokens@ == spec_lex(code@),
        tokens@.len() <= code@.len(),
{
    let mut tokens: Vec<Token> = Vec::new();
    let n: usize = code.as_str().unicode_len();
    let mut i: usize = 0;
    while i < n
        invariant
            i <= n,
            n == code@.len(),
            tokens@ == spec_lex(code@.subrange(0, i as int)),
            tokens@.len() <= i,
        decreases n - i,
    {
        let c: char = code.as_str().get_char(i);
        match c {
            '<' => tokens.push(Token::Left),
            '>' => tokens.push(Token::Right),
            '+' => tokens.push(Token::Plus),
            '-' => tokens.push(Token::Minus),
            '[' => tokens.push(Token::LeftBracket),
            ']' => tokens.push(Token::RightBracket),
            '.' => tokens.push(Token::Dot),
            ',' => tokens.push(Token::Comma),
            _ => {},
        }
        proof {
            let pre = code@.subrange(0, i + 1);
            assert(pre.drop_last() =~= code@.subrange(0, i as int));
            assert(pre.last() == code@[i as int]);
        }
        i += 1;
    }
    proof {
        assert(code@.subrange(0, n as int) =~= code@);
    }
    tokens
}

/// Law: a character that denotes no instruction is invisible to the lexer.
/// Deleting it from anywhere in the source leaves the output unchanged, so
/// no comment character ever contributes to the token sequence.
pub proof fn lemma_lex_ignores_comments(prefix: Seq<char>, c: char, suffix: Seq<char>)
    requires
        !is_instruction(c),
    ensures
        spec_lex(prefix + seq![c] + suffix) == spec_lex(prefix + suffix),
    decreases suffix.len(),
{
    if suffix.len() == 0 {
        assert(prefix + seq![c] + suffix =~= prefix.push(c));
        assert(prefix.push(c).drop_last() =~= prefix);
        assert(prefix + suffix =~= prefix);
    } else {
        lemma_lex_ignores_comments(prefix, c, suffix.drop_last());
        assert((prefix + seq![c] + suffix).drop_last() =~= prefix + seq![c] + suffix.drop_last());
        assert((prefix + suffix).drop_last() =~= prefix + suffix.drop_last());
        assert((prefix + seq![c] + suffix).last() == suffix.last());
        assert((prefix + suffix).last() == suffix.last());
    }
}

} // verus!
