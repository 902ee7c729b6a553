//! Instruction tokens and the lexer.
//!
//! The lexer filters raw source bytes down to the eight recognized
//! instruction symbols; every other byte is an implicit comment and is
//! silently dropped. A ninth internal sentinel token terminates token
//! streams; it never arises from a source byte.

use vstd::prelude::*;

verus! {

/// The eight instruction symbols of the language, plus the internal
/// sentinel `Nop` that terminates materialized token streams.
#[derive(Clone, Copy, Debug, PartialEq, Eq, Structural)]
pub enum Tok {
    /// `>`: move the data pointer forward.
    Fwd,
    /// `<`: move the data pointer backward.
    Bwd,
    /// `+`: increment the cell at the data pointer.
    Inc,
    /// `-`: decrement the cell at the data pointer.
    Dec,
    /// `.`: write the cell at the data pointer to the output.
    Out,
    /// `,`: read one byte of runtime input into the cell.
    In,
    /// `[`: open a loop.
    Open,
    /// `]`: close a loop.
    Close,
    /// Internal sentinel; never produced from a source byte.
    Nop,
}

/// The token, if any, that a source byte denotes.
pub open spec fn tok_of(b: u8) -> Option<Tok> {
    if b == 62 {
        Some(Tok::Fwd)
    } else if b == 60 {
        Some(Tok::Bwd)
    } else if b == 43 {
        Some(Tok::Inc)
    } else if b == 45 {
        Some(Tok::Dec)
    } else if b == 46 {
        Some(Tok::Out)
    } else if b == 44 {
        Some(Tok::In)
    } else if b == 91 {
        Some(Tok::Open)
    } else if b == 93 {
        Some(Tok::Close)
    } else {
        None
    }
}

/// The lexer as a mathematical function: the recognized symbols of `src`,
/// in their original order, with every other byte dropped.
pub open spec fn lex(src: Seq<u8>) -> Seq<Tok>
    decreases src.len(),
{
    if src.len() == 0 {
        Seq::empty()
    } else {
        match tok_of(src[0]) {
            Some(t) => seq![t] + lex(src.drop_first()),
            None => lex(src.drop_first()),
        }
    }
}

/// Appending one byte to the source appends at most one token.
proof fn lemma_lex_snoc(src: Seq<u8>, b: u8)
    ensures
        lex(src.push(b)) == (match tok_of(b) {
            Some(t) => lex(src).push(t),
            None => lex(src),
        }),
    decreases src.len(),
{
    if src.len() == 0 {
        assert(src =~= Seq::<u8>::empty());
        assert(src.push(b).drop_first() =~= src);
        assert(src.push(b)[0] == b);
        match tok_of(b) {
            Some(t) => {
                assert(lex(src.push(b)) == seq![t] + lex(src));
                assert(seq![t] + lex(src) =~= lex(src).push(t));
            },
            None => {
                assert(lex(src.push(b)) == lex(src));
            },
        }
    } else {
        assert(src.push(b).drop_first() =~= src.drop_first().push(b));
        assert(src.push(b)[0] == src[0]);
        lemma_lex_snoc(src.drop_first(), b);
        match tok_of(src[0]) {
            Some(t0) => {
                assert(lex(src.push(b)) == seq![t0] + lex(src.drop_first().push(b)));
                assert(lex(src) == seq![t0] + lex(src.drop_first()));
                match tok_of(b) {
                    Some(t) => {
                        assert(seq![t0] + lex(src.drop_first()).push(t) =~= (seq![t0]
                            + lex(src.drop_first())).push(t));
                    },
                    None => {},
                }
            },
            None => {
                assert(lex(src.push(b)) == lex(src.drop_first().push(b)));
                assert(lex(src) == lex(src.drop_first()));
            },
        }
    }
}

/// Every token the lexer produces is one of the eight instruction
/// symbols: the sentinel never appears in `lex(src)`. Together with the
/// definition of [`lex`] as an order-preserving filter, this is the
/// guarantee that lexer output consists of recognized symbols in source
/// order.
pub proof fn lemma_lex_symbols(src: Seq<u8>)
    ensures
        forall|i: int| 0 <= i < lex(src).len() ==> lex(src)[i] != Tok::Nop,
    decreases src.len(),
{
    if src.len() == 0 {
    } else {
        lemma_lex_symbols(src.drop_first());
        match tok_of(src[0]) {
            Some(t) => {
                assert(lex(src)[0] == t);
                assert(forall|i: int|
                    1 <= i < lex(src).len() ==> lex(src)[i] == lex(src.drop_first())[i - 1]);
            },
            None => {},
        }
    }
}

/// The lexer. Produces the recognized tokens of `src` in order, followed
/// by the sentinel that terminates every materialized token stream.
pub fn tokenize(src: &[u8]) -> (tokens: Vec<Tok>)
    ensures
        tokens@ == lex(src@).push(Tok::Nop),
{
    let mut tokens: Vec<Tok> = Vec::new();
    let n = src.len();
    let mut i: usize = 0;
    while i < n
        invariant
            i <= n,
            n == src@.len(),
            tokens@ == lex(src@.subrange(0, i as int)),
        decreases n - i,
    {
        let b = src[i];
        if b == 62 {
            tokens.push(Tok::Fwd);
        } else if b == 60 {
            tokens.push(Tok::Bwd);
        } else if b == 43 {
            tokens.push(Tok::Inc);
        } else if b == 45 {
            tokens.push(Tok::Dec);
        } else if b == 46 {
            tokens.push(Tok::Out);
        } else if b == 44 {
            tokens.push(Tok::In);
        } else if b == 91 {
            tokens.push(Tok::Open);
        } else if b == 93 {
            tokens.push(Tok::Close);
        }
        proof {
            assert(src@.subrange(0, i + 1 as int) =~= src@.subrange(0, i as int).push(src@[i as int]));
            lemma_lex_snoc(src@.subrange(0, i as int), src@[i as int]);
        }
        i = i + 1;
    }
    proof {
        assert(src@.subrange(0, n as int) =~= src@);
    }
    tokens.push(Tok::Nop);
    tokens
}

} // verus!
