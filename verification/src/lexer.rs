//! Token reader: raw declaration text to a sequence of lexical tokens.

use vstd::prelude::*;

verus! {

/// One lexical item of the declaration grammar.
#[derive(Debug, Clone, PartialEq, Eq)]
pub enum Token {
    /// An identifier or keyword, as its bytes.
    Ident(Vec<u8>),
    LBrace,
    RBrace,
    LParen,
    RParen,
    Lt,
    Gt,
    Comma,
    Colon,
    Minus,
    Question,
}

/// Mathematical model of a token: identifier text as a byte sequence.
pub enum TokenModel {
    Ident(Seq<u8>),
    LBrace,
    RBrace,
    LParen,
    RParen,
    Lt,
    Gt,
    Comma,
    Colon,
    Minus,
    Question,
}

impl View for Token {
    type V = TokenModel;

    open spec fn view(&self) -> TokenModel {
        match self {
            Token::Ident(s) => TokenModel::Ident(s@),
            Token::LBrace => TokenModel::LBrace,
            Token::RBrace => TokenModel::RBrace,
            Token::LParen => TokenModel::LParen,
            Token::RParen => TokenModel::RParen,
            Token::Lt => TokenModel::Lt,
            Token::Gt => TokenModel::Gt,
            Token::Comma => TokenModel::Comma,
            Token::Colon => TokenModel::Colon,
            Token::Minus => TokenModel::Minus,
            Token::Question => TokenModel::Question,
        }
    }
}

/// The models of a token sequence.
pub open spec fn views_of(ts: Seq<Token>) -> Seq<TokenModel> {
    ts.map_values(|t: Token| t@)
}

/// The bytes of the declaration keyword.
pub open spec fn kw_struct() -> Seq<u8> {
    seq![115u8, 116u8, 114u8, 117u8, 99u8, 116u8]
}

/// The source text of a single token.
pub open spec fn tok_text(t: TokenModel) -> Seq<u8> {
    match t {
        TokenModel::Ident(s) => s,
        TokenModel::LBrace => seq![123u8],
        TokenModel::RBrace => seq![125u8],
        TokenModel::LParen => seq![40u8],
        TokenModel::RParen => seq![41u8],
        TokenModel::Lt => seq![60u8],
        TokenModel::Gt => seq![62u8],
        TokenModel::Comma => seq![44u8],
        TokenModel::Colon => seq![58u8],
        TokenModel::Minus => seq![45u8],
        TokenModel::Question => seq![63u8],
    }
}

/// Whether two adjacent tokens need a separating space when rendered back
/// to text (two identifiers would otherwise merge).
pub open spec fn needs_space(a: TokenModel, b: TokenModel) -> bool {
    a is Ident && b is Ident
}

/// The source text of a token run: token texts joined, with a space between
/// adjacent identifiers.
pub open spec fn texts_of(ts: Seq<TokenModel>) -> Seq<u8>
    decreases ts.len(),
{
    if ts.len() == 0 {
        Seq::empty()
    } else if ts.len() == 1 {
        tok_text(ts[0])
    } else {
        texts_of(ts.drop_last()) + (if needs_space(ts[ts.len() - 2], ts.last()) {
            seq![32u8]
        } else {
            Seq::empty()
        }) + tok_text(ts.last())
    }
}

/// Space, tab, line feed or carriage return.
pub open spec fn is_ws(b: u8) -> bool {
    b == 32u8 || b == 9u8 || b == 10u8 || b == 13u8
}

/// An ASCII letter or underscore.
pub open spec fn is_ident_start(b: u8) -> bool {
    (97u8 <= b && b <= 122u8) || (65u8 <= b && b <= 90u8) || b == 95u8
}

/// An ASCII letter, digit or underscore.
pub open spec fn is_ident_byte(b: u8) -> bool {
    is_ident_start(b) || (48u8 <= b && b <= 57u8)
}

/// One of the single-byte tokens: braces, parentheses, angle brackets,
/// comma, colon, the removal marker `-` and the optional marker `?`.
pub open spec fn is_punct(b: u8) -> bool {
    b == 123u8 || b == 125u8 || b == 40u8 || b == 41u8 || b == 60u8 || b == 62u8 || b == 44u8
        || b == 58u8 || b == 45u8 || b == 63u8
}

/// The token a punctuation byte stands for.
pub open spec fn punct_token(b: u8) -> TokenModel {
    if b == 123u8 {
        TokenModel::LBrace
    } else if b == 125u8 {
        TokenModel::RBrace
    } else if b == 40u8 {
        TokenModel::LParen
    } else if b == 41u8 {
        TokenModel::RParen
    } else if b == 60u8 {
        TokenModel::Lt
    } else if b == 62u8 {
        TokenModel::Gt
    } else if b == 44u8 {
        TokenModel::Comma
    } else if b == 58u8 {
        TokenModel::Colon
    } else if b == 45u8 {
        TokenModel::Minus
    } else {
        TokenModel::Question
    }
}

/// Number of consecutive identifier bytes starting at position i.
pub open spec fn ident_run(s: Seq<u8>, i: int) -> nat
    decreases s.len() - i,
{
    if 0 <= i && i < s.len() && is_ident_byte(s[i]) {
        1 + ident_run(s, i + 1)
    } else {
        0
    }
}

pub proof fn lemma_ident_run_bound(s: Seq<u8>, i: int)
    requires
        0 <= i <= s.len(),
    ensures
        i + ident_run(s, i) <= s.len(),
    decreases s.len() - i,
{
    if i < s.len() && is_ident_byte(s[i]) {
        lemma_ident_run_bound(s, i + 1);
    }
}

/// Raised when a byte is not representable as any token.
#[derive(Debug, Clone, Copy, PartialEq, Eq, Structural)]
pub struct LexError {
    /// Index of the offending byte.
    pub pos: usize,
}

/// The tokens of s from position i on; an error carries the index of the
/// first byte that no token can represent.
pub open spec fn lex_from(s: Seq<u8>, i: int) -> Result<Seq<TokenModel>, int>
    decreases s.len() - i,
        via lex_from_decreases
{
    if !(0 <= i && i < s.len()) {
        Ok(Seq::empty())
    } else if is_ws(s[i]) {
        lex_from(s, i + 1)
    } else if is_punct(s[i]) {
        match lex_from(s, i + 1) {
            Ok(r) => Ok(seq![punct_token(s[i])] + r),
            Err(e) => Err(e),
        }
    } else if is_ident_start(s[i]) {
        let j = i + ident_run(s, i);
        match lex_from(s, j) {
            Ok(r) => Ok(seq![TokenModel::Ident(s.subrange(i, j))] + r),
            Err(e) => Err(e),
        }
    } else {
        Err(i)
    }
}

#[via_fn]
proof fn lex_from_decreases(s: Seq<u8>, i: int) {
    if 0 <= i && i < s.len() && !is_ws(s[i]) && !is_punct(s[i]) && is_ident_start(s[i]) {
        lemma_ident_run_bound(s, i);
    }
}

/// Whether a byte may continue an identifier.
pub fn ident_byte(c: u8) -> (r: bool)
    ensures
        r == is_ident_byte(c),
{
    (97u8 <= c && c <= 122u8) || (65u8 <= c && c <= 90u8) || c == 95u8 || (48u8 <= c && c <= 57u8)
}

/// Combines already-produced tokens with the outcome of lexing the rest.
pub open spec fn lex_cat(done: Seq<TokenModel>, rest: Result<Seq<TokenModel>, int>) -> Result<
    Seq<TokenModel>,
    int,
> {
    match rest {
        Ok(r) => Ok(done + r),
        Err(e) => Err(e),
    }
}

/// Turns raw declaration text into its token sequence, or reports the first
/// byte that no token can represent.
pub fn lex(s: &Vec<u8>) -> (r: Result<Vec<Token>, LexError>)
    ensures
        ({
            let m = lex_from(s@, 0);
            match r {
                Ok(v) => m == Ok::<Seq<TokenModel>, int>(views_of(v@)),
                Err(e) => m == Err::<Seq<TokenModel>, int>(e.pos as int),
            }
        }),
{
    let mut toks: Vec<Token> = Vec::new();
    let mut i: usize = 0;
    proof {
        assert(views_of(toks@) =~= Seq::<TokenModel>::empty());
    }
    while i < s.len()
        invariant
            i <= s@.len(),
            lex_from(s@, 0) == lex_cat(views_of(toks@), lex_from(s@, i as int)),
        decreases s@.len() - i,
    {
        let b = s[i];
        if b == 32u8 || b == 9u8 || b == 10u8 || b == 13u8 {
            proof {
                assert(lex_from(s@, i as int) == lex_from(s@, i + 1));
            }
            i += 1;
        } else if b == 123u8 || b == 125u8 || b == 40u8 || b == 41u8 || b == 60u8 || b == 62u8
            || b == 44u8 || b == 58u8 || b == 45u8 || b == 63u8 {
            let t = if b == 123u8 {
                Token::LBrace
            } else if b == 125u8 {
                Token::RBrace
            } else if b == 40u8 {
                Token::LParen
            } else if b == 41u8 {
                Token::RParen
            } else if b == 60u8 {
                Token::Lt
            } else if b == 62u8 {
                Token::Gt
            } else if b == 44u8 {
                Token::Comma
            } else if b == 58u8 {
                Token::Colon
            } else if b == 45u8 {
                Token::Minus
            } else {
                Token::Question
            };
            proof {
                assert(t@ == punct_token(s@[i as int]));
                assert(views_of(toks@.push(t)) =~= views_of(toks@).push(t@));
                match lex_from(s@, i + 1) {
                    Ok(rest) => {
                        assert(lex_from(s@, i as int) == Ok::<Seq<TokenModel>, int>(seq![t@] + rest));
                        assert(views_of(toks@).push(t@) + rest =~= views_of(toks@) + (seq![t@]
                            + rest));
                    },
                    Err(_) => {},
                }
            }
            toks.push(t);
            i += 1;
        } else if (97u8 <= b && b <= 122u8) || (65u8 <= b && b <= 90u8) || b == 95u8 {
            let ghost start = i as int;
            let mut j: usize = i;
            let mut name: Vec<u8> = Vec::new();
            proof {
                assert(name@ =~= s@.subrange(start, start));
            }
            while j < s.len() && ident_byte(s[j])
                invariant
                    0 <= start <= j <= s@.len(),
                    ident_run(s@, start) == (j - start) + ident_run(s@, j as int),
                    name@ == s@.subrange(start, j as int),
                decreases s@.len() - j,
            {
                name.push(s[j]);
                proof {
                    assert(s@.subrange(start, j + 1) =~= s@.subrange(start, j as int).push(
                        s@[j as int],
                    ));
                }
                j += 1;
            }
            proof {
                assert(ident_run(s@, j as int) == 0);
                assert(ident_run(s@, start) == j - start);
            }
            let t = Token::Ident(name);
            proof {
                let tm = TokenModel::Ident(s@.subrange(start, j as int));
                assert(t@ == tm);
                assert(views_of(toks@.push(t)) =~= views_of(toks@).push(tm));
                match lex_from(s@, j as int) {
                    Ok(rest) => {
                        assert(lex_from(s@, start) == Ok::<Seq<TokenModel>, int>(seq![tm] + rest));
                        assert(views_of(toks@).push(tm) + rest =~= views_of(toks@) + (seq![tm]
                            + rest));
                    },
                    Err(_) => {},
                }
            }
            toks.push(t);
            i = j;
        } else {
            proof {
                assert(lex_from(s@, i as int) == Err::<Seq<TokenModel>, int>(i as int));
            }
            return Err(LexError { pos: i });
        }
    }
    proof {
        assert(lex_from(s@, i as int) == Ok::<Seq<TokenModel>, int>(Seq::<TokenModel>::empty()));
        assert(views_of(toks@) + Seq::<TokenModel>::empty() =~= views_of(toks@));
    }
    Ok(toks)
}

} // verus!
