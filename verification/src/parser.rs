//! Diff parser: token sequence to declarations.
//!
//! A batch is one or more declarations of the form
//! `[metadata] struct Name [<generics>] [?] { entry, ... }`, where an entry
//! is either `name: Type` (an addition) or `- name` (a removal). The first
//! declaration is always the base; the rest are variants.

use vstd::prelude::*;

use crate::ast::{fields_model, names_model, decls_model, contains_field_name, distinct_names,
    fields_contain_name,
    DeclModel, DeclaredType, FieldModel, FieldSpec};
use crate::bytes::{copy_bytes, push_all};
use crate::lexer::{kw_struct, needs_space, texts_of, tok_text, views_of, Token, TokenModel};

verus! {

/// Raised when a declaration violates the grammar. Positions are token
/// indices into the lexed input.
#[derive(Debug, Clone, Copy, PartialEq, Eq, Structural)]
pub enum ParseError {
    /// Something other than metadata stands where the declaration keyword should.
    ExpectedStruct { pos: usize },
    /// The declaration keyword is not followed by a type name.
    MissingName { pos: usize },
    /// A generic parameter list is never closed.
    UnclosedGenerics { pos: usize },
    /// The declaration header is not followed by a braced entry list.
    MissingBrace { pos: usize },
    /// The input ends inside a braced entry list.
    UnclosedBrace { pos: usize },
    /// An entry matches neither the add nor the remove grammar.
    BadEntry { pos: usize },
    /// A malformed separator between entries.
    BadSeparator { pos: usize },
    /// The same field name is added twice by one declaration.
    DuplicateField { pos: usize },
}

/// Whether a token may belong to the opaque leading metadata of a
/// declaration (visibility fragments and the like).
pub open spec fn is_meta_token(t: TokenModel) -> bool {
    match t {
        TokenModel::Ident(s) => s != kw_struct(),
        TokenModel::LParen => true,
        TokenModel::RParen => true,
        _ => false,
    }
}

/// Number of consecutive metadata tokens starting at position i.
pub open spec fn meta_run(ts: Seq<TokenModel>, i: int) -> nat
    decreases ts.len() - i,
{
    if 0 <= i && i < ts.len() && is_meta_token(ts[i]) {
        1 + meta_run(ts, i + 1)
    } else {
        0
    }
}

pub proof fn lemma_meta_run_bound(ts: Seq<TokenModel>, i: int)
    requires
        0 <= i <= ts.len(),
    ensures
        i + meta_run(ts, i) <= ts.len(),
    decreases ts.len() - i,
{
    if i < ts.len() && is_meta_token(ts[i]) {
        lemma_meta_run_bound(ts, i + 1);
    }
}

/// Index of the `>` that closes a generics list, scanning from i at the
/// given nesting depth; None when the list never closes.
pub open spec fn gen_close(ts: Seq<TokenModel>, i: int, depth: int) -> Option<int>
    decreases ts.len() - i,
{
    if !(0 <= i && i < ts.len()) {
        None
    } else {
        match ts[i] {
            TokenModel::LBrace => None,
            TokenModel::RBrace => None,
            TokenModel::Lt => gen_close(ts, i + 1, depth + 1),
            TokenModel::Gt => if depth <= 1 {
                Some(i)
            } else {
                gen_close(ts, i + 1, depth - 1)
            },
            _ => gen_close(ts, i + 1, depth),
        }
    }
}

pub proof fn lemma_gen_close_bound(ts: Seq<TokenModel>, i: int, depth: int)
    requires
        0 <= i,
    ensures
        gen_close(ts, i, depth) matches Some(k) ==> i <= k < ts.len(),
    decreases ts.len() - i,
{
    if 0 <= i && i < ts.len() {
        lemma_gen_close_bound(ts, i + 1, depth + 1);
        lemma_gen_close_bound(ts, i + 1, depth - 1);
        lemma_gen_close_bound(ts, i + 1, depth);
    }
}

/// Index of the token that ends a type expression (a comma or closing brace
/// outside all angle brackets and parentheses), scanning from i.
/// An error carries the index where the scan failed; the input's length
/// stands for running off the end.
pub open spec fn ty_close(ts: Seq<TokenModel>, i: int, ang: int, par: int) -> Result<int, int>
    decreases ts.len() - i,
{
    if !(0 <= i && i < ts.len()) {
        Err(i)
    } else {
        match ts[i] {
            TokenModel::Comma => if ang == 0 && par == 0 {
                Ok(i)
            } else {
                ty_close(ts, i + 1, ang, par)
            },
            TokenModel::RBrace => if ang == 0 && par == 0 {
                Ok(i)
            } else {
                Err(i)
            },
            TokenModel::LBrace => Err(i),
            TokenModel::Lt => ty_close(ts, i + 1, ang + 1, par),
            TokenModel::Gt => if ang <= 0 {
                Err(i)
            } else {
                ty_close(ts, i + 1, ang - 1, par)
            },
            TokenModel::LParen => ty_close(ts, i + 1, ang, par + 1),
            TokenModel::RParen => if par <= 0 {
                Err(i)
            } else {
                ty_close(ts, i + 1, ang, par - 1)
            },
            _ => ty_close(ts, i + 1, ang, par),
        }
    }
}

pub proof fn lemma_ty_close_bound(ts: Seq<TokenModel>, i: int, ang: int, par: int)
    requires
        0 <= i <= ts.len(),
    ensures
        ty_close(ts, i, ang, par) matches Ok(k) ==> i <= k < ts.len(),
        ty_close(ts, i, ang, par) matches Err(f) ==> i <= f <= ts.len(),
    decreases ts.len() - i,
{
    if 0 <= i && i < ts.len() {
        lemma_ty_close_bound(ts, i + 1, ang, par);
        lemma_ty_close_bound(ts, i + 1, ang + 1, par);
        lemma_ty_close_bound(ts, i + 1, ang - 1, par);
        lemma_ty_close_bound(ts, i + 1, ang, par + 1);
        lemma_ty_close_bound(ts, i + 1, ang, par - 1);
    }
}

/// Parses the comma-separated entries of one declaration, from just inside
/// the opening brace to just past the closing brace. Accumulates added
/// fields and removed names.
pub open spec fn parse_entries(
    ts: Seq<TokenModel>,
    i: int,
    added: Seq<FieldModel>,
    removed: Seq<Seq<u8>>,
) -> Result<(Seq<FieldModel>, Seq<Seq<u8>>, int), ParseError>
    decreases ts.len() - i,
        via parse_entries_decreases
{
    if !(0 <= i && i < ts.len()) {
        Err(ParseError::UnclosedBrace { pos: ts.len() as usize })
    } else {
        match ts[i] {
            TokenModel::RBrace => Ok((added, removed, i + 1)),
            TokenModel::Comma => Err(ParseError::BadSeparator { pos: i as usize }),
            TokenModel::Minus => if !(i + 1 < ts.len()) {
                Err(ParseError::UnclosedBrace { pos: ts.len() as usize })
            } else {
                match ts[i + 1] {
                    TokenModel::Ident(n) => if !(i + 2 < ts.len()) {
                        Err(ParseError::UnclosedBrace { pos: ts.len() as usize })
                    } else if ts[i + 2] is Comma {
                        parse_entries(ts, i + 3, added, removed.push(n))
                    } else if ts[i + 2] is RBrace {
                        Ok((added, removed.push(n), i + 3))
                    } else {
                        Err(ParseError::BadSeparator { pos: (i + 2) as usize })
                    },
                    _ => Err(ParseError::BadEntry { pos: (i + 1) as usize }),
                }
            },
            TokenModel::Ident(n) => if !(i + 1 < ts.len() && ts[i + 1] is Colon) {
                Err(ParseError::BadEntry { pos: i as usize })
            } else {
                match ty_close(ts, i + 2, 0, 0) {
                    Err(f) => if f >= ts.len() {
                        Err(ParseError::UnclosedBrace { pos: ts.len() as usize })
                    } else {
                        Err(ParseError::BadEntry { pos: f as usize })
                    },
                    Ok(k) => if k == i + 2 {
                        Err(ParseError::BadEntry { pos: (i + 2) as usize })
                    } else if fields_contain_name(added, n) {
                        Err(ParseError::DuplicateField { pos: i as usize })
                    } else {
                        let f = FieldModel {
                            name: n,
                            ty: texts_of(ts.subrange(i + 2, k)),
                            source_order: added.len(),
                        };
                        if ts[k] is Comma {
                            parse_entries(ts, k + 1, added.push(f), removed)
                        } else {
                            Ok((added.push(f), removed, k + 1))
                        }
                    },
                }
            },
            _ => Err(ParseError::BadEntry { pos: i as usize }),
        }
    }
}

#[via_fn]
proof fn parse_entries_decreases(
    ts: Seq<TokenModel>,
    i: int,
    added: Seq<FieldModel>,
    removed: Seq<Seq<u8>>,
) {
    if 0 <= i && i + 2 <= ts.len() {
        lemma_ty_close_bound(ts, i + 2, 0, 0);
    }
}

pub proof fn lemma_parse_entries_bound(
    ts: Seq<TokenModel>,
    i: int,
    added: Seq<FieldModel>,
    removed: Seq<Seq<u8>>,
)
    requires
        0 <= i <= ts.len(),
    ensures
        parse_entries(ts, i, added, removed) matches Ok(t) ==> i < t.2 <= ts.len(),
    decreases ts.len() - i,
{
    if 0 <= i && i < ts.len() {
        match ts[i] {
            TokenModel::Minus => {
                if i + 2 < ts.len() {
                    match ts[i + 1] {
                        TokenModel::Ident(n) => {
                            if ts[i + 2] is Comma {
                                lemma_parse_entries_bound(ts, i + 3, added, removed.push(n));
                            }
                        },
                        _ => {},
                    }
                }
            },
            TokenModel::Ident(n) => {
                if i + 1 < ts.len() && ts[i + 1] is Colon {
                    lemma_ty_close_bound(ts, i + 2, 0, 0);
                    match ty_close(ts, i + 2, 0, 0) {
                        Ok(k) => {
                            if k != i + 2 && !fields_contain_name(added, n) {
                                let f = FieldModel {
                                    name: n,
                                    ty: texts_of(ts.subrange(i + 2, k)),
                                    source_order: added.len(),
                                };
                                if ts[k] is Comma {
                                    lemma_parse_entries_bound(ts, k + 1, added.push(f), removed);
                                }
                            }
                        },
                        Err(_) => {},
                    }
                }
            },
            _ => {},
        }
    }
}

/// Parses the rest of one declaration after its name and generics: the
/// optional-inherited marker and the braced entry list.
pub open spec fn parse_decl_tail(
    ts: Seq<TokenModel>,
    i: int,
    meta: Seq<u8>,
    name: Seq<u8>,
    generics: Seq<u8>,
    base: bool,
) -> Result<(DeclModel, int), ParseError> {
    let opt = i < ts.len() && ts[i] is Question;
    let bi = if opt {
        i + 1
    } else {
        i
    };
    if !(bi < ts.len() && ts[bi] is LBrace) {
        Err(ParseError::MissingBrace { pos: bi as usize })
    } else {
        match parse_entries(ts, bi + 1, Seq::empty(), Seq::empty()) {
            Err(e) => Err(e),
            Ok(t) => Ok(
                (
                    DeclModel {
                        name,
                        metadata: meta,
                        generics,
                        is_base: base,
                        optional_inherited: opt,
                        added: t.0,
                        removed: t.1,
                    },
                    t.2,
                ),
            ),
        }
    }
}

/// The identifier text of a token (empty for non-identifiers).
pub open spec fn tok_ident_text(t: TokenModel) -> Seq<u8> {
    match t {
        TokenModel::Ident(s) => s,
        _ => Seq::empty(),
    }
}

/// Parses one whole declaration starting at position i.
pub open spec fn parse_decl(ts: Seq<TokenModel>, i: int, base: bool) -> Result<
    (DeclModel, int),
    ParseError,
> {
    let m = i + meta_run(ts, i);
    if !(m < ts.len() && ts[m] == TokenModel::Ident(kw_struct())) {
        Err(ParseError::ExpectedStruct { pos: m as usize })
    } else if !(m + 1 < ts.len() && ts[m + 1] is Ident) {
        Err(ParseError::MissingName { pos: (m + 1) as usize })
    } else {
        let meta = texts_of(ts.subrange(i, m));
        let name = tok_ident_text(ts[m + 1]);
        let gi = m + 2;
        if gi < ts.len() && ts[gi] is Lt {
            match gen_close(ts, gi + 1, 1) {
                None => Err(ParseError::UnclosedGenerics { pos: gi as usize }),
                Some(k) => parse_decl_tail(
                    ts,
                    k + 1,
                    meta,
                    name,
                    texts_of(ts.subrange(gi, k + 1)),
                    base,
                ),
            }
        } else {
            parse_decl_tail(ts, gi, meta, name, Seq::empty(), base)
        }
    }
}

pub proof fn lemma_parse_decl_bound(ts: Seq<TokenModel>, i: int, base: bool)
    requires
        0 <= i <= ts.len(),
    ensures
        parse_decl(ts, i, base) matches Ok(t) ==> i < t.1 <= ts.len(),
{
    lemma_meta_run_bound(ts, i);
    let m = i + meta_run(ts, i);
    if m < ts.len() && ts[m] == TokenModel::Ident(kw_struct()) && m + 1 < ts.len() && ts[m
        + 1] is Ident {
        let gi = m + 2;
        if gi < ts.len() && ts[gi] is Lt {
            lemma_gen_close_bound(ts, gi + 1, 1);
            match gen_close(ts, gi + 1, 1) {
                Some(k) => {
                    lemma_parse_decl_tail_bound(ts, k + 1, base);
                },
                None => {},
            }
        } else {
            lemma_parse_decl_tail_bound(ts, gi, base);
        }
    }
}

proof fn lemma_parse_decl_tail_bound(ts: Seq<TokenModel>, i: int, base: bool)
    requires
        0 <= i <= ts.len() + 1,
    ensures
        forall|meta: Seq<u8>, name: Seq<u8>, generics: Seq<u8>|
            #[trigger] parse_decl_tail(ts, i, meta, name, generics, base) matches Ok(t) ==> i < t.1
                <= ts.len(),
{
    let opt = i < ts.len() && ts[i] is Question;
    let bi = if opt {
        i + 1
    } else {
        i
    };
    if bi < ts.len() && ts[bi] is LBrace {
        lemma_parse_entries_bound(ts, bi + 1, Seq::empty(), Seq::empty());
    }
}

/// Parses declarations until the input is exhausted. The first declaration
/// of a batch is the base; every later one is a variant.
pub open spec fn parse_decls(ts: Seq<TokenModel>, i: int, base: bool) -> Result<
    Seq<DeclModel>,
    ParseError,
>
    decreases ts.len() - i,
        via parse_decls_decreases
{
    if !(0 <= i && i < ts.len()) {
        Ok(Seq::empty())
    } else {
        match parse_decl(ts, i, base) {
            Err(e) => Err(e),
            Ok(t) => match parse_decls(ts, t.1, false) {
                Err(e) => Err(e),
                Ok(rest) => Ok(seq![t.0] + rest),
            },
        }
    }
}

#[via_fn]
proof fn parse_decls_decreases(ts: Seq<TokenModel>, i: int, base: bool) {
    if 0 <= i && i < ts.len() {
        lemma_parse_decl_bound(ts, i, base);
    }
}

/// Whether these bytes spell the declaration keyword.
fn is_kw_struct(s: &Vec<u8>) -> (r: bool)
    ensures
        r == (s@ == kw_struct()),
{
    let r = s.len() == 6 && s[0] == 115 && s[1] == 116 && s[2] == 114 && s[3] == 117 && s[4] == 99
        && s[5] == 116;
    proof {
        if r {
            assert(s@ =~= kw_struct());
        } else {
            if s@ == kw_struct() {
                assert(s@.len() == 6);
                assert(s@[0] == 115 && s@[1] == 116 && s@[2] == 114 && s@[3] == 117 && s@[4] == 99
                    && s@[5] == 116);
            }
        }
    }
    r
}

fn meta_token(t: &Token) -> (r: bool)
    ensures
        r == is_meta_token(t@),
{
    match t {
        Token::Ident(s) => !is_kw_struct(s),
        Token::LParen => true,
        Token::RParen => true,
        _ => false,
    }
}

fn tok_is_question(t: &Token) -> (r: bool)
    ensures
        r == (t@ is Question),
{
    match t {
        Token::Question => true,
        _ => false,
    }
}

fn tok_is_lbrace(t: &Token) -> (r: bool)
    ensures
        r == (t@ is LBrace),
{
    match t {
        Token::LBrace => true,
        _ => false,
    }
}

fn tok_is_lt(t: &Token) -> (r: bool)
    ensures
        r == (t@ is Lt),
{
    match t {
        Token::Lt => true,
        _ => false,
    }
}

/// First position at or after i that holds no metadata token.
fn scan_meta(ts: &Vec<Token>, i: usize) -> (j: usize)
    requires
        i <= ts@.len(),
    ensures
        i <= j <= ts@.len(),
        j == i + meta_run(views_of(ts@), i as int),
{
    let ghost v = views_of(ts@);
    let mut j: usize = i;
    while j < ts.len() && meta_token(&ts[j])
        invariant
            i <= j <= ts@.len(),
            v == views_of(ts@),
            meta_run(v, i as int) == (j - i) + meta_run(v, j as int),
        decreases ts@.len() - j,
    {
        proof {
            assert(v[j as int] == ts@[j as int]@);
            assert(meta_run(v, j as int) == 1 + meta_run(v, j + 1));
        }
        j += 1;
    }
    proof {
        if j < ts@.len() {
            assert(v[j as int] == ts@[j as int]@);
        }
        assert(meta_run(v, j as int) == 0);
    }
    j
}

/// Scans for the `>` that closes a generics list opened just before start.
fn find_gen_close(ts: &Vec<Token>, start: usize) -> (r: Option<usize>)
    requires
        start <= ts@.len(),
    ensures
        ({
            let g = gen_close(views_of(ts@), start as int, 1);
            match r {
                Some(k) => g == Some(k as int) && start <= k < ts@.len(),
                None => g is None,
            }
        }),
{
    let ghost v = views_of(ts@);
    let mut j: usize = start;
    let mut d: u128 = 1;
    while j < ts.len()
        invariant
            start <= j <= ts@.len(),
            v == views_of(ts@),
            1 <= d <= 1 + (j - start),
            gen_close(v, start as int, 1) == gen_close(v, j as int, d as int),
        decreases ts@.len() - j,
    {
        proof {
            assert(v[j as int] == ts@[j as int]@);
        }
        match &ts[j] {
            Token::LBrace => {
                return None;
            },
            Token::RBrace => {
                return None;
            },
            Token::Lt => {
                proof {
                    assert(gen_close(v, j as int, d as int) == gen_close(v, j + 1, d as int + 1));
                }
                d = d + 1;
                j += 1;
            },
            Token::Gt => {
                if d == 1 {
                    proof {
                        assert(gen_close(v, j as int, d as int) == Some(j as int));
                    }
                    return Some(j);
                } else {
                    proof {
                        assert(gen_close(v, j as int, d as int) == gen_close(
                            v,
                            j + 1,
                            d as int - 1,
                        ));
                    }
                    d = d - 1;
                    j += 1;
                }
            },
            _ => {
                proof {
                    assert(gen_close(v, j as int, d as int) == gen_close(v, j + 1, d as int));
                }
                j += 1;
            },
        }
    }
    None
}

/// Scans for the token that ends a type expression starting at start.
fn find_ty_close(ts: &Vec<Token>, start: usize) -> (r: Result<usize, usize>)
    requires
        start <= ts@.len(),
    ensures
        ({
            let g = ty_close(views_of(ts@), start as int, 0, 0);
            match r {
                Ok(k) => g == Ok::<int, int>(k as int) && start <= k < ts@.len(),
                Err(f) => g == Err::<int, int>(f as int) && start <= f <= ts@.len(),
            }
        }),
{
    let ghost v = views_of(ts@);
    let mut j: usize = start;
    let mut ang: u128 = 0;
    let mut par: u128 = 0;
    while j < ts.len()
        invariant
            start <= j <= ts@.len(),
            v == views_of(ts@),
            ang <= (j - start),
            par <= (j - start),
            ty_close(v, start as int, 0, 0) == ty_close(v, j as int, ang as int, par as int),
        decreases ts@.len() - j,
    {
        proof {
            assert(v[j as int] == ts@[j as int]@);
        }
        match &ts[j] {
            Token::Comma => {
                if ang == 0 && par == 0 {
                    return Ok(j);
                } else {
                    proof {
                        assert(ty_close(v, j as int, ang as int, par as int) == ty_close(
                            v,
                            j + 1,
                            ang as int,
                            par as int,
                        ));
                    }
                    j += 1;
                }
            },
            Token::RBrace => {
                if ang == 0 && par == 0 {
                    return Ok(j);
                } else {
                    return Err(j);
                }
            },
            Token::LBrace => {
                return Err(j);
            },
            Token::Lt => {
                proof {
                    assert(ty_close(v, j as int, ang as int, par as int) == ty_close(
                        v,
                        j + 1,
                        ang as int + 1,
                        par as int,
                    ));
                }
                ang = ang + 1;
                j += 1;
            },
            Token::Gt => {
                if ang == 0 {
                    return Err(j);
                } else {
                    proof {
                        assert(ty_close(v, j as int, ang as int, par as int) == ty_close(
                            v,
                            j + 1,
                            ang as int - 1,
                            par as int,
                        ));
                    }
                    ang = ang - 1;
                    j += 1;
                }
            },
            Token::LParen => {
                proof {
                    assert(ty_close(v, j as int, ang as int, par as int) == ty_close(
                        v,
                        j + 1,
                        ang as int,
                        par as int + 1,
                    ));
                }
                par = par + 1;
                j += 1;
            },
            Token::RParen => {
                if par == 0 {
                    return Err(j);
                } else {
                    proof {
                        assert(ty_close(v, j as int, ang as int, par as int) == ty_close(
                            v,
                            j + 1,
                            ang as int,
                            par as int - 1,
                        ));
                    }
                    par = par - 1;
                    j += 1;
                }
            },
            _ => {
                proof {
                    assert(ty_close(v, j as int, ang as int, par as int) == ty_close(
                        v,
                        j + 1,
                        ang as int,
                        par as int,
                    ));
                }
                j += 1;
            },
        }
    }
    Err(j)
}

/// The source text of the token range [lo, hi).
fn append_texts(ts: &Vec<Token>, lo: usize, hi: usize) -> (r: Vec<u8>)
    requires
        lo <= hi <= ts@.len(),
    ensures
        r@ == texts_of(views_of(ts@).subrange(lo as int, hi as int)),
{
    let ghost v = views_of(ts@);
    let mut out: Vec<u8> = Vec::new();
    let mut k: usize = lo;
    proof {
        assert(out@ =~= texts_of(v.subrange(lo as int, lo as int)));
    }
    while k < hi
        invariant
            lo <= k <= hi <= ts@.len(),
            v == views_of(ts@),
            out@ == texts_of(v.subrange(lo as int, k as int)),
        decreases hi - k,
    {
        proof {
            assert(v[k as int] == ts@[k as int]@);
        }
        let ghost s2 = v.subrange(lo as int, k + 1);
        proof {
            assert(s2.drop_last() =~= v.subrange(lo as int, k as int));
            assert(s2.last() == v[k as int]);
            if k > lo {
                assert(s2[s2.len() - 2] == v[k - 1]);
            }
        }
        // a space keeps two adjacent identifiers apart
        if k > lo {
            let prev_ident = match &ts[k - 1] {
                Token::Ident(_) => true,
                _ => false,
            };
            let cur_ident = match &ts[k] {
                Token::Ident(_) => true,
                _ => false,
            };
            proof {
                assert(v[k - 1] == ts@[k - 1]@);
            }
            if prev_ident && cur_ident {
                out.push(32);
            }
        }
        match &ts[k] {
            Token::Ident(s) => {
                push_all(&mut out, s);
                proof {
                    assert(tok_text(v[k as int]) == s@);
                }
            },
            Token::LBrace => out.push(123),
            Token::RBrace => out.push(125),
            Token::LParen => out.push(40),
            Token::RParen => out.push(41),
            Token::Lt => out.push(60),
            Token::Gt => out.push(62),
            Token::Comma => out.push(44),
            Token::Colon => out.push(58),
            Token::Minus => out.push(45),
            Token::Question => out.push(63),
        }
        proof {
            let prev = texts_of(v.subrange(lo as int, k as int));
            let sep: Seq<u8> = if k > lo && needs_space(v[k - 1], v[k as int]) {
                seq![32u8]
            } else {
                Seq::<u8>::empty()
            };
            if k == lo {
                assert(s2.len() == 1);
                assert(texts_of(s2) == tok_text(s2[0]));
                assert(out@ =~= prev + sep + tok_text(v[k as int]));
            } else {
                assert(texts_of(s2) == texts_of(s2.drop_last()) + (if needs_space(
                    s2[s2.len() - 2],
                    s2.last(),
                ) {
                    seq![32u8]
                } else {
                    Seq::<u8>::empty()
                }) + tok_text(s2.last()));
                assert(out@ =~= prev + sep + tok_text(v[k as int]));
            }
            assert(out@ == texts_of(s2));
        }
        k += 1;
    }
    out
}

/// Parses the entries of one declaration; mirrors `parse_entries`.
fn parse_entries_exec(ts: &Vec<Token>, i: usize, added: Vec<FieldSpec>, removed: Vec<Vec<u8>>)
    -> (r: Result<(Vec<FieldSpec>, Vec<Vec<u8>>, usize), ParseError>)
    requires
        i <= ts@.len(),
    ensures
        ({
            let sr = parse_entries(
                views_of(ts@),
                i as int,
                fields_model(added@),
                names_model(removed@),
            );
            match r {
                Ok(t) => sr == Ok::<(Seq<FieldModel>, Seq<Seq<u8>>, int), ParseError>(
                    (fields_model(t.0@), names_model(t.1@), t.2 as int),
                ) && t.2 <= ts@.len(),
                Err(e) => sr == Err::<(Seq<FieldModel>, Seq<Seq<u8>>, int), ParseError>(e),
            }
        }),
    decreases ts@.len() - i,
{
    let ghost v = views_of(ts@);
    let ghost added0 = added@;
    let ghost removed0 = removed@;
    if i >= ts.len() {
        return Err(ParseError::UnclosedBrace { pos: ts.len() });
    }
    proof {
        assert(v[i as int] == ts@[i as int]@);
    }
    match &ts[i] {
        Token::RBrace => Ok((added, removed, i + 1)),
        Token::Comma => Err(ParseError::BadSeparator { pos: i }),
        Token::Minus => {
            if !(i + 1 < ts.len()) {
                return Err(ParseError::UnclosedBrace { pos: ts.len() });
            }
            proof {
                assert(v[i + 1] == ts@[i + 1]@);
            }
            match &ts[i + 1] {
                Token::Ident(nm) => {
                    if !(i + 2 < ts.len()) {
                        return Err(ParseError::UnclosedBrace { pos: ts.len() });
                    }
                    proof {
                        assert(v[i + 2] == ts@[i + 2]@);
                    }
                    match &ts[i + 2] {
                        Token::Comma => {
                            let n2 = copy_bytes(nm);
                            let mut removed2 = removed;
                            removed2.push(n2);
                            proof {
                                assert(names_model(removed2@) =~= names_model(removed0).push(nm@));
                            }
                            parse_entries_exec(ts, i + 3, added, removed2)
                        },
                        Token::RBrace => {
                            let n2 = copy_bytes(nm);
                            let mut removed2 = removed;
                            removed2.push(n2);
                            proof {
                                assert(names_model(removed2@) =~= names_model(removed0).push(nm@));
                            }
                            Ok((added, removed2, i + 3))
                        },
                        _ => Err(ParseError::BadSeparator { pos: i + 2 }),
                    }
                },
                _ => Err(ParseError::BadEntry { pos: i + 1 }),
            }
        },
        Token::Ident(nm) => {
            if !(i + 1 < ts.len()) {
                return Err(ParseError::BadEntry { pos: i });
            }
            proof {
                assert(v[i + 1] == ts@[i + 1]@);
            }
            match &ts[i + 1] {
                Token::Colon => {
                    match find_ty_close(ts, i + 2) {
                        Err(f) => {
                            if f >= ts.len() {
                                Err(ParseError::UnclosedBrace { pos: ts.len() })
                            } else {
                                Err(ParseError::BadEntry { pos: f })
                            }
                        },
                        Ok(k) => {
                            if k == i + 2 {
                                return Err(ParseError::BadEntry { pos: i + 2 });
                            }
                            if contains_field_name(&added, nm) {
                                return Err(ParseError::DuplicateField { pos: i });
                            }
                            let fname = copy_bytes(nm);
                            let fty = append_texts(ts, i + 2, k);
                            let f = FieldSpec { name: fname, ty: fty, source_order: added.len() };
                            let ghost fm = FieldModel {
                                name: nm@,
                                ty: texts_of(v.subrange(i + 2, k as int)),
                                source_order: added@.len(),
                            };
                            proof {
                                assert(f@ =~= fm);
                            }
                            let mut added2 = added;
                            added2.push(f);
                            proof {
                                assert(fields_model(added2@) =~= fields_model(added0).push(fm));
                                assert(v[k as int] == ts@[k as int]@);
                            }
                            match &ts[k] {
                                Token::Comma => parse_entries_exec(ts, k + 1, added2, removed),
                                _ => Ok((added2, removed, k + 1)),
                            }
                        },
                    }
                },
                _ => Err(ParseError::BadEntry { pos: i }),
            }
        },
        _ => Err(ParseError::BadEntry { pos: i }),
    }
}

/// Entries accumulate distinct field names: a duplicate is rejected, so
/// whatever comes back keeps the names distinct.
pub proof fn lemma_parse_entries_distinct(
    ts: Seq<TokenModel>,
    i: int,
    added: Seq<FieldModel>,
    removed: Seq<Seq<u8>>,
)
    requires
        0 <= i <= ts.len(),
        distinct_names(added),
    ensures
        parse_entries(ts, i, added, removed) matches Ok(t) ==> distinct_names(t.0),
    decreases ts.len() - i,
{
    if 0 <= i && i < ts.len() {
        match ts[i] {
            TokenModel::Minus => {
                if i + 2 < ts.len() {
                    match ts[i + 1] {
                        TokenModel::Ident(n) => {
                            if ts[i + 2] is Comma {
                                lemma_parse_entries_distinct(ts, i + 3, added, removed.push(n));
                            }
                        },
                        _ => {},
                    }
                }
            },
            TokenModel::Ident(n) => {
                if i + 1 < ts.len() && ts[i + 1] is Colon {
                    lemma_ty_close_bound(ts, i + 2, 0, 0);
                    match ty_close(ts, i + 2, 0, 0) {
                        Ok(k) => {
                            if k != i + 2 && !fields_contain_name(added, n) {
                                let f = FieldModel {
                                    name: n,
                                    ty: texts_of(ts.subrange(i + 2, k)),
                                    source_order: added.len(),
                                };
                                assert(distinct_names(added.push(f))) by {
                                    assert forall|j: int, m: int|
                                        0 <= j < m < added.push(f).len() implies added.push(
                                        f,
                                    )[j].name != added.push(f)[m].name by {
                                        if m == added.len() {
                                            assert(added.push(f)[j] == added[j]);
                                            assert(!(added[j].name == n));
                                        }
                                    }
                                }
                                if ts[k] is Comma {
                                    lemma_parse_entries_distinct(ts, k + 1, added.push(f), removed);
                                }
                            }
                        },
                        Err(_) => {},
                    }
                }
            },
            _ => {},
        }
    }
}

/// Every declaration the parser returns has distinct added field names, and
/// its base flag is the one the parse was started with.
pub proof fn lemma_parse_decl_shape(ts: Seq<TokenModel>, i: int, base: bool)
    requires
        0 <= i <= ts.len(),
    ensures
        parse_decl(ts, i, base) matches Ok(t) ==> distinct_names(t.0.added) && t.0.is_base
            == base,
{
    let m = i + meta_run(ts, i);
    lemma_meta_run_bound(ts, i);
    if m < ts.len() && ts[m] == TokenModel::Ident(kw_struct()) && m + 1 < ts.len() && ts[m
        + 1] is Ident {
        let gi = m + 2;
        if gi < ts.len() && ts[gi] is Lt {
            match gen_close(ts, gi + 1, 1) {
                Some(k) => {
                    lemma_gen_close_bound(ts, gi + 1, 1);
                    lemma_parse_decl_tail_shape(ts, k + 1, base);
                },
                None => {},
            }
        } else {
            lemma_parse_decl_tail_shape(ts, gi, base);
        }
    }
}

proof fn lemma_parse_decl_tail_shape(ts: Seq<TokenModel>, i: int, base: bool)
    requires
        0 <= i <= ts.len() + 1,
    ensures
        forall|meta: Seq<u8>, name: Seq<u8>, generics: Seq<u8>|
            #[trigger] parse_decl_tail(ts, i, meta, name, generics, base) matches Ok(t) ==> (
            distinct_names(t.0.added) && t.0.is_base == base),
{
    let opt = i < ts.len() && ts[i] is Question;
    let bi = if opt {
        i + 1
    } else {
        i
    };
    if bi < ts.len() && ts[bi] is LBrace {
        lemma_parse_entries_bound(ts, bi + 1, Seq::empty(), Seq::empty());
        lemma_parse_entries_distinct(ts, bi + 1, Seq::empty(), Seq::empty());
    }
}

/// What the parser promises of a whole batch: every declaration has
/// distinct added field names, the first declaration alone carries the base
/// flag, and every later one is a variant.
pub proof fn lemma_parse_decls_shape(ts: Seq<TokenModel>, i: int, base: bool)
    requires
        0 <= i <= ts.len(),
    ensures
        parse_decls(ts, i, base) matches Ok(ds) ==> {
            &&& forall|k: int| 0 <= k < ds.len() ==> distinct_names(#[trigger] ds[k].added)
            &&& forall|k: int| 0 <= k < ds.len() ==> (#[trigger] ds[k].is_base <==> (k == 0
                && base))
        },
    decreases ts.len() - i,
{
    if 0 <= i && i < ts.len() {
        lemma_parse_decl_bound(ts, i, base);
        lemma_parse_decl_shape(ts, i, base);
        match parse_decl(ts, i, base) {
            Ok(t) => {
                lemma_parse_decls_shape(ts, t.1, false);
                match parse_decls(ts, t.1, false) {
                    Ok(rest) => {
                        let ds = seq![t.0] + rest;
                        assert forall|k: int| 0 <= k < ds.len() implies distinct_names(
                            #[trigger] ds[k].added,
                        ) by {
                            if k > 0 {
                                assert(ds[k] == rest[k - 1]);
                            }
                        }
                        assert forall|k: int| 0 <= k < ds.len() implies (#[trigger] ds[k].is_base
                            <==> (k == 0 && base)) by {
                            if k > 0 {
                                assert(ds[k] == rest[k - 1]);
                            }
                        }
                    },
                    Err(_) => {},
                }
            },
            Err(_) => {},
        }
    }
}

/// Parses the tail of a declaration; mirrors `parse_decl_tail`.
fn parse_decl_tail_exec(
    ts: &Vec<Token>,
    i: usize,
    meta: Vec<u8>,
    name: Vec<u8>,
    generics: Vec<u8>,
    base: bool,
) -> (r: Result<(DeclaredType, usize), ParseError>)
    requires
        i <= ts@.len(),
    ensures
        ({
            let sr = parse_decl_tail(views_of(ts@), i as int, meta@, name@, generics@, base);
            match r {
                Ok(t) => sr == Ok::<(DeclModel, int), ParseError>((t.0@, t.1 as int)) && t.1
                    <= ts@.len(),
                Err(e) => sr == Err::<(DeclModel, int), ParseError>(e),
            }
        }),
{
    let ghost v = views_of(ts@);
    let ghost meta0 = meta@;
    let ghost name0 = name@;
    let ghost generics0 = generics@;
    let opt = if i < ts.len() {
        proof {
            assert(v[i as int] == ts@[i as int]@);
        }
        tok_is_question(&ts[i])
    } else {
        false
    };
    let bi = if opt {
        i + 1
    } else {
        i
    };
    if !(bi < ts.len() && tok_is_lbrace(&ts[bi])) {
        return Err(ParseError::MissingBrace { pos: bi });
    }
    proof {
        assert(v[bi as int] == ts@[bi as int]@);
        assert(fields_model(Seq::<FieldSpec>::empty()) =~= Seq::<FieldModel>::empty());
        assert(names_model(Seq::<Vec<u8>>::empty()) =~= Seq::<Seq<u8>>::empty());
    }
    let empty_added: Vec<FieldSpec> = Vec::new();
    let empty_removed: Vec<Vec<u8>> = Vec::new();
    match parse_entries_exec(ts, bi + 1, empty_added, empty_removed) {
        Err(e) => Err(e),
        Ok(t) => {
            let (added2, removed2, j) = t;
            let d = DeclaredType {
                name,
                metadata: meta,
                generics,
                is_base: base,
                optional_inherited: opt,
                added: added2,
                removed: removed2,
            };
            proof {
                let sr = parse_decl_tail(v, i as int, meta0, name0, generics0, base);
                assert(sr matches Ok(t2) && t2.0 =~= d@ && t2.1 == j as int);
            }
            Ok((d, j))
        },
    }
}

/// Parses one whole declaration; mirrors `parse_decl`.
fn parse_decl_exec(ts: &Vec<Token>, i: usize, base: bool) -> (r: Result<
    (DeclaredType, usize),
    ParseError,
>)
    requires
        i <= ts@.len(),
    ensures
        ({
            let sr = parse_decl(views_of(ts@), i as int, base);
            match r {
                Ok(t) => sr == Ok::<(DeclModel, int), ParseError>((t.0@, t.1 as int)) && i < t.1
                    <= ts@.len(),
                Err(e) => sr == Err::<(DeclModel, int), ParseError>(e),
            }
        }),
{
    let ghost v = views_of(ts@);
    proof {
        lemma_parse_decl_bound(v, i as int, base);
    }
    let m = scan_meta(ts, i);
    let kw_ok = if m < ts.len() {
        proof {
            assert(v[m as int] == ts@[m as int]@);
        }
        match &ts[m] {
            Token::Ident(s) => is_kw_struct(s),
            _ => false,
        }
    } else {
        false
    };
    if !kw_ok {
        return Err(ParseError::ExpectedStruct { pos: m });
    }
    if !(m + 1 < ts.len()) {
        return Err(ParseError::MissingName { pos: m + 1 });
    }
    proof {
        assert(v[m + 1] == ts@[m + 1]@);
    }
    match &ts[m + 1] {
        Token::Ident(nm) => {
            let meta = append_texts(ts, i, m);
            let name = copy_bytes(nm);
            let gi = m + 2;
            let has_gen = if gi < ts.len() {
                proof {
                    assert(v[gi as int] == ts@[gi as int]@);
                }
                tok_is_lt(&ts[gi])
            } else {
                false
            };
            if has_gen {
                match find_gen_close(ts, gi + 1) {
                    None => Err(ParseError::UnclosedGenerics { pos: gi }),
                    Some(k) => {
                        let generics = append_texts(ts, gi, k + 1);
                        parse_decl_tail_exec(ts, k + 1, meta, name, generics, base)
                    },
                }
            } else {
                let generics: Vec<u8> = Vec::new();
                proof {
                    assert(generics@ =~= Seq::<u8>::empty());
                }
                parse_decl_tail_exec(ts, gi, meta, name, generics, base)
            }
        },
        _ => Err(ParseError::MissingName { pos: m + 1 }),
    }
}

/// Parses declarations until the token sequence is exhausted; mirrors
/// `parse_decls`.
fn parse_batch(ts: &Vec<Token>, i: usize, base: bool) -> (r: Result<Vec<DeclaredType>, ParseError>)
    requires
        i <= ts@.len(),
    ensures
        ({
            let sr = parse_decls(views_of(ts@), i as int, base);
            match r {
                Ok(ds) => sr == Ok::<Seq<DeclModel>, ParseError>(decls_model(ds@)),
                Err(e) => sr == Err::<Seq<DeclModel>, ParseError>(e),
            }
        }),
    decreases ts@.len() - i,
{
    let ghost v = views_of(ts@);
    if i >= ts.len() {
        let out: Vec<DeclaredType> = Vec::new();
        proof {
            assert(decls_model(out@) =~= Seq::<DeclModel>::empty());
        }
        return Ok(out);
    }
    match parse_decl_exec(ts, i, base) {
        Err(e) => Err(e),
        Ok(t) => {
            let (d, j) = t;
            let ghost dm = d@;
            match parse_batch(ts, j, false) {
                Err(e) => Err(e),
                Ok(rest) => {
                    let ghost rest0 = rest@;
                    let mut out = rest;
                    out.insert(0, d);
                    proof {
                        assert(out@.subrange(1, out@.len() as int) =~= rest0);
                        assert(decls_model(out@) =~= seq![dm] + decls_model(rest0));
                    }
                    Ok(out)
                },
            }
        },
    }
}

/// Parses a token sequence into its declarations: the base first, then each
/// variant in declaration order.
pub fn parse(toks: &Vec<Token>) -> (r: Result<Vec<DeclaredType>, ParseError>)
    ensures
        ({
            let sr = parse_decls(views_of(toks@), 0, true);
            match r {
                Ok(ds) => sr == Ok::<Seq<DeclModel>, ParseError>(decls_model(ds@)),
                Err(e) => sr == Err::<Seq<DeclModel>, ParseError>(e),
            }
        }),
{
    parse_batch(toks, 0, true)
}

} // verus!
