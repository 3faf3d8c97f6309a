//! Parses the condition language `.kicad_dru` rules embed as text — e.g.
//! `A.NetClass == 'DDR4_CMD' && A.fromTo('IC14-*','IC13-*')` — into an
//! `Expr` tree.
//!
//! ```text
//! expr      := or_expr
//! or_expr   := and_expr ( '||' and_expr )*
//! and_expr  := unary ( '&&' unary )*
//! unary     := '!' unary | predicate
//! predicate := subject '.' 'NetClass' ( '==' | '!=' ) string
//!            | subject '.' name '(' string ( ',' string )* ')'
//! string    := '...'
//! ```

use vstd::prelude::*;

use crate::text::{char_is_alphanumeric, chars_of, is_alphanumeric, owned, push_char, push_str, string_from};

verus! {

#[derive(Debug, PartialEq)]
pub enum Predicate {
    NetClassEq(String),
    NetClassNeq(String),
    InDiffPair(String),
    IntersectsArea(String),
    InsideArea(String),
    FromTo(String, String),
}

#[derive(Debug, PartialEq)]
pub enum Expr {
    Predicate { subject: String, predicate: Predicate },
    Not(Box<Expr>),
    And(Box<Expr>, Box<Expr>),
    Or(Box<Expr>, Box<Expr>),
}

#[derive(Debug, PartialEq)]
pub enum ParseExprError {
    UnexpectedEnd,
    UnexpectedToken(String),
    UnknownPredicate(String),
    WrongArity(String, usize, usize),
    TrailingContent(String),
}

pub enum PredicateView {
    NetClassEq(Seq<char>),
    NetClassNeq(Seq<char>),
    InDiffPair(Seq<char>),
    IntersectsArea(Seq<char>),
    InsideArea(Seq<char>),
    FromTo(Seq<char>, Seq<char>),
}

pub enum ExprView {
    Pred(Seq<char>, PredicateView),
    Not(Box<ExprView>),
    And(Box<ExprView>, Box<ExprView>),
    Or(Box<ExprView>, Box<ExprView>),
}

pub enum ErrorView {
    UnexpectedEnd,
    UnexpectedToken(Seq<char>),
    UnknownPredicate(Seq<char>),
    WrongArity(Seq<char>, int, int),
    TrailingContent(Seq<char>),
}

impl View for Predicate {
    type V = PredicateView;

    open spec fn view(&self) -> PredicateView {
        match self {
            Predicate::NetClassEq(s) => PredicateView::NetClassEq(s@),
            Predicate::NetClassNeq(s) => PredicateView::NetClassNeq(s@),
            Predicate::InDiffPair(s) => PredicateView::InDiffPair(s@),
            Predicate::IntersectsArea(s) => PredicateView::IntersectsArea(s@),
            Predicate::InsideArea(s) => PredicateView::InsideArea(s@),
            Predicate::FromTo(a, b) => PredicateView::FromTo(a@, b@),
        }
    }
}

impl View for Expr {
    type V = ExprView;

    open spec fn view(&self) -> ExprView
        decreases self,
    {
        match self {
            Expr::Predicate { subject, predicate } => ExprView::Pred(subject@, predicate@),
            Expr::Not(e) => ExprView::Not(Box::new((**e)@)),
            Expr::And(a, b) => ExprView::And(Box::new((**a)@), Box::new((**b)@)),
            Expr::Or(a, b) => ExprView::Or(Box::new((**a)@), Box::new((**b)@)),
        }
    }
}

impl View for ParseExprError {
    type V = ErrorView;

    open spec fn view(&self) -> ErrorView {
        match self {
            ParseExprError::UnexpectedEnd => ErrorView::UnexpectedEnd,
            ParseExprError::UnexpectedToken(s) => ErrorView::UnexpectedToken(s@),
            ParseExprError::UnknownPredicate(s) => ErrorView::UnknownPredicate(s@),
            ParseExprError::WrongArity(s, a, b) => ErrorView::WrongArity(s@, *a as int, *b as int),
            ParseExprError::TrailingContent(s) => ErrorView::TrailingContent(s@),
        }
    }
}

#[derive(Debug, PartialEq)]
pub enum Token {
    Ident(String),
    Str(String),
    Dot,
    LParen,
    RParen,
    Comma,
    EqEq,
    NotEq,
    Not,
    AndAnd,
    OrOr,
}

pub enum TokenView {
    Ident(Seq<char>),
    Str(Seq<char>),
    Dot,
    LParen,
    RParen,
    Comma,
    EqEq,
    NotEq,
    Not,
    AndAnd,
    OrOr,
}

impl View for Token {
    type V = TokenView;

    open spec fn view(&self) -> TokenView {
        match self {
            Token::Ident(s) => TokenView::Ident(s@),
            Token::Str(s) => TokenView::Str(s@),
            Token::Dot => TokenView::Dot,
            Token::LParen => TokenView::LParen,
            Token::RParen => TokenView::RParen,
            Token::Comma => TokenView::Comma,
            Token::EqEq => TokenView::EqEq,
            Token::NotEq => TokenView::NotEq,
            Token::Not => TokenView::Not,
            Token::AndAnd => TokenView::AndAnd,
            Token::OrOr => TokenView::OrOr,
        }
    }
}

pub open spec fn is_ident_char(c: char) -> bool {
    char_is_alphanumeric(c) || c == '_'
}

/// The end of the identifier starting at `pos`.
pub open spec fn ident_end(s: Seq<char>, pos: int) -> int
    decreases s.len() - pos,
{
    if 0 <= pos < s.len() && is_ident_char(s[pos]) {
        ident_end(s, pos + 1)
    } else {
        pos
    }
}

/// The position of the closing quote of a string starting after `pos`.
pub open spec fn quote_end(s: Seq<char>, pos: int) -> int
    decreases s.len() - pos,
{
    if 0 <= pos < s.len() && s[pos] != '\'' {
        quote_end(s, pos + 1)
    } else {
        pos
    }
}

pub open spec fn cons_tok(t: TokenView, rest: Result<Seq<TokenView>, ErrorView>) -> Result<
    Seq<TokenView>,
    ErrorView,
> {
    match rest {
        Ok(ts) => Ok(seq![t] + ts),
        Err(e) => Err(e),
    }
}

/// The tokens of `s` from `pos` on; whitespace separates tokens.
pub open spec fn tokens_from(s: Seq<char>, pos: int) -> Result<Seq<TokenView>, ErrorView>
    decreases s.len() - pos,
{
    if pos < 0 || pos >= s.len() {
        Ok(Seq::empty())
    } else {
        let c = s[pos];
        let next_is = |d: char| pos + 1 < s.len() && s[pos + 1] == d;
        if crate::text::char_is_whitespace(c) {
            tokens_from(s, pos + 1)
        } else if c == '.' {
            cons_tok(TokenView::Dot, tokens_from(s, pos + 1))
        } else if c == '(' {
            cons_tok(TokenView::LParen, tokens_from(s, pos + 1))
        } else if c == ')' {
            cons_tok(TokenView::RParen, tokens_from(s, pos + 1))
        } else if c == ',' {
            cons_tok(TokenView::Comma, tokens_from(s, pos + 1))
        } else if c == '=' {
            if next_is('=') {
                cons_tok(TokenView::EqEq, tokens_from(s, pos + 2))
            } else {
                Err(ErrorView::UnexpectedToken("="@))
            }
        } else if c == '!' {
            if next_is('=') {
                cons_tok(TokenView::NotEq, tokens_from(s, pos + 2))
            } else {
                cons_tok(TokenView::Not, tokens_from(s, pos + 1))
            }
        } else if c == '&' {
            if next_is('&') {
                cons_tok(TokenView::AndAnd, tokens_from(s, pos + 2))
            } else {
                Err(ErrorView::UnexpectedToken("&"@))
            }
        } else if c == '|' {
            if next_is('|') {
                cons_tok(TokenView::OrOr, tokens_from(s, pos + 2))
            } else {
                Err(ErrorView::UnexpectedToken("|"@))
            }
        } else if c == '\'' {
            let q = quote_end(s, pos + 1);
            if q >= s.len() || q <= pos {
                Err(ErrorView::UnexpectedEnd)
            } else {
                cons_tok(TokenView::Str(s.subrange(pos + 1, q)), tokens_from(s, q + 1))
            }
        } else if is_ident_char(c) {
            let e = ident_end(s, pos);
            if e <= pos || e > s.len() {
                Err(ErrorView::UnexpectedEnd)
            } else {
                cons_tok(TokenView::Ident(s.subrange(pos, e)), tokens_from(s, e))
            }
        } else {
            Err(ErrorView::UnexpectedToken(seq![c]))
        }
    }
}

proof fn lemma_ident_end(s: Seq<char>, pos: int)
    requires
        0 <= pos <= s.len(),
    ensures
        pos <= ident_end(s, pos) <= s.len(),
        pos < s.len() && is_ident_char(s[pos]) ==> ident_end(s, pos) > pos,
    decreases s.len() - pos,
{
    if pos < s.len() && is_ident_char(s[pos]) {
        lemma_ident_end(s, pos + 1);
    }
}

proof fn lemma_quote_end(s: Seq<char>, pos: int)
    requires
        0 <= pos <= s.len(),
    ensures
        pos <= quote_end(s, pos) <= s.len(),
        quote_end(s, pos) < s.len() ==> s[quote_end(s, pos)] == '\'',
        forall|j: int| pos <= j < quote_end(s, pos) ==> s[j] != '\'',
    decreases s.len() - pos,
{
    if pos < s.len() && s[pos] != '\'' {
        lemma_quote_end(s, pos + 1);
    }
}

/// How a token reads in an error message.
pub open spec fn describe(t: TokenView) -> Seq<char> {
    match t {
        TokenView::Ident(s) => s,
        TokenView::Str(s) => "'"@ + s + "'"@,
        TokenView::Dot => "."@,
        TokenView::LParen => "("@,
        TokenView::RParen => ")"@,
        TokenView::Comma => ","@,
        TokenView::EqEq => "=="@,
        TokenView::NotEq => "!="@,
        TokenView::Not => "!"@,
        TokenView::AndAnd => "&&"@,
        TokenView::OrOr => "||"@,
    }
}

/// The descriptions of `ts`, separated by single spaces.
pub open spec fn join_described(ts: Seq<TokenView>) -> Seq<char>
    decreases ts.len(),
{
    if ts.len() == 0 {
        Seq::empty()
    } else if ts.len() == 1 {
        describe(ts[0])
    } else {
        join_described(ts.drop_last()) + " "@ + describe(ts.last())
    }
}

pub open spec fn tok_at(ts: Seq<TokenView>, i: int) -> Option<TokenView> {
    if 0 <= i < ts.len() {
        Some(ts[i])
    } else {
        None
    }
}

/// An `UnexpectedToken` error for the token at `i`, or `UnexpectedEnd`.
pub open spec fn unexpected_at(ts: Seq<TokenView>, i: int) -> ErrorView {
    match tok_at(ts, i) {
        Some(t) => ErrorView::UnexpectedToken(describe(t)),
        None => ErrorView::UnexpectedEnd,
    }
}

/// The string arguments of a call, from just after `(` (or a comma) at
/// `i`, up to and including the closing `)`.
pub open spec fn p_args(ts: Seq<TokenView>, i: int) -> Result<(Seq<Seq<char>>, int), ErrorView>
    decreases ts.len() - i,
{
    match tok_at(ts, i) {
        Some(TokenView::Str(a)) => match tok_at(ts, i + 1) {
            Some(TokenView::Comma) => match p_args(ts, i + 2) {
                Ok((rest, e)) => Ok((seq![a] + rest, e)),
                Err(err) => Err(err),
            },
            Some(TokenView::RParen) => Ok((seq![a], i + 2)),
            _ => Err(unexpected_at(ts, i + 1)),
        },
        _ => Err(unexpected_at(ts, i)),
    }
}

/// A predicate from its name and string arguments.
pub open spec fn make_predicate(name: Seq<char>, args: Seq<Seq<char>>) -> Result<
    PredicateView,
    ErrorView,
> {
    if name == "inDiffPair"@ || name == "intersectsArea"@ || name == "insideArea"@ {
        if args.len() != 1 {
            Err(ErrorView::WrongArity(name, 1, args.len() as int))
        } else if name == "inDiffPair"@ {
            Ok(PredicateView::InDiffPair(args[0]))
        } else if name == "intersectsArea"@ {
            Ok(PredicateView::IntersectsArea(args[0]))
        } else {
            Ok(PredicateView::InsideArea(args[0]))
        }
    } else if name == "fromTo"@ {
        if args.len() != 2 {
            Err(ErrorView::WrongArity(name, 2, args.len() as int))
        } else {
            Ok(PredicateView::FromTo(args[0], args[1]))
        }
    } else {
        Err(ErrorView::UnknownPredicate(name))
    }
}

/// `subject '.' name ...` starting at token `i`.
pub open spec fn p_pred(ts: Seq<TokenView>, i: int) -> Result<(ExprView, int), ErrorView> {
    match tok_at(ts, i) {
        Some(TokenView::Ident(subject)) => match tok_at(ts, i + 1) {
            Some(TokenView::Dot) => match tok_at(ts, i + 2) {
                Some(TokenView::Ident(name)) => if name == "NetClass"@ {
                    match tok_at(ts, i + 3) {
                        Some(TokenView::EqEq) => match tok_at(ts, i + 4) {
                            Some(TokenView::Str(v)) => Ok(
                                (ExprView::Pred(subject, PredicateView::NetClassEq(v)), i + 5),
                            ),
                            _ => Err(unexpected_at(ts, i + 4)),
                        },
                        Some(TokenView::NotEq) => match tok_at(ts, i + 4) {
                            Some(TokenView::Str(v)) => Ok(
                                (ExprView::Pred(subject, PredicateView::NetClassNeq(v)), i + 5),
                            ),
                            _ => Err(unexpected_at(ts, i + 4)),
                        },
                        _ => Err(unexpected_at(ts, i + 3)),
                    }
                } else {
                    match tok_at(ts, i + 3) {
                        Some(TokenView::LParen) => match p_args(ts, i + 4) {
                            Ok((args, e)) => match make_predicate(name, args) {
                                Ok(p) => Ok((ExprView::Pred(subject, p), e)),
                                Err(err) => Err(err),
                            },
                            Err(err) => Err(err),
                        },
                        _ => Err(unexpected_at(ts, i + 3)),
                    }
                },
                _ => Err(unexpected_at(ts, i + 2)),
            },
            _ => Err(unexpected_at(ts, i + 1)),
        },
        _ => Err(unexpected_at(ts, i)),
    }
}

/// `'!' unary | predicate` starting at token `i`.
pub open spec fn p_unary(ts: Seq<TokenView>, i: int) -> Result<(ExprView, int), ErrorView>
    decreases ts.len() - i,
{
    if 0 <= i < ts.len() && ts[i] is Not {
        match p_unary(ts, i + 1) {
            Ok((e, q)) => Ok((ExprView::Not(Box::new(e)), q)),
            Err(err) => Err(err),
        }
    } else {
        p_pred(ts, i)
    }
}

/// The rest of an `and` chain whose left operand `lhs` ends before `i`.
pub open spec fn p_and_rest(ts: Seq<TokenView>, lhs: ExprView, i: int) -> Result<
    (ExprView, int),
    ErrorView,
>
    decreases ts.len() - i,
{
    if 0 <= i < ts.len() && ts[i] is AndAnd {
        match p_unary(ts, i + 1) {
            Ok((rhs, q)) => if q <= i || q > ts.len() {
                Err(ErrorView::UnexpectedEnd)
            } else {
                p_and_rest(ts, ExprView::And(Box::new(lhs), Box::new(rhs)), q)
            },
            Err(err) => Err(err),
        }
    } else {
        Ok((lhs, i))
    }
}

pub open spec fn p_and(ts: Seq<TokenView>, i: int) -> Result<(ExprView, int), ErrorView> {
    match p_unary(ts, i) {
        Ok((lhs, q)) => p_and_rest(ts, lhs, q),
        Err(err) => Err(err),
    }
}

/// The rest of an `or` chain whose left operand `lhs` ends before `i`.
pub open spec fn p_or_rest(ts: Seq<TokenView>, lhs: ExprView, i: int) -> Result<
    (ExprView, int),
    ErrorView,
>
    decreases ts.len() - i,
{
    if 0 <= i < ts.len() && ts[i] is OrOr {
        match p_and(ts, i + 1) {
            Ok((rhs, q)) => if q <= i || q > ts.len() {
                Err(ErrorView::UnexpectedEnd)
            } else {
                p_or_rest(ts, ExprView::Or(Box::new(lhs), Box::new(rhs)), q)
            },
            Err(err) => Err(err),
        }
    } else {
        Ok((lhs, i))
    }
}

pub open spec fn p_or(ts: Seq<TokenView>, i: int) -> Result<(ExprView, int), ErrorView> {
    match p_and(ts, i) {
        Ok((lhs, q)) => p_or_rest(ts, lhs, q),
        Err(err) => Err(err),
    }
}

/// `text` parsed as a whole condition.
pub open spec fn spec_parse_condition(text: Seq<char>) -> Result<ExprView, ErrorView> {
    match tokens_from(text, 0) {
        Err(err) => Err(err),
        Ok(ts) => match p_or(ts, 0) {
            Err(err) => Err(err),
            Ok((e, q)) => if q != ts.len() {
                Err(ErrorView::TrailingContent(join_described(ts.subrange(q, ts.len() as int))))
            } else {
                Ok(e)
            },
        },
    }
}

pub open spec fn prepend_toks(out: Seq<TokenView>, r: Result<Seq<TokenView>, ErrorView>) -> Result<
    Seq<TokenView>,
    ErrorView,
> {
    match r {
        Ok(ts) => Ok(out + ts),
        Err(e) => Err(e),
    }
}

pub open spec fn toks_view(v: Seq<Token>) -> Seq<TokenView> {
    v.map_values(|t: Token| t@)
}

fn single(c: char) -> (r: String)
    ensures
        r@ == seq![c],
{
    let mut s = String::new();
    push_char(&mut s, c);
    proof {
        assert(s@ =~= seq![c]);
    }
    s
}

fn push_tok(out: &mut Vec<Token>, t: Token)
    ensures
        toks_view(final(out)@) == toks_view(old(out)@).push(t@),
{
    let ghost before = out@;
    out.push(t);
    proof {
        assert(toks_view(out@) =~= toks_view(before).push(t@));
    }
}

proof fn lemma_prepend_push(out: Seq<TokenView>, t: TokenView, r: Result<Seq<TokenView>, ErrorView>)
    ensures
        prepend_toks(out, cons_tok(t, r)) == prepend_toks(out.push(t), r),
{
    match r {
        Ok(ts) => {
            assert(out + (seq![t] + ts) =~= out.push(t) + ts);
        },
        Err(_) => {},
    }
}

fn tokenize(s: &Vec<char>) -> (r: Result<Vec<Token>, ParseExprError>)
    ensures
        match (r, tokens_from(s@, 0)) {
            (Ok(ts), Ok(v)) => toks_view(ts@) == v,
            (Err(e), Err(v)) => e@ == v,
            _ => false,
        },
{
    let mut out: Vec<Token> = Vec::new();
    let mut i: usize = 0;
    let n = s.len();
    while i < n
        invariant
            n == s@.len(),
            0 <= i <= n,
            tokens_from(s@, 0) == prepend_toks(toks_view(out@), tokens_from(s@, i as int)),
        decreases n - i,
    {
        let c = s[i];
        let ghost o = toks_view(out@);
        if crate::text::is_whitespace(c) {
            i += 1;
        } else if c == '.' {
            proof { lemma_prepend_push(o, TokenView::Dot, tokens_from(s@, i + 1)); }
            push_tok(&mut out, Token::Dot);
            i += 1;
        } else if c == '(' {
            proof { lemma_prepend_push(o, TokenView::LParen, tokens_from(s@, i + 1)); }
            push_tok(&mut out, Token::LParen);
            i += 1;
        } else if c == ')' {
            proof { lemma_prepend_push(o, TokenView::RParen, tokens_from(s@, i + 1)); }
            push_tok(&mut out, Token::RParen);
            i += 1;
        } else if c == ',' {
            proof { lemma_prepend_push(o, TokenView::Comma, tokens_from(s@, i + 1)); }
            push_tok(&mut out, Token::Comma);
            i += 1;
        } else if c == '=' {
            if i + 1 < n && s[i + 1] == '=' {
                proof { lemma_prepend_push(o, TokenView::EqEq, tokens_from(s@, i + 2)); }
                push_tok(&mut out, Token::EqEq);
                i += 2;
            } else {
                return Err(ParseExprError::UnexpectedToken(owned("=")));
            }
        } else if c == '!' {
            if i + 1 < n && s[i + 1] == '=' {
                proof { lemma_prepend_push(o, TokenView::NotEq, tokens_from(s@, i + 2)); }
                push_tok(&mut out, Token::NotEq);
                i += 2;
            } else {
                proof { lemma_prepend_push(o, TokenView::Not, tokens_from(s@, i + 1)); }
                push_tok(&mut out, Token::Not);
                i += 1;
            }
        } else if c == '&' {
            if i + 1 < n && s[i + 1] == '&' {
                proof { lemma_prepend_push(o, TokenView::AndAnd, tokens_from(s@, i + 2)); }
                push_tok(&mut out, Token::AndAnd);
                i += 2;
            } else {
                return Err(ParseExprError::UnexpectedToken(owned("&")));
            }
        } else if c == '|' {
            if i + 1 < n && s[i + 1] == '|' {
                proof { lemma_prepend_push(o, TokenView::OrOr, tokens_from(s@, i + 2)); }
                push_tok(&mut out, Token::OrOr);
                i += 2;
            } else {
                return Err(ParseExprError::UnexpectedToken(owned("|")));
            }
        } else if c == '\'' {
            proof { lemma_quote_end(s@, i + 1); }
            let mut j = i + 1;
            while j < n && s[j] != '\''
                invariant
                    n == s@.len(),
                    i + 1 <= j <= n,
                    quote_end(s@, j as int) == quote_end(s@, i + 1),
                decreases n - j,
            {
                j += 1;
            }
            if j >= n {
                return Err(ParseExprError::UnexpectedEnd);
            }
            let t = Token::Str(string_from(s, i + 1, j));
            proof { lemma_prepend_push(o, t@, tokens_from(s@, j + 1)); }
            push_tok(&mut out, t);
            i = j + 1;
        } else if is_alphanumeric(c) || c == '_' {
            proof { lemma_ident_end(s@, i as int); }
            let mut j = i;
            while j < n && (is_alphanumeric(s[j]) || s[j] == '_')
                invariant
                    n == s@.len(),
                    i <= j <= n,
                    ident_end(s@, j as int) == ident_end(s@, i as int),
                decreases n - j,
            {
                j += 1;
            }
            let t = Token::Ident(string_from(s, i, j));
            proof { lemma_prepend_push(o, t@, tokens_from(s@, j as int)); }
            push_tok(&mut out, t);
            i = j;
        } else {
            return Err(ParseExprError::UnexpectedToken(single(c)));
        }
    }
    proof {
        assert(toks_view(out@) + Seq::<TokenView>::empty() =~= toks_view(out@));
    }
    Ok(out)
}

fn describe_token(t: &Token) -> (r: String)
    ensures
        r@ == describe(t@),
{
    match t {
        Token::Ident(s) => owned(s.as_str()),
        Token::Str(s) => {
            let mut r = owned("'");
            push_str(&mut r, s.as_str());
            push_str(&mut r, "'");
            r
        },
        Token::Dot => owned("."),
        Token::LParen => owned("("),
        Token::RParen => owned(")"),
        Token::Comma => owned(","),
        Token::EqEq => owned("=="),
        Token::NotEq => owned("!="),
        Token::Not => owned("!"),
        Token::AndAnd => owned("&&"),
        Token::OrOr => owned("||"),
    }
}

fn describe_tail(ts: &Vec<Token>, from: usize) -> (r: String)
    requires
        from <= ts@.len(),
    ensures
        r@ == join_described(toks_view(ts@).subrange(from as int, ts@.len() as int)),
{
    let mut out = String::new();
    let mut i = from;
    while i < ts.len()
        invariant
            from <= i <= ts@.len(),
            out@ == join_described(toks_view(ts@).subrange(from as int, i as int)),
        decreases ts@.len() - i,
    {
        let ghost prev = toks_view(ts@).subrange(from as int, i as int);
        let ghost next = toks_view(ts@).subrange(from as int, i + 1);
        proof {
            assert(next.drop_last() =~= prev);
            assert(next.last() == ts@[i as int]@);
        }
        if i > from {
            push_str(&mut out, " ");
        }
        let d = describe_token(&ts[i]);
        push_str(&mut out, d.as_str());
        proof {
            if i == from {
                assert(out@ =~= describe(ts@[i as int]@));
            }
        }
        i += 1;
    }
    out
}

fn unexpected(ts: &Vec<Token>, i: usize) -> (r: ParseExprError)
    ensures
        r@ == unexpected_at(toks_view(ts@), i as int),
{
    if i < ts.len() {
        ParseExprError::UnexpectedToken(describe_token(&ts[i]))
    } else {
        ParseExprError::UnexpectedEnd
    }
}

fn parse_args(ts: &Vec<Token>, i: usize) -> (r: Result<(Vec<String>, usize), ParseExprError>)
    ensures
        match (r, p_args(toks_view(ts@), i as int)) {
            (Ok((args, e)), Ok((v, q))) => crate::kicad::dru::strings_view(args@) == v && e == q,
            (Err(err), Err(v)) => err@ == v,
            _ => false,
        },
    decreases ts@.len() - i,
{
    let ghost tv = toks_view(ts@);
    if i < ts.len() {
        if let Token::Str(a) = &ts[i] {
            if i + 1 < ts.len() {
                match &ts[i + 1] {
                    Token::Comma => {
                        match parse_args(ts, i + 2) {
                            Ok((rest, e)) => {
                                let ghost rv = crate::kicad::dru::strings_view(rest@);
                                let mut args = rest;
                                args.insert(0, owned(a.as_str()));
                                proof {
                                    assert(crate::kicad::dru::strings_view(args@) =~= seq![a@] + rv);
                                }
                                return Ok((args, e));
                            },
                            Err(err) => return Err(err),
                        }
                    },
                    Token::RParen => {
                        let mut args: Vec<String> = Vec::new();
                        args.push(owned(a.as_str()));
                        proof {
                            assert(crate::kicad::dru::strings_view(args@) =~= seq![a@]);
                        }
                        return Ok((args, i + 2));
                    },
                    _ => {},
                }
            }
            return Err(unexpected(ts, i + 1));
        }
    }
    Err(unexpected(ts, i))
}

fn make_pred(name: String, args: Vec<String>) -> (r: Result<Predicate, ParseExprError>)
    ensures
        match (r, make_predicate(name@, crate::kicad::dru::strings_view(args@))) {
            (Ok(p), Ok(v)) => p@ == v,
            (Err(err), Err(v)) => err@ == v,
            _ => false,
        },
{
    let n = args.len();
    let in_diff_pair = name == owned("inDiffPair");
    let intersects_area = name == owned("intersectsArea");
    let inside_area = name == owned("insideArea");
    if in_diff_pair || intersects_area || inside_area {
        if n != 1 {
            return Err(ParseExprError::WrongArity(name, 1, n));
        }
        let a = owned(args[0].as_str());
        if in_diff_pair {
            Ok(Predicate::InDiffPair(a))
        } else if intersects_area {
            Ok(Predicate::IntersectsArea(a))
        } else {
            Ok(Predicate::InsideArea(a))
        }
    } else if name == owned("fromTo") {
        if n != 2 {
            return Err(ParseExprError::WrongArity(name, 2, n));
        }
        Ok(Predicate::FromTo(owned(args[0].as_str()), owned(args[1].as_str())))
    } else {
        Err(ParseExprError::UnknownPredicate(name))
    }
}

fn parse_predicate(ts: &Vec<Token>, i: usize) -> (r: Result<(Expr, usize), ParseExprError>)
    ensures
        match (r, p_pred(toks_view(ts@), i as int)) {
            (Ok((e, q)), Ok((v, w))) => e@ == v && q == w,
            (Err(err), Err(v)) => err@ == v,
            _ => false,
        },
{
    if i >= ts.len() {
        return Err(ParseExprError::UnexpectedEnd);
    }
    let subject = match &ts[i] {
        Token::Ident(s) => owned(s.as_str()),
        _ => return Err(unexpected(ts, i)),
    };
    if i + 1 >= ts.len() {
        return Err(ParseExprError::UnexpectedEnd);
    }
    match &ts[i + 1] {
        Token::Dot => {},
        _ => return Err(unexpected(ts, i + 1)),
    }
    if i + 2 >= ts.len() {
        return Err(ParseExprError::UnexpectedEnd);
    }
    let name = match &ts[i + 2] {
        Token::Ident(s) => owned(s.as_str()),
        _ => return Err(unexpected(ts, i + 2)),
    };
    if name == owned("NetClass") {
        if i + 3 >= ts.len() {
            return Err(ParseExprError::UnexpectedEnd);
        }
        let negated = match &ts[i + 3] {
            Token::EqEq => false,
            Token::NotEq => true,
            _ => return Err(unexpected(ts, i + 3)),
        };
        if i + 4 >= ts.len() {
            return Err(ParseExprError::UnexpectedEnd);
        }
        let value = match &ts[i + 4] {
            Token::Str(s) => owned(s.as_str()),
            _ => return Err(unexpected(ts, i + 4)),
        };
        let predicate = if negated {
            Predicate::NetClassNeq(value)
        } else {
            Predicate::NetClassEq(value)
        };
        Ok((Expr::Predicate { subject, predicate }, i + 5))
    } else {
        if i + 3 >= ts.len() {
            return Err(ParseExprError::UnexpectedEnd);
        }
        match &ts[i + 3] {
            Token::LParen => {},
            _ => return Err(unexpected(ts, i + 3)),
        }
        let (args, e) = parse_args(ts, i + 4)?;
        let predicate = make_pred(name, args)?;
        Ok((Expr::Predicate { subject, predicate }, e))
    }
}

fn parse_unary(ts: &Vec<Token>, i: usize) -> (r: Result<(Expr, usize), ParseExprError>)
    ensures
        match (r, p_unary(toks_view(ts@), i as int)) {
            (Ok((e, q)), Ok((v, w))) => e@ == v && q == w,
            (Err(err), Err(v)) => err@ == v,
            _ => false,
        },
    decreases ts@.len() - i,
{
    if i < ts.len() {
        if let Token::Not = &ts[i] {
            let (inner, q) = parse_unary(ts, i + 1)?;
            return Ok((Expr::Not(Box::new(inner)), q));
        }
    }
    parse_predicate(ts, i)
}

proof fn lemma_p_args_advances(ts: Seq<TokenView>, i: int)
    ensures
        p_args(ts, i) matches Ok((_, e)) ==> i < e <= ts.len(),
    decreases ts.len() - i,
{
    if let Some(TokenView::Str(_)) = tok_at(ts, i) {
        if let Some(TokenView::Comma) = tok_at(ts, i + 1) {
            lemma_p_args_advances(ts, i + 2);
        }
    }
}

proof fn lemma_p_unary_advances(ts: Seq<TokenView>, i: int)
    ensures
        p_unary(ts, i) matches Ok((_, e)) ==> i < e <= ts.len(),
    decreases ts.len() - i,
{
    if 0 <= i < ts.len() && ts[i] is Not {
        lemma_p_unary_advances(ts, i + 1);
    } else {
        lemma_p_args_advances(ts, i + 4);
    }
}

proof fn lemma_p_and_advances(ts: Seq<TokenView>, lhs: ExprView, i: int)
    requires
        0 <= i <= ts.len(),
    ensures
        p_and_rest(ts, lhs, i) matches Ok((_, e)) ==> i <= e <= ts.len(),
    decreases ts.len() - i,
{
    if 0 <= i < ts.len() && ts[i] is AndAnd {
        lemma_p_unary_advances(ts, i + 1);
        if let Ok((rhs, q)) = p_unary(ts, i + 1) {
            if q > i && q <= ts.len() {
                lemma_p_and_advances(ts, ExprView::And(Box::new(lhs), Box::new(rhs)), q);
            }
        }
    }
}

proof fn lemma_p_or_advances(ts: Seq<TokenView>, lhs: ExprView, i: int)
    requires
        0 <= i <= ts.len(),
    ensures
        p_or_rest(ts, lhs, i) matches Ok((_, e)) ==> i <= e <= ts.len(),
    decreases ts.len() - i,
{
    if 0 <= i < ts.len() && ts[i] is OrOr {
        lemma_p_unary_advances(ts, i + 1);
        if let Ok((l2, q1)) = p_unary(ts, i + 1) {
            lemma_p_and_advances(ts, l2, q1);
        }
        if let Ok((rhs, q)) = p_and(ts, i + 1) {
            if q > i && q <= ts.len() {
                lemma_p_or_advances(ts, ExprView::Or(Box::new(lhs), Box::new(rhs)), q);
            }
        }
    }
}

fn parse_and(ts: &Vec<Token>, i: usize) -> (r: Result<(Expr, usize), ParseExprError>)
    ensures
        match (r, p_and(toks_view(ts@), i as int)) {
            (Ok((e, q)), Ok((v, w))) => e@ == v && q == w,
            (Err(err), Err(v)) => err@ == v,
            _ => false,
        },
{
    let ghost tv = toks_view(ts@);
    let (first, q0) = parse_unary(ts, i)?;
    proof {
        lemma_p_unary_advances(tv, i as int);
    }
    let mut expr = first;
    let mut pos = q0;
    loop
        invariant
            pos <= ts@.len(),
            tv == toks_view(ts@),
            p_and(tv, i as int) == p_and_rest(tv, expr@, pos as int),
        decreases ts@.len() - pos,
    {
        if pos < ts.len() {
            if let Token::AndAnd = &ts[pos] {
                let (rhs, q) = parse_unary(ts, pos + 1)?;
                proof {
                    lemma_p_unary_advances(tv, pos + 1);
                }
                let ghost lv = expr@;
                let ghost rvw = rhs@;
                expr = Expr::And(Box::new(expr), Box::new(rhs));
                proof {
                    assert(expr@ == ExprView::And(Box::new(lv), Box::new(rvw)));
                }
                pos = q;
                continue;
            }
        }
        return Ok((expr, pos));
    }
}

fn parse_or(ts: &Vec<Token>, i: usize) -> (r: Result<(Expr, usize), ParseExprError>)
    ensures
        match (r, p_or(toks_view(ts@), i as int)) {
            (Ok((e, q)), Ok((v, w))) => e@ == v && q == w,
            (Err(err), Err(v)) => err@ == v,
            _ => false,
        },
{
    let ghost tv = toks_view(ts@);
    let (first, q0) = parse_and(ts, i)?;
    proof {
        lemma_p_unary_advances(tv, i as int);
        if let Ok((l, q1)) = p_unary(tv, i as int) {
            lemma_p_and_advances(tv, l, q1);
        }
    }
    let mut expr = first;
    let mut pos = q0;
    loop
        invariant
            pos <= ts@.len(),
            tv == toks_view(ts@),
            p_or(tv, i as int) == p_or_rest(tv, expr@, pos as int),
        decreases ts@.len() - pos,
    {
        if pos < ts.len() {
            if let Token::OrOr = &ts[pos] {
                let (rhs, q) = parse_and(ts, pos + 1)?;
                proof {
                    lemma_p_unary_advances(tv, pos + 1);
                    if let Ok((l, q1)) = p_unary(tv, pos + 1) {
                        lemma_p_and_advances(tv, l, q1);
                    }
                }
                let ghost lv = expr@;
                let ghost rvw = rhs@;
                expr = Expr::Or(Box::new(expr), Box::new(rhs));
                proof {
                    assert(expr@ == ExprView::Or(Box::new(lv), Box::new(rvw)));
                }
                pos = q;
                continue;
            }
        }
        return Ok((expr, pos));
    }
}

/// Parses `text` (a rule's `(condition "...")` content) into an `Expr`.
/// Fails on an unknown predicate name, a predicate called with the wrong
/// number of string arguments, a missing operator, an unterminated string,
/// or anything left over after a complete expression.
pub fn parse_condition(text: &str) -> (r: Result<Expr, ParseExprError>)
    ensures
        match (r, spec_parse_condition(text@)) {
            (Ok(e), Ok(v)) => e@ == v,
            (Err(err), Err(v)) => err@ == v,
            _ => false,
        },
{
    let chars = chars_of(text);
    let tokens = tokenize(&chars)?;
    let (expr, pos) = parse_or(&tokens, 0)?;
    proof {
        let tv = toks_view(tokens@);
        lemma_p_unary_advances(tv, 0);
        if let Ok((l, q1)) = p_unary(tv, 0) {
            lemma_p_and_advances(tv, l, q1);
        }
        if let Ok((l, q)) = p_and(tv, 0) {
            lemma_p_or_advances(tv, l, q);
        }
    }
    if pos != tokens.len() {
        return Err(ParseExprError::TrailingContent(describe_tail(&tokens, pos)));
    }
    Ok(expr)
}

} // verus!
