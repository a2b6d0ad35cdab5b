//! Recursive-descent parsing: consumes tokens, pulled lazily from the
//! lexer one at a time, and builds the statement sequence.
//!
//! The grammar is modelled by spec functions over a token sequence: each one
//! returns the parsed node together with the tokens left over, or the error
//! the grammar violation raises.  Reading past the end of the sequence
//! yields `EndOfFile`.  The executable parser is proved to follow this model
//! exactly, except that pulling a token whose integer literal does not fit
//! in `i64` aborts with `NumberOverflow`.

use crate::expr::{exprs_view, Expr, ExprModel};
use crate::lexer::{
    all_fit, spec_next_token, spec_tokens, str_eq, token_fits, Lexer, Token, TokenModel,
    TranslateError,
};
use vstd::prelude::*;

verus! {

/// The token a parser at the head of `ts` sees: the first token, or
/// `EndOfFile` when none is left.
pub open spec fn first_tok(ts: Seq<TokenModel>) -> TokenModel {
    if ts.len() > 0 {
        ts[0]
    } else {
        TokenModel::EndOfFile
    }
}

/// The tokens after consuming one: consuming at the end changes nothing.
pub open spec fn rest_toks(ts: Seq<TokenModel>) -> Seq<TokenModel> {
    if ts.len() > 0 {
        ts.drop_first()
    } else {
        ts
    }
}

/// The leaf a term token stands for, if the token may start a term.
pub open spec fn term_of(t: TokenModel) -> Option<ExprModel> {
    match t {
        TokenModel::Number(v) => Option::Some(ExprModel::Number(v)),
        TokenModel::Identifier(name) => Option::Some(ExprModel::Identifier(name)),
        _ => Option::None,
    }
}

/// Whether a token is exactly the binding keyword.
pub open spec fn is_val_keyword(t: TokenModel) -> bool {
    t matches TokenModel::Keyword(k) && k == "val"@
}

/// `term := Number | Identifier`; any other token is a fatal violation.
pub open spec fn spec_parse_term(ts: Seq<TokenModel>) -> Result<
    (ExprModel, Seq<TokenModel>),
    TranslateError,
> {
    match term_of(first_tok(ts)) {
        Option::Some(e) => Result::Ok((e, rest_toks(ts))),
        Option::None => Result::Err(TranslateError::UnexpectedToken),
    }
}

/// The operator loop of `expression`: while the current token is any
/// punctuation, take it as a left-associating binary operator and parse the
/// next term.
pub open spec fn spec_parse_expr_tail(left: ExprModel, ts: Seq<TokenModel>) -> Result<
    (ExprModel, Seq<TokenModel>),
    TranslateError,
>
    decreases ts.len(),
{
    match first_tok(ts) {
        TokenModel::Punctuation(op) => {
            let ts1 = rest_toks(ts);
            match term_of(first_tok(ts1)) {
                Option::Some(right) => spec_parse_expr_tail(
                    ExprModel::BinaryOp(Box::new(left), seq![op], Box::new(right)),
                    rest_toks(ts1),
                ),
                Option::None => Result::Err(TranslateError::UnexpectedToken),
            }
        },
        _ => Result::Ok((left, ts)),
    }
}

/// `expression := term (punctuation term)*`, left-associative, with no
/// precedence distinction among punctuation tokens.
pub open spec fn spec_parse_expression(ts: Seq<TokenModel>) -> Result<
    (ExprModel, Seq<TokenModel>),
    TranslateError,
> {
    match spec_parse_term(ts) {
        Result::Ok((left, ts1)) => spec_parse_expr_tail(left, ts1),
        Result::Err(e) => Result::Err(e),
    }
}

/// `assignment := "val" identifier "=" expression`.  A missing identifier
/// raises `ExpectedIdentifier`; a missing `=` (or a call on anything but the
/// binding keyword) raises `ExpectedAssignment`.
pub open spec fn spec_parse_assignment(ts: Seq<TokenModel>) -> Result<
    (ExprModel, Seq<TokenModel>),
    TranslateError,
> {
    if !is_val_keyword(first_tok(ts)) {
        Result::Err(TranslateError::ExpectedAssignment)
    } else {
        let ts1 = rest_toks(ts);
        match first_tok(ts1) {
            TokenModel::Identifier(name) => {
                let ts2 = rest_toks(ts1);
                if first_tok(ts2) == TokenModel::Punctuation('=') {
                    match spec_parse_expression(rest_toks(ts2)) {
                        Result::Ok((value, ts3)) => Result::Ok(
                            (ExprModel::Assignment(name, Box::new(value)), ts3),
                        ),
                        Result::Err(e) => Result::Err(e),
                    }
                } else {
                    Result::Err(TranslateError::ExpectedAssignment)
                }
            },
            _ => Result::Err(TranslateError::ExpectedIdentifier),
        }
    }
}

/// The operator loop never hands back more tokens than it was given.
pub proof fn lemma_expr_tail_consumes(left: ExprModel, ts: Seq<TokenModel>)
    ensures
        spec_parse_expr_tail(left, ts) matches Result::Ok(p) ==> p.1.len() <= ts.len(),
    decreases ts.len(),
{
    match first_tok(ts) {
        TokenModel::Punctuation(op) => {
            let ts1 = rest_toks(ts);
            match term_of(first_tok(ts1)) {
                Option::Some(right) => {
                    lemma_expr_tail_consumes(
                        ExprModel::BinaryOp(Box::new(left), seq![op], Box::new(right)),
                        rest_toks(ts1),
                    );
                },
                Option::None => {},
            }
        },
        _ => {},
    }
}

/// A successful expression parse consumes at least one token.
pub proof fn lemma_expression_consumes(ts: Seq<TokenModel>)
    ensures
        spec_parse_expression(ts) matches Result::Ok(p) ==> p.1.len() < ts.len(),
{
    match spec_parse_term(ts) {
        Result::Ok((left, ts1)) => {
            lemma_expr_tail_consumes(left, ts1);
        },
        Result::Err(_) => {},
    }
}

/// A successful assignment parse consumes at least one token.
pub proof fn lemma_assignment_consumes(ts: Seq<TokenModel>)
    ensures
        spec_parse_assignment(ts) matches Result::Ok(p) ==> p.1.len() < ts.len(),
{
    if is_val_keyword(first_tok(ts)) {
        let ts1 = rest_toks(ts);
        match first_tok(ts1) {
            TokenModel::Identifier(_) => {
                let ts2 = rest_toks(ts1);
                lemma_expression_consumes(rest_toks(ts2));
            },
            _ => {},
        }
    }
}

/// The top-level statement loop: until `EndOfFile`, an assignment when the
/// current token is the binding keyword, else one expression followed by one
/// extra token advance.
pub open spec fn spec_parse_program(ts: Seq<TokenModel>) -> Result<Seq<ExprModel>, TranslateError>
    decreases ts.len(),
        via spec_parse_program_decreases
{
    if first_tok(ts) is EndOfFile {
        Result::Ok(Seq::empty())
    } else if is_val_keyword(first_tok(ts)) {
        match spec_parse_assignment(ts) {
            Result::Ok((e, rest)) => match spec_parse_program(rest) {
                Result::Ok(stmts) => Result::Ok(seq![e] + stmts),
                Result::Err(err) => Result::Err(err),
            },
            Result::Err(err) => Result::Err(err),
        }
    } else {
        match spec_parse_expression(ts) {
            Result::Ok((e, rest)) => match spec_parse_program(rest_toks(rest)) {
                Result::Ok(stmts) => Result::Ok(seq![e] + stmts),
                Result::Err(err) => Result::Err(err),
            },
            Result::Err(err) => Result::Err(err),
        }
    }
}

#[via_fn]
proof fn spec_parse_program_decreases(ts: Seq<TokenModel>) {
    lemma_assignment_consumes(ts);
    lemma_expression_consumes(ts);
}

/// `number := Number`; anything else raises `ExpectedNumber`.
pub open spec fn spec_parse_number(ts: Seq<TokenModel>) -> Result<
    (ExprModel, Seq<TokenModel>),
    TranslateError,
> {
    match first_tok(ts) {
        TokenModel::Number(v) => Result::Ok((ExprModel::Number(v), rest_toks(ts))),
        _ => Result::Err(TranslateError::ExpectedNumber),
    }
}

/// `identifier := Identifier`; anything else raises `ExpectedIdentifier`.
pub open spec fn spec_parse_identifier(ts: Seq<TokenModel>) -> Result<
    (ExprModel, Seq<TokenModel>),
    TranslateError,
> {
    match first_tok(ts) {
        TokenModel::Identifier(name) => Result::Ok((ExprModel::Identifier(name), rest_toks(ts))),
        _ => Result::Err(TranslateError::ExpectedIdentifier),
    }
}

/// Every token the executable lexer can hand over fits its representation.
proof fn lemma_token_view_fits(t: Token)
    ensures
        token_fits(t@),
{
    match t {
        Token::Number(v) => {
            assert(i64::MIN <= v as int <= i64::MAX);
        },
        _ => {},
    }
}

proof fn lemma_all_fit_cons(t: TokenModel, ts: Seq<TokenModel>)
    ensures
        all_fit(seq![t] + ts) <==> (token_fits(t) && all_fit(ts)),
{
    let c = seq![t] + ts;
    assert(c[0] == t);
    if token_fits(t) && all_fit(ts) {
        assert forall|i: int| 0 <= i < c.len() implies token_fits(#[trigger] c[i]) by {
            if i > 0 {
                assert(c[i] == ts[i - 1]);
            }
        }
    }
    if all_fit(c) {
        assert forall|i: int| 0 <= i < ts.len() implies token_fits(#[trigger] ts[i]) by {
            assert(ts[i] == c[i + 1]);
        }
    }
}

/// One token of lookahead over a lexer: `current_token` is the token the
/// parser is looking at, and the lexer holds everything after it.
pub struct Parser<'a> {
    lexer: Lexer<'a>,
    current_token: Token,
}

impl<'a> Parser<'a> {
    /// Once the lookahead token is `EndOfFile`, the lexer has nothing more
    /// to give.
    pub closed spec fn wf(self) -> bool {
        &&& self.lexer.wf()
        &&& (self.current_token@ is EndOfFile ==> spec_tokens(
            self.lexer.src(),
            self.lexer.pos(),
        ).len() == 0)
    }

    /// The tokens not yet consumed: the lookahead token followed by
    /// everything the lexer still holds.
    pub closed spec fn rest(self) -> Seq<TokenModel> {
        if self.current_token@ is EndOfFile {
            Seq::empty()
        } else {
            seq![self.current_token@] + spec_tokens(self.lexer.src(), self.lexer.pos())
        }
    }

    /// Build a parser by pulling the first token of lookahead.
    pub fn new(lexer: Lexer<'a>) -> (r: Result<Parser<'a>, TranslateError>)
        requires
            lexer.wf(),
        ensures
            (match r {
                Result::Ok(p) => p.wf() && p.rest() == spec_tokens(lexer.src(), lexer.pos()),
                Result::Err(e) => e == TranslateError::NumberOverflow && !all_fit(
                    spec_tokens(lexer.src(), lexer.pos()),
                ),
            }),
    {
        let mut lx = lexer;
        let ghost s = lx.src();
        let ghost p0 = lx.pos();
        match lx.next_token() {
            Ok(t) => {
                proof {
                    crate::lexer::lemma_next_token_advances(s, p0);
                    if t@ is EndOfFile {
                        crate::lexer::lemma_eof_stable(s, p0);
                    } else {
                        assert(seq![t@] + spec_tokens(s, spec_next_token(s, p0).1) =~= spec_tokens(
                            s,
                            p0,
                        ));
                    }
                }
                Ok(Parser { lexer: lx, current_token: t })
            },
            Err(e) => {
                proof {
                    assert(spec_tokens(s, p0)[0] == spec_next_token(s, p0).0);
                }
                Err(e)
            },
        }
    }

    /// Replace the lookahead token with the next one from the lexer.
    fn consume_token(&mut self) -> (r: Result<(), TranslateError>)
        requires
            old(self).wf(),
        ensures
            final(self).wf(),
            (match r {
                Result::Ok(_) => final(self).rest() == rest_toks(old(self).rest()) && (all_fit(
                    old(self).rest(),
                ) <==> all_fit(final(self).rest())),
                Result::Err(e) => e == TranslateError::NumberOverflow && !all_fit(
                    old(self).rest(),
                ),
            }),
    {
        let ghost s = self.lexer.src();
        let ghost p = self.lexer.pos();
        let ghost cur = self.current_token@;
        match self.lexer.next_token() {
            Ok(t) => {
                self.current_token = t;
                proof {
                    crate::lexer::lemma_next_token_advances(s, p);
                    let m = spec_next_token(s, p);
                    lemma_token_view_fits(old(self).current_token);
                    if cur is EndOfFile {
                        assert(t@ is EndOfFile);
                        crate::lexer::lemma_eof_stable(s, p);
                    } else {
                        assert(rest_toks(old(self).rest()) =~= spec_tokens(s, p));
                        if t@ is EndOfFile {
                            crate::lexer::lemma_eof_stable(s, p);
                            assert(final(self).rest() == spec_tokens(s, p));
                        } else {
                            assert(seq![t@] + spec_tokens(s, m.1) =~= spec_tokens(s, p));
                        }
                        lemma_all_fit_cons(cur, spec_tokens(s, p));
                    }
                }
                Ok(())
            },
            Err(e) => {
                proof {
                    let m = spec_next_token(s, p);
                    assert(!(cur is EndOfFile));
                    assert(old(self).rest()[1] == spec_tokens(s, p)[0]);
                    assert(spec_tokens(s, p)[0] == m.0);
                }
                Err(e)
            },
        }
    }

    /// Parse one number leaf from the lookahead token.
    fn parse_number(&mut self) -> (r: Result<Expr, TranslateError>)
        requires
            old(self).wf(),
        ensures
            final(self).wf(),
            (match r {
                Result::Ok(e) => spec_parse_number(old(self).rest()) matches Result::Ok(p) && p.0
                    == e@ && p.1 == final(self).rest() && (all_fit(old(self).rest()) <==> all_fit(
                    final(self).rest(),
                )),
                Result::Err(err) => (spec_parse_number(old(self).rest()) matches Result::Err(e2)
                    && e2 == err) || (err == TranslateError::NumberOverflow && !all_fit(
                    old(self).rest(),
                )),
            }),
    {
        let value_opt: Option<i64> = match &self.current_token {
            Token::Number(value) => Some(*value),
            _ => None,
        };
        match value_opt {
            Some(value) => {
                match self.consume_token() {
                    Ok(_) => Ok(Expr::Number(value)),
                    Err(e) => Err(e),
                }
            },
            None => Err(TranslateError::ExpectedNumber),
        }
    }

    /// Parse one identifier leaf from the lookahead token.
    fn parse_identifier(&mut self) -> (r: Result<Expr, TranslateError>)
        requires
            old(self).wf(),
        ensures
            final(self).wf(),
            (match r {
                Result::Ok(e) => spec_parse_identifier(old(self).rest()) matches Result::Ok(p)
                    && p.0 == e@ && p.1 == final(self).rest() && (all_fit(old(self).rest())
                    <==> all_fit(final(self).rest())),
                Result::Err(err) => (spec_parse_identifier(old(self).rest()) matches Result::Err(
                    e2,
                ) && e2 == err) || (err == TranslateError::NumberOverflow && !all_fit(
                    old(self).rest(),
                )),
            }),
    {
        let name_opt: Option<String> = match &self.current_token {
            Token::Identifier(name) => Some(name.clone()),
            _ => None,
        };
        match name_opt {
            Some(name) => {
                match self.consume_token() {
                    Ok(_) => Ok(Expr::Identifier(name)),
                    Err(e) => Err(e),
                }
            },
            None => Err(TranslateError::ExpectedIdentifier),
        }
    }

    /// Parse one term: a number or an identifier; anything else is a fatal
    /// grammar violation.
    fn parse_term(&mut self) -> (r: Result<Expr, TranslateError>)
        requires
            old(self).wf(),
        ensures
            final(self).wf(),
            (match r {
                Result::Ok(e) => spec_parse_term(old(self).rest()) matches Result::Ok(p) && p.0
                    == e@ && p.1 == final(self).rest() && (all_fit(old(self).rest()) <==> all_fit(
                    final(self).rest(),
                )),
                Result::Err(err) => (spec_parse_term(old(self).rest()) matches Result::Err(e2)
                    && e2 == err) || (err == TranslateError::NumberOverflow && !all_fit(
                    old(self).rest(),
                )),
            }),
    {
        let is_number = match &self.current_token {
            Token::Number(_) => true,
            _ => false,
        };
        let is_identifier = match &self.current_token {
            Token::Identifier(_) => true,
            _ => false,
        };
        if is_number {
            self.parse_number()
        } else if is_identifier {
            self.parse_identifier()
        } else {
            Err(TranslateError::UnexpectedToken)
        }
    }

    /// Parse one expression: a term followed by any run of
    /// punctuation-separated terms, folded left-associatively.
    #[verifier::loop_isolation(false)]
    fn parse_expression(&mut self) -> (r: Result<Expr, TranslateError>)
        requires
            old(self).wf(),
        ensures
            final(self).wf(),
            (match r {
                Result::Ok(e) => spec_parse_expression(old(self).rest()) matches Result::Ok(p)
                    && p.0 == e@ && p.1 == final(self).rest() && (all_fit(old(self).rest())
                    <==> all_fit(final(self).rest())),
                Result::Err(err) => (spec_parse_expression(old(self).rest()) matches Result::Err(
                    e2,
                ) && e2 == err) || (err == TranslateError::NumberOverflow && !all_fit(
                    old(self).rest(),
                )),
            }),
    {
        let ghost rest0 = old(self).rest();
        let mut left = match self.parse_term() {
            Ok(e) => e,
            Err(e) => {
                return Err(e);
            },
        };
        loop
            invariant
                self.wf(),
                spec_parse_expression(rest0) == spec_parse_expr_tail(left@, self.rest()),
                all_fit(rest0) <==> all_fit(self.rest()),
            decreases self.rest().len(),
        {
            let op: char = match &self.current_token {
                Token::Punctuation(symbol) => *symbol,
                _ => {
                    break ;
                },
            };
            let ghost rest_here = self.rest();
            let ghost left_here = left@;
            match self.consume_token() {
                Ok(_) => {},
                Err(e) => {
                    return Err(e);
                },
            }
            let right = match self.parse_term() {
                Ok(e) => e,
                Err(e) => {
                    return Err(e);
                },
            };
            let mut op_text = String::new();
            op_text.push(op);
            proof {
                assert(op_text@ =~= seq![op]);
            }
            left = Expr::BinaryOp(Box::new(left), op_text, Box::new(right));
        }
        Ok(left)
    }

    /// Parse one assignment: the binding keyword, an identifier, `=`, and
    /// the bound expression.
    fn parse_assignment(&mut self) -> (r: Result<Expr, TranslateError>)
        requires
            old(self).wf(),
        ensures
            final(self).wf(),
            (match r {
                Result::Ok(e) => spec_parse_assignment(old(self).rest()) matches Result::Ok(p)
                    && p.0 == e@ && p.1 == final(self).rest() && (all_fit(old(self).rest())
                    <==> all_fit(final(self).rest())),
                Result::Err(err) => (spec_parse_assignment(old(self).rest()) matches Result::Err(
                    e2,
                ) && e2 == err) || (err == TranslateError::NumberOverflow && !all_fit(
                    old(self).rest(),
                )),
            }),
    {
        let is_val = match &self.current_token {
            Token::Keyword(keyword) => str_eq(keyword.as_str(), "val"),
            _ => false,
        };
        if !is_val {
            return Err(TranslateError::ExpectedAssignment);
        }
        match self.consume_token() {
            Ok(_) => {},
            Err(e) => {
                return Err(e);
            },
        }
        let ident = match self.parse_identifier() {
            Ok(e) => e,
            Err(e) => {
                return Err(e);
            },
        };
        let is_eq = match &self.current_token {
            Token::Punctuation(symbol) => *symbol == '=',
            _ => false,
        };
        if !is_eq {
            return Err(TranslateError::ExpectedAssignment);
        }
        match self.consume_token() {
            Ok(_) => {},
            Err(e) => {
                return Err(e);
            },
        }
        let value = match self.parse_expression() {
            Ok(e) => e,
            Err(e) => {
                return Err(e);
            },
        };
        match ident {
            Expr::Identifier(name) => Ok(Expr::Assignment(name, Box::new(value))),
            _ => {
                proof {
                    assert(false);
                }
                Err(TranslateError::ExpectedIdentifier)
            },
        }
    }
}

proof fn lemma_exprs_view_push(es: Seq<Expr>, e: Expr)
    ensures
        exprs_view(es.push(e)) =~= exprs_view(es) + seq![e@],
{
}

/// Lex and parse the whole input in one call, returning the ordered
/// sequence of top-level statements.  The result is exactly what
/// `spec_parse_program` makes of the input's token sequence; an integer
/// literal beyond the `i64` range surfaces as `NumberOverflow` instead of
/// the parse going on.
#[verifier::loop_isolation(false)]
pub fn parse_input(input: &str) -> (r: Result<Vec<Expr>, TranslateError>)
    ensures
        (match r {
            Result::Ok(es) => spec_parse_program(spec_tokens(input@, 0)) matches Result::Ok(stmts)
                && stmts == exprs_view(es@) && all_fit(spec_tokens(input@, 0)),
            Result::Err(err) => (spec_parse_program(spec_tokens(input@, 0)) matches Result::Err(e2)
                && e2 == err) || (err == TranslateError::NumberOverflow && !all_fit(
                spec_tokens(input@, 0),
            )),
        }),
{
    let lexer = Lexer::new(input);
    let ghost ts = spec_tokens(input@, 0);
    let mut parser = match Parser::new(lexer) {
        Ok(p) => p,
        Err(e) => {
            return Err(e);
        },
    };
    let mut exprs: Vec<Expr> = Vec::new();
    proof {
        assert(exprs_view(exprs@) =~= Seq::<ExprModel>::empty());
        match spec_parse_program(parser.rest()) {
            Result::Ok(stmts) => {
                assert(exprs_view(exprs@) + stmts =~= stmts);
            },
            Result::Err(_) => {},
        }
    }
    loop
        invariant
            parser.wf(),
            all_fit(ts) <==> all_fit(parser.rest()),
            (match spec_parse_program(parser.rest()) {
                Result::Ok(stmts) => spec_parse_program(ts) == Result::<
                    Seq<ExprModel>,
                    TranslateError,
                >::Ok(exprs_view(exprs@) + stmts),
                Result::Err(e2) => spec_parse_program(ts) == Result::<
                    Seq<ExprModel>,
                    TranslateError,
                >::Err(e2),
            }),
        decreases parser.rest().len(),
    {
        let done = match &parser.current_token {
            Token::EndOfFile => true,
            _ => false,
        };
        if done {
            break ;
        }
        let is_val = match &parser.current_token {
            Token::Keyword(keyword) => str_eq(keyword.as_str(), "val"),
            _ => false,
        };
        let ghost rest_here = parser.rest();
        let ghost exprs_here = exprs@;
        if is_val {
            let e = match parser.parse_assignment() {
                Ok(e) => e,
                Err(err) => {
                    return Err(err);
                },
            };
            proof {
                lemma_assignment_consumes(rest_here);
                lemma_exprs_view_push(exprs_here, e);
                match spec_parse_assignment(rest_here) {
                    Result::Ok(p) => {
                        match spec_parse_program(p.1) {
                            Result::Ok(stmts) => {
                                assert(exprs_view(exprs_here.push(e)) + stmts =~= exprs_view(
                                    exprs_here,
                                ) + (seq![e@] + stmts));
                            },
                            Result::Err(_) => {},
                        }
                    },
                    Result::Err(_) => {},
                }
            }
            exprs.push(e);
        } else {
            let e = match parser.parse_expression() {
                Ok(e) => e,
                Err(err) => {
                    return Err(err);
                },
            };
            let ghost rest_mid = parser.rest();
            exprs.push(e);
            match parser.consume_token() {
                Ok(_) => {},
                Err(err) => {
                    return Err(err);
                },
            }
            proof {
                lemma_expression_consumes(rest_here);
                lemma_exprs_view_push(exprs_here, e);
                match spec_parse_program(parser.rest()) {
                    Result::Ok(stmts) => {
                        assert(exprs_view(exprs_here.push(e)) + stmts =~= exprs_view(exprs_here) + (
                        seq![e@] + stmts));
                    },
                    Result::Err(_) => {},
                }
            }
        }
    }
    proof {
        assert(parser.rest() =~= Seq::<TokenModel>::empty());
        assert(exprs_view(exprs@) + Seq::<ExprModel>::empty() =~= exprs_view(exprs@));
    }
    Ok(exprs)
}

/// Law: whitespace-only input lexes to the empty token sequence, and the
/// empty token sequence parses to the empty statement sequence.
pub proof fn lemma_whitespace_only_program(s: Seq<char>)
    requires
        forall|i: int| 0 <= i < s.len() ==> crate::lexer::is_ws_char(#[trigger] s[i]),
    ensures
        spec_tokens(s, 0) =~= Seq::<TokenModel>::empty(),
        spec_parse_program(spec_tokens(s, 0)) == Result::<
            Seq<ExprModel>,
            TranslateError,
        >::Ok(Seq::empty()),
{
    crate::lexer::lemma_whitespace_only_tokens(s);
}

} // verus!
