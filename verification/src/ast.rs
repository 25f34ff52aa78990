//! Syntactic analysis: a recursive-descent parser from tokens to an
//! abstract syntax tree.
//!
//! A program is a sequence of statements (`let` declarations and `exit`
//! statements).  Expressions use precedence climbing with three levels:
//! `expression := term (('+'|'-') term)*`, `term := factor ('*' factor)*`,
//! `factor := Number | Identifier | '(' expression ')'`; operators of
//! equal precedence associate to the left.
//!
//! [`spec_parse`] and the spec functions around it are the mathematical
//! model; the executable [`AstParser`] methods are proved to return
//! exactly what the model says, consuming their tokens destructively.

use vstd::prelude::*;

use crate::tokenizer::{toks_view, BinaryOp, NumberTypeFlag, SpecToken, Token};

verus! {

/// Expression node: a leaf literal or name, or one binary operation
/// owning both operands.
#[derive(Debug, PartialEq)]
pub enum AstExpression {
    Number { raw: String, flags: Vec<NumberTypeFlag> },
    BinaryOperation { left: Box<AstExpression>, operator: BinaryOp, right: Box<AstExpression> },
    Identifier { name: String },
}

/// Top-level statement node.
#[derive(Debug, PartialEq)]
pub enum AstStatement {
    Let { value: AstExpression, name: String, t: String },
    Exit { value: AstExpression },
}

pub type AstProgram = Vec<AstStatement>;

/// Mathematical abstraction of an [`AstExpression`].
pub ghost enum SpecExpr {
    Number { raw: Seq<char>, flags: Seq<NumberTypeFlag> },
    BinaryOperation { left: Box<SpecExpr>, operator: BinaryOp, right: Box<SpecExpr> },
    Identifier { name: Seq<char> },
}

/// Mathematical abstraction of an [`AstStatement`].
pub ghost enum SpecStatement {
    Let { value: SpecExpr, name: Seq<char>, t: Seq<char> },
    Exit { value: SpecExpr },
}

/// Abstraction of an expression tree.
pub open spec fn expr_view(e: AstExpression) -> SpecExpr
    decreases e,
{
    match e {
        AstExpression::Number { raw, flags } => SpecExpr::Number { raw: raw@, flags: flags@ },
        AstExpression::BinaryOperation { left, operator, right } => SpecExpr::BinaryOperation {
            left: Box::new(expr_view(*left)),
            operator,
            right: Box::new(expr_view(*right)),
        },
        AstExpression::Identifier { name } => SpecExpr::Identifier { name: name@ },
    }
}

impl View for AstExpression {
    type V = SpecExpr;

    open spec fn view(&self) -> SpecExpr {
        expr_view(*self)
    }
}

impl View for AstStatement {
    type V = SpecStatement;

    open spec fn view(&self) -> SpecStatement {
        match self {
            AstStatement::Let { value, name, t } => SpecStatement::Let {
                value: value@,
                name: name@,
                t: t@,
            },
            AstStatement::Exit { value } => SpecStatement::Exit { value: value@ },
        }
    }
}

/// Abstraction of a statement sequence.
pub open spec fn stmts_view(ss: Seq<AstStatement>) -> Seq<SpecStatement> {
    ss.map_values(|s: AstStatement| s@)
}

// ---------------------------------------------------------------------
// Errors
// ---------------------------------------------------------------------

/// Failure of expression parsing: no valid factor can start at the
/// cursor, or a parenthesis was never closed.  Carries the offending
/// token, or none at end of input.
#[derive(Debug, PartialEq)]
pub enum ExpressionParseError {
    InvalidFactorToken { found: Option<Token> },
}

/// Failure of statement parsing.
#[derive(Debug, PartialEq)]
pub enum AstParseError {
    /// An expression inside a statement failed to parse; keeps the cause.
    InvalidExpression(ExpressionParseError),
    /// A token at statement position starts no statement form.
    ExpressionAtToplevel,
    /// A `let` statement's bound structure has the wrong shape.
    InvalidLetStatement,
}

/// Mathematical abstraction of an [`AstParseError`].
pub ghost enum SpecParseError {
    InvalidExpression { found: Option<SpecToken> },
    ExpressionAtToplevel,
    InvalidLetStatement,
}

impl View for ExpressionParseError {
    type V = Option<SpecToken>;

    open spec fn view(&self) -> Option<SpecToken> {
        match self {
            ExpressionParseError::InvalidFactorToken { found } => match found {
                Some(t) => Some(t@),
                None => None,
            },
        }
    }
}

impl View for AstParseError {
    type V = SpecParseError;

    open spec fn view(&self) -> SpecParseError {
        match self {
            AstParseError::InvalidExpression(cause) => SpecParseError::InvalidExpression {
                found: cause@,
            },
            AstParseError::ExpressionAtToplevel => SpecParseError::ExpressionAtToplevel,
            AstParseError::InvalidLetStatement => SpecParseError::InvalidLetStatement,
        }
    }
}

pub type AstParseResult = Result<AstProgram, AstParseError>;

pub type ExpressionParseResult = Result<AstExpression, ExpressionParseError>;

// ---------------------------------------------------------------------
// The parsing model
// ---------------------------------------------------------------------

/// A `*` operator token.
pub open spec fn is_star_tok(t: SpecToken) -> bool {
    t matches SpecToken::BinaryOperator { op: BinaryOp::Star, .. }
}

/// A `+` or `-` operator token.
pub open spec fn is_addsub_tok(t: SpecToken) -> bool {
    t matches SpecToken::BinaryOperator { op, .. } && (op == BinaryOp::Plus || op
        == BinaryOp::Minus)
}

/// Operator carried by an operator token.
pub open spec fn tok_op(t: SpecToken) -> BinaryOp {
    match t {
        SpecToken::BinaryOperator { op, .. } => op,
        _ => BinaryOp::Plus,
    }
}

/// Name carried by an identifier token.
pub open spec fn tok_ident_name(t: SpecToken) -> Seq<char> {
    match t {
        SpecToken::Identifier { name } => name,
        _ => Seq::empty(),
    }
}

/// What parsing one factor at the head of `ts` yields: the factor's
/// expression and the tokens left over, or the offending token (none at
/// end of input).
pub open spec fn spec_factor(ts: Seq<SpecToken>) -> Result<
    (SpecExpr, Seq<SpecToken>),
    Option<SpecToken>,
>
    decreases ts.len(), 0int,
{
    if ts.len() == 0 {
        Err(None)
    } else {
        match ts[0] {
            SpecToken::Number { raw, flags, offset } => Ok(
                (SpecExpr::Number { raw, flags }, ts.skip(1)),
            ),
            SpecToken::Identifier { name } => Ok((SpecExpr::Identifier { name }, ts.skip(1))),
            SpecToken::OpenParen => match spec_expression(ts.skip(1)) {
                Ok((e, rest)) => if rest.len() > 0 && rest[0] == SpecToken::CloseParen {
                    Ok((e, rest.skip(1)))
                } else if rest.len() > 0 {
                    Err(Some(rest[0]))
                } else {
                    Err(None)
                },
                Err(oe) => Err(oe),
            },
            _ => Err(Some(ts[0])),
        }
    }
}

/// What parsing one term yields: a left-associated chain of factors
/// joined by `*`.
pub open spec fn spec_term(ts: Seq<SpecToken>) -> Result<
    (SpecExpr, Seq<SpecToken>),
    Option<SpecToken>,
>
    decreases ts.len(), 1int,
{
    match spec_factor(ts) {
        Ok((e, rest)) => if rest.len() < ts.len() {
            spec_term_more(e, rest)
        } else {
            // never reached: a factor consumes at least one token
            Err(None)
        },
        Err(oe) => Err(oe),
    }
}

/// Folds further `* factor` steps onto the term parsed so far.
pub open spec fn spec_term_more(acc: SpecExpr, ts: Seq<SpecToken>) -> Result<
    (SpecExpr, Seq<SpecToken>),
    Option<SpecToken>,
>
    decreases ts.len(), 2int,
{
    if ts.len() > 0 && is_star_tok(ts[0]) {
        match spec_factor(ts.skip(1)) {
            Ok((r, rest)) => if rest.len() < ts.len() {
                spec_term_more(
                    SpecExpr::BinaryOperation {
                        left: Box::new(acc),
                        operator: BinaryOp::Star,
                        right: Box::new(r),
                    },
                    rest,
                )
            } else {
                // never reached: a factor consumes at least one token
                Err(None)
            },
            Err(oe) => Err(oe),
        }
    } else {
        Ok((acc, ts))
    }
}

/// What parsing one expression yields: a left-associated chain of terms
/// joined by `+` or `-`.
pub open spec fn spec_expression(ts: Seq<SpecToken>) -> Result<
    (SpecExpr, Seq<SpecToken>),
    Option<SpecToken>,
>
    decreases ts.len(), 3int,
{
    match spec_term(ts) {
        Ok((e, rest)) => if rest.len() < ts.len() {
            spec_expression_more(e, rest)
        } else {
            // never reached: a term consumes at least one token
            Err(None)
        },
        Err(oe) => Err(oe),
    }
}

/// Folds further `+ term` / `- term` steps onto the expression parsed
/// so far.
pub open spec fn spec_expression_more(acc: SpecExpr, ts: Seq<SpecToken>) -> Result<
    (SpecExpr, Seq<SpecToken>),
    Option<SpecToken>,
>
    decreases ts.len(), 4int,
{
    if ts.len() > 0 && is_addsub_tok(ts[0]) {
        match spec_term(ts.skip(1)) {
            Ok((r, rest)) => if rest.len() < ts.len() {
                spec_expression_more(
                    SpecExpr::BinaryOperation {
                        left: Box::new(acc),
                        operator: tok_op(ts[0]),
                        right: Box::new(r),
                    },
                    rest,
                )
            } else {
                // never reached: a term consumes at least one token
                Err(None)
            },
            Err(oe) => Err(oe),
        }
    } else {
        Ok((acc, ts))
    }
}

/// A successful parse of a factor consumes at least one token.
pub proof fn lemma_factor_consumes(ts: Seq<SpecToken>)
    ensures
        spec_factor(ts) matches Ok(p) ==> p.1.len() < ts.len(),
    decreases ts.len(), 0int,
{
    if ts.len() > 0 && ts[0] is OpenParen {
        lemma_expression_consumes(ts.skip(1));
    }
}

/// Folding `* factor` steps never grows the leftover token sequence.
pub proof fn lemma_term_more_consumes(acc: SpecExpr, ts: Seq<SpecToken>)
    ensures
        spec_term_more(acc, ts) matches Ok(p) ==> p.1.len() <= ts.len(),
    decreases ts.len(), 2int,
{
    if ts.len() > 0 && is_star_tok(ts[0]) {
        lemma_factor_consumes(ts.skip(1));
        match spec_factor(ts.skip(1)) {
            Ok((r, rest)) => {
                let next = SpecExpr::BinaryOperation {
                    left: Box::new(acc),
                    operator: BinaryOp::Star,
                    right: Box::new(r),
                };
                lemma_term_more_consumes(next, rest);
            },
            Err(_) => {},
        }
    }
}

/// A successful parse of a term consumes at least one token.
pub proof fn lemma_term_consumes(ts: Seq<SpecToken>)
    ensures
        spec_term(ts) matches Ok(p) ==> p.1.len() < ts.len(),
    decreases ts.len(), 1int,
{
    lemma_factor_consumes(ts);
    match spec_factor(ts) {
        Ok((e, rest)) => {
            lemma_term_more_consumes(e, rest);
        },
        Err(_) => {},
    }
}

/// Folding `+ term` and `- term` steps never grows the leftover token
/// sequence.
pub proof fn lemma_expression_more_consumes(acc: SpecExpr, ts: Seq<SpecToken>)
    ensures
        spec_expression_more(acc, ts) matches Ok(p) ==> p.1.len() <= ts.len(),
    decreases ts.len(), 4int,
{
    if ts.len() > 0 && is_addsub_tok(ts[0]) {
        lemma_term_consumes(ts.skip(1));
        match spec_term(ts.skip(1)) {
            Ok((r, rest)) => {
                let next = SpecExpr::BinaryOperation {
                    left: Box::new(acc),
                    operator: tok_op(ts[0]),
                    right: Box::new(r),
                };
                lemma_expression_more_consumes(next, rest);
            },
            Err(_) => {},
        }
    }
}

/// A successful parse of an expression consumes at least one token.
pub proof fn lemma_expression_consumes(ts: Seq<SpecToken>)
    ensures
        spec_expression(ts) matches Ok(p) ==> p.1.len() < ts.len(),
    decreases ts.len(), 3int,
{
    lemma_term_consumes(ts);
    match spec_term(ts) {
        Ok((e, rest)) => {
            lemma_expression_more_consumes(e, rest);
        },
        Err(_) => {},
    }
}


/// What parsing a `let` statement at the head of `ts` yields (with
/// `ts[0]` already known to be the `let` keyword): the declaration and
/// the rest of the program, or the first failure.
pub open spec fn spec_parse_let(ts: Seq<SpecToken>) -> Result<Seq<SpecStatement>, SpecParseError>
    decreases ts.len(), 0int,
{
    if ts.len() >= 5 && (ts[1] matches SpecToken::Identifier { .. }) && ts[2] == SpecToken::Colon
        && (ts[3] matches SpecToken::Identifier { .. }) && ts[4] == SpecToken::SingleEqual {
        match spec_expression(ts.skip(5)) {
            Ok((value, rest)) => if rest.len() > 0 && rest[0] == SpecToken::Semicolon {
                if (value matches SpecExpr::Number { .. }) || (value
                    matches SpecExpr::BinaryOperation { .. }) {
                    if rest.len() < ts.len() {
                        match spec_parse(rest.skip(1)) {
                            Ok(stmts) => Ok(
                                seq![
                                    SpecStatement::Let {
                                        value,
                                        name: tok_ident_name(ts[1]),
                                        t: tok_ident_name(ts[3]),
                                    },
                                ] + stmts,
                            ),
                            Err(er) => Err(er),
                        }
                    } else {
                        // never reached: an expression consumes at least one token
                        Err(SpecParseError::InvalidLetStatement)
                    }
                } else {
                    Err(SpecParseError::InvalidLetStatement)
                }
            } else {
                Err(SpecParseError::InvalidLetStatement)
            },
            Err(oe) => Err(SpecParseError::InvalidExpression { found: oe }),
        }
    } else {
        Err(SpecParseError::InvalidLetStatement)
    }
}

/// What parsing a whole token sequence yields: the program's statements
/// in source order, or the first failure.
pub open spec fn spec_parse(ts: Seq<SpecToken>) -> Result<Seq<SpecStatement>, SpecParseError>
    decreases ts.len(), 1int,
{
    if ts.len() == 0 {
        Ok(Seq::empty())
    } else {
        match ts[0] {
            SpecToken::Let => spec_parse_let(ts),
            SpecToken::Exit => match spec_expression(ts.skip(1)) {
                Ok((value, rest)) => if rest.len() < ts.len() {
                    match spec_parse(rest) {
                        Ok(stmts) => Ok(seq![SpecStatement::Exit { value }] + stmts),
                        Err(er) => Err(er),
                    }
                } else {
                    // never reached: an expression consumes at least one token
                    Err(SpecParseError::ExpressionAtToplevel)
                },
                Err(oe) => Err(SpecParseError::InvalidExpression { found: oe }),
            },
            SpecToken::Semicolon => spec_parse(ts.skip(1)),
            _ => Err(SpecParseError::ExpressionAtToplevel),
        }
    }
}

/// Prepending one parsed statement to the rest of the program moves the
/// statements-so-far prefix of the whole parse forward by it.
proof fn lemma_stmt_prefix_shift(
    prefix: Seq<SpecStatement>,
    st: SpecStatement,
    ts0: Seq<SpecToken>,
    cur: Seq<SpecToken>,
    next: Seq<SpecToken>,
)
    requires
        spec_parse(cur) == (match spec_parse(next) {
            Ok(rest) => Ok::<Seq<SpecStatement>, SpecParseError>(seq![st] + rest),
            Err(e) => Err::<Seq<SpecStatement>, SpecParseError>(e),
        }),
        match spec_parse(cur) {
            Ok(sts) => spec_parse(ts0) == Ok::<Seq<SpecStatement>, SpecParseError>(prefix + sts),
            Err(e) => spec_parse(ts0) == Err::<Seq<SpecStatement>, SpecParseError>(e),
        },
    ensures
        match spec_parse(next) {
            Ok(rest) => spec_parse(ts0) == Ok::<Seq<SpecStatement>, SpecParseError>(
                (prefix + seq![st]) + rest,
            ),
            Err(e) => spec_parse(ts0) == Err::<Seq<SpecStatement>, SpecParseError>(e),
        },
{
    match spec_parse(next) {
        Ok(rest) => {
            assert(prefix + (seq![st] + rest) =~= (prefix + seq![st]) + rest);
        },
        Err(_) => {},
    }
}

// ---------------------------------------------------------------------
// The parser
// ---------------------------------------------------------------------

/// Recursive-descent parser over one token sequence, consumed
/// destructively from the front.
pub struct AstParser {
    tokens: Vec<Token>,
}

impl AstParser {
    /// Parser over `tokens`.
    pub fn new(tokens: Vec<Token>) -> (r: Self)
        ensures
            r.spec_remaining() == toks_view(tokens@),
    {
        Self { tokens }
    }

    /// Tokens not yet consumed.
    pub closed spec fn spec_remaining(&self) -> Seq<SpecToken> {
        toks_view(self.tokens@)
    }

    /// Parses the whole remaining token sequence into the program's
    /// statements, exactly as [`spec_parse`] says; on success every
    /// token has been consumed.
    pub fn parse(&mut self) -> (r: AstParseResult)
        ensures
            match spec_parse(old(self).spec_remaining()) {
                Ok(stmts) => {
                    &&& r matches Ok(v)
                    &&& stmts_view(v@) == stmts
                    &&& final(self).spec_remaining().len() == 0
                },
                Err(e) => r matches Err(err) && err@ == e,
            },
    {
        let ghost ts0 = self.spec_remaining();
        let mut nodes: Vec<AstStatement> = Vec::new();
        while !self.finished()
            invariant
                ts0 == old(self).spec_remaining(),
                match spec_parse(self.spec_remaining()) {
                    Ok(stmts) => spec_parse(ts0) == Ok::<Seq<SpecStatement>, SpecParseError>(
                        stmts_view(nodes@) + stmts,
                    ),
                    Err(e) => spec_parse(ts0) == Err::<Seq<SpecStatement>, SpecParseError>(e),
                },
            decreases self.spec_remaining().len(),
        {
            let ghost rem = self.spec_remaining();
            let ghost nodes0 = nodes@;
            match self.eat() {
                Some(Token::Let) => {
                    let name = match self.eat() {
                        Some(Token::Identifier(n)) => {
                            proof {
                                assert(rem.skip(1)[0] == rem[1]);
                                assert(self.spec_remaining() =~= rem.skip(2));
                            }
                            n
                        },
                        Some(_) => {
                            proof {
                                assert(rem.skip(1)[0] == rem[1]);
                                assert(spec_parse_let(rem) == Err::<
                                    Seq<SpecStatement>,
                                    SpecParseError,
                                >(SpecParseError::InvalidLetStatement));
                            }
                            return Err(AstParseError::InvalidLetStatement);
                        },
                        None => {
                            return Err(AstParseError::InvalidLetStatement);
                        },
                    };
                    match self.eat() {
                        Some(Token::Colon) => {
                            proof {
                                assert(rem.skip(2)[0] == rem[2]);
                                assert(self.spec_remaining() =~= rem.skip(3));
                            }
                        },
                        Some(_) => {
                            proof {
                                assert(rem.skip(2)[0] == rem[2]);
                            }
                            return Err(AstParseError::InvalidLetStatement);
                        },
                        None => {
                            return Err(AstParseError::InvalidLetStatement);
                        },
                    }
                    let t = match self.eat() {
                        Some(Token::Identifier(n)) => {
                            proof {
                                assert(rem.skip(3)[0] == rem[3]);
                                assert(self.spec_remaining() =~= rem.skip(4));
                            }
                            n
                        },
                        Some(_) => {
                            proof {
                                assert(rem.skip(3)[0] == rem[3]);
                            }
                            return Err(AstParseError::InvalidLetStatement);
                        },
                        None => {
                            return Err(AstParseError::InvalidLetStatement);
                        },
                    };
                    match self.eat() {
                        Some(Token::SingleEqual) => {
                            proof {
                                assert(rem.skip(4)[0] == rem[4]);
                                assert(self.spec_remaining() =~= rem.skip(5));
                            }
                        },
                        Some(_) => {
                            proof {
                                assert(rem.skip(4)[0] == rem[4]);
                            }
                            return Err(AstParseError::InvalidLetStatement);
                        },
                        None => {
                            return Err(AstParseError::InvalidLetStatement);
                        },
                    }
                    proof {
                        lemma_expression_consumes(rem.skip(5));
                    }
                    let value = match self.expression() {
                        Ok(v) => v,
                        Err(e) => {
                            return Err(AstParseError::InvalidExpression(e));
                        },
                    };
                    match self.eat() {
                        Some(Token::Semicolon) => {},
                        _ => {
                            return Err(AstParseError::InvalidLetStatement);
                        },
                    }
                    let shape_ok = match &value {
                        AstExpression::Number { .. } => true,
                        AstExpression::BinaryOperation { .. } => true,
                        AstExpression::Identifier { .. } => false,
                    };
                    if !shape_ok {
                        return Err(AstParseError::InvalidLetStatement);
                    }
                    let stmt = AstStatement::Let { value, name, t };
                    let ghost st = stmt@;
                    nodes.push(stmt);
                    proof {
                        assert(stmts_view(nodes@) =~= stmts_view(nodes0) + seq![st]);
                        lemma_stmt_prefix_shift(
                            stmts_view(nodes0),
                            st,
                            ts0,
                            rem,
                            self.spec_remaining(),
                        );
                    }
                },
                Some(Token::Exit) => {
                    proof {
                        lemma_expression_consumes(rem.skip(1));
                    }
                    let value = match self.expression() {
                        Ok(v) => v,
                        Err(e) => {
                            return Err(AstParseError::InvalidExpression(e));
                        },
                    };
                    let stmt = AstStatement::Exit { value };
                    let ghost st = stmt@;
                    nodes.push(stmt);
                    proof {
                        assert(stmts_view(nodes@) =~= stmts_view(nodes0) + seq![st]);
                        lemma_stmt_prefix_shift(
                            stmts_view(nodes0),
                            st,
                            ts0,
                            rem,
                            self.spec_remaining(),
                        );
                    }
                },
                Some(Token::Semicolon) => {},
                Some(_) => {
                    return Err(AstParseError::ExpressionAtToplevel);
                },
                None => {
                    proof {
                        assert(false);
                    }
                    return Err(AstParseError::ExpressionAtToplevel);
                },
            }
        }
        proof {
            assert(stmts_view(nodes@) + Seq::<SpecStatement>::empty() =~= stmts_view(nodes@));
        }
        Ok(nodes)
    }

    /// Parses one expression: a left-associated chain of terms joined
    /// by `+` or `-`.
    fn expression(&mut self) -> (r: ExpressionParseResult)
        ensures
            match spec_expression(old(self).spec_remaining()) {
                Ok(p) => {
                    &&& r matches Ok(v)
                    &&& v@ == p.0
                    &&& final(self).spec_remaining() == p.1
                    &&& p.1.len() < old(self).spec_remaining().len()
                },
                Err(oe) => r matches Err(err) && err@ == oe,
            },
        decreases self.spec_remaining().len(), 2int,
    {
        let ghost ts0 = self.spec_remaining();
        proof {
            lemma_term_consumes(ts0);
            lemma_expression_consumes(ts0);
        }
        let mut node = match self.term() {
            Ok(n) => n,
            Err(e) => {
                return Err(e);
            },
        };
        while self.peek_addsub()
            invariant
                ts0 == old(self).spec_remaining(),
                self.spec_remaining().len() < ts0.len(),
                spec_expression(ts0) == spec_expression_more(node@, self.spec_remaining()),
            decreases self.spec_remaining().len(),
        {
            let ghost rem = self.spec_remaining();
            let op = match self.eat() {
                Some(Token::BinaryOperator { op, offset: _ }) => op,
                _ => {
                    proof {
                        assert(false);
                    }
                    BinaryOp::Plus
                },
            };
            proof {
                lemma_term_consumes(rem.skip(1));
            }
            let rhs = match self.term() {
                Ok(n) => n,
                Err(e) => {
                    return Err(e);
                },
            };
            node = AstExpression::BinaryOperation {
                left: Box::new(node),
                operator: op,
                right: Box::new(rhs),
            };
        }
        Ok(node)
    }

    /// Parses one term: a left-associated chain of factors joined by `*`.
    fn term(&mut self) -> (r: ExpressionParseResult)
        ensures
            match spec_term(old(self).spec_remaining()) {
                Ok(p) => {
                    &&& r matches Ok(v)
                    &&& v@ == p.0
                    &&& final(self).spec_remaining() == p.1
                    &&& p.1.len() < old(self).spec_remaining().len()
                },
                Err(oe) => r matches Err(err) && err@ == oe,
            },
        decreases self.spec_remaining().len(), 1int,
    {
        let ghost ts0 = self.spec_remaining();
        proof {
            lemma_factor_consumes(ts0);
            lemma_term_consumes(ts0);
        }
        let mut node = match self.factor() {
            Ok(n) => n,
            Err(e) => {
                return Err(e);
            },
        };
        while self.peek_star()
            invariant
                ts0 == old(self).spec_remaining(),
                self.spec_remaining().len() < ts0.len(),
                spec_term(ts0) == spec_term_more(node@, self.spec_remaining()),
            decreases self.spec_remaining().len(),
        {
            let ghost rem = self.spec_remaining();
            self.eat();
            proof {
                lemma_factor_consumes(rem.skip(1));
            }
            let rhs = match self.factor() {
                Ok(n) => n,
                Err(e) => {
                    return Err(e);
                },
            };
            node = AstExpression::BinaryOperation {
                left: Box::new(node),
                operator: BinaryOp::Star,
                right: Box::new(rhs),
            };
        }
        Ok(node)
    }

    /// Parses one factor: a number, a name, or a parenthesized
    /// expression.
    fn factor(&mut self) -> (r: ExpressionParseResult)
        ensures
            match spec_factor(old(self).spec_remaining()) {
                Ok(p) => {
                    &&& r matches Ok(v)
                    &&& v@ == p.0
                    &&& final(self).spec_remaining() == p.1
                },
                Err(oe) => r matches Err(err) && err@ == oe,
            },
        decreases self.spec_remaining().len(), 0int,
    {
        let ghost ts0 = self.spec_remaining();
        match self.eat() {
            Some(Token::Number { raw, flags, offset: _ }) => Ok(
                AstExpression::Number { raw, flags },
            ),
            Some(Token::Identifier(name)) => Ok(AstExpression::Identifier { name }),
            Some(Token::OpenParen) => {
                proof {
                    lemma_expression_consumes(ts0.skip(1));
                }
                let node = match self.expression() {
                    Ok(n) => n,
                    Err(e) => {
                        return Err(e);
                    },
                };
                match self.peek() {
                    Some(Token::CloseParen) => {
                        self.eat();
                        Ok(node)
                    },
                    _ => Err(ExpressionParseError::InvalidFactorToken { found: self.eat() }),
                }
            },
            other => Err(ExpressionParseError::InvalidFactorToken { found: other }),
        }
    }

    fn finished(&self) -> (r: bool)
        ensures
            r == (self.spec_remaining().len() == 0),
    {
        self.tokens.len() == 0
    }

    fn peek(&self) -> (r: Option<&Token>)
        ensures
            match r {
                Some(t) => self.spec_remaining().len() > 0 && t@ == self.spec_remaining()[0],
                None => self.spec_remaining().len() == 0,
            },
    {
        if self.tokens.len() > 0 {
            Some(&self.tokens[0])
        } else {
            None
        }
    }

    fn peek_star(&self) -> (r: bool)
        ensures
            r == (self.spec_remaining().len() > 0 && is_star_tok(self.spec_remaining()[0])),
    {
        match self.peek() {
            Some(Token::BinaryOperator { op: BinaryOp::Star, offset: _ }) => true,
            _ => false,
        }
    }

    fn peek_addsub(&self) -> (r: bool)
        ensures
            r == (self.spec_remaining().len() > 0 && is_addsub_tok(self.spec_remaining()[0])),
    {
        match self.peek() {
            Some(Token::BinaryOperator { op: BinaryOp::Plus, offset: _ }) => true,
            Some(Token::BinaryOperator { op: BinaryOp::Minus, offset: _ }) => true,
            _ => false,
        }
    }

    fn eat(&mut self) -> (r: Option<Token>)
        ensures
            match r {
                Some(t) => {
                    &&& old(self).spec_remaining().len() > 0
                    &&& t@ == old(self).spec_remaining()[0]
                    &&& final(self).spec_remaining() == old(self).spec_remaining().skip(1)
                },
                None => {
                    &&& old(self).spec_remaining().len() == 0
                    &&& final(self).spec_remaining() == old(self).spec_remaining()
                },
            },
    {
        if self.tokens.len() > 0 {
            let t = self.tokens.remove(0);
            proof {
                assert(toks_view(self.tokens@) =~= toks_view(old(self).tokens@).skip(1));
            }
            Some(t)
        } else {
            None
        }
    }
}

} // verus!
