//! Round-trip law: emitting an expression and lexing and parsing the
//! emitted text back yields the same expression tree.
//!
//! The law holds for the trees whose emitted text needs no parentheses:
//! left-associated chains of `+`/`-` over left-associated chains of `*`
//! over number literals ([`is_expr_shape`]).  Those are exactly the
//! trees the parser builds from sources whose parentheses (if any) only
//! restate the default grouping, so dropping them — as the emitter does
//! — loses nothing.

use vstd::prelude::*;

use crate::ast::{
    is_addsub_tok, is_star_tok, lemma_term_consumes, spec_expression,
    spec_expression_more, spec_term, spec_term_more, tok_op, SpecExpr,
};
use crate::cbackend::{op_char, spec_emit_expr};
use crate::tokenizer::{
    is_digit_char, is_op_char, lemma_digit_run_char, spec_tokenize, BinaryOp, NumberTypeFlag,
    SpecToken,
};

verus! {

/// A number literal whose text is a nonempty digit run and which
/// carries no flags: the only leaves a round-trip-safe tree may have.
pub open spec fn is_plain_number(e: SpecExpr) -> bool {
    &&& e matches SpecExpr::Number { raw, flags }
    &&& raw.len() > 0
    &&& (forall|i: int| 0 <= i < raw.len() ==> is_digit_char(raw[i]))
    &&& flags.len() == 0
}

/// A left-associated chain of `*` over plain number literals.
pub open spec fn is_term_shape(e: SpecExpr) -> bool
    decreases e,
{
    match e {
        SpecExpr::Number { .. } => is_plain_number(e),
        SpecExpr::BinaryOperation { left, operator, right } => operator == BinaryOp::Star
            && is_term_shape(*left) && is_plain_number(*right),
        SpecExpr::Identifier { .. } => false,
    }
}

/// A left-associated chain of `+`/`-` over term-shaped trees: the trees
/// whose emitted text regroups to the same tree under the parser's
/// precedence rules.
pub open spec fn is_expr_shape(e: SpecExpr) -> bool
    decreases e,
{
    is_term_shape(e) || {
        &&& e matches SpecExpr::BinaryOperation { left, operator, right }
        &&& (operator == BinaryOp::Plus || operator == BinaryOp::Minus)
        &&& is_expr_shape(*left)
        &&& is_term_shape(*right)
    }
}

/// Every leaf is a plain number literal.
pub open spec fn leaves_plain(e: SpecExpr) -> bool
    decreases e,
{
    match e {
        SpecExpr::Number { .. } => is_plain_number(e),
        SpecExpr::BinaryOperation { left, operator, right } => leaves_plain(*left) && leaves_plain(
            *right,
        ),
        SpecExpr::Identifier { .. } => false,
    }
}

proof fn lemma_shapes_have_plain_leaves(e: SpecExpr)
    ensures
        is_term_shape(e) ==> leaves_plain(e),
        is_expr_shape(e) ==> leaves_plain(e),
    decreases e,
{
    match e {
        SpecExpr::BinaryOperation { left, operator, right } => {
            lemma_shapes_have_plain_leaves(*left);
            lemma_shapes_have_plain_leaves(*right);
        },
        _ => {},
    }
}

/// The token sequence that lexing the emitted text of `e` yields, when
/// the text starts at character position `pos`.
pub open spec fn expr_tokens(e: SpecExpr, pos: nat) -> Seq<SpecToken>
    decreases e,
{
    match e {
        SpecExpr::Number { raw, flags } => seq![
            SpecToken::Number { raw, flags: Seq::empty(), offset: pos },
        ],
        SpecExpr::BinaryOperation { left, operator, right } => {
            let llen = spec_emit_expr(*left).len();
            expr_tokens(*left, pos) + seq![
                SpecToken::BinaryOperator { op: operator, offset: (pos + llen) as nat },
            ] + expr_tokens(*right, (pos + llen + 1) as nat)
        },
        SpecExpr::Identifier { name } => Seq::empty(),
    }
}

/// Lexing the emitted text of `e`, followed by anything that starts
/// with an operator character (or nothing), yields `e`'s tokens and
/// then whatever the remainder lexes to.
proof fn lemma_lex_expr(e: SpecExpr, pos: nat, rest: Seq<char>)
    requires
        leaves_plain(e),
        rest.len() == 0 || is_op_char(rest[0]),
    ensures
        match spec_tokenize(rest, (pos + spec_emit_expr(e).len()) as nat) {
            Ok(rtoks) => spec_tokenize(spec_emit_expr(e) + rest, pos) == Ok::<
                Seq<SpecToken>,
                (char, nat),
            >(expr_tokens(e, pos) + rtoks),
            Err(err) => spec_tokenize(spec_emit_expr(e) + rest, pos) == Err::<
                Seq<SpecToken>,
                (char, nat),
            >(err),
        },
    decreases e,
{
    match e {
        SpecExpr::Number { raw, flags } => {
            let s = raw + rest;
            assert(forall|i: int| 0 <= i < raw.len() ==> s[i] == raw[i]);
            if rest.len() > 0 {
                assert(s[raw.len() as int] == rest[0]);
            }
            lemma_digit_run_char(s, raw.len() as int);
            assert(s.take(raw.len() as int) =~= raw);
            assert(s.skip(raw.len() as int) =~= rest);
            let tok = SpecToken::Number { raw, flags: Seq::empty(), offset: pos };
            match spec_tokenize(rest, (pos + raw.len()) as nat) {
                Ok(rtoks) => {
                    assert(seq![tok] + rtoks =~= expr_tokens(e, pos) + rtoks);
                },
                Err(_) => {},
            }
        },
        SpecExpr::BinaryOperation { left, operator, right } => {
            let el = spec_emit_expr(*left);
            let er = spec_emit_expr(*right);
            let opc = op_char(operator);
            let rest1 = seq![opc] + er + rest;
            assert(rest1[0] == opc && is_op_char(opc));
            lemma_lex_expr(*left, pos, rest1);
            assert(spec_emit_expr(e) + rest =~= el + rest1);
            let p1 = (pos + el.len()) as nat;
            assert(rest1.skip(1) =~= er + rest);
            lemma_lex_expr(*right, (p1 + 1) as nat, rest);
            let p2 = (p1 + 1 + er.len()) as nat;
            assert(pos + spec_emit_expr(e).len() == p2);
            let optok = SpecToken::BinaryOperator { op: operator, offset: p1 };
            match spec_tokenize(rest, p2) {
                Ok(rtoks) => {
                    assert(expr_tokens(e, pos) + rtoks =~= expr_tokens(*left, pos) + (seq![optok]
                        + (expr_tokens(*right, (p1 + 1) as nat) + rtoks)));
                },
                Err(_) => {},
            }
        },
        SpecExpr::Identifier { .. } => {
            assert(false);
        },
    }
}

// ---------------------------------------------------------------------
// Term chains
// ---------------------------------------------------------------------

/// Leftmost factor of a term chain.
pub open spec fn term_first(e: SpecExpr) -> SpecExpr
    decreases e,
{
    match e {
        SpecExpr::BinaryOperation { left, .. } => term_first(*left),
        _ => e,
    }
}

/// The factors joined onto the leftmost one, left to right.
pub open spec fn term_factors_after(e: SpecExpr) -> Seq<SpecExpr>
    decreases e,
{
    match e {
        SpecExpr::BinaryOperation { left, operator, right } => term_factors_after(*left).push(
            *right,
        ),
        _ => Seq::empty(),
    }
}

/// Rebuilds a term chain by joining factors onto `acc`, left to right.
pub open spec fn fold_term(acc: SpecExpr, fs: Seq<SpecExpr>) -> SpecExpr
    decreases fs.len(),
{
    if fs.len() == 0 {
        acc
    } else {
        fold_term(
            SpecExpr::BinaryOperation {
                left: Box::new(acc),
                operator: BinaryOp::Star,
                right: Box::new(fs[0]),
            },
            fs.skip(1),
        )
    }
}

proof fn lemma_fold_term_push(acc: SpecExpr, fs: Seq<SpecExpr>, f: SpecExpr)
    ensures
        fold_term(acc, fs.push(f)) == (SpecExpr::BinaryOperation {
            left: Box::new(fold_term(acc, fs)),
            operator: BinaryOp::Star,
            right: Box::new(f),
        }),
    decreases fs.len(),
{
    reveal_with_fuel(fold_term, 3);
    assert(fs.push(f)[0] == if fs.len() == 0 {
        f
    } else {
        fs[0]
    });
    if fs.len() == 0 {
        assert(fs.push(f).skip(1) =~= Seq::<SpecExpr>::empty());
    } else {
        assert(fs.push(f).skip(1) =~= fs.skip(1).push(f));
        let acc2 = SpecExpr::BinaryOperation {
            left: Box::new(acc),
            operator: BinaryOp::Star,
            right: Box::new(fs[0]),
        };
        lemma_fold_term_push(acc2, fs.skip(1), f);
    }
}

/// Tokens of the `* factor` continuations of a term chain, when they
/// start at character position `pos`.
pub open spec fn term_chain_tokens(fs: Seq<SpecExpr>, pos: nat) -> Seq<SpecToken>
    decreases fs.len(),
{
    if fs.len() == 0 {
        Seq::empty()
    } else {
        seq![SpecToken::BinaryOperator { op: BinaryOp::Star, offset: pos }] + expr_tokens(
            fs[0],
            (pos + 1) as nat,
        ) + term_chain_tokens(fs.skip(1), (pos + 1 + spec_emit_expr(fs[0]).len()) as nat)
    }
}

/// Emitted text length of those continuations.
pub open spec fn term_chain_len(fs: Seq<SpecExpr>) -> nat
    decreases fs.len(),
{
    if fs.len() == 0 {
        0
    } else {
        (1 + spec_emit_expr(fs[0]).len() + term_chain_len(fs.skip(1))) as nat
    }
}

proof fn lemma_term_chain_push(fs: Seq<SpecExpr>, f: SpecExpr, pos: nat)
    ensures
        term_chain_tokens(fs.push(f), pos) == term_chain_tokens(fs, pos) + seq![
            SpecToken::BinaryOperator {
                op: BinaryOp::Star,
                offset: (pos + term_chain_len(fs)) as nat,
            },
        ] + expr_tokens(f, (pos + term_chain_len(fs) + 1) as nat),
        term_chain_len(fs.push(f)) == term_chain_len(fs) + 1 + spec_emit_expr(f).len(),
    decreases fs.len(),
{
    reveal_with_fuel(term_chain_tokens, 3);
    reveal_with_fuel(term_chain_len, 3);
    assert(fs.push(f)[0] == if fs.len() == 0 {
        f
    } else {
        fs[0]
    });
    if fs.len() == 0 {
        assert(fs.push(f).skip(1) =~= Seq::<SpecExpr>::empty());
        assert(term_chain_tokens(fs.push(f), pos) =~= term_chain_tokens(fs, pos) + seq![
            SpecToken::BinaryOperator {
                op: BinaryOp::Star,
                offset: (pos + term_chain_len(fs)) as nat,
            },
        ] + expr_tokens(f, (pos + term_chain_len(fs) + 1) as nat));
    } else {
        assert(fs.push(f).skip(1) =~= fs.skip(1).push(f));
        lemma_term_chain_push(fs.skip(1), f, (pos + 1 + spec_emit_expr(fs[0]).len()) as nat);
        assert(term_chain_tokens(fs.push(f), pos) =~= term_chain_tokens(fs, pos) + seq![
            SpecToken::BinaryOperator {
                op: BinaryOp::Star,
                offset: (pos + term_chain_len(fs)) as nat,
            },
        ] + expr_tokens(f, (pos + term_chain_len(fs) + 1) as nat));
    }
}

/// A term-shaped tree is its leftmost factor with the other factors
/// folded on, and its tokens split the same way.
proof fn lemma_term_decompose(e: SpecExpr, pos: nat)
    requires
        is_term_shape(e),
    ensures
        is_plain_number(term_first(e)),
        forall|i: int|
            0 <= i < term_factors_after(e).len() ==> is_plain_number(
                #[trigger] term_factors_after(e)[i],
            ),
        e == fold_term(term_first(e), term_factors_after(e)),
        spec_emit_expr(e).len() == spec_emit_expr(term_first(e)).len() + term_chain_len(
            term_factors_after(e),
        ),
        expr_tokens(e, pos) == expr_tokens(term_first(e), pos) + term_chain_tokens(
            term_factors_after(e),
            (pos + spec_emit_expr(term_first(e)).len()) as nat,
        ),
    decreases e,
{
    match e {
        SpecExpr::BinaryOperation { left, operator, right } => {
            lemma_term_decompose(*left, pos);
            let f0 = term_first(*left);
            let fsl = term_factors_after(*left);
            lemma_fold_term_push(f0, fsl, *right);
            lemma_term_chain_push(fsl, *right, (pos + spec_emit_expr(f0).len()) as nat);
            assert(forall|i: int| 0 <= i < fsl.len() ==> fsl.push(*right)[i] == fsl[i]);
            assert(fsl.push(*right)[fsl.len() as int] == *right);
            assert(expr_tokens(e, pos) =~= expr_tokens(f0, pos) + term_chain_tokens(
                fsl.push(*right),
                (pos + spec_emit_expr(f0).len()) as nat,
            ));
        },
        _ => {
            assert(expr_tokens(e, pos) + term_chain_tokens(
                Seq::<SpecExpr>::empty(),
                (pos + spec_emit_expr(e).len()) as nat,
            ) =~= expr_tokens(e, pos));
        },
    }
}

/// Parsing the `* factor` continuations folds the factors onto the
/// accumulated term, left to right.
proof fn lemma_parse_term_chain(fs: Seq<SpecExpr>, acc: SpecExpr, pos: nat, rest: Seq<SpecToken>)
    requires
        forall|i: int| 0 <= i < fs.len() ==> is_plain_number(#[trigger] fs[i]),
        rest.len() == 0 || !is_star_tok(rest[0]),
    ensures
        spec_term_more(acc, term_chain_tokens(fs, pos) + rest) == Ok::<
            (SpecExpr, Seq<SpecToken>),
            Option<SpecToken>,
        >((fold_term(acc, fs), rest)),
    decreases fs.len(),
{
    if fs.len() == 0 {
        assert(term_chain_tokens(fs, pos) + rest =~= rest);
    } else {
        let ts = term_chain_tokens(fs, pos) + rest;
        match fs[0] {
            SpecExpr::Number { raw, flags } => {
                let ntok = SpecToken::Number { raw, flags: Seq::empty(), offset: (pos + 1) as nat };
                let pos2 = (pos + 1 + spec_emit_expr(fs[0]).len()) as nat;
                assert(ts[0] == SpecToken::BinaryOperator { op: BinaryOp::Star, offset: pos });
                assert(ts.skip(1) =~= seq![ntok] + (term_chain_tokens(fs.skip(1), pos2) + rest));
                assert(ts.skip(1).skip(1) =~= term_chain_tokens(fs.skip(1), pos2) + rest);
                assert(flags =~= Seq::<NumberTypeFlag>::empty());
                assert(crate::ast::spec_factor(ts.skip(1)) == Ok::<
                    (SpecExpr, Seq<SpecToken>),
                    Option<SpecToken>,
                >((fs[0], ts.skip(1).skip(1))));
                let acc2 = SpecExpr::BinaryOperation {
                    left: Box::new(acc),
                    operator: BinaryOp::Star,
                    right: Box::new(fs[0]),
                };
                lemma_parse_term_chain(fs.skip(1), acc2, pos2, rest);
                assert(spec_term_more(acc, ts) == spec_term_more(
                    acc2,
                    term_chain_tokens(fs.skip(1), pos2) + rest,
                ));
            },
            _ => {
                assert(false);
            },
        }
    }
}

/// Parsing the tokens of a term-shaped tree yields the tree back.
proof fn lemma_parse_term(e: SpecExpr, pos: nat, rest: Seq<SpecToken>)
    requires
        is_term_shape(e),
        rest.len() == 0 || !is_star_tok(rest[0]),
    ensures
        spec_term(expr_tokens(e, pos) + rest) == Ok::<
            (SpecExpr, Seq<SpecToken>),
            Option<SpecToken>,
        >((e, rest)),
{
    lemma_term_decompose(e, pos);
    let f0 = term_first(e);
    let fs = term_factors_after(e);
    let base = (pos + spec_emit_expr(f0).len()) as nat;
    let ts = expr_tokens(e, pos) + rest;
    match f0 {
        SpecExpr::Number { raw, flags } => {
            let ntok = SpecToken::Number { raw, flags: Seq::empty(), offset: pos };
            assert(ts =~= seq![ntok] + (term_chain_tokens(fs, base) + rest));
            assert(ts.skip(1) =~= term_chain_tokens(fs, base) + rest);
            assert(flags =~= Seq::<NumberTypeFlag>::empty());
            assert(crate::ast::spec_factor(ts) == Ok::<
                (SpecExpr, Seq<SpecToken>),
                Option<SpecToken>,
            >((f0, ts.skip(1))));
            lemma_parse_term_chain(fs, f0, base, rest);
            assert(spec_term(ts) == spec_term_more(f0, term_chain_tokens(fs, base) + rest));
        },
        _ => {
            assert(false);
        },
    }
}

// ---------------------------------------------------------------------
// Expression chains
// ---------------------------------------------------------------------

/// Leftmost term of an expression chain.
pub open spec fn expr_first_term(e: SpecExpr) -> SpecExpr
    decreases e,
{
    match e {
        SpecExpr::BinaryOperation { left, operator, right } => if operator == BinaryOp::Star {
            e
        } else {
            expr_first_term(*left)
        },
        _ => e,
    }
}

/// The `+`/`-` steps joined onto the leftmost term, left to right.
pub open spec fn expr_pairs_after(e: SpecExpr) -> Seq<(BinaryOp, SpecExpr)>
    decreases e,
{
    match e {
        SpecExpr::BinaryOperation { left, operator, right } => if operator == BinaryOp::Star {
            Seq::empty()
        } else {
            expr_pairs_after(*left).push((operator, *right))
        },
        _ => Seq::empty(),
    }
}

/// Rebuilds an expression chain by joining `(operator, term)` steps
/// onto `acc`, left to right.
pub open spec fn fold_expr(acc: SpecExpr, ps: Seq<(BinaryOp, SpecExpr)>) -> SpecExpr
    decreases ps.len(),
{
    if ps.len() == 0 {
        acc
    } else {
        fold_expr(
            SpecExpr::BinaryOperation {
                left: Box::new(acc),
                operator: ps[0].0,
                right: Box::new(ps[0].1),
            },
            ps.skip(1),
        )
    }
}

proof fn lemma_fold_expr_push(acc: SpecExpr, ps: Seq<(BinaryOp, SpecExpr)>, p: (BinaryOp, SpecExpr))
    ensures
        fold_expr(acc, ps.push(p)) == (SpecExpr::BinaryOperation {
            left: Box::new(fold_expr(acc, ps)),
            operator: p.0,
            right: Box::new(p.1),
        }),
    decreases ps.len(),
{
    reveal_with_fuel(fold_expr, 3);
    assert(ps.push(p)[0] == if ps.len() == 0 {
        p
    } else {
        ps[0]
    });
    if ps.len() == 0 {
        assert(ps.push(p).skip(1) =~= Seq::<(BinaryOp, SpecExpr)>::empty());
    } else {
        assert(ps.push(p).skip(1) =~= ps.skip(1).push(p));
        let acc2 = SpecExpr::BinaryOperation {
            left: Box::new(acc),
            operator: ps[0].0,
            right: Box::new(ps[0].1),
        };
        lemma_fold_expr_push(acc2, ps.skip(1), p);
    }
}

/// Tokens of the `+ term` / `- term` continuations of an expression
/// chain, when they start at character position `pos`.
pub open spec fn expr_chain_tokens(ps: Seq<(BinaryOp, SpecExpr)>, pos: nat) -> Seq<SpecToken>
    decreases ps.len(),
{
    if ps.len() == 0 {
        Seq::empty()
    } else {
        seq![SpecToken::BinaryOperator { op: ps[0].0, offset: pos }] + expr_tokens(
            ps[0].1,
            (pos + 1) as nat,
        ) + expr_chain_tokens(ps.skip(1), (pos + 1 + spec_emit_expr(ps[0].1).len()) as nat)
    }
}

/// Emitted text length of those continuations.
pub open spec fn expr_chain_len(ps: Seq<(BinaryOp, SpecExpr)>) -> nat
    decreases ps.len(),
{
    if ps.len() == 0 {
        0
    } else {
        (1 + spec_emit_expr(ps[0].1).len() + expr_chain_len(ps.skip(1))) as nat
    }
}

proof fn lemma_expr_chain_push(ps: Seq<(BinaryOp, SpecExpr)>, p: (BinaryOp, SpecExpr), pos: nat)
    ensures
        expr_chain_tokens(ps.push(p), pos) == expr_chain_tokens(ps, pos) + seq![
            SpecToken::BinaryOperator { op: p.0, offset: (pos + expr_chain_len(ps)) as nat },
        ] + expr_tokens(p.1, (pos + expr_chain_len(ps) + 1) as nat),
        expr_chain_len(ps.push(p)) == expr_chain_len(ps) + 1 + spec_emit_expr(p.1).len(),
    decreases ps.len(),
{
    reveal_with_fuel(expr_chain_tokens, 3);
    reveal_with_fuel(expr_chain_len, 3);
    assert(ps.push(p)[0] == if ps.len() == 0 {
        p
    } else {
        ps[0]
    });
    if ps.len() == 0 {
        assert(ps.push(p).skip(1) =~= Seq::<(BinaryOp, SpecExpr)>::empty());
        assert(expr_chain_tokens(ps.push(p), pos) =~= expr_chain_tokens(ps, pos) + seq![
            SpecToken::BinaryOperator { op: p.0, offset: (pos + expr_chain_len(ps)) as nat },
        ] + expr_tokens(p.1, (pos + expr_chain_len(ps) + 1) as nat));
    } else {
        assert(ps.push(p).skip(1) =~= ps.skip(1).push(p));
        lemma_expr_chain_push(ps.skip(1), p, (pos + 1 + spec_emit_expr(ps[0].1).len()) as nat);
        assert(expr_chain_tokens(ps.push(p), pos) =~= expr_chain_tokens(ps, pos) + seq![
            SpecToken::BinaryOperator { op: p.0, offset: (pos + expr_chain_len(ps)) as nat },
        ] + expr_tokens(p.1, (pos + expr_chain_len(ps) + 1) as nat));
    }
}

/// An expression-shaped tree is its leftmost term with the other steps
/// folded on, and its tokens split the same way.
proof fn lemma_expr_decompose(e: SpecExpr, pos: nat)
    requires
        is_expr_shape(e),
    ensures
        is_term_shape(expr_first_term(e)),
        forall|i: int|
            0 <= i < expr_pairs_after(e).len() ==> {
                &&& (#[trigger] expr_pairs_after(e)[i].0 == BinaryOp::Plus || expr_pairs_after(
                    e,
                )[i].0 == BinaryOp::Minus)
                &&& is_term_shape(expr_pairs_after(e)[i].1)
            },
        e == fold_expr(expr_first_term(e), expr_pairs_after(e)),
        spec_emit_expr(e).len() == spec_emit_expr(expr_first_term(e)).len() + expr_chain_len(
            expr_pairs_after(e),
        ),
        expr_tokens(e, pos) == expr_tokens(expr_first_term(e), pos) + expr_chain_tokens(
            expr_pairs_after(e),
            (pos + spec_emit_expr(expr_first_term(e)).len()) as nat,
        ),
    decreases e,
{
    if is_term_shape(e) {
        match e {
            SpecExpr::BinaryOperation { left, operator, right } => {
                assert(expr_tokens(e, pos) + expr_chain_tokens(
                    Seq::<(BinaryOp, SpecExpr)>::empty(),
                    (pos + spec_emit_expr(e).len()) as nat,
                ) =~= expr_tokens(e, pos));
            },
            _ => {
                assert(expr_tokens(e, pos) + expr_chain_tokens(
                    Seq::<(BinaryOp, SpecExpr)>::empty(),
                    (pos + spec_emit_expr(e).len()) as nat,
                ) =~= expr_tokens(e, pos));
            },
        }
    } else {
        match e {
            SpecExpr::BinaryOperation { left, operator, right } => {
                lemma_expr_decompose(*left, pos);
                let t0 = expr_first_term(*left);
                let psl = expr_pairs_after(*left);
                let p = (operator, *right);
                lemma_fold_expr_push(t0, psl, p);
                lemma_expr_chain_push(psl, p, (pos + spec_emit_expr(t0).len()) as nat);
                assert(forall|i: int| 0 <= i < psl.len() ==> psl.push(p)[i] == psl[i]);
                assert(psl.push(p)[psl.len() as int] == p);
                assert(expr_tokens(e, pos) =~= expr_tokens(t0, pos) + expr_chain_tokens(
                    psl.push(p),
                    (pos + spec_emit_expr(t0).len()) as nat,
                ));
            },
            _ => {
                assert(false);
            },
        }
    }
}

/// Parsing the `+ term` / `- term` continuations folds the steps onto
/// the accumulated expression, left to right.
proof fn lemma_parse_expr_chain(
    ps: Seq<(BinaryOp, SpecExpr)>,
    acc: SpecExpr,
    pos: nat,
    rest: Seq<SpecToken>,
)
    requires
        forall|i: int|
            0 <= i < ps.len() ==> {
                &&& (#[trigger] ps[i].0 == BinaryOp::Plus || ps[i].0 == BinaryOp::Minus)
                &&& is_term_shape(ps[i].1)
            },
        rest.len() == 0 || (!is_star_tok(rest[0]) && !is_addsub_tok(rest[0])),
    ensures
        spec_expression_more(acc, expr_chain_tokens(ps, pos) + rest) == Ok::<
            (SpecExpr, Seq<SpecToken>),
            Option<SpecToken>,
        >((fold_expr(acc, ps), rest)),
    decreases ps.len(),
{
    if ps.len() == 0 {
        assert(expr_chain_tokens(ps, pos) + rest =~= rest);
    } else {
        let ts = expr_chain_tokens(ps, pos) + rest;
        let optok = SpecToken::BinaryOperator { op: ps[0].0, offset: pos };
        let pos2 = (pos + 1 + spec_emit_expr(ps[0].1).len()) as nat;
        let rest2 = expr_chain_tokens(ps.skip(1), pos2) + rest;
        assert(ts[0] == optok);
        assert(ts.skip(1) =~= expr_tokens(ps[0].1, (pos + 1) as nat) + rest2);
        if ps.skip(1).len() > 0 {
            assert(rest2[0] == SpecToken::BinaryOperator {
                op: ps.skip(1)[0].0,
                offset: pos2,
            });
        }
        lemma_parse_term(ps[0].1, (pos + 1) as nat, rest2);
        assert(spec_term(ts.skip(1)) == Ok::<
            (SpecExpr, Seq<SpecToken>),
            Option<SpecToken>,
        >((ps[0].1, rest2)));
        let acc2 = SpecExpr::BinaryOperation {
            left: Box::new(acc),
            operator: ps[0].0,
            right: Box::new(ps[0].1),
        };
        lemma_parse_expr_chain(ps.skip(1), acc2, pos2, rest);
        assert(tok_op(ts[0]) == ps[0].0);
        assert(spec_expression_more(acc, ts) == spec_expression_more(acc2, rest2));
    }
}

/// Parsing the tokens of an expression-shaped tree yields the tree
/// back.
proof fn lemma_parse_expression(e: SpecExpr, pos: nat, rest: Seq<SpecToken>)
    requires
        is_expr_shape(e),
        rest.len() == 0 || (!is_star_tok(rest[0]) && !is_addsub_tok(rest[0])),
    ensures
        spec_expression(expr_tokens(e, pos) + rest) == Ok::<
            (SpecExpr, Seq<SpecToken>),
            Option<SpecToken>,
        >((e, rest)),
{
    lemma_expr_decompose(e, pos);
    let t0 = expr_first_term(e);
    let ps = expr_pairs_after(e);
    let base = (pos + spec_emit_expr(t0).len()) as nat;
    let ts = expr_tokens(e, pos) + rest;
    let rest2 = expr_chain_tokens(ps, base) + rest;
    assert(ts =~= expr_tokens(t0, pos) + rest2);
    if ps.len() > 0 {
        assert(rest2[0] == SpecToken::BinaryOperator { op: ps[0].0, offset: base });
    }
    lemma_parse_term(t0, pos, rest2);
    lemma_term_consumes(ts);
    lemma_parse_expr_chain(ps, t0, base, rest);
    assert(spec_expression(ts) == spec_expression_more(t0, rest2));
}

// ---------------------------------------------------------------------
// The round-trip law
// ---------------------------------------------------------------------

/// Law: for a round-trip-safe expression tree, lexing its emitted text
/// yields exactly the tree's token sequence, and parsing that token
/// sequence yields the tree back with nothing left over.  Emitted
/// statement lines embed the expression text verbatim (see
/// [`crate::cbackend::spec_emit_ir`]), so the expression portion of an
/// emitted `let` or `exit` line re-reads to the statement's value tree
/// unchanged.
pub proof fn lemma_emit_parse_round_trip(e: SpecExpr)
    requires
        is_expr_shape(e),
    ensures
        spec_tokenize(spec_emit_expr(e), 0) == Ok::<Seq<SpecToken>, (char, nat)>(expr_tokens(e, 0)),
        spec_expression(expr_tokens(e, 0)) == Ok::<
            (SpecExpr, Seq<SpecToken>),
            Option<SpecToken>,
        >((e, Seq::<SpecToken>::empty())),
{
    lemma_shapes_have_plain_leaves(e);
    lemma_lex_expr(e, 0, Seq::<char>::empty());
    assert(spec_emit_expr(e) + Seq::<char>::empty() =~= spec_emit_expr(e));
    assert(spec_tokenize(Seq::<char>::empty(), spec_emit_expr(e).len()) == Ok::<
        Seq<SpecToken>,
        (char, nat),
    >(Seq::empty()));
    assert(expr_tokens(e, 0) + Seq::<SpecToken>::empty() =~= expr_tokens(e, 0));
    lemma_parse_expression(e, 0, Seq::<SpecToken>::empty());
}

} // verus!
