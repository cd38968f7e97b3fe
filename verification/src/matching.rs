//! What it means for a key to satisfy a condition.
//!
//! A condition with several clauses is decided by its first clause alone:
//! the first element of the key is compared with the right side of the
//! first clause. The other clauses fix the arity that a key must have, and
//! nothing else.

use crate::binary64::numeral_bits;
use crate::expr_ast::charset::{
    all_digits, has_alphabetic, is_numeral, lemma_run_len_bound, run_len, CharClass,
};
use crate::expr_ast::lexer::{lemma_next_token, next_token};
use crate::expr_ast::node::{BinOpView, NodeView};
use crate::expr_ast::parser::{
    after_separator, clause_list, literal_list, parse_condition_spec, parse_spec, tokens,
};
use crate::expr_ast::token::literal::LiteralView;
use crate::expr_ast::token::op::OpKind;
use crate::expr_ast::token::TokenView;
use vstd::prelude::*;

verus! {

/// The comparison `op` between two binary64 numbers, given by their bit
/// patterns.
pub open spec fn compare(op: OpKind, lhs: nat, rhs: nat) -> bool {
    match op {
        OpKind::Eq => lhs == rhs,
        OpKind::Ne => lhs != rhs,
        OpKind::Ge => lhs >= rhs,
        OpKind::Gt => lhs > rhs,
        OpKind::Le => lhs <= rhs,
        OpKind::Lt => lhs < rhs,
    }
}

/// Whether a clause holds: both sides are read as binary64 numbers and
/// compared.
pub open spec fn clause_holds(clause: BinOpView) -> bool {
    compare(clause.op, numeral_bits(clause.lhs.text()), numeral_bits(clause.rhs.text()))
}

/// The verdict of a tree: that of its first node, where that is a clause.
/// An empty tree and a tree of literals hold for no key.
pub open spec fn verdict(tree: Seq<NodeView>) -> bool {
    &&& tree.len() > 0
    &&& tree[0] matches NodeView::BinOp(clause)
    &&& clause_holds(clause)
}

/// The trees whose verdict can be computed: where the first node is a
/// clause, both of its sides are numerals.
pub open spec fn evaluable(tree: Seq<NodeView>) -> bool {
    tree.len() > 0 ==> (tree[0] matches NodeView::BinOp(clause) ==> is_numeral(clause.lhs.text())
        && is_numeral(clause.rhs.text()))
}

/// The pairs of trees that can be bound: the first has clauses only, and
/// the second has a literal for each of them.
pub open spec fn bindable(condition: Seq<NodeView>, key: Seq<NodeView>) -> bool {
    &&& condition.len() <= key.len()
    &&& forall|i: int|
        0 <= i < condition.len() ==> (#[trigger] condition[i]) is BinOp && (#[trigger] key[i])
            is Literal
}

/// Clause `i` of a condition with element `i` of a key as its left side.
pub open spec fn bound_clause(condition: Seq<NodeView>, key: Seq<NodeView>, i: int) -> NodeView {
    NodeView::BinOp(
        BinOpView {
            lhs: key[i]->Literal_0,
            op: condition[i]->BinOp_0.op,
            rhs: condition[i]->BinOp_0.rhs,
        },
    )
}

/// A condition bound to a key: each clause gets the element of the key at
/// its own position as its left side.
pub open spec fn bind(condition: Seq<NodeView>, key: Seq<NodeView>) -> Seq<NodeView> {
    Seq::new(condition.len(), |i: int| bound_clause(condition, key, i))
}

/// Whether the condition written as `statement` selects `key`.
///
/// A key with an alphabetic character is never selected. Otherwise the
/// statement must be a condition and the key a list of literals, of the
/// same length; the key is selected where the first clause holds with the
/// first literal of the key as its left side.
pub open spec fn selects(statement: Seq<char>, key: Seq<char>) -> bool {
    &&& !has_alphabetic(key)
    &&& parse_condition_spec(statement) matches Some(condition)
    &&& parse_spec(key) matches Some(literals)
    &&& condition.len() == literals.len()
    &&& verdict(bind(condition, literals))
}

/// The clause that decides whether a condition selects a key: the first
/// clause of the condition with the first element of the key as its left
/// side.
pub open spec fn deciding_clause(condition: Seq<NodeView>, key: Seq<NodeView>) -> BinOpView {
    BinOpView {
        lhs: key[0]->Literal_0,
        op: condition[0]->BinOp_0.op,
        rhs: condition[0]->BinOp_0.rhs,
    }
}

/// The first clause decides. A key without alphabetic characters that
/// parses to as many literals as the condition has clauses, and at least
/// one, is selected exactly where the first clause holds of its first
/// element. The clauses after the first are not evaluated.
pub proof fn lemma_first_clause_decides(
    statement: Seq<char>,
    key: Seq<char>,
    condition: Seq<NodeView>,
    literals: Seq<NodeView>,
)
    requires
        !has_alphabetic(key),
        parse_condition_spec(statement) == Some(condition),
        parse_spec(key) == Some(literals),
        condition.len() == literals.len(),
        condition.len() > 0,
    ensures
        selects(statement, key) <==> clause_holds(deciding_clause(condition, literals)),
{
}

/// A key with an alphabetic character is selected by no condition.
pub proof fn lemma_alphabetic_key_excluded(statement: Seq<char>, key: Seq<char>)
    requires
        has_alphabetic(key),
    ensures
        !selects(statement, key),
{
}

/// A key that does not parse is selected by no condition.
pub proof fn lemma_unparsed_key_excluded(statement: Seq<char>, key: Seq<char>)
    requires
        parse_spec(key) is None,
    ensures
        !selects(statement, key),
{
}

/// A key whose arity is not that of the condition is not selected,
/// whatever its elements are.
pub proof fn lemma_arity_mismatch_excluded(
    statement: Seq<char>,
    key: Seq<char>,
    condition: Seq<NodeView>,
    literals: Seq<NodeView>,
)
    requires
        parse_condition_spec(statement) == Some(condition),
        parse_spec(key) == Some(literals),
        condition.len() != literals.len(),
    ensures
        !selects(statement, key),
{
}

/// A statement that is no condition selects no key.
pub proof fn lemma_malformed_statement_selects_nothing(statement: Seq<char>, key: Seq<char>)
    requires
        parse_condition_spec(statement) is None,
    ensures
        !selects(statement, key),
{
}

/// A condition without clauses selects no key, and the empty statement is
/// such a condition.
pub proof fn lemma_empty_condition_selects_nothing(statement: Seq<char>, key: Seq<char>)
    requires
        parse_condition_spec(statement) == Some(Seq::<NodeView>::empty()),
    ensures
        !selects(statement, key),
        parse_condition_spec(Seq::<char>::empty()) == Some(Seq::<NodeView>::empty()),
        !selects(Seq::<char>::empty(), key),
{
    let nothing = Seq::<char>::empty();
    assert(nothing.skip(run_len(nothing, CharClass::Ignored) as int) =~= nothing);
    assert(next_token(nothing).0 is Eof);
    assert(tokens(nothing) =~= Seq::<TokenView>::empty());
}

/// The literals among the tokens of a text have the shape of a number.
pub proof fn lemma_tokens_wf(s: Seq<char>)
    ensures
        forall|i: int|
            0 <= i < tokens(s).len() ==> ((#[trigger] tokens(s)[i]) matches TokenView::Literal(
                lit,
            ) ==> lit.wf()),
    decreases s.len(),
{
    lemma_next_token(s);
    let (token, rest) = next_token(s);
    if !(token is Eof) {
        lemma_tokens_wf(rest);
        assert forall|i: int| 0 <= i < tokens(s).len() implies ((#[trigger] tokens(s)[i])
            matches TokenView::Literal(lit) ==> lit.wf()) by {
            if i > 0 {
                assert(tokens(s)[i] == tokens(rest)[i - 1]);
            }
        }
    }
}

/// The tokens with well-formed literals.
pub open spec fn tokens_wf(ts: Seq<TokenView>) -> bool {
    forall|i: int|
        0 <= i < ts.len() ==> ((#[trigger] ts[i]) matches TokenView::Literal(lit) ==> lit.wf())
}

/// A parsed key holds well-formed literals only.
pub proof fn lemma_literal_list(ts: Seq<TokenView>)
    requires
        tokens_wf(ts),
    ensures
        literal_list(ts) matches Some(nodes) ==> forall|i: int|
            0 <= i < nodes.len() ==> ((#[trigger] nodes[i]) matches NodeView::Literal(lit)
                && lit.wf()),
    decreases ts.len(),
{
    let body = after_separator(ts);
    if body.len() > 0 {
        assert(body[0] == ts[ts.len() - body.len()]);
        if let TokenView::Literal(lit) = body[0] {
            let rest = body.skip(1);
            assert forall|i: int| 0 <= i < rest.len() implies ((#[trigger] rest[i])
                matches TokenView::Literal(l) ==> l.wf()) by {
                assert(rest[i] == ts[ts.len() - rest.len() + i]);
            }
            lemma_literal_list(rest);
            if let Some(tail) = literal_list(rest) {
                let nodes = seq![NodeView::Literal(lit)] + tail;
                assert forall|i: int| 0 <= i < nodes.len() implies ((#[trigger] nodes[i])
                    matches NodeView::Literal(l) && l.wf()) by {
                    if i > 0 {
                        assert(nodes[i] == tail[i - 1]);
                    }
                }
            }
        }
    }
}

/// A parsed condition holds clauses only, each with the placeholder on its
/// left and a well-formed literal on its right.
pub proof fn lemma_clause_list(ts: Seq<TokenView>)
    requires
        tokens_wf(ts),
    ensures
        clause_list(ts) matches Some(nodes) ==> forall|i: int|
            0 <= i < nodes.len() ==> ((#[trigger] nodes[i]) matches NodeView::BinOp(clause)
                && clause.rhs.wf() && clause.lhs == LiteralView::placeholder()),
    decreases ts.len(),
{
    let body = after_separator(ts);
    if body.len() >= 2 {
        assert(body[0] == ts[ts.len() - body.len()]);
        assert(body[1] == ts[ts.len() - body.len() + 1]);
        if let (TokenView::Op(op), TokenView::Literal(rhs)) = (body[0], body[1]) {
            let rest = body.skip(2);
            assert forall|i: int| 0 <= i < rest.len() implies ((#[trigger] rest[i])
                matches TokenView::Literal(l) ==> l.wf()) by {
                assert(rest[i] == ts[ts.len() - rest.len() + i]);
            }
            lemma_clause_list(rest);
            if let Some(tail) = clause_list(rest) {
                let first = crate::expr_ast::parser::clause(op, rhs);
                let nodes = seq![first] + tail;
                assert forall|i: int| 0 <= i < nodes.len() implies ((#[trigger] nodes[i])
                    matches NodeView::BinOp(clause) && clause.rhs.wf() && clause.lhs
                    == LiteralView::placeholder()) by {
                    if i > 0 {
                        assert(nodes[i] == tail[i - 1]);
                    }
                }
            }
        }
    }
}

/// A well-formed literal is written as a numeral.
pub proof fn lemma_wf_numeral(lit: LiteralView)
    requires
        lit.wf(),
    ensures
        is_numeral(lit.text()),
{
    if let LiteralView::Integer(s) = lit {
        lemma_run_len_bound(s, CharClass::Digit);
        let d = run_len(s, CharClass::Digit) as int;
        if d < s.len() {
            assert(all_digits(s));
            assert(CharClass::Digit.holds(s[d]));
        }
    }
}

} // verus!
