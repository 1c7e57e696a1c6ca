use vstd::prelude::*;
use crate::ast::{BinOp, ExprView};
use crate::parser::{
    assignment_at, binary_at, binary_rest_at, call_at, call_rest_at, compound_op, expr_at, is_at, kind_at,
    level_op, moved, power_at, primary_at, unary_at,
};
use crate::token::{Token, TokenKind};

verus! {

/// The token that writes a binary operator.
pub open spec fn op_token(op: BinOp) -> TokenKind<Seq<char>> {
    match op {
        BinOp::Add => TokenKind::Plus,
        BinOp::Sub => TokenKind::Minus,
        BinOp::Mul => TokenKind::Star,
        BinOp::Div => TokenKind::Slash,
        BinOp::Mod => TokenKind::Percent,
        BinOp::Pow => TokenKind::StarStar,
        BinOp::Eq => TokenKind::EqEq,
        BinOp::NotEq => TokenKind::BangEq,
        BinOp::Lt => TokenKind::Lt,
        BinOp::Gt => TokenKind::Gt,
        BinOp::LtEq => TokenKind::LtEq,
        BinOp::GtEq => TokenKind::GtEq,
        BinOp::And => TokenKind::And,
        BinOp::Or => TokenKind::Or,
        BinOp::BitAnd => TokenKind::Ampersand,
        BinOp::BitOr => TokenKind::Pipe,
        BinOp::BitXor => TokenKind::Caret,
        BinOp::LeftShift => TokenKind::LtLt,
        BinOp::RightShift => TokenKind::GtGt,
    }
}

/// How tightly a left-associative binary operator binds: 0 for `* / %`, 1 for `+ -`, 2 for
/// shifts, 3 for comparisons, 4 for `== !=`, then `&`, `^`, `|`, `&&` and `||`.
pub open spec fn op_level(op: BinOp) -> nat {
    match op {
        BinOp::Mul | BinOp::Div | BinOp::Mod => 0,
        BinOp::Add | BinOp::Sub => 1,
        BinOp::LeftShift | BinOp::RightShift => 2,
        BinOp::Lt | BinOp::Gt | BinOp::LtEq | BinOp::GtEq => 3,
        BinOp::Eq | BinOp::NotEq => 4,
        BinOp::BitAnd => 5,
        BinOp::BitXor => 6,
        BinOp::BitOr => 7,
        BinOp::And => 8,
        BinOp::Or => 9,
        BinOp::Pow => 10,
    }
}

/// Each operator token reads as the operator it writes, at that operator's level, and at no
/// other level: a level reads operator `op` from a token exactly when the token is `op`'s
/// own and the level is `op`'s (`**` is read apart, as a power).
pub proof fn law_operator_tokens(lvl: nat, k: TokenKind<Seq<char>>, op: BinOp)
    ensures
        level_op(lvl, k) == Some(op) <==> (op != BinOp::Pow && k == op_token(op) && lvl == op_level(op)),
{
    match op {
        BinOp::Add => {},
        BinOp::Sub => {},
        BinOp::Mul => {},
        BinOp::Div => {},
        BinOp::Mod => {},
        BinOp::Pow => {},
        BinOp::Eq => {},
        BinOp::NotEq => {},
        BinOp::Lt => {},
        BinOp::Gt => {},
        BinOp::LtEq => {},
        BinOp::GtEq => {},
        BinOp::And => {},
        BinOp::Or => {},
        BinOp::BitAnd => {},
        BinOp::BitOr => {},
        BinOp::BitXor => {},
        BinOp::LeftShift => {},
        BinOp::RightShift => {},
    }
}

/// A token that continues no unary operand: no postfix operation and no `**`.
pub open spec fn no_postfix(k: TokenKind<Seq<char>>) -> bool {
    &&& !(k is PlusPlus) && !(k is MinusMinus) && !(k is LParen)
    &&& !(k is LBracket) && !(k is Dot) && !(k is ColonColon) && !(k is StarStar)
}

/// A token that ends an operand read at level `lvl`: no postfix operation, no `**`, and no
/// operator of a level up to `lvl`.
pub open spec fn ends_operand(k: TokenKind<Seq<char>>, lvl: nat) -> bool {
    &&& no_postfix(k)
    &&& forall|l: nat| l <= lvl ==> #[trigger] level_op(l, k) is None
}

proof fn lemma_name_power(t: Seq<Token>, q: int, x: Seq<char>)
    requires
        0 <= q,
        q + 1 < t.len(),
        kind_at(t, q) == TokenKind::Ident(x),
        no_postfix(kind_at(t, q + 1)),
    ensures
        unary_at(t, q) == Ok::<(ExprView, int), (Seq<char>, nat)>((ExprView::Ident(x), q + 1)),
        power_at(t, q) == Ok::<(ExprView, int), (Seq<char>, nat)>((ExprView::Ident(x), q + 1)),
{
    assert(primary_at(t, q) == Ok::<(ExprView, int), (Seq<char>, nat)>((ExprView::Ident(x), q + 1)));
    assert(call_rest_at(t, ExprView::Ident(x), q + 1) == Ok::<(ExprView, int), (Seq<char>, nat)>((ExprView::Ident(x), q + 1)));
    assert(call_at(t, q) == Ok::<(ExprView, int), (Seq<char>, nat)>((ExprView::Ident(x), q + 1)));
    assert(unary_at(t, q) == Ok::<(ExprView, int), (Seq<char>, nat)>((ExprView::Ident(x), q + 1)));
    assert(!is_at(t, q + 1, TokenKind::StarStar));
}

proof fn lemma_name_operand(t: Seq<Token>, q: int, x: Seq<char>, lvl: nat)
    requires
        0 <= q,
        q + 1 < t.len(),
        kind_at(t, q) == TokenKind::Ident(x),
        ends_operand(kind_at(t, q + 1), lvl),
    ensures
        binary_at(t, q, lvl) == Ok::<(ExprView, int), (Seq<char>, nat)>((ExprView::Ident(x), q + 1)),
    decreases lvl,
{
    assert(level_op(0, kind_at(t, q + 1)) is None);
    assert(level_op(lvl, kind_at(t, q + 1)) is None);
    lemma_name_power(t, q, x);
    if lvl > 0 {
        assert forall|l: nat| l <= (lvl - 1) as nat implies #[trigger] level_op(l, kind_at(t, q + 1)) is None by {
            assert(l <= lvl);
        }
        lemma_name_operand(t, q, x, (lvl - 1) as nat);
    }
    assert(binary_rest_at(t, ExprView::Ident(x), q + 1, lvl) == Ok::<(ExprView, int), (Seq<char>, nat)>((ExprView::Ident(x), q + 1)));
}

proof fn lemma_semicolon_ends(k: TokenKind<Seq<char>>)
    requires
        k is Semicolon,
    ensures
        ends_operand(k, 9),
        forall|l: nat| #[trigger] level_op(l, k) is None,
        compound_op(k) is None,
{
    assert forall|l: nat| #[trigger] level_op(l, k) is None by {
        match level_op(l, k) {
            Some(o) => { law_operator_tokens(l, k, o); },
            None => {},
        }
    }
}

proof fn lemma_levels_above(t: Seq<Token>, p: int, e: ExprView, q: int, lv: nat, lvl: nat)
    requires
        binary_at(t, p, lv) == Ok::<(ExprView, int), (Seq<char>, nat)>((e, q)),
        moved(t, p, q),
        kind_at(t, q) is Semicolon,
        lv <= lvl,
    ensures
        binary_at(t, p, lvl) == Ok::<(ExprView, int), (Seq<char>, nat)>((e, q)),
    decreases lvl - lv,
{
    if lvl > lv {
        lemma_levels_above(t, p, e, q, lv, (lvl - 1) as nat);
        lemma_semicolon_ends(kind_at(t, q));
        assert(level_op(lvl, kind_at(t, q)) is None);
        assert(binary_rest_at(t, e, q, lvl) == Ok::<(ExprView, int), (Seq<char>, nat)>((e, q)));
    }
}

/// A binary operator between two names parses as that operator applied to them: for any
/// operator but `**` (read apart, as a power), the tokens `a op b ;` make the expression
/// `a op b`, ending before the `;`.
pub proof fn law_binary_of_names(t: Seq<Token>, p: int, a: Seq<char>, op: BinOp, b: Seq<char>)
    requires
        0 <= p,
        p + 3 < t.len(),
        op != BinOp::Pow,
        kind_at(t, p) == TokenKind::Ident(a),
        kind_at(t, p + 1) == op_token(op),
        kind_at(t, p + 2) == TokenKind::Ident(b),
        kind_at(t, p + 3) is Semicolon,
    ensures
        expr_at(t, p) == Ok::<(ExprView, int), (Seq<char>, nat)>((
            ExprView::BinOp { left: Box::new(ExprView::Ident(a)), op, right: Box::new(ExprView::Ident(b)) },
            p + 3,
        )),
{
    let lv = op_level(op);
    let k = op_token(op);
    let e = ExprView::BinOp { left: Box::new(ExprView::Ident(a)), op, right: Box::new(ExprView::Ident(b)) };
    lemma_semicolon_ends(kind_at(t, p + 3));
    // The right operand: a name, ended by the `;`.
    lemma_name_power(t, p + 2, b);
    if lv > 0 {
        lemma_name_operand(t, p + 2, b, (lv - 1) as nat);
    }
    // The operator token is read at its own level and no lower one.
    law_operator_tokens(lv, k, op);
    assert forall|l: nat| l < lv implies #[trigger] level_op(l, k) is None by {
        match level_op(l, k) {
            Some(o) => {
                law_operator_tokens(l, k, o);
                assert(op_token(o) == op_token(op));
                law_operator_tokens(lv, k, o);
            },
            None => {},
        }
    }
    assert(!(k is PlusPlus) && !(k is MinusMinus) && !(k is LParen) && !(k is LBracket) && !(k is Dot)
        && !(k is ColonColon) && !(k is StarStar));
    // The left operand.
    if lv > 0 {
        assert forall|l: nat| l <= (lv - 1) as nat implies #[trigger] level_op(l, k) is None by {}
        lemma_name_operand(t, p, a, (lv - 1) as nat);
    } else {
        lemma_name_power(t, p, a);
    }
    assert(binary_rest_at(t, e, p + 3, lv) == Ok::<(ExprView, int), (Seq<char>, nat)>((e, p + 3)));
    assert(binary_rest_at(t, ExprView::Ident(a), p + 1, lv) == Ok::<(ExprView, int), (Seq<char>, nat)>((e, p + 3)));
    assert(binary_at(t, p, lv) == Ok::<(ExprView, int), (Seq<char>, nat)>((e, p + 3)));
    lemma_levels_above(t, p, e, p + 3, lv, 9);
    assert(!is_at(t, p + 3, TokenKind::Eq));
    assert(assignment_at(t, p) == Ok::<(ExprView, int), (Seq<char>, nat)>((e, p + 3)));
}

/// The compound assignment token of an operator, for those that have one.
pub open spec fn compound_token(op: BinOp) -> Option<TokenKind<Seq<char>>> {
    match op {
        BinOp::Add => Some(TokenKind::PlusEq),
        BinOp::Sub => Some(TokenKind::MinusEq),
        BinOp::Mul => Some(TokenKind::StarEq),
        BinOp::Div => Some(TokenKind::SlashEq),
        _ => None,
    }
}

/// `+=`, `-=`, `*=` and `/=` assign with their own operator, and no other token reads as a
/// compound assignment.
pub proof fn law_compound_tokens(k: TokenKind<Seq<char>>, op: BinOp)
    ensures
        compound_op(k) == Some(op) <==> compound_token(op) == Some(k),
{
    match op {
        BinOp::Add => {},
        BinOp::Sub => {},
        BinOp::Mul => {},
        BinOp::Div => {},
        _ => {},
    }
}

} // verus!
