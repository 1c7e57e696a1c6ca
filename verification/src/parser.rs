use vstd::prelude::*;
use crate::ast::{
    Arg, ArgView, BinOp, Expr, ExprView, Param, ParamView, Stmt, StmtView, UGenExpr, UGenView, UnaryOp,
    arg_view, args_view, elem_view, elems_view, expr_view, named_view, opt_expr_view, opt_stmt_view, param_view,
    params_view, stmt_view, stmts_view, strings_view, ugen_view, ugens_view,
};
use crate::error::AudionError;
use crate::token::{Token, TokenKind, kind_view, kind_tag};

verus! {

/// What a parse of the tokens from a position gives: the tree and the position after it, or
/// the error message and the line it is reported on.
pub type Parsed<A> = Result<(A, int), (Seq<char>, nat)>;

/// The `Debug` form of a string: quoted, with its special characters escaped.
pub uninterp spec fn debug_quoted(s: Seq<char>) -> Seq<char>;

/// std's `Debug` form of a string (`format!("{:?}", s)`): the text in double quotes, with
/// quotes, backslashes and non-printable characters escaped. Which characters are escaped,
/// and how, is std's rule and is not stated here.
#[verifier::external_body]
fn quoted(s: &String) -> (r: String)
    ensures
        r@ == debug_quoted(s@),
{
    format!("{:?}", s)
}

/// The kind of the token at `p`; past the end, `Eof`.
pub open spec fn kind_at(t: Seq<Token>, p: int) -> TokenKind<Seq<char>> {
    if 0 <= p < t.len() { kind_view(t[p].kind) } else { TokenKind::Eof }
}

/// The line of the token at `p`.
pub open spec fn line_at(t: Seq<Token>, p: int) -> nat {
    if 0 <= p < t.len() { t[p].span.line as nat } else { 0 }
}

/// Whether the token at `p` is of the same variant as `want`.
pub open spec fn is_at(t: Seq<Token>, p: int, want: TokenKind<Seq<char>>) -> bool {
    kind_tag(kind_at(t, p)) == kind_tag(want)
}

/// Tokens that a parser can read: they end with `Eof`.
pub open spec fn tokens_end(t: Seq<Token>) -> bool {
    t.len() > 0 && kind_view(t.last().kind) is Eof
}

/// A parse from `p` that ended at `q` has read at least one token and stopped before the end.
pub open spec fn moved(t: Seq<Token>, p: int, q: int) -> bool {
    p < q < t.len()
}

/// The result where a parse that must read a token did not (it never happens, see `moved`).
pub open spec fn stuck<A>() -> Parsed<A> {
    Err((Seq::empty(), 0))
}

/// The name of a token kind without text, as its `Debug` form writes it.
#[verifier::opaque]
pub open spec fn unit_kind_name(k: TokenKind<Seq<char>>) -> Seq<char> {
    match k {
        TokenKind::LParen => "LParen"@,
        TokenKind::RParen => "RParen"@,
        TokenKind::LBrace => "LBrace"@,
        TokenKind::RBrace => "RBrace"@,
        TokenKind::LBracket => "LBracket"@,
        TokenKind::RBracket => "RBracket"@,
        TokenKind::Semicolon => "Semicolon"@,
        TokenKind::Comma => "Comma"@,
        TokenKind::Colon => "Colon"@,
        TokenKind::ColonColon => "ColonColon"@,
        TokenKind::Dot => "Dot"@,
        TokenKind::Plus => "Plus"@,
        TokenKind::PlusEq => "PlusEq"@,
        TokenKind::PlusPlus => "PlusPlus"@,
        TokenKind::Minus => "Minus"@,
        TokenKind::MinusEq => "MinusEq"@,
        TokenKind::MinusMinus => "MinusMinus"@,
        TokenKind::Star => "Star"@,
        TokenKind::StarEq => "StarEq"@,
        TokenKind::StarStar => "StarStar"@,
        TokenKind::Slash => "Slash"@,
        TokenKind::SlashEq => "SlashEq"@,
        TokenKind::Percent => "Percent"@,
        TokenKind::Eq => "Eq"@,
        TokenKind::EqEq => "EqEq"@,
        TokenKind::FatArrow => "FatArrow"@,
        TokenKind::Bang => "Bang"@,
        TokenKind::BangEq => "BangEq"@,
        TokenKind::Lt => "Lt"@,
        TokenKind::LtEq => "LtEq"@,
        TokenKind::LtLt => "LtLt"@,
        TokenKind::Gt => "Gt"@,
        TokenKind::GtEq => "GtEq"@,
        TokenKind::GtGt => "GtGt"@,
        TokenKind::And => "And"@,
        TokenKind::Ampersand => "Ampersand"@,
        TokenKind::Or => "Or"@,
        TokenKind::Pipe => "Pipe"@,
        TokenKind::Caret => "Caret"@,
        TokenKind::Tilde => "Tilde"@,
        TokenKind::Fn => "Fn"@,
        TokenKind::Let => "Let"@,
        TokenKind::If => "If"@,
        TokenKind::Else => "Else"@,
        TokenKind::While => "While"@,
        TokenKind::Loop => "Loop"@,
        TokenKind::For => "For"@,
        TokenKind::Return => "Return"@,
        TokenKind::Thread => "Thread"@,
        TokenKind::Define => "Define"@,
        TokenKind::Break => "Break"@,
        TokenKind::Continue => "Continue"@,
        TokenKind::This => "This"@,
        TokenKind::Include => "Include"@,
        TokenKind::As => "As"@,
        TokenKind::Using => "Using"@,
        TokenKind::True => "True"@,
        TokenKind::False => "False"@,
        TokenKind::Nil => "Nil"@,
        TokenKind::Eof => "Eof"@,
        _ => Seq::empty(),
    }
}

/// The `Debug` form of a token kind; a number literal shows the text it was written with.
#[verifier::opaque]
pub open spec fn kind_debug(k: TokenKind<Seq<char>>) -> Seq<char> {
    match k {
        TokenKind::Number(s) => "Number("@ + s + ")"@,
        TokenKind::StringLit(s) => "StringLit("@ + debug_quoted(s) + ")"@,
        TokenKind::Ident(s) => "Ident("@ + debug_quoted(s) + ")"@,
        _ => unit_kind_name(k),
    }
}

/// The error at `p` with message `m`.
pub open spec fn fail<A>(t: Seq<Token>, p: int, m: Seq<char>) -> Parsed<A> {
    Err((m, line_at(t, p)))
}

/// The error for a token of the kind `want` missing at `p`.
pub open spec fn expected<A>(t: Seq<Token>, p: int, want: TokenKind<Seq<char>>) -> Parsed<A> {
    fail(t, p, "expected "@ + unit_kind_name(want) + ", got "@ + kind_debug(kind_at(t, p)))
}

/// An identifier at `p`.
pub open spec fn ident_at(t: Seq<Token>, p: int) -> Parsed<Seq<char>> {
    match kind_at(t, p) {
        TokenKind::Ident(s) => Ok((s, p + 1)),
        k => fail(t, p, "expected identifier, got "@ + kind_debug(k)),
    }
}

/// Identifiers separated by `::`, after the first ones `acc`.
pub open spec fn path_rest_at(t: Seq<Token>, acc: Seq<Seq<char>>, p: int) -> Parsed<Seq<Seq<char>>>
    decreases t.len() - p,
{
    if is_at(t, p, TokenKind::ColonColon) {
        match ident_at(t, p + 1) {
            Err(e) => Err(e),
            Ok((x, q)) => path_rest_at(t, acc.push(x), q),
        }
    } else {
        Ok((acc, p))
    }
}

/// Identifiers separated by `,`, after the first ones `acc`.
pub open spec fn ident_rest_at(t: Seq<Token>, acc: Seq<Seq<char>>, p: int) -> Parsed<Seq<Seq<char>>>
    decreases t.len() - p,
{
    if is_at(t, p, TokenKind::Comma) {
        match ident_at(t, p + 1) {
            Err(e) => Err(e),
            Ok((x, q)) => ident_rest_at(t, acc.push(x), q),
        }
    } else {
        Ok((acc, p))
    }
}

/// The parameters of a `define`: identifiers separated by `,`, none before `)`.
pub open spec fn ident_params_at(t: Seq<Token>, p: int) -> Parsed<Seq<Seq<char>>> {
    if is_at(t, p, TokenKind::RParen) {
        Ok((Seq::empty(), p))
    } else {
        match ident_at(t, p) {
            Err(e) => Err(e),
            Ok((x, q)) => ident_rest_at(t, seq![x], q),
        }
    }
}

/// The binary operator that the token `k` writes at precedence level `lvl` (0: `* / %`,
/// 1: `+ -`, 2: shifts, 3: comparisons, 4: equality, 5: `&`, 6: `^`, 7: `|`, 8: `&&`, 9: `||`).
pub open spec fn level_op(lvl: nat, k: TokenKind<Seq<char>>) -> Option<BinOp> {
    if lvl == 0 {
        match k {
            TokenKind::Star => Some(BinOp::Mul),
            TokenKind::Slash => Some(BinOp::Div),
            TokenKind::Percent => Some(BinOp::Mod),
            _ => None,
        }
    } else if lvl == 1 {
        match k {
            TokenKind::Plus => Some(BinOp::Add),
            TokenKind::Minus => Some(BinOp::Sub),
            _ => None,
        }
    } else if lvl == 2 {
        match k {
            TokenKind::LtLt => Some(BinOp::LeftShift),
            TokenKind::GtGt => Some(BinOp::RightShift),
            _ => None,
        }
    } else if lvl == 3 {
        match k {
            TokenKind::Lt => Some(BinOp::Lt),
            TokenKind::Gt => Some(BinOp::Gt),
            TokenKind::LtEq => Some(BinOp::LtEq),
            TokenKind::GtEq => Some(BinOp::GtEq),
            _ => None,
        }
    } else if lvl == 4 {
        match k {
            TokenKind::EqEq => Some(BinOp::Eq),
            TokenKind::BangEq => Some(BinOp::NotEq),
            _ => None,
        }
    } else if lvl == 5 {
        if k is Ampersand { Some(BinOp::BitAnd) } else { None }
    } else if lvl == 6 {
        if k is Caret { Some(BinOp::BitXor) } else { None }
    } else if lvl == 7 {
        if k is Pipe { Some(BinOp::BitOr) } else { None }
    } else if lvl == 8 {
        if k is And { Some(BinOp::And) } else { None }
    } else if lvl == 9 {
        if k is Or { Some(BinOp::Or) } else { None }
    } else {
        None
    }
}

/// The operator of a compound assignment token.
pub open spec fn compound_op(k: TokenKind<Seq<char>>) -> Option<BinOp> {
    match k {
        TokenKind::PlusEq => Some(BinOp::Add),
        TokenKind::MinusEq => Some(BinOp::Sub),
        TokenKind::StarEq => Some(BinOp::Mul),
        TokenKind::SlashEq => Some(BinOp::Div),
        _ => None,
    }
}

/// The literal `1` that `++` and `--` add and subtract.
pub open spec fn one() -> ExprView {
    ExprView::Number("1"@)
}

/// `x++` / `++x` (or `--`) applied to the expression `e`, an error unless it is a variable.
pub open spec fn step_at(t: Seq<Token>, e: ExprView, q: int, op: BinOp) -> Parsed<ExprView> {
    match e {
        ExprView::Ident(name) => Ok((ExprView::CompoundAssign { name, op, value: Box::new(one()) }, q)),
        _ => fail(t, q, if op == BinOp::Add { "++ requires a variable"@ } else { "-- requires a variable"@ }),
    }
}

// ---- Statements ----

/// A statement at `p`.
pub open spec fn stmt_at(t: Seq<Token>, p: int) -> Parsed<StmtView>
    decreases t.len() - p, 39nat,
{
    match kind_at(t, p) {
        TokenKind::Let => let_at(t, p),
        TokenKind::Fn => fn_decl_at(t, p),
        TokenKind::If => if_at(t, p),
        TokenKind::While => while_at(t, p),
        TokenKind::Loop => loop_at(t, p),
        TokenKind::For => for_at(t, p),
        TokenKind::Return => return_at(t, p),
        TokenKind::Break => if is_at(t, p + 1, TokenKind::Semicolon) {
            Ok((StmtView::Break, p + 2))
        } else {
            expected(t, p + 1, TokenKind::Semicolon)
        },
        TokenKind::Continue => if is_at(t, p + 1, TokenKind::Semicolon) {
            Ok((StmtView::Continue, p + 2))
        } else {
            expected(t, p + 1, TokenKind::Semicolon)
        },
        TokenKind::Thread => thread_at(t, p),
        TokenKind::Define => synthdef_at(t, p),
        TokenKind::Include => include_at(t, p),
        TokenKind::Using => using_at(t, p),
        TokenKind::LBrace => block_at(t, p),
        _ => expr_stmt_at(t, p),
    }
}

/// `let name;` or `let name = expr;`, with `let` at `p`.
pub open spec fn let_at(t: Seq<Token>, p: int) -> Parsed<StmtView>
    decreases t.len() - p, 37nat,
{
    let line = line_at(t, p);
    match ident_at(t, p + 1) {
        Err(e) => Err(e),
        Ok((name, q)) => if is_at(t, q, TokenKind::Eq) {
            match expr_at(t, q + 1) {
                Err(e) => Err(e),
                Ok((init, r)) => if is_at(t, r, TokenKind::Semicolon) {
                    Ok((StmtView::Let { name, init: Some(init), line }, r + 1))
                } else {
                    expected(t, r, TokenKind::Semicolon)
                },
            }
        } else if is_at(t, q, TokenKind::Semicolon) {
            Ok((StmtView::Let { name, init: None, line }, q + 1))
        } else {
            expected(t, q, TokenKind::Semicolon)
        },
    }
}

/// `fn name(params) { ... }`, with `fn` at `p`.
pub open spec fn fn_decl_at(t: Seq<Token>, p: int) -> Parsed<StmtView>
    decreases t.len() - p, 30nat,
{
    match ident_at(t, p + 1) {
        Err(e) => Err(e),
        Ok((name, q)) => if !is_at(t, q, TokenKind::LParen) {
            expected(t, q, TokenKind::LParen)
        } else {
            match params_at(t, q + 1) {
                Err(e) => Err(e),
                Ok((params, r)) => if !moved(t, p, r) {
                    stuck()
                } else if !is_at(t, r, TokenKind::RParen) {
                    expected(t, r, TokenKind::RParen)
                } else {
                    match block_at(t, r + 1) {
                        Err(e) => Err(e),
                        Ok((body, s)) => Ok((StmtView::FnDecl { name, params, body: Box::new(body) }, s)),
                    }
                },
            }
        },
    }
}

/// Parameters separated by `,`, none before `)`.
pub open spec fn params_at(t: Seq<Token>, p: int) -> Parsed<Seq<ParamView>>
    decreases t.len() - p, 32nat,
{
    if is_at(t, p, TokenKind::RParen) {
        Ok((Seq::empty(), p))
    } else {
        match param_at(t, p) {
            Err(e) => Err(e),
            Ok((x, q)) => if !moved(t, p, q) { stuck() } else { params_rest_at(t, seq![x], q) },
        }
    }
}

/// More parameters after `acc`, each after a `,`.
pub open spec fn params_rest_at(t: Seq<Token>, acc: Seq<ParamView>, p: int) -> Parsed<Seq<ParamView>>
    decreases t.len() - p, 32nat,
{
    if is_at(t, p, TokenKind::Comma) {
        match param_at(t, p + 1) {
            Err(e) => Err(e),
            Ok((x, q)) => if !moved(t, p, q) { stuck() } else { params_rest_at(t, acc.push(x), q) },
        }
    } else {
        Ok((acc, p))
    }
}

/// A parameter: `name` or `name = default`.
pub open spec fn param_at(t: Seq<Token>, p: int) -> Parsed<ParamView>
    decreases t.len() - p, 31nat,
{
    match ident_at(t, p) {
        Err(e) => Err(e),
        Ok((name, q)) => if is_at(t, q, TokenKind::Eq) {
            match expr_at(t, q + 1) {
                Err(e) => Err(e),
                Ok((d, r)) => Ok((ParamView { name, default: Some(d) }, r)),
            }
        } else {
            Ok((ParamView { name, default: None }, q))
        },
    }
}

/// `if (cond) then` with an optional `else` branch, with `if` at `p`.
pub open spec fn if_at(t: Seq<Token>, p: int) -> Parsed<StmtView>
    decreases t.len() - p, 30nat,
{
    if !is_at(t, p + 1, TokenKind::LParen) {
        expected(t, p + 1, TokenKind::LParen)
    } else {
        match expr_at(t, p + 2) {
            Err(e) => Err(e),
            Ok((cond, q)) => if !moved(t, p, q) {
                stuck()
            } else if !is_at(t, q, TokenKind::RParen) {
                expected(t, q, TokenKind::RParen)
            } else {
                match block_or_stmt_at(t, q + 1) {
                    Err(e) => Err(e),
                    Ok((then, r)) => if !moved(t, p, r) {
                        stuck()
                    } else if is_at(t, r, TokenKind::Else) {
                        if is_at(t, r + 1, TokenKind::If) {
                            match if_at(t, r + 1) {
                                Err(e) => Err(e),
                                Ok((e2, s)) => Ok((StmtView::If { cond, then: Box::new(then), else_: Some(Box::new(e2)) }, s)),
                            }
                        } else {
                            match block_or_stmt_at(t, r + 1) {
                                Err(e) => Err(e),
                                Ok((e2, s)) => Ok((StmtView::If { cond, then: Box::new(then), else_: Some(Box::new(e2)) }, s)),
                            }
                        }
                    } else {
                        Ok((StmtView::If { cond, then: Box::new(then), else_: None }, r))
                    },
                }
            },
        }
    }
}

/// `while (cond) body`, with `while` at `p`.
pub open spec fn while_at(t: Seq<Token>, p: int) -> Parsed<StmtView>
    decreases t.len() - p, 30nat,
{
    if !is_at(t, p + 1, TokenKind::LParen) {
        expected(t, p + 1, TokenKind::LParen)
    } else {
        match expr_at(t, p + 2) {
            Err(e) => Err(e),
            Ok((cond, q)) => if !moved(t, p, q) {
                stuck()
            } else if !is_at(t, q, TokenKind::RParen) {
                expected(t, q, TokenKind::RParen)
            } else {
                match block_or_stmt_at(t, q + 1) {
                    Err(e) => Err(e),
                    Ok((body, r)) => Ok((StmtView::While { cond, body: Box::new(body) }, r)),
                }
            },
        }
    }
}

/// `loop { ... }`, with `loop` at `p`.
pub open spec fn loop_at(t: Seq<Token>, p: int) -> Parsed<StmtView>
    decreases t.len() - p, 30nat,
{
    if p >= t.len() {
        stuck()
    } else {
        match block_at(t, p + 1) {
            Err(e) => Err(e),
            Ok((body, q)) => Ok((StmtView::Loop { body: Box::new(body) }, q)),
        }
    }
}

/// The first clause of a `for`, at `q`: nothing, a `let`, or an expression, and its `;`.
pub open spec fn for_init_at(t: Seq<Token>, q: int) -> Parsed<Option<Box<StmtView>>>
    decreases t.len() - q, 38nat,
{
    if is_at(t, q, TokenKind::Semicolon) {
        Ok((None, q + 1))
    } else if is_at(t, q, TokenKind::Let) {
        match let_at(t, q) {
            Err(e) => Err(e),
            Ok((s, r)) => Ok((Some(Box::new(s)), r)),
        }
    } else {
        match expr_at(t, q) {
            Err(e) => Err(e),
            Ok((e, r)) => if is_at(t, r, TokenKind::Semicolon) {
                Ok((Some(Box::new(StmtView::ExprStmt(e, line_at(t, q)))), r + 1))
            } else {
                expected(t, r, TokenKind::Semicolon)
            },
        }
    }
}

/// An optional expression at `q`, absent when the token there is of the kind `end`.
pub open spec fn opt_expr_at(t: Seq<Token>, q: int, end: TokenKind<Seq<char>>) -> Parsed<Option<ExprView>>
    decreases t.len() - q, 30nat,
{
    if is_at(t, q, end) {
        Ok((None, q))
    } else {
        match expr_at(t, q) {
            Err(e) => Err(e),
            Ok((e, r)) => Ok((Some(e), r)),
        }
    }
}

/// `for (init; cond; incr) body`, with `for` at `p`.
pub open spec fn for_at(t: Seq<Token>, p: int) -> Parsed<StmtView>
    decreases t.len() - p, 30nat,
{
    if !is_at(t, p + 1, TokenKind::LParen) {
        expected(t, p + 1, TokenKind::LParen)
    } else {
        match for_init_at(t, p + 2) {
            Err(e) => Err(e),
            Ok((init, r)) => if !moved(t, p, r) {
                stuck()
            } else {
                match opt_expr_at(t, r, TokenKind::Semicolon) {
                    Err(e) => Err(e),
                    Ok((cond, s)) => if !moved(t, p, s) {
                        stuck()
                    } else if !is_at(t, s, TokenKind::Semicolon) {
                        expected(t, s, TokenKind::Semicolon)
                    } else {
                        match opt_expr_at(t, s + 1, TokenKind::RParen) {
                            Err(e) => Err(e),
                            Ok((incr, u)) => if !moved(t, p, u) {
                                stuck()
                            } else if !is_at(t, u, TokenKind::RParen) {
                                expected(t, u, TokenKind::RParen)
                            } else {
                                match block_or_stmt_at(t, u + 1) {
                                    Err(e) => Err(e),
                                    Ok((body, w)) => Ok((StmtView::For { init, cond, incr, body: Box::new(body) }, w)),
                                }
                            },
                        }
                    },
                }
            },
        }
    }
}

/// `return;` or `return expr;`, with `return` at `p`.
pub open spec fn return_at(t: Seq<Token>, p: int) -> Parsed<StmtView>
    decreases t.len() - p, 30nat,
{
    if p >= t.len() {
        stuck()
    } else {
        match opt_expr_at(t, p + 1, TokenKind::Semicolon) {
            Err(e) => Err(e),
            Ok((v, q)) => if is_at(t, q, TokenKind::Semicolon) {
                Ok((StmtView::Return(v), q + 1))
            } else {
                expected(t, q, TokenKind::Semicolon)
            },
        }
    }
}

/// `thread name { ... }`, with `thread` at `p`.
pub open spec fn thread_at(t: Seq<Token>, p: int) -> Parsed<StmtView>
    decreases t.len() - p, 30nat,
{
    match ident_at(t, p + 1) {
        Err(e) => Err(e),
        Ok((name, q)) => match block_at(t, q) {
            Err(e) => Err(e),
            Ok((body, r)) => Ok((StmtView::Thread { name, body: Box::new(body) }, r)),
        },
    }
}

/// The body of a `define` from its `let` bindings and result expressions: a single result
/// without bindings stands alone.
pub open spec fn define_body(lets: Seq<(Seq<char>, UGenView)>, results: Seq<UGenView>) -> UGenView {
    if lets.len() == 0 && results.len() == 1 {
        results[0]
    } else {
        UGenView::Block { lets, results }
    }
}

/// `define name(params) { let bindings; results; }`, with `define` at `p`.
pub open spec fn synthdef_at(t: Seq<Token>, p: int) -> Parsed<StmtView> {
    match ident_at(t, p + 1) {
        Err(e) => Err(e),
        Ok((name, q)) => if !is_at(t, q, TokenKind::LParen) {
            expected(t, q, TokenKind::LParen)
        } else {
            match ident_params_at(t, q + 1) {
                Err(e) => Err(e),
                Ok((params, r)) => if !is_at(t, r, TokenKind::RParen) {
                    expected(t, r, TokenKind::RParen)
                } else if !is_at(t, r + 1, TokenKind::LBrace) {
                    expected(t, r + 1, TokenKind::LBrace)
                } else {
                    match lets_at(t, Seq::empty(), r + 2) {
                        Err(e) => Err(e),
                        Ok((lets, s)) => match results_at(t, Seq::empty(), s) {
                            Err(e) => Err(e),
                            Ok((results, u)) => if !is_at(t, u, TokenKind::RBrace) {
                                expected(t, u, TokenKind::RBrace)
                            } else {
                                Ok((StmtView::SynthDef { name, params, body: define_body(lets, results) }, u + 1))
                            },
                        },
                    }
                },
            }
        },
    }
}

/// `include "path";` or `include "path" as a::b;`, with `include` at `p`.
pub open spec fn include_at(t: Seq<Token>, p: int) -> Parsed<StmtView> {
    match kind_at(t, p + 1) {
        TokenKind::StringLit(path) => if is_at(t, p + 2, TokenKind::As) {
            match ident_at(t, p + 3) {
                Err(e) => Err(e),
                Ok((x, q)) => match path_rest_at(t, seq![x], q) {
                    Err(e) => Err(e),
                    Ok((segs, r)) => if is_at(t, r, TokenKind::Semicolon) {
                        Ok((StmtView::Include { path, alias: Some(segs) }, r + 1))
                    } else {
                        expected(t, r, TokenKind::Semicolon)
                    },
                },
            }
        } else if is_at(t, p + 2, TokenKind::Semicolon) {
            Ok((StmtView::Include { path, alias: None }, p + 3))
        } else {
            expected(t, p + 2, TokenKind::Semicolon)
        },
        _ => fail(t, p + 1, "expected string path after 'include'"@),
    }
}

/// `using a::b;`, with `using` at `p`.
pub open spec fn using_at(t: Seq<Token>, p: int) -> Parsed<StmtView> {
    match ident_at(t, p + 1) {
        Err(e) => Err(e),
        Ok((x, q)) => match path_rest_at(t, seq![x], q) {
            Err(e) => Err(e),
            Ok((segs, r)) => if is_at(t, r, TokenKind::Semicolon) {
                Ok((StmtView::Using { path: segs }, r + 1))
            } else {
                expected(t, r, TokenKind::Semicolon)
            },
        },
    }
}

/// `{ statements }` at `p`.
pub open spec fn block_at(t: Seq<Token>, p: int) -> Parsed<StmtView>
    decreases t.len() - p, 36nat,
{
    if !is_at(t, p, TokenKind::LBrace) {
        expected(t, p, TokenKind::LBrace)
    } else {
        items_at(t, Seq::empty(), p + 1)
    }
}

/// The statements of a block after `acc`, up to its `}`.
pub open spec fn items_at(t: Seq<Token>, acc: Seq<StmtView>, p: int) -> Parsed<StmtView>
    decreases t.len() - p, 41nat,
{
    if !is_at(t, p, TokenKind::RBrace) && !(kind_at(t, p) is Eof) {
        match stmt_at(t, p) {
            Err(e) => Err(e),
            Ok((s, q)) => if !moved(t, p, q) { stuck() } else { items_at(t, acc.push(s), q) },
        }
    } else if is_at(t, p, TokenKind::RBrace) {
        Ok((StmtView::Block(acc), p + 1))
    } else {
        expected(t, p, TokenKind::RBrace)
    }
}

/// A block at `p` if one starts there, else a single statement.
pub open spec fn block_or_stmt_at(t: Seq<Token>, p: int) -> Parsed<StmtView>
    decreases t.len() - p, 40nat,
{
    if is_at(t, p, TokenKind::LBrace) { block_at(t, p) } else { stmt_at(t, p) }
}

/// `expr;` at `p`, with the line it starts on.
pub open spec fn expr_stmt_at(t: Seq<Token>, p: int) -> Parsed<StmtView>
    decreases t.len() - p, 38nat,
{
    match expr_at(t, p) {
        Err(e) => Err(e),
        Ok((e, q)) => if is_at(t, q, TokenKind::Semicolon) {
            Ok((StmtView::ExprStmt(e, line_at(t, p)), q + 1))
        } else {
            expected(t, q, TokenKind::Semicolon)
        },
    }
}

// ---- Expressions ----

/// An expression at `p`.
pub open spec fn expr_at(t: Seq<Token>, p: int) -> Parsed<ExprView>
    decreases t.len() - p, 29nat,
{
    assignment_at(t, p)
}

/// An assignment (`=` or a compound `op=`) or an expression of the lowest precedence level.
pub open spec fn assignment_at(t: Seq<Token>, p: int) -> Parsed<ExprView>
    decreases t.len() - p, 28nat,
{
    match binary_at(t, p, 9) {
        Err(e) => Err(e),
        Ok((e, q)) => if !moved(t, p, q) {
            stuck()
        } else if is_at(t, q, TokenKind::Eq) {
            assign_to_at(t, e, q + 1, None)
        } else {
            match compound_op(kind_at(t, q)) {
                Some(op) => assign_to_at(t, e, q + 1, Some(op)),
                None => Ok((e, q)),
            }
        },
    }
}

/// The value assigned to `target` from `p` on (compound with `op` if there is one): the
/// target must be a variable, an index or a member.
pub open spec fn assign_to_at(t: Seq<Token>, target: ExprView, p: int, op: Option<BinOp>) -> Parsed<ExprView>
    decreases t.len() - p, 30nat,
{
    match target {
        ExprView::Ident(name) => match assignment_at(t, p) {
            Err(e) => Err(e),
            Ok((v, q)) => Ok((match op {
                None => ExprView::Assign { name, value: Box::new(v) },
                Some(o) => ExprView::CompoundAssign { name, op: o, value: Box::new(v) },
            }, q)),
        },
        ExprView::Index { object, index } => match assignment_at(t, p) {
            Err(e) => Err(e),
            Ok((v, q)) => Ok((match op {
                None => ExprView::IndexAssign { object, index, value: Box::new(v) },
                Some(o) => ExprView::CompoundIndexAssign { object, index, op: o, value: Box::new(v) },
            }, q)),
        },
        ExprView::MemberAccess { object, field } => match assignment_at(t, p) {
            Err(e) => Err(e),
            Ok((v, q)) => Ok((match op {
                None => ExprView::MemberAssign { object, field, value: Box::new(v) },
                Some(o) => ExprView::CompoundMemberAssign { object, field, op: o, value: Box::new(v) },
            }, q)),
        },
        _ => fail(t, p, if op is None { "invalid assignment target"@ } else { "invalid compound assignment target"@ }),
    }
}

/// An expression of precedence level `lvl` (see `level_op`): operands of the level below
/// joined from the left by the operators of this level.
pub open spec fn binary_at(t: Seq<Token>, p: int, lvl: nat) -> Parsed<ExprView>
    decreases t.len() - p, 18 + lvl,
{
    let left = if lvl == 0 { power_at(t, p) } else { binary_at(t, p, (lvl - 1) as nat) };
    match left {
        Err(e) => Err(e),
        Ok((l, q)) => if !moved(t, p, q) { stuck() } else { binary_rest_at(t, l, q, lvl) },
    }
}

/// The operators of level `lvl` and their right operands after `left`. A right operand of a
/// `*`, `/` or `%` is a unary expression.
pub open spec fn binary_rest_at(t: Seq<Token>, left: ExprView, p: int, lvl: nat) -> Parsed<ExprView>
    decreases t.len() - p, 18 + lvl,
{
    match level_op(lvl, kind_at(t, p)) {
        None => Ok((left, p)),
        Some(op) => {
            let right = if lvl == 0 { unary_at(t, p + 1) } else { binary_at(t, p + 1, (lvl - 1) as nat) };
            match right {
                Err(e) => Err(e),
                Ok((r, q)) => if !moved(t, p, q) {
                    stuck()
                } else {
                    binary_rest_at(t, ExprView::BinOp { left: Box::new(left), op, right: Box::new(r) }, q, lvl)
                },
            }
        },
    }
}

/// `base ** exponent`, right-associative, or a unary expression.
pub open spec fn power_at(t: Seq<Token>, p: int) -> Parsed<ExprView>
    decreases t.len() - p, 17nat,
{
    match unary_at(t, p) {
        Err(e) => Err(e),
        Ok((b, q)) => if !moved(t, p, q) {
            stuck()
        } else if is_at(t, q, TokenKind::StarStar) {
            match power_at(t, q + 1) {
                Err(e) => Err(e),
                Ok((x, r)) => Ok((ExprView::BinOp { left: Box::new(b), op: BinOp::Pow, right: Box::new(x) }, r)),
            }
        } else {
            Ok((b, q))
        },
    }
}

/// A prefix `-`, `!`, `~`, `++` or `--`, or a call expression.
pub open spec fn unary_at(t: Seq<Token>, p: int) -> Parsed<ExprView>
    decreases t.len() - p, 16nat,
{
    match kind_at(t, p) {
        TokenKind::Minus => match unary_at(t, p + 1) {
            Err(e) => Err(e),
            Ok((e, q)) => Ok((ExprView::UnaryOp { op: UnaryOp::Neg, expr: Box::new(e) }, q)),
        },
        TokenKind::Bang => match unary_at(t, p + 1) {
            Err(e) => Err(e),
            Ok((e, q)) => Ok((ExprView::UnaryOp { op: UnaryOp::Not, expr: Box::new(e) }, q)),
        },
        TokenKind::Tilde => match unary_at(t, p + 1) {
            Err(e) => Err(e),
            Ok((e, q)) => Ok((ExprView::UnaryOp { op: UnaryOp::BitNot, expr: Box::new(e) }, q)),
        },
        TokenKind::PlusPlus => match call_at(t, p + 1) {
            Err(e) => Err(e),
            Ok((e, q)) => step_at(t, e, q, BinOp::Add),
        },
        TokenKind::MinusMinus => match call_at(t, p + 1) {
            Err(e) => Err(e),
            Ok((e, q)) => step_at(t, e, q, BinOp::Sub),
        },
        _ => call_at(t, p),
    }
}

/// A primary expression followed by postfix `++`, `--`, calls, indexing, `.field` and `::name`.
pub open spec fn call_at(t: Seq<Token>, p: int) -> Parsed<ExprView>
    decreases t.len() - p, 15nat,
{
    match primary_at(t, p) {
        Err(e) => Err(e),
        Ok((e, q)) => if !moved(t, p, q) { stuck() } else { call_rest_at(t, e, q) },
    }
}

/// The postfix operations applied to `e` from `p` on.
pub open spec fn call_rest_at(t: Seq<Token>, e: ExprView, p: int) -> Parsed<ExprView>
    decreases t.len() - p, 15nat,
{
    match kind_at(t, p) {
        TokenKind::PlusPlus => match step_at(t, e, p + 1, BinOp::Add) {
            Err(x) => Err(x),
            Ok((e2, q)) => call_rest_at(t, e2, p + 1),
        },
        TokenKind::MinusMinus => match step_at(t, e, p + 1, BinOp::Sub) {
            Err(x) => Err(x),
            Ok((e2, q)) => call_rest_at(t, e2, p + 1),
        },
        TokenKind::LParen => match args_at(t, p + 1) {
            Err(x) => Err(x),
            Ok((args, q)) => if !moved(t, p, q) {
                stuck()
            } else if !is_at(t, q, TokenKind::RParen) {
                expected(t, q, TokenKind::RParen)
            } else {
                call_rest_at(t, ExprView::Call { callee: Box::new(e), args }, q + 1)
            },
        },
        TokenKind::LBracket => match expr_at(t, p + 1) {
            Err(x) => Err(x),
            Ok((i, q)) => if !moved(t, p, q) {
                stuck()
            } else if !is_at(t, q, TokenKind::RBracket) {
                expected(t, q, TokenKind::RBracket)
            } else {
                call_rest_at(t, ExprView::Index { object: Box::new(e), index: Box::new(i) }, q + 1)
            },
        },
        TokenKind::Dot => match ident_at(t, p + 1) {
            Err(x) => Err(x),
            Ok((field, q)) => call_rest_at(t, ExprView::MemberAccess { object: Box::new(e), field }, q),
        },
        TokenKind::ColonColon => match ident_at(t, p + 1) {
            Err(x) => Err(x),
            Ok((name, q)) => call_rest_at(t, ExprView::NamespaceAccess { namespace: Box::new(e), name }, q),
        },
        _ => Ok((e, p)),
    }
}

/// The arguments of a call, separated by `,`, none before `)`.
pub open spec fn args_at(t: Seq<Token>, p: int) -> Parsed<Seq<ArgView>>
    decreases t.len() - p, 32nat,
{
    if is_at(t, p, TokenKind::RParen) {
        Ok((Seq::empty(), p))
    } else {
        match arg_at(t, p) {
            Err(e) => Err(e),
            Ok((a, q)) => if !moved(t, p, q) { stuck() } else { args_rest_at(t, seq![a], q) },
        }
    }
}

/// More arguments after `acc`, each after a `,`.
pub open spec fn args_rest_at(t: Seq<Token>, acc: Seq<ArgView>, p: int) -> Parsed<Seq<ArgView>>
    decreases t.len() - p, 32nat,
{
    if is_at(t, p, TokenKind::Comma) {
        match arg_at(t, p + 1) {
            Err(e) => Err(e),
            Ok((a, q)) => if !moved(t, p, q) { stuck() } else { args_rest_at(t, acc.push(a), q) },
        }
    } else {
        Ok((acc, p))
    }
}

/// An argument: `name: value` or a value.
pub open spec fn arg_at(t: Seq<Token>, p: int) -> Parsed<ArgView>
    decreases t.len() - p, 31nat,
{
    match kind_at(t, p) {
        TokenKind::Ident(name) => if kind_at(t, p + 1) is Colon {
            match expr_at(t, p + 2) {
                Err(e) => Err(e),
                Ok((v, q)) => Ok((ArgView::Named { name, value: v }, q)),
            }
        } else {
            match expr_at(t, p) {
                Err(e) => Err(e),
                Ok((v, q)) => Ok((ArgView::Positional(v), q)),
            }
        },
        _ => match expr_at(t, p) {
            Err(e) => Err(e),
            Ok((v, q)) => Ok((ArgView::Positional(v), q)),
        },
    }
}

/// A literal, a name, `this`, a parenthesized expression, a function expression or an array
/// literal.
pub open spec fn primary_at(t: Seq<Token>, p: int) -> Parsed<ExprView>
    decreases t.len() - p, 14nat,
{
    match kind_at(t, p) {
        TokenKind::Number(n) => Ok((ExprView::Number(n), p + 1)),
        TokenKind::StringLit(s) => Ok((ExprView::StringLit(s), p + 1)),
        TokenKind::True => Ok((ExprView::Bool(true), p + 1)),
        TokenKind::False => Ok((ExprView::Bool(false), p + 1)),
        TokenKind::Nil => Ok((ExprView::Nil, p + 1)),
        TokenKind::This => Ok((ExprView::This, p + 1)),
        TokenKind::Ident(name) => Ok((ExprView::Ident(name), p + 1)),
        TokenKind::LParen => match expr_at(t, p + 1) {
            Err(e) => Err(e),
            Ok((e, q)) => if is_at(t, q, TokenKind::RParen) { Ok((e, q + 1)) } else { expected(t, q, TokenKind::RParen) },
        },
        TokenKind::Fn => if !is_at(t, p + 1, TokenKind::LParen) {
            expected(t, p + 1, TokenKind::LParen)
        } else {
            match params_at(t, p + 2) {
                Err(e) => Err(e),
                Ok((params, q)) => if !moved(t, p, q) {
                    stuck()
                } else if !is_at(t, q, TokenKind::RParen) {
                    expected(t, q, TokenKind::RParen)
                } else {
                    match block_at(t, q + 1) {
                        Err(e) => Err(e),
                        Ok((body, r)) => Ok((ExprView::FnExpr { params, body: Box::new(body) }, r)),
                    }
                },
            }
        },
        TokenKind::LBracket => if is_at(t, p + 1, TokenKind::RBracket) {
            Ok((ExprView::ArrayLit { elements: Seq::empty() }, p + 2))
        } else {
            match element_at(t, p + 1) {
                Err(e) => Err(e),
                Ok((x, q)) => if !moved(t, p, q) { stuck() } else { elements_rest_at(t, seq![x], q) },
            }
        },
        k => fail(t, p, "unexpected token "@ + kind_debug(k)),
    }
}

/// An element of an array literal: `key => value` or a value.
pub open spec fn element_at(t: Seq<Token>, p: int) -> Parsed<(Option<ExprView>, ExprView)>
    decreases t.len() - p, 30nat,
{
    match expr_at(t, p) {
        Err(e) => Err(e),
        Ok((e, q)) => if !moved(t, p, q) {
            stuck()
        } else if is_at(t, q, TokenKind::FatArrow) {
            match expr_at(t, q + 1) {
                Err(x) => Err(x),
                Ok((v, r)) => Ok(((Some(e), v), r)),
            }
        } else {
            Ok(((None, e), q))
        },
    }
}

/// More elements of an array literal after `acc`, up to its `]`; a `,` may end the list.
pub open spec fn elements_rest_at(t: Seq<Token>, acc: Seq<(Option<ExprView>, ExprView)>, p: int) -> Parsed<ExprView>
    decreases t.len() - p, 30nat,
{
    if is_at(t, p, TokenKind::Comma) {
        if is_at(t, p + 1, TokenKind::RBracket) {
            Ok((ExprView::ArrayLit { elements: acc }, p + 2))
        } else {
            match element_at(t, p + 1) {
                Err(e) => Err(e),
                Ok((x, q)) => if !moved(t, p, q) { stuck() } else { elements_rest_at(t, acc.push(x), q) },
            }
        }
    } else if is_at(t, p, TokenKind::RBracket) {
        Ok((ExprView::ArrayLit { elements: acc }, p + 1))
    } else {
        expected(t, p, TokenKind::RBracket)
    }
}

// ---- Define bodies ----

/// A sum or difference of products in a `define` body.
pub open spec fn ugen_expr_at(t: Seq<Token>, p: int) -> Parsed<UGenView>
    decreases t.len() - p, 8nat,
{
    match ugen_mul_at(t, p) {
        Err(e) => Err(e),
        Ok((l, q)) => if !moved(t, p, q) { stuck() } else { ugen_add_rest_at(t, l, q) },
    }
}

/// The `+` and `-` operations after `left`.
pub open spec fn ugen_add_rest_at(t: Seq<Token>, left: UGenView, p: int) -> Parsed<UGenView>
    decreases t.len() - p, 8nat,
{
    let op = match kind_at(t, p) {
        TokenKind::Plus => Some(BinOp::Add),
        TokenKind::Minus => Some(BinOp::Sub),
        _ => None,
    };
    match op {
        None => Ok((left, p)),
        Some(op) => match ugen_mul_at(t, p + 1) {
            Err(e) => Err(e),
            Ok((r, q)) => if !moved(t, p, q) {
                stuck()
            } else {
                ugen_add_rest_at(t, UGenView::BinOp { left: Box::new(left), op, right: Box::new(r) }, q)
            },
        },
    }
}

/// A product or quotient of indexed primaries in a `define` body.
pub open spec fn ugen_mul_at(t: Seq<Token>, p: int) -> Parsed<UGenView>
    decreases t.len() - p, 7nat,
{
    match ugen_postfix_at(t, p) {
        Err(e) => Err(e),
        Ok((l, q)) => if !moved(t, p, q) { stuck() } else { ugen_mul_rest_at(t, l, q) },
    }
}

/// The `*` and `/` operations after `left`.
pub open spec fn ugen_mul_rest_at(t: Seq<Token>, left: UGenView, p: int) -> Parsed<UGenView>
    decreases t.len() - p, 7nat,
{
    let op = match kind_at(t, p) {
        TokenKind::Star => Some(BinOp::Mul),
        TokenKind::Slash => Some(BinOp::Div),
        _ => None,
    };
    match op {
        None => Ok((left, p)),
        Some(op) => match ugen_postfix_at(t, p + 1) {
            Err(e) => Err(e),
            Ok((r, q)) => if !moved(t, p, q) {
                stuck()
            } else {
                ugen_mul_rest_at(t, UGenView::BinOp { left: Box::new(left), op, right: Box::new(r) }, q)
            },
        },
    }
}

/// A primary of a `define` body followed by indexes `[i]`.
pub open spec fn ugen_postfix_at(t: Seq<Token>, p: int) -> Parsed<UGenView>
    decreases t.len() - p, 6nat,
{
    match ugen_primary_at(t, p) {
        Err(e) => Err(e),
        Ok((e, q)) => if !moved(t, p, q) { stuck() } else { ugen_index_rest_at(t, e, q) },
    }
}

/// The indexes `[i]` applied to `e` from `p` on.
pub open spec fn ugen_index_rest_at(t: Seq<Token>, e: UGenView, p: int) -> Parsed<UGenView>
    decreases t.len() - p, 6nat,
{
    if is_at(t, p, TokenKind::LBracket) {
        match ugen_expr_at(t, p + 1) {
            Err(x) => Err(x),
            Ok((i, q)) => if !moved(t, p, q) {
                stuck()
            } else if !is_at(t, q, TokenKind::RBracket) {
                expected(t, q, TokenKind::RBracket)
            } else {
                ugen_index_rest_at(t, UGenView::Index { object: Box::new(e), index: Box::new(i) }, q + 1)
            },
        }
    } else {
        Ok((e, p))
    }
}

/// A number, a string, a parenthesized expression, a UGen call or a parameter.
pub open spec fn ugen_primary_at(t: Seq<Token>, p: int) -> Parsed<UGenView>
    decreases t.len() - p, 5nat,
{
    match kind_at(t, p) {
        TokenKind::Number(n) => Ok((UGenView::Number(n), p + 1)),
        TokenKind::StringLit(s) => Ok((UGenView::StringLit(s), p + 1)),
        TokenKind::LParen => match ugen_expr_at(t, p + 1) {
            Err(e) => Err(e),
            Ok((e, q)) => if is_at(t, q, TokenKind::RParen) { Ok((e, q + 1)) } else { expected(t, q, TokenKind::RParen) },
        },
        TokenKind::Ident(name) => if !is_at(t, p + 1, TokenKind::LParen) {
            Ok((UGenView::Param(name), p + 1))
        } else if is_at(t, p + 2, TokenKind::RParen) {
            Ok((UGenView::UGenCall { name, args: Seq::empty(), named_args: Seq::empty() }, p + 3))
        } else {
            match ugen_arg_at(t, Seq::empty(), Seq::empty(), p + 2) {
                Err(e) => Err(e),
                Ok(((args, named), q)) => if !moved(t, p, q) {
                    stuck()
                } else {
                    match ugen_args_rest_at(t, args, named, q) {
                        Err(e) => Err(e),
                        Ok(((args, named), r)) => if !moved(t, p, r) {
                            stuck()
                        } else if !is_at(t, r, TokenKind::RParen) {
                            expected(t, r, TokenKind::RParen)
                        } else {
                            Ok((UGenView::UGenCall { name, args, named_args: named }, r + 1))
                        },
                    }
                },
            }
        },
        k => fail(t, p, "unexpected token "@ + kind_debug(k) + " in define body"@),
    }
}

/// The name of a named UGen argument at `p`: an identifier, or the keyword `loop`.
pub open spec fn arg_name_at(t: Seq<Token>, p: int) -> Option<Seq<char>> {
    match kind_at(t, p) {
        TokenKind::Ident(s) => Some(s),
        TokenKind::Loop => Some("loop"@),
        _ => None,
    }
}

/// A UGen argument at `p`, `name: value` or a value, added to the positional ones `args`
/// or the named ones `named`.
pub open spec fn ugen_arg_at(t: Seq<Token>, args: Seq<UGenView>, named: Seq<(Seq<char>, UGenView)>, p: int)
    -> Parsed<(Seq<UGenView>, Seq<(Seq<char>, UGenView)>)>
    decreases t.len() - p, 9nat,
{
    if arg_name_at(t, p) is Some && kind_at(t, p + 1) is Colon {
        match ugen_expr_at(t, p + 2) {
            Err(e) => Err(e),
            Ok((v, q)) => Ok(((args, named.push((arg_name_at(t, p)->0, v))), q)),
        }
    } else {
        match ugen_expr_at(t, p) {
            Err(e) => Err(e),
            Ok((v, q)) => Ok(((args.push(v), named), q)),
        }
    }
}

/// More UGen arguments, each after a `,`.
pub open spec fn ugen_args_rest_at(t: Seq<Token>, args: Seq<UGenView>, named: Seq<(Seq<char>, UGenView)>, p: int)
    -> Parsed<(Seq<UGenView>, Seq<(Seq<char>, UGenView)>)>
    decreases t.len() - p, 9nat,
{
    if is_at(t, p, TokenKind::Comma) {
        match ugen_arg_at(t, args, named, p + 1) {
            Err(e) => Err(e),
            Ok(((a2, n2), q)) => if !moved(t, p, q) { stuck() } else { ugen_args_rest_at(t, a2, n2, q) },
        }
    } else {
        Ok(((args, named), p))
    }
}

/// The `let name = value;` bindings that open a `define` body, after `acc`.
pub open spec fn lets_at(t: Seq<Token>, acc: Seq<(Seq<char>, UGenView)>, p: int) -> Parsed<Seq<(Seq<char>, UGenView)>>
    decreases t.len() - p,
{
    if is_at(t, p, TokenKind::Let) {
        match ident_at(t, p + 1) {
            Err(e) => Err(e),
            Ok((name, q)) => if !is_at(t, q, TokenKind::Eq) {
                expected(t, q, TokenKind::Eq)
            } else {
                match ugen_expr_at(t, q + 1) {
                    Err(e) => Err(e),
                    Ok((v, r)) => if !moved(t, p, r) {
                        stuck()
                    } else if !is_at(t, r, TokenKind::Semicolon) {
                        expected(t, r, TokenKind::Semicolon)
                    } else {
                        lets_at(t, acc.push((name, v)), r + 1)
                    },
                }
            },
        }
    } else {
        Ok((acc, p))
    }
}

/// The result expressions of a `define` body, each ended by `;`, after `acc`, up to `}`.
pub open spec fn results_at(t: Seq<Token>, acc: Seq<UGenView>, p: int) -> Parsed<Seq<UGenView>>
    decreases t.len() - p,
{
    if is_at(t, p, TokenKind::RBrace) {
        Ok((acc, p))
    } else {
        match ugen_expr_at(t, p) {
            Err(e) => Err(e),
            Ok((e, q)) => if !moved(t, p, q) {
                stuck()
            } else if !is_at(t, q, TokenKind::Semicolon) {
                expected(t, q, TokenKind::Semicolon)
            } else {
                results_at(t, acc.push(e), q + 1)
            },
        }
    }
}

// ---- Programs ----

/// The statements of a program after `acc`, from `p` to the end.
pub open spec fn program_at(t: Seq<Token>, acc: Seq<StmtView>, p: int) -> Result<Seq<StmtView>, (Seq<char>, nat)>
    decreases t.len() - p,
{
    if kind_at(t, p) is Eof {
        Ok(acc)
    } else {
        match stmt_at(t, p) {
            Err(e) => Err(e),
            Ok((s, q)) => if !moved(t, p, q) { Err((Seq::empty(), 0)) } else { program_at(t, acc.push(s), q) },
        }
    }
}

/// What parsing the tokens `t` gives: the statements of the program, or the first error.
pub open spec fn parse_program(t: Seq<Token>) -> Result<Seq<StmtView>, (Seq<char>, nat)> {
    program_at(t, Seq::empty(), 0)
}

// ---- Executable parser ----

/// An error as the pair the grammar gives: message and line.
pub open spec fn err_view(e: AudionError) -> (Seq<char>, nat) {
    match e {
        AudionError::ParseError { msg, line } => (msg@, line as nat),
        AudionError::LexError { msg, line } => (msg@, line as nat),
        AudionError::RuntimeError { msg } => (msg@, 0),
    }
}

pub open spec fn expr_res(r: Result<(Expr, usize), AudionError>) -> Parsed<ExprView> {
    match r { Ok((e, q)) => Ok((expr_view(e), q as int)), Err(x) => Err(err_view(x)) }
}

pub open spec fn stmt_res(r: Result<(Stmt, usize), AudionError>) -> Parsed<StmtView> {
    match r { Ok((e, q)) => Ok((stmt_view(e), q as int)), Err(x) => Err(err_view(x)) }
}

pub open spec fn opt_stmt_res(r: Result<(Option<Box<Stmt>>, usize), AudionError>) -> Parsed<Option<Box<StmtView>>> {
    match r { Ok((e, q)) => Ok((opt_stmt_view(e), q as int)), Err(x) => Err(err_view(x)) }
}

pub open spec fn opt_expr_res(r: Result<(Option<Expr>, usize), AudionError>) -> Parsed<Option<ExprView>> {
    match r { Ok((e, q)) => Ok((opt_expr_view(e), q as int)), Err(x) => Err(err_view(x)) }
}

pub open spec fn arg_res(r: Result<(Arg, usize), AudionError>) -> Parsed<ArgView> {
    match r { Ok((e, q)) => Ok((arg_view(e), q as int)), Err(x) => Err(err_view(x)) }
}

pub open spec fn args_res(r: Result<(Vec<Arg>, usize), AudionError>) -> Parsed<Seq<ArgView>> {
    match r { Ok((e, q)) => Ok((args_view(e@), q as int)), Err(x) => Err(err_view(x)) }
}

pub open spec fn param_res(r: Result<(Param, usize), AudionError>) -> Parsed<ParamView> {
    match r { Ok((e, q)) => Ok((param_view(e), q as int)), Err(x) => Err(err_view(x)) }
}

pub open spec fn params_res(r: Result<(Vec<Param>, usize), AudionError>) -> Parsed<Seq<ParamView>> {
    match r { Ok((e, q)) => Ok((params_view(e@), q as int)), Err(x) => Err(err_view(x)) }
}

pub open spec fn elem_res(r: Result<((Option<Expr>, Expr), usize), AudionError>) -> Parsed<(Option<ExprView>, ExprView)> {
    match r { Ok((e, q)) => Ok((elem_view(e), q as int)), Err(x) => Err(err_view(x)) }
}

pub open spec fn ident_res(r: Result<(String, usize), AudionError>) -> Parsed<Seq<char>> {
    match r { Ok((e, q)) => Ok((e@, q as int)), Err(x) => Err(err_view(x)) }
}

pub open spec fn idents_res(r: Result<(Vec<String>, usize), AudionError>) -> Parsed<Seq<Seq<char>>> {
    match r { Ok((e, q)) => Ok((strings_view(e@), q as int)), Err(x) => Err(err_view(x)) }
}

pub open spec fn ugen_res(r: Result<(UGenExpr, usize), AudionError>) -> Parsed<UGenView> {
    match r { Ok((e, q)) => Ok((ugen_view(e), q as int)), Err(x) => Err(err_view(x)) }
}

pub open spec fn ugens_res(r: Result<(Vec<UGenExpr>, usize), AudionError>) -> Parsed<Seq<UGenView>> {
    match r { Ok((e, q)) => Ok((ugens_view(e@), q as int)), Err(x) => Err(err_view(x)) }
}

pub open spec fn lets_res(r: Result<(Vec<(String, UGenExpr)>, usize), AudionError>) -> Parsed<Seq<(Seq<char>, UGenView)>> {
    match r { Ok((e, q)) => Ok((named_view(e@), q as int)), Err(x) => Err(err_view(x)) }
}

pub open spec fn ugen_args_res(r: Result<((Vec<UGenExpr>, Vec<(String, UGenExpr)>), usize), AudionError>)
    -> Parsed<(Seq<UGenView>, Seq<(Seq<char>, UGenView)>)>
{
    match r { Ok((e, q)) => Ok(((ugens_view(e.0@), named_view(e.1@)), q as int)), Err(x) => Err(err_view(x)) }
}

/// The position that a successful parse from `p` stops at: from `p` on, before the end.
pub open spec fn stops<A>(r: Result<(A, usize), AudionError>, t: Seq<Token>, p: int) -> bool {
    r matches Ok((_, q)) ==> p <= q < t.len()
}

/// A successful parse from `p` reads at least one token.
pub open spec fn reads<A>(r: Result<(A, usize), AudionError>, t: Seq<Token>, p: int) -> bool {
    r matches Ok((_, q)) ==> p < q < t.len()
}

proof fn lemma_args_push(s: Seq<Arg>, x: Arg)
    ensures args_view(s.push(x)) == args_view(s).push(arg_view(x)),
{
    assert(s.push(x).drop_last() =~= s);
}

proof fn lemma_params_push(s: Seq<Param>, x: Param)
    ensures params_view(s.push(x)) == params_view(s).push(param_view(x)),
{
    assert(s.push(x).drop_last() =~= s);
}

proof fn lemma_elems_push(s: Seq<(Option<Expr>, Expr)>, x: (Option<Expr>, Expr))
    ensures elems_view(s.push(x)) == elems_view(s).push(elem_view(x)),
{
    assert(s.push(x).drop_last() =~= s);
}

proof fn lemma_stmts_push(s: Seq<Stmt>, x: Stmt)
    ensures stmts_view(s.push(x)) == stmts_view(s).push(stmt_view(x)),
{
    assert(s.push(x).drop_last() =~= s);
}

proof fn lemma_ugens_push(s: Seq<UGenExpr>, x: UGenExpr)
    ensures ugens_view(s.push(x)) == ugens_view(s).push(ugen_view(x)),
{
    assert(s.push(x).drop_last() =~= s);
}

proof fn lemma_named_push(s: Seq<(String, UGenExpr)>, x: (String, UGenExpr))
    ensures named_view(s.push(x)) == named_view(s).push((x.0@, ugen_view(x.1))),
{
    assert(s.push(x).drop_last() =~= s);
}

proof fn lemma_strings_push(s: Seq<String>, x: String)
    ensures strings_view(s.push(x)) == strings_view(s).push(x@),
{
    assert(strings_view(s.push(x)) =~= strings_view(s).push(x@));
}

proof fn lemma_named_len(s: Seq<(String, UGenExpr)>)
    ensures named_view(s).len() == s.len(),
    decreases s.len(),
{
    if s.len() > 0 {
        lemma_named_len(s.drop_last());
    }
}

proof fn lemma_ugens_len(s: Seq<UGenExpr>)
    ensures ugens_view(s).len() == s.len(),
    decreases s.len(),
{
    if s.len() > 0 {
        lemma_ugens_len(s.drop_last());
    }
}

/// A token that is not `Eof` has a token after it.
proof fn lemma_next(t: Seq<Token>, p: int)
    requires
        tokens_end(t),
        0 <= p < t.len(),
        !(kind_at(t, p) is Eof),
    ensures
        p + 1 < t.len(),
{
}

/// Whether the token at `p` is of the same variant as `want`.
fn at(t: &Vec<Token>, p: usize, want: &TokenKind<String>) -> (b: bool)
    ensures
        b == is_at(t@, p as int, kind_view(*want)),
{
    if p < t.len() {
        t[p].kind.tag() == want.tag()
    } else {
        want.tag() == 62
    }
}

/// The parse error at `p` with message `msg`.
fn error_at(t: &Vec<Token>, p: usize, msg: String) -> (e: AudionError)
    ensures
        err_view(e) == (msg@, line_at(t@, p as int)),
{
    let line = if p < t.len() { t[p].span.line } else { 0 };
    AudionError::ParseError { msg, line }
}

/// The name of a token kind without text.
fn unit_kind_name_of(k: &TokenKind<String>) -> (s: String)
    ensures s@ == unit_kind_name(kind_view(*k)),
{
    reveal(unit_kind_name);
    match k {
        TokenKind::LParen => { String::from_str("LParen") },
        TokenKind::RParen => { String::from_str("RParen") },
        TokenKind::LBrace => { String::from_str("LBrace") },
        TokenKind::RBrace => { String::from_str("RBrace") },
        TokenKind::LBracket => { String::from_str("LBracket") },
        TokenKind::RBracket => { String::from_str("RBracket") },
        TokenKind::Semicolon => { String::from_str("Semicolon") },
        TokenKind::Comma => { String::from_str("Comma") },
        TokenKind::Colon => { String::from_str("Colon") },
        TokenKind::ColonColon => { String::from_str("ColonColon") },
        TokenKind::Dot => { String::from_str("Dot") },
        TokenKind::Plus => { String::from_str("Plus") },
        TokenKind::PlusEq => { String::from_str("PlusEq") },
        TokenKind::PlusPlus => { String::from_str("PlusPlus") },
        TokenKind::Minus => { String::from_str("Minus") },
        TokenKind::MinusEq => { String::from_str("MinusEq") },
        TokenKind::MinusMinus => { String::from_str("MinusMinus") },
        TokenKind::Star => { String::from_str("Star") },
        TokenKind::StarEq => { String::from_str("StarEq") },
        TokenKind::StarStar => { String::from_str("StarStar") },
        TokenKind::Slash => { String::from_str("Slash") },
        TokenKind::SlashEq => { String::from_str("SlashEq") },
        TokenKind::Percent => { String::from_str("Percent") },
        TokenKind::Eq => { String::from_str("Eq") },
        TokenKind::EqEq => { String::from_str("EqEq") },
        TokenKind::FatArrow => { String::from_str("FatArrow") },
        TokenKind::Bang => { String::from_str("Bang") },
        TokenKind::BangEq => { String::from_str("BangEq") },
        TokenKind::Lt => { String::from_str("Lt") },
        TokenKind::LtEq => { String::from_str("LtEq") },
        TokenKind::LtLt => { String::from_str("LtLt") },
        TokenKind::Gt => { String::from_str("Gt") },
        TokenKind::GtEq => { String::from_str("GtEq") },
        TokenKind::GtGt => { String::from_str("GtGt") },
        TokenKind::And => { String::from_str("And") },
        TokenKind::Ampersand => { String::from_str("Ampersand") },
        TokenKind::Or => { String::from_str("Or") },
        TokenKind::Pipe => { String::from_str("Pipe") },
        TokenKind::Caret => { String::from_str("Caret") },
        TokenKind::Tilde => { String::from_str("Tilde") },
        TokenKind::Fn => { String::from_str("Fn") },
        TokenKind::Let => { String::from_str("Let") },
        TokenKind::If => { String::from_str("If") },
        TokenKind::Else => { String::from_str("Else") },
        TokenKind::While => { String::from_str("While") },
        TokenKind::Loop => { String::from_str("Loop") },
        TokenKind::For => { String::from_str("For") },
        TokenKind::Return => { String::from_str("Return") },
        TokenKind::Thread => { String::from_str("Thread") },
        TokenKind::Define => { String::from_str("Define") },
        TokenKind::Break => { String::from_str("Break") },
        TokenKind::Continue => { String::from_str("Continue") },
        TokenKind::This => { String::from_str("This") },
        TokenKind::Include => { String::from_str("Include") },
        TokenKind::As => { String::from_str("As") },
        TokenKind::Using => { String::from_str("Using") },
        TokenKind::True => { String::from_str("True") },
        TokenKind::False => { String::from_str("False") },
        TokenKind::Nil => { String::from_str("Nil") },
        TokenKind::Eof => { String::from_str("Eof") },
        _ => String::new(),
    }
}

/// The `Debug` form of a token kind (see `kind_debug`).
fn debug_of(k: &TokenKind<String>) -> (s: String)
    ensures
        s@ == kind_debug(kind_view(*k)),
{
    reveal(kind_debug);
    match k {
        TokenKind::Number(n) => {
            let mut s = String::from_str("Number(");
            s.append(n.as_str());
            s.append(")");
            s
        },
        TokenKind::StringLit(x) => {
            let mut s = String::from_str("StringLit(");
            let q = quoted(x);
            s.append(q.as_str());
            s.append(")");
            s
        },
        TokenKind::Ident(x) => {
            let mut s = String::from_str("Ident(");
            let q = quoted(x);
            s.append(q.as_str());
            s.append(")");
            s
        },
        _ => unit_kind_name_of(k),
    }
}

/// The error for a token of the kind `want` (one without text) missing at `p`.
fn expected_error(t: &Vec<Token>, p: usize, want: &TokenKind<String>) -> (e: AudionError)
    requires
        p < t.len(),
    ensures
        err_view(e) == (
            "expected "@ + unit_kind_name(kind_view(*want)) + ", got "@ + kind_debug(kind_at(t@, p as int)),
            line_at(t@, p as int),
        ),
{
    let mut m = String::from_str("expected ");
    let w = unit_kind_name_of(want);
    m.append(w.as_str());
    m.append(", got ");
    let d = debug_of(&t[p].kind);
    m.append(d.as_str());
    error_at(t, p, m)
}

/// An identifier at `p`.
fn parse_ident(t: &Vec<Token>, p: usize) -> (r: Result<(String, usize), AudionError>)
    requires
        p < t.len(),
    ensures
        ident_res(r) == ident_at(t@, p as int),
{
    match &t[p].kind {
        TokenKind::Ident(s) => Ok((s.clone(), p + 1)),
        k => {
            let mut m = String::from_str("expected identifier, got ");
            let d = debug_of(k);
            m.append(d.as_str());
            Err(error_at(t, p, m))
        },
    }
}

/// The operator of a compound assignment token.
fn compound_op_of(k: &TokenKind<String>) -> (o: Option<BinOp>)
    ensures
        o == compound_op(kind_view(*k)),
{
    match k {
        TokenKind::PlusEq => Some(BinOp::Add),
        TokenKind::MinusEq => Some(BinOp::Sub),
        TokenKind::StarEq => Some(BinOp::Mul),
        TokenKind::SlashEq => Some(BinOp::Div),
        _ => None,
    }
}

/// The binary operator that `k` writes at precedence level `lvl`.
fn level_op_of(lvl: u8, k: &TokenKind<String>) -> (o: Option<BinOp>)
    ensures
        o == level_op(lvl as nat, kind_view(*k)),
{
    match (lvl, k) {
        (0, TokenKind::Star) => Some(BinOp::Mul),
        (0, TokenKind::Slash) => Some(BinOp::Div),
        (0, TokenKind::Percent) => Some(BinOp::Mod),
        (1, TokenKind::Plus) => Some(BinOp::Add),
        (1, TokenKind::Minus) => Some(BinOp::Sub),
        (2, TokenKind::LtLt) => Some(BinOp::LeftShift),
        (2, TokenKind::GtGt) => Some(BinOp::RightShift),
        (3, TokenKind::Lt) => Some(BinOp::Lt),
        (3, TokenKind::Gt) => Some(BinOp::Gt),
        (3, TokenKind::LtEq) => Some(BinOp::LtEq),
        (3, TokenKind::GtEq) => Some(BinOp::GtEq),
        (4, TokenKind::EqEq) => Some(BinOp::Eq),
        (4, TokenKind::BangEq) => Some(BinOp::NotEq),
        (5, TokenKind::Ampersand) => Some(BinOp::BitAnd),
        (6, TokenKind::Caret) => Some(BinOp::BitXor),
        (7, TokenKind::Pipe) => Some(BinOp::BitOr),
        (8, TokenKind::And) => Some(BinOp::And),
        (9, TokenKind::Or) => Some(BinOp::Or),
        _ => None,
    }
}

/// `++` (`op` is `Add`) or `--` (`Sub`) applied to `e`, with the position `q` after it.
fn apply_step(t: &Vec<Token>, e: Expr, q: usize, op: BinOp) -> (r: Result<(Expr, usize), AudionError>)
    ensures
        expr_res(r) == step_at(t@, expr_view(e), q as int, op),
        r matches Ok((_, q2)) ==> q2 == q,
{
    match e {
        Expr::Ident(name) => {
            let one_lit = Expr::Number(String::from_str("1"));
            proof { assert(expr_view(one_lit) == one()); }
            Ok((Expr::CompoundAssign { name, op, value: Box::new(one_lit) }, q))
        },
        _ => {
            proof { assert(!(expr_view(e) is Ident)); }
            let m = if op == BinOp::Add {
                String::from_str("++ requires a variable")
            } else {
                String::from_str("-- requires a variable")
            };
            Err(error_at(t, q, m))
        },
    }
}

/// An expression at `p`.
fn parse_expr(t: &Vec<Token>, p: usize) -> (r: Result<(Expr, usize), AudionError>)
    requires
        tokens_end(t@),
        p < t.len(),
    ensures
        expr_res(r) == expr_at(t@, p as int),
        reads(r, t@, p as int),
    decreases t.len() - p, 29nat,
{
    parse_assignment(t, p)
}

fn parse_assignment(t: &Vec<Token>, p: usize) -> (r: Result<(Expr, usize), AudionError>)
    requires
        tokens_end(t@),
        p < t.len(),
    ensures
        expr_res(r) == assignment_at(t@, p as int),
        reads(r, t@, p as int),
    decreases t.len() - p, 28nat,
{
    let (e, q) = match parse_binary(t, p, 9) {
        Err(x) => return Err(x),
        Ok(v) => v,
    };
    if at(t, q, &TokenKind::Eq) {
        proof { lemma_next(t@, q as int); }
        parse_assign_to(t, e, q + 1, None)
    } else {
        match compound_op_of(&t[q].kind) {
            Some(op) => {
                proof { lemma_next(t@, q as int); }
                parse_assign_to(t, e, q + 1, Some(op))
            },
            None => Ok((e, q)),
        }
    }
}

fn parse_assign_to(t: &Vec<Token>, target: Expr, p: usize, op: Option<BinOp>) -> (r: Result<(Expr, usize), AudionError>)
    requires
        tokens_end(t@),
        p < t.len(),
    ensures
        expr_res(r) == assign_to_at(t@, expr_view(target), p as int, op),
        reads(r, t@, p as int),
    decreases t.len() - p, 30nat,
{
    match target {
        Expr::Ident(name) => match parse_assignment(t, p) {
            Err(x) => Err(x),
            Ok((v, q)) => Ok((match op {
                None => Expr::Assign { name, value: Box::new(v) },
                Some(o) => Expr::CompoundAssign { name, op: o, value: Box::new(v) },
            }, q)),
        },
        Expr::Index { object, index } => match parse_assignment(t, p) {
            Err(x) => Err(x),
            Ok((v, q)) => Ok((match op {
                None => Expr::IndexAssign { object, index, value: Box::new(v) },
                Some(o) => Expr::CompoundIndexAssign { object, index, op: o, value: Box::new(v) },
            }, q)),
        },
        Expr::MemberAccess { object, field } => match parse_assignment(t, p) {
            Err(x) => Err(x),
            Ok((v, q)) => Ok((match op {
                None => Expr::MemberAssign { object, field, value: Box::new(v) },
                Some(o) => Expr::CompoundMemberAssign { object, field, op: o, value: Box::new(v) },
            }, q)),
        },
        _ => {
            let m = match op {
                None => String::from_str("invalid assignment target"),
                Some(_) => String::from_str("invalid compound assignment target"),
            };
            Err(error_at(t, p, m))
        },
    }
}

fn parse_binary(t: &Vec<Token>, p: usize, lvl: u8) -> (r: Result<(Expr, usize), AudionError>)
    requires
        tokens_end(t@),
        p < t.len(),
        lvl <= 9,
    ensures
        expr_res(r) == binary_at(t@, p as int, lvl as nat),
        reads(r, t@, p as int),
    decreases t.len() - p, 18 + lvl,
{
    let left = if lvl == 0 { parse_power(t, p) } else { parse_binary(t, p, lvl - 1) };
    match left {
        Err(x) => Err(x),
        Ok((l, q)) => parse_binary_rest(t, l, q, lvl),
    }
}

fn parse_binary_rest(t: &Vec<Token>, left: Expr, p: usize, lvl: u8) -> (r: Result<(Expr, usize), AudionError>)
    requires
        tokens_end(t@),
        p < t.len(),
        lvl <= 9,
    ensures
        expr_res(r) == binary_rest_at(t@, expr_view(left), p as int, lvl as nat),
        stops(r, t@, p as int),
    decreases t.len() - p, 18 + lvl,
{
    match level_op_of(lvl, &t[p].kind) {
        None => Ok((left, p)),
        Some(op) => {
            proof { lemma_next(t@, p as int); }
            let right = if lvl == 0 { parse_unary(t, p + 1) } else { parse_binary(t, p + 1, lvl - 1) };
            match right {
                Err(x) => Err(x),
                Ok((r, q)) => parse_binary_rest(t, Expr::BinOp { left: Box::new(left), op, right: Box::new(r) }, q, lvl),
            }
        },
    }
}

fn parse_power(t: &Vec<Token>, p: usize) -> (r: Result<(Expr, usize), AudionError>)
    requires
        tokens_end(t@),
        p < t.len(),
    ensures
        expr_res(r) == power_at(t@, p as int),
        reads(r, t@, p as int),
    decreases t.len() - p, 17nat,
{
    match parse_unary(t, p) {
        Err(x) => Err(x),
        Ok((b, q)) => if at(t, q, &TokenKind::StarStar) {
            proof { lemma_next(t@, q as int); }
            match parse_power(t, q + 1) {
                Err(x) => Err(x),
                Ok((e, r)) => Ok((Expr::BinOp { left: Box::new(b), op: BinOp::Pow, right: Box::new(e) }, r)),
            }
        } else {
            Ok((b, q))
        },
    }
}

fn parse_unary(t: &Vec<Token>, p: usize) -> (r: Result<(Expr, usize), AudionError>)
    requires
        tokens_end(t@),
        p < t.len(),
    ensures
        expr_res(r) == unary_at(t@, p as int),
        reads(r, t@, p as int),
    decreases t.len() - p, 16nat,
{
    if t[p].kind.tag() != 62 {
        proof { lemma_next(t@, p as int); }
    }
    match &t[p].kind {
        TokenKind::Minus => match parse_unary(t, p + 1) {
            Err(x) => Err(x),
            Ok((e, q)) => Ok((Expr::UnaryOp { op: UnaryOp::Neg, expr: Box::new(e) }, q)),
        },
        TokenKind::Bang => match parse_unary(t, p + 1) {
            Err(x) => Err(x),
            Ok((e, q)) => Ok((Expr::UnaryOp { op: UnaryOp::Not, expr: Box::new(e) }, q)),
        },
        TokenKind::Tilde => match parse_unary(t, p + 1) {
            Err(x) => Err(x),
            Ok((e, q)) => Ok((Expr::UnaryOp { op: UnaryOp::BitNot, expr: Box::new(e) }, q)),
        },
        TokenKind::PlusPlus => match parse_call(t, p + 1) {
            Err(x) => Err(x),
            Ok((e, q)) => apply_step(t, e, q, BinOp::Add),
        },
        TokenKind::MinusMinus => match parse_call(t, p + 1) {
            Err(x) => Err(x),
            Ok((e, q)) => apply_step(t, e, q, BinOp::Sub),
        },
        _ => parse_call(t, p),
    }
}

fn parse_call(t: &Vec<Token>, p: usize) -> (r: Result<(Expr, usize), AudionError>)
    requires
        tokens_end(t@),
        p < t.len(),
    ensures
        expr_res(r) == call_at(t@, p as int),
        reads(r, t@, p as int),
    decreases t.len() - p, 15nat,
{
    match parse_primary(t, p) {
        Err(x) => Err(x),
        Ok((e, q)) => parse_call_rest(t, e, q),
    }
}

#[verifier::rlimit(100)]
#[verifier::spinoff_prover]
fn parse_call_rest(t: &Vec<Token>, e: Expr, p: usize) -> (r: Result<(Expr, usize), AudionError>)
    requires
        tokens_end(t@),
        p < t.len(),
    ensures
        expr_res(r) == call_rest_at(t@, expr_view(e), p as int),
        stops(r, t@, p as int),
    decreases t.len() - p, 15nat,
{
    if t[p].kind.tag() != 62 {
        proof { lemma_next(t@, p as int); }
    }
    match &t[p].kind {
        TokenKind::PlusPlus => match apply_step(t, e, p + 1, BinOp::Add) {
            Err(x) => Err(x),
            Ok((e2, _)) => parse_call_rest(t, e2, p + 1),
        },
        TokenKind::MinusMinus => match apply_step(t, e, p + 1, BinOp::Sub) {
            Err(x) => Err(x),
            Ok((e2, _)) => parse_call_rest(t, e2, p + 1),
        },
        TokenKind::LParen => match parse_args(t, p + 1) {
            Err(x) => Err(x),
            Ok((args, q)) => if !at(t, q, &TokenKind::RParen) {
                Err(expected_error(t, q, &TokenKind::RParen))
            } else {
                proof { lemma_next(t@, q as int); }
                parse_call_rest(t, Expr::Call { callee: Box::new(e), args }, q + 1)
            },
        },
        TokenKind::LBracket => match parse_expr(t, p + 1) {
            Err(x) => Err(x),
            Ok((i, q)) => if !at(t, q, &TokenKind::RBracket) {
                Err(expected_error(t, q, &TokenKind::RBracket))
            } else {
                proof { lemma_next(t@, q as int); }
                parse_call_rest(t, Expr::Index { object: Box::new(e), index: Box::new(i) }, q + 1)
            },
        },
        TokenKind::Dot => match parse_ident(t, p + 1) {
            Err(x) => Err(x),
            Ok((field, q)) => parse_call_rest(t, Expr::MemberAccess { object: Box::new(e), field }, q),
        },
        TokenKind::ColonColon => match parse_ident(t, p + 1) {
            Err(x) => Err(x),
            Ok((name, q)) => parse_call_rest(t, Expr::NamespaceAccess { namespace: Box::new(e), name }, q),
        },
        _ => Ok((e, p)),
    }
}

fn parse_args(t: &Vec<Token>, p: usize) -> (r: Result<(Vec<Arg>, usize), AudionError>)
    requires
        tokens_end(t@),
        p < t.len(),
    ensures
        args_res(r) == args_at(t@, p as int),
        stops(r, t@, p as int),
    decreases t.len() - p, 32nat,
{
    if at(t, p, &TokenKind::RParen) {
        Ok((Vec::new(), p))
    } else {
        match parse_arg(t, p) {
            Err(x) => Err(x),
            Ok((a, q)) => {
                let mut v: Vec<Arg> = Vec::new();
                v.push(a);
                proof { lemma_args_push(Seq::empty(), a); assert(v@ =~= seq![a]); }
                parse_args_rest(t, v, q)
            },
        }
    }
}

fn parse_args_rest(t: &Vec<Token>, acc: Vec<Arg>, p: usize) -> (r: Result<(Vec<Arg>, usize), AudionError>)
    requires
        tokens_end(t@),
        p < t.len(),
    ensures
        args_res(r) == args_rest_at(t@, args_view(acc@), p as int),
        stops(r, t@, p as int),
    decreases t.len() - p, 32nat,
{
    if at(t, p, &TokenKind::Comma) {
        proof { lemma_next(t@, p as int); }
        match parse_arg(t, p + 1) {
            Err(x) => Err(x),
            Ok((a, q)) => {
                let mut acc = acc;
                let ghost old_acc = acc@;
                acc.push(a);
                proof { lemma_args_push(old_acc, a); }
                parse_args_rest(t, acc, q)
            },
        }
    } else {
        Ok((acc, p))
    }
}

fn parse_arg(t: &Vec<Token>, p: usize) -> (r: Result<(Arg, usize), AudionError>)
    requires
        tokens_end(t@),
        p < t.len(),
    ensures
        arg_res(r) == arg_at(t@, p as int),
        reads(r, t@, p as int),
    decreases t.len() - p, 31nat,
{
    match &t[p].kind {
        TokenKind::Ident(name) => {
            proof { lemma_next(t@, p as int); }
            if matches!(t[p + 1].kind, TokenKind::Colon) {
                proof { lemma_next(t@, p + 1); }
                let name = name.clone();
                match parse_expr(t, p + 2) {
                    Err(x) => Err(x),
                    Ok((v, q)) => Ok((Arg::Named { name, value: v }, q)),
                }
            } else {
                match parse_expr(t, p) {
                    Err(x) => Err(x),
                    Ok((v, q)) => Ok((Arg::Positional(v), q)),
                }
            }
        },
        _ => match parse_expr(t, p) {
            Err(x) => Err(x),
            Ok((v, q)) => Ok((Arg::Positional(v), q)),
        },
    }
}

#[verifier::rlimit(100)]
#[verifier::spinoff_prover]
fn parse_primary(t: &Vec<Token>, p: usize) -> (r: Result<(Expr, usize), AudionError>)
    requires
        tokens_end(t@),
        p < t.len(),
    ensures
        expr_res(r) == primary_at(t@, p as int),
        reads(r, t@, p as int),
    decreases t.len() - p, 14nat,
{
    if t[p].kind.tag() != 62 {
        proof { lemma_next(t@, p as int); }
    }
    match &t[p].kind {
        TokenKind::Number(n) => Ok((Expr::Number(n.clone()), p + 1)),
        TokenKind::StringLit(s) => Ok((Expr::StringLit(s.clone()), p + 1)),
        TokenKind::True => Ok((Expr::Bool(true), p + 1)),
        TokenKind::False => Ok((Expr::Bool(false), p + 1)),
        TokenKind::Nil => Ok((Expr::Nil, p + 1)),
        TokenKind::This => Ok((Expr::This, p + 1)),
        TokenKind::Ident(name) => Ok((Expr::Ident(name.clone()), p + 1)),
        TokenKind::LParen => match parse_expr(t, p + 1) {
            Err(x) => Err(x),
            Ok((e, q)) => if at(t, q, &TokenKind::RParen) {
                proof { lemma_next(t@, q as int); }
                Ok((e, q + 1))
            } else {
                Err(expected_error(t, q, &TokenKind::RParen))
            },
        },
        TokenKind::Fn => parse_fn_expr(t, p),
        TokenKind::LBracket => parse_array(t, p),
        k => {
            let mut m = String::from_str("unexpected token ");
            let d = debug_of(k);
            m.append(d.as_str());
            Err(error_at(t, p, m))
        },
    }
}

/// A function expression `fn (params) { ... }`, with `fn` at `p`.
#[verifier::spinoff_prover]
fn parse_fn_expr(t: &Vec<Token>, p: usize) -> (r: Result<(Expr, usize), AudionError>)
    requires
        tokens_end(t@),
        p + 1 < t.len(),
        kind_at(t@, p as int) is Fn,
    ensures
        expr_res(r) == primary_at(t@, p as int),
        reads(r, t@, p as int),
    decreases t.len() - p, 13nat,
{
    if !at(t, p + 1, &TokenKind::LParen) {
        Err(expected_error(t, p + 1, &TokenKind::LParen))
    } else {
        proof { lemma_next(t@, p + 1); }
        match parse_params(t, p + 2) {
            Err(x) => Err(x),
            Ok((params, q)) => if !at(t, q, &TokenKind::RParen) {
                Err(expected_error(t, q, &TokenKind::RParen))
            } else {
                proof { lemma_next(t@, q as int); }
                match parse_block(t, q + 1) {
                    Err(x) => Err(x),
                    Ok((body, r)) => Ok((Expr::FnExpr { params, body: Box::new(body) }, r)),
                }
            },
        }
    }
}

/// An array literal `[elements]`, with `[` at `p`.
#[verifier::rlimit(100)]
#[verifier::spinoff_prover]
fn parse_array(t: &Vec<Token>, p: usize) -> (r: Result<(Expr, usize), AudionError>)
    requires
        tokens_end(t@),
        p + 1 < t.len(),
        kind_at(t@, p as int) is LBracket,
    ensures
        expr_res(r) == primary_at(t@, p as int),
        reads(r, t@, p as int),
    decreases t.len() - p, 13nat,
{
    if at(t, p + 1, &TokenKind::RBracket) {
        proof { lemma_next(t@, p + 1); }
        let v: Vec<(Option<Expr>, Expr)> = Vec::new();
        proof { assert(elems_view(v@) =~= Seq::empty()); }
        Ok((Expr::ArrayLit { elements: v }, p + 2))
    } else {
        match parse_element(t, p + 1) {
            Err(x) => Err(x),
            Ok((x, q)) => {
                let mut v: Vec<(Option<Expr>, Expr)> = Vec::new();
                v.push(x);
                proof {
                    lemma_elems_push(Seq::empty(), x);
                    assert(v@ =~= seq![x]);
                    assert(elems_view(Seq::empty()) =~= Seq::<(Option<ExprView>, ExprView)>::empty());
                    assert(elems_view(v@) =~= seq![elem_view(x)]);
                }
                parse_elements_rest(t, v, q)
            },
        }
    }
}


fn parse_element(t: &Vec<Token>, p: usize) -> (r: Result<((Option<Expr>, Expr), usize), AudionError>)
    requires
        tokens_end(t@),
        p < t.len(),
    ensures
        elem_res(r) == element_at(t@, p as int),
        reads(r, t@, p as int),
    decreases t.len() - p, 30nat,
{
    match parse_expr(t, p) {
        Err(x) => Err(x),
        Ok((e, q)) => if at(t, q, &TokenKind::FatArrow) {
            proof { lemma_next(t@, q as int); }
            match parse_expr(t, q + 1) {
                Err(x) => Err(x),
                Ok((v, r)) => Ok(((Some(e), v), r)),
            }
        } else {
            Ok(((None, e), q))
        },
    }
}

fn parse_elements_rest(t: &Vec<Token>, acc: Vec<(Option<Expr>, Expr)>, p: usize) -> (r: Result<(Expr, usize), AudionError>)
    requires
        tokens_end(t@),
        p < t.len(),
    ensures
        expr_res(r) == elements_rest_at(t@, elems_view(acc@), p as int),
        reads(r, t@, p as int),
    decreases t.len() - p, 30nat,
{
    if at(t, p, &TokenKind::Comma) {
        proof { lemma_next(t@, p as int); }
        if at(t, p + 1, &TokenKind::RBracket) {
            proof { lemma_next(t@, p + 1); }
            Ok((Expr::ArrayLit { elements: acc }, p + 2))
        } else {
            match parse_element(t, p + 1) {
                Err(x) => Err(x),
                Ok((x, q)) => {
                    let mut acc = acc;
                    let ghost old_acc = acc@;
                    acc.push(x);
                    proof { lemma_elems_push(old_acc, x); }
                    parse_elements_rest(t, acc, q)
                },
            }
        }
    } else if at(t, p, &TokenKind::RBracket) {
        proof { lemma_next(t@, p as int); }
        Ok((Expr::ArrayLit { elements: acc }, p + 1))
    } else {
        Err(expected_error(t, p, &TokenKind::RBracket))
    }
}

fn parse_params(t: &Vec<Token>, p: usize) -> (r: Result<(Vec<Param>, usize), AudionError>)
    requires
        tokens_end(t@),
        p < t.len(),
    ensures
        params_res(r) == params_at(t@, p as int),
        stops(r, t@, p as int),
    decreases t.len() - p, 32nat,
{
    if at(t, p, &TokenKind::RParen) {
        Ok((Vec::new(), p))
    } else {
        match parse_param(t, p) {
            Err(x) => Err(x),
            Ok((a, q)) => {
                let mut v: Vec<Param> = Vec::new();
                v.push(a);
                proof { lemma_params_push(Seq::empty(), a); assert(v@ =~= seq![a]); }
                parse_params_rest(t, v, q)
            },
        }
    }
}

fn parse_params_rest(t: &Vec<Token>, acc: Vec<Param>, p: usize) -> (r: Result<(Vec<Param>, usize), AudionError>)
    requires
        tokens_end(t@),
        p < t.len(),
    ensures
        params_res(r) == params_rest_at(t@, params_view(acc@), p as int),
        stops(r, t@, p as int),
    decreases t.len() - p, 32nat,
{
    if at(t, p, &TokenKind::Comma) {
        proof { lemma_next(t@, p as int); }
        match parse_param(t, p + 1) {
            Err(x) => Err(x),
            Ok((a, q)) => {
                let mut acc = acc;
                let ghost old_acc = acc@;
                acc.push(a);
                proof { lemma_params_push(old_acc, a); }
                parse_params_rest(t, acc, q)
            },
        }
    } else {
        Ok((acc, p))
    }
}

fn parse_param(t: &Vec<Token>, p: usize) -> (r: Result<(Param, usize), AudionError>)
    requires
        tokens_end(t@),
        p < t.len(),
    ensures
        param_res(r) == param_at(t@, p as int),
        reads(r, t@, p as int),
    decreases t.len() - p, 31nat,
{
    match parse_ident(t, p) {
        Err(x) => Err(x),
        Ok((name, q)) => {
            proof { lemma_next(t@, p as int); }
            if at(t, q, &TokenKind::Eq) {
                proof { lemma_next(t@, q as int); }
                match parse_expr(t, q + 1) {
                    Err(x) => Err(x),
                    Ok((d, r)) => Ok((Param { name, default: Some(d) }, r)),
                }
            } else {
                Ok((Param { name, default: None }, q))
            }
        },
    }
}

#[verifier::rlimit(100)]
#[verifier::spinoff_prover]
fn parse_stmt(t: &Vec<Token>, p: usize) -> (r: Result<(Stmt, usize), AudionError>)
    requires
        tokens_end(t@),
        p < t.len(),
    ensures
        stmt_res(r) == stmt_at(t@, p as int),
        reads(r, t@, p as int),
    decreases t.len() - p, 39nat,
{
    if t[p].kind.tag() != 62 {
        proof { lemma_next(t@, p as int); }
    }
    match &t[p].kind {
        TokenKind::Let => parse_let(t, p),
        TokenKind::Fn => parse_fn_decl(t, p),
        TokenKind::If => parse_if(t, p),
        TokenKind::While => parse_while(t, p),
        TokenKind::Loop => parse_loop(t, p),
        TokenKind::For => parse_for(t, p),
        TokenKind::Return => parse_return(t, p),
        TokenKind::Break => if at(t, p + 1, &TokenKind::Semicolon) {
            proof { lemma_next(t@, p + 1); }
            Ok((Stmt::Break, p + 2))
        } else {
            Err(expected_error(t, p + 1, &TokenKind::Semicolon))
        },
        TokenKind::Continue => if at(t, p + 1, &TokenKind::Semicolon) {
            proof { lemma_next(t@, p + 1); }
            Ok((Stmt::Continue, p + 2))
        } else {
            Err(expected_error(t, p + 1, &TokenKind::Semicolon))
        },
        TokenKind::Thread => parse_thread(t, p),
        TokenKind::Define => parse_synthdef(t, p),
        TokenKind::Include => parse_include(t, p),
        TokenKind::Using => parse_using(t, p),
        TokenKind::LBrace => parse_block(t, p),
        _ => parse_expr_stmt(t, p),
    }
}

#[verifier::rlimit(100)]
#[verifier::spinoff_prover]
fn parse_let(t: &Vec<Token>, p: usize) -> (r: Result<(Stmt, usize), AudionError>)
    requires
        tokens_end(t@),
        p + 1 < t.len(),
    ensures
        stmt_res(r) == let_at(t@, p as int),
        reads(r, t@, p as int),
    decreases t.len() - p, 37nat,
{
    let line = t[p].span.line;
    match parse_ident(t, p + 1) {
        Err(x) => Err(x),
        Ok((name, q)) => {
            proof { lemma_next(t@, p + 1); }
            if at(t, q, &TokenKind::Eq) {
                proof { lemma_next(t@, q as int); }
                match parse_expr(t, q + 1) {
                    Err(x) => Err(x),
                    Ok((init, r)) => if at(t, r, &TokenKind::Semicolon) {
                        proof {
                            lemma_next(t@, r as int);
                            assert(opt_expr_view(Some(init)) == Some(expr_view(init)));
                        }
                        Ok((Stmt::Let { name, init: Some(init), line }, r + 1))
                    } else {
                        Err(expected_error(t, r, &TokenKind::Semicolon))
                    },
                }
            } else if at(t, q, &TokenKind::Semicolon) {
                proof {
                    lemma_next(t@, q as int);
                    assert(opt_expr_view(None) == None::<ExprView>);
                }
                Ok((Stmt::Let { name, init: None, line }, q + 1))
            } else {
                Err(expected_error(t, q, &TokenKind::Semicolon))
            }
        },
    }
}

fn parse_fn_decl(t: &Vec<Token>, p: usize) -> (r: Result<(Stmt, usize), AudionError>)
    requires
        tokens_end(t@),
        p + 1 < t.len(),
    ensures
        stmt_res(r) == fn_decl_at(t@, p as int),
        reads(r, t@, p as int),
    decreases t.len() - p, 30nat,
{
    match parse_ident(t, p + 1) {
        Err(x) => Err(x),
        Ok((name, q)) => {
            proof { lemma_next(t@, p + 1); }
            if !at(t, q, &TokenKind::LParen) {
                Err(expected_error(t, q, &TokenKind::LParen))
            } else {
                proof { lemma_next(t@, q as int); }
                match parse_params(t, q + 1) {
                    Err(x) => Err(x),
                    Ok((params, r)) => if !at(t, r, &TokenKind::RParen) {
                        Err(expected_error(t, r, &TokenKind::RParen))
                    } else {
                        proof { lemma_next(t@, r as int); }
                        match parse_block(t, r + 1) {
                            Err(x) => Err(x),
                            Ok((body, s)) => Ok((Stmt::FnDecl { name, params, body: Box::new(body) }, s)),
                        }
                    },
                }
            }
        },
    }
}

#[verifier::rlimit(100)]
#[verifier::spinoff_prover]
fn parse_if(t: &Vec<Token>, p: usize) -> (r: Result<(Stmt, usize), AudionError>)
    requires
        tokens_end(t@),
        p + 1 < t.len(),
    ensures
        stmt_res(r) == if_at(t@, p as int),
        reads(r, t@, p as int),
    decreases t.len() - p, 30nat,
{
    if !at(t, p + 1, &TokenKind::LParen) {
        return Err(expected_error(t, p + 1, &TokenKind::LParen));
    }
    proof { lemma_next(t@, p + 1); }
    let (cond, q) = match parse_expr(t, p + 2) {
        Err(x) => return Err(x),
        Ok(v) => v,
    };
    if !at(t, q, &TokenKind::RParen) {
        return Err(expected_error(t, q, &TokenKind::RParen));
    }
    proof { lemma_next(t@, q as int); }
    let (then, r) = match parse_block_or_stmt(t, q + 1) {
        Err(x) => return Err(x),
        Ok(v) => v,
    };
    if at(t, r, &TokenKind::Else) {
        proof { lemma_next(t@, r as int); }
        if at(t, r + 1, &TokenKind::If) {
            proof { lemma_next(t@, r + 1); }
            match parse_if(t, r + 1) {
                Err(x) => Err(x),
                Ok((e2, s)) => {
                    proof { assert(opt_stmt_view(Some(Box::new(e2))) == Some(Box::new(stmt_view(e2)))); }
                    Ok((Stmt::If { cond, then: Box::new(then), else_: Some(Box::new(e2)) }, s))
                },
            }
        } else {
            match parse_block_or_stmt(t, r + 1) {
                Err(x) => Err(x),
                Ok((e2, s)) => {
                    proof { assert(opt_stmt_view(Some(Box::new(e2))) == Some(Box::new(stmt_view(e2)))); }
                    Ok((Stmt::If { cond, then: Box::new(then), else_: Some(Box::new(e2)) }, s))
                },
            }
        }
    } else {
        proof { assert(opt_stmt_view(None) == None::<Box<StmtView>>); }
        Ok((Stmt::If { cond, then: Box::new(then), else_: None }, r))
    }
}

fn parse_while(t: &Vec<Token>, p: usize) -> (r: Result<(Stmt, usize), AudionError>)
    requires
        tokens_end(t@),
        p + 1 < t.len(),
    ensures
        stmt_res(r) == while_at(t@, p as int),
        reads(r, t@, p as int),
    decreases t.len() - p, 30nat,
{
    if !at(t, p + 1, &TokenKind::LParen) {
        return Err(expected_error(t, p + 1, &TokenKind::LParen));
    }
    proof { lemma_next(t@, p + 1); }
    let (cond, q) = match parse_expr(t, p + 2) {
        Err(x) => return Err(x),
        Ok(v) => v,
    };
    if !at(t, q, &TokenKind::RParen) {
        return Err(expected_error(t, q, &TokenKind::RParen));
    }
    proof { lemma_next(t@, q as int); }
    match parse_block_or_stmt(t, q + 1) {
        Err(x) => Err(x),
        Ok((body, r)) => Ok((Stmt::While { cond, body: Box::new(body) }, r)),
    }
}

fn parse_loop(t: &Vec<Token>, p: usize) -> (r: Result<(Stmt, usize), AudionError>)
    requires
        tokens_end(t@),
        p + 1 < t.len(),
    ensures
        stmt_res(r) == loop_at(t@, p as int),
        reads(r, t@, p as int),
    decreases t.len() - p, 30nat,
{
    match parse_block(t, p + 1) {
        Err(x) => Err(x),
        Ok((body, q)) => Ok((Stmt::Loop { body: Box::new(body) }, q)),
    }
}

#[verifier::rlimit(100)]
#[verifier::spinoff_prover]
fn parse_for_init(t: &Vec<Token>, p: usize) -> (r: Result<(Option<Box<Stmt>>, usize), AudionError>)
    requires
        tokens_end(t@),
        p < t.len(),
    ensures
        opt_stmt_res(r) == for_init_at(t@, p as int),
        reads(r, t@, p as int),
    decreases t.len() - p, 38nat,
{
    if t[p].kind.tag() != 62 {
        proof { lemma_next(t@, p as int); }
    }
    if at(t, p, &TokenKind::Semicolon) {
        Ok((None, p + 1))
    } else if at(t, p, &TokenKind::Let) {
        match parse_let(t, p) {
            Err(x) => Err(x),
            Ok((s, r)) => Ok((Some(Box::new(s)), r)),
        }
    } else {
        let line = t[p].span.line;
        match parse_expr(t, p) {
            Err(x) => Err(x),
            Ok((e, r)) => if at(t, r, &TokenKind::Semicolon) {
                proof { lemma_next(t@, r as int); }
                Ok((Some(Box::new(Stmt::ExprStmt(e, line))), r + 1))
            } else {
                Err(expected_error(t, r, &TokenKind::Semicolon))
            },
        }
    }
}

fn parse_opt_expr(t: &Vec<Token>, p: usize, end: &TokenKind<String>) -> (r: Result<(Option<Expr>, usize), AudionError>)
    requires
        tokens_end(t@),
        p < t.len(),
    ensures
        opt_expr_res(r) == opt_expr_at(t@, p as int, kind_view(*end)),
        stops(r, t@, p as int),
    decreases t.len() - p, 30nat,
{
    if at(t, p, end) {
        Ok((None, p))
    } else {
        match parse_expr(t, p) {
            Err(x) => Err(x),
            Ok((e, r)) => Ok((Some(e), r)),
        }
    }
}

fn parse_for(t: &Vec<Token>, p: usize) -> (r: Result<(Stmt, usize), AudionError>)
    requires
        tokens_end(t@),
        p + 1 < t.len(),
    ensures
        stmt_res(r) == for_at(t@, p as int),
        reads(r, t@, p as int),
    decreases t.len() - p, 30nat,
{
    if !at(t, p + 1, &TokenKind::LParen) {
        return Err(expected_error(t, p + 1, &TokenKind::LParen));
    }
    proof { lemma_next(t@, p + 1); }
    let (init, r) = match parse_for_init(t, p + 2) {
        Err(x) => return Err(x),
        Ok(v) => v,
    };
    let (cond, s) = match parse_opt_expr(t, r, &TokenKind::Semicolon) {
        Err(x) => return Err(x),
        Ok(v) => v,
    };
    if !at(t, s, &TokenKind::Semicolon) {
        return Err(expected_error(t, s, &TokenKind::Semicolon));
    }
    proof { lemma_next(t@, s as int); }
    let (incr, u) = match parse_opt_expr(t, s + 1, &TokenKind::RParen) {
        Err(x) => return Err(x),
        Ok(v) => v,
    };
    if !at(t, u, &TokenKind::RParen) {
        return Err(expected_error(t, u, &TokenKind::RParen));
    }
    proof { lemma_next(t@, u as int); }
    match parse_block_or_stmt(t, u + 1) {
        Err(x) => Err(x),
        Ok((body, w)) => Ok((Stmt::For { init, cond, incr, body: Box::new(body) }, w)),
    }
}

fn parse_return(t: &Vec<Token>, p: usize) -> (r: Result<(Stmt, usize), AudionError>)
    requires
        tokens_end(t@),
        p + 1 < t.len(),
    ensures
        stmt_res(r) == return_at(t@, p as int),
        reads(r, t@, p as int),
    decreases t.len() - p, 30nat,
{
    match parse_opt_expr(t, p + 1, &TokenKind::Semicolon) {
        Err(x) => Err(x),
        Ok((v, q)) => if at(t, q, &TokenKind::Semicolon) {
            proof { lemma_next(t@, q as int); }
            Ok((Stmt::Return(v), q + 1))
        } else {
            Err(expected_error(t, q, &TokenKind::Semicolon))
        },
    }
}

fn parse_thread(t: &Vec<Token>, p: usize) -> (r: Result<(Stmt, usize), AudionError>)
    requires
        tokens_end(t@),
        p + 1 < t.len(),
    ensures
        stmt_res(r) == thread_at(t@, p as int),
        reads(r, t@, p as int),
    decreases t.len() - p, 30nat,
{
    match parse_ident(t, p + 1) {
        Err(x) => Err(x),
        Ok((name, q)) => {
            proof { lemma_next(t@, p + 1); }
            match parse_block(t, q) {
                Err(x) => Err(x),
                Ok((body, r)) => Ok((Stmt::Thread { name, body: Box::new(body) }, r)),
            }
        },
    }
}

fn parse_path_rest(t: &Vec<Token>, acc: Vec<String>, p: usize) -> (r: Result<(Vec<String>, usize), AudionError>)
    requires
        tokens_end(t@),
        p < t.len(),
    ensures
        idents_res(r) == path_rest_at(t@, strings_view(acc@), p as int),
        stops(r, t@, p as int),
    decreases t.len() - p,
{
    if at(t, p, &TokenKind::ColonColon) {
        proof { lemma_next(t@, p as int); }
        match parse_ident(t, p + 1) {
            Err(x) => Err(x),
            Ok((x, q)) => {
                proof { lemma_next(t@, p + 1); }
                let mut acc = acc;
                let ghost old_acc = acc@;
                acc.push(x);
                proof { lemma_strings_push(old_acc, x); }
                parse_path_rest(t, acc, q)
            },
        }
    } else {
        Ok((acc, p))
    }
}

fn parse_ident_rest(t: &Vec<Token>, acc: Vec<String>, p: usize) -> (r: Result<(Vec<String>, usize), AudionError>)
    requires
        tokens_end(t@),
        p < t.len(),
    ensures
        idents_res(r) == ident_rest_at(t@, strings_view(acc@), p as int),
        stops(r, t@, p as int),
    decreases t.len() - p,
{
    if at(t, p, &TokenKind::Comma) {
        proof { lemma_next(t@, p as int); }
        match parse_ident(t, p + 1) {
            Err(x) => Err(x),
            Ok((x, q)) => {
                proof { lemma_next(t@, p + 1); }
                let mut acc = acc;
                let ghost old_acc = acc@;
                acc.push(x);
                proof { lemma_strings_push(old_acc, x); }
                parse_ident_rest(t, acc, q)
            },
        }
    } else {
        Ok((acc, p))
    }
}

fn parse_ident_params(t: &Vec<Token>, p: usize) -> (r: Result<(Vec<String>, usize), AudionError>)
    requires
        tokens_end(t@),
        p < t.len(),
    ensures
        idents_res(r) == ident_params_at(t@, p as int),
        stops(r, t@, p as int),
{
    if at(t, p, &TokenKind::RParen) {
        let v: Vec<String> = Vec::new();
        proof { assert(strings_view(v@) =~= Seq::empty()); }
        Ok((v, p))
    } else {
        match parse_ident(t, p) {
            Err(x) => Err(x),
            Ok((x, q)) => {
                proof { lemma_next(t@, p as int); }
                let mut v: Vec<String> = Vec::new();
                v.push(x);
                proof { assert(strings_view(v@) =~= seq![x@]); }
                parse_ident_rest(t, v, q)
            },
        }
    }
}

fn parse_synthdef(t: &Vec<Token>, p: usize) -> (r: Result<(Stmt, usize), AudionError>)
    requires
        tokens_end(t@),
        p + 1 < t.len(),
    ensures
        stmt_res(r) == synthdef_at(t@, p as int),
        reads(r, t@, p as int),
{
    let (name, q) = match parse_ident(t, p + 1) {
        Err(x) => return Err(x),
        Ok(v) => v,
    };
    proof { lemma_next(t@, p + 1); }
    if !at(t, q, &TokenKind::LParen) {
        return Err(expected_error(t, q, &TokenKind::LParen));
    }
    proof { lemma_next(t@, q as int); }
    let (params, r) = match parse_ident_params(t, q + 1) {
        Err(x) => return Err(x),
        Ok(v) => v,
    };
    if !at(t, r, &TokenKind::RParen) {
        return Err(expected_error(t, r, &TokenKind::RParen));
    }
    proof { lemma_next(t@, r as int); }
    if !at(t, r + 1, &TokenKind::LBrace) {
        return Err(expected_error(t, r + 1, &TokenKind::LBrace));
    }
    proof { lemma_next(t@, r + 1); }
    let lets0: Vec<(String, UGenExpr)> = Vec::new();
    proof { assert(named_view(lets0@) =~= Seq::empty()); }
    let (lets, s) = match parse_lets(t, lets0, r + 2) {
        Err(x) => return Err(x),
        Ok(v) => v,
    };
    let results0: Vec<UGenExpr> = Vec::new();
    proof { assert(ugens_view(results0@) =~= Seq::empty()); }
    let (results, u) = match parse_results(t, results0, s) {
        Err(x) => return Err(x),
        Ok(v) => v,
    };
    if !at(t, u, &TokenKind::RBrace) {
        return Err(expected_error(t, u, &TokenKind::RBrace));
    }
    proof {
        lemma_next(t@, u as int);
        lemma_named_len(lets@);
        lemma_ugens_len(results@);
    }
    let body = if lets.len() == 0 && results.len() == 1 {
        let mut results = results;
        let ghost rs = results@;
        let b = results.pop().unwrap();
        proof {
            assert(rs =~= seq![b]);
            reveal_with_fuel(ugens_view, 2);
            assert(ugens_view(rs)[0] == ugen_view(b));
        }
        b
    } else {
        UGenExpr::Block { lets, results }
    };
    Ok((Stmt::SynthDef { name, params, body }, u + 1))
}

fn parse_include(t: &Vec<Token>, p: usize) -> (r: Result<(Stmt, usize), AudionError>)
    requires
        tokens_end(t@),
        p + 1 < t.len(),
    ensures
        stmt_res(r) == include_at(t@, p as int),
        reads(r, t@, p as int),
{
    let path = match &t[p + 1].kind {
        TokenKind::StringLit(s) => s.clone(),
        _ => return Err(error_at(t, p + 1, String::from_str("expected string path after 'include'"))),
    };
    proof { lemma_next(t@, p + 1); }
    if at(t, p + 2, &TokenKind::As) {
        proof { lemma_next(t@, p + 2); }
        let (x, q) = match parse_ident(t, p + 3) {
            Err(e) => return Err(e),
            Ok(v) => v,
        };
        proof { lemma_next(t@, p + 3); }
        let mut v: Vec<String> = Vec::new();
        v.push(x);
        proof { assert(strings_view(v@) =~= seq![x@]); }
        let (segs, r) = match parse_path_rest(t, v, q) {
            Err(e) => return Err(e),
            Ok(v) => v,
        };
        if at(t, r, &TokenKind::Semicolon) {
            proof { lemma_next(t@, r as int); }
            Ok((Stmt::Include { path, alias: Some(segs) }, r + 1))
        } else {
            Err(expected_error(t, r, &TokenKind::Semicolon))
        }
    } else if at(t, p + 2, &TokenKind::Semicolon) {
        proof { lemma_next(t@, p + 2); }
        Ok((Stmt::Include { path, alias: None }, p + 3))
    } else {
        Err(expected_error(t, p + 2, &TokenKind::Semicolon))
    }
}

fn parse_using(t: &Vec<Token>, p: usize) -> (r: Result<(Stmt, usize), AudionError>)
    requires
        tokens_end(t@),
        p + 1 < t.len(),
    ensures
        stmt_res(r) == using_at(t@, p as int),
        reads(r, t@, p as int),
{
    let (x, q) = match parse_ident(t, p + 1) {
        Err(e) => return Err(e),
        Ok(v) => v,
    };
    proof { lemma_next(t@, p + 1); }
    let mut v: Vec<String> = Vec::new();
    v.push(x);
    proof { assert(strings_view(v@) =~= seq![x@]); }
    let (segs, r) = match parse_path_rest(t, v, q) {
        Err(e) => return Err(e),
        Ok(v) => v,
    };
    if at(t, r, &TokenKind::Semicolon) {
        proof { lemma_next(t@, r as int); }
        Ok((Stmt::Using { path: segs }, r + 1))
    } else {
        Err(expected_error(t, r, &TokenKind::Semicolon))
    }
}

fn parse_block(t: &Vec<Token>, p: usize) -> (r: Result<(Stmt, usize), AudionError>)
    requires
        tokens_end(t@),
        p < t.len(),
    ensures
        stmt_res(r) == block_at(t@, p as int),
        reads(r, t@, p as int),
    decreases t.len() - p, 36nat,
{
    if !at(t, p, &TokenKind::LBrace) {
        return Err(expected_error(t, p, &TokenKind::LBrace));
    }
    proof { lemma_next(t@, p as int); }
    let v: Vec<Stmt> = Vec::new();
    proof { assert(stmts_view(v@) =~= Seq::empty()); }
    parse_items(t, v, p + 1)
}

fn parse_items(t: &Vec<Token>, acc: Vec<Stmt>, p: usize) -> (r: Result<(Stmt, usize), AudionError>)
    requires
        tokens_end(t@),
        p < t.len(),
    ensures
        stmt_res(r) == items_at(t@, stmts_view(acc@), p as int),
        reads(r, t@, p as int),
    decreases t.len() - p, 41nat,
{
    if !at(t, p, &TokenKind::RBrace) && t[p].kind.tag() != 62 {
        match parse_stmt(t, p) {
            Err(x) => Err(x),
            Ok((s, q)) => {
                let mut acc = acc;
                let ghost old_acc = acc@;
                acc.push(s);
                proof { lemma_stmts_push(old_acc, s); }
                parse_items(t, acc, q)
            },
        }
    } else if at(t, p, &TokenKind::RBrace) {
        proof { lemma_next(t@, p as int); }
        Ok((Stmt::Block(acc), p + 1))
    } else {
        Err(expected_error(t, p, &TokenKind::RBrace))
    }
}

fn parse_block_or_stmt(t: &Vec<Token>, p: usize) -> (r: Result<(Stmt, usize), AudionError>)
    requires
        tokens_end(t@),
        p < t.len(),
    ensures
        stmt_res(r) == block_or_stmt_at(t@, p as int),
        reads(r, t@, p as int),
    decreases t.len() - p, 40nat,
{
    if at(t, p, &TokenKind::LBrace) { parse_block(t, p) } else { parse_stmt(t, p) }
}

fn parse_expr_stmt(t: &Vec<Token>, p: usize) -> (r: Result<(Stmt, usize), AudionError>)
    requires
        tokens_end(t@),
        p < t.len(),
    ensures
        stmt_res(r) == expr_stmt_at(t@, p as int),
        reads(r, t@, p as int),
    decreases t.len() - p, 38nat,
{
    let line = t[p].span.line;
    match parse_expr(t, p) {
        Err(x) => Err(x),
        Ok((e, q)) => if at(t, q, &TokenKind::Semicolon) {
            proof { lemma_next(t@, q as int); }
            Ok((Stmt::ExprStmt(e, line), q + 1))
        } else {
            Err(expected_error(t, q, &TokenKind::Semicolon))
        },
    }
}

fn parse_ugen_expr(t: &Vec<Token>, p: usize) -> (r: Result<(UGenExpr, usize), AudionError>)
    requires
        tokens_end(t@),
        p < t.len(),
    ensures
        ugen_res(r) == ugen_expr_at(t@, p as int),
        reads(r, t@, p as int),
    decreases t.len() - p, 8nat,
{
    match parse_ugen_mul(t, p) {
        Err(x) => Err(x),
        Ok((l, q)) => parse_ugen_add_rest(t, l, q),
    }
}

fn parse_ugen_add_rest(t: &Vec<Token>, left: UGenExpr, p: usize) -> (r: Result<(UGenExpr, usize), AudionError>)
    requires
        tokens_end(t@),
        p < t.len(),
    ensures
        ugen_res(r) == ugen_add_rest_at(t@, ugen_view(left), p as int),
        stops(r, t@, p as int),
    decreases t.len() - p, 8nat,
{
    let op = match &t[p].kind {
        TokenKind::Plus => Some(BinOp::Add),
        TokenKind::Minus => Some(BinOp::Sub),
        _ => None,
    };
    match op {
        None => Ok((left, p)),
        Some(op) => {
            proof { lemma_next(t@, p as int); }
            match parse_ugen_mul(t, p + 1) {
                Err(x) => Err(x),
                Ok((r, q)) => parse_ugen_add_rest(t, UGenExpr::BinOp { left: Box::new(left), op, right: Box::new(r) }, q),
            }
        },
    }
}

fn parse_ugen_mul(t: &Vec<Token>, p: usize) -> (r: Result<(UGenExpr, usize), AudionError>)
    requires
        tokens_end(t@),
        p < t.len(),
    ensures
        ugen_res(r) == ugen_mul_at(t@, p as int),
        reads(r, t@, p as int),
    decreases t.len() - p, 7nat,
{
    match parse_ugen_postfix(t, p) {
        Err(x) => Err(x),
        Ok((l, q)) => parse_ugen_mul_rest(t, l, q),
    }
}

fn parse_ugen_mul_rest(t: &Vec<Token>, left: UGenExpr, p: usize) -> (r: Result<(UGenExpr, usize), AudionError>)
    requires
        tokens_end(t@),
        p < t.len(),
    ensures
        ugen_res(r) == ugen_mul_rest_at(t@, ugen_view(left), p as int),
        stops(r, t@, p as int),
    decreases t.len() - p, 7nat,
{
    let op = match &t[p].kind {
        TokenKind::Star => Some(BinOp::Mul),
        TokenKind::Slash => Some(BinOp::Div),
        _ => None,
    };
    match op {
        None => Ok((left, p)),
        Some(op) => {
            proof { lemma_next(t@, p as int); }
            match parse_ugen_postfix(t, p + 1) {
                Err(x) => Err(x),
                Ok((r, q)) => parse_ugen_mul_rest(t, UGenExpr::BinOp { left: Box::new(left), op, right: Box::new(r) }, q),
            }
        },
    }
}

fn parse_ugen_postfix(t: &Vec<Token>, p: usize) -> (r: Result<(UGenExpr, usize), AudionError>)
    requires
        tokens_end(t@),
        p < t.len(),
    ensures
        ugen_res(r) == ugen_postfix_at(t@, p as int),
        reads(r, t@, p as int),
    decreases t.len() - p, 6nat,
{
    match parse_ugen_primary(t, p) {
        Err(x) => Err(x),
        Ok((e, q)) => parse_ugen_index_rest(t, e, q),
    }
}

fn parse_ugen_index_rest(t: &Vec<Token>, e: UGenExpr, p: usize) -> (r: Result<(UGenExpr, usize), AudionError>)
    requires
        tokens_end(t@),
        p < t.len(),
    ensures
        ugen_res(r) == ugen_index_rest_at(t@, ugen_view(e), p as int),
        stops(r, t@, p as int),
    decreases t.len() - p, 6nat,
{
    if at(t, p, &TokenKind::LBracket) {
        proof { lemma_next(t@, p as int); }
        match parse_ugen_expr(t, p + 1) {
            Err(x) => Err(x),
            Ok((i, q)) => if !at(t, q, &TokenKind::RBracket) {
                Err(expected_error(t, q, &TokenKind::RBracket))
            } else {
                proof { lemma_next(t@, q as int); }
                parse_ugen_index_rest(t, UGenExpr::Index { object: Box::new(e), index: Box::new(i) }, q + 1)
            },
        }
    } else {
        Ok((e, p))
    }
}

fn parse_ugen_primary(t: &Vec<Token>, p: usize) -> (r: Result<(UGenExpr, usize), AudionError>)
    requires
        tokens_end(t@),
        p < t.len(),
    ensures
        ugen_res(r) == ugen_primary_at(t@, p as int),
        reads(r, t@, p as int),
    decreases t.len() - p, 5nat,
{
    if t[p].kind.tag() != 62 {
        proof { lemma_next(t@, p as int); }
    }
    match &t[p].kind {
        TokenKind::Number(n) => Ok((UGenExpr::Number(n.clone()), p + 1)),
        TokenKind::StringLit(s) => Ok((UGenExpr::StringLit(s.clone()), p + 1)),
        TokenKind::LParen => match parse_ugen_expr(t, p + 1) {
            Err(x) => Err(x),
            Ok((e, q)) => if at(t, q, &TokenKind::RParen) {
                proof { lemma_next(t@, q as int); }
                Ok((e, q + 1))
            } else {
                Err(expected_error(t, q, &TokenKind::RParen))
            },
        },
        TokenKind::Ident(name) => {
            let name = name.clone();
            if !at(t, p + 1, &TokenKind::LParen) {
                Ok((UGenExpr::Param(name), p + 1))
            } else {
                proof { lemma_next(t@, p + 1); }
                if at(t, p + 2, &TokenKind::RParen) {
                    proof { lemma_next(t@, p + 2); }
                    let args: Vec<UGenExpr> = Vec::new();
                    let named: Vec<(String, UGenExpr)> = Vec::new();
                    proof {
                        assert(ugens_view(args@) =~= Seq::empty());
                        assert(named_view(named@) =~= Seq::empty());
                    }
                    Ok((UGenExpr::UGenCall { name, args, named_args: named }, p + 3))
                } else {
                    let args0: Vec<UGenExpr> = Vec::new();
                    let named0: Vec<(String, UGenExpr)> = Vec::new();
                    proof {
                        assert(ugens_view(args0@) =~= Seq::empty());
                        assert(named_view(named0@) =~= Seq::empty());
                    }
                    let ((args, named), q) = match parse_ugen_arg(t, args0, named0, p + 2) {
                        Err(x) => return Err(x),
                        Ok(v) => v,
                    };
                    let ((args, named), r) = match parse_ugen_args_rest(t, args, named, q) {
                        Err(x) => return Err(x),
                        Ok(v) => v,
                    };
                    if !at(t, r, &TokenKind::RParen) {
                        Err(expected_error(t, r, &TokenKind::RParen))
                    } else {
                        proof { lemma_next(t@, r as int); }
                        Ok((UGenExpr::UGenCall { name, args, named_args: named }, r + 1))
                    }
                }
            }
        },
        k => {
            let mut m = String::from_str("unexpected token ");
            let d = debug_of(k);
            m.append(d.as_str());
            m.append(" in define body");
            Err(error_at(t, p, m))
        },
    }
}

fn parse_ugen_arg(t: &Vec<Token>, args: Vec<UGenExpr>, named: Vec<(String, UGenExpr)>, p: usize)
    -> (r: Result<((Vec<UGenExpr>, Vec<(String, UGenExpr)>), usize), AudionError>)
    requires
        tokens_end(t@),
        p < t.len(),
    ensures
        ugen_args_res(r) == ugen_arg_at(t@, ugens_view(args@), named_view(named@), p as int),
        reads(r, t@, p as int),
    decreases t.len() - p, 9nat,
{
    let name: Option<String> = match &t[p].kind {
        TokenKind::Ident(s) => Some(s.clone()),
        TokenKind::Loop => Some(String::from_str("loop")),
        _ => None,
    };
    let named_here = match name {
        Some(_) => {
            proof { lemma_next(t@, p as int); }
            matches!(t[p + 1].kind, TokenKind::Colon)
        },
        None => false,
    };
    if named_here {
        proof { lemma_next(t@, p + 1); }
        let n = name.unwrap();
        match parse_ugen_expr(t, p + 2) {
            Err(x) => Err(x),
            Ok((v, q)) => {
                let mut named = named;
                let ghost old_named = named@;
                named.push((n, v));
                proof { lemma_named_push(old_named, (n, v)); }
                Ok(((args, named), q))
            },
        }
    } else {
        match parse_ugen_expr(t, p) {
            Err(x) => Err(x),
            Ok((v, q)) => {
                let mut args = args;
                let ghost old_args = args@;
                args.push(v);
                proof { lemma_ugens_push(old_args, v); }
                Ok(((args, named), q))
            },
        }
    }
}

fn parse_ugen_args_rest(t: &Vec<Token>, args: Vec<UGenExpr>, named: Vec<(String, UGenExpr)>, p: usize)
    -> (r: Result<((Vec<UGenExpr>, Vec<(String, UGenExpr)>), usize), AudionError>)
    requires
        tokens_end(t@),
        p < t.len(),
    ensures
        ugen_args_res(r) == ugen_args_rest_at(t@, ugens_view(args@), named_view(named@), p as int),
        stops(r, t@, p as int),
    decreases t.len() - p, 9nat,
{
    if at(t, p, &TokenKind::Comma) {
        proof { lemma_next(t@, p as int); }
        match parse_ugen_arg(t, args, named, p + 1) {
            Err(x) => Err(x),
            Ok(((a2, n2), q)) => parse_ugen_args_rest(t, a2, n2, q),
        }
    } else {
        Ok(((args, named), p))
    }
}

fn parse_lets(t: &Vec<Token>, acc: Vec<(String, UGenExpr)>, p: usize) -> (r: Result<(Vec<(String, UGenExpr)>, usize), AudionError>)
    requires
        tokens_end(t@),
        p < t.len(),
    ensures
        lets_res(r) == lets_at(t@, named_view(acc@), p as int),
        stops(r, t@, p as int),
    decreases t.len() - p,
{
    if at(t, p, &TokenKind::Let) {
        proof { lemma_next(t@, p as int); }
        let (name, q) = match parse_ident(t, p + 1) {
            Err(x) => return Err(x),
            Ok(v) => v,
        };
        proof { lemma_next(t@, p + 1); }
        if !at(t, q, &TokenKind::Eq) {
            return Err(expected_error(t, q, &TokenKind::Eq));
        }
        proof { lemma_next(t@, q as int); }
        let (v, r) = match parse_ugen_expr(t, q + 1) {
            Err(x) => return Err(x),
            Ok(v) => v,
        };
        if !at(t, r, &TokenKind::Semicolon) {
            return Err(expected_error(t, r, &TokenKind::Semicolon));
        }
        proof { lemma_next(t@, r as int); }
        let mut acc = acc;
        let ghost old_acc = acc@;
        acc.push((name, v));
        proof { lemma_named_push(old_acc, (name, v)); }
        parse_lets(t, acc, r + 1)
    } else {
        Ok((acc, p))
    }
}

fn parse_results(t: &Vec<Token>, acc: Vec<UGenExpr>, p: usize) -> (r: Result<(Vec<UGenExpr>, usize), AudionError>)
    requires
        tokens_end(t@),
        p < t.len(),
    ensures
        ugens_res(r) == results_at(t@, ugens_view(acc@), p as int),
        stops(r, t@, p as int),
    decreases t.len() - p,
{
    if at(t, p, &TokenKind::RBrace) {
        Ok((acc, p))
    } else {
        let (e, q) = match parse_ugen_expr(t, p) {
            Err(x) => return Err(x),
            Ok(v) => v,
        };
        if !at(t, q, &TokenKind::Semicolon) {
            return Err(expected_error(t, q, &TokenKind::Semicolon));
        }
        proof { lemma_next(t@, q as int); }
        let mut acc = acc;
        let ghost old_acc = acc@;
        acc.push(e);
        proof { lemma_ugens_push(old_acc, e); }
        parse_results(t, acc, q + 1)
    }
}

/// A parser over the tokens of a source file, with its position among them.
pub struct Parser {
    tokens: Vec<Token>,
    pos: usize,
}

impl Parser {
    /// The tokens the parser reads.
    pub closed spec fn tokens(&self) -> Seq<Token> {
        self.tokens@
    }

    /// The position of the next token to read.
    pub closed spec fn position(&self) -> nat {
        self.pos as nat
    }

    /// Whether the parser can read on: its tokens end with `Eof` (as the lexer's do) and
    /// its position is among them.
    pub closed spec fn wf(&self) -> bool {
        tokens_end(self.tokens@) && self.pos < self.tokens@.len()
    }

    /// A parser at the start of `tokens`.
    pub fn new(tokens: Vec<Token>) -> (p: Parser)
        ensures
            p.tokens() == tokens@,
            p.position() == 0,
            tokens_end(tokens@) ==> p.wf(),
    {
        Parser { tokens, pos: 0 }
    }

    /// Parses the statements from the parser's position to the end of its tokens, as
    /// `program_at` gives them (from the start: `parse_program`); on success the position is
    /// then at `Eof`, on an error the first error is returned.
    pub fn parse(&mut self) -> (r: Result<Vec<Stmt>, AudionError>)
        requires
            old(self).wf(),
        ensures
            match r {
                Ok(stmts) => program_at(old(self).tokens(), Seq::empty(), old(self).position() as int) == Ok::<Seq<StmtView>, (Seq<char>, nat)>(stmts_view(stmts@)),
                Err(e) => program_at(old(self).tokens(), Seq::empty(), old(self).position() as int) == Err::<Seq<StmtView>, (Seq<char>, nat)>(err_view(e)),
            },
            final(self).tokens() == old(self).tokens(),
            final(self).wf(),
    {
        let mut stmts: Vec<Stmt> = Vec::new();
        let ghost target = program_at(self.tokens@, Seq::empty(), self.pos as int);
        proof { assert(stmts_view(stmts@) =~= Seq::empty()); }
        while self.tokens[self.pos].kind.tag() != 62
            invariant
                tokens_end(self.tokens@),
                self.pos < self.tokens@.len(),
                self.tokens@ == old(self).tokens@,
                program_at(self.tokens@, stmts_view(stmts@), self.pos as int) == target,
                target == program_at(old(self).tokens@, Seq::empty(), old(self).pos as int),
            decreases self.tokens@.len() - self.pos,
        {
            match parse_stmt(&self.tokens, self.pos) {
                Err(x) => return Err(x),
                Ok((s, q)) => {
                    let ghost old_stmts = stmts@;
                    stmts.push(s);
                    proof { lemma_stmts_push(old_stmts, s); }
                    self.pos = q;
                },
            }
        }
        Ok(stmts)
    }
}

} // verus!
