use vstd::prelude::*;
use crate::error::AudionError;
use crate::text::{string_of_range, chars_of};
use crate::token::{Span, Token, TokenKind, kind_view, token_view, tokens_view};

verus! {

/// All reserved keywords of the language.
pub const KEYWORDS: [&'static str; 19] = [
    "fn", "let", "if", "else", "while", "loop", "for", "return",
    "thread", "define", "break", "continue", "this",
    "include", "as", "using", "true", "false", "nil",
];


// ---------------------------------------------------------------------------
// Character classes and the specification of tokenization
// ---------------------------------------------------------------------------

pub open spec fn is_digit(c: char) -> bool {
    '0' <= c && c <= '9'
}

pub open spec fn is_alpha(c: char) -> bool {
    ('a' <= c && c <= 'z') || ('A' <= c && c <= 'Z')
}

/// A character that may continue an identifier.
pub open spec fn is_word(c: char) -> bool {
    is_digit(c) || is_alpha(c) || c == '_'
}

/// The character at `i`, or `'\0'` past either end.
pub open spec fn char_at(src: Seq<char>, i: nat) -> char {
    if i < src.len() { src[i as int] } else { '\0' }
}

/// The first position at or after `i` that is not a digit.
pub open spec fn digits_end(src: Seq<char>, i: nat) -> nat
    decreases src.len() - i,
{
    if i < src.len() && is_digit(src[i as int]) { digits_end(src, i + 1) } else { i }
}

/// The end of a number literal whose first digit stands at `start`:
/// digits, then optionally a '.' followed by at least one digit and more digits.
pub open spec fn number_end(src: Seq<char>, start: nat) -> nat {
    let e = digits_end(src, start + 1);
    if e < src.len() && src[e as int] == '.' && is_digit(char_at(src, e + 1)) {
        digits_end(src, e + 1)
    } else {
        e
    }
}

/// The first position at or after `i` that does not continue an identifier.
pub open spec fn word_end(src: Seq<char>, i: nat) -> nat
    decreases src.len() - i,
{
    if i < src.len() && is_word(src[i as int]) { word_end(src, i + 1) } else { i }
}

/// The reserved words of the language, in the order the lexer knows them.
pub open spec fn keyword_kind(text: Seq<char>) -> TokenKind<Seq<char>> {
    if text == "fn"@ { TokenKind::Fn }
    else if text == "let"@ { TokenKind::Let }
    else if text == "if"@ { TokenKind::If }
    else if text == "else"@ { TokenKind::Else }
    else if text == "while"@ { TokenKind::While }
    else if text == "loop"@ { TokenKind::Loop }
    else if text == "for"@ { TokenKind::For }
    else if text == "return"@ { TokenKind::Return }
    else if text == "thread"@ { TokenKind::Thread }
    else if text == "define"@ { TokenKind::Define }
    else if text == "break"@ { TokenKind::Break }
    else if text == "continue"@ { TokenKind::Continue }
    else if text == "this"@ { TokenKind::This }
    else if text == "include"@ { TokenKind::Include }
    else if text == "as"@ { TokenKind::As }
    else if text == "using"@ { TokenKind::Using }
    else if text == "true"@ { TokenKind::True }
    else if text == "false"@ { TokenKind::False }
    else if text == "nil"@ { TokenKind::Nil }
    else { TokenKind::Ident(text) }
}

/// Where a line comment starting at `i` ends: at the next newline (not consumed) or the end.
pub open spec fn line_comment_end(src: Seq<char>, i: nat) -> nat
    decreases src.len() - i,
{
    if i < src.len() && src[i as int] != '\n' { line_comment_end(src, i + 1) } else { i }
}

/// Position and line after a block comment whose body starts at `i`:
/// just past the first "*/", or the end of the source if there is none.
pub open spec fn block_comment_end(src: Seq<char>, i: nat, line: nat) -> (nat, nat)
    decreases src.len() - i,
{
    if i >= src.len() {
        (i, line)
    } else {
        let l = if src[i as int] == '\n' { line + 1 } else { line };
        if src[i as int] == '*' && char_at(src, i + 1) == '/' {
            (i + 2, l)
        } else {
            block_comment_end(src, i + 1, l)
        }
    }
}

/// Position and line after the blanks and comments that start at `pos`.
pub open spec fn skip_blank(src: Seq<char>, pos: nat, line: nat) -> (nat, nat)
    decreases src.len() - pos,
{
    if pos >= src.len() {
        (pos, line)
    } else {
        let c = src[pos as int];
        if c == ' ' || c == '\t' || c == '\r' {
            skip_blank(src, pos + 1, line)
        } else if c == '\n' {
            skip_blank(src, pos + 1, line + 1)
        } else if c == '/' && char_at(src, pos + 1) == '/' {
            let e = line_comment_end(src, pos);
            if pos < e <= src.len() { skip_blank(src, e, line) } else { (pos, line) }
        } else if c == '/' && char_at(src, pos + 1) == '*' {
            let (e, l) = block_comment_end(src, pos + 2, line);
            if pos < e <= src.len() { skip_blank(src, e, l) } else { (pos, line) }
        } else {
            (pos, line)
        }
    }
}

/// A lexing error: its message and line.
pub type LexFail = (Seq<char>, nat);

/// The content of a string literal whose body starts at `pos`, with the escapes
/// \n, \t, \\ and \" resolved (any other escaped character keeps its backslash);
/// also the position just past the closing quote and the line there.
pub open spec fn string_body(src: Seq<char>, pos: nat, line: nat, acc: Seq<char>)
    -> Result<(Seq<char>, nat, nat), LexFail>
    decreases src.len() - pos,
{
    if pos >= src.len() {
        Err(("unterminated string"@, line))
    } else if src[pos as int] == '"' {
        Ok((acc, pos + 1, line))
    } else {
        let c = src[pos as int];
        let l = if c == '\n' { line + 1 } else { line };
        if c == '\\' {
            if pos + 1 >= src.len() {
                Err(("unterminated string escape"@, l))
            } else {
                let e = src[pos + 1 as int];
                let add = if e == 'n' { seq!['\n'] } else if e == 't' { seq!['\t'] }
                    else if e == '\\' { seq!['\\'] } else if e == '"' { seq!['"'] }
                    else { seq!['\\', e] };
                string_body(src, pos + 2, l, acc + add)
            }
        } else {
            string_body(src, pos + 1, l, acc.push(c))
        }
    }
}

/// A single-character token, or one completed by a second character.
pub open spec fn operator_kind(src: Seq<char>, p: nat) -> Option<(TokenKind<Seq<char>>, nat)> {
    let c = src[p as int];
    let n = char_at(src, p + 1);
    let q = p + 1;
    if c == '(' { Some((TokenKind::LParen, q)) }
    else if c == ')' { Some((TokenKind::RParen, q)) }
    else if c == '{' { Some((TokenKind::LBrace, q)) }
    else if c == '}' { Some((TokenKind::RBrace, q)) }
    else if c == '[' { Some((TokenKind::LBracket, q)) }
    else if c == ']' { Some((TokenKind::RBracket, q)) }
    else if c == ';' { Some((TokenKind::Semicolon, q)) }
    else if c == ',' { Some((TokenKind::Comma, q)) }
    else if c == ':' { if n == ':' { Some((TokenKind::ColonColon, q + 1)) } else { Some((TokenKind::Colon, q)) } }
    else if c == '.' { Some((TokenKind::Dot, q)) }
    else if c == '+' { if n == '=' { Some((TokenKind::PlusEq, q + 1)) } else { Some((TokenKind::Plus, q)) } }
    else if c == '-' { if n == '=' { Some((TokenKind::MinusEq, q + 1)) } else { Some((TokenKind::Minus, q)) } }
    else if c == '*' { if n == '=' { Some((TokenKind::StarEq, q + 1)) } else { Some((TokenKind::Star, q)) } }
    else if c == '/' { if n == '=' { Some((TokenKind::SlashEq, q + 1)) } else { Some((TokenKind::Slash, q)) } }
    else if c == '%' { Some((TokenKind::Percent, q)) }
    else if c == '=' {
        if n == '=' { Some((TokenKind::EqEq, q + 1)) }
        else if n == '>' { Some((TokenKind::FatArrow, q + 1)) }
        else { Some((TokenKind::Eq, q)) }
    }
    else if c == '!' { if n == '=' { Some((TokenKind::BangEq, q + 1)) } else { Some((TokenKind::Bang, q)) } }
    else if c == '<' {
        if n == '=' { Some((TokenKind::LtEq, q + 1)) }
        else if n == '<' { Some((TokenKind::LtLt, q + 1)) }
        else { Some((TokenKind::Lt, q)) }
    }
    else if c == '>' {
        if n == '=' { Some((TokenKind::GtEq, q + 1)) }
        else if n == '>' { Some((TokenKind::GtGt, q + 1)) }
        else { Some((TokenKind::Gt, q)) }
    }
    else if c == '&' { if n == '&' { Some((TokenKind::And, q + 1)) } else { Some((TokenKind::Ampersand, q)) } }
    else if c == '|' { if n == '|' { Some((TokenKind::Or, q + 1)) } else { Some((TokenKind::Pipe, q)) } }
    else if c == '^' { Some((TokenKind::Caret, q)) }
    else if c == '~' { Some((TokenKind::Tilde, q)) }
    else { None }
}

/// The message for a character that starts no token.
pub open spec fn unexpected_char_msg(c: char) -> Seq<char> {
    "unexpected character '"@.push(c) + "'"@
}

/// The token that starts at `p` (which holds no blank and is within the source):
/// its kind, the position just past it, and the line there.
pub open spec fn token_at(src: Seq<char>, p: nat, line: nat)
    -> Result<(TokenKind<Seq<char>>, nat, nat), LexFail>
{
    let c = src[p as int];
    match operator_kind(src, p) {
        Some((k, e)) => Ok((k, e, line)),
        None => {
            if c == '"' {
                match string_body(src, p + 1, line, Seq::empty()) {
                    Ok((s, e, l)) => Ok((TokenKind::StringLit(s), e, l)),
                    Err(f) => Err(f),
                }
            } else if is_digit(c) {
                let e = number_end(src, p);
                Ok((TokenKind::Number(src.subrange(p as int, e as int)), e, line))
            } else if is_alpha(c) || c == '_' {
                let e = word_end(src, p + 1);
                Ok((keyword_kind(src.subrange(p as int, e as int)), e, line))
            } else {
                Err((unexpected_char_msg(c), line))
            }
        },
    }
}

pub open spec fn spec_token(k: TokenKind<Seq<char>>, start: nat, end: nat, line: nat)
    -> (TokenKind<Seq<char>>, Span) {
    (k, Span { start: start as usize, end: end as usize, line: line as usize })
}

/// The tokens of `src` from `pos` on, at line `line`, ending with `Eof`;
/// or the first lexing error.
pub open spec fn lex_from(src: Seq<char>, pos: nat, line: nat)
    -> Result<Seq<(TokenKind<Seq<char>>, Span)>, LexFail>
    decreases src.len() - pos,
{
    let (p, l) = skip_blank(src, pos, line);
    if p >= src.len() {
        Ok(seq![spec_token(TokenKind::Eof, p, p, l)])
    } else {
        match token_at(src, p, l) {
            Err(f) => Err(f),
            Ok((k, e, l2)) => {
                if p < e && pos <= p && e <= src.len() {
                    match lex_from(src, e, l2) {
                        Ok(rest) => Ok(seq![spec_token(k, p, e, l2)] + rest),
                        Err(f) => Err(f),
                    }
                } else {
                    Err((Seq::empty(), l))
                }
            },
        }
    }
}

/// Whether an exec result agrees with a spec result.
pub open spec fn lex_result_matches(
    r: Result<Vec<Token>, AudionError>,
    s: Result<Seq<(TokenKind<Seq<char>>, Span)>, LexFail>,
) -> bool {
    match (r, s) {
        (Ok(v), Ok(t)) => tokens_view(v@) == t,
        (Err(AudionError::LexError { msg, line }), Err((m, l))) => msg@ == m && line as nat == l,
        _ => false,
    }
}

// ---------------------------------------------------------------------------
// Facts about the specification
// ---------------------------------------------------------------------------

proof fn lemma_digits_end(src: Seq<char>, i: nat)
    requires i <= src.len(),
    ensures i <= digits_end(src, i) <= src.len(),
    decreases src.len() - i,
{
    if i < src.len() && is_digit(src[i as int]) {
        lemma_digits_end(src, i + 1);
    }
}

proof fn lemma_word_end(src: Seq<char>, i: nat)
    requires i <= src.len(),
    ensures i <= word_end(src, i) <= src.len(),
    decreases src.len() - i,
{
    if i < src.len() && is_word(src[i as int]) {
        lemma_word_end(src, i + 1);
    }
}

proof fn lemma_line_comment_end(src: Seq<char>, i: nat)
    requires i <= src.len(),
    ensures i <= line_comment_end(src, i) <= src.len(),
    decreases src.len() - i,
{
    if i < src.len() && src[i as int] != '\n' {
        lemma_line_comment_end(src, i + 1);
    }
}

proof fn lemma_block_comment_end(src: Seq<char>, i: nat, line: nat)
    requires i <= src.len() + 2,
    ensures
        block_comment_end(src, i, line).0 >= i,
        block_comment_end(src, i, line).0 <= src.len() || block_comment_end(src, i, line).0 == i,
        block_comment_end(src, i, line).1 <= line + (block_comment_end(src, i, line).0 - i),
        block_comment_end(src, i, line).1 >= line,
    decreases src.len() - i,
{
    if i < src.len() {
        let l = if src[i as int] == '\n' { line + 1 } else { line };
        if !(src[i as int] == '*' && char_at(src, i + 1) == '/') {
            lemma_block_comment_end(src, i + 1, l);
        }
    }
}

proof fn lemma_skip_blank(src: Seq<char>, pos: nat, line: nat)
    requires pos <= src.len(),
    ensures
        pos <= skip_blank(src, pos, line).0 <= src.len(),
        line <= skip_blank(src, pos, line).1 <= line + (skip_blank(src, pos, line).0 - pos),
    decreases src.len() - pos,
{
    if pos < src.len() {
        let c = src[pos as int];
        if c == ' ' || c == '\t' || c == '\r' {
            lemma_skip_blank(src, pos + 1, line);
        } else if c == '\n' {
            lemma_skip_blank(src, pos + 1, line + 1);
        } else if c == '/' && char_at(src, pos + 1) == '/' {
            lemma_line_comment_end(src, pos);
            let e = line_comment_end(src, pos);
            if pos < e <= src.len() {
                lemma_skip_blank(src, e, line);
            }
        } else if c == '/' && char_at(src, pos + 1) == '*' {
            lemma_block_comment_end(src, pos + 2, line);
            let (e, l) = block_comment_end(src, pos + 2, line);
            if pos < e <= src.len() {
                lemma_skip_blank(src, e, l);
            }
        }
    }
}


proof fn lemma_string_body(src: Seq<char>, pos: nat, line: nat, acc: Seq<char>)
    requires pos <= src.len(),
    ensures
        string_body(src, pos, line, acc) matches Ok((s, e, l)) ==> pos < e <= src.len() && line <= l <= line + (e - pos),
    decreases src.len() - pos,
{
    if pos < src.len() && src[pos as int] != '"' {
        let c = src[pos as int];
        let l = if c == '\n' { line + 1 } else { line };
        if c == '\\' {
            if pos + 1 < src.len() {
                let e = src[pos + 1 as int];
                let add = if e == 'n' { seq!['\n'] } else if e == 't' { seq!['\t'] }
                    else if e == '\\' { seq!['\\'] } else if e == '"' { seq!['"'] }
                    else { seq!['\\', e] };
                lemma_string_body(src, pos + 2, l, acc + add);
            }
        } else {
            lemma_string_body(src, pos + 1, l, acc.push(c));
        }
    }
}

/// How a character is written inside a string literal: a tab, a newline, a backslash and a
/// double quote as their escapes `\t`, `\n`, `\\` and `\"`, any other character as itself.
pub open spec fn escape_char(c: char) -> Seq<char> {
    if c == '\t' {
        seq!['\\', 't']
    } else if c == '\n' {
        seq!['\\', 'n']
    } else if c == '\\' {
        seq!['\\', '\\']
    } else if c == '"' {
        seq!['\\', '"']
    } else {
        seq![c]
    }
}

/// The text between the quotes of a string literal that holds `s`.
pub open spec fn escaped(s: Seq<char>) -> Seq<char>
    decreases s.len(),
{
    if s.len() == 0 { Seq::empty() } else { escape_char(s[0]) + escaped(s.drop_first()) }
}

proof fn lemma_string_body_escaped(src: Seq<char>, pos: nat, line: nat, acc: Seq<char>, s: Seq<char>)
    requires
        pos + escaped(s).len() < src.len(),
        src.subrange(pos as int, (pos + escaped(s).len()) as int) == escaped(s),
        src[(pos + escaped(s).len()) as int] == '"',
    ensures
        string_body(src, pos, line, acc) == Ok::<(Seq<char>, nat, nat), LexFail>((acc + s, pos + escaped(s).len() + 1, line)),
    decreases s.len(),
{
    let w = escaped(s);
    if s.len() == 0 {
        assert(acc + s =~= acc);
    } else {
        let c = s[0];
        let e = escape_char(c);
        let t = s.drop_first();
        let r = escaped(t);
        assert(w == e + r);
        assert forall|x: int| 0 <= x < w.len() implies src[pos + x] == #[trigger] w[x] by {
            assert(src.subrange(pos as int, (pos + w.len()) as int)[x] == src[pos + x]);
        }
        assert(src.subrange((pos + e.len()) as int, (pos + e.len() + r.len()) as int) =~= r) by {
            assert forall|x: int| 0 <= x < r.len() implies
                #[trigger] src.subrange((pos + e.len()) as int, (pos + e.len() + r.len()) as int)[x] == r[x] by {
                assert(w[e.len() + x] == r[x]);
                assert(src[pos + e.len() + x] == w[e.len() + x]);
            }
        }
        assert(e.len() >= 1 && w[0] == e[0]);
        assert(src[pos as int] == e[0]);
        assert(acc + seq![c] + t =~= acc + s);
        lemma_string_body_escaped(src, (pos + e.len()) as nat, line, acc + seq![c], t);
        if e.len() == 2 {
            assert(w[1] == e[1]);
            assert(src[pos as int + 1] == e[1]);
            assert(src[pos as int] == '\\');
        } else {
            assert(acc.push(c) =~= acc + seq![c]);
        }
    }
}

/// A string literal reads back the text it writes: the source `"` + `escaped(s)` + `"`,
/// whatever follows, lexes to the string token holding exactly `s`, on the same line.
pub proof fn law_string_literal_round_trip(s: Seq<char>, rest: Seq<char>, line: nat)
    ensures
        token_at(seq!['"'] + escaped(s) + seq!['"'] + rest, 0, line)
            == Ok::<(TokenKind<Seq<char>>, nat, nat), LexFail>((TokenKind::StringLit(s), escaped(s).len() + 2, line)),
{
    let w = escaped(s);
    let src = seq!['"'] + w + seq!['"'] + rest;
    assert(src[0] == '"');
    assert(src.subrange(1, 1 + w.len() as int) =~= w);
    assert(src[1 + w.len() as int] == '"');
    lemma_string_body_escaped(src, 1, line, Seq::empty(), s);
    assert(Seq::<char>::empty() + s =~= s);
}

/// The number of newline characters in `s`.
pub open spec fn newlines(s: Seq<char>) -> nat
    decreases s.len(),
{
    if s.len() == 0 { 0 } else { (if s[0] == '\n' { 1nat } else { 0nat }) + newlines(s.drop_first()) }
}

proof fn lemma_string_body_raw(src: Seq<char>, pos: nat, line: nat, acc: Seq<char>, s: Seq<char>)
    requires
        pos + s.len() < src.len(),
        src.subrange(pos as int, (pos + s.len()) as int) == s,
        src[(pos + s.len()) as int] == '"',
        forall|x: int| 0 <= x < s.len() ==> #[trigger] s[x] != '"' && s[x] != '\\',
    ensures
        string_body(src, pos, line, acc)
            == Ok::<(Seq<char>, nat, nat), LexFail>((acc + s, pos + s.len() + 1, line + newlines(s))),
    decreases s.len(),
{
    if s.len() == 0 {
        assert(acc + s =~= acc);
    } else {
        let c = s[0];
        let t = s.drop_first();
        assert(src.subrange(pos as int, (pos + s.len()) as int)[0] == src[pos as int]);
        assert(src[pos as int] == c);
        assert(src.subrange(pos as int + 1, (pos + 1 + t.len()) as int) =~= t) by {
            assert forall|x: int| 0 <= x < t.len() implies
                #[trigger] src.subrange(pos as int + 1, (pos + 1 + t.len()) as int)[x] == t[x] by {
                assert(src.subrange(pos as int, (pos + s.len()) as int)[x + 1] == src[pos + 1 + x]);
            }
        }
        assert forall|x: int| 0 <= x < t.len() implies #[trigger] t[x] != '"' && t[x] != '\\' by {
            assert(t[x] == s[x + 1]);
        }
        let l = if c == '\n' { line + 1 } else { line };
        lemma_string_body_raw(src, pos + 1, l, acc.push(c), t);
        assert(acc.push(c) + t =~= acc + s);
    }
}

/// Text without quotes or backslashes is held as written: the source `"` + `s` + `"`,
/// whatever follows, lexes to the string token holding `s`, each newline in it counting a
/// line.
pub proof fn law_string_literal_raw_text(s: Seq<char>, rest: Seq<char>, line: nat)
    requires
        forall|x: int| 0 <= x < s.len() ==> #[trigger] s[x] != '"' && s[x] != '\\',
    ensures
        token_at(seq!['"'] + s + seq!['"'] + rest, 0, line)
            == Ok::<(TokenKind<Seq<char>>, nat, nat), LexFail>((TokenKind::StringLit(s), s.len() + 2, line + newlines(s))),
{
    let src = seq!['"'] + s + seq!['"'] + rest;
    assert(src[0] == '"');
    assert(src.subrange(1, 1 + s.len() as int) =~= s);
    assert(src[1 + s.len() as int] == '"');
    lemma_string_body_raw(src, 1, line, Seq::empty(), s);
    assert(Seq::<char>::empty() + s =~= s);
}

/// An escape other than `\n`, `\t`, `\\` and `\"` keeps its backslash: the literal
/// `"\e"` holds the two characters backslash and `e`.
pub proof fn law_other_escapes_kept(e: char, rest: Seq<char>, line: nat)
    requires
        e != 'n',
        e != 't',
        e != '\\',
        e != '"',
    ensures
        token_at(seq!['"', '\\', e, '"'] + rest, 0, line)
            == Ok::<(TokenKind<Seq<char>>, nat, nat), LexFail>((TokenKind::StringLit(seq!['\\', e]), 4, line)),
{
    let src = seq!['"', '\\', e, '"'] + rest;
    assert(src[0] == '"' && src[1] == '\\' && src[2] == e && src[3] == '"');
    assert(Seq::<char>::empty() + seq!['\\', e] =~= seq!['\\', e]);
    reveal_with_fuel(string_body, 3);
}

proof fn lemma_token_at(src: Seq<char>, p: nat, line: nat)
    requires p < src.len(),
    ensures
        token_at(src, p, line) matches Ok((k, e, l)) ==> p < e <= src.len() && line <= l <= line + (e - p),
{
    lemma_string_body(src, p + 1, line, Seq::empty());
    lemma_digits_end(src, p + 1);
    let e0 = digits_end(src, p + 1);
    if e0 < src.len() {
        lemma_digits_end(src, e0 + 1);
    }
    lemma_word_end(src, p + 1);
}

proof fn lemma_lex_from_step(src: Seq<char>, pos: nat, line: nat)
    requires pos <= src.len(),
    ensures ({
        let (p, l) = skip_blank(src, pos, line);
        &&& pos <= p <= src.len()
        &&& l <= line + (p - pos)
        &&& p < src.len() ==> match token_at(src, p, l) {
            Err(f) => lex_from(src, pos, line) == Err::<Seq<(TokenKind<Seq<char>>, Span)>, LexFail>(f),
            Ok((k, e, l2)) => {
                &&& p < e <= src.len()
                &&& l2 <= l + (e - p)
                &&& lex_from(src, pos, line) == prepend_tokens(seq![spec_token(k, p, e, l2)], lex_from(src, e, l2))
            },
        }
    }),
{
    lemma_skip_blank(src, pos, line);
    let (p, l) = skip_blank(src, pos, line);
    if p < src.len() {
        lemma_token_at(src, p, l);
    }
}

proof fn lemma_token_not_eof(src: Seq<char>, p: nat, line: nat)
    requires p < src.len(),
    ensures token_at(src, p, line) matches Ok((k, e, l)) ==> !(k is Eof),
{
}

/// A successful lexing ends with exactly one `Eof` token, the last one, and the tokens follow
/// one another through the source: each starts at or after the end of the previous one and
/// ends within the source.
pub proof fn law_tokens_end_with_eof(src: Seq<char>, pos: nat, line: nat)
    requires
        pos <= src.len(),
        src.len() <= usize::MAX,
    ensures
        lex_from(src, pos, line) matches Ok(ts) ==> {
            &&& ts.len() >= 1
            &&& ts.last().0 is Eof
            &&& forall|i: int| 0 <= i < ts.len() - 1 ==> !(#[trigger] ts[i].0 is Eof)
            &&& forall|i: int| 0 <= i < ts.len() ==> pos <= (#[trigger] ts[i]).1.start <= ts[i].1.end <= src.len()
            &&& forall|i: int| 0 <= i < ts.len() - 1 ==> (#[trigger] ts[i]).1.end <= ts[i + 1].1.start
        },
    decreases src.len() - pos,
{
    lemma_lex_from_step(src, pos, line);
    let (p, l) = skip_blank(src, pos, line);
    if p >= src.len() {
        assert(lex_from(src, pos, line) == Ok::<Seq<(TokenKind<Seq<char>>, Span)>, LexFail>(
            seq![spec_token(TokenKind::Eof, p, p, l)]));
    } else {
        lemma_token_not_eof(src, p, l);
        match token_at(src, p, l) {
            Err(_) => {},
            Ok((k, e, l2)) => {
                law_tokens_end_with_eof(src, e, l2);
                match lex_from(src, e, l2) {
                    Ok(rest) => {
                        let ts = seq![spec_token(k, p, e, l2)] + rest;
                        assert(lex_from(src, pos, line) == Ok::<Seq<(TokenKind<Seq<char>>, Span)>, LexFail>(ts));
                        assert forall|i: int| 0 <= i < ts.len() - 1 implies !(#[trigger] ts[i].0 is Eof) by {
                            if i > 0 { assert(ts[i] == rest[i - 1]); }
                        }
                        assert forall|i: int| 0 <= i < ts.len() implies pos <= (#[trigger] ts[i]).1.start <= ts[i].1.end <= src.len() by {
                            if i > 0 { assert(ts[i] == rest[i - 1]); }
                        }
                        assert forall|i: int| 0 <= i < ts.len() - 1 implies (#[trigger] ts[i]).1.end <= ts[i + 1].1.start by {
                            assert(ts[i + 1] == rest[i]);
                            if i > 0 { assert(ts[i] == rest[i - 1]); }
                        }
                        assert(ts.last() == rest.last());
                    },
                    Err(_) => {},
                }
            },
        }
    }
}

// ---------------------------------------------------------------------------
// The lexer
// ---------------------------------------------------------------------------

/// Turns source text into tokens.
pub struct Lexer {
    source: Vec<char>,
    pos: usize,
    line: usize,
}

impl Lexer {
    /// The characters being lexed.
    pub closed spec fn src(&self) -> Seq<char> {
        self.source@
    }

    /// The position of the next character to read.
    pub closed spec fn position(&self) -> nat {
        self.pos as nat
    }

    /// The current line (1-based).
    pub closed spec fn current_line(&self) -> nat {
        self.line as nat
    }

    /// The lexer's state is consistent: the position lies within the source and the
    /// line count cannot outgrow the number of characters read.
    pub closed spec fn wf(&self) -> bool {
        &&& self.pos <= self.source.len()
        &&& 1 <= self.line <= self.pos + 1
        &&& self.source.len() < usize::MAX
    }

    pub fn new(source: &str) -> (lx: Lexer)
        requires
            source@.len() < usize::MAX,
        ensures
            lx.wf(),
            lx.src() == source@,
            lx.position() == 0,
            lx.current_line() == 1,
    {
        Lexer { source: chars_of(source), pos: 0, line: 1 }
    }

    /// Reads the whole remaining input: the tokens up to and including `Eof`, or the first error.
    #[verifier::loop_isolation(false)]
    pub fn tokenize(&mut self) -> (r: Result<Vec<Token>, AudionError>)
        requires
            old(self).wf(),
        ensures
            final(self).wf(),
            final(self).src() == old(self).src(),
            lex_result_matches(r, lex_from(old(self).src(), old(self).position(), old(self).current_line())),
    {
        let ghost src = self.source@;
        let ghost pos0 = self.pos as nat;
        let ghost line0 = self.line as nat;
        let mut tokens: Vec<Token> = Vec::new();
        loop
            invariant
                self.wf(),
                self.source@ == old(self).source@,
                lex_from(src, pos0, line0) == prepend_tokens(tokens_view(tokens@), lex_from(src, self.pos as nat, self.line as nat)),
            decreases self.source.len() - self.pos,
        {
            let ghost p_before = self.pos as nat;
            let ghost l_before = self.line as nat;
            proof { lemma_lex_from_step(src, p_before, l_before); }
            self.skip_whitespace_and_comments();
            if self.is_at_end() {
                let t = self.make_token(TokenKind::Eof);
                proof {
                    lemma_tokens_view_push(tokens@, t);
                    assert(tokens_view(tokens@.push(t)) =~= tokens_view(tokens@) + seq![spec_token(TokenKind::Eof, self.pos as nat, self.pos as nat, self.line as nat)]);
                }
                tokens.push(t);
                return Ok(tokens);
            }
            let ghost p = self.pos as nat;
            let ghost l = self.line as nat;
            proof { lemma_token_at(src, p, l); }
            let token = match self.next_token() {
                Ok(t) => t,
                Err(e) => {
                    return Err(e);
                },
            };
            proof {
                lemma_tokens_view_push(tokens@, token);
                let rest = lex_from(src, self.pos as nat, self.line as nat);
                assert(prepend_tokens(tokens_view(tokens@), lex_from(src, p_before, l_before))
                    == prepend_tokens(tokens_view(tokens@.push(token)), rest)) by {
                    match rest {
                        Ok(r) => {
                            assert(tokens_view(tokens@.push(token)) + r =~= tokens_view(tokens@) + (seq![token_view(token)] + r));
                            assert(seq![token_view(token)] + r =~= seq![spec_token(kind_view(token.kind), p, self.pos as nat, self.line as nat)] + r);
                        },
                        Err(_) => {},
                    }
                }
            }
            tokens.push(token);
        }
    }

    fn next_token(&mut self) -> (r: Result<Token, AudionError>)
        requires
            old(self).wf(),
            old(self).pos < old(self).source.len(),
        ensures
            final(self).wf(),
            final(self).source@ == old(self).source@,
            match (r, token_at(old(self).source@, old(self).pos as nat, old(self).line as nat)) {
                (Ok(t), Ok((k, e, l))) => {
                    &&& token_view(t) == spec_token(k, old(self).pos as nat, e, l)
                    &&& final(self).pos == e && final(self).line == l
                },
                (Err(AudionError::LexError { msg, line }), Err((m, l))) => msg@ == m && line == l,
                _ => false,
            },
    {
        let start = self.pos;
        let ch = self.advance();
        let kind = if ch == '(' { TokenKind::LParen }
            else if ch == ')' { TokenKind::RParen }
            else if ch == '{' { TokenKind::LBrace }
            else if ch == '}' { TokenKind::RBrace }
            else if ch == '[' { TokenKind::LBracket }
            else if ch == ']' { TokenKind::RBracket }
            else if ch == ';' { TokenKind::Semicolon }
            else if ch == ',' { TokenKind::Comma }
            else if ch == ':' { if self.match_char(':') { TokenKind::ColonColon } else { TokenKind::Colon } }
            else if ch == '.' { TokenKind::Dot }
            else if ch == '+' { if self.match_char('=') { TokenKind::PlusEq } else { TokenKind::Plus } }
            else if ch == '-' { if self.match_char('=') { TokenKind::MinusEq } else { TokenKind::Minus } }
            else if ch == '*' { if self.match_char('=') { TokenKind::StarEq } else { TokenKind::Star } }
            else if ch == '/' { if self.match_char('=') { TokenKind::SlashEq } else { TokenKind::Slash } }
            else if ch == '%' { TokenKind::Percent }
            else if ch == '=' {
                if self.match_char('=') { TokenKind::EqEq }
                else if self.match_char('>') { TokenKind::FatArrow }
                else { TokenKind::Eq }
            }
            else if ch == '!' { if self.match_char('=') { TokenKind::BangEq } else { TokenKind::Bang } }
            else if ch == '<' {
                if self.match_char('=') { TokenKind::LtEq }
                else if self.match_char('<') { TokenKind::LtLt }
                else { TokenKind::Lt }
            }
            else if ch == '>' {
                if self.match_char('=') { TokenKind::GtEq }
                else if self.match_char('>') { TokenKind::GtGt }
                else { TokenKind::Gt }
            }
            else if ch == '&' { if self.match_char('&') { TokenKind::And } else { TokenKind::Ampersand } }
            else if ch == '|' { if self.match_char('|') { TokenKind::Or } else { TokenKind::Pipe } }
            else if ch == '^' { TokenKind::Caret }
            else if ch == '~' { TokenKind::Tilde }
            else if ch == '"' {
                match self.read_string() {
                    Ok(k) => k,
                    Err(e) => { return Err(e); },
                }
            }
            else if '0' <= ch && ch <= '9' { self.read_number(start) }
            else if ('a' <= ch && ch <= 'z') || ('A' <= ch && ch <= 'Z') || ch == '_' { self.read_identifier(start) }
            else {
                let mut msg = String::from_str("unexpected character '");
                msg.push(ch);
                msg.append("'");
                return Err(AudionError::LexError { msg, line: self.line });
            };
        Ok(Token { kind, span: Span { start, end: self.pos, line: self.line } })
    }

    /// Reads a string literal whose opening quote has been consumed.
    #[verifier::loop_isolation(false)]
    fn read_string(&mut self) -> (r: Result<TokenKind<String>, AudionError>)
        requires
            old(self).wf(),
        ensures
            final(self).wf(),
            final(self).source@ == old(self).source@,
            match (r, string_body(old(self).source@, old(self).pos as nat, old(self).line as nat, Seq::empty())) {
                (Ok(k), Ok((s, e, l))) => {
                    &&& kind_view(k) == TokenKind::StringLit(s)
                    &&& final(self).pos == e && final(self).line == l
                },
                (Err(AudionError::LexError { msg, line }), Err((m, l))) => msg@ == m && line == l,
                _ => false,
            },
    {
        let ghost src = self.source@;
        let ghost want = string_body(src, self.pos as nat, self.line as nat, Seq::empty());
        let mut s = String::new();
        while !self.is_at_end() && self.peek() != '"'
            invariant
                self.wf(),
                self.source@ == old(self).source@,
                string_body(src, self.pos as nat, self.line as nat, s@) == want,
            decreases self.source.len() - self.pos,
        {
            if self.peek() == '\n' {
                self.line += 1;
            }
            if self.peek() == '\\' {
                self.advance();
                if self.is_at_end() {
                    return Err(AudionError::LexError {
                        msg: String::from_str("unterminated string escape"),
                        line: self.line,
                    });
                }
                let e = self.advance();
                let ghost acc = s@;
                if e == 'n' {
                    s.push('\n');
                    assert(s@ =~= acc + seq!['\n']);
                } else if e == 't' {
                    s.push('\t');
                    assert(s@ =~= acc + seq!['\t']);
                } else if e == '\\' {
                    s.push('\\');
                    assert(s@ =~= acc + seq!['\\']);
                } else if e == '"' {
                    s.push('"');
                    assert(s@ =~= acc + seq!['"']);
                } else {
                    s.push('\\');
                    s.push(e);
                    assert(s@ =~= acc + seq!['\\', e]);
                }
            } else {
                let c = self.advance();
                s.push(c);
            }
        }
        if self.is_at_end() {
            return Err(AudionError::LexError {
                msg: String::from_str("unterminated string"),
                line: self.line,
            });
        }
        self.advance();
        Ok(TokenKind::StringLit(s))
    }

    /// Reads a number literal whose first digit, at `start`, has been consumed.
    fn read_number(&mut self, start: usize) -> (k: TokenKind<String>)
        requires
            old(self).wf(),
            old(self).pos == start + 1,
            start < old(self).source.len(),
        ensures
            final(self).wf(),
            final(self).source@ == old(self).source@,
            final(self).line == old(self).line,
            final(self).pos == number_end(old(self).source@, start as nat),
            kind_view(k) == TokenKind::Number(old(self).source@.subrange(start as int, final(self).pos as int)),
    {
        let ghost src = self.source@;
        self.skip_digits();
        let ghost e = self.pos as nat;
        if !self.is_at_end() && self.peek() == '.' && is_digit_char(self.peek_next()) {
            self.advance();
            self.skip_digits();
        }
        let text = string_of_range(&self.source, start, self.pos);
        TokenKind::Number(text)
    }

    /// Consumes digits.
    #[verifier::loop_isolation(false)]
    fn skip_digits(&mut self)
        requires
            old(self).wf(),
        ensures
            final(self).wf(),
            final(self).source@ == old(self).source@,
            final(self).line == old(self).line,
            final(self).pos == digits_end(old(self).source@, old(self).pos as nat),
            final(self).pos >= old(self).pos,
    {
        proof { lemma_digits_end(self.source@, self.pos as nat); }
        let ghost src = self.source@;
        let ghost want = digits_end(src, self.pos as nat);
        while !self.is_at_end() && is_digit_char(self.peek())
            invariant
                self.wf(),
                self.source@ == old(self).source@,
                self.line == old(self).line,
                self.pos >= old(self).pos,
                src == old(self).source@,
                digits_end(src, self.pos as nat) == want,
            decreases self.source.len() - self.pos,
        {
            self.advance();
        }
    }

    /// Reads an identifier or keyword whose first character, at `start`, has been consumed.
    #[verifier::loop_isolation(false)]
    fn read_identifier(&mut self, start: usize) -> (k: TokenKind<String>)
        requires
            old(self).wf(),
            old(self).pos == start + 1,
            start < old(self).source.len(),
        ensures
            final(self).wf(),
            final(self).source@ == old(self).source@,
            final(self).line == old(self).line,
            final(self).pos == word_end(old(self).source@, start as nat + 1),
            kind_view(k) == keyword_kind(old(self).source@.subrange(start as int, final(self).pos as int)),
    {
        let ghost src = self.source@;
        let ghost want = word_end(src, self.pos as nat);
        while !self.is_at_end() && is_word_char(self.peek())
            invariant
                self.wf(),
                self.source@ == old(self).source@,
                self.line == old(self).line,
                self.pos >= old(self).pos,
                src == old(self).source@,
                word_end(src, self.pos as nat) == want,
            decreases self.source.len() - self.pos,
        {
            self.advance();
        }
        let text = string_of_range(&self.source, start, self.pos);
        keyword_or_ident(text)
    }

    #[verifier::loop_isolation(false)]
    fn skip_whitespace_and_comments(&mut self)
        requires
            old(self).wf(),
        ensures
            final(self).wf(),
            final(self).source@ == old(self).source@,
            (final(self).pos as nat, final(self).line as nat)
                == skip_blank(old(self).source@, old(self).pos as nat, old(self).line as nat),
    {
        let ghost src = self.source@;
        let ghost want = skip_blank(src, self.pos as nat, self.line as nat);
        loop
            invariant
                self.wf(),
                self.source@ == old(self).source@,
                skip_blank(src, self.pos as nat, self.line as nat) == want,
            decreases self.source.len() - self.pos,
        {
            if self.is_at_end() {
                return;
            }
            let c = self.peek();
            if c == ' ' || c == '\t' || c == '\r' {
                self.advance();
            } else if c == '\n' {
                self.line += 1;
                self.advance();
            } else if c == '/' {
                if self.peek_next() == '/' {
                    let ghost p0 = self.pos as nat;
                    let ghost l0 = self.line;
                    proof { lemma_line_comment_end(src, p0 + 1); }
                    while !self.is_at_end() && self.peek() != '\n'
                        invariant
                            self.wf(),
                            self.source@ == old(self).source@,
                            self.line == l0,
                            p0 <= self.pos,
                            line_comment_end(src, self.pos as nat) == line_comment_end(src, p0),
                        decreases self.source.len() - self.pos,
                    {
                        self.advance();
                    }
                    assert(line_comment_end(src, p0) == line_comment_end(src, p0 + 1));
                } else if self.peek_next() == '*' {
                    let ghost p0 = self.pos as nat;
                    let ghost l0 = self.line as nat;
                    self.advance();
                    self.advance();
                    let ghost bwant = block_comment_end(src, self.pos as nat, self.line as nat);
                    proof { lemma_block_comment_end(src, self.pos as nat, self.line as nat); }
                    #[verifier::loop_isolation(true)]
                    loop
                        invariant_except_break
                            block_comment_end(src, self.pos as nat, self.line as nat) == bwant,
                        invariant
                            self.wf(),
                            self.source@ == old(self).source@,
                            src == old(self).source@,
                            p0 + 2 <= self.pos,
                        ensures
                            (self.pos as nat, self.line as nat) == bwant,
                        decreases self.source.len() - self.pos,
                    {
                        if self.is_at_end() {
                            break;
                        }
                        if self.peek() == '\n' {
                            self.line += 1;
                        }
                        if self.peek() == '*' && self.peek_next() == '/' {
                            self.advance();
                            self.advance();
                            break;
                        }
                        self.advance();
                    }
                } else {
                    return;
                }
            } else {
                return;
            }
        }
    }

    fn advance(&mut self) -> (c: char)
        requires
            old(self).pos < old(self).source.len(),
        ensures
            c == old(self).source@[old(self).pos as int],
            final(self).pos == old(self).pos + 1,
            final(self).line == old(self).line,
            final(self).source == old(self).source,
    {
        let ch = self.source[self.pos];
        self.pos += 1;
        ch
    }

    fn peek(&self) -> (c: char)
        ensures c == char_at(self.source@, self.pos as nat),
    {
        if self.is_at_end() { '\0' } else { self.source[self.pos] }
    }

    fn peek_next(&self) -> (c: char)
        requires self.pos < usize::MAX,
        ensures c == char_at(self.source@, self.pos as nat + 1),
    {
        if self.pos + 1 >= self.source.len() { '\0' } else { self.source[self.pos + 1] }
    }

    fn match_char(&mut self, expected: char) -> (r: bool)
        requires
            old(self).pos <= old(self).source.len(),
        ensures
            r == (old(self).pos < old(self).source.len() && old(self).source@[old(self).pos as int] == expected),
            final(self).pos == if r { old(self).pos + 1 } else { old(self).pos as int },
            final(self).line == old(self).line,
            final(self).source == old(self).source,
    {
        if self.is_at_end() || self.source[self.pos] != expected {
            false
        } else {
            self.pos += 1;
            true
        }
    }

    fn is_at_end(&self) -> (r: bool)
        ensures r == (self.pos >= self.source.len()),
    {
        self.pos >= self.source.len()
    }

    fn make_token(&self, kind: TokenKind<String>) -> (t: Token)
        ensures
            t.kind == kind,
            t.span == (Span { start: self.pos, end: self.pos, line: self.line }),
    {
        Token { kind, span: Span { start: self.pos, end: self.pos, line: self.line } }
    }
}

/// Prepends `prefix` to a successful result; leaves an error as it is.
pub open spec fn prepend_tokens(
    prefix: Seq<(TokenKind<Seq<char>>, Span)>,
    r: Result<Seq<(TokenKind<Seq<char>>, Span)>, LexFail>,
) -> Result<Seq<(TokenKind<Seq<char>>, Span)>, LexFail> {
    match r {
        Ok(s) => Ok(prefix + s),
        Err(f) => Err(f),
    }
}

proof fn lemma_tokens_view_push(ts: Seq<Token>, t: Token)
    ensures tokens_view(ts.push(t)) == tokens_view(ts).push(token_view(t)),
{
    assert(tokens_view(ts.push(t)) =~= tokens_view(ts).push(token_view(t)));
}

fn is_digit_char(c: char) -> (r: bool)
    ensures r == is_digit(c),
{
    '0' <= c && c <= '9'
}

fn is_word_char(c: char) -> (r: bool)
    ensures r == is_word(c),
{
    ('0' <= c && c <= '9') || ('a' <= c && c <= 'z') || ('A' <= c && c <= 'Z') || c == '_'
}

/// The keyword spelled by `text`, or an identifier.
fn keyword_or_ident(text: String) -> (k: TokenKind<String>)
    ensures kind_view(k) == keyword_kind(text@),
{
    let t = text.as_str();
    if crate::text::str_eq(t, "fn") { TokenKind::Fn }
    else if crate::text::str_eq(t, "let") { TokenKind::Let }
    else if crate::text::str_eq(t, "if") { TokenKind::If }
    else if crate::text::str_eq(t, "else") { TokenKind::Else }
    else if crate::text::str_eq(t, "while") { TokenKind::While }
    else if crate::text::str_eq(t, "loop") { TokenKind::Loop }
    else if crate::text::str_eq(t, "for") { TokenKind::For }
    else if crate::text::str_eq(t, "return") { TokenKind::Return }
    else if crate::text::str_eq(t, "thread") { TokenKind::Thread }
    else if crate::text::str_eq(t, "define") { TokenKind::Define }
    else if crate::text::str_eq(t, "break") { TokenKind::Break }
    else if crate::text::str_eq(t, "continue") { TokenKind::Continue }
    else if crate::text::str_eq(t, "this") { TokenKind::This }
    else if crate::text::str_eq(t, "include") { TokenKind::Include }
    else if crate::text::str_eq(t, "as") { TokenKind::As }
    else if crate::text::str_eq(t, "using") { TokenKind::Using }
    else if crate::text::str_eq(t, "true") { TokenKind::True }
    else if crate::text::str_eq(t, "false") { TokenKind::False }
    else if crate::text::str_eq(t, "nil") { TokenKind::Nil }
    else { TokenKind::Ident(text) }
}

} // verus!
