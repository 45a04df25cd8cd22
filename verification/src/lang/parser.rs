//! The parser of the build language: characters to tokens, tokens to
//! expression nodes.
use vstd::prelude::*;

use crate::immap::{has_entry, ImMap};
use crate::lang::error::{Error, ErrorType};
use crate::lang::eval::{err_msg, err_name, grown, lemma_set_ok_mono, only_pushed};
use crate::lang::expr::{
    lemma_extends_trans, lemma_items_ok_iff, lemma_matcher_ok_mono, lemma_matchers_ok_iff,
    matcher_ok, opt_ok, set_ok, stmts_ok, tok_ok, vec_ok, Expr, ExprBinOp, ExprMapType, ExprPool,
    ExprSourceRef, ExprType, ExprUnOp, Matcher,
};
use crate::stringdecode::{string_decode, StringType};
use crate::text::{char_is_alpha, char_is_digit, chars_of, is_alpha, is_digit, push_char, str_eq,
    string_of, to_owned_string};
use crate::value::{all_digits, digits_value, ParsableValue, Value};

verus! {

/// A token of the language.
#[derive(Debug)]
pub enum Tok {
    Ident(String),
    Int(String),
    /// The characters between the quotes of a string literal, escapes as
    /// written.
    Str(String),
    Let,
    In,
    Bind,
    True,
    False,
    LBrace,
    RBrace,
    LBrack,
    RBrack,
    LParen,
    RParen,
    Comma,
    Semi,
    Assign,
    Pipe,
    At,
    Question,
    Dot,
    DotDot,
    Ellipsis,
    Arrow,
    Plus,
    Minus,
    Star,
    Slash,
    Update,
    Concat,
    Bang,
    And,
    Or,
    Impl,
    Lt,
    Le,
    Gt,
    Ge,
    EqEq,
    Neq,
}

/// A token and the span of characters it was read from.
#[derive(Debug)]
pub struct Token {
    pub tok: Tok,
    pub left: usize,
    pub right: usize,
}

/// Characters that may continue an identifier.
pub open spec fn is_ident_char(c: char) -> bool {
    is_alpha(c) || is_digit(c) || c == '_'
}

/// Characters that separate tokens.
pub open spec fn is_space(c: char) -> bool {
    c == ' ' || c == '\n' || c == '\t' || c == '\r'
}

fn char_is_ident(c: char) -> (res: bool)
    ensures
        res == is_ident_char(c),
{
    char_is_alpha(c) || char_is_digit(c) || c == '_'
}

fn keyword_or_ident(word: Vec<char>) -> (res: Tok)
    ensures
        is_keyword(word@) ==> is_keyword_kind(tok_kind(res)) && fixed_text(tok_kind(res)) == word@,
        !is_keyword(word@) ==> (res matches Tok::Ident(x) && x@ == word@),
{
    proof {
        reveal_strlit("let");
        reveal_strlit("in");
        reveal_strlit("bind");
        reveal_strlit("true");
        reveal_strlit("false");
        assert("let"@ =~= fixed_text(TokKind::Let));
        assert("in"@ =~= fixed_text(TokKind::In));
        assert("bind"@ =~= fixed_text(TokKind::Bind));
        assert("true"@ =~= fixed_text(TokKind::True));
        assert("false"@ =~= fixed_text(TokKind::False));
    }
    let s = string_of(&word);
    if str_eq(s.as_str(), "let") {
        Tok::Let
    } else if str_eq(s.as_str(), "in") {
        Tok::In
    } else if str_eq(s.as_str(), "bind") {
        Tok::Bind
    } else if str_eq(s.as_str(), "true") {
        Tok::True
    } else if str_eq(s.as_str(), "false") {
        Tok::False
    } else {
        Tok::Ident(s)
    }
}

proof fn lemma_no_punct(cs: Seq<char>, i: int)
    requires
        0 <= i < cs.len(),
        !(cs[i] == '{' || cs[i] == '}' || cs[i] == '[' || cs[i] == ']' || cs[i] == '(' || cs[i] == ')' || cs[i] == ','
            || cs[i] == ';' || cs[i] == '@' || cs[i] == '?' || cs[i] == '*' || cs[i] == '.' || cs[i] == '|' || cs[i] == '='
            || cs[i] == '!' || cs[i] == '<' || cs[i] == '>' || cs[i] == '-' || cs[i] == '+' || cs[i] == '/'),
        cs[i] == '&' ==> !(i + 1 < cs.len() && cs[i + 1] == '&'),
    ensures
        !punct_at(cs, i),
{
    assert forall|k: TokKind| is_punct_kind(k) && i + fixed_text(k).len() <= cs.len() implies #[trigger] cs.subrange(
        i,
        i + fixed_text(k).len(),
    ) != fixed_text(k) by {
        let t = fixed_text(k);
        if cs.subrange(i, i + t.len()) == t {
            assert(t.len() > 0);
            assert(cs[i] == t[0]);
            if k == TokKind::And {
                assert(cs[i + 1] == t[1]);
            }
        }
    }
}

/// The punctuation token at `i`, with its length.
fn punct(cs: &Vec<char>, i: usize) -> (res: Option<(Tok, usize)>)
    requires
        i < cs@.len(),
    ensures
        res matches Some((_, n)) ==> 1 <= n <= 3 && i + n <= cs@.len(),
        res matches Some((t, n)) ==> !(t is Ident || t is Int || t is Str) && !is_keyword_kind(tok_kind(t))
            && cs@.subrange(i as int, i + n) == fixed_text(tok_kind(t)) && !(i + n < cs@.len() && punct_longer(
            tok_kind(t),
            cs@[i + n],
        )),
        res is None ==> !punct_at(cs@, i as int),
{
    let c = cs[i];
    let avail = cs.len() - i;
    let next: char = if avail > 1 { cs[i + 1] } else { ' ' };
    let third: char = if avail > 2 { cs[i + 2] } else { ' ' };
    if c == '{' {
        Some((Tok::LBrace, 1))
    } else if c == '}' {
        Some((Tok::RBrace, 1))
    } else if c == '[' {
        Some((Tok::LBrack, 1))
    } else if c == ']' {
        Some((Tok::RBrack, 1))
    } else if c == '(' {
        Some((Tok::LParen, 1))
    } else if c == ')' {
        Some((Tok::RParen, 1))
    } else if c == ',' {
        Some((Tok::Comma, 1))
    } else if c == ';' {
        Some((Tok::Semi, 1))
    } else if c == '@' {
        Some((Tok::At, 1))
    } else if c == '?' {
        Some((Tok::Question, 1))
    } else if c == '*' {
        Some((Tok::Star, 1))
    } else if c == '.' {
        if next == '.' && third == '.' && avail > 2 {
            Some((Tok::Ellipsis, 3))
        } else if next == '.' && avail > 1 {
            Some((Tok::DotDot, 2))
        } else {
            Some((Tok::Dot, 1))
        }
    } else if c == '|' {
        if next == '|' && avail > 1 {
            Some((Tok::Or, 2))
        } else {
            Some((Tok::Pipe, 1))
        }
    } else if c == '&' {
        if next == '&' && avail > 1 {
            Some((Tok::And, 2))
        } else {
            proof { lemma_no_punct(cs@, i as int); }
            None
        }
    } else if c == '=' {
        if next == '=' && avail > 1 {
            Some((Tok::EqEq, 2))
        } else {
            Some((Tok::Assign, 1))
        }
    } else if c == '!' {
        if next == '=' && avail > 1 {
            Some((Tok::Neq, 2))
        } else {
            Some((Tok::Bang, 1))
        }
    } else if c == '<' {
        if next == '=' && avail > 1 {
            Some((Tok::Le, 2))
        } else if next == '-' && avail > 1 {
            Some((Tok::Arrow, 2))
        } else {
            Some((Tok::Lt, 1))
        }
    } else if c == '>' {
        if next == '=' && avail > 1 {
            Some((Tok::Ge, 2))
        } else {
            Some((Tok::Gt, 1))
        }
    } else if c == '-' {
        if next == '>' && avail > 1 {
            Some((Tok::Impl, 2))
        } else {
            Some((Tok::Minus, 1))
        }
    } else if c == '+' {
        if next == '+' && avail > 1 {
            Some((Tok::Concat, 2))
        } else {
            Some((Tok::Plus, 1))
        }
    } else if c == '/' {
        if next == '/' && avail > 1 {
            Some((Tok::Update, 2))
        } else {
            Some((Tok::Slash, 1))
        }
    } else {
        proof { lemma_no_punct(cs@, i as int); }
        None
    }
}

proof fn lemma_str_body_push(b: Seq<char>, c: char)
    requires
        str_body_ok(b),
        c != '"',
        c != '\\',
    ensures
        str_body_ok(b.push(c)),
    decreases b.len(),
{
    if b.len() == 0 {
        assert(b.push(c).drop_first() =~= Seq::<char>::empty());
        assert(str_body_ok(b.push(c).drop_first()));
        assert(b.push(c)[0] == c);
    } else if b[0] == '\\' {
        lemma_str_body_push(b.skip(2), c);
        assert(b.push(c).skip(2) =~= b.skip(2).push(c));
    } else {
        lemma_str_body_push(b.drop_first(), c);
        assert(b.push(c).drop_first() =~= b.drop_first().push(c));
    }
}

proof fn lemma_str_body_escape(b: Seq<char>, x: char)
    requires
        str_body_ok(b),
    ensures
        str_body_ok(b.push('\\').push(x)),
    decreases b.len(),
{
    let e = b.push('\\').push(x);
    if b.len() == 0 {
        assert(e.skip(2) =~= Seq::<char>::empty());
        assert(str_body_ok(e.skip(2)));
        assert(e[0] == '\\');
    } else if b[0] == '\\' {
        lemma_str_body_escape(b.skip(2), x);
        assert(e.skip(2) =~= b.skip(2).push('\\').push(x));
    } else {
        lemma_str_body_escape(b.drop_first(), x);
        assert(e.drop_first() =~= b.drop_first().push('\\').push(x));
    }
}

/// The tokens `v` read so far from the first `i` characters of `code`.
pub open spec fn lex_inv(code: Seq<char>, v: Seq<Token>, i: int) -> bool {
    &&& 0 <= i <= code.len()
    &&& forall|k: int| 0 <= k < v.len() ==> #[trigger] v[k].right <= i
    &&& forall|a: int, b: int| 0 <= a < b < v.len() ==> #[trigger] v[a].right <= #[trigger] v[b].left
    &&& forall|k: int| 0 <= k < v.len() ==> #[trigger] token_ok(code, v[k])
    &&& forall|p: int| 0 <= p < i && outside(v, p) ==> is_space(#[trigger] code[p]) || in_comment(code, v, p)
    &&& forall|q: int, k: int| 0 <= q < code.len() && 0 <= k < v.len() && outside(v, q) && #[trigger] code[q] == '#'
        && q < #[trigger] v[k].left ==> exists|r: int| q < r < v[k].left && code[r] == '\n'
    &&& forall|q: int| 0 <= q < i && outside(v, q) && #[trigger] code[q] == '#' ==> i == code.len() || exists|r: int|
        q < r <= i && r < code.len() && code[r] == '\n'
}

proof fn lemma_outside_push(v: Seq<Token>, t: Token, p: int)
    requires
        p < t.left,
    ensures
        outside(v.push(t), p) <==> outside(v, p),
{
    if outside(v, p) {
        assert forall|k: int| 0 <= k < v.push(t).len() implies !(v.push(t)[k].left <= p < #[trigger] v.push(t)[k].right) by {
            if k < v.len() {
                assert(v.push(t)[k] == v[k]);
            }
        }
    }
    if outside(v.push(t), p) {
        assert forall|k: int| 0 <= k < v.len() implies !(v[k].left <= p < #[trigger] v[k].right) by {
            assert(v.push(t)[k] == v[k]);
        }
    }
}

proof fn lemma_lex_space(code: Seq<char>, v: Seq<Token>, i: int)
    requires
        lex_inv(code, v, i),
        i < code.len(),
        is_space(code[i]),
    ensures
        lex_inv(code, v, i + 1),
{
    assert forall|q: int| 0 <= q < i + 1 && outside(v, q) && #[trigger] code[q] == '#' implies i + 1 == code.len() || exists|r: int|
        q < r <= i + 1 && r < code.len() && code[r] == '\n' by {
        if q < i && i != code.len() {
            let r = choose|r: int| q < r <= i && r < code.len() && code[r] == '\n';
            assert(q < r <= i + 1);
        }
    }
}

proof fn lemma_lex_comment(code: Seq<char>, v: Seq<Token>, start: int, i: int)
    requires
        lex_inv(code, v, start),
        start < i <= code.len(),
        code[start] == '#',
        forall|r: int| start <= r < i ==> code[r] != '\n',
        i == code.len() || code[i] == '\n',
        forall|k: int| 0 <= k < v.len() ==> v[k].right <= start,
    ensures
        lex_inv(code, v, i),
{
    assert(outside(v, start)) by {
        assert forall|k: int| 0 <= k < v.len() implies !(v[k].left <= start < #[trigger] v[k].right) by {}
    }
    assert forall|p: int| 0 <= p < i && outside(v, p) implies is_space(#[trigger] code[p]) || in_comment(code, v, p) by {
        if p >= start {
            assert(forall|r: int| start <= r <= p ==> code[r] != '\n');
            assert(0 <= start <= p && outside(v, start) && code[start] == '#');
        }
    }
    assert forall|q: int| 0 <= q < i && outside(v, q) && #[trigger] code[q] == '#' implies i == code.len() || exists|r: int|
        q < r <= i && r < code.len() && code[r] == '\n' by {
        if i != code.len() {
            assert(q < i && i < code.len() && code[i] == '\n');
        }
    }
}

proof fn lemma_lex_token(code: Seq<char>, v: Seq<Token>, t: Token)
    requires
        lex_inv(code, v, t.left as int),
        token_ok(code, t),
        code[t.left as int] != '\n',
    ensures
        lex_inv(code, v.push(t), t.right as int),
{
    let w = v.push(t);
    let i = t.left as int;
    let j = t.right as int;
    assert forall|p: int| i <= p < j implies !outside(w, p) by {
        assert(w[v.len() as int] == t);
    }
    assert forall|k: int| 0 <= k < w.len() implies #[trigger] w[k].right <= j by {
        if k < v.len() {
            assert(w[k] == v[k]);
        }
    }
    assert forall|a: int, b: int| 0 <= a < b < w.len() implies #[trigger] w[a].right <= #[trigger] w[b].left by {
        assert(w[a] == v[a]);
        if b < v.len() {
            assert(w[b] == v[b]);
        }
    }
    assert forall|k: int| 0 <= k < w.len() implies #[trigger] token_ok(code, w[k]) by {
        if k < v.len() {
            assert(w[k] == v[k]);
        }
    }
    assert forall|p: int| 0 <= p < j && outside(w, p) implies is_space(#[trigger] code[p]) || in_comment(code, w, p) by {
        lemma_outside_push(v, t, p);
        if !is_space(code[p]) {
            assert(in_comment(code, v, p));
            let q = choose|q: int| 0 <= q <= p && outside(v, q) && #[trigger] code[q] == '#' && forall|r: int| q <= r <= p
                ==> code[r] != '\n';
            lemma_outside_push(v, t, q);
            assert(0 <= q <= p && outside(w, q) && code[q] == '#');
        }
    }
    assert forall|q: int, k: int| 0 <= q < code.len() && 0 <= k < w.len() && outside(w, q) && #[trigger] code[q] == '#'
        && q < #[trigger] w[k].left implies exists|r: int| q < r < w[k].left && code[r] == '\n' by {
        if q < i {
            lemma_outside_push(v, t, q);
        } else if q >= j {
            assert(k < v.len() ==> w[k] == v[k]);
            assert(w[v.len() as int] == t);
            if k < v.len() {
                assert(v[k].right <= i);
            }
        }
        if k < v.len() {
            assert(w[k] == v[k]);
        } else {
            assert(w[k] == t);
            let r = choose|r: int| q < r <= i && r < code.len() && code[r] == '\n';
            assert(r != i);
        }
    }
    assert forall|q: int| 0 <= q < j && outside(w, q) && #[trigger] code[q] == '#' implies j == code.len() || exists|r: int|
        q < r <= j && r < code.len() && code[r] == '\n' by {
        lemma_outside_push(v, t, q);
        if j != code.len() && i != code.len() {
            let r = choose|r: int| q < r <= i && r < code.len() && code[r] == '\n';
            assert(q < r <= j);
        }
    }
}

/// Splits source text into tokens; `#` starts a comment to the end of the
/// line. An error for a character that starts no token and for a string
/// that is not closed.
#[verifier::loop_isolation(false)]
pub fn tokenize(code: &str, file: usize) -> (res: Result<Vec<Token>, Error>)
    ensures
        res matches Err(e) ==> e.typ == ErrorType::Parse,
        res matches Ok(v) ==> forall|i: int| 0 <= i < v@.len() ==> #[trigger] v@[i].left < v@[i].right <= code@.len(),
        res matches Ok(v) ==> tokens_of(code@, v@),
        res is Err ==> exists|p: int, v: Seq<Token>| 0 <= p < code@.len() && lex_inv(code@, v, p) && stuck_at(code@, p),
{
    let cs = chars_of(code);
    let mut out: Vec<Token> = Vec::new();
    let mut i: usize = 0;
    while i < cs.len()
        invariant
            i <= cs@.len(),
            cs@ == code@,
            lex_inv(code@, out@, i as int),
        decreases cs.len() - i,
    {
        let c = cs[i];
        if c == ' ' || c == '\n' || c == '\t' || c == '\r' {
            proof { lemma_lex_space(code@, out@, i as int); }
            i = i + 1;
        } else if c == '#' {
            let start = i;
            i = i + 1;
            while i < cs.len() && cs[i] != '\n'
                invariant
                    start < i <= cs@.len(),
                    forall|r: int| start <= r < i ==> cs@[r] != '\n',
                decreases cs.len() - i,
            {
                i = i + 1;
            }
            proof { lemma_lex_comment(code@, out@, start as int, i as int); }
        } else if c == '"' {
            let start = i;
            let mut body: Vec<char> = Vec::new();
            i = i + 1;
            let mut closed = false;
            while i < cs.len() && !closed
                invariant
                    start < i <= cs@.len(),
                    closed || i < cs@.len() ==> str_body_ok(body@),
                    !closed ==> body@ == cs@.subrange(start + 1, i as int),
                    closed ==> i - 1 > start && body@ == cs@.subrange(start + 1, i - 1) && cs@[i - 1] == '"',
                    !closed ==> never_closes(cs@.skip(start + 1)) == never_closes(cs@.skip(i as int)),
                decreases cs.len() - i,
            {
                let ghost tail = cs@.skip(i as int);
                let d = cs[i];
                if d == '"' {
                    closed = true;
                    i = i + 1;
                } else if d == '\\' && cs.len() - i > 1 {
                    proof {
                        lemma_str_body_escape(body@, cs@[i + 1]);
                        assert(tail.skip(2) =~= cs@.skip(i + 2));
                    }
                    body.push(d);
                    body.push(cs[i + 1]);
                    proof { assert(body@ =~= cs@.subrange(start + 1, i + 2)); }
                    i = i + 2;
                } else {
                    if d != '\\' {
                        proof {
                            lemma_str_body_push(body@, d);
                            assert(tail.drop_first() =~= cs@.skip(i + 1));
                        }
                    } else {
                        proof {
                            assert(tail.len() == 1);
                            assert(cs@.skip(i + 1) =~= Seq::<char>::empty());
                        }
                    }
                    body.push(d);
                    proof { assert(body@ =~= cs@.subrange(start + 1, i + 1)); }
                    i = i + 1;
                }
            }
            if !closed {
                proof {
                    assert(cs@.skip(i as int) =~= Seq::<char>::empty());
                    assert(stuck_at(code@, start as int));
                }
                return Err(err_msg(ErrorType::Parse, "Unterminated string").loc(start, i, file));
            }
            let t = Token { tok: Tok::Str(string_of(&body)), left: start, right: i };
            proof {
                let s = code@.subrange(start as int, i as int);
                assert(s.subrange(1, s.len() - 1) =~= body@);
                lemma_lex_token(code@, out@, t);
            }
            out.push(t);
        } else if char_is_digit(c) {
            let start = i;
            let mut word: Vec<char> = Vec::new();
            word.push(c);
            i = i + 1;
            while i < cs.len() && char_is_digit(cs[i])
                invariant
                    start < i <= cs@.len(),
                    word@ == cs@.subrange(start as int, i as int),
                    forall|j: int| 0 <= j < word@.len() ==> is_digit(#[trigger] word@[j]),
                decreases cs.len() - i,
            {
                word.push(cs[i]);
                i = i + 1;
            }
            let t = Token { tok: Tok::Int(string_of(&word)), left: start, right: i };
            proof { lemma_lex_token(code@, out@, t); }
            out.push(t);
        } else if char_is_alpha(c) || c == '_' {
            let start = i;
            let mut word: Vec<char> = Vec::new();
            word.push(c);
            i = i + 1;
            while i < cs.len() && char_is_ident(cs[i])
                invariant
                    start < i <= cs@.len(),
                    word@ == cs@.subrange(start as int, i as int),
                    word@[0] == c,
                    forall|j: int| 0 <= j < word@.len() ==> is_ident_char(#[trigger] word@[j]),
                decreases cs.len() - i,
            {
                word.push(cs[i]);
                i = i + 1;
            }
            let t = Token { tok: keyword_or_ident(word), left: start, right: i };
            proof { lemma_lex_token(code@, out@, t); }
            out.push(t);
        } else {
            match punct(&cs, i) {
                Some((t, n)) => {
                    let tk = Token { tok: t, left: i, right: i + n };
                    proof { lemma_lex_token(code@, out@, tk); }
                    out.push(tk);
                    i = i + n;
                },
                None => {
                    proof { assert(stuck_at(code@, i as int)); }
                    return Err(err_msg(ErrorType::Parse, "Invalid token").loc(i, i, file));
                },
            }
        }
    }
    proof {
        assert forall|k: int| 0 <= k < out@.len() implies #[trigger] out@[k].left < out@[k].right <= code@.len() by {
            assert(token_ok(code@, out@[k]));
        }
    }
    Ok(out)
}

/// Token kinds, without their text.
#[derive(Debug, PartialEq, Eq, Structural, Clone, Copy)]
pub enum TokKind {
    Ident,
    Int,
    Str,
    Let,
    In,
    Bind,
    True,
    False,
    LBrace,
    RBrace,
    LBrack,
    RBrack,
    LParen,
    RParen,
    Comma,
    Semi,
    Assign,
    Pipe,
    At,
    Question,
    Dot,
    DotDot,
    Ellipsis,
    Arrow,
    Plus,
    Minus,
    Star,
    Slash,
    Update,
    Concat,
    Bang,
    And,
    Or,
    Impl,
    Lt,
    Le,
    Gt,
    Ge,
    EqEq,
    Neq,
}

/// The kind of a token.
pub open spec fn tok_kind(t: Tok) -> TokKind {
    match t {
        Tok::Ident(_) => TokKind::Ident,
        Tok::Int(_) => TokKind::Int,
        Tok::Str(_) => TokKind::Str,
        Tok::Let => TokKind::Let,
        Tok::In => TokKind::In,
        Tok::Bind => TokKind::Bind,
        Tok::True => TokKind::True,
        Tok::False => TokKind::False,
        Tok::LBrace => TokKind::LBrace,
        Tok::RBrace => TokKind::RBrace,
        Tok::LBrack => TokKind::LBrack,
        Tok::RBrack => TokKind::RBrack,
        Tok::LParen => TokKind::LParen,
        Tok::RParen => TokKind::RParen,
        Tok::Comma => TokKind::Comma,
        Tok::Semi => TokKind::Semi,
        Tok::Assign => TokKind::Assign,
        Tok::Pipe => TokKind::Pipe,
        Tok::At => TokKind::At,
        Tok::Question => TokKind::Question,
        Tok::Dot => TokKind::Dot,
        Tok::DotDot => TokKind::DotDot,
        Tok::Ellipsis => TokKind::Ellipsis,
        Tok::Arrow => TokKind::Arrow,
        Tok::Plus => TokKind::Plus,
        Tok::Minus => TokKind::Minus,
        Tok::Star => TokKind::Star,
        Tok::Slash => TokKind::Slash,
        Tok::Update => TokKind::Update,
        Tok::Concat => TokKind::Concat,
        Tok::Bang => TokKind::Bang,
        Tok::And => TokKind::And,
        Tok::Or => TokKind::Or,
        Tok::Impl => TokKind::Impl,
        Tok::Lt => TokKind::Lt,
        Tok::Le => TokKind::Le,
        Tok::Gt => TokKind::Gt,
        Tok::Ge => TokKind::Ge,
        Tok::EqEq => TokKind::EqEq,
        Tok::Neq => TokKind::Neq,
    }
}

/// The fixed text of a keyword or punctuation kind.
pub open spec fn fixed_text(k: TokKind) -> Seq<char> {
    match k {
        TokKind::Let => seq!['l', 'e', 't'],
        TokKind::In => seq!['i', 'n'],
        TokKind::Bind => seq!['b', 'i', 'n', 'd'],
        TokKind::True => seq!['t', 'r', 'u', 'e'],
        TokKind::False => seq!['f', 'a', 'l', 's', 'e'],
        TokKind::LBrace => seq!['{'],
        TokKind::RBrace => seq!['}'],
        TokKind::LBrack => seq!['['],
        TokKind::RBrack => seq![']'],
        TokKind::LParen => seq!['('],
        TokKind::RParen => seq![')'],
        TokKind::Comma => seq![','],
        TokKind::Semi => seq![';'],
        TokKind::Assign => seq!['='],
        TokKind::Pipe => seq!['|'],
        TokKind::At => seq!['@'],
        TokKind::Question => seq!['?'],
        TokKind::Dot => seq!['.'],
        TokKind::DotDot => seq!['.', '.'],
        TokKind::Ellipsis => seq!['.', '.', '.'],
        TokKind::Arrow => seq!['<', '-'],
        TokKind::Plus => seq!['+'],
        TokKind::Minus => seq!['-'],
        TokKind::Star => seq!['*'],
        TokKind::Slash => seq!['/'],
        TokKind::Update => seq!['/', '/'],
        TokKind::Concat => seq!['+', '+'],
        TokKind::Bang => seq!['!'],
        TokKind::And => seq!['&', '&'],
        TokKind::Or => seq!['|', '|'],
        TokKind::Impl => seq!['-', '>'],
        TokKind::Lt => seq!['<'],
        TokKind::Le => seq!['<', '='],
        TokKind::Gt => seq!['>'],
        TokKind::Ge => seq!['>', '='],
        TokKind::EqEq => seq!['=', '='],
        TokKind::Neq => seq!['!', '='],
        _ => seq![],
    }
}

/// The words that are keywords.
pub open spec fn is_keyword(w: Seq<char>) -> bool {
    w == fixed_text(TokKind::Let) || w == fixed_text(TokKind::In) || w == fixed_text(TokKind::Bind) || w
        == fixed_text(TokKind::True) || w == fixed_text(TokKind::False)
}

/// Keyword kinds.
pub open spec fn is_keyword_kind(k: TokKind) -> bool {
    k == TokKind::Let || k == TokKind::In || k == TokKind::Bind || k == TokKind::True || k == TokKind::False
}

/// Punctuation of kind `k` would read on into character `c` as a longer
/// punctuation.
pub open spec fn punct_longer(k: TokKind, c: char) -> bool {
    match k {
        TokKind::Dot | TokKind::DotDot => c == '.',
        TokKind::Pipe => c == '|',
        TokKind::Assign | TokKind::Bang | TokKind::Gt => c == '=',
        TokKind::Lt => c == '=' || c == '-',
        TokKind::Minus => c == '>',
        TokKind::Plus => c == '+',
        TokKind::Slash => c == '/',
        _ => false,
    }
}

/// A string literal's text between the quotes: characters other than `"`
/// and `\`, and `\` followed by any character.
pub open spec fn str_body_ok(b: Seq<char>) -> bool
    decreases b.len(),
{
    if b.len() == 0 {
        true
    } else if b[0] == '\\' {
        b.len() >= 2 && str_body_ok(b.skip(2))
    } else {
        b[0] != '"' && str_body_ok(b.drop_first())
    }
}

/// Token `t` is read correctly from `code`: its span holds its text, an
/// identifier, number or keyword does not continue into the next character,
/// and punctuation does not continue into a longer one.
pub open spec fn token_ok(code: Seq<char>, t: Token) -> bool {
    let s = code.subrange(t.left as int, t.right as int);
    &&& t.left < t.right <= code.len()
    &&& match t.tok {
        Tok::Ident(x) => x@ == s && (is_alpha(s[0]) || s[0] == '_') && (forall|j: int| 0 <= j < s.len()
            ==> is_ident_char(#[trigger] s[j])) && !is_keyword(s) && !(t.right < code.len() && is_ident_char(
            code[t.right as int],
        )),
        Tok::Int(x) => x@ == s && (forall|j: int| 0 <= j < s.len() ==> is_digit(#[trigger] s[j])) && !(t.right
            < code.len() && is_digit(code[t.right as int])),
        Tok::Str(x) => s.len() >= 2 && s[0] == '"' && s.last() == '"' && x@ == s.subrange(1, s.len() - 1)
            && str_body_ok(x@),
        _ => s == fixed_text(tok_kind(t.tok)) && if is_keyword_kind(tok_kind(t.tok)) {
            !(t.right < code.len() && is_ident_char(code[t.right as int]))
        } else {
            !(t.right < code.len() && punct_longer(tok_kind(t.tok), code[t.right as int]))
        },
    }
}

/// Punctuation kinds.
pub open spec fn is_punct_kind(k: TokKind) -> bool {
    !(k == TokKind::Ident || k == TokKind::Int || k == TokKind::Str || is_keyword_kind(k))
}

/// Some punctuation is written at position `i` of `cs`.
pub open spec fn punct_at(cs: Seq<char>, i: int) -> bool {
    exists|k: TokKind| is_punct_kind(k) && i + fixed_text(k).len() <= cs.len() && #[trigger] cs.subrange(
        i,
        i + fixed_text(k).len(),
    ) == fixed_text(k)
}

/// The text after an opening quote has no closing quote: every `"` in it is
/// escaped by a `\\`.
pub open spec fn never_closes(s: Seq<char>) -> bool
    decreases s.len(),
{
    if s.len() == 0 {
        true
    } else if s[0] == '\\' {
        s.len() == 1 || never_closes(s.skip(2))
    } else {
        s[0] != '"' && never_closes(s.drop_first())
    }
}

/// No token can start at position `p` of `code`: a string that is not
/// closed, or a character that starts no token.
pub open spec fn stuck_at(code: Seq<char>, p: int) -> bool {
    ||| code[p] == '"' && never_closes(code.skip(p + 1))
    ||| !is_space(code[p]) && code[p] != '#' && code[p] != '"' && !is_digit(code[p]) && !is_alpha(code[p]) && code[p]
        != '_' && !punct_at(code, p)
}

/// Position `p` lies in no token of `v`.
pub open spec fn outside(v: Seq<Token>, p: int) -> bool {
    forall|k: int| 0 <= k < v.len() ==> !(v[k].left <= p < #[trigger] v[k].right)
}

/// Position `p` lies in a comment: a `#` outside the tokens at or before it,
/// with no line break in between.
pub open spec fn in_comment(code: Seq<char>, v: Seq<Token>, p: int) -> bool {
    exists|q: int| 0 <= q <= p && outside(v, q) && #[trigger] code[q] == '#' && forall|r: int| q <= r <= p ==> code[r]
        != '\n'
}

/// `v` is how `code` splits into tokens: the tokens in order, each read
/// correctly, only spaces and comments between them, and no token after a
/// comment on the same line.
pub open spec fn tokens_of(code: Seq<char>, v: Seq<Token>) -> bool {
    &&& forall|a: int, b: int| 0 <= a < b < v.len() ==> #[trigger] v[a].right <= #[trigger] v[b].left
    &&& forall|k: int| 0 <= k < v.len() ==> #[trigger] token_ok(code, v[k])
    &&& forall|p: int| 0 <= p < code.len() && outside(v, p) ==> is_space(#[trigger] code[p]) || in_comment(code, v, p)
    &&& forall|q: int, k: int| 0 <= q < code.len() && 0 <= k < v.len() && outside(v, q) && #[trigger] code[q] == '#'
        && q < #[trigger] v[k].left ==> exists|r: int| q < r < v[k].left && code[r] == '\n'
}

/// The kind of a token.
pub fn kind_of(t: &Tok) -> (res: TokKind)
    ensures
        res == tok_kind(*t),
{
    match t {
        Tok::Ident(_) => TokKind::Ident,
        Tok::Int(_) => TokKind::Int,
        Tok::Str(_) => TokKind::Str,
        Tok::Let => TokKind::Let,
        Tok::In => TokKind::In,
        Tok::Bind => TokKind::Bind,
        Tok::True => TokKind::True,
        Tok::False => TokKind::False,
        Tok::LBrace => TokKind::LBrace,
        Tok::RBrace => TokKind::RBrace,
        Tok::LBrack => TokKind::LBrack,
        Tok::RBrack => TokKind::RBrack,
        Tok::LParen => TokKind::LParen,
        Tok::RParen => TokKind::RParen,
        Tok::Comma => TokKind::Comma,
        Tok::Semi => TokKind::Semi,
        Tok::Assign => TokKind::Assign,
        Tok::Pipe => TokKind::Pipe,
        Tok::At => TokKind::At,
        Tok::Question => TokKind::Question,
        Tok::Dot => TokKind::Dot,
        Tok::DotDot => TokKind::DotDot,
        Tok::Ellipsis => TokKind::Ellipsis,
        Tok::Arrow => TokKind::Arrow,
        Tok::Plus => TokKind::Plus,
        Tok::Minus => TokKind::Minus,
        Tok::Star => TokKind::Star,
        Tok::Slash => TokKind::Slash,
        Tok::Update => TokKind::Update,
        Tok::Concat => TokKind::Concat,
        Tok::Bang => TokKind::Bang,
        Tok::And => TokKind::And,
        Tok::Or => TokKind::Or,
        Tok::Impl => TokKind::Impl,
        Tok::Lt => TokKind::Lt,
        Tok::Le => TokKind::Le,
        Tok::Gt => TokKind::Gt,
        Tok::Ge => TokKind::Ge,
        Tok::EqEq => TokKind::EqEq,
        Tok::Neq => TokKind::Neq,
    }
}

/// Tokens being parsed and the position of the next one.
pub struct Parser {
    toks: Vec<Token>,
    pos: usize,
    file: usize,
    end: usize,
}


/// The error of a failed parse has the kind `Parse`, or `DupKey` for an
/// object that names a field twice.
pub open spec fn parse_err<T>(r: Result<T, Error>) -> bool {
    r matches Err(e) ==> (e.typ == ErrorType::Parse || e.typ == ErrorType::DupKey)
}

/// A name reads as a variable, `true`/`false` as a boolean value and
/// decimal digits as the integer they write.
pub open spec fn atom_node(pool: ExprPool, e: Expr, t: Tok) -> bool {
    match t {
        Tok::Int(d) => pool.node(e) == ExprType::Value(Value::Int(digits_value(d@) as i64)),
        Tok::Ident(n) => pool.node(e) == ExprType::Var(n),
        Tok::True => pool.node(e) == ExprType::Value(Value::Bool(true)),
        Tok::False => pool.node(e) == ExprType::Value(Value::Bool(false)),
        _ => false,
    }
}

/// The parse read the next token of `before`, a name, a boolean or a
/// number, and nothing more, into a node of its own.
pub open spec fn reads_atom(before: Parser, after: Parser, pool: ExprPool, r: Result<Expr, Error>) -> bool {
    match r {
        Ok(e) => after.remaining() + 1 == before.remaining() && atom_node(pool, e, before.next_tok()),
        Err(_) => false,
    }
}

/// The lowest level of the expression grammar at which a token of kind `k`
/// that follows an operand continues the expression: `.` selects a field,
/// an operand or `|` applies a function, then `?`, `++`, `*` and `/`, `+`
/// and `-`, `//`, the comparisons, `&&`, `||` and `->` from the tightest
/// binding to the loosest. Any other token ends an expression.
pub open spec fn op_level(k: TokKind) -> int {
    match k {
        TokKind::Dot => 7,
        TokKind::Ident | TokKind::Int | TokKind::Str | TokKind::True | TokKind::False | TokKind::LParen
        | TokKind::LBrack | TokKind::LBrace | TokKind::Pipe => 8,
        TokKind::Question => 10,
        TokKind::Concat => 11,
        TokKind::Star | TokKind::Slash => 12,
        TokKind::Plus | TokKind::Minus => 13,
        TokKind::Update => 15,
        TokKind::Lt | TokKind::Le | TokKind::Gt | TokKind::Ge | TokKind::EqEq | TokKind::Neq => 16,
        TokKind::And => 17,
        TokKind::Or => 18,
        TokKind::Impl => 19,
        _ => 100,
    }
}

/// The operator that a token of kind `k` stands for between two operands.
pub open spec fn binop_kind(k: TokKind) -> Option<ExprBinOp> {
    match k {
        TokKind::Concat => Some(ExprBinOp::ListConcat),
        TokKind::Star => Some(ExprBinOp::Mult),
        TokKind::Slash => Some(ExprBinOp::Div),
        TokKind::Plus => Some(ExprBinOp::Add),
        TokKind::Minus => Some(ExprBinOp::Sub),
        TokKind::Update => Some(ExprBinOp::Update),
        TokKind::Lt => Some(ExprBinOp::Lt),
        TokKind::Le => Some(ExprBinOp::Le),
        TokKind::Gt => Some(ExprBinOp::Gt),
        TokKind::Ge => Some(ExprBinOp::Ge),
        TokKind::EqEq => Some(ExprBinOp::Eq),
        TokKind::Neq => Some(ExprBinOp::Neq),
        TokKind::And => Some(ExprBinOp::LogAnd),
        TokKind::Or => Some(ExprBinOp::LogOr),
        TokKind::Impl => Some(ExprBinOp::LogImpl),
        _ => None,
    }
}

/// Token `t` is a name, `true`, `false`, or decimal digits whose number fits
/// in an `i64`.
pub open spec fn atom_tok(t: Tok) -> bool {
    match t {
        Tok::Ident(_) | Tok::True | Tok::False => true,
        Tok::Int(d) => all_digits(d@) && digits_value(d@) <= i64::MAX,
        _ => false,
    }
}

/// A token of kind `k`, if there is one, is a binary operator of grammar
/// level `level` or tighter.
pub open spec fn binop_within(level: int, k: Option<TokKind>) -> bool {
    match k {
        Some(t) => binop_kind(t) is Some && op_level(t) <= level,
        None => false,
    }
}

/// Node `e` of `pool` applies `op` to nodes for the tokens `t1` and `t2`.
pub open spec fn binop_node(pool: ExprPool, e: Expr, op: Option<ExprBinOp>, t1: Tok, t2: Tok) -> bool {
    match pool.node(e) {
        ExprType::BinOp(o, x, y) => op == Some(o) && atom_node(pool, x, t1) && atom_node(pool, y, t2),
        _ => false,
    }
}

/// Token `k` of `ts` is a binary operator of grammar level `level`.
pub open spec fn op_at(ts: Seq<Token>, k: int, level: int) -> bool {
    0 <= k < ts.len() && binop_kind(tok_kind(ts[k].tok)) is Some && op_level(tok_kind(ts[k].tok)) == level
}

/// `ts[i..j]` holds operands and binary operators in turn: names,
/// booleans or numbers at `i`, `i + 2`, … up to `j - 1`, and between them
/// binary operators of grammar level `level` or tighter.
pub open spec fn flat(ts: Seq<Token>, i: int, j: int, level: int) -> bool {
    &&& 0 <= i < j <= ts.len()
    &&& (j - i) % 2 == 1
    &&& forall|k: int| i <= k < j && (k - i) % 2 == 0 ==> atom_tok(#[trigger] ts[k].tok)
    &&& forall|k: int| i <= k < j && (k - i) % 2 == 1 ==> (binop_kind(tok_kind(#[trigger] ts[k].tok)) is Some
        && op_level(tok_kind(ts[k].tok)) <= level)
}

/// What follows `ts[..j]` does not continue an operand at `level`.
pub open spec fn stops(ts: Seq<Token>, j: int, level: int) -> bool {
    j >= ts.len() || op_level(tok_kind(ts[j].tok)) > level
}

/// `ts[i..j]` is an operator expression at `level` that ends there.
pub open spec fn seg(ts: Seq<Token>, i: int, j: int, level: int) -> bool {
    flat(ts, i, j, level) && stops(ts, j, level)
}

/// `&&`, `->` and `++` and `//` group to the right; the others to the left.
pub open spec fn right_assoc(level: int) -> bool {
    level == 11 || level == 15 || level == 19
}

/// The last operator of level `level` in the operator expression `ts[i..j]`,
/// or -1.
pub open spec fn last_op(ts: Seq<Token>, i: int, j: int, level: int) -> int
    decreases j - i,
{
    if j - i < 3 {
        -1
    } else if op_at(ts, j - 2, level) {
        j - 2
    } else {
        last_op(ts, i, j - 2, level)
    }
}

/// The first operator of level `level` in the operator expression
/// `ts[i..j]`, or -1.
pub open spec fn first_op(ts: Seq<Token>, i: int, j: int, level: int) -> int
    decreases j - i,
{
    if j - i < 3 {
        -1
    } else if op_at(ts, i + 1, level) {
        i + 1
    } else {
        first_op(ts, i + 2, j, level)
    }
}

/// Where the operand of the operators of level `level` that starts at `i`
/// ends, in the operator expression that ends at `j`.
pub open spec fn operand_end(ts: Seq<Token>, i: int, j: int, level: int) -> int
    decreases j - i,
{
    if j - i < 3 {
        j
    } else if op_at(ts, i + 1, level) {
        i + 1
    } else {
        operand_end(ts, i + 2, j, level)
    }
}

/// Node `e` of `q` is what the operator expression `ts[i..j]` reads as at
/// grammar level `level`: at the lowest levels a single operand's node; at
/// a level with operators in it, the operator applied to the parts on its
/// two sides, splitting at the last such operator where the operators
/// group to the left and at the first where they group to the right.
pub open spec fn ftree(q: ExprPool, e: Expr, ts: Seq<Token>, i: int, j: int, level: int) -> bool
    decreases j - i, level,
{
    if level <= 10 {
        j == i + 1 && q.valid(e) && atom_node(q, e, ts[i].tok)
    } else {
        let k = if right_assoc(level) {
            first_op(ts, i, j, level)
        } else {
            last_op(ts, i, j, level)
        };
        if !(i < k < j) {
            ftree(q, e, ts, i, j, level - 1)
        } else {
            q.valid(e) && match q.node(e) {
                ExprType::BinOp(op, a, b) => Some(op) == binop_kind(tok_kind(ts[k].tok)) && a.0 < e.0 && b.0 < e.0 && if right_assoc(
                    level,
                ) {
                    ftree(q, a, ts, i, k, level - 1) && ftree(q, b, ts, k + 1, j, level)
                } else {
                    ftree(q, a, ts, i, k, level) && ftree(q, b, ts, k + 1, j, level - 1)
                },
                _ => false,
            }
        }
    }
}

/// No operator of level `level` lies in an operator expression of a
/// tighter level.
proof fn lemma_no_op(ts: Seq<Token>, i: int, j: int, level: int)
    requires
        flat(ts, i, j, level - 1),
    ensures
        last_op(ts, i, j, level) == -1,
        first_op(ts, i, j, level) == -1,
        operand_end(ts, i, j, level) == j,
    decreases j - i,
{
    if j - i >= 3 {
        assert(ts[j - 2].tok == ts[j - 2].tok);
        assert((j - 2 - i) % 2 == 1);
        assert((i + 1 - i) % 2 == 1);
        assert(ts[i + 1].tok == ts[i + 1].tok);
        lemma_no_op(ts, i, j - 2, level);
        lemma_no_op(ts, i + 2, j, level);
    }
}

/// The last operator of `level` is `c` where only tighter operators follow.
proof fn lemma_last_at(ts: Seq<Token>, i: int, c: int, j: int, level: int)
    requires
        flat(ts, i, j, level),
        i < c < j,
        (c - i) % 2 == 1,
        op_at(ts, c, level),
        flat(ts, c + 1, j, level - 1),
    ensures
        last_op(ts, i, j, level) == c,
    decreases j - i,
{
    if j - 2 != c {
        assert((j - 2 - (c + 1)) % 2 == 1);
        assert(ts[j - 2].tok == ts[j - 2].tok);
        lemma_last_at(ts, i, c, j - 2, level);
    }
}

/// The first operator of `level` is `c` where only tighter operators come
/// before it.
proof fn lemma_first_at(ts: Seq<Token>, i: int, c: int, j: int, level: int)
    requires
        flat(ts, i, j, level),
        i < c < j,
        (c - i) % 2 == 1,
        op_at(ts, c, level),
        flat(ts, i, c, level - 1),
    ensures
        first_op(ts, i, j, level) == c,
        operand_end(ts, i, j, level) == c,
    decreases c - i,
{
    if i + 1 != c {
        assert((i + 1 - i) % 2 == 1);
        assert(ts[i + 1].tok == ts[i + 1].tok);
        lemma_first_at(ts, i + 2, c, j, level);
    }
}

/// The operand that starts at `i` ends before the next operator of
/// `level`, or at the end; it is an operator expression of the next
/// tighter level that ends there.
proof fn lemma_operand_end(ts: Seq<Token>, i: int, j: int, level: int)
    requires
        seg(ts, i, j, level),
    ensures
        i < operand_end(ts, i, j, level) <= j,
        seg(ts, i, operand_end(ts, i, j, level), level - 1),
        operand_end(ts, i, j, level) < j ==> op_at(ts, operand_end(ts, i, j, level), level) && (operand_end(
            ts,
            i,
            j,
            level,
        ) - i) % 2 == 1,
    decreases j - i,
{
    if j - i >= 3 {
        assert((i + 1 - i) % 2 == 1);
        assert(ts[i + 1].tok == ts[i + 1].tok);
        if !op_at(ts, i + 1, level) {
            assert(seg(ts, i + 2, j, level)) by {
                assert forall|k: int| i + 2 <= k < j && (k - (i + 2)) % 2 == 0 implies atom_tok(#[trigger] ts[k].tok) by {
                    assert((k - i) % 2 == 0);
                }
                assert forall|k: int| i + 2 <= k < j && (k - (i + 2)) % 2 == 1 implies (binop_kind(tok_kind(#[trigger] ts[k].tok)) is Some
                    && op_level(tok_kind(ts[k].tok)) <= level) by {
                    assert((k - i) % 2 == 1);
                }
            }
            lemma_operand_end(ts, i + 2, j, level);
            let s = operand_end(ts, i + 2, j, level);
            assert(flat(ts, i, s, level - 1)) by {
                assert forall|k: int| i <= k < s && (k - i) % 2 == 0 implies atom_tok(#[trigger] ts[k].tok) by {
                    if k >= i + 2 {
                        assert((k - (i + 2)) % 2 == 0);
                    }
                }
                assert forall|k: int| i <= k < s && (k - i) % 2 == 1 implies (binop_kind(tok_kind(#[trigger] ts[k].tok)) is Some
                    && op_level(tok_kind(ts[k].tok)) <= level - 1) by {
                    if k >= i + 2 {
                        assert((k - (i + 2)) % 2 == 1);
                    }
                }
            }
            if s < j {
                assert((s - (i + 2)) % 2 == 1);
            }
        } else {
            assert((0int) % 2 == 0);
        }
    }
}

/// Two operator expressions at one level from one start that both end are
/// the same.
proof fn lemma_seg_unique(ts: Seq<Token>, i: int, j1: int, j2: int, level: int)
    requires
        seg(ts, i, j1, level),
        seg(ts, i, j2, level),
    ensures
        j1 == j2,
{
    if j1 < j2 {
        assert((j1 - i) % 2 == 1);
        assert(ts[j1].tok == ts[j1].tok);
    } else if j2 < j1 {
        assert((j2 - i) % 2 == 1);
        assert(ts[j2].tok == ts[j2].tok);
    }
}

/// The node an operator expression reads as keeps its meaning when nodes
/// are only added.
pub proof fn lemma_ftree_kept(q: ExprPool, r: ExprPool, e: Expr, ts: Seq<Token>, i: int, j: int, level: int)
    requires
        ftree(q, e, ts, i, j, level),
        only_pushed(r, q),
    ensures
        ftree(r, e, ts, i, j, level),
    decreases j - i, level,
{
    if level <= 10 {
        assert(r.nodes()[e.0 as int] == q.nodes()[e.0 as int]);
    } else {
        let k = if right_assoc(level) {
            first_op(ts, i, j, level)
        } else {
            last_op(ts, i, j, level)
        };
        if !(i < k < j) {
            lemma_ftree_kept(q, r, e, ts, i, j, level - 1);
        } else {
            assert(r.nodes()[e.0 as int] == q.nodes()[e.0 as int]);
            let a = q.node(e)->BinOp_1;
            let b = q.node(e)->BinOp_2;
            if right_assoc(level) {
                lemma_ftree_kept(q, r, a, ts, i, k, level - 1);
                lemma_ftree_kept(q, r, b, ts, k + 1, j, level);
            } else {
                lemma_ftree_kept(q, r, a, ts, i, k, level);
                lemma_ftree_kept(q, r, b, ts, k + 1, j, level - 1);
            }
        }
    }
}

/// The parse read the operator expression `ts[i..j]` that starts at the
/// next token of `before` and ends where `after` stands, into a node that
/// it reads as at `level`.
pub open spec fn reads_flat(before: Parser, after: Parser, pool: ExprPool, r: Result<Expr, Error>, level: int) -> bool {
    match r {
        Ok(e) => after.tokens() == before.tokens() && seg(
            before.tokens(),
            before.position() as int,
            after.position() as int,
            level,
        ) && ftree(pool, e, before.tokens(), before.position() as int, after.position() as int, level),
        Err(_) => false,
    }
}

/// An operator expression at the operand level is a single operand.
proof fn lemma_seg_atom(p: Parser, j: int)
    requires
        p.inv(),
        seg(p.tokens(), p.at_pos(), j, 10),
    ensures
        j == p.position() + 1,
        p.at_atom(),
        !continues(10, p.kind_at(1)),
{
    let ts = p.tokens();
    let i = p.at_pos();
    if j >= i + 3 {
        assert((i + 1 - i) % 2 == 1);
        assert(ts[i + 1].tok == ts[i + 1].tok);
    }
    assert((i - i) % 2 == 0);
    assert(ts[i].tok == ts[i].tok);
}

/// The part of an operator expression after one of its operators is one.
proof fn lemma_flat_suffix(ts: Seq<Token>, i: int, c: int, j: int, level: int)
    requires
        flat(ts, i, j, level),
        i < c < j,
        (c - i) % 2 == 1,
    ensures
        flat(ts, c + 1, j, level),
{
    assert forall|k: int| c + 1 <= k < j && (k - (c + 1)) % 2 == 0 implies atom_tok(#[trigger] ts[k].tok) by {
        assert((k - i) % 2 == 0);
    }
    assert forall|k: int| c + 1 <= k < j && (k - (c + 1)) % 2 == 1 implies (binop_kind(tok_kind(#[trigger] ts[k].tok)) is Some
        && op_level(tok_kind(ts[k].tok)) <= level) by {
        assert((k - i) % 2 == 1);
    }
}

/// No operator has level 14 or 20, so an operator expression at those
/// levels is one at the next tighter level.
proof fn lemma_seg_lower(ts: Seq<Token>, i: int, j: int, level: int)
    requires
        seg(ts, i, j, level),
        level == 14 || level == 20,
    ensures
        seg(ts, i, j, level - 1),
{
    assert forall|k: int| i <= k < j && (k - i) % 2 == 1 implies (binop_kind(tok_kind(#[trigger] ts[k].tok)) is Some
        && op_level(tok_kind(ts[k].tok)) <= level - 1) by {
    }
}

/// A shorter operator expression from the same start, ending where the
/// longer one has an operator of `level`, is one at `level` too.
proof fn lemma_flat_prefix(ts: Seq<Token>, i: int, s: int, j: int, level: int)
    requires
        flat(ts, i, j, level),
        i < s <= j,
        (s - i) % 2 == 1,
    ensures
        flat(ts, i, s, level),
{
}

/// Adding nodes on top of adding nodes adds nodes.
proof fn lemma_only_pushed_trans(c: ExprPool, b: ExprPool, a: ExprPool)
    requires
        only_pushed(c, b),
        only_pushed(b, a),
    ensures
        only_pushed(c, a),
{
    assert forall|i: int| 0 <= i < a.size() implies #[trigger] c.nodes()[i] == a.nodes()[i] by {
        assert(c.nodes()[i] == b.nodes()[i]);
    }
}

/// What an operator expression reads as spans at least one token.
proof fn lemma_ftree_nonempty(q: ExprPool, e: Expr, ts: Seq<Token>, i: int, j: int, level: int)
    requires
        ftree(q, e, ts, i, j, level),
    ensures
        i < j,
    decreases j - i, level,
{
    if level > 10 {
        let k = if right_assoc(level) {
            first_op(ts, i, j, level)
        } else {
            last_op(ts, i, j, level)
        };
        if !(i < k < j) {
            lemma_ftree_nonempty(q, e, ts, i, j, level - 1);
        }
    }
}

/// Operand `m` of a chain of operators of `level` that group to the right:
/// node `x` of `q` is what `ts[bnd[m]..bnd[m + 1] - 1]` reads as at the
/// next tighter level, which has no operator of `level`.
pub open spec fn chain_operand(q: ExprPool, ts: Seq<Token>, bnd: Seq<int>, m: int, x: Expr, level: int) -> bool {
    &&& 0 <= m && m + 1 < bnd.len()
    &&& (bnd[m] - bnd[0]) % 2 == 0
    &&& (m > 0 ==> bnd[0] < bnd[m] - 1)
    &&& flat(ts, bnd[m], bnd[m + 1] - 1, level - 1)
    &&& ftree(q, x, ts, bnd[m], bnd[m + 1] - 1, level - 1)
}

/// Operator `m` of such a chain: `op`, written just after operand `m`.
pub open spec fn chain_op(ts: Seq<Token>, bnd: Seq<int>, m: int, op: ExprBinOp, level: int) -> bool {
    &&& 0 <= m && m + 1 < bnd.len()
    &&& op_at(ts, bnd[m + 1] - 1, level)
    &&& Some(op) == binop_kind(tok_kind(ts[bnd[m + 1] - 1].tok))
}

/// A chain of operands and operators grows by one of each.
proof fn lemma_chain_extend(
    before: ExprPool,
    q: ExprPool,
    ts: Seq<Token>,
    bnd: Seq<int>,
    xs: Seq<Expr>,
    os: Seq<ExprBinOp>,
    x: Expr,
    op: ExprBinOp,
    s2: int,
    level: int,
)
    requires
        bnd.len() == xs.len() + 1,
        os.len() + 1 == xs.len(),
        forall|m: int| 0 <= m < xs.len() ==> chain_operand(before, ts, bnd, m, #[trigger] xs[m], level),
        forall|m: int| 0 <= m < os.len() ==> chain_op(ts, bnd, m, #[trigger] os[m], level),
        only_pushed(q, before),
        op_at(ts, bnd.last() - 1, level),
        Some(op) == binop_kind(tok_kind(ts[bnd.last() - 1].tok)),
        (bnd.last() - bnd[0]) % 2 == 0,
        bnd[0] < bnd.last() - 1,
        flat(ts, bnd.last(), s2, level - 1),
        ftree(q, x, ts, bnd.last(), s2, level - 1),
    ensures
        forall|m: int| 0 <= m < xs.push(x).len() ==> chain_operand(q, ts, bnd.push(s2 + 1), m, #[trigger] xs.push(x)[m], level),
        forall|m: int| 0 <= m < os.push(op).len() ==> chain_op(ts, bnd.push(s2 + 1), m, #[trigger] os.push(op)[m], level),
{
    let b2 = bnd.push(s2 + 1);
    assert forall|m: int| 0 <= m < xs.push(x).len() implies chain_operand(q, ts, b2, m, #[trigger] xs.push(x)[m], level) by {
        if m < xs.len() {
            assert(chain_operand(before, ts, bnd, m, xs[m], level));
            assert(b2[m] == bnd[m] && b2[m + 1] == bnd[m + 1]);
            lemma_ftree_kept(before, q, xs[m], ts, bnd[m], bnd[m + 1] - 1, level - 1);
        } else {
            assert(b2[m] == bnd.last());
        }
    }
    assert forall|m: int| 0 <= m < os.push(op).len() implies chain_op(ts, b2, m, #[trigger] os.push(op)[m], level) by {
        if m < os.len() {
            assert(chain_op(ts, bnd, m, os[m], level));
        }
        assert(b2[m + 1] == bnd[m + 1]);
    }
}

/// Applying operator `k` of a right-grouping chain to its operand and to
/// what the rest of the chain reads as gives what the chain from operand `k`
/// reads as.
proof fn lemma_chain_step(
    q: ExprPool,
    pm: ExprPool,
    mid: ExprPool,
    ts: Seq<Token>,
    bnd: Seq<int>,
    j: int,
    k: int,
    x: Expr,
    op: ExprBinOp,
    rest: Expr,
    acc: Expr,
    level: int,
)
    requires
        right_assoc(level),
        flat(ts, bnd[0], j, level),
        chain_operand(pm, ts, bnd, k, x, level),
        chain_op(ts, bnd, k, op, level),
        ftree(mid, rest, ts, bnd[k + 1], j, level),
        only_pushed(mid, pm),
        only_pushed(q, mid),
        q.valid(acc),
        q.node(acc) == ExprType::BinOp(op, x, rest),
        x.0 < acc.0,
        rest.0 < acc.0,
    ensures
        ftree(q, acc, ts, bnd[k], j, level),
{
    let b0 = bnd[k];
    let ck = bnd[k + 1] - 1;
    lemma_ftree_nonempty(mid, rest, ts, bnd[k + 1], j, level);
    if k > 0 {
        lemma_flat_suffix(ts, bnd[0], b0 - 1, j, level);
    }
    lemma_only_pushed_trans(q, mid, pm);
    lemma_ftree_kept(pm, q, x, ts, b0, ck, level - 1);
    lemma_ftree_kept(mid, q, rest, ts, ck + 1, j, level);
    lemma_first_at(ts, b0, ck, j, level);
}

/// The parse read the next three tokens of `before`, `x op y`, and nothing
/// more, into a node that applies the operator to nodes for `x` and `y`.
pub open spec fn reads_binop(before: Parser, after: Parser, pool: ExprPool, r: Result<Expr, Error>) -> bool {
    match r {
        Ok(e) => after.remaining() + 3 == before.remaining() && binop_node(
            pool,
            e,
            binop_kind(before.kind_at(1)->Some_0),
            before.next_tok(),
            before.tok_at(2),
        ),
        Err(_) => false,
    }
}

/// A token of kind `k`, if there is one, continues an operand at grammar
/// level `level`.
pub open spec fn continues(level: int, k: Option<TokKind>) -> bool {
    match k {
        Some(t) => op_level(t) <= level,
        None => false,
    }
}

/// One token: a name, a boolean or a number that fits in an `i64`.
pub open spec fn atom_tokens(v: Seq<Token>) -> bool {
    &&& v.len() == 1
    &&& atom_tok(v[0].tok)
}

/// The source reads, around space and comments, as a single name, boolean
/// literal or number that fits in an `i64`: no position stops the lexer,
/// and every reading of it into tokens is that one token.
pub open spec fn one_atom_source(code: Seq<char>) -> bool {
    &&& forall|q: int| 0 <= q < code.len() ==> !#[trigger] stuck_at(code, q)
    &&& forall|v: Seq<Token>| #[trigger] tokens_of(code, v) ==> atom_tokens(v)
}

/// Three tokens: names, booleans or numbers around a binary operator.
pub open spec fn binop_tokens(v: Seq<Token>) -> bool {
    &&& v.len() == 3
    &&& atom_tok(v[0].tok)
    &&& binop_kind(tok_kind(v[1].tok)) is Some
    &&& atom_tok(v[2].tok)
}

/// The source reads, around space and comments, as `x op y` with names,
/// booleans or numbers `x` and `y` and a binary operator `op`: no position
/// stops the lexer, and every reading of it into tokens is such three
/// tokens.
pub open spec fn binop_source(code: Seq<char>) -> bool {
    &&& forall|q: int| 0 <= q < code.len() ==> !#[trigger] stuck_at(code, q)
    &&& forall|v: Seq<Token>| #[trigger] tokens_of(code, v) ==> binop_tokens(v)
}

/// `e` is the node that a reading of `code` into `x op y` gives: the
/// operator applied to nodes for `x` and `y`.
pub open spec fn binop_of_source(code: Seq<char>, pool: ExprPool, e: Expr) -> bool {
    exists|v: Seq<Token>| #[trigger] tokens_of(code, v) && v.len() == 3 && binop_node(
        pool,
        e,
        binop_kind(tok_kind(v[1].tok)),
        v[0].tok,
        v[2].tok,
    )
}

/// The source reads, around space and comments, as an operator
/// expression: names, booleans or numbers that fit in an `i64`, with binary
/// operators between them. No position stops the lexer, and every reading
/// of it into tokens is such an expression.
pub open spec fn flat_source(code: Seq<char>) -> bool {
    &&& forall|q: int| 0 <= q < code.len() ==> !#[trigger] stuck_at(code, q)
    &&& forall|v: Seq<Token>| #[trigger] tokens_of(code, v) ==> seg(v, 0, v.len() as int, 20)
}

/// `e` is the node that a reading of the operator expression `code` into
/// tokens gives, grouped by the levels of its operators as `ftree` says.
pub open spec fn flat_of_source(code: Seq<char>, pool: ExprPool, e: Expr) -> bool {
    exists|v: Seq<Token>| #[trigger] tokens_of(code, v) && ftree(pool, e, v, 0, v.len() as int, 20)
}

/// `e` is the node that a reading of `code` into one token gives.
pub open spec fn atom_of_source(code: Seq<char>, pool: ExprPool, e: Expr) -> bool {
    exists|v: Seq<Token>| #[trigger] tokens_of(code, v) && v.len() == 1 && atom_node(pool, e, v[0].tok)
}

impl Parser {
    /// The position of the next token.
    pub closed spec fn position(&self) -> nat {
        self.pos as nat
    }

    /// The parser reads the same tokens as `old`, from the same position
    /// or further.
    pub closed spec fn follows(&self, old: Parser) -> bool {
        &&& self.toks@ == old.toks@
        &&& self.file == old.file
        &&& self.end == old.end
        &&& old.pos <= self.pos <= self.toks@.len()
    }

    /// The position is within the tokens.
    pub closed spec fn inv(&self) -> bool {
        self.pos <= self.toks@.len()
    }

    /// Remaining tokens.
    pub closed spec fn remaining(&self) -> nat {
        (self.toks@.len() - self.pos) as nat
    }

    /// The tokens being parsed.
    pub closed spec fn tokens(&self) -> Seq<Token> {
        self.toks@
    }

    /// The source that the tokens come from.
    pub closed spec fn file_id(&self) -> usize {
        self.file
    }

    /// The position just past the end of the source text.
    pub closed spec fn end_pos(&self) -> usize {
        self.end
    }

    /// The kind of the token `k` places after the next one, if there is one.
    pub closed spec fn kind_at(&self, k: int) -> Option<TokKind> {
        if 0 <= self.pos + k < self.toks@.len() {
            Some(tok_kind(self.toks@[self.pos + k].tok))
        } else {
            None
        }
    }

    /// The kind of the next token, if there is one.
    pub open spec fn next_kind(&self) -> Option<TokKind> {
        self.kind_at(0)
    }

    /// The next token.
    pub closed spec fn next_tok(&self) -> Tok {
        self.toks@[self.pos as int].tok
    }

    /// The tokens from the next one on form an operator expression at
    /// `level` that ends.
    pub open spec fn flat_at(&self, level: int) -> bool {
        exists|j: int| #[trigger] seg(self.tokens(), self.position() as int, j, level)
    }

    /// The position of the next token, as an integer.
    pub open spec fn at_pos(&self) -> int {
        self.position() as int
    }

    /// The token `k` places after the next one.
    pub closed spec fn tok_at(&self, k: int) -> Tok {
        self.toks@[self.pos + k].tok
    }

    /// The parser is at `x op y`: names, booleans or numbers `x` and `y`
    /// around a binary operator of grammar level `level` or tighter,
    /// followed by nothing that continues an operand at `level`.
    pub open spec fn at_binop(&self, level: int) -> bool {
        &&& self.at_atom()
        &&& binop_within(level, self.kind_at(1))
        &&& self.remaining() > 2
        &&& atom_tok(self.tok_at(2))
        &&& !continues(level, self.kind_at(3))
    }

    /// The next token is a name, `true`, `false` or a number that fits in
    /// an `i64`.
    pub open spec fn at_atom(&self) -> bool {
        self.remaining() > 0 && atom_tok(self.next_tok())
    }

    /// Where the next token lies in the source, or the end of the source
    /// where no token is left.
    pub closed spec fn here_span(&self) -> (usize, usize) {
        if self.pos < self.toks@.len() {
            (self.toks@[self.pos as int].left, self.toks@[self.pos as int].right)
        } else {
            (self.end, self.end)
        }
    }

    /// The end of the last token read, or `left` where none was read.
    pub closed spec fn last_right(&self, left: usize) -> usize {
        if self.pos > 0 && self.pos <= self.toks@.len() {
            self.toks@[self.pos - 1].right
        } else {
            left
        }
    }

    fn new(toks: Vec<Token>, file: usize, end: usize) -> (res: Parser)
        ensures
            res.inv(),
            res.tokens() == toks@,
            res.position() == 0,
            res.file_id() == file,
            res.end_pos() == end,
    {
        Parser { toks, pos: 0, file, end }
    }

    fn peek(&self) -> (res: Option<TokKind>)
        requires
            self.inv(),
        ensures
            res is Some <==> self.remaining() > 0,
            res == self.next_kind(),
    {
        if self.pos < self.toks.len() {
            Some(kind_of(&self.toks[self.pos].tok))
        } else {
            None
        }
    }

    fn peek2(&self) -> (res: Option<TokKind>)
        requires
            self.inv(),
        ensures
            res is Some ==> self.remaining() > 1,
            res == self.kind_at(1),
    {
        if self.toks.len() - self.pos > 1 {
            Some(kind_of(&self.toks[self.pos + 1].tok))
        } else {
            None
        }
    }

    fn at(&self, k: TokKind) -> (res: bool)
        requires
            self.inv(),
        ensures
            res ==> self.remaining() > 0,
            res == (self.next_kind() == Some(k)),
    {
        match self.peek() {
            Some(x) => x == k,
            None => false,
        }
    }

    fn advance(&mut self) -> (res: (usize, usize))
        requires
            old(self).inv(),
            old(self).remaining() > 0,
        ensures
            final(self).follows(*old(self)),
            final(self).inv(),
            final(self).remaining() == old(self).remaining() - 1,
    {
        let n = self.toks.len();
        assert(self.pos < n);
        let t = (self.toks[self.pos].left, self.toks[self.pos].right);
        self.pos = self.pos + 1;
        t
    }

    fn here(&self) -> (res: (usize, usize))
        requires
            self.inv(),
        ensures
            res == self.here_span(),
    {
        if self.pos < self.toks.len() {
            (self.toks[self.pos].left, self.toks[self.pos].right)
        } else {
            (self.end, self.end)
        }
    }

    fn fail(&self, what: &str) -> (res: Error)
        requires
            self.inv(),
        ensures
            res.typ == ErrorType::Parse,
    {
        if self.pos < self.toks.len() {
            let t = &self.toks[self.pos];
            err_name(ErrorType::Parse, "Unrecognized token, expected ", what, "").loc(t.left, t.right, self.file)
        } else {
            err_name(ErrorType::Parse, "Unexpected end of file, expected ", what, "").loc(self.end, self.end, self.file)
        }
    }

    fn expect(&mut self, k: TokKind, what: &str) -> (res: Result<(usize, usize), Error>)
        requires
            old(self).inv(),
        ensures
            final(self).follows(*old(self)),
            final(self).inv(),
            res is Ok ==> final(self).remaining() < old(self).remaining(),
            parse_err(res),
    {
        if self.at(k) {
            Ok(self.advance())
        } else {
            Err(self.fail(what))
        }
    }

    /// The name of an identifier token, consumed.
    fn ident(&mut self, what: &str) -> (res: Result<String, Error>)
        requires
            old(self).inv(),
        ensures
            final(self).follows(*old(self)),
            final(self).inv(),
            res is Ok ==> final(self).remaining() < old(self).remaining(),
            parse_err(res),
    {
        if self.pos < self.toks.len() {
            let name = match &self.toks[self.pos].tok {
                Tok::Ident(n) => n.clone(),
                _ => {
                    return Err(self.fail(what));
                },
            };
            self.pos = self.pos + 1;
            Ok(name)
        } else {
            Err(self.fail(what))
        }
    }

    fn loc_from(&self, left: usize) -> (res: Option<ExprSourceRef>)
        requires
            self.inv(),
        ensures
            res matches Some(r) && r.file == self.file_id() && r.left == left && r.right == self.last_right(left),
    {
        let right = if self.pos > 0 { self.toks[self.pos - 1].right } else { left };
        Some(ExprSourceRef { file: self.file, left, right })
    }
}

/// The value of a hexadecimal digit, `None` for any other character.
pub open spec fn hex_digit(c: char) -> Option<nat> {
    if '0' <= c && c <= '9' {
        Some((c as nat - '0' as nat) as nat)
    } else if 'a' <= c && c <= 'f' {
        Some((c as nat - 'a' as nat + 10) as nat)
    } else if 'A' <= c && c <= 'F' {
        Some((c as nat - 'A' as nat + 10) as nat)
    } else {
        None
    }
}

/// The number that the first `k` characters of `s` write in hexadecimal,
/// all of them being hexadecimal digits.
pub open spec fn hex_prefix(s: Seq<char>, k: nat) -> nat
    decreases k,
{
    if k == 0 {
        0
    } else {
        hex_prefix(s, (k - 1) as nat) * 16 + hex_digit(s[k - 1])->0
    }
}

/// Codes of characters: all below `0x110000` but the surrogates.
pub open spec fn is_scalar(u: nat) -> bool {
    u < 0xD800 || (0xE000 <= u && u <= 0x10FFFF)
}

/// The character that `\\` followed by `d` stands for, other than `u`.
pub open spec fn escaped_char(d: char) -> char {
    if d == 'n' {
        '\n'
    } else if d == 'r' {
        '\r'
    } else if d == 't' {
        '\t'
    } else {
        d
    }
}

/// `p` in front of the text, when there is one.
pub open spec fn prefixed(p: Seq<char>, o: Option<Seq<char>>) -> Option<Seq<char>> {
    match o {
        Some(r) => Some(p + r),
        None => None,
    }
}

/// The text with escapes replaced: `\\n`, `\\r`, `\\t`, `\\u` with four
/// hexadecimal digits for that character code, and `\\` before any other
/// character for that character; a backslash at the end stands for itself.
/// `None` for a `\\u` escape that is short, not hexadecimal, or no character.
pub open spec fn unescaped(s: Seq<char>) -> Option<Seq<char>>
    decreases s.len(),
{
    if s.len() == 0 {
        Some(seq![])
    } else if s[0] == '\\' && s.len() > 1 {
        if s[1] == 'u' {
            if s.len() < 6 || !(forall|j: int| 2 <= j < 6 ==> #[trigger] hex_digit(s[j]) is Some) || !is_scalar(
                hex_prefix(s.subrange(2, 6), 4),
            ) {
                None
            } else {
                prefixed(seq![(hex_prefix(s.subrange(2, 6), 4) as u32) as char], unescaped(s.skip(6)))
            }
        } else {
            prefixed(seq![escaped_char(s[1])], unescaped(s.skip(2)))
        }
    } else {
        prefixed(seq![s[0]], unescaped(s.drop_first()))
    }
}

/// The value of a hexadecimal digit.
fn hex_value(c: char) -> (res: Option<u32>)
    ensures
        res matches Some(v) ==> v < 16,
        res is Some <==> hex_digit(c) is Some,
        res matches Some(v) ==> v == hex_digit(c)->0,
{
    if '0' <= c && c <= '9' {
        Some(c as u32 - '0' as u32)
    } else if 'a' <= c && c <= 'f' {
        Some(c as u32 - 'a' as u32 + 10)
    } else if 'A' <= c && c <= 'F' {
        Some(c as u32 - 'A' as u32 + 10)
    } else {
        None
    }
}

/// `char::from_u32`: the character with the code `u`, `None` for a
/// surrogate code or a code beyond `0x10FFFF`.
#[verifier::external_body]
fn char_from_u32(u: u32) -> (res: Option<char>)
    ensures
        res is Some <==> (u < 0xD800 || (0xE000 <= u && u <= 0x10FFFF)),
        res matches Some(c) ==> c as u32 == u,
{
    char::from_u32(u)
}

/// The text of a string literal with its escapes replaced: `\n`, `\r`,
/// `\t`, `\uXXXX`, and a backslash before any other character stands for
/// that character.
#[verifier::loop_isolation(false)]
#[verifier::rlimit(40)]
pub fn unescape_str(raw: &str) -> (res: Result<String, Error>)
    ensures
        parse_err(res),
        match unescaped(raw@) {
            Some(t) => res matches Ok(s) && s@ == t,
            None => res is Err,
        },
{
    let cs = chars_of(raw);
    let mut out: Vec<char> = Vec::new();
    let mut i: usize = 0;
    proof { assert(cs@.skip(0) =~= cs@); }
    while i < cs.len()
        invariant
            i <= cs@.len(),
            cs@ == raw@,
            unescaped(cs@) == prefixed(out@, unescaped(cs@.skip(i as int))),
        decreases cs.len() - i,
    {
        let ghost rest = cs@.skip(i as int);
        let ghost o0 = out@;
        let c = cs[i];
        if c == '\\' && cs.len() - i > 1 {
            let d = cs[i + 1];
            if d == 'u' {
                if cs.len() - i < 6 {
                    return Err(err_msg(ErrorType::Parse, "Invalid unicode escape"));
                }
                let ghost hs = cs@.subrange(i + 2, i + 6);
                proof { assert(rest.subrange(2, 6) =~= hs); }
                let mut u: u32 = 0;
                let mut k: usize = 0;
                while k < 4
                    invariant
                        k <= 4,
                        i + 6 <= cs@.len(),
                        u < 0x10000,
                        u < pow16(k as nat),
                        u == hex_prefix(hs, k as nat),
                        forall|j: int| 0 <= j < k ==> #[trigger] hex_digit(hs[j]) is Some,
                    decreases 4 - k,
                {
                    match hex_value(cs[i + 2 + k]) {
                        Some(v) => {
                            proof { lemma_pow16_step(k as nat, u as int, v as int); }
                            u = u * 16 + v;
                        },
                        None => {
                            proof {
                                assert(hs[k as int] == rest[2 + k]);
                                assert(!(forall|j: int| 2 <= j < 6 ==> #[trigger] hex_digit(rest[j]) is Some));
                            }
                            return Err(err_msg(ErrorType::Parse, "Invalid unicode escape"));
                        },
                    }
                    k = k + 1;
                }
                proof {
                    assert forall|j: int| 2 <= j < 6 implies #[trigger] hex_digit(rest[j]) is Some by {
                        assert(rest[j] == hs[j - 2]);
                    }
                }
                match char_from_u32(u) {
                    Some(ch) => {
                        out.push(ch);
                        proof {
                            vstd::utf8::char_u32_cast(ch, u);
                            assert(ch == ((hex_prefix(hs, 4) as u32) as char));
                            assert(rest.skip(6) =~= cs@.skip(i + 6));
                            assert(out@ =~= o0 + seq![ch]);
                        }
                    },
                    None => {
                        return Err(err_msg(ErrorType::Parse, "Invalid unicode escape"));
                    },
                }
                i = i + 6;
            } else {
                let e = if d == 'n' {
                    '\n'
                } else if d == 'r' {
                    '\r'
                } else if d == 't' {
                    '\t'
                } else {
                    d
                };
                out.push(e);
                proof {
                    assert(rest.skip(2) =~= cs@.skip(i + 2));
                    assert(out@ =~= o0 + seq![e]);
                }
                i = i + 2;
            }
        } else {
            out.push(c);
            proof {
                assert(rest.drop_first() =~= cs@.skip(i + 1));
                assert(out@ =~= o0 + seq![c]);
            }
            i = i + 1;
        }
    }
    proof { assert(cs@.skip(i as int) =~= Seq::<char>::empty()); }
    Ok(string_of(&out))
}

/// `16` to the power `k`.
pub open spec fn pow16(k: nat) -> int
    decreases k,
{
    if k == 0 {
        1
    } else {
        16 * pow16((k - 1) as nat)
    }
}

proof fn lemma_pow16_step(k: nat, u: int, v: int)
    requires
        k < 4,
        0 <= u < pow16(k),
        0 <= v < 16,
    ensures
        u * 16 + v < pow16(k + 1),
        pow16(k + 1) <= 0x10000,
{
    reveal_with_fuel(pow16, 5);
    assert(u * 16 + v < pow16(k) * 16) by (nonlinear_arith)
        requires
            0 <= u < pow16(k),
            0 <= v < 16,
    ;
}


proof fn lemma_steps(a: ExprPool, b: ExprPool, c: ExprPool, pa: Parser, pb: Parser, pc: Parser)
    requires
        grown(b, a),
        grown(c, b),
        pb.follows(pa),
        pc.follows(pb),
    ensures
        grown(c, a),
        pc.follows(pa),
{
    lemma_extends_trans(c, b, a);
    Parser::lemma_follows_trans(pa, pb, pc);
}

impl Parser {
    proof fn lemma_follows_trans(a: Parser, b: Parser, c: Parser)
        requires
            b.follows(a),
            c.follows(b),
        ensures
            c.follows(a),
    {
    }
}

fn impl_op(p: &Parser) -> (res: Option<ExprBinOp>)
    requires
        p.inv(),
    ensures
        res is Some ==> p.remaining() > 0,
        res == match p.next_kind() {
            Some(TokKind::Impl) => Some(ExprBinOp::LogImpl),
            _ => None,
        },
{
    match p.peek() {
        Some(TokKind::Impl) => Some(ExprBinOp::LogImpl),
        _ => None,
    }
}

#[verifier::loop_isolation(false)]
#[verifier::rlimit(100)]
#[verifier::spinoff_prover]
fn parse_impl(p: &mut Parser, pool: &mut ExprPool, fuel: u64) -> (res: Result<Expr, Error>)
    requires
        old(p).inv(),
        old(pool).wf(),
    ensures
        final(p).follows(*old(p)),
        final(p).inv(),
        grown(*final(pool), *old(pool)),
        res matches Ok(e) ==> final(pool).valid(e),
        res is Ok ==> final(p).remaining() < old(p).remaining(),
        parse_err(res),
        old(p).at_atom() && fuel > 0 && !continues(19, old(p).kind_at(1)) ==> reads_atom(*old(p), *final(p), *final(pool), res)
            && only_pushed(*final(pool), *old(pool)),
        old(p).at_binop(19) && fuel > 0 ==> reads_binop(*old(p), *final(p), *final(pool), res)
            && only_pushed(*final(pool), *old(pool)),
        old(p).flat_at(19) && fuel > 0 ==> reads_flat(*old(p), *final(p), *final(pool), res, 19) && only_pushed(
            *final(pool),
            *old(pool),
        ),
    decreases fuel, 19int,
{
    let ghost p0 = *pool;
    let ghost q0 = *p;
    let ghost fl = q0.flat_at(19) && fuel > 0;
    let ghost fj = choose|j: int| #[trigger] seg(q0.tokens(), q0.at_pos(), j, 19);
    let ghost ts = q0.tokens();
    let ghost i0 = q0.at_pos();
    proof {
        if fl {
            lemma_operand_end(ts, i0, fj, 19);
            assert(seg(q0.tokens(), q0.at_pos(), operand_end(ts, i0, fj, 19), 18));
            assert(q0.flat_at(18));
        }
    }
    let first = parse_or(p, pool, fuel)?;
    let ghost bready = q0.at_binop(19) && fuel > 0;
    let ghost own = bready && op_level(q0.kind_at(1)->Some_0) == 19;
    let ghost pass = bready && op_level(q0.kind_at(1)->Some_0) < 19;
    let ghost ready = q0.at_atom() && fuel > 0 && !continues(19, q0.kind_at(1));
    let ghost pf = *pool;
    let ghost mut bnd: Seq<int> = seq![i0, p.at_pos() + 1];
    proof {
        if fl {
            lemma_seg_unique(ts, i0, p.at_pos(), operand_end(ts, i0, fj, 19), 18);
        }
    }
    let mut operands: Vec<Expr> = Vec::new();
    let mut ops: Vec<ExprBinOp> = Vec::new();
    let mut spans: Vec<usize> = Vec::new();
    operands.push(first);
    spans.push(p.here().0);
    while impl_op(p).is_some()
        invariant
            p.inv(),
            p.follows(q0),
            p.remaining() < q0.remaining(),
            grown(*pool, p0),
            vec_ok(operands@, pool.size()),
            operands@.len() == ops@.len() + 1,
            ready ==> p.remaining() + 1 == q0.remaining() && *pool == pf && ops@.len() == 0 && operands@[0] == first,
            own ==> operands@[0] == first && only_pushed(*pool, pf) && ((p.remaining() + 1 == q0.remaining() && ops@.len()
                == 0 && *pool == pf) || (p.remaining() + 3 == q0.remaining() && ops@.len() == 1 && Some(ops@[0])
                == binop_kind(q0.kind_at(1)->Some_0) && operands@.len() == 2 && atom_node(*pool, operands@[1], q0.tok_at(2)))),
            pass ==> p.remaining() + 3 == q0.remaining() && *pool == pf && ops@.len() == 0 && operands@[0] == first,
            fl ==> p.tokens() == ts && bnd.len() == operands@.len() + 1 && bnd[0] == i0 && bnd.last() == p.at_pos() + 1
                && i0 < p.at_pos() <= fj && (p.at_pos() - i0) % 2 == 1 && (p.at_pos() < fj ==> op_at(ts, p.at_pos(), 19))
                && only_pushed(*pool, p0) && (forall|m: int| 0 <= m < operands@.len() ==> chain_operand(
                *pool,
                ts,
                bnd,
                m,
                #[trigger] operands@[m],
                19,
            )) && (forall|m: int| 0 <= m < ops@.len() ==> chain_op(ts, bnd, m, #[trigger] ops@[m], 19)),
        decreases p.remaining(),
    {
        let op = match impl_op(p) {
            Some(o) => o,
            None => ExprBinOp::Add,
        };
        let ghost before = *pool;
        let ghost qb = *p;
        let ghost c = p.at_pos();
        p.advance();
        proof {
            if fl {
                lemma_flat_suffix(ts, i0, c, fj, 19);
                lemma_operand_end(ts, c + 1, fj, 19);
                assert(p.tokens() == ts && p.at_pos() == c + 1);
                assert(seg(p.tokens(), p.at_pos(), operand_end(ts, c + 1, fj, 19), 18));
                assert(p.flat_at(18));
            }
        }
        let r = parse_or(p, pool, fuel);
        proof { lemma_steps(p0, before, *pool, q0, qb, *p); }
        let rhs = r?;
        proof {
            if fl {
                lemma_seg_unique(ts, c + 1, p.at_pos(), operand_end(ts, c + 1, fj, 19), 18);
            }
        }
        let ghost ops0 = ops@;
        let ghost operands0 = operands@;
        ops.push(op);
        operands.push(rhs);
        proof {
            if fl {
                lemma_chain_extend(before, *pool, ts, bnd, operands0, ops0, rhs, op, p.at_pos(), 19);
                assert(operands@ == operands0.push(rhs));
                assert(ops@ == ops0.push(op));
                bnd = bnd.push(p.at_pos() + 1);
                lemma_only_pushed_trans(*pool, before, p0);
            }
        }
    }
    let ghost pm = *pool;
    proof {
        if fl {
            assert(p.at_pos() == fj);
            let n = ops@.len() as int;
            assert(chain_operand(*pool, ts, bnd, n, operands@[n], 19));
            lemma_no_op(ts, bnd[n], fj, 19);
        }
    }
    let mut k: usize = ops.len();
    let mut acc = operands[k];
    while k > 0
        invariant
            k <= ops@.len(),
            operands@.len() == ops@.len() + 1,
            grown(*pool, p0),
            vec_ok(operands@, pool.size()),
            pool.valid(acc),
            ready ==> k == 0 && *pool == pf && acc == first,
            fl ==> only_pushed(*pool, pm) && bnd.len() == operands@.len() + 1 && bnd[0] == i0 && bnd.last() == fj + 1
                && ftree(*pool, acc, ts, bnd[k as int], fj, 19) && (forall|m: int| 0 <= m < operands@.len() ==> chain_operand(
                pm,
                ts,
                bnd,
                m,
                #[trigger] operands@[m],
                19,
            )) && (forall|m: int| 0 <= m < ops@.len() ==> chain_op(ts, bnd, m, #[trigger] ops@[m], 19)),
            own ==> only_pushed(*pool, pm) && ((k == 1 && acc == operands@[1] && *pool == pm) || (k == 0 && binop_node(
                *pool,
                acc,
                binop_kind(q0.kind_at(1)->Some_0),
                q0.next_tok(),
                q0.tok_at(2),
            ))),
            pass ==> k == 0 && *pool == pf && acc == first,
        decreases k,
    {
        k = k - 1;
        let ghost mid = *pool;
        let ghost acc0 = acc;
        let loc = p.loc_from(p.here().0);
        acc = pool.push(ExprType::BinOp(ops[k], operands[k], acc), loc);
        proof {
            lemma_extends_trans(*pool, mid, p0);
            if fl {
                assert(chain_operand(pm, ts, bnd, k as int, operands@[k as int], 19));
                assert(chain_op(ts, bnd, k as int, ops@[k as int], 19));
                lemma_chain_step(*pool, pm, mid, ts, bnd, fj, k as int, operands@[k as int], ops@[k as int], acc0, acc, 19);
            }
        }
    }
    Ok(acc)
}

fn or_op(p: &Parser) -> (res: Option<ExprBinOp>)
    requires
        p.inv(),
    ensures
        res is Some ==> p.remaining() > 0,
        res == match p.next_kind() {
            Some(TokKind::Or) => Some(ExprBinOp::LogOr),
            _ => None,
        },
{
    match p.peek() {
        Some(TokKind::Or) => Some(ExprBinOp::LogOr),
        _ => None,
    }
}

#[verifier::loop_isolation(false)]
#[verifier::rlimit(60)]
fn parse_or(p: &mut Parser, pool: &mut ExprPool, fuel: u64) -> (res: Result<Expr, Error>)
    requires
        old(p).inv(),
        old(pool).wf(),
    ensures
        final(p).follows(*old(p)),
        final(p).inv(),
        grown(*final(pool), *old(pool)),
        res matches Ok(e) ==> final(pool).valid(e),
        res is Ok ==> final(p).remaining() < old(p).remaining(),
        parse_err(res),
        old(p).at_atom() && fuel > 0 && !continues(18, old(p).kind_at(1)) ==> reads_atom(*old(p), *final(p), *final(pool), res)
            && only_pushed(*final(pool), *old(pool)),
        old(p).at_binop(18) && fuel > 0 ==> reads_binop(*old(p), *final(p), *final(pool), res)
            && only_pushed(*final(pool), *old(pool)),
        old(p).flat_at(18) && fuel > 0 ==> reads_flat(*old(p), *final(p), *final(pool), res, 18) && only_pushed(
            *final(pool),
            *old(pool),
        ),
    decreases fuel, 18int,
{
    let ghost p0 = *pool;
    let ghost q0 = *p;
    let start = p.here().0;
    let ghost fl = q0.flat_at(18) && fuel > 0;
    let ghost fj = choose|j: int| #[trigger] seg(q0.tokens(), q0.at_pos(), j, 18);
    let ghost ts = q0.tokens();
    let ghost i0 = q0.at_pos();
    proof {
        if fl {
            lemma_operand_end(ts, i0, fj, 18);
            lemma_flat_prefix(ts, i0, operand_end(ts, i0, fj, 18), fj, 18);
            assert(q0.flat_at(17));
        }
    }
    let mut lhs = parse_and(p, pool, fuel)?;
    proof {
        if fl {
            lemma_seg_unique(ts, i0, p.at_pos(), operand_end(ts, i0, fj, 18), 17);
            lemma_no_op(ts, i0, p.at_pos(), 18);
        }
    }
    let ghost bready = q0.at_binop(18) && fuel > 0;
    let ghost own = bready && op_level(q0.kind_at(1)->Some_0) == 18;
    let ghost pass = bready && op_level(q0.kind_at(1)->Some_0) < 18;
    let ghost ready = q0.at_atom() && fuel > 0 && !continues(18, q0.kind_at(1));
    let ghost pf = *pool;
    let ghost l0 = lhs;
    while or_op(p).is_some()
        invariant
            p.inv(),
            p.follows(q0),
            p.remaining() < q0.remaining(),
            grown(*pool, p0),
            pool.valid(lhs),
            fl ==> p.tokens() == ts && i0 < p.position() <= fj && (p.position() - i0) % 2 == 1 && (p.position() < fj
                ==> op_at(ts, p.at_pos(), 18)) && ftree(*pool, lhs, ts, i0, p.at_pos(), 18) && only_pushed(
                *pool,
                p0,
            ),
            ready ==> p.remaining() + 1 == q0.remaining() && *pool == pf && lhs == l0,
            own ==> only_pushed(*pool, pf) && ((p.remaining() + 1 == q0.remaining() && *pool == pf && lhs == l0) || (
            p.remaining() + 3 == q0.remaining() && binop_node(
                *pool,
                lhs,
                binop_kind(q0.kind_at(1)->Some_0),
                q0.next_tok(),
                q0.tok_at(2),
            ))),
            pass ==> p.remaining() + 3 == q0.remaining() && *pool == pf && lhs == l0,
        decreases p.remaining(),
    {
        let op = match or_op(p) {
            Some(o) => o,
            None => ExprBinOp::Add,
        };
        let ghost before = *pool;
        let ghost qb = *p;
        let ghost lhs_before = lhs;
        let ghost c = p.at_pos();
        p.advance();
        proof {
            if fl {
                lemma_flat_suffix(ts, i0, c, fj, 18);
                lemma_operand_end(ts, c + 1, fj, 18);
                lemma_flat_prefix(ts, c + 1, operand_end(ts, c + 1, fj, 18), fj, 18);
                let s1 = operand_end(ts, c + 1, fj, 18);
                assert(p.tokens() == ts && p.position() == c + 1);
                assert(seg(p.tokens(), p.at_pos(), s1, 17));
                assert(p.flat_at(17));
            }
        }
        let r = parse_and(p, pool, fuel);
        proof { lemma_steps(p0, before, *pool, q0, qb, *p); }
        let rhs = r?;
        let loc = p.loc_from(start);
        let ghost mid = *pool;
        lhs = pool.push(ExprType::BinOp(op, lhs, rhs), loc);
        proof {
            lemma_extends_trans(*pool, mid, p0);
            if fl {
                let s2 = p.at_pos();
                lemma_seg_unique(ts, c + 1, s2, operand_end(ts, c + 1, fj, 18), 17);
                lemma_only_pushed_trans(*pool, mid, before);
                lemma_only_pushed_trans(*pool, before, p0);
                lemma_ftree_kept(before, *pool, lhs_before, ts, i0, c, 18);
                lemma_ftree_kept(mid, *pool, rhs, ts, c + 1, s2, 17);
                lemma_flat_prefix(ts, i0, s2, fj, 18);
                lemma_last_at(ts, i0, c, s2, 18);
                assert(ftree(*pool, lhs, ts, i0, s2, 18));
            }
        }
    }
    proof {
        if fl {
            assert(p.position() == fj);
        }
    }
    Ok(lhs)
}

fn and_op(p: &Parser) -> (res: Option<ExprBinOp>)
    requires
        p.inv(),
    ensures
        res is Some ==> p.remaining() > 0,
        res == match p.next_kind() {
            Some(TokKind::And) => Some(ExprBinOp::LogAnd),
            _ => None,
        },
{
    match p.peek() {
        Some(TokKind::And) => Some(ExprBinOp::LogAnd),
        _ => None,
    }
}

#[verifier::loop_isolation(false)]
#[verifier::rlimit(60)]
fn parse_and(p: &mut Parser, pool: &mut ExprPool, fuel: u64) -> (res: Result<Expr, Error>)
    requires
        old(p).inv(),
        old(pool).wf(),
    ensures
        final(p).follows(*old(p)),
        final(p).inv(),
        grown(*final(pool), *old(pool)),
        res matches Ok(e) ==> final(pool).valid(e),
        res is Ok ==> final(p).remaining() < old(p).remaining(),
        parse_err(res),
        old(p).at_atom() && fuel > 0 && !continues(17, old(p).kind_at(1)) ==> reads_atom(*old(p), *final(p), *final(pool), res)
            && only_pushed(*final(pool), *old(pool)),
        old(p).at_binop(17) && fuel > 0 ==> reads_binop(*old(p), *final(p), *final(pool), res)
            && only_pushed(*final(pool), *old(pool)),
        old(p).flat_at(17) && fuel > 0 ==> reads_flat(*old(p), *final(p), *final(pool), res, 17) && only_pushed(
            *final(pool),
            *old(pool),
        ),
    decreases fuel, 17int,
{
    let ghost p0 = *pool;
    let ghost q0 = *p;
    let start = p.here().0;
    let ghost fl = q0.flat_at(17) && fuel > 0;
    let ghost fj = choose|j: int| #[trigger] seg(q0.tokens(), q0.at_pos(), j, 17);
    let ghost ts = q0.tokens();
    let ghost i0 = q0.at_pos();
    proof {
        if fl {
            lemma_operand_end(ts, i0, fj, 17);
            lemma_flat_prefix(ts, i0, operand_end(ts, i0, fj, 17), fj, 17);
            assert(q0.flat_at(16));
        }
    }
    let mut lhs = parse_cmp(p, pool, fuel)?;
    proof {
        if fl {
            lemma_seg_unique(ts, i0, p.at_pos(), operand_end(ts, i0, fj, 17), 16);
            lemma_no_op(ts, i0, p.at_pos(), 17);
        }
    }
    let ghost bready = q0.at_binop(17) && fuel > 0;
    let ghost own = bready && op_level(q0.kind_at(1)->Some_0) == 17;
    let ghost pass = bready && op_level(q0.kind_at(1)->Some_0) < 17;
    let ghost ready = q0.at_atom() && fuel > 0 && !continues(17, q0.kind_at(1));
    let ghost pf = *pool;
    let ghost l0 = lhs;
    while and_op(p).is_some()
        invariant
            p.inv(),
            p.follows(q0),
            p.remaining() < q0.remaining(),
            grown(*pool, p0),
            pool.valid(lhs),
            fl ==> p.tokens() == ts && i0 < p.position() <= fj && (p.position() - i0) % 2 == 1 && (p.position() < fj
                ==> op_at(ts, p.at_pos(), 17)) && ftree(*pool, lhs, ts, i0, p.at_pos(), 17) && only_pushed(
                *pool,
                p0,
            ),
            ready ==> p.remaining() + 1 == q0.remaining() && *pool == pf && lhs == l0,
            own ==> only_pushed(*pool, pf) && ((p.remaining() + 1 == q0.remaining() && *pool == pf && lhs == l0) || (
            p.remaining() + 3 == q0.remaining() && binop_node(
                *pool,
                lhs,
                binop_kind(q0.kind_at(1)->Some_0),
                q0.next_tok(),
                q0.tok_at(2),
            ))),
            pass ==> p.remaining() + 3 == q0.remaining() && *pool == pf && lhs == l0,
        decreases p.remaining(),
    {
        let op = match and_op(p) {
            Some(o) => o,
            None => ExprBinOp::Add,
        };
        let ghost before = *pool;
        let ghost qb = *p;
        let ghost lhs_before = lhs;
        let ghost c = p.at_pos();
        p.advance();
        proof {
            if fl {
                lemma_flat_suffix(ts, i0, c, fj, 17);
                lemma_operand_end(ts, c + 1, fj, 17);
                lemma_flat_prefix(ts, c + 1, operand_end(ts, c + 1, fj, 17), fj, 17);
                let s1 = operand_end(ts, c + 1, fj, 17);
                assert(p.tokens() == ts && p.position() == c + 1);
                assert(seg(p.tokens(), p.at_pos(), s1, 16));
                assert(p.flat_at(16));
            }
        }
        let r = parse_cmp(p, pool, fuel);
        proof { lemma_steps(p0, before, *pool, q0, qb, *p); }
        let rhs = r?;
        let loc = p.loc_from(start);
        let ghost mid = *pool;
        lhs = pool.push(ExprType::BinOp(op, lhs, rhs), loc);
        proof {
            lemma_extends_trans(*pool, mid, p0);
            if fl {
                let s2 = p.at_pos();
                lemma_seg_unique(ts, c + 1, s2, operand_end(ts, c + 1, fj, 17), 16);
                lemma_only_pushed_trans(*pool, mid, before);
                lemma_only_pushed_trans(*pool, before, p0);
                lemma_ftree_kept(before, *pool, lhs_before, ts, i0, c, 17);
                lemma_ftree_kept(mid, *pool, rhs, ts, c + 1, s2, 16);
                lemma_flat_prefix(ts, i0, s2, fj, 17);
                lemma_last_at(ts, i0, c, s2, 17);
                assert(ftree(*pool, lhs, ts, i0, s2, 17));
            }
        }
    }
    proof {
        if fl {
            assert(p.position() == fj);
        }
    }
    Ok(lhs)
}

fn cmp_op(p: &Parser) -> (res: Option<ExprBinOp>)
    requires
        p.inv(),
    ensures
        res is Some ==> p.remaining() > 0,
        res == match p.next_kind() {
            Some(TokKind::Lt) => Some(ExprBinOp::Lt),
            Some(TokKind::Le) => Some(ExprBinOp::Le),
            Some(TokKind::Gt) => Some(ExprBinOp::Gt),
            Some(TokKind::Ge) => Some(ExprBinOp::Ge),
            Some(TokKind::EqEq) => Some(ExprBinOp::Eq),
            Some(TokKind::Neq) => Some(ExprBinOp::Neq),
            _ => None,
        },
{
    match p.peek() {
        Some(TokKind::Lt) => Some(ExprBinOp::Lt),
        Some(TokKind::Le) => Some(ExprBinOp::Le),
        Some(TokKind::Gt) => Some(ExprBinOp::Gt),
        Some(TokKind::Ge) => Some(ExprBinOp::Ge),
        Some(TokKind::EqEq) => Some(ExprBinOp::Eq),
        Some(TokKind::Neq) => Some(ExprBinOp::Neq),
        _ => None,
    }
}

#[verifier::loop_isolation(false)]
#[verifier::rlimit(60)]
fn parse_cmp(p: &mut Parser, pool: &mut ExprPool, fuel: u64) -> (res: Result<Expr, Error>)
    requires
        old(p).inv(),
        old(pool).wf(),
    ensures
        final(p).follows(*old(p)),
        final(p).inv(),
        grown(*final(pool), *old(pool)),
        res matches Ok(e) ==> final(pool).valid(e),
        res is Ok ==> final(p).remaining() < old(p).remaining(),
        parse_err(res),
        old(p).at_atom() && fuel > 0 && !continues(16, old(p).kind_at(1)) ==> reads_atom(*old(p), *final(p), *final(pool), res)
            && only_pushed(*final(pool), *old(pool)),
        old(p).at_binop(16) && fuel > 0 ==> reads_binop(*old(p), *final(p), *final(pool), res)
            && only_pushed(*final(pool), *old(pool)),
        old(p).flat_at(16) && fuel > 0 ==> reads_flat(*old(p), *final(p), *final(pool), res, 16) && only_pushed(
            *final(pool),
            *old(pool),
        ),
    decreases fuel, 16int,
{
    let ghost p0 = *pool;
    let ghost q0 = *p;
    let start = p.here().0;
    let ghost fl = q0.flat_at(16) && fuel > 0;
    let ghost fj = choose|j: int| #[trigger] seg(q0.tokens(), q0.at_pos(), j, 16);
    let ghost ts = q0.tokens();
    let ghost i0 = q0.at_pos();
    proof {
        if fl {
            lemma_operand_end(ts, i0, fj, 16);
            lemma_flat_prefix(ts, i0, operand_end(ts, i0, fj, 16), fj, 16);
            assert(q0.flat_at(15));
        }
    }
    let mut lhs = parse_update(p, pool, fuel)?;
    proof {
        if fl {
            lemma_seg_unique(ts, i0, p.at_pos(), operand_end(ts, i0, fj, 16), 15);
            lemma_no_op(ts, i0, p.at_pos(), 16);
        }
    }
    let ghost bready = q0.at_binop(16) && fuel > 0;
    let ghost own = bready && op_level(q0.kind_at(1)->Some_0) == 16;
    let ghost pass = bready && op_level(q0.kind_at(1)->Some_0) < 16;
    let ghost ready = q0.at_atom() && fuel > 0 && !continues(16, q0.kind_at(1));
    let ghost pf = *pool;
    let ghost l0 = lhs;
    while cmp_op(p).is_some()
        invariant
            p.inv(),
            p.follows(q0),
            p.remaining() < q0.remaining(),
            grown(*pool, p0),
            pool.valid(lhs),
            fl ==> p.tokens() == ts && i0 < p.position() <= fj && (p.position() - i0) % 2 == 1 && (p.position() < fj
                ==> op_at(ts, p.at_pos(), 16)) && ftree(*pool, lhs, ts, i0, p.at_pos(), 16) && only_pushed(
                *pool,
                p0,
            ),
            ready ==> p.remaining() + 1 == q0.remaining() && *pool == pf && lhs == l0,
            own ==> only_pushed(*pool, pf) && ((p.remaining() + 1 == q0.remaining() && *pool == pf && lhs == l0) || (
            p.remaining() + 3 == q0.remaining() && binop_node(
                *pool,
                lhs,
                binop_kind(q0.kind_at(1)->Some_0),
                q0.next_tok(),
                q0.tok_at(2),
            ))),
            pass ==> p.remaining() + 3 == q0.remaining() && *pool == pf && lhs == l0,
        decreases p.remaining(),
    {
        let op = match cmp_op(p) {
            Some(o) => o,
            None => ExprBinOp::Add,
        };
        let ghost before = *pool;
        let ghost qb = *p;
        let ghost lhs_before = lhs;
        let ghost c = p.at_pos();
        p.advance();
        proof {
            if fl {
                lemma_flat_suffix(ts, i0, c, fj, 16);
                lemma_operand_end(ts, c + 1, fj, 16);
                lemma_flat_prefix(ts, c + 1, operand_end(ts, c + 1, fj, 16), fj, 16);
                let s1 = operand_end(ts, c + 1, fj, 16);
                assert(p.tokens() == ts && p.position() == c + 1);
                assert(seg(p.tokens(), p.at_pos(), s1, 15));
                assert(p.flat_at(15));
            }
        }
        let r = parse_update(p, pool, fuel);
        proof { lemma_steps(p0, before, *pool, q0, qb, *p); }
        let rhs = r?;
        let loc = p.loc_from(start);
        let ghost mid = *pool;
        lhs = pool.push(ExprType::BinOp(op, lhs, rhs), loc);
        proof {
            lemma_extends_trans(*pool, mid, p0);
            if fl {
                let s2 = p.at_pos();
                lemma_seg_unique(ts, c + 1, s2, operand_end(ts, c + 1, fj, 16), 15);
                lemma_only_pushed_trans(*pool, mid, before);
                lemma_only_pushed_trans(*pool, before, p0);
                lemma_ftree_kept(before, *pool, lhs_before, ts, i0, c, 16);
                lemma_ftree_kept(mid, *pool, rhs, ts, c + 1, s2, 15);
                lemma_flat_prefix(ts, i0, s2, fj, 16);
                lemma_last_at(ts, i0, c, s2, 16);
                assert(ftree(*pool, lhs, ts, i0, s2, 16));
            }
        }
    }
    proof {
        if fl {
            assert(p.position() == fj);
        }
    }
    Ok(lhs)
}

fn update_op(p: &Parser) -> (res: Option<ExprBinOp>)
    requires
        p.inv(),
    ensures
        res is Some ==> p.remaining() > 0,
        res == match p.next_kind() {
            Some(TokKind::Update) => Some(ExprBinOp::Update),
            _ => None,
        },
{
    match p.peek() {
        Some(TokKind::Update) => Some(ExprBinOp::Update),
        _ => None,
    }
}

#[verifier::loop_isolation(false)]
#[verifier::rlimit(100)]
#[verifier::spinoff_prover]
fn parse_update(p: &mut Parser, pool: &mut ExprPool, fuel: u64) -> (res: Result<Expr, Error>)
    requires
        old(p).inv(),
        old(pool).wf(),
    ensures
        final(p).follows(*old(p)),
        final(p).inv(),
        grown(*final(pool), *old(pool)),
        res matches Ok(e) ==> final(pool).valid(e),
        res is Ok ==> final(p).remaining() < old(p).remaining(),
        parse_err(res),
        old(p).at_atom() && fuel > 0 && !continues(15, old(p).kind_at(1)) ==> reads_atom(*old(p), *final(p), *final(pool), res)
            && only_pushed(*final(pool), *old(pool)),
        old(p).at_binop(15) && fuel > 0 ==> reads_binop(*old(p), *final(p), *final(pool), res)
            && only_pushed(*final(pool), *old(pool)),
        old(p).flat_at(15) && fuel > 0 ==> reads_flat(*old(p), *final(p), *final(pool), res, 15) && only_pushed(
            *final(pool),
            *old(pool),
        ),
    decreases fuel, 15int,
{
    let ghost p0 = *pool;
    let ghost q0 = *p;
    let ghost fl = q0.flat_at(15) && fuel > 0;
    let ghost fj = choose|j: int| #[trigger] seg(q0.tokens(), q0.at_pos(), j, 15);
    let ghost ts = q0.tokens();
    let ghost i0 = q0.at_pos();
    proof {
        if fl {
            lemma_operand_end(ts, i0, fj, 15);
            assert(seg(q0.tokens(), q0.at_pos(), operand_end(ts, i0, fj, 15), 14));
            assert(q0.flat_at(14));
        }
    }
    let first = parse_not(p, pool, fuel)?;
    let ghost bready = q0.at_binop(15) && fuel > 0;
    let ghost own = bready && op_level(q0.kind_at(1)->Some_0) == 15;
    let ghost pass = bready && op_level(q0.kind_at(1)->Some_0) < 15;
    let ghost ready = q0.at_atom() && fuel > 0 && !continues(15, q0.kind_at(1));
    let ghost pf = *pool;
    let ghost mut bnd: Seq<int> = seq![i0, p.at_pos() + 1];
    proof {
        if fl {
            lemma_seg_unique(ts, i0, p.at_pos(), operand_end(ts, i0, fj, 15), 14);
        }
    }
    let mut operands: Vec<Expr> = Vec::new();
    let mut ops: Vec<ExprBinOp> = Vec::new();
    let mut spans: Vec<usize> = Vec::new();
    operands.push(first);
    spans.push(p.here().0);
    while update_op(p).is_some()
        invariant
            p.inv(),
            p.follows(q0),
            p.remaining() < q0.remaining(),
            grown(*pool, p0),
            vec_ok(operands@, pool.size()),
            operands@.len() == ops@.len() + 1,
            ready ==> p.remaining() + 1 == q0.remaining() && *pool == pf && ops@.len() == 0 && operands@[0] == first,
            own ==> operands@[0] == first && only_pushed(*pool, pf) && ((p.remaining() + 1 == q0.remaining() && ops@.len()
                == 0 && *pool == pf) || (p.remaining() + 3 == q0.remaining() && ops@.len() == 1 && Some(ops@[0])
                == binop_kind(q0.kind_at(1)->Some_0) && operands@.len() == 2 && atom_node(*pool, operands@[1], q0.tok_at(2)))),
            pass ==> p.remaining() + 3 == q0.remaining() && *pool == pf && ops@.len() == 0 && operands@[0] == first,
            fl ==> p.tokens() == ts && bnd.len() == operands@.len() + 1 && bnd[0] == i0 && bnd.last() == p.at_pos() + 1
                && i0 < p.at_pos() <= fj && (p.at_pos() - i0) % 2 == 1 && (p.at_pos() < fj ==> op_at(ts, p.at_pos(), 15))
                && only_pushed(*pool, p0) && (forall|m: int| 0 <= m < operands@.len() ==> chain_operand(
                *pool,
                ts,
                bnd,
                m,
                #[trigger] operands@[m],
                15,
            )) && (forall|m: int| 0 <= m < ops@.len() ==> chain_op(ts, bnd, m, #[trigger] ops@[m], 15)),
        decreases p.remaining(),
    {
        let op = match update_op(p) {
            Some(o) => o,
            None => ExprBinOp::Add,
        };
        let ghost before = *pool;
        let ghost qb = *p;
        let ghost c = p.at_pos();
        p.advance();
        proof {
            if fl {
                lemma_flat_suffix(ts, i0, c, fj, 15);
                lemma_operand_end(ts, c + 1, fj, 15);
                assert(p.tokens() == ts && p.at_pos() == c + 1);
                assert(seg(p.tokens(), p.at_pos(), operand_end(ts, c + 1, fj, 15), 14));
                assert(p.flat_at(14));
            }
        }
        let r = parse_not(p, pool, fuel);
        proof { lemma_steps(p0, before, *pool, q0, qb, *p); }
        let rhs = r?;
        proof {
            if fl {
                lemma_seg_unique(ts, c + 1, p.at_pos(), operand_end(ts, c + 1, fj, 15), 14);
            }
        }
        let ghost ops0 = ops@;
        let ghost operands0 = operands@;
        ops.push(op);
        operands.push(rhs);
        proof {
            if fl {
                lemma_chain_extend(before, *pool, ts, bnd, operands0, ops0, rhs, op, p.at_pos(), 15);
                assert(operands@ == operands0.push(rhs));
                assert(ops@ == ops0.push(op));
                bnd = bnd.push(p.at_pos() + 1);
                lemma_only_pushed_trans(*pool, before, p0);
            }
        }
    }
    let ghost pm = *pool;
    proof {
        if fl {
            assert(p.at_pos() == fj);
            let n = ops@.len() as int;
            assert(chain_operand(*pool, ts, bnd, n, operands@[n], 15));
            lemma_no_op(ts, bnd[n], fj, 15);
        }
    }
    let mut k: usize = ops.len();
    let mut acc = operands[k];
    while k > 0
        invariant
            k <= ops@.len(),
            operands@.len() == ops@.len() + 1,
            grown(*pool, p0),
            vec_ok(operands@, pool.size()),
            pool.valid(acc),
            ready ==> k == 0 && *pool == pf && acc == first,
            fl ==> only_pushed(*pool, pm) && bnd.len() == operands@.len() + 1 && bnd[0] == i0 && bnd.last() == fj + 1
                && ftree(*pool, acc, ts, bnd[k as int], fj, 15) && (forall|m: int| 0 <= m < operands@.len() ==> chain_operand(
                pm,
                ts,
                bnd,
                m,
                #[trigger] operands@[m],
                15,
            )) && (forall|m: int| 0 <= m < ops@.len() ==> chain_op(ts, bnd, m, #[trigger] ops@[m], 15)),
            own ==> only_pushed(*pool, pm) && ((k == 1 && acc == operands@[1] && *pool == pm) || (k == 0 && binop_node(
                *pool,
                acc,
                binop_kind(q0.kind_at(1)->Some_0),
                q0.next_tok(),
                q0.tok_at(2),
            ))),
            pass ==> k == 0 && *pool == pf && acc == first,
        decreases k,
    {
        k = k - 1;
        let ghost mid = *pool;
        let ghost acc0 = acc;
        let loc = p.loc_from(p.here().0);
        acc = pool.push(ExprType::BinOp(ops[k], operands[k], acc), loc);
        proof {
            lemma_extends_trans(*pool, mid, p0);
            if fl {
                assert(chain_operand(pm, ts, bnd, k as int, operands@[k as int], 15));
                assert(chain_op(ts, bnd, k as int, ops@[k as int], 15));
                lemma_chain_step(*pool, pm, mid, ts, bnd, fj, k as int, operands@[k as int], ops@[k as int], acc0, acc, 15);
            }
        }
    }
    Ok(acc)
}

fn add_op(p: &Parser) -> (res: Option<ExprBinOp>)
    requires
        p.inv(),
    ensures
        res is Some ==> p.remaining() > 0,
        res == match p.next_kind() {
            Some(TokKind::Plus) => Some(ExprBinOp::Add),
            Some(TokKind::Minus) => Some(ExprBinOp::Sub),
            _ => None,
        },
{
    match p.peek() {
        Some(TokKind::Plus) => Some(ExprBinOp::Add),
        Some(TokKind::Minus) => Some(ExprBinOp::Sub),
        _ => None,
    }
}

#[verifier::loop_isolation(false)]
#[verifier::rlimit(60)]
fn parse_add(p: &mut Parser, pool: &mut ExprPool, fuel: u64) -> (res: Result<Expr, Error>)
    requires
        old(p).inv(),
        old(pool).wf(),
    ensures
        final(p).follows(*old(p)),
        final(p).inv(),
        grown(*final(pool), *old(pool)),
        res matches Ok(e) ==> final(pool).valid(e),
        res is Ok ==> final(p).remaining() < old(p).remaining(),
        parse_err(res),
        old(p).at_atom() && fuel > 0 && !continues(13, old(p).kind_at(1)) ==> reads_atom(*old(p), *final(p), *final(pool), res)
            && only_pushed(*final(pool), *old(pool)),
        old(p).at_binop(13) && fuel > 0 ==> reads_binop(*old(p), *final(p), *final(pool), res)
            && only_pushed(*final(pool), *old(pool)),
        old(p).flat_at(13) && fuel > 0 ==> reads_flat(*old(p), *final(p), *final(pool), res, 13) && only_pushed(
            *final(pool),
            *old(pool),
        ),
    decreases fuel, 13int,
{
    let ghost p0 = *pool;
    let ghost q0 = *p;
    let start = p.here().0;
    let ghost fl = q0.flat_at(13) && fuel > 0;
    let ghost fj = choose|j: int| #[trigger] seg(q0.tokens(), q0.at_pos(), j, 13);
    let ghost ts = q0.tokens();
    let ghost i0 = q0.at_pos();
    proof {
        if fl {
            lemma_operand_end(ts, i0, fj, 13);
            lemma_flat_prefix(ts, i0, operand_end(ts, i0, fj, 13), fj, 13);
            assert(q0.flat_at(12));
        }
    }
    let mut lhs = parse_mul(p, pool, fuel)?;
    proof {
        if fl {
            lemma_seg_unique(ts, i0, p.at_pos(), operand_end(ts, i0, fj, 13), 12);
            lemma_no_op(ts, i0, p.at_pos(), 13);
        }
    }
    let ghost bready = q0.at_binop(13) && fuel > 0;
    let ghost own = bready && op_level(q0.kind_at(1)->Some_0) == 13;
    let ghost pass = bready && op_level(q0.kind_at(1)->Some_0) < 13;
    let ghost ready = q0.at_atom() && fuel > 0 && !continues(13, q0.kind_at(1));
    let ghost pf = *pool;
    let ghost l0 = lhs;
    while add_op(p).is_some()
        invariant
            p.inv(),
            p.follows(q0),
            p.remaining() < q0.remaining(),
            grown(*pool, p0),
            pool.valid(lhs),
            fl ==> p.tokens() == ts && i0 < p.position() <= fj && (p.position() - i0) % 2 == 1 && (p.position() < fj
                ==> op_at(ts, p.at_pos(), 13)) && ftree(*pool, lhs, ts, i0, p.at_pos(), 13) && only_pushed(
                *pool,
                p0,
            ),
            ready ==> p.remaining() + 1 == q0.remaining() && *pool == pf && lhs == l0,
            own ==> only_pushed(*pool, pf) && ((p.remaining() + 1 == q0.remaining() && *pool == pf && lhs == l0) || (
            p.remaining() + 3 == q0.remaining() && binop_node(
                *pool,
                lhs,
                binop_kind(q0.kind_at(1)->Some_0),
                q0.next_tok(),
                q0.tok_at(2),
            ))),
            pass ==> p.remaining() + 3 == q0.remaining() && *pool == pf && lhs == l0,
        decreases p.remaining(),
    {
        let op = match add_op(p) {
            Some(o) => o,
            None => ExprBinOp::Add,
        };
        let ghost before = *pool;
        let ghost qb = *p;
        let ghost lhs_before = lhs;
        let ghost c = p.at_pos();
        p.advance();
        proof {
            if fl {
                lemma_flat_suffix(ts, i0, c, fj, 13);
                lemma_operand_end(ts, c + 1, fj, 13);
                lemma_flat_prefix(ts, c + 1, operand_end(ts, c + 1, fj, 13), fj, 13);
                let s1 = operand_end(ts, c + 1, fj, 13);
                assert(p.tokens() == ts && p.position() == c + 1);
                assert(seg(p.tokens(), p.at_pos(), s1, 12));
                assert(p.flat_at(12));
            }
        }
        let r = parse_mul(p, pool, fuel);
        proof { lemma_steps(p0, before, *pool, q0, qb, *p); }
        let rhs = r?;
        let loc = p.loc_from(start);
        let ghost mid = *pool;
        lhs = pool.push(ExprType::BinOp(op, lhs, rhs), loc);
        proof {
            lemma_extends_trans(*pool, mid, p0);
            if fl {
                let s2 = p.at_pos();
                lemma_seg_unique(ts, c + 1, s2, operand_end(ts, c + 1, fj, 13), 12);
                lemma_only_pushed_trans(*pool, mid, before);
                lemma_only_pushed_trans(*pool, before, p0);
                lemma_ftree_kept(before, *pool, lhs_before, ts, i0, c, 13);
                lemma_ftree_kept(mid, *pool, rhs, ts, c + 1, s2, 12);
                lemma_flat_prefix(ts, i0, s2, fj, 13);
                lemma_last_at(ts, i0, c, s2, 13);
                assert(ftree(*pool, lhs, ts, i0, s2, 13));
            }
        }
    }
    proof {
        if fl {
            assert(p.position() == fj);
        }
    }
    Ok(lhs)
}

fn mul_op(p: &Parser) -> (res: Option<ExprBinOp>)
    requires
        p.inv(),
    ensures
        res is Some ==> p.remaining() > 0,
        res == match p.next_kind() {
            Some(TokKind::Star) => Some(ExprBinOp::Mult),
            Some(TokKind::Slash) => Some(ExprBinOp::Div),
            _ => None,
        },
{
    match p.peek() {
        Some(TokKind::Star) => Some(ExprBinOp::Mult),
        Some(TokKind::Slash) => Some(ExprBinOp::Div),
        _ => None,
    }
}

#[verifier::loop_isolation(false)]
#[verifier::rlimit(60)]
fn parse_mul(p: &mut Parser, pool: &mut ExprPool, fuel: u64) -> (res: Result<Expr, Error>)
    requires
        old(p).inv(),
        old(pool).wf(),
    ensures
        final(p).follows(*old(p)),
        final(p).inv(),
        grown(*final(pool), *old(pool)),
        res matches Ok(e) ==> final(pool).valid(e),
        res is Ok ==> final(p).remaining() < old(p).remaining(),
        parse_err(res),
        old(p).at_atom() && fuel > 0 && !continues(12, old(p).kind_at(1)) ==> reads_atom(*old(p), *final(p), *final(pool), res)
            && only_pushed(*final(pool), *old(pool)),
        old(p).at_binop(12) && fuel > 0 ==> reads_binop(*old(p), *final(p), *final(pool), res)
            && only_pushed(*final(pool), *old(pool)),
        old(p).flat_at(12) && fuel > 0 ==> reads_flat(*old(p), *final(p), *final(pool), res, 12) && only_pushed(
            *final(pool),
            *old(pool),
        ),
    decreases fuel, 12int,
{
    let ghost p0 = *pool;
    let ghost q0 = *p;
    let start = p.here().0;
    let ghost fl = q0.flat_at(12) && fuel > 0;
    let ghost fj = choose|j: int| #[trigger] seg(q0.tokens(), q0.at_pos(), j, 12);
    let ghost ts = q0.tokens();
    let ghost i0 = q0.at_pos();
    proof {
        if fl {
            lemma_operand_end(ts, i0, fj, 12);
            lemma_flat_prefix(ts, i0, operand_end(ts, i0, fj, 12), fj, 12);
            assert(q0.flat_at(11));
        }
    }
    let mut lhs = parse_concat(p, pool, fuel)?;
    proof {
        if fl {
            lemma_seg_unique(ts, i0, p.at_pos(), operand_end(ts, i0, fj, 12), 11);
            lemma_no_op(ts, i0, p.at_pos(), 12);
        }
    }
    let ghost bready = q0.at_binop(12) && fuel > 0;
    let ghost own = bready && op_level(q0.kind_at(1)->Some_0) == 12;
    let ghost pass = bready && op_level(q0.kind_at(1)->Some_0) < 12;
    let ghost ready = q0.at_atom() && fuel > 0 && !continues(12, q0.kind_at(1));
    let ghost pf = *pool;
    let ghost l0 = lhs;
    while mul_op(p).is_some()
        invariant
            p.inv(),
            p.follows(q0),
            p.remaining() < q0.remaining(),
            grown(*pool, p0),
            pool.valid(lhs),
            fl ==> p.tokens() == ts && i0 < p.position() <= fj && (p.position() - i0) % 2 == 1 && (p.position() < fj
                ==> op_at(ts, p.at_pos(), 12)) && ftree(*pool, lhs, ts, i0, p.at_pos(), 12) && only_pushed(
                *pool,
                p0,
            ),
            ready ==> p.remaining() + 1 == q0.remaining() && *pool == pf && lhs == l0,
            own ==> only_pushed(*pool, pf) && ((p.remaining() + 1 == q0.remaining() && *pool == pf && lhs == l0) || (
            p.remaining() + 3 == q0.remaining() && binop_node(
                *pool,
                lhs,
                binop_kind(q0.kind_at(1)->Some_0),
                q0.next_tok(),
                q0.tok_at(2),
            ))),
            pass ==> p.remaining() + 3 == q0.remaining() && *pool == pf && lhs == l0,
        decreases p.remaining(),
    {
        let op = match mul_op(p) {
            Some(o) => o,
            None => ExprBinOp::Add,
        };
        let ghost before = *pool;
        let ghost qb = *p;
        let ghost lhs_before = lhs;
        let ghost c = p.at_pos();
        p.advance();
        proof {
            if fl {
                lemma_flat_suffix(ts, i0, c, fj, 12);
                lemma_operand_end(ts, c + 1, fj, 12);
                lemma_flat_prefix(ts, c + 1, operand_end(ts, c + 1, fj, 12), fj, 12);
                let s1 = operand_end(ts, c + 1, fj, 12);
                assert(p.tokens() == ts && p.position() == c + 1);
                assert(seg(p.tokens(), p.at_pos(), s1, 11));
                assert(p.flat_at(11));
            }
        }
        let r = parse_concat(p, pool, fuel);
        proof { lemma_steps(p0, before, *pool, q0, qb, *p); }
        let rhs = r?;
        let loc = p.loc_from(start);
        let ghost mid = *pool;
        lhs = pool.push(ExprType::BinOp(op, lhs, rhs), loc);
        proof {
            lemma_extends_trans(*pool, mid, p0);
            if fl {
                let s2 = p.at_pos();
                lemma_seg_unique(ts, c + 1, s2, operand_end(ts, c + 1, fj, 12), 11);
                lemma_only_pushed_trans(*pool, mid, before);
                lemma_only_pushed_trans(*pool, before, p0);
                lemma_ftree_kept(before, *pool, lhs_before, ts, i0, c, 12);
                lemma_ftree_kept(mid, *pool, rhs, ts, c + 1, s2, 11);
                lemma_flat_prefix(ts, i0, s2, fj, 12);
                lemma_last_at(ts, i0, c, s2, 12);
                assert(ftree(*pool, lhs, ts, i0, s2, 12));
            }
        }
    }
    proof {
        if fl {
            assert(p.position() == fj);
        }
    }
    Ok(lhs)
}

fn concat_op(p: &Parser) -> (res: Option<ExprBinOp>)
    requires
        p.inv(),
    ensures
        res is Some ==> p.remaining() > 0,
        res == match p.next_kind() {
            Some(TokKind::Concat) => Some(ExprBinOp::ListConcat),
            _ => None,
        },
{
    match p.peek() {
        Some(TokKind::Concat) => Some(ExprBinOp::ListConcat),
        _ => None,
    }
}

#[verifier::loop_isolation(false)]
#[verifier::rlimit(100)]
#[verifier::spinoff_prover]
fn parse_concat(p: &mut Parser, pool: &mut ExprPool, fuel: u64) -> (res: Result<Expr, Error>)
    requires
        old(p).inv(),
        old(pool).wf(),
    ensures
        final(p).follows(*old(p)),
        final(p).inv(),
        grown(*final(pool), *old(pool)),
        res matches Ok(e) ==> final(pool).valid(e),
        res is Ok ==> final(p).remaining() < old(p).remaining(),
        parse_err(res),
        old(p).at_atom() && fuel > 0 && !continues(11, old(p).kind_at(1)) ==> reads_atom(*old(p), *final(p), *final(pool), res)
            && only_pushed(*final(pool), *old(pool)),
        old(p).at_binop(11) && fuel > 0 ==> reads_binop(*old(p), *final(p), *final(pool), res)
            && only_pushed(*final(pool), *old(pool)),
        old(p).flat_at(11) && fuel > 0 ==> reads_flat(*old(p), *final(p), *final(pool), res, 11) && only_pushed(
            *final(pool),
            *old(pool),
        ),
    decreases fuel, 11int,
{
    let ghost p0 = *pool;
    let ghost q0 = *p;
    let ghost fl = q0.flat_at(11) && fuel > 0;
    let ghost fj = choose|j: int| #[trigger] seg(q0.tokens(), q0.at_pos(), j, 11);
    let ghost ts = q0.tokens();
    let ghost i0 = q0.at_pos();
    proof {
        if fl {
            lemma_operand_end(ts, i0, fj, 11);
            lemma_seg_atom(q0, operand_end(ts, i0, fj, 11));
        }
    }
    let first = parse_has(p, pool, fuel)?;
    let ghost bready = q0.at_binop(11) && fuel > 0;
    let ghost own = bready && op_level(q0.kind_at(1)->Some_0) == 11;
    let ghost pass = bready && op_level(q0.kind_at(1)->Some_0) < 11;
    let ghost ready = q0.at_atom() && fuel > 0 && !continues(11, q0.kind_at(1));
    let ghost pf = *pool;
    let ghost mut bnd: Seq<int> = seq![i0, p.at_pos() + 1];
    proof {
        if fl {
            assert(ftree(*pool, first, ts, i0, p.at_pos(), 10));
        }
    }
    let mut operands: Vec<Expr> = Vec::new();
    let mut ops: Vec<ExprBinOp> = Vec::new();
    let mut spans: Vec<usize> = Vec::new();
    operands.push(first);
    spans.push(p.here().0);
    while concat_op(p).is_some()
        invariant
            p.inv(),
            p.follows(q0),
            p.remaining() < q0.remaining(),
            grown(*pool, p0),
            vec_ok(operands@, pool.size()),
            operands@.len() == ops@.len() + 1,
            ready ==> p.remaining() + 1 == q0.remaining() && *pool == pf && ops@.len() == 0 && operands@[0] == first,
            own ==> operands@[0] == first && only_pushed(*pool, pf) && ((p.remaining() + 1 == q0.remaining() && ops@.len()
                == 0 && *pool == pf) || (p.remaining() + 3 == q0.remaining() && ops@.len() == 1 && Some(ops@[0])
                == binop_kind(q0.kind_at(1)->Some_0) && operands@.len() == 2 && atom_node(*pool, operands@[1], q0.tok_at(2)))),
            pass ==> p.remaining() + 3 == q0.remaining() && *pool == pf && ops@.len() == 0 && operands@[0] == first,
            fl ==> p.tokens() == ts && bnd.len() == operands@.len() + 1 && bnd[0] == i0 && bnd.last() == p.at_pos() + 1
                && i0 < p.at_pos() <= fj && (p.at_pos() - i0) % 2 == 1 && (p.at_pos() < fj ==> op_at(ts, p.at_pos(), 11))
                && only_pushed(*pool, p0) && (forall|m: int| 0 <= m < operands@.len() ==> chain_operand(
                *pool,
                ts,
                bnd,
                m,
                #[trigger] operands@[m],
                11,
            )) && (forall|m: int| 0 <= m < ops@.len() ==> chain_op(ts, bnd, m, #[trigger] ops@[m], 11)),
        decreases p.remaining(),
    {
        let op = match concat_op(p) {
            Some(o) => o,
            None => ExprBinOp::Add,
        };
        let ghost before = *pool;
        let ghost qb = *p;
        let ghost c = p.at_pos();
        p.advance();
        proof {
            if fl {
                lemma_flat_suffix(ts, i0, c, fj, 11);
                lemma_operand_end(ts, c + 1, fj, 11);
                assert(p.tokens() == ts && p.at_pos() == c + 1);
                lemma_seg_atom(*p, operand_end(ts, c + 1, fj, 11));
            }
        }
        let r = parse_has(p, pool, fuel);
        proof { lemma_steps(p0, before, *pool, q0, qb, *p); }
        let rhs = r?;
        proof {
            if fl {
                assert(ftree(*pool, rhs, ts, c + 1, p.at_pos(), 10));
            }
        }
        let ghost ops0 = ops@;
        let ghost operands0 = operands@;
        ops.push(op);
        operands.push(rhs);
        proof {
            if fl {
                lemma_chain_extend(before, *pool, ts, bnd, operands0, ops0, rhs, op, p.at_pos(), 11);
                assert(operands@ == operands0.push(rhs));
                assert(ops@ == ops0.push(op));
                bnd = bnd.push(p.at_pos() + 1);
                lemma_only_pushed_trans(*pool, before, p0);
            }
        }
    }
    let ghost pm = *pool;
    proof {
        if fl {
            assert(p.at_pos() == fj);
            let n = ops@.len() as int;
            assert(chain_operand(*pool, ts, bnd, n, operands@[n], 11));
            lemma_no_op(ts, bnd[n], fj, 11);
        }
    }
    let mut k: usize = ops.len();
    let mut acc = operands[k];
    while k > 0
        invariant
            k <= ops@.len(),
            operands@.len() == ops@.len() + 1,
            grown(*pool, p0),
            vec_ok(operands@, pool.size()),
            pool.valid(acc),
            ready ==> k == 0 && *pool == pf && acc == first,
            fl ==> only_pushed(*pool, pm) && bnd.len() == operands@.len() + 1 && bnd[0] == i0 && bnd.last() == fj + 1
                && ftree(*pool, acc, ts, bnd[k as int], fj, 11) && (forall|m: int| 0 <= m < operands@.len() ==> chain_operand(
                pm,
                ts,
                bnd,
                m,
                #[trigger] operands@[m],
                11,
            )) && (forall|m: int| 0 <= m < ops@.len() ==> chain_op(ts, bnd, m, #[trigger] ops@[m], 11)),
            own ==> only_pushed(*pool, pm) && ((k == 1 && acc == operands@[1] && *pool == pm) || (k == 0 && binop_node(
                *pool,
                acc,
                binop_kind(q0.kind_at(1)->Some_0),
                q0.next_tok(),
                q0.tok_at(2),
            ))),
            pass ==> k == 0 && *pool == pf && acc == first,
        decreases k,
    {
        k = k - 1;
        let ghost mid = *pool;
        let ghost acc0 = acc;
        let loc = p.loc_from(p.here().0);
        acc = pool.push(ExprType::BinOp(ops[k], operands[k], acc), loc);
        proof {
            lemma_extends_trans(*pool, mid, p0);
            if fl {
                assert(chain_operand(pm, ts, bnd, k as int, operands@[k as int], 11));
                assert(chain_op(ts, bnd, k as int, ops@[k as int], 11));
                lemma_chain_step(*pool, pm, mid, ts, bnd, fj, k as int, operands@[k as int], ops@[k as int], acc0, acc, 11);
            }
        }
    }
    Ok(acc)
}

/// `!`s in front of a sum.
#[verifier::loop_isolation(false)]
fn parse_not(p: &mut Parser, pool: &mut ExprPool, fuel: u64) -> (res: Result<Expr, Error>)
    requires
        old(p).inv(),
        old(pool).wf(),
    ensures
        final(p).follows(*old(p)),
        final(p).inv(),
        grown(*final(pool), *old(pool)),
        res matches Ok(e) ==> final(pool).valid(e),
        res is Ok ==> final(p).remaining() < old(p).remaining(),
        parse_err(res),
        old(p).at_atom() && fuel > 0 && !continues(14, old(p).kind_at(1)) ==> reads_atom(*old(p), *final(p), *final(pool), res)
            && only_pushed(*final(pool), *old(pool)),
        old(p).at_binop(14) && fuel > 0 ==> reads_binop(*old(p), *final(p), *final(pool), res)
            && only_pushed(*final(pool), *old(pool)),
        old(p).flat_at(14) && fuel > 0 ==> reads_flat(*old(p), *final(p), *final(pool), res, 14) && only_pushed(
            *final(pool),
            *old(pool),
        ),
    decreases fuel, 14int,
{
    let ghost q0 = *p;
    let ghost p0 = *pool;
    let mut starts: Vec<usize> = Vec::new();
    let ghost ready = q0.at_atom() && fuel > 0 && !continues(14, q0.kind_at(1));
    let ghost bready = q0.at_binop(14) && fuel > 0;
    let ghost fl = q0.flat_at(14) && fuel > 0;
    let ghost fj = choose|j: int| #[trigger] seg(q0.tokens(), q0.at_pos(), j, 14);
    let ghost ts = q0.tokens();
    let ghost i0 = q0.at_pos();
    proof {
        if fl {
            assert((i0 - i0) % 2 == 0);
            assert(ts[i0].tok == ts[i0].tok);
        }
    }
    while p.at(TokKind::Bang)
        invariant
            p.inv(),
            p.follows(q0),
            ready ==> *p == q0 && starts@.len() == 0,
            bready ==> *p == q0 && starts@.len() == 0,
            fl ==> *p == q0 && starts@.len() == 0,
        decreases p.remaining(),
    {
        starts.push(p.here().0);
        p.advance();
    }
    proof {
        if fl {
            lemma_seg_lower(ts, i0, fj, 14);
            assert(q0.flat_at(13));
        }
    }
    let mut e = parse_add(p, pool, fuel)?;
    proof {
        if fl {
            lemma_seg_unique(ts, i0, p.at_pos(), fj, 13);
            lemma_no_op(ts, i0, fj, 14);
        }
    }
    let ghost pf = *pool;
    let ghost e0 = e;
    let mut k = starts.len();
    while k > 0
        invariant
            grown(*pool, p0),
            pool.valid(e),
            k <= starts@.len(),
            ready ==> k == 0 && *pool == pf && e == e0,
            bready ==> k == 0 && *pool == pf && e == e0,
            fl ==> k == 0 && *pool == pf && e == e0,
        decreases k,
    {
        k = k - 1;
        let loc = p.loc_from(starts[k]);
        let ghost mid = *pool;
        e = pool.push(ExprType::UnOp(ExprUnOp::Not, e), loc);
        proof { lemma_extends_trans(*pool, mid, p0); }
    }
    Ok(e)
}

/// `e ? name`: whether an object has a field.
#[verifier::loop_isolation(false)]
fn parse_has(p: &mut Parser, pool: &mut ExprPool, fuel: u64) -> (res: Result<Expr, Error>)
    requires
        old(p).inv(),
        old(pool).wf(),
    ensures
        final(p).follows(*old(p)),
        final(p).inv(),
        grown(*final(pool), *old(pool)),
        res matches Ok(e) ==> final(pool).valid(e),
        res is Ok ==> final(p).remaining() < old(p).remaining(),
        parse_err(res),
        old(p).at_atom() && fuel > 0 && !continues(10, old(p).kind_at(1)) ==> reads_atom(*old(p), *final(p), *final(pool), res)
            && only_pushed(*final(pool), *old(pool)),
    decreases fuel, 10int,
{
    let ghost p0 = *pool;
    let ghost q0 = *p;
    let start = p.here().0;
    let mut e = parse_neg(p, pool, fuel)?;
    let ghost ready = q0.at_atom() && fuel > 0 && !continues(10, q0.kind_at(1));
    let ghost pf = *pool;
    let ghost e0 = e;
    while p.at(TokKind::Question)
        invariant
            p.inv(),
            p.follows(q0),
            p.remaining() < q0.remaining(),
            grown(*pool, p0),
            pool.valid(e),
            ready ==> p.remaining() + 1 == q0.remaining() && *pool == pf && e == e0,
        decreases p.remaining(),
    {
        let ghost qb = *p;
        p.advance();
        let r = p.ident("attribute name");
        proof { Parser::lemma_follows_trans(q0, qb, *p); }
        let name = r?;
        let loc = p.loc_from(start);
        let ghost m1 = *pool;
        let n = pool.push(ExprType::Value(Value::String(name)), loc);
        let ghost m2 = *pool;
        e = pool.push(ExprType::BinOp(ExprBinOp::HasAttr, e, n), loc);
        proof {
            lemma_extends_trans(*pool, m2, m1);
            lemma_extends_trans(*pool, m1, p0);
        }
    }
    Ok(e)
}

/// `-`s in front of an application.
#[verifier::loop_isolation(false)]
fn parse_neg(p: &mut Parser, pool: &mut ExprPool, fuel: u64) -> (res: Result<Expr, Error>)
    requires
        old(p).inv(),
        old(pool).wf(),
    ensures
        final(p).follows(*old(p)),
        final(p).inv(),
        grown(*final(pool), *old(pool)),
        res matches Ok(e) ==> final(pool).valid(e),
        res is Ok ==> final(p).remaining() < old(p).remaining(),
        parse_err(res),
        old(p).at_atom() && fuel > 0 && !continues(9, old(p).kind_at(1)) ==> reads_atom(*old(p), *final(p), *final(pool), res)
            && only_pushed(*final(pool), *old(pool)),
    decreases fuel, 9int,
{
    let ghost q0 = *p;
    let ghost p0 = *pool;
    let mut starts: Vec<usize> = Vec::new();
    let ghost ready = q0.at_atom() && fuel > 0 && !continues(9, q0.kind_at(1));
    while p.at(TokKind::Minus)
        invariant
            p.inv(),
            p.follows(q0),
            ready ==> *p == q0 && starts@.len() == 0,
        decreases p.remaining(),
    {
        starts.push(p.here().0);
        p.advance();
    }
    let mut e = parse_app(p, pool, fuel)?;
    let ghost pf = *pool;
    let ghost e0 = e;
    let mut k = starts.len();
    while k > 0
        invariant
            grown(*pool, p0),
            pool.valid(e),
            k <= starts@.len(),
            ready ==> k == 0 && *pool == pf && e == e0,
        decreases k,
    {
        k = k - 1;
        let loc = p.loc_from(starts[k]);
        let ghost mid = *pool;
        e = pool.push(ExprType::UnOp(ExprUnOp::Neg, e), loc);
        proof { lemma_extends_trans(*pool, mid, p0); }
    }
    Ok(e)
}

/// Whether the next token starts an argument of a function call.
fn starts_arg(p: &Parser) -> (res: bool)
    requires
        p.inv(),
    ensures
        res ==> p.remaining() > 0,
        res == (p.next_kind() matches Some(k) && (k == TokKind::Ident || k == TokKind::Int || k == TokKind::Str
            || k == TokKind::True || k == TokKind::False || k == TokKind::LParen || k == TokKind::LBrack || k
            == TokKind::LBrace)),
{
    match p.peek() {
        Some(TokKind::Ident) | Some(TokKind::Int) | Some(TokKind::Str) | Some(TokKind::True)
        | Some(TokKind::False) | Some(TokKind::LParen) | Some(TokKind::LBrack) | Some(
            TokKind::LBrace,
        ) => true,
        _ => false,
    }
}

/// A function applied to arguments, left to right: `f a b` is `(f a) b`.
/// A function written in place as the last argument takes the rest.
#[verifier::loop_isolation(false)]
fn parse_app(p: &mut Parser, pool: &mut ExprPool, fuel: u64) -> (res: Result<Expr, Error>)
    requires
        old(p).inv(),
        old(pool).wf(),
    ensures
        final(p).follows(*old(p)),
        final(p).inv(),
        grown(*final(pool), *old(pool)),
        res matches Ok(e) ==> final(pool).valid(e),
        res is Ok ==> final(p).remaining() < old(p).remaining(),
        parse_err(res),
        old(p).at_atom() && fuel > 0 && !continues(8, old(p).kind_at(1)) ==> reads_atom(*old(p), *final(p), *final(pool), res)
            && only_pushed(*final(pool), *old(pool)),
    decreases fuel, 8int,
{
    let ghost p0 = *pool;
    let ghost q0 = *p;
    let start = p.here().0;
    let mut f = parse_select(p, pool, fuel)?;
    let ghost ready = q0.at_atom() && fuel > 0 && !continues(8, q0.kind_at(1));
    let ghost pf = *pool;
    let ghost f0 = f;
    while starts_arg(p)
        invariant
            p.inv(),
            p.follows(q0),
            p.remaining() < q0.remaining(),
            grown(*pool, p0),
            pool.valid(f),
            ready ==> p.remaining() + 1 == q0.remaining() && *pool == pf && f == f0,
        decreases p.remaining(),
    {
        let ghost before = *pool;
        let ghost qb = *p;
        let r = parse_select(p, pool, fuel);
        proof { lemma_steps(p0, before, *pool, q0, qb, *p); }
        let arg = r?;
        let loc = p.loc_from(start);
        let ghost mid = *pool;
        f = pool.push(ExprType::FuncCall(arg, f), loc);
        proof { lemma_extends_trans(*pool, mid, p0); }
    }
    if p.at(TokKind::Pipe) {
        if fuel == 0 {
            return Err(too_deep_parse());
        }
        let ghost before = *pool;
        let ghost qb = *p;
        let r = parse_lambda(p, pool, fuel - 1);
        proof { lemma_steps(p0, before, *pool, q0, qb, *p); }
        let arg = r?;
        let loc = p.loc_from(start);
        let ghost mid = *pool;
        f = pool.push(ExprType::FuncCall(arg, f), loc);
        proof { lemma_extends_trans(*pool, mid, p0); }
    }
    Ok(f)
}

fn too_deep_parse() -> (res: Error)
    ensures
        res.typ == ErrorType::Parse,
{
    err_msg(ErrorType::Parse, "Expression nested too deeply")
}


/// An atom followed by `.name` selections.
#[verifier::loop_isolation(false)]
fn parse_select(p: &mut Parser, pool: &mut ExprPool, fuel: u64) -> (res: Result<Expr, Error>)
    requires
        old(p).inv(),
        old(pool).wf(),
    ensures
        final(p).follows(*old(p)),
        final(p).inv(),
        grown(*final(pool), *old(pool)),
        res matches Ok(e) ==> final(pool).valid(e),
        res is Ok ==> final(p).remaining() < old(p).remaining(),
        parse_err(res),
        old(p).at_atom() && fuel > 0 && !continues(7, old(p).kind_at(1)) ==> reads_atom(*old(p), *final(p), *final(pool), res)
            && only_pushed(*final(pool), *old(pool)),
    decreases fuel, 7int,
{
    let ghost p0 = *pool;
    let ghost q0 = *p;
    let start = p.here().0;
    let mut e = parse_atom(p, pool, fuel)?;
    let ghost ready = q0.at_atom() && fuel > 0 && !continues(7, q0.kind_at(1));
    let ghost pf = *pool;
    let ghost e0 = e;
    while p.at(TokKind::Dot)
        invariant
            p.inv(),
            p.follows(q0),
            p.remaining() < q0.remaining(),
            grown(*pool, p0),
            pool.valid(e),
            ready ==> p.remaining() + 1 == q0.remaining() && *pool == pf && e == e0,
        decreases p.remaining(),
    {
        let ghost qb = *p;
        p.advance();
        let r = field_name(p);
        proof { Parser::lemma_follows_trans(q0, qb, *p); }
        let name = r?;
        let loc = p.loc_from(start);
        let ghost mid = *pool;
        e = pool.push(ExprType::AttrSel(e, name), loc);
        proof { lemma_extends_trans(*pool, mid, p0); }
    }
    Ok(e)
}

/// A field name: an identifier or a string literal.
fn field_name(p: &mut Parser) -> (res: Result<String, Error>)
    requires
        old(p).inv(),
    ensures
        final(p).follows(*old(p)),
        final(p).inv(),
        res is Ok ==> final(p).remaining() < old(p).remaining(),
        parse_err(res),
{
    if p.pos < p.toks.len() {
        let raw = match &p.toks[p.pos].tok {
            Tok::Ident(n) => {
                let n2 = n.clone();
                p.pos = p.pos + 1;
                return Ok(n2);
            },
            Tok::Str(r) => r.clone(),
            _ => {
                return Err(p.fail("field name"));
            },
        };
        p.pos = p.pos + 1;
        unescape_str(raw.as_str())
    } else {
        Err(p.fail("field name"))
    }
}

/// A string literal: its text, with `${...}` substitutions parsed and
/// joined with `+`.
#[verifier::loop_isolation(false)]
fn parse_string_lit(raw: &str, left: usize, right: usize, file: usize, pool: &mut ExprPool, fuel: u64) -> (res: Result<Expr, Error>)
    requires
        old(pool).wf(),
    ensures
        grown(*final(pool), *old(pool)),
        res matches Ok(e) ==> final(pool).valid(e),
        parse_err(res),
    decreases fuel, 0int,
{
    if fuel == 0 {
        return Err(too_deep_parse());
    }
    let ghost p0 = *pool;
    let text = unescape_str(raw)?;
    let loc = Some(ExprSourceRef { file, left, right });
    let parts = match string_decode(text.as_str()) {
        Some(v) => v,
        None => {
            return Err(err_msg(ErrorType::Parse, "Invalid string substitution").loc(left, right, file));
        },
    };
    let mut acc: Option<Expr> = None;
    let mut i: usize = 0;
    while i < parts.len()
        invariant
            i <= parts@.len(),
            grown(*pool, p0),
            acc matches Some(a) ==> pool.valid(a),
        decreases parts@.len() - i,
    {
        let ghost before = *pool;
        let part = match &parts[i] {
            StringType::Str(t) => pool.push(ExprType::Value(Value::String(t.clone())), loc),
            StringType::Expr(code) => {
                let r = parse_code(code.as_str(), file, pool, fuel - 1);
                proof { lemma_extends_trans(*pool, before, p0); }
                r?
            },
        };
        proof { lemma_extends_trans(*pool, before, p0); }
        let ghost mid = *pool;
        acc = match acc {
            Some(prev) => Some(pool.push(ExprType::BinOp(ExprBinOp::Add, prev, part), loc)),
            None => Some(part),
        };
        proof { lemma_extends_trans(*pool, mid, p0); }
        i = i + 1;
    }
    match acc {
        Some(a) => Ok(a),
        None => Ok(pool.push(ExprType::Value(Value::String(String::new())), loc)),
    }
}

/// Source text that must hold exactly one expression.
fn parse_code(code: &str, file: usize, pool: &mut ExprPool, fuel: u64) -> (res: Result<Expr, Error>)
    requires
        old(pool).wf(),
    ensures
        grown(*final(pool), *old(pool)),
        res matches Ok(e) ==> final(pool).valid(e),
        parse_err(res),
        fuel > 1 && one_atom_source(code@) ==> (res matches Ok(e) && atom_of_source(code@, *final(pool), e)),
        fuel > 1 && binop_source(code@) ==> (res matches Ok(e) && binop_of_source(code@, *final(pool), e)),
        fuel > 1 && flat_source(code@) ==> (res matches Ok(e) && flat_of_source(code@, *final(pool), e)),
    decreases fuel, 21int,
{
    if fuel == 0 {
        return Err(too_deep_parse());
    }
    let toks = tokenize(code, file)?;
    proof {
        if one_atom_source(code@) || binop_source(code@) || flat_source(code@) {
            assert(tokens_of(code@, toks@));
        }
    }
    let n = chars_of(code).len();
    let mut p = Parser::new(toks, file, n);
    proof {
        if flat_source(code@) {
            assert(seg(p.tokens(), p.at_pos(), toks@.len() as int, 20));
            assert(p.flat_at(20));
        }
    }
    let ghost q0 = p;
    let e = parse_expr(&mut p, pool, fuel - 1)?;
    proof {
        if flat_source(code@) && fuel > 1 {
            lemma_seg_unique(q0.tokens(), 0, p.at_pos(), toks@.len() as int, 20);
        }
    }
    if p.pos < p.toks.len() {
        let t = &p.toks[p.pos];
        return Err(err_msg(ErrorType::Parse, "Extra token").loc(t.left, t.right, file));
    }
    Ok(e)
}

/// Parses source text to a node; `file` names the source in error places.
pub fn parse_str(pool: &mut ExprPool, code: &str, file: usize) -> (res: Result<Expr, Error>)
    requires
        old(pool).wf(),
    ensures
        grown(*final(pool), *old(pool)),
        res matches Ok(e) ==> final(pool).valid(e),
        parse_err(res),
        one_atom_source(code@) ==> (res matches Ok(e) && atom_of_source(code@, *final(pool), e)),
        binop_source(code@) ==> (res matches Ok(e) && binop_of_source(code@, *final(pool), e)),
        flat_source(code@) ==> (res matches Ok(e) && flat_of_source(code@, *final(pool), e)),
{
    let n = chars_of(code).len();
    let m = n as u64;
    let fuel: u64 = if m < 0x1000_0000_0000 {
        4 * m + 16
    } else {
        u64::MAX
    };
    parse_code(code, file, pool, fuel)
}


proof fn lemma_all_matchers_mono(ms: Seq<Matcher<Expr>>, n: nat, k: nat)
    requires
        forall|j: int| 0 <= j < ms.len() ==> matcher_ok(#[trigger] ms[j], n),
        n <= k,
    ensures
        forall|j: int| 0 <= j < ms.len() ==> matcher_ok(#[trigger] ms[j], k),
{
    assert forall|j: int| 0 <= j < ms.len() implies matcher_ok(#[trigger] ms[j], k) by {
        lemma_matcher_ok_mono(ms[j], n, k);
    }
}

proof fn lemma_stmts_ok_mono(v: Seq<(Matcher<Expr>, Expr)>, n: nat, k: nat)
    requires
        stmts_ok(v, n),
        n <= k,
    ensures
        stmts_ok(v, k),
{
    assert forall|j: int| 0 <= j < v.len() implies matcher_ok((#[trigger] v[j]).0, k) && v[j].1.0 < k by {
        lemma_matcher_ok_mono(v[j].0, n, k);
    }
}

proof fn lemma_fields_mono(items: Seq<(String, Matcher<Expr>, Option<Expr>)>, n: nat, k: nat)
    requires
        forall|j: int| 0 <= j < items.len() ==> matcher_ok((#[trigger] items[j]).1, n) && opt_ok(items[j].2, n),
        n <= k,
    ensures
        forall|j: int| 0 <= j < items.len() ==> matcher_ok((#[trigger] items[j]).1, k) && opt_ok(items[j].2, k),
{
    assert forall|j: int| 0 <= j < items.len() implies matcher_ok((#[trigger] items[j]).1, k) && opt_ok(items[j].2, k) by {
        lemma_matcher_ok_mono(items[j].1, n, k);
    }
}

/// Any expression: `let`, `bind`, a function, or operators.
#[verifier::loop_isolation(false)]
fn parse_expr(p: &mut Parser, pool: &mut ExprPool, fuel: u64) -> (res: Result<Expr, Error>)
    requires
        old(p).inv(),
        old(pool).wf(),
    ensures
        final(p).follows(*old(p)),
        final(p).inv(),
        grown(*final(pool), *old(pool)),
        res matches Ok(e) ==> final(pool).valid(e),
        res is Ok ==> final(p).remaining() < old(p).remaining(),
        parse_err(res),
        old(p).at_atom() && fuel > 0 && !continues(20, old(p).kind_at(1)) ==> reads_atom(*old(p), *final(p), *final(pool), res)
            && only_pushed(*final(pool), *old(pool)),
        old(p).at_binop(20) && fuel > 0 ==> reads_binop(*old(p), *final(p), *final(pool), res)
            && only_pushed(*final(pool), *old(pool)),
        old(p).flat_at(20) && fuel > 0 ==> reads_flat(*old(p), *final(p), *final(pool), res, 20) && only_pushed(
            *final(pool),
            *old(pool),
        ),
    decreases fuel, 20int,
{
    if fuel == 0 {
        return Err(too_deep_parse());
    }
    let ghost p0 = *pool;
    let ghost q0 = *p;
    let start = p.here().0;
    let ghost fl = q0.flat_at(20) && fuel > 0;
    let ghost fj = choose|j: int| #[trigger] seg(q0.tokens(), q0.at_pos(), j, 20);
    let ghost ts = q0.tokens();
    let ghost i0 = q0.at_pos();
    proof {
        if fl {
            assert((i0 - i0) % 2 == 0);
            assert(ts[i0].tok == ts[i0].tok);
        }
    }
    if p.at(TokKind::Let) {
        p.advance();
        let mut stmts: Vec<(Matcher<Expr>, Expr)> = Vec::new();
        while !p.at(TokKind::In)
            invariant
                p.inv(),
                p.follows(q0),
                p.remaining() < q0.remaining(),
                grown(*pool, p0),
                stmts_ok(stmts@, pool.size()),
            decreases p.remaining(),
        {
            let ghost b0 = *pool;
            let ghost qb = *p;
            let r = parse_pattern(p, pool, fuel - 1);
            proof { lemma_steps(p0, b0, *pool, q0, qb, *p); }
            let pat = r?;
            let ghost qc = *p;
            let r = p.expect(TokKind::Assign, "=");
            proof { Parser::lemma_follows_trans(q0, qc, *p); }
            r?;
            let ghost b1 = *pool;
            let ghost qd = *p;
            let r = parse_expr(p, pool, fuel - 1);
            proof { lemma_steps(p0, b1, *pool, q0, qd, *p); }
            let val = r?;
            let ghost qe = *p;
            let r = p.expect(TokKind::Semi, ";");
            proof {
                Parser::lemma_follows_trans(q0, qe, *p);
                lemma_stmts_ok_mono(stmts@, b0.size(), pool.size());
                lemma_matcher_ok_mono(pat, b1.size(), pool.size());
            }
            r?;
            stmts.push((pat, val));
        }
        let ghost qz = *p;
        let r = p.expect(TokKind::In, "in");
        proof { Parser::lemma_follows_trans(q0, qz, *p); }
        r?;
        let ghost b2 = *pool;
        let ghost qf = *p;
        let r = parse_expr(p, pool, fuel - 1);
        proof {
            lemma_steps(p0, b2, *pool, q0, qf, *p);
            lemma_stmts_ok_mono(stmts@, b2.size(), pool.size());
        }
        let target = r?;
        let loc = p.loc_from(start);
        let ghost b3 = *pool;
        let e = pool.push(ExprType::Let(stmts, target), loc);
        proof { lemma_extends_trans(*pool, b3, p0); }
        Ok(e)
    } else if p.at(TokKind::Bind) {
        p.advance();
        let mut fields: ImMap<Expr> = ImMap::new();
        while !p.at(TokKind::In)
            invariant
                p.inv(),
                p.follows(q0),
                p.remaining() < q0.remaining(),
                grown(*pool, p0),
                set_ok(fields@, pool.size()),
            decreases p.remaining(),
        {
            let ghost qb = *p;
            let r = p.ident("variable name");
            proof { Parser::lemma_follows_trans(q0, qb, *p); }
            let name = r?;
            let ghost qc = *p;
            let r = p.expect(TokKind::Assign, "=");
            proof { Parser::lemma_follows_trans(q0, qc, *p); }
            r?;
            let ghost b1 = *pool;
            let ghost qd = *p;
            let r = parse_expr(p, pool, fuel - 1);
            proof { lemma_steps(p0, b1, *pool, q0, qd, *p); }
            let val = r?;
            let ghost qe = *p;
            let r = p.expect(TokKind::Semi, ";");
            proof {
                Parser::lemma_follows_trans(q0, qe, *p);
                lemma_set_ok_mono(fields@, b1.size(), pool.size());
            }
            r?;
            let ghost f0 = fields@;
            match fields.set_mut(name.as_str(), val) {
                Ok(()) => {},
                Err(_) => {
                    return Err(Error::new(ErrorType::DupKey, name));
                },
            }
            proof {
                let k = choose|k: int| 0 <= k <= f0.len() && fields@ == f0.insert(k, (name@, val));
                assert forall|q: int| 0 <= q < fields@.len() implies (#[trigger] fields@[q]).1.0 < pool.size() by {
                    if q < k {
                        assert(fields@[q] == f0[q]);
                    } else if q > k {
                        assert(fields@[q] == f0[q - 1]);
                    }
                }
            }
        }
        let ghost qz = *p;
        let r = p.expect(TokKind::In, "in");
        proof { Parser::lemma_follows_trans(q0, qz, *p); }
        r?;
        let ghost b2 = *pool;
        let ghost qf = *p;
        let r = parse_expr(p, pool, fuel - 1);
        proof {
            lemma_steps(p0, b2, *pool, q0, qf, *p);
            lemma_set_ok_mono(fields@, b2.size(), pool.size());
        }
        let target = r?;
        let loc = p.loc_from(start);
        let ghost b3 = *pool;
        let e = pool.push(ExprType::Bind(fields, target), loc);
        proof { lemma_extends_trans(*pool, b3, p0); }
        Ok(e)
    } else if p.at(TokKind::Pipe) {
        parse_lambda(p, pool, fuel - 1)
    } else {
        proof {
            if fl {
                lemma_seg_lower(ts, i0, fj, 20);
                assert(q0.flat_at(19));
            }
        }
        let r = parse_impl(p, pool, fuel);
        proof {
            if fl {
                lemma_seg_unique(ts, i0, p.at_pos(), fj, 19);
                lemma_no_op(ts, i0, fj, 20);
            }
        }
        r
    }
}

/// `|p1 p2 ...| body`: a function of each pattern in turn; with no
/// pattern, the body itself.
#[verifier::loop_isolation(false)]
fn parse_lambda(p: &mut Parser, pool: &mut ExprPool, fuel: u64) -> (res: Result<Expr, Error>)
    requires
        old(p).inv(),
        old(pool).wf(),
    ensures
        final(p).follows(*old(p)),
        final(p).inv(),
        grown(*final(pool), *old(pool)),
        res matches Ok(e) ==> final(pool).valid(e),
        res is Ok ==> final(p).remaining() < old(p).remaining(),
        parse_err(res),
    decreases fuel, 3int,
{
    if fuel == 0 {
        return Err(too_deep_parse());
    }
    let ghost p0 = *pool;
    let ghost q0 = *p;
    let start = p.here().0;
    p.expect(TokKind::Pipe, "|")?;
    let mut pats: Vec<Matcher<Expr>> = Vec::new();
    while !p.at(TokKind::Pipe)
        invariant
            p.inv(),
            p.follows(q0),
            p.remaining() < q0.remaining(),
            grown(*pool, p0),
            forall|j: int| 0 <= j < pats@.len() ==> matcher_ok(#[trigger] pats@[j], pool.size()),
        decreases p.remaining(),
    {
        let ghost b0 = *pool;
        let ghost qb = *p;
        let r = parse_pattern(p, pool, fuel - 1);
        proof {
            lemma_steps(p0, b0, *pool, q0, qb, *p);
            lemma_all_matchers_mono(pats@, b0.size(), pool.size());
        }
        let m = r?;
        pats.push(m);
    }
    let ghost qz = *p;
    let r = p.expect(TokKind::Pipe, "|");
    proof { Parser::lemma_follows_trans(q0, qz, *p); }
    r?;
    let ghost b1 = *pool;
    let ghost qc = *p;
    let r = parse_expr(p, pool, fuel - 1);
    proof {
        lemma_steps(p0, b1, *pool, q0, qc, *p);
        lemma_all_matchers_mono(pats@, b1.size(), pool.size());
    }
    let mut e = r?;
    while pats.len() > 0
        invariant
            grown(*pool, p0),
            pool.valid(e),
            forall|j: int| 0 <= j < pats@.len() ==> matcher_ok(#[trigger] pats@[j], pool.size()),
        decreases pats@.len(),
    {
        let ghost b2 = *pool;
        let m = match pats.pop() {
            Some(m) => m,
            None => Matcher::DontCare,
        };
        let loc = p.loc_from(start);
        e = pool.push(ExprType::FuncDef(m, e), loc);
        proof {
            lemma_extends_trans(*pool, b2, p0);
            lemma_all_matchers_mono(pats@, b2.size(), pool.size());
        }
    }
    Ok(e)
}

/// A pattern: `_`, a name, a tuple of patterns, an object pattern, each
/// optionally followed by `@ name`.
#[verifier::loop_isolation(false)]
fn parse_pattern(p: &mut Parser, pool: &mut ExprPool, fuel: u64) -> (res: Result<Matcher<Expr>, Error>)
    requires
        old(p).inv(),
        old(pool).wf(),
    ensures
        final(p).follows(*old(p)),
        final(p).inv(),
        grown(*final(pool), *old(pool)),
        res matches Ok(m) ==> matcher_ok(m, final(pool).size()),
        res is Ok ==> final(p).remaining() < old(p).remaining(),
        parse_err(res),
    decreases fuel, 2int,
{
    if fuel == 0 {
        return Err(too_deep_parse());
    }
    let ghost p0 = *pool;
    let ghost q0 = *p;
    let mut m: Matcher<Expr> = if p.at(TokKind::Ident) {
        let name = p.ident("pattern")?;
        if str_eq(name.as_str(), "_") {
            Matcher::DontCare
        } else {
            Matcher::Ident(name)
        }
    } else if p.at(TokKind::LParen) {
        p.advance();
        let mut subs: Vec<Matcher<Expr>> = Vec::new();
        let mut commas = false;
        while !p.at(TokKind::RParen)
            invariant
                p.inv(),
                p.follows(q0),
                p.remaining() < q0.remaining(),
                grown(*pool, p0),
                forall|j: int| 0 <= j < subs@.len() ==> matcher_ok(#[trigger] subs@[j], pool.size()),
            decreases p.remaining(),
        {
            let ghost b0 = *pool;
            let ghost qb = *p;
            let r = parse_pattern(p, pool, fuel - 1);
            proof {
                lemma_steps(p0, b0, *pool, q0, qb, *p);
                lemma_all_matchers_mono(subs@, b0.size(), pool.size());
            }
            let sub = r?;
            subs.push(sub);
            if p.at(TokKind::Comma) {
                p.advance();
                commas = true;
            } else if !p.at(TokKind::RParen) {
                return Err(p.fail(", or )"));
            }
        }
        let ghost qz = *p;
        let r = p.expect(TokKind::RParen, ")");
        proof { Parser::lemma_follows_trans(q0, qz, *p); }
        r?;
        if !commas && subs.len() == 1 {
            match subs.pop() {
                Some(x) => x,
                None => Matcher::DontCare,
            }
        } else {
            proof { lemma_matchers_ok_iff(subs@, pool.size()); }
            Matcher::Tuple(subs)
        }
    } else if p.at(TokKind::LBrace) {
        p.advance();
        let mut items: Vec<(String, Matcher<Expr>, Option<Expr>)> = Vec::new();
        let mut need_all = true;
        while !p.at(TokKind::RBrace)
            invariant
                p.inv(),
                p.follows(q0),
                p.remaining() < q0.remaining(),
                grown(*pool, p0),
                forall|j: int| 0 <= j < items@.len() ==> matcher_ok((#[trigger] items@[j]).1, pool.size()) && opt_ok(items@[j].2, pool.size()),
            decreases p.remaining(),
        {
            if p.at(TokKind::Ellipsis) {
                p.advance();
                need_all = false;
            } else {
                let ghost qb = *p;
                let r = field_name(p);
                proof { Parser::lemma_follows_trans(q0, qb, *p); }
                let name = r?;
                let sub = if p.at(TokKind::Assign) {
                    p.advance();
                    let ghost b0 = *pool;
                    let ghost qc = *p;
                    let r = parse_pattern(p, pool, fuel - 1);
                    proof {
                        lemma_steps(p0, b0, *pool, q0, qc, *p);
                        lemma_fields_mono(items@, b0.size(), pool.size());
                    }
                    r?
                } else {
                    Matcher::Ident(name.clone())
                };
                let ghost b1 = *pool;
                let default = if p.at(TokKind::Question) {
                    p.advance();
                    let ghost qd = *p;
                    let r = parse_expr(p, pool, fuel - 1);
                    proof {
                        lemma_steps(p0, b1, *pool, q0, qd, *p);
                        lemma_fields_mono(items@, b1.size(), pool.size());
                        lemma_matcher_ok_mono(sub, b1.size(), pool.size());
                    }
                    Some(r?)
                } else {
                    None
                };
                items.push((name, sub, default));
            }
            if p.at(TokKind::Comma) {
                p.advance();
            } else if !p.at(TokKind::RBrace) {
                return Err(p.fail(", or }"));
            }
        }
        let ghost qz = *p;
        let r = p.expect(TokKind::RBrace, "}");
        proof { Parser::lemma_follows_trans(q0, qz, *p); }
        r?;
        proof { lemma_items_ok_iff(items@, pool.size()); }
        Matcher::Object(items, need_all)
    } else {
        return Err(p.fail("pattern"));
    };
    while p.at(TokKind::At)
        invariant
            p.inv(),
            p.follows(q0),
            p.remaining() < q0.remaining(),
            grown(*pool, p0),
            matcher_ok(m, pool.size()),
        decreases p.remaining(),
    {
        p.advance();
        let ghost qb = *p;
        let r = p.ident("name");
        proof { Parser::lemma_follows_trans(q0, qb, *p); }
        let name = r?;
        m = Matcher::Alias(Box::new(m), name);
    }
    Ok(m)
}

/// A literal, a name, or a bracketed construct.
#[verifier::loop_isolation(false)]
fn parse_atom(p: &mut Parser, pool: &mut ExprPool, fuel: u64) -> (res: Result<Expr, Error>)
    requires
        old(p).inv(),
        old(pool).wf(),
    ensures
        final(p).follows(*old(p)),
        final(p).inv(),
        grown(*final(pool), *old(pool)),
        res matches Ok(e) ==> final(pool).valid(e),
        res is Ok ==> final(p).remaining() < old(p).remaining(),
        parse_err(res),
        old(p).at_atom() && fuel > 0 && !continues(6, old(p).kind_at(1)) ==> reads_atom(*old(p), *final(p), *final(pool), res)
            && only_pushed(*final(pool), *old(pool)),
    decreases fuel, 6int,
{
    if fuel == 0 {
        return Err(too_deep_parse());
    }
    let ghost q0 = *p;
    let ghost p0 = *pool;
    match p.peek() {
        Some(TokKind::LParen) => parse_paren(p, pool, fuel),
        Some(TokKind::LBrack) => parse_list(p, pool, fuel),
        Some(TokKind::LBrace) => parse_object(p, pool, fuel),
        Some(TokKind::True) | Some(TokKind::False) => {
            let b = p.at(TokKind::True);
            let (l, r) = p.advance();
            let loc = Some(ExprSourceRef { file: p.file, left: l, right: r });
            Ok(pool.push(ExprType::Value(Value::from_bool(b)), loc))
        },
        Some(_) => {
            let (l, r) = p.here();
            let file = p.file;
            let loc = Some(ExprSourceRef { file, left: l, right: r });
            let t = match &p.toks[p.pos].tok {
                Tok::Int(d) => Some((0u8, d.clone())),
                Tok::Str(raw) => Some((1u8, raw.clone())),
                Tok::Ident(n) => Some((2u8, n.clone())),
                _ => None,
            };
            match t {
                Some((kind, text)) => {
                    p.advance();
                    if kind == 0 {
                        match Value::parse_int(text.as_str()) {
                            Some(v) => Ok(pool.push(ExprType::Value(v), loc)),
                            None => Err(err_msg(ErrorType::Parse, "Invalid integer").loc(l, r, file)),
                        }
                    } else if kind == 1 {
                        parse_string_lit(text.as_str(), l, r, file, pool, fuel - 1)
                    } else {
                        Ok(pool.push(ExprType::Var(text), loc))
                    }
                },
                None => Err(p.fail("expression")),
            }
        },
        None => Err(p.fail("expression")),
    }
}

/// `( e )`, a tuple `(a, b)`, `(a,)`, `(,)`, or a fold
/// `(|acc item| e <- initial .. source)`.
#[verifier::loop_isolation(false)]
fn parse_paren(p: &mut Parser, pool: &mut ExprPool, fuel: u64) -> (res: Result<Expr, Error>)
    requires
        old(p).inv(),
        old(pool).wf(),
    ensures
        final(p).follows(*old(p)),
        final(p).inv(),
        grown(*final(pool), *old(pool)),
        res matches Ok(e) ==> final(pool).valid(e),
        res is Ok ==> final(p).remaining() < old(p).remaining(),
        parse_err(res),
    decreases fuel, 5int,
{
    if fuel == 0 {
        return Err(too_deep_parse());
    }
    let ghost p0 = *pool;
    let ghost q0 = *p;
    let start = p.here().0;
    p.expect(TokKind::LParen, "(")?;
    if p.at(TokKind::Comma) && p.peek2() == Some(TokKind::RParen) {
        p.advance();
        p.advance();
        let loc = p.loc_from(start);
        return Ok(pool.push(ExprType::Tuple(Vec::new()), loc));
    }
    let ghost b0 = *pool;
    let ghost qa = *p;
    let first = if p.at(TokKind::Pipe) {
        let r = parse_lambda(p, pool, fuel - 1);
        proof { lemma_steps(p0, b0, *pool, q0, qa, *p); }
        let func = r?;
        if p.at(TokKind::Arrow) {
            p.advance();
            let ghost b1 = *pool;
            let ghost qb = *p;
            let r = parse_expr(p, pool, fuel - 1);
            proof { lemma_steps(p0, b1, *pool, q0, qb, *p); }
            let init = r?;
            let ghost qc = *p;
            let r = p.expect(TokKind::DotDot, "..");
            proof { Parser::lemma_follows_trans(q0, qc, *p); }
            r?;
            let ghost b2 = *pool;
            let ghost qd = *p;
            let r = parse_expr(p, pool, fuel - 1);
            proof { lemma_steps(p0, b2, *pool, q0, qd, *p); }
            let src = r?;
            let ghost qe = *p;
            let r = p.expect(TokKind::RParen, ")");
            proof { Parser::lemma_follows_trans(q0, qe, *p); }
            r?;
            let loc = p.loc_from(start);
            let ghost b3 = *pool;
            let e = pool.push(ExprType::Fold(func, init, src), loc);
            proof { lemma_extends_trans(*pool, b3, p0); }
            return Ok(e);
        }
        func
    } else {
        let r = parse_expr(p, pool, fuel - 1);
        proof { lemma_steps(p0, b0, *pool, q0, qa, *p); }
        r?
    };
    if p.at(TokKind::RParen) {
        p.advance();
        return Ok(first);
    }
    if !p.at(TokKind::Comma) {
        return Err(p.fail(", or )"));
    }
    let mut items: Vec<Expr> = Vec::new();
    items.push(first);
    while p.at(TokKind::Comma)
        invariant
            p.inv(),
            p.follows(q0),
            p.remaining() < q0.remaining(),
            grown(*pool, p0),
            vec_ok(items@, pool.size()),
        decreases p.remaining(),
    {
        p.advance();
        if !p.at(TokKind::RParen) {
            let ghost b1 = *pool;
            let ghost qb = *p;
            let r = parse_expr(p, pool, fuel - 1);
            proof { lemma_steps(p0, b1, *pool, q0, qb, *p); }
            let item = r?;
            items.push(item);
        }
    }
    let ghost qf = *p;
    let r = p.expect(TokKind::RParen, ")");
    proof { Parser::lemma_follows_trans(q0, qf, *p); }
    r?;
    let loc = p.loc_from(start);
    Ok(pool.push(ExprType::Tuple(items), loc))
}

/// `[a, b, ...]` with an optional trailing comma, or `[ |p| e <- source ]`.
#[verifier::loop_isolation(false)]
fn parse_list(p: &mut Parser, pool: &mut ExprPool, fuel: u64) -> (res: Result<Expr, Error>)
    requires
        old(p).inv(),
        old(pool).wf(),
    ensures
        final(p).follows(*old(p)),
        final(p).inv(),
        grown(*final(pool), *old(pool)),
        res matches Ok(e) ==> final(pool).valid(e),
        res is Ok ==> final(p).remaining() < old(p).remaining(),
        parse_err(res),
    decreases fuel, 5int,
{
    if fuel == 0 {
        return Err(too_deep_parse());
    }
    let ghost p0 = *pool;
    let ghost q0 = *p;
    let start = p.here().0;
    p.expect(TokKind::LBrack, "[")?;
    if p.at(TokKind::RBrack) {
        p.advance();
        let loc = p.loc_from(start);
        return Ok(pool.push(ExprType::List(Vec::new()), loc));
    }
    let ghost b0 = *pool;
    let ghost qa = *p;
    let first = if p.at(TokKind::Pipe) {
        let r = parse_lambda(p, pool, fuel - 1);
        proof { lemma_steps(p0, b0, *pool, q0, qa, *p); }
        let func = r?;
        if p.at(TokKind::Arrow) {
            p.advance();
            let ghost b1 = *pool;
            let ghost qb = *p;
            let r = parse_expr(p, pool, fuel - 1);
            proof { lemma_steps(p0, b1, *pool, q0, qb, *p); }
            let src = r?;
            let ghost qc = *p;
            let r = p.expect(TokKind::RBrack, "]");
            proof { Parser::lemma_follows_trans(q0, qc, *p); }
            r?;
            let loc = p.loc_from(start);
            let ghost b3 = *pool;
            let e = pool.push(ExprType::MapList(ExprMapType::List, func, src), loc);
            proof { lemma_extends_trans(*pool, b3, p0); }
            return Ok(e);
        }
        func
    } else {
        let r = parse_expr(p, pool, fuel - 1);
        proof { lemma_steps(p0, b0, *pool, q0, qa, *p); }
        r?
    };
    let mut items: Vec<Expr> = Vec::new();
    items.push(first);
    while p.at(TokKind::Comma)
        invariant
            p.inv(),
            p.follows(q0),
            p.remaining() < q0.remaining(),
            grown(*pool, p0),
            vec_ok(items@, pool.size()),
        decreases p.remaining(),
    {
        p.advance();
        if !p.at(TokKind::RBrack) {
            let ghost b1 = *pool;
            let ghost qb = *p;
            let r = parse_expr(p, pool, fuel - 1);
            proof { lemma_steps(p0, b1, *pool, q0, qb, *p); }
            let item = r?;
            items.push(item);
        }
    }
    let ghost qf = *p;
    let r = p.expect(TokKind::RBrack, "]");
    proof { Parser::lemma_follows_trans(q0, qf, *p); }
    r?;
    let loc = p.loc_from(start);
    Ok(pool.push(ExprType::List(items), loc))
}

/// `{ name = e; ... }` or `{ |p| (key, value) <- source }`.
#[verifier::loop_isolation(false)]
fn parse_object(p: &mut Parser, pool: &mut ExprPool, fuel: u64) -> (res: Result<Expr, Error>)
    requires
        old(p).inv(),
        old(pool).wf(),
    ensures
        final(p).follows(*old(p)),
        final(p).inv(),
        grown(*final(pool), *old(pool)),
        res matches Ok(e) ==> final(pool).valid(e),
        res is Ok ==> final(p).remaining() < old(p).remaining(),
        parse_err(res),
    decreases fuel, 5int,
{
    if fuel == 0 {
        return Err(too_deep_parse());
    }
    let ghost p0 = *pool;
    let ghost q0 = *p;
    let start = p.here().0;
    p.expect(TokKind::LBrace, "{")?;
    if p.at(TokKind::Pipe) {
        let ghost b0 = *pool;
        let ghost qa = *p;
        let r = parse_lambda(p, pool, fuel - 1);
        proof { lemma_steps(p0, b0, *pool, q0, qa, *p); }
        let func = r?;
        let ghost qz = *p;
        let r = p.expect(TokKind::Arrow, "<-");
        proof { Parser::lemma_follows_trans(q0, qz, *p); }
        r?;
        let ghost b1 = *pool;
        let ghost qb = *p;
        let r = parse_expr(p, pool, fuel - 1);
        proof { lemma_steps(p0, b1, *pool, q0, qb, *p); }
        let src = r?;
        let ghost qc = *p;
        let r = p.expect(TokKind::RBrace, "}");
        proof { Parser::lemma_follows_trans(q0, qc, *p); }
        r?;
        let loc = p.loc_from(start);
        let ghost b3 = *pool;
        let e = pool.push(ExprType::MapList(ExprMapType::Object, func, src), loc);
        proof { lemma_extends_trans(*pool, b3, p0); }
        return Ok(e);
    }
    let mut fields: ImMap<Expr> = ImMap::new();
    while !p.at(TokKind::RBrace)
        invariant
            p.inv(),
            p.follows(q0),
            p.remaining() < q0.remaining(),
            grown(*pool, p0),
            set_ok(fields@, pool.size()),
        decreases p.remaining(),
    {
        let ghost qb = *p;
        let r = field_name(p);
        proof { Parser::lemma_follows_trans(q0, qb, *p); }
        let name = r?;
        let ghost qc = *p;
        let r = p.expect(TokKind::Assign, "=");
        proof { Parser::lemma_follows_trans(q0, qc, *p); }
        r?;
        let ghost b1 = *pool;
        let ghost qd = *p;
        let r = parse_expr(p, pool, fuel - 1);
        proof { lemma_steps(p0, b1, *pool, q0, qd, *p); }
        let val = r?;
        let ghost qe = *p;
        let r = p.expect(TokKind::Semi, ";");
        proof {
            Parser::lemma_follows_trans(q0, qe, *p);
            lemma_set_ok_mono(fields@, b1.size(), pool.size());
        }
        r?;
        let ghost f0 = fields@;
        match fields.set_mut(name.as_str(), val) {
            Ok(()) => {},
            Err(_) => {
                return Err(Error::new(ErrorType::DupKey, name));
            },
        }
        proof {
            let k = choose|k: int| 0 <= k <= f0.len() && fields@ == f0.insert(k, (name@, val));
            assert forall|q: int| 0 <= q < fields@.len() implies (#[trigger] fields@[q]).1.0 < pool.size() by {
                if q < k {
                    assert(fields@[q] == f0[q]);
                } else if q > k {
                    assert(fields@[q] == f0[q - 1]);
                }
            }
        }
    }
    let ghost qz = *p;
    let r = p.expect(TokKind::RBrace, "}");
    proof { Parser::lemma_follows_trans(q0, qz, *p); }
    r?;
    let loc = p.loc_from(start);
    Ok(pool.push(ExprType::Object(fields), loc))
}

} // verus!
