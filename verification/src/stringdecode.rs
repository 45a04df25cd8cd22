//! Splitting of string literal contents into text and `${...}` substitutions.
use vstd::prelude::*;

use crate::text::{chars_of, string_of};

verus! {

/// One part of a string literal: plain text, or the source of an embedded
/// expression.
#[derive(Debug, PartialEq)]
pub enum StringType {
    Str(String),
    Expr(String),
}

/// A part of a decoded string as plain values: `(is_expr, characters)`.
pub open spec fn piece_view(p: StringType) -> (bool, Seq<char>) {
    match p {
        StringType::Str(s) => (false, s@),
        StringType::Expr(s) => (true, s@),
    }
}

/// The pending text as a list of at most one text part.
pub open spec fn flush(buf: Seq<char>) -> Seq<(bool, Seq<char>)> {
    if buf.len() == 0 {
        seq![]
    } else {
        seq![(false, buf)]
    }
}

/// Index just past the `}` that closes a substitution whose body starts at
/// `i`, with `lvl` braces still open; `None` when the input ends first.
pub open spec fn close_brace(s: Seq<char>, i: int, lvl: int) -> Option<int>
    decreases s.len() - i,
{
    if i < 0 || i >= s.len() || lvl <= 0 {
        None
    } else if s[i] == '}' && lvl == 1 {
        Some(i + 1)
    } else if s[i] == '}' {
        close_brace(s, i + 1, lvl - 1)
    } else if s[i] == '{' {
        close_brace(s, i + 1, lvl + 1)
    } else {
        close_brace(s, i + 1, lvl)
    }
}

/// Decoding of `s` where `buf` is text already read and not yet emitted.
///
/// `$$` stands for `$`, `${ body }` for an expression (braces nest), and a
/// `$` followed by anything else makes the string invalid.
pub open spec fn decode(s: Seq<char>, buf: Seq<char>) -> Option<Seq<(bool, Seq<char>)>>
    decreases s.len(),
{
    if s.len() == 0 {
        Some(flush(buf))
    } else if s[0] == '$' {
        if s.len() >= 2 && s[1] == '{' {
            match close_brace(s, 2, 1) {
                Some(end) => if 2 < end <= s.len() {
                    match decode(s.skip(end), seq![]) {
                        Some(rest) => Some(flush(buf) + seq![(true, s.subrange(2, end - 1))] + rest),
                        None => None,
                    }
                } else {
                    None
                },
                None => None,
            }
        } else if s.len() >= 2 && s[1] == '$' {
            decode(s.skip(2), buf.push('$'))
        } else {
            None
        }
    } else {
        decode(s.skip(1), buf.push(s[0]))
    }
}

proof fn lemma_close_brace_range(s: Seq<char>, i: int, lvl: int)
    ensures
        close_brace(s, i, lvl) matches Some(end) ==> i < end <= s.len() && s[end - 1] == '}',
    decreases s.len() - i,
{
    if 0 <= i < s.len() && lvl > 0 {
        if s[i] == '}' && lvl == 1 {
        } else if s[i] == '}' {
            lemma_close_brace_range(s, i + 1, lvl - 1);
        } else if s[i] == '{' {
            lemma_close_brace_range(s, i + 1, lvl + 1);
        } else {
            lemma_close_brace_range(s, i + 1, lvl);
        }
    }
}

proof fn lemma_close_shift(s: Seq<char>, i: int, k: int, l: int)
    requires
        0 <= i <= s.len(),
        0 <= k,
    ensures
        close_brace(s.skip(i), k, l) == match close_brace(s, i + k, l) {
            Some(e) => Some(e - i),
            None => None,
        },
    decreases s.len() - i - k,
{
    let r = s.skip(i);
    if k < r.len() && l > 0 {
        assert(r[k] == s[i + k]);
        if r[k] == '}' && l == 1 {
        } else if r[k] == '}' {
            lemma_close_shift(s, i, k + 1, l - 1);
        } else if r[k] == '{' {
            lemma_close_shift(s, i, k + 1, l + 1);
        } else {
            lemma_close_shift(s, i, k + 1, l);
        }
    }
}

/// Finds the end of a substitution body starting at `start`.
fn find_close(s: &Vec<char>, start: usize) -> (res: Option<usize>)
    requires
        1 <= start <= s@.len(),
    ensures
        res matches Some(e) ==> close_brace(s@, start as int, 1) == Some(e as int),
        res is None ==> close_brace(s@, start as int, 1) is None,
{
    let mut i = start;
    let mut lvl: usize = 1;
    while i < s.len()
        invariant
            1 <= start <= i <= s@.len(),
            1 <= lvl <= i - start + 1,
            close_brace(s@, start as int, 1) == close_brace(s@, i as int, lvl as int),
        decreases s.len() - i,
    {
        if s[i] == '}' {
            if lvl == 1 {
                return Some(i + 1);
            }
            lvl = lvl - 1;
        } else if s[i] == '{' {
            lvl = lvl + 1;
        }
        i = i + 1;
    }
    None
}

/// Text part for a non-empty buffer.
fn flush_into(out: &mut Vec<StringType>, buf: &Vec<char>)
    ensures
        final(out)@.map_values(|p: StringType| piece_view(p)) == old(out)@.map_values(
            |p: StringType| piece_view(p),
        ) + flush(buf@),
{
    if buf.len() > 0 {
        out.push(StringType::Str(string_of(buf)));
    }
    assert(final(out)@.map_values(|p: StringType| piece_view(p)) =~= old(out)@.map_values(
        |p: StringType| piece_view(p),
    ) + flush(buf@));
}

/// Splits the contents of a string literal into text and the source of
/// `${...}` substitutions; `$$` is a literal `$`. Returns `None` when a `$`
/// is followed by anything else, or a substitution is not closed.
pub fn string_decode(input: &str) -> (res: Option<Vec<StringType>>)
    ensures
        match res {
            Some(v) => decode(input@, seq![]) == Some(v@.map_values(|p: StringType| piece_view(p))),
            None => decode(input@, seq![]) is None,
        },
{
    let s = chars_of(input);
    let mut out: Vec<StringType> = Vec::new();
    let mut buf: Vec<char> = Vec::new();
    let mut i: usize = 0;
    assert(s@.skip(0) =~= s@);
    while i < s.len()
        invariant
            i <= s@.len(),
            s@ == input@,
            decode(input@, seq![]) == match decode(s@.skip(i as int), buf@) {
                Some(rest) => Some(out@.map_values(|p: StringType| piece_view(p)) + rest),
                None => None::<Seq<(bool, Seq<char>)>>,
            },
        decreases s.len() - i,
    {
        let ghost rest_s = s@.skip(i as int);
        let c = s[i];
        if c == '$' {
            if i + 1 < s.len() && s[i + 1] == '{' {
                let close = find_close(&s, i + 2);
                proof {
                    lemma_close_shift(s@, i as int, 2, 1);
                }
                match close {
                    Some(end) => {
                        proof { lemma_close_brace_range(s@, i + 2, 1); }
                        let ghost old_out = out@.map_values(|p: StringType| piece_view(p));
                        let ghost old_buf = buf@;
                        flush_into(&mut out, &buf);
                        buf = Vec::new();
                        let mut body: Vec<char> = Vec::new();
                        let mut j = i + 2;
                        while j < end - 1
                            invariant
                                i + 2 <= j <= end - 1,
                                end <= s@.len(),
                                body@ == s@.subrange(i + 2, j as int),
                            decreases end - 1 - j,
                        {
                            body.push(s[j]);
                            j = j + 1;
                        }
                        out.push(StringType::Expr(string_of(&body)));
                        proof {
                            assert(rest_s.subrange(2, (end - i) - 1) =~= s@.subrange(
                                i + 2,
                                end - 1,
                            ));
                            assert(rest_s.skip(end - i) =~= s@.skip(end as int));
                            assert(out@.map_values(|p: StringType| piece_view(p)) =~= old_out
                                + flush(old_buf) + seq![(true, s@.subrange(i + 2, end - 1))]);
                        }
                        i = end;
                    },
                    None => {
                        return None;
                    },
                }
            } else if i + 1 < s.len() && s[i + 1] == '$' {
                buf.push('$');
                assert(rest_s.skip(2) =~= s@.skip(i + 2));
                i = i + 2;
            } else {
                return None;
            }
        } else {
            buf.push(c);
            assert(rest_s.skip(1) =~= s@.skip(i + 1));
            i = i + 1;
        }
    }
    flush_into(&mut out, &buf);
    Some(out)
}

/// Text without `$` decodes to itself, as one plain part (none when empty).
pub proof fn law_plain_text(s: Seq<char>, buf: Seq<char>)
    requires
        forall|i: int| 0 <= i < s.len() ==> s[i] != '$',
    ensures
        decode(s, buf) == Some(flush(buf + s)),
    decreases s.len(),
{
    if s.len() == 0 {
        assert(buf + s =~= buf);
    } else {
        assert(s[0] != '$');
        law_plain_text(s.skip(1), buf.push(s[0]));
        assert(buf.push(s[0]) + s.skip(1) =~= buf + s);
    }
}

/// Text written as string literal contents: each `$` doubled, every other
/// character as it is.
pub open spec fn escape_dollars(t: Seq<char>) -> Seq<char>
    decreases t.len(),
{
    if t.len() == 0 {
        seq![]
    } else if t[0] == '$' {
        seq!['$', '$'] + escape_dollars(t.skip(1))
    } else {
        seq![t[0]] + escape_dollars(t.skip(1))
    }
}

/// Decoding undoes escaping: any text, with each `$` written as `$$`,
/// decodes to that text itself as one plain part (none when empty), after
/// the text already read.
pub proof fn law_escape_round_trip(t: Seq<char>, buf: Seq<char>)
    ensures
        decode(escape_dollars(t), buf) == Some(flush(buf + t)),
    decreases t.len(),
{
    let s = escape_dollars(t);
    if t.len() == 0 {
        assert(buf + t =~= buf);
    } else if t[0] == '$' {
        assert(s.skip(2) =~= escape_dollars(t.skip(1)));
        law_escape_round_trip(t.skip(1), buf.push('$'));
        assert(buf.push('$') + t.skip(1) =~= buf + t);
    } else {
        assert(s.skip(1) =~= escape_dollars(t.skip(1)));
        law_escape_round_trip(t.skip(1), buf.push(t[0]));
        assert(buf.push(t[0]) + t.skip(1) =~= buf + t);
    }
}

/// Escaped text followed by more decodes as the text, put in front of what
/// the rest decodes to.
proof fn lemma_escape_prefix(t: Seq<char>, r: Seq<char>, buf: Seq<char>)
    ensures
        decode(escape_dollars(t) + r, buf) == decode(r, buf + t),
    decreases t.len(),
{
    let s = escape_dollars(t) + r;
    if t.len() == 0 {
        assert(s =~= r);
        assert(buf + t =~= buf);
    } else if t[0] == '$' {
        assert(s.skip(2) =~= escape_dollars(t.skip(1)) + r);
        lemma_escape_prefix(t.skip(1), r, buf.push('$'));
        assert(buf.push('$') + t.skip(1) =~= buf + t);
    } else {
        assert(s.skip(1) =~= escape_dollars(t.skip(1)) + r);
        lemma_escape_prefix(t.skip(1), r, buf.push(t[0]));
        assert(buf.push(t[0]) + t.skip(1) =~= buf + t);
    }
}

/// A body without braces is closed by the first `}` after it.
proof fn lemma_close_plain(s: Seq<char>, i: int, b: Seq<char>)
    requires
        0 <= i,
        i + b.len() < s.len(),
        s.subrange(i, i + b.len()) == b,
        s[i + b.len()] == '}',
        forall|k: int| 0 <= k < b.len() ==> b[k] != '{' && b[k] != '}',
    ensures
        close_brace(s, i, 1) == Some(i + b.len() + 1),
    decreases b.len(),
{
    if b.len() > 0 {
        assert(s[i] == b[0]);
        assert(s.subrange(i + 1, i + b.len()) =~= b.skip(1));
        lemma_close_plain(s, i + 1, b.skip(1));
    }
}

/// A substitution `${b}` whose body has no braces, after escaped text `t`,
/// decodes to the text part for `t` (none when empty), then the expression
/// part `b`, then what the rest `r` decodes to; it fails exactly when the
/// rest does.
pub proof fn law_substitution(t: Seq<char>, b: Seq<char>, r: Seq<char>)
    requires
        forall|k: int| 0 <= k < b.len() ==> b[k] != '{' && b[k] != '}',
    ensures
        decode(escape_dollars(t) + seq!['$', '{'] + b + seq!['}'] + r, seq![]) == match decode(r, seq![]) {
            Some(x) => Some(flush(t) + seq![(true, b)] + x),
            None => None,
        },
{
    let u = seq!['$', '{'] + b + seq!['}'] + r;
    assert(escape_dollars(t) + seq!['$', '{'] + b + seq!['}'] + r =~= escape_dollars(t) + u);
    lemma_escape_prefix(t, u, seq![]);
    assert(seq![] + t =~= t);
    let n = b.len() as int;
    assert(u.subrange(2, 2 + n) =~= b);
    assert(u[2 + n] == '}');
    lemma_close_plain(u, 2, b);
    assert(u.subrange(2, 2 + n + 1 - 1) =~= b);
    assert(u.skip(2 + n + 1) =~= r);
}

/// A `$` followed by anything but `$` or `{`, after escaped text, makes the
/// contents invalid, whatever follows.
pub proof fn law_bad_dollar(t: Seq<char>, c: char, r: Seq<char>)
    requires
        c != '$',
        c != '{',
    ensures
        decode(escape_dollars(t) + seq!['$', c] + r, seq![]) is None,
{
    let u = seq!['$', c] + r;
    assert(escape_dollars(t) + seq!['$', c] + r =~= escape_dollars(t) + u);
    lemma_escape_prefix(t, u, seq![]);
}

/// Opening braces minus closing braces in `p`.
pub open spec fn brace_depth(p: Seq<char>) -> int
    decreases p.len(),
{
    if p.len() == 0 {
        0
    } else {
        (if p[0] == '{' {
            1int
        } else if p[0] == '}' {
            -1int
        } else {
            0int
        }) + brace_depth(p.skip(1))
    }
}

/// `b` closes every brace it opens, and never closes one it did not open.
pub open spec fn balanced(b: Seq<char>) -> bool {
    &&& forall|k: int| 0 <= k <= b.len() ==> brace_depth(#[trigger] b.take(k)) >= 0
    &&& brace_depth(b) == 0
}

/// A body whose braces never close more than `l - 1` of the open ones, and
/// that leaves `l - 1` of them open at its end, is closed by the `}` after it.
proof fn lemma_close_nested(s: Seq<char>, i: int, b: Seq<char>, l: int)
    requires
        0 <= i,
        i + b.len() < s.len(),
        s.subrange(i, i + b.len()) == b,
        s[i + b.len()] == '}',
        forall|k: int| 0 <= k <= b.len() ==> l + brace_depth(#[trigger] b.take(k)) >= 1,
        l + brace_depth(b) == 1,
    ensures
        close_brace(s, i, l) == Some(i + b.len() + 1),
    decreases b.len(),
{
    assert(b.take(0) =~= Seq::<char>::empty());
    if b.len() > 0 {
        assert(s[i] == b[0]);
        let rest = b.skip(1);
        assert(s.subrange(i + 1, i + b.len()) =~= rest);
        let d = if b[0] == '{' {
            1int
        } else if b[0] == '}' {
            -1int
        } else {
            0int
        };
        assert(b.take(1).skip(1) =~= Seq::<char>::empty());
        assert(brace_depth(b.take(1)) == d);
        assert forall|k: int| 0 <= k <= rest.len() implies (l + d) + brace_depth(#[trigger] rest.take(k)) >= 1 by {
            assert(b.take(k + 1).skip(1) =~= rest.take(k));
            assert(b.take(k + 1)[0] == b[0]);
            assert(l + brace_depth(b.take(k + 1)) >= 1);
        }
        lemma_close_nested(s, i + 1, rest, l + d);
    } else {
        assert(l == 1);
    }
}

/// A substitution `${b}` whose body closes every brace it opens, after
/// escaped text `t`, decodes to the text part for `t` (none when empty), then
/// the expression part `b` with its braces, then what the rest `r` decodes
/// to; it fails exactly when the rest does.
pub proof fn law_nested_substitution(t: Seq<char>, b: Seq<char>, r: Seq<char>)
    requires
        balanced(b),
    ensures
        decode(escape_dollars(t) + seq!['$', '{'] + b + seq!['}'] + r, seq![]) == match decode(r, seq![]) {
            Some(x) => Some(flush(t) + seq![(true, b)] + x),
            None => None,
        },
{
    let u = seq!['$', '{'] + b + seq!['}'] + r;
    assert(escape_dollars(t) + seq!['$', '{'] + b + seq!['}'] + r =~= escape_dollars(t) + u);
    lemma_escape_prefix(t, u, seq![]);
    assert(seq![] + t =~= t);
    let n = b.len() as int;
    assert(u.subrange(2, 2 + n) =~= b);
    assert(u[2 + n] == '}');
    assert(b.take(n) =~= b);
    lemma_close_nested(u, 2, b, 1);
    assert(u.subrange(2, 2 + n + 1 - 1) =~= b);
    assert(u.skip(2 + n + 1) =~= r);
}

/// Contents without a substitution decode, when they decode at all, to one
/// text whose escaped form they are: each `$$` stands for one `$`, and no
/// other `$` occurs. They decode exactly when they are such an escaped form.
pub proof fn law_unescape(s: Seq<char>, buf: Seq<char>)
    requires
        forall|i: int| 0 <= i < s.len() - 1 && #[trigger] s[i] == '$' ==> s[i + 1] != '{',
    ensures
        decode(s, buf) is Some <==> exists|t: Seq<char>| escape_dollars(t) == s,
        decode(s, buf) matches Some(p) ==> exists|t: Seq<char>|
            escape_dollars(t) == s && p == flush(buf + t),
    decreases s.len(),
{
    if exists|t: Seq<char>| escape_dollars(t) == s {
        let t = choose|t: Seq<char>| escape_dollars(t) == s;
        law_escape_round_trip(t, buf);
    }
    if s.len() == 0 {
        let t = Seq::<char>::empty();
        assert(escape_dollars(t) == s);
        assert(buf + t =~= buf);
    } else if s[0] == '$' {
        if s.len() >= 2 && s[1] == '$' {
            let r = s.skip(2);
            law_unescape(r, buf.push('$'));
            if let Some(p) = decode(s, buf) {
                let u = choose|u: Seq<char>| escape_dollars(u) == r && p == flush(buf.push('$') + u);
                let t = seq!['$'] + u;
                assert(t.skip(1) =~= u);
                assert(escape_dollars(t) =~= s);
                assert(buf.push('$') + u =~= buf + t);
            }
        } else if s.len() >= 2 {
            assert(s[1] != '{');
        }
    } else {
        let r = s.skip(1);
        law_unescape(r, buf.push(s[0]));
        if let Some(p) = decode(s, buf) {
            let u = choose|u: Seq<char>| escape_dollars(u) == r && p == flush(buf.push(s[0]) + u);
            let t = seq![s[0]] + u;
            assert(t.skip(1) =~= u);
            assert(escape_dollars(t) =~= s);
            assert(buf.push(s[0]) + u =~= buf + t);
        }
    }
}

/// A `$` that ends the contents, after escaped text, makes them invalid.
pub proof fn law_trailing_dollar(t: Seq<char>)
    ensures
        decode(escape_dollars(t) + seq!['$'], seq![]) is None,
{
    lemma_escape_prefix(t, seq!['$'], seq![]);
}

/// With no `}` from `i` on, no substitution opened before `i` is closed.
proof fn lemma_no_close(s: Seq<char>, i: int, l: int)
    requires
        forall|k: int| i <= k < s.len() ==> s[k] != '}',
    ensures
        close_brace(s, i, l) is None,
    decreases s.len() - i,
{
    if 0 <= i < s.len() && l > 0 {
        if s[i] == '{' {
            lemma_no_close(s, i + 1, l + 1);
        } else {
            lemma_no_close(s, i + 1, l);
        }
    }
}

/// A substitution that is never closed, after escaped text, makes the
/// contents invalid.
pub proof fn law_unclosed_substitution(t: Seq<char>, b: Seq<char>)
    requires
        forall|k: int| 0 <= k < b.len() ==> b[k] != '}',
    ensures
        decode(escape_dollars(t) + seq!['$', '{'] + b, seq![]) is None,
{
    let u = seq!['$', '{'] + b;
    assert(escape_dollars(t) + seq!['$', '{'] + b =~= escape_dollars(t) + u);
    lemma_escape_prefix(t, u, seq![]);
    assert forall|k: int| 2 <= k < u.len() implies u[k] != '}' by {
        assert(u[k] == b[k - 2]);
    }
    lemma_no_close(u, 2, 1);
}

} // verus!
