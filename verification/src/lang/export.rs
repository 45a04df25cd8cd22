//! Expressions written back as source text.
use vstd::prelude::*;

use crate::immap::ImMap;
use crate::lang::expr::{
    lemma_items_ok_iff, lemma_matchers_ok_iff, matcher_ok, set_ok, stmts_ok, tok_ok, vec_ok, Expr,
    ExprBinOp, ExprMapType, ExprPool, ExprType, ExprUnOp, Matcher,
};
use crate::ninjawriter::indent_text;
use crate::text::{push_char, push_str};
use crate::value::value_text;

verus! {

/// Both texts one after the other, when both exist.
pub open spec fn cat(a: Option<Seq<char>>, b: Option<Seq<char>>) -> Option<Seq<char>> {
    match (a, b) {
        (Some(x), Some(y)) => Some(x + y),
        _ => None,
    }
}

/// A line break and `lvl` levels of indentation.
pub open spec fn nl(lvl: nat) -> Seq<char> {
    seq!['\n'] + indent_text(lvl)
}

/// The text of a binary operator.
pub open spec fn binop_spec(op: ExprBinOp) -> Seq<char> {
    match op {
        ExprBinOp::HasAttr => "?"@,
        ExprBinOp::ListConcat => "++"@,
        ExprBinOp::Mult => "*"@,
        ExprBinOp::Div => "/"@,
        ExprBinOp::Sub => "-"@,
        ExprBinOp::Add => "+"@,
        ExprBinOp::Update => "//"@,
        ExprBinOp::Lt => "<"@,
        ExprBinOp::Le => "<="@,
        ExprBinOp::Gt => ">"@,
        ExprBinOp::Ge => ">="@,
        ExprBinOp::Eq => "=="@,
        ExprBinOp::Neq => "!="@,
        ExprBinOp::LogAnd => "&&"@,
        ExprBinOp::LogOr => "||"@,
        ExprBinOp::LogImpl => "->"@,
    }
}

/// The source text of node `e` at `indent` levels of indentation, written
/// down to `depth` levels of nesting; `None` when the nodes nest deeper.
///
/// Objects and `bind` scopes put each `name = value;` on its own line, lists
/// each item followed by `,` on its own line, and tuples their items
/// separated by `, ` (with a trailing `,` for fewer than two items).
pub open spec fn export_text(pool: ExprPool, e: Expr, indent: nat, depth: nat) -> Option<Seq<char>>
    decreases depth, 0nat, 0nat,
{
    if depth == 0 {
        None
    } else {
        let d = (depth - 1) as nat;
        match pool.node(e) {
            ExprType::Object(s) => cat(cat(Some(seq!['{']), entries_text(pool, s@, indent, d)), Some(nl(indent) + seq!['}'])),
            ExprType::List(v) => cat(cat(Some(seq!['[']), list_text(pool, v@, indent, d)), Some(nl(indent) + seq![']'])),
            ExprType::Tuple(v) => cat(cat(Some(seq!['(']), tuple_text(pool, v@, indent, d)), Some(
                if v@.len() < 2 { seq![',', ')'] } else { seq![')'] })),
            ExprType::AttrSel(x, a) => cat(export_text(pool, x, indent, d), Some(seq!['.'] + a@)),
            ExprType::Value(v) => Some(value_text(v)),
            ExprType::Var(n) => Some(n@),
            ExprType::UnOp(op, x) => cat(cat(Some(
                match op {
                    ExprUnOp::Neg => seq!['-', '('],
                    ExprUnOp::Not => seq!['!', '('],
                },
            ), export_text(pool, x, indent, d)), Some(seq![')'])),
            ExprType::BinOp(op, a, b) => cat(cat(cat(Some(seq!['(']), export_text(pool, a, indent, d)), Some(
                seq![')'] + binop_spec(op) + seq!['('])), cat(export_text(pool, b, indent, d), Some(seq![')']))),
            ExprType::FuncDef(m, body) => cat(cat(Some(seq!['|']), matcher_text(pool, m, indent, d)), cat(
                Some(seq!['|', ' ']), export_text(pool, body, indent, d))),
            ExprType::FuncDefBuiltin(w) => Some("<builtin "@ + w.0@ + seq!['>']),
            ExprType::Let(stmts, t) => cat(cat(Some("let"@), stmts_text(pool, stmts@, indent, d)), cat(
                Some(nl(indent) + "in"@ + nl(indent + 1)), export_text(pool, t, indent + 1, d))),
            ExprType::MapList(k, f, src) => cat(cat(cat(Some(
                match k {
                    ExprMapType::List => seq!['[', ' '],
                    ExprMapType::Object => seq!['{', ' '],
                },
            ), export_text(pool, f, indent, d)), Some(" <- "@)), cat(export_text(pool, src, indent, d), Some(
                match k {
                    ExprMapType::List => seq![' ', ']'],
                    ExprMapType::Object => seq![' ', '}'],
                },
            ))),
            ExprType::Fold(f, i, s) => cat(cat(cat(cat(Some(seq!['(']), export_text(pool, f, indent, d)), Some(
                " <- "@)), cat(export_text(pool, i, indent, d), Some(" .. "@))), cat(export_text(pool, s, indent, d),
                Some(seq![')']))),
            ExprType::FuncCall(arg, func) => cat(cat(Some(seq!['('] + nl(indent + 1)), export_text(pool, func, indent + 1, d)),
                cat(Some(nl(indent) + ") ("@ + nl(indent + 1)), cat(export_text(pool, arg, indent + 1, d), Some(nl(indent) + seq![')'])))),
            ExprType::Bind(s, x) => cat(cat(Some("bind"@), entries_text(pool, s@, indent, d)), cat(
                Some(nl(indent) + "in"@ + nl(indent + 1)), export_text(pool, x, indent + 1, d))),
            ExprType::Null => Some("null"@),
        }
    }
}

/// `name = value;` for each entry, each on a new line one level deeper.
pub open spec fn entries_text(pool: ExprPool, s: Seq<(Seq<char>, Expr)>, indent: nat, depth: nat) -> Option<Seq<char>>
    decreases depth, 1nat, s.len(),
{
    if s.len() == 0 {
        Some(seq![])
    } else {
        cat(entries_text(pool, s.drop_last(), indent, depth), cat(Some(nl(indent + 1) + s.last().0 + " = "@), cat(
            export_text(pool, s.last().1, indent + 1, depth), Some(seq![';']))))
    }
}

/// Each item followed by `,`, each on a new line one level deeper.
pub open spec fn list_text(pool: ExprPool, v: Seq<Expr>, indent: nat, depth: nat) -> Option<Seq<char>>
    decreases depth, 1nat, v.len(),
{
    if v.len() == 0 {
        Some(seq![])
    } else {
        cat(list_text(pool, v.drop_last(), indent, depth), cat(Some(nl(indent + 1)), export_text(pool, v.last(), indent + 1, depth)))
    }
}

/// The items separated by `, `.
pub open spec fn tuple_text(pool: ExprPool, v: Seq<Expr>, indent: nat, depth: nat) -> Option<Seq<char>>
    decreases depth, 1nat, v.len(),
{
    if v.len() == 0 {
        Some(seq![])
    } else {
        cat(tuple_text(pool, v.drop_last(), indent, depth), cat(Some(
            if v.len() > 1 { seq![',', ' '] } else { seq![] }), export_text(pool, v.last(), indent, depth)))
    }
}

/// `pattern = value;` for each statement, each on a new line one level
/// deeper.
pub open spec fn stmts_text(pool: ExprPool, v: Seq<(Matcher<Expr>, Expr)>, indent: nat, depth: nat) -> Option<Seq<char>>
    decreases depth, 1nat, v.len(),
{
    if v.len() == 0 {
        Some(seq![])
    } else {
        cat(stmts_text(pool, v.drop_last(), indent, depth), cat(cat(Some(nl(indent + 1)), matcher_text(
            pool, v.last().0, indent + 1, depth)), cat(Some(" = "@), cat(export_text(pool, v.last().1, indent + 1, depth),
            Some(seq![';'])))))
    }
}

/// The source text of a pattern: `_`, a name, `(a, b)`, `{a = p ? d, ...}`,
/// `p @ name`.
pub open spec fn matcher_text(pool: ExprPool, m: Matcher<Expr>, indent: nat, depth: nat) -> Option<Seq<char>>
    decreases depth, 0nat, 0nat,
{
    if depth == 0 {
        None
    } else {
        let d = (depth - 1) as nat;
        match m {
            Matcher::Alias(b, name) => cat(matcher_text(pool, *b, indent, d), Some(" @ "@ + name@)),
            Matcher::DontCare => Some(seq!['_']),
            Matcher::Ident(name) => Some(name@),
            Matcher::Tuple(ms) => cat(cat(Some(seq!['(']), pats_text(pool, ms@, indent, d)), Some(seq![')'])),
            Matcher::Object(items, need_all) => cat(cat(Some(seq!['{']), fields_pat_text(pool, items@, indent, d)),
                Some(
                if need_all {
                    seq!['}']
                } else if items@.len() > 0 {
                    ", ...}"@
                } else {
                    "...}"@
                },
            )),
        }
    }
}

/// Patterns separated by `, `.
pub open spec fn pats_text(pool: ExprPool, ms: Seq<Matcher<Expr>>, indent: nat, depth: nat) -> Option<Seq<char>>
    decreases depth, 1nat, ms.len(),
{
    if ms.len() == 0 {
        Some(seq![])
    } else {
        cat(pats_text(pool, ms.drop_last(), indent, depth), cat(Some(
            if ms.len() > 1 { seq![',', ' '] } else { seq![] }), matcher_text(pool, ms.last(), indent, depth)))
    }
}

/// Object pattern fields `name = pattern` with ` ? default` when there is
/// one, separated by `, `.
pub open spec fn fields_pat_text(pool: ExprPool, items: Seq<(String, Matcher<Expr>, Option<Expr>)>, indent: nat, depth: nat) -> Option<Seq<char>>
    decreases depth, 1nat, items.len(),
{
    if items.len() == 0 {
        Some(seq![])
    } else {
        cat(fields_pat_text(pool, items.drop_last(), indent, depth), cat(cat(Some(
            (if items.len() > 1 { seq![',', ' '] } else { seq![] }) + items.last().0@ + " = "@), matcher_text(pool, items.last().1, indent, depth)),
            match items.last().2 {
                Some(x) => cat(Some(" ? "@), export_text(pool, x, indent, depth)),
                None => Some(seq![]),
            }))
    }
}

/// The text of a binary operator.
pub fn binop_text(op: ExprBinOp) -> (res: &'static str)
    ensures
        res@ == binop_spec(op),
{
    proof {
        reveal_strlit("?");
        reveal_strlit("++");
        reveal_strlit("*");
        reveal_strlit("/");
        reveal_strlit("-");
        reveal_strlit("+");
        reveal_strlit("//");
        reveal_strlit("<");
        reveal_strlit("<=");
        reveal_strlit(">");
        reveal_strlit(">=");
        reveal_strlit("==");
        reveal_strlit("!=");
        reveal_strlit("&&");
        reveal_strlit("||");
        reveal_strlit("->");
    }
    match op {
        ExprBinOp::HasAttr => "?",
        ExprBinOp::ListConcat => "++",
        ExprBinOp::Mult => "*",
        ExprBinOp::Div => "/",
        ExprBinOp::Sub => "-",
        ExprBinOp::Add => "+",
        ExprBinOp::Update => "//",
        ExprBinOp::Lt => "<",
        ExprBinOp::Le => "<=",
        ExprBinOp::Gt => ">",
        ExprBinOp::Ge => ">=",
        ExprBinOp::Eq => "==",
        ExprBinOp::Neq => "!=",
        ExprBinOp::LogAnd => "&&",
        ExprBinOp::LogOr => "||",
        ExprBinOp::LogImpl => "->",
    }
}

/// Writes a line break followed by `lvl` levels of indentation.
pub fn newline(lvl: usize, out: &mut String)
    ensures
        final(out)@ == old(out)@ + nl(lvl as nat),
{
    push_char(out, '\n');
    let mut i: usize = 0;
    while i < lvl
        invariant
            i <= lvl,
            out@ == old(out)@ + seq!['\n'] + indent_text(i as nat),
        decreases lvl - i,
    {
        push_char(out, ' ');
        push_char(out, ' ');
        i = i + 1;
    }
    assert(out@ =~= old(out)@ + nl(lvl as nat));
}

proof fn lemma_entries_none(pool: ExprPool, s: Seq<(Seq<char>, Expr)>, k: int, indent: nat, depth: nat)
    requires
        0 <= k <= s.len(),
        entries_text(pool, s.take(k), indent, depth) is None,
    ensures
        entries_text(pool, s, indent, depth) is None,
    decreases s.len() - k,
{
    if k < s.len() {
        assert(s.take(k + 1).drop_last() =~= s.take(k));
        lemma_entries_none(pool, s, k + 1, indent, depth);
    } else {
        assert(s.take(k) =~= s);
    }
}

proof fn lemma_list_none(pool: ExprPool, s: Seq<Expr>, k: int, indent: nat, depth: nat)
    requires
        0 <= k <= s.len(),
        list_text(pool, s.take(k), indent, depth) is None,
    ensures
        list_text(pool, s, indent, depth) is None,
    decreases s.len() - k,
{
    if k < s.len() {
        assert(s.take(k + 1).drop_last() =~= s.take(k));
        lemma_list_none(pool, s, k + 1, indent, depth);
    } else {
        assert(s.take(k) =~= s);
    }
}

proof fn lemma_tuple_none(pool: ExprPool, s: Seq<Expr>, k: int, indent: nat, depth: nat)
    requires
        0 <= k <= s.len(),
        tuple_text(pool, s.take(k), indent, depth) is None,
    ensures
        tuple_text(pool, s, indent, depth) is None,
    decreases s.len() - k,
{
    if k < s.len() {
        assert(s.take(k + 1).drop_last() =~= s.take(k));
        lemma_tuple_none(pool, s, k + 1, indent, depth);
    } else {
        assert(s.take(k) =~= s);
    }
}

proof fn lemma_stmts_none(pool: ExprPool, s: Seq<(Matcher<Expr>, Expr)>, k: int, indent: nat, depth: nat)
    requires
        0 <= k <= s.len(),
        stmts_text(pool, s.take(k), indent, depth) is None,
    ensures
        stmts_text(pool, s, indent, depth) is None,
    decreases s.len() - k,
{
    if k < s.len() {
        assert(s.take(k + 1).drop_last() =~= s.take(k));
        lemma_stmts_none(pool, s, k + 1, indent, depth);
    } else {
        assert(s.take(k) =~= s);
    }
}

proof fn lemma_pats_none(pool: ExprPool, s: Seq<Matcher<Expr>>, k: int, indent: nat, depth: nat)
    requires
        0 <= k <= s.len(),
        pats_text(pool, s.take(k), indent, depth) is None,
    ensures
        pats_text(pool, s, indent, depth) is None,
    decreases s.len() - k,
{
    if k < s.len() {
        assert(s.take(k + 1).drop_last() =~= s.take(k));
        lemma_pats_none(pool, s, k + 1, indent, depth);
    } else {
        assert(s.take(k) =~= s);
    }
}

proof fn lemma_fields_none(pool: ExprPool, s: Seq<(String, Matcher<Expr>, Option<Expr>)>, k: int, indent: nat, depth: nat)
    requires
        0 <= k <= s.len(),
        fields_pat_text(pool, s.take(k), indent, depth) is None,
    ensures
        fields_pat_text(pool, s, indent, depth) is None,
    decreases s.len() - k,
{
    if k < s.len() {
        assert(s.take(k + 1).drop_last() =~= s.take(k));
        lemma_fields_none(pool, s, k + 1, indent, depth);
    } else {
        assert(s.take(k) =~= s);
    }
}

/// Writes the scope entries, as `entries_text`.
#[verifier::loop_isolation(false)]
fn write_entries(pool: &ExprPool, s: &ImMap<Expr>, indent: usize, depth: u64, out: &mut String) -> (res: bool)
    requires
        pool.wf(),
        set_ok(s@, pool.size()),
        indent + 1 < usize::MAX - depth,
    ensures
        res == entries_text(*pool, s@, indent as nat, depth as nat) is Some,
        res ==> final(out)@ == old(out)@ + entries_text(*pool, s@, indent as nat, depth as nat)->0,
    decreases depth, 3int,
{
    let ghost o0 = out@;
    let mut i: usize = 0;
    assert(s@.take(0) =~= Seq::<(Seq<char>, Expr)>::empty());
    while i < s.len()
        invariant
            i <= s@.len(),
            entries_text(*pool, s@.take(i as int), indent as nat, depth as nat) is Some,
            out@ == o0 + entries_text(*pool, s@.take(i as int), indent as nat, depth as nat)->0,
        decreases s@.len() - i,
    {
        assert(s@.take(i + 1).drop_last() =~= s@.take(i as int));
        assert(s@.take(i + 1).last() == s@[i as int]);
        let ghost before = out@;
        newline(indent + 1, out);
        push_str(out, s.key_at(i).as_str());
        push_str(out, " = ");
        let ghost mid = out@;
        assert(s@[i as int].1.0 < pool.size());
        if !write_node(pool, *s.value_at(i), indent + 1, depth, out) {
            proof { lemma_entries_none(*pool, s@, i + 1, indent as nat, depth as nat); }
            return false;
        }
        push_char(out, ';');
        proof {
            let t = export_text(*pool, s@[i as int].1, (indent + 1) as nat, depth as nat)->0;
            assert(out@ =~= o0 + entries_text(*pool, s@.take(i + 1), indent as nat, depth as nat)->0);
        }
        i = i + 1;
    }
    assert(s@.take(s@.len() as int) =~= s@);
    true
}

/// Writes list items, as `list_text`.
#[verifier::loop_isolation(false)]
fn write_list(pool: &ExprPool, v: &Vec<Expr>, indent: usize, depth: u64, out: &mut String) -> (res: bool)
    requires
        pool.wf(),
        vec_ok(v@, pool.size()),
        indent + 1 < usize::MAX - depth,
    ensures
        res == list_text(*pool, v@, indent as nat, depth as nat) is Some,
        res ==> final(out)@ == old(out)@ + list_text(*pool, v@, indent as nat, depth as nat)->0,
    decreases depth, 3int,
{
    let ghost o0 = out@;
    let mut i: usize = 0;
    assert(v@.take(0) =~= Seq::<Expr>::empty());
    while i < v.len()
        invariant
            i <= v@.len(),
            list_text(*pool, v@.take(i as int), indent as nat, depth as nat) is Some,
            out@ == o0 + list_text(*pool, v@.take(i as int), indent as nat, depth as nat)->0,
        decreases v@.len() - i,
    {
        assert(v@.take(i + 1).drop_last() =~= v@.take(i as int));
        newline(indent + 1, out);
        assert(v@[i as int].0 < pool.size());
        if !write_node(pool, v[i], indent + 1, depth, out) {
            proof { lemma_list_none(*pool, v@, i + 1, indent as nat, depth as nat); }
            return false;
        }
        assert(out@ =~= o0 + list_text(*pool, v@.take(i + 1), indent as nat, depth as nat)->0);
        i = i + 1;
    }
    assert(v@.take(v@.len() as int) =~= v@);
    true
}

/// Writes tuple items, as `tuple_text`.
#[verifier::loop_isolation(false)]
fn write_tuple(pool: &ExprPool, v: &Vec<Expr>, indent: usize, depth: u64, out: &mut String) -> (res: bool)
    requires
        pool.wf(),
        vec_ok(v@, pool.size()),
        indent + 1 < usize::MAX - depth,
    ensures
        res == tuple_text(*pool, v@, indent as nat, depth as nat) is Some,
        res ==> final(out)@ == old(out)@ + tuple_text(*pool, v@, indent as nat, depth as nat)->0,
    decreases depth, 3int,
{
    let ghost o0 = out@;
    let mut i: usize = 0;
    assert(v@.take(0) =~= Seq::<Expr>::empty());
    while i < v.len()
        invariant
            i <= v@.len(),
            tuple_text(*pool, v@.take(i as int), indent as nat, depth as nat) is Some,
            out@ == o0 + tuple_text(*pool, v@.take(i as int), indent as nat, depth as nat)->0,
        decreases v@.len() - i,
    {
        assert(v@.take(i + 1).drop_last() =~= v@.take(i as int));
        if i > 0 {
            push_char(out, ',');
            push_char(out, ' ');
        }
        assert(v@[i as int].0 < pool.size());
        if !write_node(pool, v[i], indent, depth, out) {
            proof { lemma_tuple_none(*pool, v@, i + 1, indent as nat, depth as nat); }
            return false;
        }
        assert(out@ =~= o0 + tuple_text(*pool, v@.take(i + 1), indent as nat, depth as nat)->0);
        i = i + 1;
    }
    assert(v@.take(v@.len() as int) =~= v@);
    true
}

/// Writes `let` statements, as `stmts_text`.
#[verifier::loop_isolation(false)]
fn write_stmts(pool: &ExprPool, v: &Vec<(Matcher<Expr>, Expr)>, indent: usize, depth: u64, out: &mut String) -> (res: bool)
    requires
        pool.wf(),
        stmts_ok(v@, pool.size()),
        indent + 1 < usize::MAX - depth,
    ensures
        res == stmts_text(*pool, v@, indent as nat, depth as nat) is Some,
        res ==> final(out)@ == old(out)@ + stmts_text(*pool, v@, indent as nat, depth as nat)->0,
    decreases depth, 3int,
{
    let ghost o0 = out@;
    let mut i: usize = 0;
    assert(v@.take(0) =~= Seq::<(Matcher<Expr>, Expr)>::empty());
    while i < v.len()
        invariant
            i <= v@.len(),
            stmts_text(*pool, v@.take(i as int), indent as nat, depth as nat) is Some,
            out@ == o0 + stmts_text(*pool, v@.take(i as int), indent as nat, depth as nat)->0,
        decreases v@.len() - i,
    {
        assert(v@.take(i + 1).drop_last() =~= v@.take(i as int));
        newline(indent + 1, out);
        if !write_matcher(pool, &v[i].0, indent + 1, depth, out) {
            proof { lemma_stmts_none(*pool, v@, i + 1, indent as nat, depth as nat); }
            return false;
        }
        push_str(out, " = ");
        if !write_node(pool, v[i].1, indent + 1, depth, out) {
            proof { lemma_stmts_none(*pool, v@, i + 1, indent as nat, depth as nat); }
            return false;
        }
        push_char(out, ';');
        assert(out@ =~= o0 + stmts_text(*pool, v@.take(i + 1), indent as nat, depth as nat)->0);
        i = i + 1;
    }
    assert(v@.take(v@.len() as int) =~= v@);
    true
}

/// Writes tuple patterns, as `pats_text`.
#[verifier::loop_isolation(false)]
fn write_pats(pool: &ExprPool, ms: &Vec<Matcher<Expr>>, indent: usize, depth: u64, out: &mut String) -> (res: bool)
    requires
        pool.wf(),
        forall|j: int| 0 <= j < ms@.len() ==> matcher_ok(#[trigger] ms@[j], pool.size()),
        indent + 1 < usize::MAX - depth,
    ensures
        res == pats_text(*pool, ms@, indent as nat, depth as nat) is Some,
        res ==> final(out)@ == old(out)@ + pats_text(*pool, ms@, indent as nat, depth as nat)->0,
    decreases depth, 3int,
{
    let ghost o0 = out@;
    let mut i: usize = 0;
    assert(ms@.take(0) =~= Seq::<Matcher<Expr>>::empty());
    while i < ms.len()
        invariant
            i <= ms@.len(),
            pats_text(*pool, ms@.take(i as int), indent as nat, depth as nat) is Some,
            out@ == o0 + pats_text(*pool, ms@.take(i as int), indent as nat, depth as nat)->0,
        decreases ms@.len() - i,
    {
        assert(ms@.take(i + 1).drop_last() =~= ms@.take(i as int));
        if i > 0 {
            push_char(out, ',');
            push_char(out, ' ');
        }
        if !write_matcher(pool, &ms[i], indent, depth, out) {
            proof { lemma_pats_none(*pool, ms@, i + 1, indent as nat, depth as nat); }
            return false;
        }
        assert(out@ =~= o0 + pats_text(*pool, ms@.take(i + 1), indent as nat, depth as nat)->0);
        i = i + 1;
    }
    assert(ms@.take(ms@.len() as int) =~= ms@);
    true
}

/// Writes object pattern fields, as `fields_pat_text`.
#[verifier::loop_isolation(false)]
fn write_fields_pat(pool: &ExprPool, items: &Vec<(String, Matcher<Expr>, Option<Expr>)>, indent: usize, depth: u64, out: &mut String) -> (res: bool)
    requires
        pool.wf(),
        forall|j: int| 0 <= j < items@.len() ==> matcher_ok((#[trigger] items@[j]).1, pool.size()) && crate::lang::expr::opt_ok(items@[j].2, pool.size()),
        indent + 1 < usize::MAX - depth,
    ensures
        res == fields_pat_text(*pool, items@, indent as nat, depth as nat) is Some,
        res ==> final(out)@ == old(out)@ + fields_pat_text(*pool, items@, indent as nat, depth as nat)->0,
    decreases depth, 3int,
{
    let ghost o0 = out@;
    let mut i: usize = 0;
    assert(items@.take(0) =~= Seq::<(String, Matcher<Expr>, Option<Expr>)>::empty());
    while i < items.len()
        invariant
            i <= items@.len(),
            fields_pat_text(*pool, items@.take(i as int), indent as nat, depth as nat) is Some,
            out@ == o0 + fields_pat_text(*pool, items@.take(i as int), indent as nat, depth as nat)->0,
        decreases items@.len() - i,
    {
        assert(items@.take(i + 1).drop_last() =~= items@.take(i as int));
        if i > 0 {
            push_char(out, ',');
            push_char(out, ' ');
        }
        push_str(out, items[i].0.as_str());
        push_str(out, " = ");
        if !write_matcher(pool, &items[i].1, indent, depth, out) {
            proof { lemma_fields_none(*pool, items@, i + 1, indent as nat, depth as nat); }
            return false;
        }
        match items[i].2 {
            Some(d) => {
                push_str(out, " ? ");
                if !write_node(pool, d, indent, depth, out) {
                    proof { lemma_fields_none(*pool, items@, i + 1, indent as nat, depth as nat); }
                    return false;
                }
            },
            None => {},
        }
        assert(out@ =~= o0 + fields_pat_text(*pool, items@.take(i + 1), indent as nat, depth as nat)->0);
        i = i + 1;
    }
    assert(items@.take(items@.len() as int) =~= items@);
    true
}

/// Writes a pattern, as `matcher_text`.
pub fn write_matcher(pool: &ExprPool, m: &Matcher<Expr>, indent: usize, depth: u64, out: &mut String) -> (res: bool)
    requires
        pool.wf(),
        matcher_ok(*m, pool.size()),
        indent < usize::MAX - depth,
    ensures
        res == matcher_text(*pool, *m, indent as nat, depth as nat) is Some,
        res ==> final(out)@ == old(out)@ + matcher_text(*pool, *m, indent as nat, depth as nat)->0,
    decreases depth, 0int,
{
    if depth == 0 {
        return false;
    }
    let ghost o0 = out@;
    let d = depth - 1;
    match m {
        Matcher::Alias(b, name) => {
            if !write_matcher(pool, b, indent, d, out) {
                return false;
            }
            push_str(out, " @ ");
            push_str(out, name.as_str());
            assert(out@ =~= o0 + matcher_text(*pool, *m, indent as nat, depth as nat)->0);
            true
        },
        Matcher::DontCare => {
            push_char(out, '_');
            true
        },
        Matcher::Ident(name) => {
            push_str(out, name.as_str());
            true
        },
        Matcher::Tuple(ms) => {
            proof { lemma_matchers_ok_iff(ms@, pool.size()); }
            push_char(out, '(');
            if !write_pats(pool, ms, indent, d, out) {
                return false;
            }
            push_char(out, ')');
            assert(out@ =~= o0 + matcher_text(*pool, *m, indent as nat, depth as nat)->0);
            true
        },
        Matcher::Object(items, need_all) => {
            proof { lemma_items_ok_iff(items@, pool.size()); }
            push_char(out, '{');
            if !write_fields_pat(pool, items, indent, d, out) {
                return false;
            }
            if *need_all {
                push_char(out, '}');
            } else if items.len() > 0 {
                push_str(out, ", ...}");
            } else {
                push_str(out, "...}");
            }
            assert(out@ =~= o0 + matcher_text(*pool, *m, indent as nat, depth as nat)->0);
            true
        },
    }
}

/// Writes node `e`, as `export_text`.
#[verifier::spinoff_prover]
pub fn write_node(pool: &ExprPool, e: Expr, indent: usize, depth: u64, out: &mut String) -> (res: bool)
    requires
        pool.wf(),
        pool.valid(e),
        indent < usize::MAX - depth,
    ensures
        res == export_text(*pool, e, indent as nat, depth as nat) is Some,
        res ==> final(out)@ == old(out)@ + export_text(*pool, e, indent as nat, depth as nat)->0,
    decreases depth, 2int,
{
    if depth == 0 {
        return false;
    }
    proof { assert(tok_ok(pool.node(e), pool.size())); }
    let ghost o0 = out@;
    let ghost full = export_text(*pool, e, indent as nat, depth as nat);
    let d = depth - 1;
    match pool.tok(e) {
        ExprType::Object(s) => {
            push_char(out, '{');
            if !write_entries(pool, s, indent, d, out) {
                return false;
            }
            newline(indent, out);
            push_char(out, '}');
            assert(out@ =~= o0 + full->0);
            true
        },
        ExprType::List(v) => {
            push_char(out, '[');
            if !write_list(pool, v, indent, d, out) {
                return false;
            }
            newline(indent, out);
            push_char(out, ']');
            assert(out@ =~= o0 + full->0);
            true
        },
        ExprType::Tuple(v) => {
            push_char(out, '(');
            if !write_tuple(pool, v, indent, d, out) {
                return false;
            }
            if v.len() < 2 {
                push_char(out, ',');
            }
            push_char(out, ')');
            assert(out@ =~= o0 + full->0);
            true
        },
        ExprType::AttrSel(x, a) => {
            if !write_node(pool, *x, indent, d, out) {
                return false;
            }
            push_char(out, '.');
            push_str(out, a.as_str());
            assert(out@ =~= o0 + full->0);
            true
        },
        ExprType::Value(v) => {
            v.write(out);
            true
        },
        ExprType::Var(n) => {
            push_str(out, n.as_str());
            true
        },
        ExprType::FuncDefBuiltin(w) => {
            push_str(out, "<builtin ");
            push_str(out, w.0.as_str());
            push_char(out, '>');
            assert(out@ =~= o0 + full->0);
            true
        },
        ExprType::Null => {
            push_str(out, "null");
            true
        },
        ExprType::UnOp(..) | ExprType::BinOp(..) | ExprType::FuncDef(..) => write_op_node(pool, e, indent, depth, out),
        ExprType::MapList(..) | ExprType::Fold(..) | ExprType::FuncCall(..) => write_loop_node(pool, e, indent, depth, out),
        _ => write_binding_node(pool, e, indent, depth, out),
    }
}

/// Writes an operator or function node, as `export_text`.
#[verifier::spinoff_prover]
fn write_op_node(pool: &ExprPool, e: Expr, indent: usize, depth: u64, out: &mut String) -> (res: bool)
    requires
        pool.wf(),
        pool.valid(e),
        indent < usize::MAX - depth,
        depth > 0,
        pool.node(e) is UnOp || pool.node(e) is BinOp || pool.node(e) is FuncDef,
    ensures
        res == export_text(*pool, e, indent as nat, depth as nat) is Some,
        res ==> final(out)@ == old(out)@ + export_text(*pool, e, indent as nat, depth as nat)->0,
    decreases depth, 1int,
{
    proof { assert(tok_ok(pool.node(e), pool.size())); }
    let ghost o0 = out@;
    let ghost full = export_text(*pool, e, indent as nat, depth as nat);
    let d = depth - 1;
    match pool.tok(e) {
        ExprType::UnOp(op, x) => {
            match op {
                ExprUnOp::Neg => push_char(out, '-'),
                ExprUnOp::Not => push_char(out, '!'),
            }
            push_char(out, '(');
            if !write_node(pool, *x, indent, d, out) {
                return false;
            }
            push_char(out, ')');
            assert(out@ =~= o0 + full->0);
            true
        },
        ExprType::BinOp(op, a, b) => {
            push_char(out, '(');
            if !write_node(pool, *a, indent, d, out) {
                return false;
            }
            push_char(out, ')');
            push_str(out, binop_text(*op));
            push_char(out, '(');
            if !write_node(pool, *b, indent, d, out) {
                return false;
            }
            push_char(out, ')');
            assert(out@ =~= o0 + full->0);
            true
        },
        ExprType::FuncDef(m, body) => {
            push_char(out, '|');
            if !write_matcher(pool, m, indent, d, out) {
                return false;
            }
            push_char(out, '|');
            push_char(out, ' ');
            if !write_node(pool, *body, indent, d, out) {
                return false;
            }
            assert(out@ =~= o0 + full->0);
            true
        },
        _ => false,
    }
}

/// Writes a `let` or `bind` node, as `export_text`.
#[verifier::spinoff_prover]
#[verifier::rlimit(40)]
fn write_binding_node(pool: &ExprPool, e: Expr, indent: usize, depth: u64, out: &mut String) -> (res: bool)
    requires
        pool.wf(),
        pool.valid(e),
        indent < usize::MAX - depth,
        depth > 0,
        pool.node(e) is Let || pool.node(e) is Bind,
    ensures
        res == export_text(*pool, e, indent as nat, depth as nat) is Some,
        res ==> final(out)@ == old(out)@ + export_text(*pool, e, indent as nat, depth as nat)->0,
    decreases depth, 0int,
{
    proof { assert(tok_ok(pool.node(e), pool.size())); }
    let ghost o0 = out@;
    let ghost full = export_text(*pool, e, indent as nat, depth as nat);
    let d = depth - 1;
    match pool.tok(e) {
        ExprType::Let(stmts, target) => {
            push_str(out, "let");
            if !write_stmts(pool, stmts, indent, d, out) {
                return false;
            }
            newline(indent, out);
            push_str(out, "in");
            newline(indent + 1, out);
            if !write_node(pool, *target, indent + 1, d, out) {
                return false;
            }
            assert(out@ =~= o0 + full->0);
            true
        },
        ExprType::Bind(s, x) => {
            push_str(out, "bind");
            if !write_entries(pool, s, indent, d, out) {
                return false;
            }
            newline(indent, out);
            push_str(out, "in");
            newline(indent + 1, out);
            if !write_node(pool, *x, indent + 1, d, out) {
                return false;
            }
            assert(out@ =~= o0 + full->0);
            true
        },
        _ => false,
    }
}

/// Writes a mapping, fold or call node, as `export_text`.
#[verifier::spinoff_prover]
fn write_loop_node(pool: &ExprPool, e: Expr, indent: usize, depth: u64, out: &mut String) -> (res: bool)
    requires
        pool.wf(),
        pool.valid(e),
        indent < usize::MAX - depth,
        depth > 0,
        pool.node(e) is MapList || pool.node(e) is Fold || pool.node(e) is FuncCall,
    ensures
        res == export_text(*pool, e, indent as nat, depth as nat) is Some,
        res ==> final(out)@ == old(out)@ + export_text(*pool, e, indent as nat, depth as nat)->0,
    decreases depth, 0int,
{
    proof { assert(tok_ok(pool.node(e), pool.size())); }
    let ghost o0 = out@;
    let ghost full = export_text(*pool, e, indent as nat, depth as nat);
    let d = depth - 1;
    match pool.tok(e) {
        ExprType::MapList(k, f, src) => {
            match k {
                ExprMapType::List => {
                    push_char(out, '[');
                    push_char(out, ' ');
                },
                ExprMapType::Object => {
                    push_char(out, '{');
                    push_char(out, ' ');
                },
            }
            if !write_node(pool, *f, indent, d, out) {
                return false;
            }
            push_str(out, " <- ");
            if !write_node(pool, *src, indent, d, out) {
                return false;
            }
            match k {
                ExprMapType::List => {
                    push_char(out, ' ');
                    push_char(out, ']');
                },
                ExprMapType::Object => {
                    push_char(out, ' ');
                    push_char(out, '}');
                },
            }
            assert(out@ =~= o0 + full->0);
            true
        },
        ExprType::Fold(f, init, src) => {
            push_char(out, '(');
            if !write_node(pool, *f, indent, d, out) {
                return false;
            }
            push_str(out, " <- ");
            if !write_node(pool, *init, indent, d, out) {
                return false;
            }
            push_str(out, " .. ");
            if !write_node(pool, *src, indent, d, out) {
                return false;
            }
            push_char(out, ')');
            assert(out@ =~= o0 + full->0);
            true
        },
        ExprType::FuncCall(arg, func) => {
            push_char(out, '(');
            newline(indent + 1, out);
            if !write_node(pool, *func, indent + 1, d, out) {
                return false;
            }
            newline(indent, out);
            push_str(out, ") (");
            newline(indent + 1, out);
            if !write_node(pool, *arg, indent + 1, d, out) {
                return false;
            }
            newline(indent, out);
            push_char(out, ')');
            assert(out@ =~= o0 + full->0);
            true
        },
        _ => false,
    }
}

/// The nesting depth that writing a node of `pool` as text may reach: one
/// more than the number of nodes, so that only a node that reaches itself
/// again is cut off.
pub open spec fn export_depth(pool: ExprPool) -> nat {
    if pool.size() + 8 < usize::MAX {
        pool.size() + 2
    } else {
        (usize::MAX - 8) as nat
    }
}

impl Expr {
    /// The node written as source text at no indentation; `None` when it
    /// reaches itself again, so that the text would never end.
    pub fn export(&self, pool: &ExprPool) -> (res: Option<String>)
        requires
            pool.wf(),
            pool.valid(*self),
        ensures
            match export_text(*pool, *self, 0, export_depth(*pool)) {
                Some(t) => res matches Some(s) && s@ == t,
                None => res is None,
            },
    {
        let mut out = String::new();
        let n = pool.len();
        let depth: u64 = if n < usize::MAX - 8 {
            n as u64 + 2
        } else {
            (usize::MAX - 8) as u64
        };
        if write_node(pool, *self, 0, depth, &mut out) {
            Some(out)
        } else {
            None
        }
    }
}

} // verus!
