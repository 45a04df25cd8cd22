//! Expressions as trees of their own: a copy of a node and all nodes it
//! refers to, to look at or compare without the pool.
use vstd::prelude::*;

use crate::immap::ImMap;
use crate::lang::expr::{
    lemma_items_ok_iff, lemma_matchers_ok_iff, matcher_ok, opt_ok, set_ok, stmts_ok, tok_ok, vec_ok,
    Expr, ExprBinOp, ExprBuiltinWrapper, ExprMapType, ExprPool, ExprType, ExprUnOp, Matcher,
};
use crate::value::{same_value, Value};

verus! {

/// An expression with its parts held directly.
#[derive(Debug, PartialEq)]
pub enum ExprTree {
    Object(ImMap<ExprTree>),
    List(Vec<ExprTree>),
    Tuple(Vec<ExprTree>),
    AttrSel(Box<ExprTree>, String),
    Value(Value),
    Var(String),
    UnOp(ExprUnOp, Box<ExprTree>),
    BinOp(ExprBinOp, Box<ExprTree>, Box<ExprTree>),
    FuncDef(Matcher<ExprTree>, Box<ExprTree>),
    FuncDefBuiltin(ExprBuiltinWrapper),
    Let(Vec<(Matcher<ExprTree>, ExprTree)>, Box<ExprTree>),
    MapList(ExprMapType, Box<ExprTree>, Box<ExprTree>),
    Fold(Box<ExprTree>, Box<ExprTree>, Box<ExprTree>),
    FuncCall(Box<ExprTree>, Box<ExprTree>),
    Bind(ImMap<ExprTree>, Box<ExprTree>),
    Null,
}

/// Tree `t` is node `e` of `pool` with the nodes it refers to, written out
/// down to `depth` levels: the same kinds, operators, names and values.
pub open spec fn tree_is(t: ExprTree, pool: ExprPool, e: Expr, depth: nat) -> bool
    decreases depth, 1nat,
{
    if depth == 0 {
        false
    } else {
        let d = (depth - 1) as nat;
        match (t, pool.node(e)) {
            (ExprTree::Object(m), ExprType::Object(s)) => entries_are(m@, pool, s@, depth),
            (ExprTree::List(ts), ExprType::List(v)) => trees_are(ts@, pool, v@, depth),
            (ExprTree::Tuple(ts), ExprType::Tuple(v)) => trees_are(ts@, pool, v@, depth),
            (ExprTree::AttrSel(bt, a), ExprType::AttrSel(x, a2)) => a@ == a2@ && tree_is(*bt, pool, x, d),
            (ExprTree::Value(v1), ExprType::Value(v2)) => same_value(v1, v2),
            (ExprTree::Var(n1), ExprType::Var(n2)) => n1@ == n2@,
            (ExprTree::UnOp(o1, bt), ExprType::UnOp(o2, x)) => o1 == o2 && tree_is(*bt, pool, x, d),
            (ExprTree::BinOp(o1, ba, bb), ExprType::BinOp(o2, a, b)) => o1 == o2 && tree_is(*ba, pool, a, d)
                && tree_is(*bb, pool, b, d),
            (ExprTree::FuncDef(tm, bt), ExprType::FuncDef(m, b)) => matcher_is(tm, pool, m, d) && tree_is(*bt, pool, b, d),
            (ExprTree::FuncDefBuiltin(w1), ExprType::FuncDefBuiltin(w2)) => w1.0@ == w2.0@ && w1.1 == w2.1,
            (ExprTree::Let(ts, bt), ExprType::Let(st, x)) => stmts_are(ts@, pool, st@, depth) && tree_is(*bt, pool, x, d),
            (ExprTree::MapList(k1, ba, bb), ExprType::MapList(k2, a, b)) => k1 == k2 && tree_is(*ba, pool, a, d)
                && tree_is(*bb, pool, b, d),
            (ExprTree::Fold(ba, bb, bc), ExprType::Fold(a, b, c)) => tree_is(*ba, pool, a, d) && tree_is(*bb, pool, b, d)
                && tree_is(*bc, pool, c, d),
            (ExprTree::FuncCall(ba, bb), ExprType::FuncCall(a, b)) => tree_is(*ba, pool, a, d) && tree_is(*bb, pool, b, d),
            (ExprTree::Bind(m, bt), ExprType::Bind(sc, x)) => entries_are(m@, pool, sc@, depth) && tree_is(*bt, pool, x, d),
            (ExprTree::Null, ExprType::Null) => true,
            _ => false,
        }
    }
}

/// `tree_is` one level below `depth` for each of a sequence of nodes.
pub open spec fn trees_are(ts: Seq<ExprTree>, pool: ExprPool, v: Seq<Expr>, depth: nat) -> bool
    decreases depth, 0nat,
{
    depth > 0 && ts.len() == v.len() && forall|i: int| 0 <= i < v.len() ==> tree_is(
        #[trigger] ts[i],
        pool,
        v[i],
        (depth - 1) as nat,
    )
}

/// `tree_is` one level below `depth` for the values of entries with the
/// same keys in the same order.
pub open spec fn entries_are(m: Seq<(Seq<char>, ExprTree)>, pool: ExprPool, s: Seq<(Seq<char>, Expr)>, depth: nat) -> bool
    decreases depth, 0nat,
{
    depth > 0 && m.len() == s.len() && forall|i: int| 0 <= i < s.len() ==> (#[trigger] m[i]).0 == s[i].0 && tree_is(
        m[i].1,
        pool,
        s[i].1,
        (depth - 1) as nat,
    )
}

/// `let` statements as trees, one level below `depth`.
pub open spec fn stmts_are(ts: Seq<(Matcher<ExprTree>, ExprTree)>, pool: ExprPool, st: Seq<(Matcher<Expr>, Expr)>, depth: nat) -> bool
    decreases depth, 0nat,
{
    depth > 0 && ts.len() == st.len() && forall|i: int| 0 <= i < st.len() ==> matcher_is(
        (#[trigger] ts[i]).0,
        pool,
        st[i].0,
        (depth - 1) as nat,
    ) && tree_is(ts[i].1, pool, st[i].1, (depth - 1) as nat)
}

/// Pattern `tm` is pattern `m` with its default values as trees.
pub open spec fn matcher_is(tm: Matcher<ExprTree>, pool: ExprPool, m: Matcher<Expr>, depth: nat) -> bool
    decreases depth, 1nat,
{
    if depth == 0 {
        false
    } else {
        let d = (depth - 1) as nat;
        match (tm, m) {
            (Matcher::Alias(bt, n1), Matcher::Alias(b, n2)) => n1@ == n2@ && matcher_is(*bt, pool, *b, d),
            (Matcher::DontCare, Matcher::DontCare) => true,
            (Matcher::Ident(n1), Matcher::Ident(n2)) => n1@ == n2@,
            (Matcher::Tuple(ts), Matcher::Tuple(ms)) => ts@.len() == ms@.len() && forall|i: int| 0 <= i < ms@.len()
                ==> matcher_is(#[trigger] ts@[i], pool, ms@[i], d),
            (Matcher::Object(ts, a1), Matcher::Object(ms, a2)) => a1 == a2 && ts@.len() == ms@.len() && forall|i: int|
                0 <= i < ms@.len() ==> (#[trigger] ts@[i]).0@ == ms@[i].0@ && matcher_is(ts@[i].1, pool, ms@[i].1, d)
                && match (ts@[i].2, ms@[i].2) {
                (Some(x), Some(y)) => tree_is(x, pool, y, d),
                (None, None) => true,
                _ => false,
            },
            _ => false,
        }
    }
}

/// Node `e` of `pool` and the nodes it refers to lie within `depth` levels.
pub open spec fn fits(pool: ExprPool, e: Expr, depth: nat) -> bool
    decreases depth, 1nat,
{
    if depth == 0 {
        false
    } else {
        let d = (depth - 1) as nat;
        match pool.node(e) {
            ExprType::Object(s) => set_fits(pool, s@, depth),
            ExprType::List(v) => all_fit(pool, v@, depth),
            ExprType::Tuple(v) => all_fit(pool, v@, depth),
            ExprType::AttrSel(x, _) => fits(pool, x, d),
            ExprType::UnOp(_, x) => fits(pool, x, d),
            ExprType::BinOp(_, a, b) => fits(pool, a, d) && fits(pool, b, d),
            ExprType::FuncDef(m, b) => matcher_fits(pool, m, d) && fits(pool, b, d),
            ExprType::Let(st, x) => stmts_fit(pool, st@, depth) && fits(pool, x, d),
            ExprType::MapList(_, a, b) => fits(pool, a, d) && fits(pool, b, d),
            ExprType::Fold(a, b, c) => fits(pool, a, d) && fits(pool, b, d) && fits(pool, c, d),
            ExprType::FuncCall(a, b) => fits(pool, a, d) && fits(pool, b, d),
            ExprType::Bind(s, x) => set_fits(pool, s@, depth) && fits(pool, x, d),
            _ => true,
        }
    }
}

/// Each of the nodes `v` fits one level below `depth`.
pub open spec fn all_fit(pool: ExprPool, v: Seq<Expr>, depth: nat) -> bool
    decreases depth, 0nat,
{
    depth > 0 && forall|i: int| 0 <= i < v.len() ==> fits(pool, #[trigger] v[i], (depth - 1) as nat)
}

/// The value of each entry of `s` fits one level below `depth`.
pub open spec fn set_fits(pool: ExprPool, s: Seq<(Seq<char>, Expr)>, depth: nat) -> bool
    decreases depth, 0nat,
{
    depth > 0 && forall|i: int| 0 <= i < s.len() ==> fits(pool, (#[trigger] s[i]).1, (depth - 1) as nat)
}

/// Each `let` statement fits one level below `depth`.
pub open spec fn stmts_fit(pool: ExprPool, st: Seq<(Matcher<Expr>, Expr)>, depth: nat) -> bool
    decreases depth, 0nat,
{
    depth > 0 && forall|i: int| 0 <= i < st.len() ==> matcher_fits(pool, (#[trigger] st[i]).0, (depth - 1) as nat)
        && fits(pool, st[i].1, (depth - 1) as nat)
}

/// Pattern `m` with its default values lies within `depth` levels.
pub open spec fn matcher_fits(pool: ExprPool, m: Matcher<Expr>, depth: nat) -> bool
    decreases depth, 1nat,
{
    if depth == 0 {
        false
    } else {
        let d = (depth - 1) as nat;
        match m {
            Matcher::Alias(b, _) => matcher_fits(pool, *b, d),
            Matcher::Tuple(ms) => forall|i: int| 0 <= i < ms@.len() ==> matcher_fits(pool, #[trigger] ms@[i], d),
            Matcher::Object(items, _) => forall|i: int| 0 <= i < items@.len() ==> matcher_fits(
                pool,
                (#[trigger] items@[i]).1,
                d,
            ) && match items@[i].2 {
                Some(x) => fits(pool, x, d),
                None => true,
            },
            _ => true,
        }
    }
}

fn tree_of_all(pool: &ExprPool, v: &Vec<Expr>, depth: u64) -> (res: Option<Vec<ExprTree>>)
    requires
        pool.wf(),
        vec_ok(v@, pool.size()),
    ensures
        res matches Some(t) ==> trees_are(t@, *pool, v@, (depth + 1) as nat),
        res is Some <==> all_fit(*pool, v@, (depth + 1) as nat),
    decreases depth, 1int,
{
    let mut out: Vec<ExprTree> = Vec::new();
    let mut i: usize = 0;
    while i < v.len()
        invariant
            i <= v@.len(),
            pool.wf(),
            vec_ok(v@, pool.size()),
            out@.len() == i,
            forall|j: int| 0 <= j < i ==> tree_is(#[trigger] out@[j], *pool, v@[j], depth as nat),
            forall|j: int| 0 <= j < i ==> fits(*pool, #[trigger] v@[j], depth as nat),
        decreases v@.len() - i,
    {
        assert(v@[i as int].0 < pool.size());
        match tree_of(pool, v[i], depth) {
            Some(t) => out.push(t),
            None => {
                return None;
            },
        }
        i = i + 1;
    }
    Some(out)
}

fn tree_of_set(pool: &ExprPool, s: &ImMap<Expr>, depth: u64) -> (res: Option<ImMap<ExprTree>>)
    requires
        pool.wf(),
        set_ok(s@, pool.size()),
    ensures
        res matches Some(t) ==> entries_are(t@, *pool, s@, (depth + 1) as nat),
        res is Some <==> set_fits(*pool, s@, (depth + 1) as nat),
    decreases depth, 1int,
{
    let mut vals: Vec<ExprTree> = Vec::new();
    let mut i: usize = 0;
    while i < s.len()
        invariant
            i <= s@.len(),
            pool.wf(),
            set_ok(s@, pool.size()),
            vals@.len() == i,
            forall|j: int| 0 <= j < i ==> tree_is(#[trigger] vals@[j], *pool, s@[j].1, depth as nat),
            forall|j: int| 0 <= j < i ==> fits(*pool, (#[trigger] s@[j]).1, depth as nat),
        decreases s@.len() - i,
    {
        assert(s@[i as int].1.0 < pool.size());
        match tree_of(pool, *s.value_at(i), depth) {
            Some(t) => vals.push(t),
            None => {
                return None;
            },
        }
        i = i + 1;
    }
    Some(s.with_values(vals))
}

#[verifier::loop_isolation(false)]
fn tree_of_matcher(pool: &ExprPool, m: &Matcher<Expr>, depth: u64) -> (res: Option<Matcher<ExprTree>>)
    requires
        pool.wf(),
        matcher_ok(*m, pool.size()),
    ensures
        res matches Some(t) ==> matcher_is(t, *pool, *m, depth as nat),
        res is Some <==> matcher_fits(*pool, *m, depth as nat),
    decreases depth, 1int,
{
    if depth == 0 {
        return None;
    }
    match m {
        Matcher::Alias(b, name) => match tree_of_matcher(pool, b, depth - 1) {
            Some(t) => Some(Matcher::Alias(Box::new(t), name.clone())),
            None => None,
        },
        Matcher::DontCare => Some(Matcher::DontCare),
        Matcher::Ident(name) => Some(Matcher::Ident(name.clone())),
        Matcher::Tuple(ms) => {
            proof { lemma_matchers_ok_iff(ms@, pool.size()); }
            let mut out: Vec<Matcher<ExprTree>> = Vec::new();
            let mut i: usize = 0;
            while i < ms.len()
                invariant
                    i <= ms@.len(),
                    pool.wf(),
                    forall|j: int| 0 <= j < ms@.len() ==> matcher_ok(#[trigger] ms@[j], pool.size()),
                    out@.len() == i,
                    forall|j: int| 0 <= j < i ==> matcher_is(#[trigger] out@[j], *pool, ms@[j], (depth - 1) as nat),
                    forall|j: int| 0 <= j < i ==> matcher_fits(*pool, #[trigger] ms@[j], (depth - 1) as nat),
                decreases ms@.len() - i,
            {
                match tree_of_matcher(pool, &ms[i], depth - 1) {
                    Some(t) => out.push(t),
                    None => {
                        return None;
                    },
                }
                i = i + 1;
            }
            Some(Matcher::Tuple(out))
        },
        Matcher::Object(items, need_all) => {
            proof { lemma_items_ok_iff(items@, pool.size()); }
            let mut out: Vec<(String, Matcher<ExprTree>, Option<ExprTree>)> = Vec::new();
            let mut i: usize = 0;
            while i < items.len()
                invariant
                    i <= items@.len(),
                    pool.wf(),
                    forall|j: int| 0 <= j < items@.len() ==> matcher_ok((#[trigger] items@[j]).1, pool.size()) && opt_ok(items@[j].2, pool.size()),
                    out@.len() == i,
                    forall|j: int| 0 <= j < i ==> (#[trigger] out@[j]).0@ == items@[j].0@ && matcher_is(
                        out@[j].1,
                        *pool,
                        items@[j].1,
                        (depth - 1) as nat,
                    ) && match (out@[j].2, items@[j].2) {
                        (Some(x), Some(y)) => tree_is(x, *pool, y, (depth - 1) as nat),
                        (None, None) => true,
                        _ => false,
                    },
                    forall|j: int| 0 <= j < i ==> matcher_fits(*pool, (#[trigger] items@[j]).1, (depth - 1) as nat)
                        && match items@[j].2 {
                        Some(x) => fits(*pool, x, (depth - 1) as nat),
                        None => true,
                    },
                decreases items@.len() - i,
            {
                let sub = match tree_of_matcher(pool, &items[i].1, depth - 1) {
                    Some(t) => t,
                    None => {
                        return None;
                    },
                };
                let d = match items[i].2 {
                    Some(x) => match tree_of(pool, x, depth - 1) {
                        Some(t) => Some(t),
                        None => {
                            return None;
                        },
                    },
                    None => None,
                };
                out.push((items[i].0.clone(), sub, d));
                i = i + 1;
            }
            Some(Matcher::Object(out, *need_all))
        },
    }
}

/// The tree of node `e` and the nodes it refers to, down to `depth`
/// levels; `None` when it reaches deeper.
#[verifier::loop_isolation(false)]
pub fn tree_of(pool: &ExprPool, e: Expr, depth: u64) -> (res: Option<ExprTree>)
    requires
        pool.wf(),
        pool.valid(e),
    ensures
        res matches Some(t) ==> tree_is(t, *pool, e, depth as nat),
        res is Some <==> fits(*pool, e, depth as nat),
    decreases depth, 0int,
{
    if depth == 0 {
        return None;
    }
    let d = depth - 1;
    proof { assert(tok_ok(pool.node(e), pool.size())); }
    match pool.tok(e) {
        ExprType::Object(s) => match tree_of_set(pool, s, d) {
            Some(t) => Some(ExprTree::Object(t)),
            None => None,
        },
        ExprType::List(v) => match tree_of_all(pool, v, d) {
            Some(t) => Some(ExprTree::List(t)),
            None => None,
        },
        ExprType::Tuple(v) => match tree_of_all(pool, v, d) {
            Some(t) => Some(ExprTree::Tuple(t)),
            None => None,
        },
        ExprType::AttrSel(x, a) => match tree_of(pool, *x, d) {
            Some(t) => Some(ExprTree::AttrSel(Box::new(t), a.clone())),
            None => None,
        },
        ExprType::Value(v) => Some(ExprTree::Value(v.duplicate())),
        ExprType::Var(n) => Some(ExprTree::Var(n.clone())),
        ExprType::UnOp(op, x) => match tree_of(pool, *x, d) {
            Some(t) => Some(ExprTree::UnOp(*op, Box::new(t))),
            None => None,
        },
        ExprType::BinOp(op, a, b) => match (tree_of(pool, *a, d), tree_of(pool, *b, d)) {
            (Some(ta), Some(tb)) => Some(ExprTree::BinOp(*op, Box::new(ta), Box::new(tb))),
            _ => None,
        },
        ExprType::FuncDef(m, b) => match (tree_of_matcher(pool, m, d), tree_of(pool, *b, d)) {
            (Some(tm), Some(tb)) => Some(ExprTree::FuncDef(tm, Box::new(tb))),
            _ => None,
        },
        ExprType::FuncDefBuiltin(w) => Some(ExprTree::FuncDefBuiltin(w.duplicate())),
        ExprType::Let(stmts, target) => {
            let mut out: Vec<(Matcher<ExprTree>, ExprTree)> = Vec::new();
            let mut i: usize = 0;
            while i < stmts.len()
                invariant
                    i <= stmts@.len(),
                    pool.wf(),
                    stmts_ok(stmts@, pool.size()),
                    out@.len() == i,
                    forall|j: int| 0 <= j < i ==> matcher_is((#[trigger] out@[j]).0, *pool, stmts@[j].0, d as nat)
                        && tree_is(out@[j].1, *pool, stmts@[j].1, d as nat),
                    forall|j: int| 0 <= j < i ==> matcher_fits(*pool, (#[trigger] stmts@[j]).0, d as nat) && fits(
                        *pool,
                        stmts@[j].1,
                        d as nat,
                    ),
                decreases stmts@.len() - i,
            {
                match (tree_of_matcher(pool, &stmts[i].0, d), tree_of(pool, stmts[i].1, d)) {
                    (Some(tm), Some(tv)) => out.push((tm, tv)),
                    _ => {
                        proof {
                            assert(!(matcher_fits(*pool, stmts@[i as int].0, d as nat) && fits(*pool, stmts@[i as int].1, d as nat)));
                            assert(!stmts_fit(*pool, stmts@, depth as nat));
                        }
                        return None;
                    },
                }
                i = i + 1;
            }
            proof {
                assert(stmts_are(out@, *pool, stmts@, depth as nat));
                assert(stmts_fit(*pool, stmts@, depth as nat));
            }
            match tree_of(pool, *target, d) {
                Some(t) => Some(ExprTree::Let(out, Box::new(t))),
                None => None,
            }
        },
        ExprType::MapList(k, a, b) => match (tree_of(pool, *a, d), tree_of(pool, *b, d)) {
            (Some(ta), Some(tb)) => Some(ExprTree::MapList(*k, Box::new(ta), Box::new(tb))),
            _ => None,
        },
        ExprType::Fold(a, b, c) => match (tree_of(pool, *a, d), tree_of(pool, *b, d), tree_of(pool, *c, d)) {
            (Some(ta), Some(tb), Some(tc)) => Some(ExprTree::Fold(Box::new(ta), Box::new(tb), Box::new(tc))),
            _ => None,
        },
        ExprType::FuncCall(a, b) => match (tree_of(pool, *a, d), tree_of(pool, *b, d)) {
            (Some(ta), Some(tb)) => Some(ExprTree::FuncCall(Box::new(ta), Box::new(tb))),
            _ => None,
        },
        ExprType::Bind(s, x) => match (tree_of_set(pool, s, d), tree_of(pool, *x, d)) {
            (Some(ts), Some(tx)) => Some(ExprTree::Bind(ts, Box::new(tx))),
            _ => None,
        },
        ExprType::Null => Some(ExprTree::Null),
    }
}

} // verus!
