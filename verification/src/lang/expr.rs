//! Expressions of the language, kept in a pool of nodes that evaluation
//! rewrites in place, so that a shared sub-expression is evaluated once.
use vstd::prelude::*;

use crate::immap::{has_entry, has_key, ImMap};
use crate::lang::error::{Error, ErrorType};
use crate::text::{push_str, to_owned_string};
use crate::value::{same_value, Value};

verus! {

/// A node of an `ExprPool`, by index.
#[derive(Debug, Clone, Copy, PartialEq, Eq, Structural)]
pub struct Expr(pub usize);

/// Named expressions: object fields and variable scopes.
pub type ExprSet = ImMap<Expr>;

/// Binary operators.
#[derive(Debug, PartialEq, Eq, Structural, Copy, Clone)]
pub enum ExprBinOp {
    HasAttr,
    ListConcat,
    Mult,
    Div,
    Sub,
    Add,
    Update,
    Lt,
    Le,
    Gt,
    Ge,
    Eq,
    Neq,
    LogAnd,
    LogOr,
    LogImpl,
}

/// Unary operators.
#[derive(Debug, PartialEq, Eq, Structural, Copy, Clone)]
pub enum ExprUnOp {
    Neg,
    Not,
}

/// What a map over a collection builds: a list, or an object from
/// `(key, value)` pairs.
#[derive(Debug, PartialEq, Eq, Structural, Copy, Clone)]
pub enum ExprMapType {
    List,
    Object,
}

/// Which builtin function a builtin value is.
#[derive(Debug, PartialEq, Eq, Structural, Copy, Clone)]
pub enum BuiltinKind {
    /// `pb.lock`
    Lock,
    /// `pb.rule`
    Rule,
    /// `pb.build`
    Build,
    /// `pb.translate`
    Translate,
    /// `pb.retype`
    Retype,
    /// A builtin provided by the caller of the evaluation, by name.
    External,
}

/// A builtin function: its name and kind.
#[derive(Debug, PartialEq)]
pub struct ExprBuiltinWrapper(pub String, pub BuiltinKind);

/// Where an expression came from in the source.
#[derive(Debug, PartialEq, Clone, Copy)]
pub struct ExprSourceRef {
    pub file: usize,
    pub left: usize,
    pub right: usize,
}

/// A pattern that takes a value apart into named variables.
#[derive(Debug, PartialEq)]
pub enum Matcher<E> {
    /// The inner pattern, and the whole value under the name.
    Alias(Box<Matcher<E>>, String),
    /// `_`: matches anything, binds nothing.
    DontCare,
    /// A name bound to the whole value.
    Ident(String),
    /// A tuple of the given length, element by element.
    Tuple(Vec<Matcher<E>>),
    /// Object fields: name, pattern for the field, default when the field is
    /// missing; and whether further fields are refused.
    Object(Vec<(String, Matcher<E>, Option<E>)>, bool),
}

/// The content of an expression node.
#[derive(Debug, PartialEq)]
pub enum ExprType {
    Object(ExprSet),
    List(Vec<Expr>),
    Tuple(Vec<Expr>),
    AttrSel(Expr, String),
    Value(Value),
    Var(String),
    UnOp(ExprUnOp, Expr),
    BinOp(ExprBinOp, Expr, Expr),
    FuncDef(Matcher<Expr>, Expr),
    FuncDefBuiltin(ExprBuiltinWrapper),
    Let(Vec<(Matcher<Expr>, Expr)>, Expr),
    /// `[ |p| e <- source ]` or `{ |p| e <- source }`: function and source.
    MapList(ExprMapType, Expr, Expr),
    /// `(|acc item| e <- initial .. source)`: function, initial value, source.
    Fold(Expr, Expr, Expr),
    FuncCall(Expr, Expr),
    /// An expression with the variables it sees.
    Bind(ExprSet, Expr),
    Null,
}

/// A node: content and source place.
#[derive(Debug)]
pub struct ExprStorage {
    pub tok: ExprType,
    pub loc: Option<ExprSourceRef>,
}

/// All expression nodes of an evaluation.
#[derive(Debug)]
pub struct ExprPool {
    nodes: Vec<ExprStorage>,
    next_id: usize,
}

/*
 * Well-formedness: every node refers only to nodes of the pool.
 */

/// All values of a scope are nodes below `n`.
pub open spec fn set_ok(s: Seq<(Seq<char>, Expr)>, n: nat) -> bool {
    forall|i: int| 0 <= i < s.len() ==> (#[trigger] s[i]).1.0 < n
}

/// All expressions are nodes below `n`.
pub open spec fn vec_ok(v: Seq<Expr>, n: nat) -> bool {
    forall|i: int| 0 <= i < v.len() ==> (#[trigger] v[i]).0 < n
}

/// All defaults of a pattern are nodes below `n`.
pub open spec fn matcher_ok(m: Matcher<Expr>, n: nat) -> bool
    decreases m,
{
    match m {
        Matcher::Alias(b, _) => matcher_ok(*b, n),
        Matcher::DontCare => true,
        Matcher::Ident(_) => true,
        Matcher::Tuple(ms) => matchers_ok(ms@, n),
        Matcher::Object(items, _) => items_ok(items@, n),
    }
}

/// `matcher_ok` for each pattern.
pub open spec fn matchers_ok(ms: Seq<Matcher<Expr>>, n: nat) -> bool
    decreases ms,
{
    if ms.len() == 0 {
        true
    } else {
        matchers_ok(ms.drop_last(), n) && matcher_ok(ms.last(), n)
    }
}

/// `matcher_ok` and defaults below `n` for each object field pattern.
pub open spec fn items_ok(items: Seq<(String, Matcher<Expr>, Option<Expr>)>, n: nat) -> bool
    decreases items,
{
    if items.len() == 0 {
        true
    } else {
        items_ok(items.drop_last(), n) && matcher_ok(items.last().1, n) && match items.last().2 {
            Some(e) => e.0 < n,
            None => true,
        }
    }
}

/// All `let` patterns and values refer to nodes below `n`.
pub open spec fn stmts_ok(v: Seq<(Matcher<Expr>, Expr)>, n: nat) -> bool {
    forall|i: int| 0 <= i < v.len() ==> matcher_ok((#[trigger] v[i]).0, n) && v[i].1.0 < n
}

/// The content refers only to nodes below `n`.
pub open spec fn tok_ok(t: ExprType, n: nat) -> bool {
    match t {
        ExprType::Object(s) => set_ok(s@, n),
        ExprType::List(v) => vec_ok(v@, n),
        ExprType::Tuple(v) => vec_ok(v@, n),
        ExprType::AttrSel(e, _) => e.0 < n,
        ExprType::Value(_) => true,
        ExprType::Var(_) => true,
        ExprType::UnOp(_, e) => e.0 < n,
        ExprType::BinOp(_, a, b) => a.0 < n && b.0 < n,
        ExprType::FuncDef(m, e) => matcher_ok(m, n) && e.0 < n,
        ExprType::FuncDefBuiltin(_) => true,
        ExprType::Let(stmts, e) => stmts_ok(stmts@, n) && e.0 < n,
        ExprType::MapList(_, a, b) => a.0 < n && b.0 < n,
        ExprType::Fold(a, b, c) => a.0 < n && b.0 < n && c.0 < n,
        ExprType::FuncCall(a, b) => a.0 < n && b.0 < n,
        ExprType::Bind(s, e) => set_ok(s@, n) && e.0 < n,
        ExprType::Null => true,
    }
}

/// Contents that evaluation leaves as they are: data and functions.
pub open spec fn is_normal(t: ExprType) -> bool {
    match t {
        ExprType::Object(_) => true,
        ExprType::List(_) => true,
        ExprType::Tuple(_) => true,
        ExprType::Value(_) => true,
        ExprType::FuncDef(_, _) => true,
        ExprType::FuncDefBuiltin(_) => true,
        _ => false,
    }
}

/// Two evaluated contents are alike: the same nodes, the same values, the
/// same builtin, or functions with the same body binding the same names.
/// Pattern `a` is a copy of `b`: the same name for a name, a wildcard for a
/// wildcard, and the same bound names for any other pattern.
pub open spec fn matcher_like(a: Matcher<Expr>, b: Matcher<Expr>) -> bool {
    match b {
        Matcher::Ident(n) => a matches Matcher::Ident(n2) && n2@ == n@,
        Matcher::DontCare => a is DontCare,
        Matcher::Object(items, n) => a.bound_names() == b.bound_names() && (a matches Matcher::Object(items2, n2) && n2 == n
            && items_like(items2@, items@)),
        _ => a.bound_names() == b.bound_names(),
    }
}

/// `let` statements `a` copy `b`: the same expressions, and patterns that
/// copy those of `b`.
pub open spec fn stmts_like(a: Seq<(Matcher<Expr>, Expr)>, b: Seq<(Matcher<Expr>, Expr)>) -> bool {
    &&& a.len() == b.len()
    &&& forall|i: int| 0 <= i < b.len() ==> (#[trigger] a[i]).1 == b[i].1 && matcher_like(a[i].0, b[i].0)
}

/// Field patterns `a` copy `b`: the same fields and defaults, and the same
/// name where `b` binds a plain name.
pub open spec fn items_like(a: Seq<(String, Matcher<Expr>, Option<Expr>)>, b: Seq<(String, Matcher<Expr>, Option<Expr>)>) -> bool {
    &&& a.len() == b.len()
    &&& forall|i: int| 0 <= i < b.len() ==> (#[trigger] a[i]).0@ == b[i].0@ && a[i].2 == b[i].2 && (b[i].1 matches Matcher::Ident(
        n,
    ) ==> a[i].1 matches Matcher::Ident(n2) && n2@ == n@)
}

pub open spec fn same_content(a: ExprType, b: ExprType) -> bool {
    match (a, b) {
        (ExprType::Object(x), ExprType::Object(y)) => x@ == y@,
        (ExprType::List(x), ExprType::List(y)) => x@ == y@,
        (ExprType::Tuple(x), ExprType::Tuple(y)) => x@ == y@,
        (ExprType::Value(x), ExprType::Value(y)) => same_value(x, y),
        (ExprType::FuncDef(m1, x), ExprType::FuncDef(m2, y)) => x == y && m1.bound_names() == m2.bound_names(),
        (ExprType::FuncDefBuiltin(w1), ExprType::FuncDefBuiltin(w2)) => w1.0@ == w2.0@ && w1.1 == w2.1,
        _ => false,
    }
}

pub proof fn lemma_matcher_ok_mono(m: Matcher<Expr>, n: nat, k: nat)
    requires
        matcher_ok(m, n),
        n <= k,
    ensures
        matcher_ok(m, k),
    decreases m,
{
    match m {
        Matcher::Alias(b, _) => lemma_matcher_ok_mono(*b, n, k),
        Matcher::Tuple(ms) => lemma_matchers_ok_mono(ms@, n, k),
        Matcher::Object(items, _) => lemma_items_ok_mono(items@, n, k),
        _ => {},
    }
}

proof fn lemma_matchers_ok_mono(ms: Seq<Matcher<Expr>>, n: nat, k: nat)
    requires
        matchers_ok(ms, n),
        n <= k,
    ensures
        matchers_ok(ms, k),
    decreases ms,
{
    if ms.len() > 0 {
        lemma_matchers_ok_mono(ms.drop_last(), n, k);
        lemma_matcher_ok_mono(ms.last(), n, k);
    }
}

proof fn lemma_items_ok_mono(items: Seq<(String, Matcher<Expr>, Option<Expr>)>, n: nat, k: nat)
    requires
        items_ok(items, n),
        n <= k,
    ensures
        items_ok(items, k),
    decreases items,
{
    if items.len() > 0 {
        lemma_items_ok_mono(items.drop_last(), n, k);
        lemma_matcher_ok_mono(items.last().1, n, k);
    }
}

/// Contents that refer to nodes below `n` refer to nodes below any larger bound.
pub proof fn lemma_tok_ok_mono(t: ExprType, n: nat, k: nat)
    requires
        tok_ok(t, n),
        n <= k,
    ensures
        tok_ok(t, k),
{
    match t {
        ExprType::FuncDef(m, _) => lemma_matcher_ok_mono(m, n, k),
        ExprType::Let(stmts, _) => {
            assert forall|i: int| 0 <= i < stmts@.len() implies matcher_ok(
                (#[trigger] stmts@[i]).0,
                k,
            ) && stmts@[i].1.0 < k by {
                lemma_matcher_ok_mono(stmts@[i].0, n, k);
            }
        },
        _ => {},
    }
}

/// A default value of an object pattern field, if any, is a node below `n`.
pub open spec fn opt_ok(o: Option<Expr>, n: nat) -> bool {
    match o {
        Some(e) => e.0 < n,
        None => true,
    }
}

/// `matchers_ok` holds exactly when each pattern is `matcher_ok`.
pub proof fn lemma_matchers_ok_iff(ms: Seq<Matcher<Expr>>, n: nat)
    ensures
        matchers_ok(ms, n) <==> forall|i: int| 0 <= i < ms.len() ==> matcher_ok(#[trigger] ms[i], n),
    decreases ms.len(),
{
    if ms.len() > 0 {
        lemma_matchers_ok_iff(ms.drop_last(), n);
        if matchers_ok(ms, n) {
            assert forall|i: int| 0 <= i < ms.len() implies matcher_ok(#[trigger] ms[i], n) by {
                if i < ms.len() - 1 {
                    assert(ms.drop_last()[i] == ms[i]);
                }
            }
        }
        if forall|i: int| 0 <= i < ms.len() ==> matcher_ok(#[trigger] ms[i], n) {
            assert forall|i: int| 0 <= i < ms.drop_last().len() implies matcher_ok(
                #[trigger] ms.drop_last()[i],
                n,
            ) by {
                assert(ms.drop_last()[i] == ms[i]);
            }
            assert(matcher_ok(ms[ms.len() - 1], n));
        }
    }
}

/// `items_ok` holds exactly when each field pattern is `matcher_ok` with its
/// default below `n`.
pub proof fn lemma_items_ok_iff(items: Seq<(String, Matcher<Expr>, Option<Expr>)>, n: nat)
    ensures
        items_ok(items, n) <==> forall|i: int|
            0 <= i < items.len() ==> matcher_ok((#[trigger] items[i]).1, n) && opt_ok(items[i].2, n),
    decreases items.len(),
{
    if items.len() > 0 {
        lemma_items_ok_iff(items.drop_last(), n);
        if items_ok(items, n) {
            assert forall|i: int| 0 <= i < items.len() implies matcher_ok(
                (#[trigger] items[i]).1,
                n,
            ) && opt_ok(items[i].2, n) by {
                if i < items.len() - 1 {
                    assert(items.drop_last()[i] == items[i]);
                }
            }
        }
        if forall|i: int|
            0 <= i < items.len() ==> matcher_ok((#[trigger] items[i]).1, n) && opt_ok(
                items[i].2,
                n,
            ) {
            assert forall|i: int| 0 <= i < items.drop_last().len() implies matcher_ok(
                (#[trigger] items.drop_last()[i]).1,
                n,
            ) && opt_ok(items.drop_last()[i].2, n) by {
                assert(items.drop_last()[i] == items[i]);
            }
            assert(matcher_ok(items[items.len() - 1].1, n) && opt_ok(items[items.len() - 1].2, n));
        }
    }
}

/// A pool that extends one that extends a third extends the third.
/// An evaluated node stays as it is in every pool that extends its own.
pub proof fn lemma_normal_kept(q: ExprPool, p: ExprPool, e: Expr)
    requires
        q.extends(p),
        p.valid(e),
        is_normal(p.node(e)),
    ensures
        q.valid(e),
        q.node(e) == p.node(e),
{
    assert(is_normal(p.nodes()[e.0 as int].tok));
}

pub proof fn lemma_extends_trans(a: ExprPool, b: ExprPool, c: ExprPool)
    requires
        a.extends(b),
        b.extends(c),
    ensures
        a.extends(c),
{
    assert forall|i: int|
        0 <= i < c.size() && is_normal(#[trigger] c.nodes()[i].tok) implies a.nodes()[i]
        == c.nodes()[i] by {
        assert(b.nodes()[i] == c.nodes()[i]);
    }
}

/// A copy of a list of node references.
pub fn copy_exprs(v: &Vec<Expr>) -> (res: Vec<Expr>)
    ensures
        res@ == v@,
{
    let mut out: Vec<Expr> = Vec::new();
    let mut i: usize = 0;
    while i < v.len()
        invariant
            i <= v@.len(),
            out@ == v@.subrange(0, i as int),
        decreases v.len() - i,
    {
        out.push(v[i]);
        i = i + 1;
    }
    assert(out@ =~= v@);
    out
}

impl Matcher<Expr> {
    /// A copy of the pattern, with the same defaults.
    pub fn duplicate(&self) -> (res: Matcher<Expr>)
        ensures
            forall|n: nat| matcher_ok(*self, n) ==> matcher_ok(res, n),
            res.bound_names() == self.bound_names(),
            matcher_like(res, *self),
        decreases self,
    {
        match self {
            Matcher::Alias(b, name) => {
                let inner = b.duplicate();
                let res = Matcher::Alias(Box::new(inner), name.clone());
                proof {
                    assert forall|n: nat| matcher_ok(*self, n) implies matcher_ok(res, n) by {
                        assert(matcher_ok(**b, n));
                        assert(matcher_ok(inner, n));
                    }
                }
                res
            },
            Matcher::DontCare => Matcher::DontCare,
            Matcher::Ident(name) => Matcher::Ident(name.clone()),
            Matcher::Tuple(ms) => {
                let mut out: Vec<Matcher<Expr>> = Vec::new();
                let mut i: usize = 0;
                while i < ms.len()
                    invariant
                        i <= ms@.len(),
                        *self == Matcher::Tuple(*ms),
                        out@.len() == i,
                        forall|j: int, n: nat|
                            0 <= j < i ==> (matcher_ok(ms@[j], n) ==> #[trigger] matcher_ok(
                                out@[j],
                                n,
                            )),
                        forall|j: int| 0 <= j < i ==> (#[trigger] out@[j]).bound_names()
                            == ms@[j].bound_names(),
                    decreases ms.len() - i,
                {
                    assert(decreases_to!(*self => ms@[i as int])) by {
                        assert(decreases_to!(*self => self->Tuple_0));
                        assert(decreases_to!(self->Tuple_0 => self->Tuple_0@));
                    }
                    let m = ms[i].duplicate();
                    out.push(m);
                    i = i + 1;
                }
                let res = Matcher::Tuple(out);
                proof {
                    assert forall|n: nat| matcher_ok(*self, n) implies matcher_ok(res, n) by {
                        lemma_matchers_ok_iff(ms@, n);
                        lemma_matchers_ok_iff(out@, n);
                        assert forall|j: int| 0 <= j < out@.len() implies matcher_ok(
                            #[trigger] out@[j],
                            n,
                        ) by {
                            assert(matcher_ok(ms@[j], n));
                        }
                    }
                    lemma_names_seq_same(out@, ms@);
                }
                res
            },
            Matcher::Object(items, need_all) => {
                let mut out: Vec<(String, Matcher<Expr>, Option<Expr>)> = Vec::new();
                let mut i: usize = 0;
                while i < items.len()
                    invariant
                        i <= items@.len(),
                        *self == Matcher::Object(*items, *need_all),
                        out@.len() == i,
                        forall|j: int, n: nat|
                            0 <= j < i ==> (matcher_ok(items@[j].1, n) ==> #[trigger] matcher_ok(
                                out@[j].1,
                                n,
                            )),
                        forall|j: int| 0 <= j < i ==> (#[trigger] out@[j]).2 == items@[j].2,
                        forall|j: int| 0 <= j < i ==> (#[trigger] out@[j]).1.bound_names()
                            == items@[j].1.bound_names(),
                        forall|j: int| 0 <= j < i ==> (#[trigger] out@[j]).0@ == items@[j].0@,
                        forall|j: int| 0 <= j < i ==> matcher_like((#[trigger] out@[j]).1, items@[j].1),
                    decreases items.len() - i,
                {
                    assert(decreases_to!(*self => items@[i as int].1)) by {
                        assert(decreases_to!(*self => self->Object_0));
                        assert(decreases_to!(self->Object_0 => self->Object_0@));
                        assert(decreases_to!(self->Object_0@ => self->Object_0@[i as int]));
                    }
                    let m = items[i].1.duplicate();
                    out.push((items[i].0.clone(), m, items[i].2));
                    i = i + 1;
                }
                let res = Matcher::Object(out, *need_all);
                proof {
                    assert forall|n: nat| matcher_ok(*self, n) implies matcher_ok(res, n) by {
                        lemma_items_ok_iff(items@, n);
                        lemma_items_ok_iff(out@, n);
                        assert forall|j: int| 0 <= j < out@.len() implies matcher_ok(
                            (#[trigger] out@[j]).1,
                            n,
                        ) && opt_ok(out@[j].2, n) by {
                            assert(matcher_ok(items@[j].1, n) && opt_ok(items@[j].2, n));
                        }
                    }
                    lemma_names_items_same(out@, items@);
                }
                res
            },
        }
    }
}

impl<E> Matcher<E> {
    /// The variable names that matching binds, in pattern order.
    pub open spec fn bound_names(self) -> Seq<Seq<char>>
        decreases self,
    {
        match self {
            Matcher::Alias(b, name) => b.bound_names().push(name@),
            Matcher::DontCare => seq![],
            Matcher::Ident(name) => seq![name@],
            Matcher::Tuple(ms) => names_seq(ms@),
            Matcher::Object(items, _) => names_items(items@),
        }
    }
}

/// The names bound by each pattern, one after the other.
pub open spec fn names_seq<E>(ms: Seq<Matcher<E>>) -> Seq<Seq<char>>
    decreases ms,
{
    if ms.len() == 0 {
        seq![]
    } else {
        names_seq(ms.drop_last()) + ms.last().bound_names()
    }
}

/// The names bound by each field pattern, one after the other.
pub open spec fn names_items<E>(items: Seq<(String, Matcher<E>, Option<E>)>) -> Seq<Seq<char>>
    decreases items,
{
    if items.len() == 0 {
        seq![]
    } else {
        names_items(items.drop_last()) + items.last().1.bound_names()
    }
}

pub proof fn lemma_names_seq_same<E, D>(a: Seq<Matcher<E>>, b: Seq<Matcher<D>>)
    requires
        a.len() == b.len(),
        forall|j: int| 0 <= j < a.len() ==> (#[trigger] a[j]).bound_names() == b[j].bound_names(),
    ensures
        names_seq(a) == names_seq(b),
    decreases a.len(),
{
    if a.len() > 0 {
        lemma_names_seq_same(a.drop_last(), b.drop_last());
        assert(a.last().bound_names() == b.last().bound_names());
    }
}

pub proof fn lemma_names_items_same<E, D>(
    a: Seq<(String, Matcher<E>, Option<E>)>,
    b: Seq<(String, Matcher<D>, Option<D>)>,
)
    requires
        a.len() == b.len(),
        forall|j: int|
            0 <= j < a.len() ==> (#[trigger] a[j]).1.bound_names() == b[j].1.bound_names(),
    ensures
        names_items(a) == names_items(b),
    decreases a.len(),
{
    if a.len() > 0 {
        lemma_names_items_same(a.drop_last(), b.drop_last());
        assert(a.last().1.bound_names() == b.last().1.bound_names());
    }
}

impl ExprBuiltinWrapper {
    /// A copy of the builtin reference.
    pub fn duplicate(&self) -> (res: ExprBuiltinWrapper)
        ensures
            res.0@ == self.0@,
            res.1 == self.1,
    {
        ExprBuiltinWrapper(self.0.clone(), self.1)
    }
}

impl ExprType {
    /// A copy of the content, referring to the same nodes.
    pub fn duplicate(&self) -> (res: ExprType)
        ensures
            forall|n: nat| tok_ok(*self, n) ==> tok_ok(res, n),
            is_normal(res) == is_normal(*self),
            is_normal(*self) ==> same_content(res, *self),
            (*self is Var || *self is Null || *self is UnOp || *self is BinOp || *self is AttrSel || *self is MapList
                || *self is Fold || *self is FuncCall) ==> res == *self,
            *self matches ExprType::Bind(sc, x) ==> (res matches ExprType::Bind(sc2, x2) && sc2@ == sc@ && x2 == x),
            *self matches ExprType::FuncDef(m, x) ==> (res matches ExprType::FuncDef(m2, x2) && x2 == x && matcher_like(m2, m)),
            *self matches ExprType::Let(st, x) ==> (res matches ExprType::Let(st2, x2) && x2 == x && stmts_like(st2@, st@)),
    {
        let res = match self {
            ExprType::Object(s) => ExprType::Object(s.copy()),
            ExprType::List(v) => ExprType::List(copy_exprs(v)),
            ExprType::Tuple(v) => ExprType::Tuple(copy_exprs(v)),
            ExprType::AttrSel(e, a) => ExprType::AttrSel(*e, a.clone()),
            ExprType::Value(v) => ExprType::Value(v.duplicate()),
            ExprType::Var(n) => ExprType::Var(n.clone()),
            ExprType::UnOp(op, e) => ExprType::UnOp(*op, *e),
            ExprType::BinOp(op, a, b) => ExprType::BinOp(*op, *a, *b),
            ExprType::FuncDef(m, e) => ExprType::FuncDef(m.duplicate(), *e),
            ExprType::FuncDefBuiltin(w) => ExprType::FuncDefBuiltin(w.duplicate()),
            ExprType::Let(stmts, e) => {
                let mut out: Vec<(Matcher<Expr>, Expr)> = Vec::new();
                let mut i: usize = 0;
                while i < stmts.len()
                    invariant
                        i <= stmts@.len(),
                        out@.len() == i,
                        forall|j: int, n: nat|
                            0 <= j < i ==> (matcher_ok(stmts@[j].0, n) ==> #[trigger] matcher_ok(
                                out@[j].0,
                                n,
                            )),
                        forall|j: int| 0 <= j < i ==> (#[trigger] out@[j]).1 == stmts@[j].1,
                        forall|j: int| 0 <= j < i ==> matcher_like((#[trigger] out@[j]).0, stmts@[j].0),
                    decreases stmts.len() - i,
                {
                    let m = stmts[i].0.duplicate();
                    out.push((m, stmts[i].1));
                    i = i + 1;
                }
                ExprType::Let(out, *e)
            },
            ExprType::MapList(k, a, b) => ExprType::MapList(*k, *a, *b),
            ExprType::Fold(a, b, c) => ExprType::Fold(*a, *b, *c),
            ExprType::FuncCall(a, b) => ExprType::FuncCall(*a, *b),
            ExprType::Bind(s, e) => ExprType::Bind(s.copy(), *e),
            ExprType::Null => ExprType::Null,
        };
        proof {
            assert forall|n: nat| tok_ok(*self, n) implies tok_ok(res, n) by {
                match *self {
                    ExprType::Let(stmts, _) => {
                        let out = res->Let_0;
                        assert forall|j: int| 0 <= j < out@.len() implies matcher_ok(
                            (#[trigger] out@[j]).0,
                            n,
                        ) && out@[j].1.0 < n by {
                            assert(matcher_ok(stmts@[j].0, n));
                        }
                    },
                    _ => {},
                }
            }
        }
        res
    }

    /// The content as a new node with the given source place.
    pub fn reref(self, pool: &mut ExprPool, loc: Option<ExprSourceRef>) -> (res: Expr)
        requires
            old(pool).wf(),
            tok_ok(self, old(pool).size()),
        ensures
            final(pool).wf(),
            final(pool).extends(*old(pool)),
            final(pool).size() == old(pool).size() + 1,
            res.0 == old(pool).size(),
            final(pool).node(res) == self,
            final(pool).next_id() == old(pool).next_id(),
    {
        pool.push(self, loc)
    }

    /// The content as a new node at `left..right` of `file`.
    pub fn loc(self, pool: &mut ExprPool, left: usize, right: usize, file: usize) -> (res: Expr)
        requires
            old(pool).wf(),
            tok_ok(self, old(pool).size()),
        ensures
            final(pool).wf(),
            final(pool).extends(*old(pool)),
            final(pool).size() == old(pool).size() + 1,
            res.0 == old(pool).size(),
            final(pool).node(res) == self,
            final(pool).nodes()[res.0 as int].loc == Some(ExprSourceRef { file, left, right }),
            final(pool).next_id() == old(pool).next_id(),
    {
        pool.push(self, Some(ExprSourceRef { file, left, right }))
    }

    /// The content as a new node without a source place.
    pub fn builtin(self, pool: &mut ExprPool) -> (res: Expr)
        requires
            old(pool).wf(),
            tok_ok(self, old(pool).size()),
        ensures
            final(pool).wf(),
            final(pool).extends(*old(pool)),
            final(pool).size() == old(pool).size() + 1,
            res.0 == old(pool).size(),
            final(pool).node(res) == self,
            final(pool).nodes()[res.0 as int].loc == None::<ExprSourceRef>,
            final(pool).next_id() == old(pool).next_id(),
    {
        pool.push(self, None)
    }
}

impl Expr {
    /// The source place of the node.
    pub fn get_loc(&self, pool: &ExprPool) -> (res: Option<ExprSourceRef>)
        requires
            pool.valid(*self),
        ensures
            res == pool.nodes()[self.0 as int].loc,
    {
        pool.loc(*self)
    }

    /// The content of the node.
    pub fn inner_ref<'a>(&self, pool: &'a ExprPool) -> (res: &'a ExprType)
        requires
            pool.valid(*self),
        ensures
            *res == pool.node(*self),
    {
        pool.tok(*self)
    }
}

impl ExprPool {
    /// The nodes.
    pub closed spec fn nodes(&self) -> Seq<ExprStorage> {
        self.nodes@
    }

    /// Number of nodes.
    pub open spec fn size(&self) -> nat {
        self.nodes().len()
    }

    /// Content of node `e`.
    pub open spec fn node(&self, e: Expr) -> ExprType {
        self.nodes()[e.0 as int].tok
    }

    /// `e` is a node of the pool.
    pub open spec fn valid(&self, e: Expr) -> bool {
        e.0 < self.size()
    }

    /// Every node refers only to nodes of the pool.
    pub open spec fn wf(&self) -> bool {
        forall|i: int| 0 <= i < self.size() ==> tok_ok(#[trigger] self.nodes()[i].tok, self.size())
    }

    /// `self` extends `old`: it has at least its nodes, and every node of
    /// `old` that was already evaluated is unchanged.
    pub open spec fn extends(&self, old: ExprPool) -> bool {
        &&& self.size() >= old.size()
        &&& forall|i: int|
            0 <= i < old.size() && is_normal(#[trigger] old.nodes()[i].tok) ==> self.nodes()[i]
                == old.nodes()[i]
    }

    /// An empty pool.
    pub fn new() -> (res: ExprPool)
        ensures
            res.wf(),
            res.size() == 0,
    {
        ExprPool { nodes: Vec::new(), next_id: 0 }
    }

    /// Number of nodes.
    pub fn len(&self) -> (res: usize)
        ensures
            res == self.size(),
    {
        self.nodes.len()
    }

    /// A fresh number, different from all numbers handed out before by this
    /// pool; `None` once all numbers are used.
    pub fn unique_id(&mut self) -> (res: Option<usize>)
        ensures
            final(self).nodes() == old(self).nodes(),
            res matches Some(id) ==> id == old(self).next_id() && final(self).next_id() == id + 1,
            res is None ==> old(self).next_id() == usize::MAX && final(self).next_id() == usize::MAX,
    {
        if self.next_id == usize::MAX {
            None
        } else {
            let id = self.next_id;
            self.next_id = self.next_id + 1;
            Some(id)
        }
    }

    /// The count of numbers handed out.
    pub closed spec fn next_id(&self) -> usize {
        self.next_id
    }

    /// Adds a node.
    pub fn push(&mut self, tok: ExprType, loc: Option<ExprSourceRef>) -> (res: Expr)
        requires
            old(self).wf(),
            tok_ok(tok, old(self).size()),
        ensures
            final(self).wf(),
            final(self).size() == old(self).size() + 1,
            final(self).nodes() == old(self).nodes().push(ExprStorage { tok, loc }),
            final(self).extends(*old(self)),
            res.0 == old(self).size(),
            final(self).node(res) == tok,
            final(self).next_id() == old(self).next_id(),
    {
        let ghost n = self.nodes@.len();
        let res = Expr(self.nodes.len());
        let ghost tok_g = tok;
        self.nodes.push(ExprStorage { tok, loc });
        proof {
            assert forall|i: int| 0 <= i < self.size() implies tok_ok(
                #[trigger] self.nodes()[i].tok,
                self.size(),
            ) by {
                assert(self.nodes() == old(self).nodes().push(ExprStorage { tok, loc }));
                if i < n {
                    assert(self.nodes()[i] == old(self).nodes()[i]);
                    assert(tok_ok(old(self).nodes()[i].tok, n));
                    lemma_tok_ok_mono(self.nodes()[i].tok, n, self.size());
                } else {
                    lemma_tok_ok_mono(tok, n, self.size());
                }
            }
        }
        res
    }

    /// The content of node `e`.
    pub fn tok(&self, e: Expr) -> (res: &ExprType)
        requires
            self.valid(e),
        ensures
            *res == self.node(e),
    {
        &self.nodes[e.0].tok
    }

    /// The source place of node `e`.
    pub fn loc(&self, e: Expr) -> (res: Option<ExprSourceRef>)
        requires
            self.valid(e),
        ensures
            res == self.nodes()[e.0 as int].loc,
    {
        self.nodes[e.0].loc
    }

    /// Replaces the content of node `e` with a content that is not yet
    /// evaluated, or when the node is not yet evaluated.
    pub(crate) fn set(&mut self, e: Expr, tok: ExprType)
        requires
            old(self).wf(),
            old(self).valid(e),
            tok_ok(tok, old(self).size()),
            !is_normal(old(self).node(e)),
        ensures
            final(self).wf(),
            final(self).size() == old(self).size(),
            final(self).node(e) == tok,
            forall|i: int| 0 <= i < old(self).size() && i != e.0 ==> #[trigger] final(self).nodes()[i]
                == old(self).nodes()[i],
            final(self).extends(*old(self)),
            final(self).next_id() == old(self).next_id(),
    {
        let loc = self.nodes[e.0].loc;
        self.nodes.set(e.0, ExprStorage { tok, loc });
    }
}

} // verus!
