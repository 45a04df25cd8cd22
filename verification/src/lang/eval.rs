//! Evaluation of expressions: each node is rewritten in place to its value,
//! so that a node shared by several places is evaluated once.
use vstd::prelude::*;

use crate::immap::{has_entry, has_key, lemma_key_iff_entry, ImMap};
use crate::lang::error::{Error, ErrorType};
use crate::lang::expr::{
    copy_exprs, is_normal, lemma_extends_trans, lemma_normal_kept, matcher_like, same_content, lemma_items_ok_iff, lemma_matcher_ok_mono,
    lemma_matchers_ok_iff, lemma_tok_ok_mono, matcher_ok, opt_ok, set_ok, stmts_ok, tok_ok, vec_ok,
    BuiltinKind, Expr, ExprBinOp, ExprBuiltinWrapper, ExprMapType, ExprPool, ExprType, ExprUnOp,
    Matcher,
};
use crate::lang::parser::{
    binop_kind, binop_node, binop_of_source, first_op, ftree, last_op, right_assoc, tok_kind, tokens_of, Token,
};
use crate::path::{strings_view, PathModel};
use crate::pbbuild::{build_ok, retype_ok, translate_ok, BuiltinPbBuild, BuiltinPbLock, BuiltinPbRetype, BuiltinPbRule, BuiltinPbTranslate};
use crate::text::{push_str, to_owned_string, u64_to_string};
use crate::value::{compare_result, same_value, trunc_div, type_error, ExprOps, Value};

verus! {

/// Nesting depth that one evaluation may reach before it gives up.
pub const EVAL_FUEL: u64 = 5000;

/// Builtin functions that the evaluation does not know itself, provided by
/// the caller of the evaluation.
pub trait ExprBuiltin {
    /// Calls the builtin named `name` on the evaluated argument `arg`.
    fn call(&mut self, pool: &mut ExprPool, name: &String, arg: Expr) -> (res: Result<Expr, Error>)
        requires
            old(pool).wf(),
            old(pool).valid(arg),
        ensures
            final(pool).wf(),
            final(pool).extends(*old(pool)),
            res matches Ok(r) ==> final(pool).valid(r),
    ;
}

/// No builtins besides those of `pb`: every other builtin is unknown.
pub struct NoBuiltins;

impl ExprBuiltin for NoBuiltins {
    /// Every such builtin is unknown: a scope error.
    fn call(&mut self, pool: &mut ExprPool, name: &String, arg: Expr) -> (res: Result<Expr, Error>)
        ensures
            res matches Err(e) && e.typ == ErrorType::Scope && e.msg@ == "Unknown builtin "@ + name@,
            *final(pool) == *old(pool),
    {
        let e = err_name(ErrorType::Scope, "Unknown builtin ", name.as_str(), "");
        proof {
            reveal_strlit("");
            assert(e.msg@ =~= "Unknown builtin "@ + name@);
        }
        Err(e)
    }
}

/// `p` is well formed and extends `old`.
pub open spec fn grown(p: ExprPool, old: ExprPool) -> bool {
    p.wf() && p.extends(old)
}

/// `q` is `p` with nodes added after its own, which stay as they are.
pub open spec fn only_pushed(q: ExprPool, p: ExprPool) -> bool {
    &&& q.size() >= p.size()
    &&& forall|i: int| 0 <= i < p.size() ==> #[trigger] q.nodes()[i] == p.nodes()[i]
}

/// Node `n` of `q` is `x` seen with the variables of `scope`.
pub open spec fn bound_in(q: ExprPool, n: Expr, scope: Seq<(Seq<char>, Expr)>, x: Expr) -> bool {
    &&& q.valid(n)
    &&& q.node(n) matches ExprType::Bind(s, y) && s@ == scope && y == x
}

/// What `-x` and `!x` give on a value.
pub open spec fn unop_outcome(op: ExprUnOp, v: Value, res: Result<Value, Error>) -> bool {
    match op {
        ExprUnOp::Neg => match v {
            Value::Int(a) => if a == i64::MIN {
                res matches Err(e) && e.typ == ErrorType::Eval
            } else {
                res == Ok::<Value, Error>(Value::Int((-a) as i64))
            },
            _ => type_error(res),
        },
        ExprUnOp::Not => match v {
            Value::Bool(b) => res == Ok::<Value, Error>(Value::Bool(!b)),
            _ => type_error(res),
        },
    }
}

/// The answer of `&&`, `||` and `->` when the left side `c` decides it.
pub open spec fn logic_decides(op: ExprBinOp, c: bool) -> Option<bool> {
    match op {
        ExprBinOp::LogAnd => if !c { Some(false) } else { None },
        ExprBinOp::LogOr => if c { Some(true) } else { None },
        _ => if !c { Some(true) } else { None },
    }
}

/// `&&`, `||` or `->`.
pub open spec fn is_logic(op: ExprBinOp) -> bool {
    op == ExprBinOp::LogAnd || op == ExprBinOp::LogOr || op == ExprBinOp::LogImpl
}

/// What `a op b` evaluates to when both sides are evaluated already.
pub open spec fn binop_ready_outcome(p: ExprPool, op: ExprBinOp, a: Expr, b: Expr, r: Result<ExprType, Error>) -> bool {
    match p.node(a) {
        ExprType::Value(lv) => if is_logic(op) {
            match lv {
                Value::Bool(c) => match logic_decides(op, c) {
                    Some(d) => r == Ok::<ExprType, Error>(ExprType::Value(Value::Bool(d))),
                    None => r matches Ok(t) && same_content(t, p.node(b)),
                },
                _ => r matches Err(e) && e.typ == ErrorType::Type,
            }
        } else {
            match p.node(b) {
                ExprType::Value(rv) => match r {
                    Ok(t) => t matches ExprType::Value(w) && binop_outcome(op, lv, rv, Ok(w)),
                    Err(e) => binop_outcome(op, lv, rv, Err(e)),
                },
                _ => r matches Err(e) && e.typ == ErrorType::Type,
            }
        },
        ExprType::Object(lf) => match (op, p.node(b)) {
            (ExprBinOp::HasAttr, ExprType::Value(Value::String(s))) => r == Ok::<ExprType, Error>(
                ExprType::Value(Value::Bool(has_key(lf@, s@))),
            ),
            (ExprBinOp::Update, ExprType::Object(rf)) => r matches Ok(ExprType::Object(m)) && forall|k: Seq<char>, v: Expr|
                #[trigger] has_entry(m@, k, v) <==> (has_entry(rf@, k, v) || (!has_key(rf@, k) && has_entry(lf@, k, v))),
            _ => r matches Err(e) && e.typ == ErrorType::Type,
        },
        ExprType::List(lv) => match (op, p.node(b)) {
            (ExprBinOp::Add, ExprType::List(rv)) => r matches Ok(ExprType::List(out)) && out@ == lv@ + rv@,
            (ExprBinOp::ListConcat, ExprType::List(rv)) => r matches Ok(ExprType::List(out)) && out@ == lv@ + rv@,
            _ => r matches Err(e) && e.typ == ErrorType::Type,
        },
        _ => r matches Err(e) && e.typ == ErrorType::Eval,
    }
}

/// An integer or a boolean.
pub open spec fn plain_value(v: Value) -> bool {
    v is Int || v is Bool
}

/// What an operator other than `&&`, `||` and `->` gives on two integers or
/// booleans, as `binop_outcome` says: `Some` value, or `None` where it fails.
pub open spec fn plain_binop(op: ExprBinOp, l: Value, r: Value) -> Option<Value> {
    match op {
        ExprBinOp::Eq => Some(Value::Bool(same_value(l, r))),
        ExprBinOp::Neq => Some(Value::Bool(!same_value(l, r))),
        _ => match (l, r) {
            (Value::Int(a), Value::Int(b)) => match op {
                ExprBinOp::Add => if i64::MIN <= a + b <= i64::MAX { Some(Value::Int((a + b) as i64)) } else { None },
                ExprBinOp::Sub => if i64::MIN <= a - b <= i64::MAX { Some(Value::Int((a - b) as i64)) } else { None },
                ExprBinOp::Mult => if i64::MIN <= a * b <= i64::MAX { Some(Value::Int((a * b) as i64)) } else { None },
                ExprBinOp::Div => if b == 0 || !(i64::MIN <= trunc_div(a as int, b as int) <= i64::MAX) {
                    None
                } else {
                    Some(Value::Int(trunc_div(a as int, b as int) as i64))
                },
                ExprBinOp::Lt => Some(Value::Bool(a < b)),
                ExprBinOp::Le => Some(Value::Bool(a <= b)),
                ExprBinOp::Gt => Some(Value::Bool(a > b)),
                ExprBinOp::Ge => Some(Value::Bool(a >= b)),
                _ => None,
            },
            _ => None,
        },
    }
}

/// What an operator gives on the results `l` and `r` of its two operands
/// (`None` where one failed): `&&`, `||` and `->` take a boolean on the
/// left, decide on it alone where they can and give the right operand's
/// value otherwise; the others apply `plain_binop`.
pub open spec fn tree_op(op: ExprBinOp, l: Option<Value>, r: Option<Value>) -> Option<Value> {
    match l {
        Some(lv) => if is_logic(op) {
            match lv {
                Value::Bool(c) => match logic_decides(op, c) {
                    Some(d) => Some(Value::Bool(d)),
                    None => r,
                },
                _ => None,
            }
        } else {
            match r {
                Some(rv) => plain_binop(op, lv, rv),
                None => None,
            }
        },
        None => None,
    }
}

/// Node `x` of `p` is a tree of binary operators over integers and
/// booleans, each operand an earlier node.
pub open spec fn op_tree(p: ExprPool, x: Expr) -> bool
    decreases x.0,
{
    p.valid(x) && match p.node(x) {
        ExprType::Value(v) => plain_value(v),
        ExprType::BinOp(_, a, b) => a.0 < x.0 && b.0 < x.0 && op_tree(p, a) && op_tree(p, b),
        _ => false,
    }
}

/// What evaluating the operator tree `x` of `p` gives: `Some` value, or
/// `None` where an operator fails.
pub open spec fn op_tree_value(p: ExprPool, x: Expr) -> Option<Value>
    decreases x.0,
{
    if p.valid(x) {
        match p.node(x) {
            ExprType::Value(v) => Some(v),
            ExprType::BinOp(op, a, b) => if a.0 < x.0 && b.0 < x.0 {
                tree_op(op, op_tree_value(p, a), op_tree_value(p, b))
            } else {
                None
            },
            _ => None,
        }
    } else {
        None
    }
}

/// Content `t` of `p` is a scope around an operator tree: `Some` of the
/// tree's node.
pub open spec fn scoped_tree(p: ExprPool, t: ExprType) -> Option<Expr> {
    match t {
        ExprType::Bind(_, x) => if op_tree(p, x) {
            Some(x)
        } else {
            None
        },
        _ => None,
    }
}

/// An operator tree keeps its shape and value in `q` where `q` keeps the
/// value and operator nodes of `p`.
proof fn lemma_op_tree_kept(p: ExprPool, q: ExprPool, x: Expr)
    requires
        op_tree(p, x),
        q.size() >= p.size(),
        forall|i: int| 0 <= i < p.size() && (p.nodes()[i].tok is Value || p.nodes()[i].tok is BinOp) ==> #[trigger] q.nodes()[i]
            == p.nodes()[i],
    ensures
        op_tree(q, x),
        op_tree_value(q, x) == op_tree_value(p, x),
    decreases x.0,
{
    assert(q.nodes()[x.0 as int] == p.nodes()[x.0 as int]);
    match p.node(x) {
        ExprType::BinOp(_, a, b) => {
            lemma_op_tree_kept(p, q, a);
            lemma_op_tree_kept(p, q, b);
        },
        _ => {},
    }
}

/// What an operator tree evaluates to is an integer or a boolean.
proof fn lemma_op_tree_plain(p: ExprPool, x: Expr)
    requires
        op_tree(p, x),
    ensures
        op_tree_value(p, x) matches Some(v) ==> plain_value(v),
    decreases x.0,
{
    match p.node(x) {
        ExprType::BinOp(_, a, b) => {
            lemma_op_tree_plain(p, a);
            lemma_op_tree_plain(p, b);
        },
        _ => {},
    }
}

/// Equal values where one is an integer or a boolean are the same value.
proof fn lemma_plain_same(w: Value, v: Value)
    requires
        plain_value(v),
        same_value(w, v),
    ensures
        w == v,
{
}

/// `binop_outcome` on two integers or booleans is what `plain_binop` says.
proof fn lemma_plain_binop(op: ExprBinOp, l: Value, r: Value, res: Result<Value, Error>)
    requires
        plain_value(l),
        plain_value(r),
        !is_logic(op),
        binop_outcome(op, l, r, res),
    ensures
        match res {
            Ok(w) => plain_binop(op, l, r) == Some(w),
            Err(_) => plain_binop(op, l, r) is None,
        },
{
}

/// The result `r` of an evaluation is what `v` says: that value, or an
/// error where `v` is `None`.
pub open spec fn tree_result(v: Option<Value>, r: Result<ExprType, Error>) -> bool {
    match v {
        Some(x) => r == Ok::<ExprType, Error>(ExprType::Value(x)),
        None => r is Err,
    }
}

/// The result `r` of asking for a value is what `v` says: a value equal to
/// it, or an error where `v` is `None`.
pub open spec fn value_result(v: Option<Value>, r: Result<Value, Error>) -> bool {
    match v {
        Some(x) => match r {
            Ok(w) => same_value(w, x),
            Err(_) => false,
        },
        None => r is Err,
    }
}

/// `q` keeps every node of `p` but `a` and `b`.
pub open spec fn kept_but(p: ExprPool, q: ExprPool, a: Expr, b: Expr) -> bool {
    &&& q.size() >= p.size()
    &&& forall|i: int| 0 <= i < p.size() && i != a.0 && i != b.0 ==> #[trigger] q.nodes()[i] == p.nodes()[i]
}

/// Content `t` of `q` is the step that a scope around the operator tree
/// `x` of `p` takes: the operator applied to new nodes of `q`, each a scope
/// around an operand of `x`.
pub open spec fn tree_call(p: ExprPool, q: ExprPool, start: nat, t: ExprType, x: Expr) -> bool {
    match (t, p.node(x)) {
        (ExprType::BinOp(op, a2, b2), ExprType::BinOp(op0, xa, xb)) => {
            &&& op == op0
            &&& a2.0 >= start && b2.0 >= start && q.valid(a2) && q.valid(b2)
            &&& q.node(a2) matches ExprType::Bind(_, y) && y == xa
            &&& q.node(b2) matches ExprType::Bind(_, z) && z == xb
        },
        _ => false,
    }
}

/// Content `t` is a logic operator whose left operand is a scope around an
/// evaluated boolean of `p` that decides it: `Some` of the boolean it gives.
pub open spec fn bound_short_circuit(p: ExprPool, t: ExprType) -> Option<bool> {
    match t {
        ExprType::BinOp(op, a, _) => if p.valid(a) {
            match p.node(a) {
                ExprType::Bind(_, x) => if p.valid(x) {
                    match p.node(x) {
                        ExprType::Value(Value::Bool(c)) => if is_logic(op) {
                            logic_decides(op, c)
                        } else {
                            None
                        },
                        _ => None,
                    }
                } else {
                    None
                },
                _ => None,
            }
        } else {
            None
        },
        _ => None,
    }
}

/// Content `t` is a scope around a logic operator that its evaluated
/// boolean left operand decides: `Some` of the boolean it gives.
pub open spec fn scoped_short_circuit(p: ExprPool, t: ExprType) -> Option<bool> {
    match t {
        ExprType::Bind(_, inner) => if p.valid(inner) {
            short_circuit(p, p.node(inner))
        } else {
            None
        },
        _ => None,
    }
}

/// What a step of `bind` of `scope` around an operator node `inner` of `p`
/// gives: the operator applied to new nodes, each the scope around an
/// operand.
pub open spec fn bound_binop(p: ExprPool, q: ExprPool, scope: Seq<(Seq<char>, Expr)>, inner: Expr, r: Result<
    ExprType,
    Error,
>) -> bool {
    match p.node(inner) {
        ExprType::BinOp(op, a, b) => match r {
            Ok(ExprType::BinOp(op2, a2, b2)) => op2 == op && bound_in(q, a2, scope, a) && bound_in(q, b2, scope, b)
                && a2.0 >= p.size() && b2.0 >= p.size(),
            _ => false,
        },
        _ => true,
    }
}

/// Content `t` is a logic operator whose left operand, an evaluated
/// boolean of `p`, decides it: `Some` of the boolean it gives.
pub open spec fn short_circuit(p: ExprPool, t: ExprType) -> Option<bool> {
    match t {
        ExprType::BinOp(op, a, _) => if p.valid(a) {
            match p.node(a) {
                ExprType::Value(Value::Bool(c)) => if is_logic(op) {
                    logic_decides(op, c)
                } else {
                    None
                },
                _ => None,
            }
        } else {
            None
        },
        _ => None,
    }
}

/// The nodes that evaluating content `t` reads are evaluated already, so
/// that one step decides the outcome: a variable that no scope binds,
/// `null`, an operator on evaluated sides, a field of an evaluated object
/// whose fields are evaluated, or variables bound around data, a function
/// or a variable whose node is evaluated.
pub open spec fn operands_ready(p: ExprPool, t: ExprType) -> bool {
    match t {
        ExprType::Var(_) => true,
        ExprType::Null => true,
        ExprType::UnOp(_, x) => p.valid(x) && is_normal(p.node(x)),
        ExprType::BinOp(_, a, b) => p.valid(a) && p.valid(b) && is_normal(p.node(a)) && is_normal(p.node(b)),
        ExprType::AttrSel(v, name) => p.valid(v) && is_normal(p.node(v)) && (p.node(v) matches ExprType::Object(fs)
            ==> forall|f: Expr| #[trigger] has_entry(fs@, name@, f) ==> p.valid(f) && is_normal(p.node(f))),
        ExprType::Bind(scope, inner) => p.valid(inner) && set_ok(scope@, p.size()) && match p.node(inner) {
            ExprType::Object(_) | ExprType::List(_) | ExprType::Tuple(_) | ExprType::Value(_)
            | ExprType::FuncDefBuiltin(_) | ExprType::FuncDef(_, _) | ExprType::Null => true,
            ExprType::Var(name) => forall|x: Expr| #[trigger] has_entry(scope@, name@, x) ==> p.valid(x) && is_normal(
                p.node(x),
            ),
            _ => false,
        },
        ExprType::MapList(ExprMapType::List, f, src) => p.valid(f) && p.valid(src) && is_normal(p.node(src)),
        _ => false,
    }
}

/// What `[ f <- src ]` gives on an evaluated source: a list with, for each
/// item of a list, and for each field of an object as a `(key, value)`
/// tuple, a new node calling `f` on it.
pub open spec fn map_ready_outcome(p: ExprPool, q: ExprPool, f: Expr, src: Expr, r: Result<ExprType, Error>) -> bool {
    match p.node(src) {
        ExprType::List(xs) => r matches Ok(ExprType::List(ys)) && ys@.len() == xs@.len() && forall|i: int|
            0 <= i < xs@.len() ==> q.valid(#[trigger] ys@[i]) && q.node(ys@[i]) == ExprType::FuncCall(xs@[i], f),
        ExprType::Object(fs) => r matches Ok(ExprType::List(ys)) && ys@.len() == fs@.len() && forall|i: int|
            0 <= i < fs@.len() ==> q.valid(#[trigger] ys@[i]) && is_pair_call(q, ys@[i], fs@[i], f),
        _ => r matches Err(e) && e.typ == ErrorType::Eval,
    }
}

/// Node `c` of `q` calls `f` on a new tuple of the key (a string node) and
/// the value of `field`.
pub open spec fn is_pair_call(q: ExprPool, c: Expr, field: (Seq<char>, Expr), f: Expr) -> bool {
    &&& q.node(c) matches ExprType::FuncCall(t, g) && g == f && q.valid(t) && is_pair(q, t, field)
}

/// Node `t` of `q` is a new tuple of the key (a string node) and the value
/// of `field`.
pub open spec fn is_pair(q: ExprPool, t: Expr, field: (Seq<char>, Expr)) -> bool {
    &&& q.node(t) matches ExprType::Tuple(kv) && kv@.len() == 2 && kv@[1] == field.1 && q.valid(kv@[0])
    &&& q.node(q.node(t)->Tuple_0@[0]) matches ExprType::Value(Value::String(k)) && k@ == field.0
}

/// What evaluating content `t` gives when `operands_ready(p, t)`, where `p`
/// is the pool before and `q` the pool after: an unbound variable is a scope
/// error, `null` an evaluation error, an operator is applied to the values
/// or collections on its sides, and a field is the content of the object's
/// field. Variables bound around data move to its parts (each a new node
/// `bind` of the scope and the part), around a function to its body without
/// the names that the function binds itself, and around a variable give the
/// content that the scope binds it to.
pub open spec fn ready_outcome(p: ExprPool, q: ExprPool, t: ExprType, r: Result<ExprType, Error>) -> bool {
    match t {
        ExprType::Var(n) => r matches Err(e) && e.typ == ErrorType::Scope && e.msg@ == "Unknown variable "@ + n@,
        ExprType::Null => r matches Err(e) && e.typ == ErrorType::Eval,
        ExprType::UnOp(op, x) => match p.node(x) {
            ExprType::Value(v) => match r {
                Ok(t) => t matches ExprType::Value(w) && unop_outcome(op, v, Ok(w)),
                Err(e) => unop_outcome(op, v, Err(e)),
            },
            _ => r matches Err(e) && e.typ == ErrorType::Eval,
        },
        ExprType::BinOp(op, a, b) => binop_ready_outcome(p, op, a, b, r),
        ExprType::AttrSel(v, name) => match p.node(v) {
            ExprType::Object(fs) => if has_key(fs@, name@) {
                exists|f: Expr| #[trigger] has_entry(fs@, name@, f) && (r matches Ok(t2) && same_content(t2, p.node(f)))
            } else {
                r matches Err(e) && e.typ == ErrorType::NoValue
            },
            _ => r matches Err(e) && e.typ == ErrorType::NoValue,
        },
        ExprType::Bind(scope, inner) => bind_ready_outcome(p, q, scope@, inner, r),
        ExprType::MapList(ExprMapType::List, f, src) => map_ready_outcome(p, q, f, src, r),
        _ => false,
    }
}

/// What evaluating `bind` of `scope` around `inner` gives, as
/// `ready_outcome` says.
pub open spec fn bind_ready_outcome(
    p: ExprPool,
    q: ExprPool,
    scope: Seq<(Seq<char>, Expr)>,
    inner: Expr,
    r: Result<ExprType, Error>,
) -> bool {
    match p.node(inner) {
        ExprType::Object(fs) => r matches Ok(ExprType::Object(out)) && out@.len() == fs@.len() && forall|i: int|
            0 <= i < fs@.len() ==> (#[trigger] out@[i]).0 == fs@[i].0 && bound_in(q, out@[i].1, scope, fs@[i].1),
        ExprType::List(xs) => r matches Ok(ExprType::List(ys)) && ys@.len() == xs@.len() && forall|i: int|
            0 <= i < xs@.len() ==> bound_in(q, #[trigger] ys@[i], scope, xs@[i]),
        ExprType::Tuple(xs) => r matches Ok(ExprType::Tuple(ys)) && ys@.len() == xs@.len() && forall|i: int|
            0 <= i < xs@.len() ==> bound_in(q, #[trigger] ys@[i], scope, xs@[i]),
        ExprType::Value(_) => r matches Ok(t) && same_content(t, p.node(inner)),
        ExprType::FuncDefBuiltin(_) => r matches Ok(t) && same_content(t, p.node(inner)),
        ExprType::FuncDef(m, body) => r matches Ok(ExprType::FuncDef(m2, b)) && m2.bound_names() == m.bound_names()
            && q.valid(b) && (q.node(b) matches ExprType::Bind(s, y) && y == body && forall|k: Seq<char>, v: Expr|
            #[trigger] has_entry(s@, k, v) <==> (!m.bound_names().contains(k) && has_entry(scope, k, v))),
        ExprType::Var(name) => if has_key(scope, name@) {
            exists|x: Expr| #[trigger] has_entry(scope, name@, x) && (r matches Ok(t) && same_content(t, p.node(x)))
        } else {
            r matches Err(e) && e.typ == ErrorType::Scope && e.msg@ == "Unknown variable "@ + name@
        },
        ExprType::Null => r matches Err(e) && e.typ == ErrorType::Eval,
        _ => false,
    }
}

/// Two contents that evaluation takes the same step on: equal, or the same
/// scope around the same node.
pub open spec fn same_step(a: ExprType, b: ExprType) -> bool {
    match (a, b) {
        (ExprType::Bind(s1, x1), ExprType::Bind(s2, x2)) => s1@ == s2@ && x1 == x2,
        _ => a == b,
    }
}

/// Content `t` is what calling the evaluated function `func` of `p` on `arg`
/// steps to, where the function's parameter is a plain name or `_`: its body
/// with the parameter bound to the argument node.
pub open spec fn call_steps_to(p: ExprPool, arg: Expr, func: Expr, t: ExprType) -> bool {
    match p.node(func) {
        ExprType::FuncDef(m, body) => match m {
            Matcher::Ident(n) => applied(p, seq![(n@, arg)], body, t),
            Matcher::DontCare => applied(p, seq![], body, t),
            Matcher::Object(items, need_all) => object_call_ok(p, arg, items@, need_all) && exists|s: Seq<(Seq<char>, Expr)>|
                #[trigger] object_args(p.node(arg)->Object_0@, items@, m, s, p.size()) && applied(p, s, body, t),
            _ => false,
        },
        _ => false,
    }
}

/// The argument node `arg` of `p` is an evaluated object that the pattern
/// `{ items }` of plain names matches: each field without default is there,
/// and no other field where the pattern takes no others.
pub open spec fn object_call_ok(p: ExprPool, arg: Expr, items: Seq<(String, Matcher<Expr>, Option<Expr>)>, need_all: bool) -> bool {
    &&& plain_items(items)
    &&& p.valid(arg)
    &&& p.node(arg) matches ExprType::Object(fs) && items_present(fs@, items) && (need_all ==> no_extra(fs@, items))
}

/// `s` are the variables that pattern `m` with field patterns `items` binds
/// on the fields `fs`: each name to its field's node or default, nodes of a
/// pool of `size` nodes.
pub open spec fn object_args(
    fs: Seq<(Seq<char>, Expr)>,
    items: Seq<(String, Matcher<Expr>, Option<Expr>)>,
    m: Matcher<Expr>,
    s: Seq<(Seq<char>, Expr)>,
    size: nat,
) -> bool {
    &&& items_bound(fs, items, s, items.len() as int)
    &&& forall|k: Seq<char>| #[trigger] has_key(s, k) <==> m.bound_names().contains(k)
    &&& set_ok(s, size)
}

/// Content `t` calls an evaluated function whose parameter is a plain name
/// or `_`, and whose body, seen with the bound variables, one more step
/// decides (as `operands_ready` says): for example a function that returns
/// its argument, a variable of its scope or a constant.
pub open spec fn call_ready(p: ExprPool, t: ExprType) -> bool {
    match t {
        ExprType::FuncCall(arg, func) => p.valid(arg) && p.valid(func) && (p.node(func) matches ExprType::FuncDef(m, body)
            && (m is Ident || m is DontCare || (m matches Matcher::Object(items, need_all) && object_call_ok(
            p,
            arg,
            items@,
            need_all,
        ))) && p.valid(body)) && forall|t2: ExprType| #[trigger] call_steps_to(
            p,
            arg,
            func,
            t2,
        ) ==> operands_ready(p, t2),
        _ => false,
    }
}

/// Content `t` is a `let` of statements that bind new plain names, around an
/// evaluated node.
pub open spec fn let_ready(p: ExprPool, t: ExprType) -> bool {
    match t {
        ExprType::Let(stmts, target) => simple_stmts(seq![], stmts@) && p.valid(target) && is_normal(p.node(target)),
        _ => false,
    }
}

/// What evaluating a `let` that `let_ready` accepts gives: the variables of
/// the statements, each bound to a new node with its expression, moved to
/// the parts of the evaluated target, as `bind_ready_outcome` says.
pub open spec fn let_result(p: ExprPool, q: ExprPool, t: ExprType, r: Result<ExprType, Error>) -> bool {
    match t {
        ExprType::Let(stmts, target) => exists|vars: Seq<(Seq<char>, Expr)>| #[trigger] let_vars(q, seq![], stmts@, vars)
            && bind_ready_outcome(p, q, vars, target, r),
        _ => false,
    }
}

/// Copies of simple `let` statements are simple and bind the same names to
/// the same expressions.
proof fn lemma_stmts_like(a: Seq<(Matcher<Expr>, Expr)>, b: Seq<(Matcher<Expr>, Expr)>, scope: Seq<(Seq<char>, Expr)>)
    requires
        crate::lang::expr::stmts_like(a, b),
        simple_stmts(scope, b),
    ensures
        simple_stmts(scope, a),
        forall|q: ExprPool, vars: Seq<(Seq<char>, Expr)>| #[trigger] let_vars(q, scope, a, vars) ==> let_vars(q, scope, b, vars),
{
    assert forall|i: int| 0 <= i < a.len() implies (#[trigger] a[i]).0 is Ident && stmt_name(a[i]) == stmt_name(b[i])
        && a[i].1 == b[i].1 by {
        assert(b[i].0 is Ident);
    }
    assert forall|i: int, j: int| 0 <= i < j < a.len() implies stmt_name(#[trigger] a[i]) != stmt_name(#[trigger] a[j]) by {
        assert(stmt_name(b[i]) != stmt_name(b[j]));
        assert(a[i].0 is Ident && stmt_name(a[i]) == stmt_name(b[i]));
        assert(a[j].0 is Ident && stmt_name(a[j]) == stmt_name(b[j]));
    }
    assert forall|i: int| 0 <= i < a.len() implies (#[trigger] a[i]).0 is Ident && !has_key(scope, stmt_name(a[i])) by {
        assert(b[i].0 is Ident && !has_key(scope, stmt_name(b[i])));
        assert(a[i].0 is Ident && stmt_name(a[i]) == stmt_name(b[i]));
    }
    assert forall|q: ExprPool, vars: Seq<(Seq<char>, Expr)>| #[trigger] let_vars(q, scope, a, vars) implies let_vars(q, scope, b, vars) by {
        assert forall|k: Seq<char>| #[trigger] has_key(vars, k) <==> (has_key(scope, k) || exists|i: int| 0 <= i < b.len()
            && stmt_name(b[i]) == k) by {
            if exists|i: int| 0 <= i < b.len() && stmt_name(b[i]) == k {
                let i = choose|i: int| 0 <= i < b.len() && stmt_name(b[i]) == k;
                assert(a[i].0 is Ident && stmt_name(a[i]) == stmt_name(b[i]));
            }
            if exists|i: int| 0 <= i < a.len() && stmt_name(a[i]) == k {
                let i = choose|i: int| 0 <= i < a.len() && stmt_name(a[i]) == k;
                assert(a[i].0 is Ident && stmt_name(a[i]) == stmt_name(b[i]));
            }
        }
        assert forall|i: int, bb: Expr| 0 <= i < b.len() && #[trigger] has_entry(vars, stmt_name(b[i]), bb) implies q.valid(bb)
            && (q.node(bb) matches ExprType::Bind(_, y) && y == b[i].1) by {
            assert(a[i].0 is Ident && stmt_name(a[i]) == stmt_name(b[i]) && a[i].1 == b[i].1);
            assert(has_entry(vars, stmt_name(a[i]), bb));
        }
    }
}

/// A step after which only new nodes are read decides alike whatever
/// happens afterwards to a node that was empty.
proof fn lemma_bind_q_transfer(p: ExprPool, q: ExprPool, q2: ExprPool, t: ExprType, e: Expr)
    requires
        t is Bind,
        operands_ready(p, t),
        q.valid(e),
        q.node(e) is Null,
        q2.size() == q.size(),
        forall|i: int| 0 <= i < q.size() && i != e.0 ==> #[trigger] q2.nodes()[i] == q.nodes()[i],
    ensures
        forall|r: Result<ExprType, Error>| #[trigger] ready_outcome(p, q, t, r) ==> ready_outcome(p, q2, t, r),
{
    let scope = t->Bind_0;
    let inner = t->Bind_1;
    assert forall|r: Result<ExprType, Error>| #[trigger] ready_outcome(p, q, t, r) implies ready_outcome(p, q2, t, r) by {
        match p.node(inner) {
            ExprType::Object(fs) => {
                let out = r->Ok_0->Object_0;
                assert forall|i: int| 0 <= i < fs@.len() implies (#[trigger] out@[i]).0 == fs@[i].0 && bound_in(
                    q2,
                    out@[i].1,
                    scope@,
                    fs@[i].1,
                ) by {
                    assert(bound_in(q, out@[i].1, scope@, fs@[i].1));
                    assert(q2.nodes()[out@[i].1.0 as int] == q.nodes()[out@[i].1.0 as int]);
                }
            },
            ExprType::List(xs) => {
                let ys = r->Ok_0->List_0;
                assert forall|i: int| 0 <= i < xs@.len() implies bound_in(q2, #[trigger] ys@[i], scope@, xs@[i]) by {
                    assert(bound_in(q, ys@[i], scope@, xs@[i]));
                    assert(q2.nodes()[ys@[i].0 as int] == q.nodes()[ys@[i].0 as int]);
                }
            },
            ExprType::Tuple(xs) => {
                let ys = r->Ok_0->Tuple_0;
                assert forall|i: int| 0 <= i < xs@.len() implies bound_in(q2, #[trigger] ys@[i], scope@, xs@[i]) by {
                    assert(bound_in(q, ys@[i], scope@, xs@[i]));
                    assert(q2.nodes()[ys@[i].0 as int] == q.nodes()[ys@[i].0 as int]);
                }
            },
            ExprType::FuncDef(m, body) => {
                let b = r->Ok_0->FuncDef_1;
                assert(q2.nodes()[b.0 as int] == q.nodes()[b.0 as int]);
            },
            _ => {},
        }
    }
}

/// What evaluating a call that `call_ready` accepts gives: what the one step
/// after the call gives on the content the call steps to.
pub open spec fn call_result(p: ExprPool, q: ExprPool, t: ExprType, r: Result<ExprType, Error>) -> bool {
    match t {
        ExprType::FuncCall(arg, func) => exists|t2: ExprType| #[trigger] call_steps_to(p, arg, func, t2) && ready_outcome(
            p,
            q,
            t2,
            r,
        ),
        _ => false,
    }
}

/// The step after a call decides alike in pools that differ only in the
/// node that holds the call, which is not evaluated before and empty after.
proof fn lemma_bind_transfer(p: ExprPool, p2: ExprPool, q: ExprPool, q2: ExprPool, t: ExprType, e: Expr)
    requires
        t is Bind,
        operands_ready(p, t),
        p.valid(e),
        p.node(e) is FuncCall,
        p2.size() == p.size(),
        forall|i: int| 0 <= i < p.size() && i != e.0 ==> #[trigger] p2.nodes()[i] == p.nodes()[i],
        q.valid(e),
        q.node(e) is Null,
        q2.size() == q.size(),
        forall|i: int| 0 <= i < q.size() && i != e.0 ==> #[trigger] q2.nodes()[i] == q.nodes()[i],
    ensures
        operands_ready(p2, t),
        forall|r: Result<ExprType, Error>| #[trigger] ready_outcome(p2, q, t, r) ==> ready_outcome(p, q2, t, r),
        forall|r: Result<ExprType, Error>| #[trigger] ready_outcome(p, q, t, r) ==> ready_outcome(p2, q, t, r),
{
    let scope = t->Bind_0;
    let inner = t->Bind_1;
    assert(p2.nodes()[inner.0 as int] == p.nodes()[inner.0 as int]);
    if p.node(inner) is Var {
        let name = p.node(inner)->Var_0;
        assert(p.node(inner) matches ExprType::Var(n2) ==> forall|x: Expr| #[trigger] has_entry(scope@, n2@, x)
            ==> p.valid(x) && is_normal(p.node(x)));
        assert forall|x: Expr| #[trigger] has_entry(scope@, name@, x) implies p2.valid(x) && is_normal(p2.node(x))
            && p2.node(x) == p.node(x) by {
            assert(p2.nodes()[x.0 as int] == p.nodes()[x.0 as int]);
        }
    }
    assert forall|r: Result<ExprType, Error>| #[trigger] ready_outcome(p2, q, t, r) implies ready_outcome(p, q2, t, r) by {
        match p.node(inner) {
            ExprType::Object(fs) => {
                let out = r->Ok_0->Object_0;
                assert forall|i: int| 0 <= i < fs@.len() implies (#[trigger] out@[i]).0 == fs@[i].0 && bound_in(
                    q2,
                    out@[i].1,
                    scope@,
                    fs@[i].1,
                ) by {
                    assert(bound_in(q, out@[i].1, scope@, fs@[i].1));
                    assert(q2.nodes()[out@[i].1.0 as int] == q.nodes()[out@[i].1.0 as int]);
                }
            },
            ExprType::List(xs) => {
                let ys = r->Ok_0->List_0;
                assert forall|i: int| 0 <= i < xs@.len() implies bound_in(q2, #[trigger] ys@[i], scope@, xs@[i]) by {
                    assert(bound_in(q, ys@[i], scope@, xs@[i]));
                    assert(q2.nodes()[ys@[i].0 as int] == q.nodes()[ys@[i].0 as int]);
                }
            },
            ExprType::Tuple(xs) => {
                let ys = r->Ok_0->Tuple_0;
                assert forall|i: int| 0 <= i < xs@.len() implies bound_in(q2, #[trigger] ys@[i], scope@, xs@[i]) by {
                    assert(bound_in(q, ys@[i], scope@, xs@[i]));
                    assert(q2.nodes()[ys@[i].0 as int] == q.nodes()[ys@[i].0 as int]);
                }
            },
            ExprType::FuncDef(m, body) => {
                let b = r->Ok_0->FuncDef_1;
                assert(q2.nodes()[b.0 as int] == q.nodes()[b.0 as int]);
            },
            ExprType::Var(name) => {
                if has_key(scope@, name@) {
                    let x = choose|x: Expr| #[trigger] has_entry(scope@, name@, x) && (r matches Ok(t2) && same_content(t2, p2.node(x)));
                    assert(has_entry(scope@, name@, x));
                }
            },
            _ => {},
        }
    }
    assert forall|r: Result<ExprType, Error>| #[trigger] ready_outcome(p, q, t, r) implies ready_outcome(p2, q, t, r) by {
        if p.node(inner) is Var {
            let name = p.node(inner)->Var_0;
            if has_key(scope@, name@) {
                let x = choose|x: Expr| #[trigger] has_entry(scope@, name@, x) && (r matches Ok(t2) && same_content(t2, p.node(x)));
                assert(has_entry(scope@, name@, x));
            }
        }
    }
}

/// One step decides a ready content alike in pools that differ only in the
/// node that holds it, which is not evaluated before and empty after.
proof fn lemma_ready_transfer(p: ExprPool, p2: ExprPool, q: ExprPool, q2: ExprPool, t: ExprType, e: Expr)
    requires
        operands_ready(p, t),
        p.valid(e),
        t == p.node(e),
        !is_normal(t),
        p2.size() == p.size(),
        forall|i: int| 0 <= i < p.size() && i != e.0 ==> #[trigger] p2.nodes()[i] == p.nodes()[i],
        q.valid(e),
        q.node(e) is Null,
        q2.size() == q.size(),
        forall|i: int| 0 <= i < q.size() && i != e.0 ==> #[trigger] q2.nodes()[i] == q.nodes()[i],
    ensures
        operands_ready(p2, t),
        forall|r: Result<ExprType, Error>| #[trigger] ready_outcome(p2, q, t, r) ==> ready_outcome(p, q2, t, r),
{
    match t {
        ExprType::UnOp(_, x) => {
            assert(p2.nodes()[x.0 as int] == p.nodes()[x.0 as int]);
        },
        ExprType::BinOp(_, a, b) => {
            assert(p2.nodes()[a.0 as int] == p.nodes()[a.0 as int]);
            assert(p2.nodes()[b.0 as int] == p.nodes()[b.0 as int]);
        },
        ExprType::AttrSel(v, name) => {
            assert(p2.nodes()[v.0 as int] == p.nodes()[v.0 as int]);
            if p.node(v) is Object {
                let fs = p.node(v)->Object_0;
                assert(p.node(v) matches ExprType::Object(fs2) ==> forall|g: Expr| #[trigger] has_entry(fs2@, name@, g)
                    ==> p.valid(g) && is_normal(p.node(g)));
                assert forall|g: Expr| #[trigger] has_entry(fs@, name@, g) implies p2.valid(g) && is_normal(p2.node(g))
                    && p2.node(g) == p.node(g) by {
                    assert(p2.nodes()[g.0 as int] == p.nodes()[g.0 as int]);
                }
                assert forall|r: Result<ExprType, Error>| #[trigger] ready_outcome(p2, q, t, r) implies ready_outcome(p, q2, t, r) by {
                    if has_key(fs@, name@) {
                        let g = choose|g: Expr| #[trigger] has_entry(fs@, name@, g) && (r matches Ok(t2) && same_content(t2, p2.node(g)));
                        assert(has_entry(fs@, name@, g));
                    }
                }
            }
        },
        ExprType::Bind(scope, inner) => {
            assert(p2.nodes()[inner.0 as int] == p.nodes()[inner.0 as int]);
            if p.node(inner) is Var {
                let name = p.node(inner)->Var_0;
                assert(p.node(inner) matches ExprType::Var(n2) ==> forall|x: Expr| #[trigger] has_entry(scope@, n2@, x)
                    ==> p.valid(x) && is_normal(p.node(x)));
                assert forall|x: Expr| #[trigger] has_entry(scope@, name@, x) implies p2.valid(x) && is_normal(p2.node(x))
                    && p2.node(x) == p.node(x) by {
                    assert(p2.nodes()[x.0 as int] == p.nodes()[x.0 as int]);
                }
            }
            assert forall|r: Result<ExprType, Error>| #[trigger] ready_outcome(p2, q, t, r) implies ready_outcome(p, q2, t, r) by {
                match p.node(inner) {
                    ExprType::Object(fs) => {
                        let out = r->Ok_0->Object_0;
                        assert forall|i: int| 0 <= i < fs@.len() implies (#[trigger] out@[i]).0 == fs@[i].0 && bound_in(
                            q2,
                            out@[i].1,
                            scope@,
                            fs@[i].1,
                        ) by {
                            assert(bound_in(q, out@[i].1, scope@, fs@[i].1));
                            assert(q2.nodes()[out@[i].1.0 as int] == q.nodes()[out@[i].1.0 as int]);
                        }
                    },
                    ExprType::List(xs) => {
                        let ys = r->Ok_0->List_0;
                        assert forall|i: int| 0 <= i < xs@.len() implies bound_in(q2, #[trigger] ys@[i], scope@, xs@[i]) by {
                            assert(bound_in(q, ys@[i], scope@, xs@[i]));
                            assert(q2.nodes()[ys@[i].0 as int] == q.nodes()[ys@[i].0 as int]);
                        }
                    },
                    ExprType::Tuple(xs) => {
                        let ys = r->Ok_0->Tuple_0;
                        assert forall|i: int| 0 <= i < xs@.len() implies bound_in(q2, #[trigger] ys@[i], scope@, xs@[i]) by {
                            assert(bound_in(q, ys@[i], scope@, xs@[i]));
                            assert(q2.nodes()[ys@[i].0 as int] == q.nodes()[ys@[i].0 as int]);
                        }
                    },
                    ExprType::FuncDef(m, body) => {
                        let b = r->Ok_0->FuncDef_1;
                        assert(q2.nodes()[b.0 as int] == q.nodes()[b.0 as int]);
                    },
                    ExprType::Var(name) => {
                        if has_key(scope@, name@) {
                            let x = choose|x: Expr| #[trigger] has_entry(scope@, name@, x) && (r matches Ok(t2) && same_content(t2, p2.node(x)));
                            assert(has_entry(scope@, name@, x));
                        }
                    },
                    _ => {},
                }
            }
        },
        ExprType::MapList(_, f, src) => {
            assert(p2.nodes()[src.0 as int] == p.nodes()[src.0 as int]);
            assert forall|r: Result<ExprType, Error>| #[trigger] ready_outcome(p2, q, t, r) implies ready_outcome(p, q2, t, r) by {
                match p.node(src) {
                    ExprType::List(xs) => {
                        let ys = r->Ok_0->List_0;
                        assert forall|i: int| 0 <= i < xs@.len() implies q2.valid(#[trigger] ys@[i]) && q2.node(ys@[i])
                            == ExprType::FuncCall(xs@[i], f) by {
                            assert(q2.nodes()[ys@[i].0 as int] == q.nodes()[ys@[i].0 as int]);
                        }
                    },
                    ExprType::Object(fs) => {
                        let ys = r->Ok_0->List_0;
                        assert forall|i: int| 0 <= i < fs@.len() implies q2.valid(#[trigger] ys@[i]) && is_pair_call(
                            q2,
                            ys@[i],
                            fs@[i],
                            f,
                        ) by {
                            assert(is_pair_call(q, ys@[i], fs@[i], f));
                            let c = ys@[i];
                            assert(q2.nodes()[c.0 as int] == q.nodes()[c.0 as int]);
                            let tt = q.node(c)->FuncCall_0;
                            assert(q2.nodes()[tt.0 as int] == q.nodes()[tt.0 as int]);
                            let k = q.node(tt)->Tuple_0@[0];
                            assert(q2.nodes()[k.0 as int] == q.nodes()[k.0 as int]);
                        }
                    },
                    _ => {},
                }
            }
        },
        _ => {},
    }
}

/// An error with a fixed message.
pub fn err_msg(typ: ErrorType, msg: &str) -> (res: Error)
    ensures
        res.typ == typ,
        res.msg@ == msg@,
{
    Error::new(typ, to_owned_string(msg))
}

/// An error whose message names something: `pre`, the name, `post`.
pub fn err_name(typ: ErrorType, pre: &str, name: &str, post: &str) -> (res: Error)
    ensures
        res.typ == typ,
        res.msg@ == pre@ + name@ + post@,
{
    let mut m = to_owned_string(pre);
    push_str(&mut m, name);
    push_str(&mut m, post);
    Error::new(typ, m)
}

proof fn lemma_set_ok_entries(s: Seq<(Seq<char>, Expr)>, t: Seq<(Seq<char>, Expr)>, n: nat, extra: Expr)
    requires
        set_ok(t, n),
        extra.0 < n,
        forall|k: Seq<char>, v: Expr| has_entry(s, k, v) ==> (v == extra || has_entry(t, k, v)),
    ensures
        set_ok(s, n),
{
    assert forall|i: int| 0 <= i < s.len() implies (#[trigger] s[i]).1.0 < n by {
        assert(has_entry(s, s[i].0, s[i].1));
        if s[i].1 != extra {
            let j = choose|j: int| 0 <= j < t.len() && t[j] == (s[i].0, s[i].1);
            assert(t[j].1.0 < n);
        }
    }
}

/// Adds or replaces `key` in a scope.
fn scope_upsert(scope: &mut ImMap<Expr>, key: &str, v: Expr)
    ensures
        forall|n: nat| set_ok(old(scope)@, n) && v.0 < n ==> #[trigger] set_ok(final(scope)@, n),
        forall|k: Seq<char>| #[trigger] has_key(final(scope)@, k) <==> (k == key@ || has_key(old(scope)@, k)),
        forall|k: Seq<char>, x: Expr|
            has_entry(final(scope)@, k, x) <==> ((k == key@ && x == v) || (k != key@
                && has_entry(old(scope)@, k, x))),
{
    scope.upsert(key, v);
    proof {
        assert forall|n: nat| set_ok(old(scope)@, n) && v.0 < n implies #[trigger] set_ok(scope@, n) by {
            lemma_set_ok_entries(scope@, old(scope)@, n, v);
        }
    }
}

/// Adds every entry of `src` to `dst`, replacing entries with the same key.
pub fn scope_merge(dst: &mut ImMap<Expr>, src: &ImMap<Expr>)
    ensures
        forall|n: nat| set_ok(old(dst)@, n) && set_ok(src@, n) ==> #[trigger] set_ok(final(dst)@, n),
        forall|k: Seq<char>| #[trigger] has_key(final(dst)@, k) <==> (has_key(src@, k) || has_key(old(dst)@, k)),
        forall|k: Seq<char>, v: Expr|
            #[trigger] has_entry(final(dst)@, k, v) <==> (has_entry(src@, k, v) || (!has_key(src@, k)
                && has_entry(old(dst)@, k, v))),
{
    let mut d: ImMap<Expr> = ImMap::new();
    std::mem::swap(&mut d, dst);
    *dst = d.merge(src);
    proof {
        assert forall|n: nat| set_ok(old(dst)@, n) && set_ok(src@, n) implies #[trigger] set_ok(dst@, n) by {
            assert forall|i: int| 0 <= i < dst@.len() implies (#[trigger] dst@[i]).1.0 < n by {
                let (k, v) = dst@[i];
                assert(has_entry(dst@, k, v));
                if has_entry(src@, k, v) {
                    let j = choose|j: int| 0 <= j < src@.len() && src@[j] == (k, v);
                    assert(src@[j].1.0 < n);
                } else {
                    let j = choose|j: int| 0 <= j < old(dst)@.len() && old(dst)@[j] == (k, v);
                    assert(old(dst)@[j].1.0 < n);
                }
            }
        }
    }
}

/// A scope without the given names.
fn scope_without(scope: &ImMap<Expr>, names: &Vec<String>) -> (res: ImMap<Expr>)
    ensures
        forall|n: nat| set_ok(scope@, n) ==> #[trigger] set_ok(res@, n),
        forall|k: Seq<char>, v: Expr|
            has_entry(res@, k, v) <==> (!strings_view(names@).contains(k) && has_entry(scope@, k, v)),
{
    let mut out = scope.copy();
    let mut i: usize = 0;
    while i < names.len()
        invariant
            i <= names@.len(),
            forall|n: nat| set_ok(scope@, n) ==> #[trigger] set_ok(out@, n),
            forall|k: Seq<char>, v: Expr|
                has_entry(out@, k, v) <==> (!strings_view(names@.take(i as int)).contains(k)
                    && has_entry(scope@, k, v)),
        decreases names@.len() - i,
    {
        let ghost before = out@;
        out.unset_mut(names[i].as_str());
        proof {
            assert(names@.take(i + 1) =~= names@.take(i as int).push(names@[i as int]));
            crate::path::lemma_strings_view_push(names@.take(i as int), names@[i as int]);
            let sv0 = strings_view(names@.take(i as int));
            let sv1 = strings_view(names@.take(i + 1));
            assert forall|k: Seq<char>| sv1.contains(k) <==> (sv0.contains(k) || k == names@[i as int]@) by {
                if sv1.contains(k) {
                    let j = choose|j: int| 0 <= j < sv1.len() && sv1[j] == k;
                    if j < sv0.len() {
                        assert(sv0[j] == k);
                    }
                }
                if sv0.contains(k) {
                    let j = choose|j: int| 0 <= j < sv0.len() && sv0[j] == k;
                    assert(sv1[j] == k);
                }
                if k == names@[i as int]@ {
                    assert(sv1[sv0.len() as int] == k);
                }
            }
            assert forall|n: nat| set_ok(scope@, n) implies #[trigger] set_ok(out@, n) by {
                assert(set_ok(before, n));
                assert forall|j: int| 0 <= j < out@.len() implies (#[trigger] out@[j]).1.0 < n by {
                    assert(has_entry(out@, out@[j].0, out@[j].1));
                    let q = choose|q: int| 0 <= q < before.len() && before[q] == (out@[j].0, out@[j].1);
                    assert(before[q].1.0 < n);
                }
            }
        }
        i = i + 1;
    }
    assert(names@.take(names@.len() as int) =~= names@);
    out
}

impl<E> Matcher<E> {
    /// Appends the names that matching binds.
    pub fn collect_names(&self, out: &mut Vec<String>)
        ensures
            strings_view(final(out)@) == strings_view(old(out)@) + self.bound_names(),
        decreases self,
    {
        match self {
            Matcher::Alias(b, name) => {
                b.collect_names(out);
                let ghost mid = out@;
                out.push(name.clone());
                proof {
                    crate::path::lemma_strings_view_push(mid, *name);
                    assert(strings_view(out@) =~= strings_view(old(out)@) + self.bound_names());
                }
            },
            Matcher::DontCare => {
                assert(strings_view(out@) =~= strings_view(old(out)@) + self.bound_names());
            },
            Matcher::Ident(name) => {
                out.push(name.clone());
                proof {
                    crate::path::lemma_strings_view_push(old(out)@, *name);
                    assert(strings_view(out@) =~= strings_view(old(out)@) + self.bound_names());
                }
            },
            Matcher::Tuple(ms) => {
                let mut i: usize = 0;
                while i < ms.len()
                    invariant
                        i <= ms@.len(),
                        *self == Matcher::Tuple(*ms),
                        strings_view(out@) == strings_view(old(out)@) + crate::lang::expr::names_seq(ms@.take(i as int)),
                    decreases ms.len() - i,
                {
                    assert(decreases_to!(*self => ms@[i as int])) by {
                        assert(decreases_to!(*self => self->Tuple_0));
                        assert(decreases_to!(self->Tuple_0 => self->Tuple_0@));
                    }
                    ms[i].collect_names(out);
                    proof {
                        assert(ms@.take(i + 1).drop_last() =~= ms@.take(i as int));
                        assert(strings_view(out@) =~= strings_view(old(out)@) + crate::lang::expr::names_seq(ms@.take(i + 1)));
                    }
                    i = i + 1;
                }
                assert(ms@.take(ms@.len() as int) =~= ms@);
            },
            Matcher::Object(items, _) => {
                let mut i: usize = 0;
                while i < items.len()
                    invariant
                        i <= items@.len(),
                        *self == Matcher::Object(*items, self->Object_1),
                        strings_view(out@) == strings_view(old(out)@) + crate::lang::expr::names_items(items@.take(i as int)),
                    decreases items.len() - i,
                {
                    assert(decreases_to!(*self => items@[i as int].1)) by {
                        assert(decreases_to!(*self => self->Object_0));
                        assert(decreases_to!(self->Object_0 => self->Object_0@));
                        assert(decreases_to!(self->Object_0@ => self->Object_0@[i as int]));
                    }
                    items[i].1.collect_names(out);
                    proof {
                        assert(items@.take(i + 1).drop_last() =~= items@.take(i as int));
                        assert(strings_view(out@) =~= strings_view(old(out)@) + crate::lang::expr::names_items(items@.take(i + 1)));
                    }
                    i = i + 1;
                }
                assert(items@.take(items@.len() as int) =~= items@);
            },
        }
    }
}


/// Evaluation steps that one node may take before evaluation gives up.
pub const STEP_LIMIT: u64 = 1000000;

fn too_deep() -> (res: Error)
    ensures
        res.typ == ErrorType::Eval,
{
    err_msg(ErrorType::Eval, "Evaluation nested too deeply")
}

/// Whether the content is left as it is by evaluation.
pub fn is_normal_tok(t: &ExprType) -> (res: bool)
    ensures
        res == is_normal(*t),
{
    match t {
        ExprType::Object(_) | ExprType::List(_) | ExprType::Tuple(_) | ExprType::Value(_)
        | ExprType::FuncDef(_, _) | ExprType::FuncDefBuiltin(_) => true,
        _ => false,
    }
}

/// A scope valid below `n` is valid below any larger bound.
pub proof fn lemma_set_ok_mono(s: Seq<(Seq<char>, Expr)>, n: nat, k: nat)
    requires
        set_ok(s, n),
        n <= k,
    ensures
        set_ok(s, k),
{
}

/// A new node: `x` seen with the variables of `scope`.
fn bind_one(pool: &mut ExprPool, scope: &ImMap<Expr>, x: Expr) -> (res: Expr)
    requires
        old(pool).wf(),
        old(pool).valid(x),
        set_ok(scope@, old(pool).size()),
    ensures
        grown(*final(pool), *old(pool)),
        only_pushed(*final(pool), *old(pool)),
        final(pool).size() == old(pool).size() + 1,
        final(pool).valid(res),
        res.0 == old(pool).size(),
        bound_in(*final(pool), res, scope@, x),
{
    pool.push(ExprType::Bind(scope.copy(), x), None)
}

/// New nodes: each of `items` seen with the variables of `scope`.
#[verifier::loop_isolation(false)]
fn bind_all(pool: &mut ExprPool, scope: &ImMap<Expr>, items: &Vec<Expr>) -> (res: Vec<Expr>)
    requires
        old(pool).wf(),
        vec_ok(items@, old(pool).size()),
        set_ok(scope@, old(pool).size()),
    ensures
        grown(*final(pool), *old(pool)),
        only_pushed(*final(pool), *old(pool)),
        res@.len() == items@.len(),
        vec_ok(res@, final(pool).size()),
        forall|i: int| 0 <= i < items@.len() ==> #[trigger] bound_in(*final(pool), res@[i], scope@, items@[i]),
{
    let ghost p0 = *pool;
    let mut out: Vec<Expr> = Vec::new();
    let mut i: usize = 0;
    while i < items.len()
        invariant
            i <= items@.len(),
            grown(*pool, p0),
            p0.wf(),
            vec_ok(items@, p0.size()),
            set_ok(scope@, p0.size()),
            out@.len() == i,
            vec_ok(out@, pool.size()),
            only_pushed(*pool, p0),
            forall|j: int| 0 <= j < i ==> #[trigger] bound_in(*pool, out@[j], scope@, items@[j]),
        decreases items.len() - i,
    {
        let ghost before = *pool;
        assert(items@[i as int].0 < p0.size());
        let b = bind_one(pool, scope, items[i]);
        proof {
            assert forall|j: int| 0 <= j < i implies #[trigger] bound_in(*pool, out@[j], scope@, items@[j]) by {
                assert(bound_in(before, out@[j], scope@, items@[j]));
                assert(pool.nodes()[out@[j].0 as int] == before.nodes()[out@[j].0 as int]);
            }
        }
        proof {
            lemma_extends_trans(*pool, before, p0);
        }
        out.push(b);
        i = i + 1;
    }
    out
}

/// The pattern with each default made to see the variables of `scope`.
#[verifier::loop_isolation(false)]
fn bind_matcher(pool: &mut ExprPool, m: &Matcher<Expr>, scope: &ImMap<Expr>) -> (res: Matcher<Expr>)
    requires
        old(pool).wf(),
        matcher_ok(*m, old(pool).size()),
        set_ok(scope@, old(pool).size()),
    ensures
        grown(*final(pool), *old(pool)),
        only_pushed(*final(pool), *old(pool)),
        matcher_ok(res, final(pool).size()),
        res.bound_names() == m.bound_names(),
        (m is Ident || m is DontCare) ==> matcher_like(res, *m),
        (m is Ident || m is DontCare) ==> *final(pool) == *old(pool),
    decreases m,
{
    let ghost p0 = *pool;
    match m {
        Matcher::Alias(b, name) => {
            let inner = bind_matcher(pool, b, scope);
            Matcher::Alias(Box::new(inner), name.clone())
        },
        Matcher::DontCare => Matcher::DontCare,
        Matcher::Ident(name) => Matcher::Ident(name.clone()),
        Matcher::Tuple(ms) => {
            proof { lemma_matchers_ok_iff(ms@, p0.size()); }
            let mut out: Vec<Matcher<Expr>> = Vec::new();
            let mut i: usize = 0;
            while i < ms.len()
                invariant
                    i <= ms@.len(),
                    *m == Matcher::Tuple(*ms),
                    grown(*pool, p0),
                    p0.wf(),
                    set_ok(scope@, p0.size()),
                    forall|j: int| 0 <= j < ms@.len() ==> matcher_ok(#[trigger] ms@[j], p0.size()),
                    out@.len() == i,
                    forall|j: int| 0 <= j < i ==> matcher_ok(#[trigger] out@[j], pool.size()),
                    forall|j: int| 0 <= j < i ==> (#[trigger] out@[j]).bound_names() == ms@[j].bound_names(),
                    only_pushed(*pool, p0),
                decreases ms.len() - i,
            {
                assert(decreases_to!(*m => ms@[i as int])) by {
                    assert(decreases_to!(*m => m->Tuple_0));
                    assert(decreases_to!(m->Tuple_0 => m->Tuple_0@));
                }
                let ghost before = *pool;
                proof {
                    lemma_matcher_ok_mono(ms@[i as int], p0.size(), pool.size());
                    lemma_set_ok_mono(scope@, p0.size(), pool.size());
                }
                let x = bind_matcher(pool, &ms[i], scope);
                proof {
                    lemma_extends_trans(*pool, before, p0);
                    assert forall|j: int| 0 <= j < i implies matcher_ok(#[trigger] out@[j], pool.size()) by {
                        lemma_matcher_ok_mono(out@[j], before.size(), pool.size());
                    }
                }
                out.push(x);
                i = i + 1;
            }
            let res = Matcher::Tuple(out);
            proof {
                lemma_matchers_ok_iff(out@, pool.size());
                crate::lang::expr::lemma_names_seq_same(out@, ms@);
            }
            res
        },
        Matcher::Object(items, need_all) => {
            proof { lemma_items_ok_iff(items@, p0.size()); }
            let mut out: Vec<(String, Matcher<Expr>, Option<Expr>)> = Vec::new();
            let mut i: usize = 0;
            while i < items.len()
                invariant
                    i <= items@.len(),
                    *m == Matcher::Object(*items, *need_all),
                    grown(*pool, p0),
                    p0.wf(),
                    set_ok(scope@, p0.size()),
                    forall|j: int| 0 <= j < items@.len() ==> matcher_ok((#[trigger] items@[j]).1, p0.size()) && opt_ok(items@[j].2, p0.size()),
                    out@.len() == i,
                    forall|j: int| 0 <= j < i ==> matcher_ok((#[trigger] out@[j]).1, pool.size()) && opt_ok(out@[j].2, pool.size()),
                    forall|j: int| 0 <= j < i ==> (#[trigger] out@[j]).1.bound_names() == items@[j].1.bound_names(),
                    forall|j: int| 0 <= j < i ==> (#[trigger] out@[j]).0@ == items@[j].0@,
                    only_pushed(*pool, p0),
                decreases items.len() - i,
            {
                assert(decreases_to!(*m => items@[i as int].1)) by {
                    assert(decreases_to!(*m => m->Object_0));
                    assert(decreases_to!(m->Object_0 => m->Object_0@));
                    assert(decreases_to!(m->Object_0@ => m->Object_0@[i as int]));
                }
                let ghost before = *pool;
                proof {
                    lemma_matcher_ok_mono(items@[i as int].1, p0.size(), pool.size());
                    lemma_set_ok_mono(scope@, p0.size(), pool.size());
                }
                let x = bind_matcher(pool, &items[i].1, scope);
                let ghost mid = *pool;
                let d = match items[i].2 {
                    Some(dv) => Some(bind_one(pool, scope, dv)),
                    None => None,
                };
                proof {
                    lemma_extends_trans(*pool, mid, before);
                    lemma_extends_trans(*pool, before, p0);
                    lemma_matcher_ok_mono(x, mid.size(), pool.size());
                    assert forall|j: int| 0 <= j < i implies matcher_ok((#[trigger] out@[j]).1, pool.size()) && opt_ok(out@[j].2, pool.size()) by {
                        lemma_matcher_ok_mono(out@[j].1, before.size(), pool.size());
                    }
                }
                out.push((items[i].0.clone(), x, d));
                i = i + 1;
            }
            let res = Matcher::Object(out, *need_all);
            proof {
                lemma_items_ok_iff(out@, pool.size());
                crate::lang::expr::lemma_names_items_same(out@, items@);
            }
            res
        },
    }
}


/// An element of a concatenation is in one of the parts.
pub proof fn lemma_concat_contains<A>(a: Seq<A>, b: Seq<A>, x: A)
    ensures
        (a + b).contains(x) <==> (a.contains(x) || b.contains(x)),
{
    if (a + b).contains(x) {
        let i = choose|i: int| 0 <= i < (a + b).len() && (a + b)[i] == x;
        if i < a.len() {
            assert(a[i] == x);
        } else {
            assert(b[i - a.len()] == x);
        }
    }
    if a.contains(x) {
        let i = choose|i: int| 0 <= i < a.len() && a[i] == x;
        assert((a + b)[i] == x);
    }
    if b.contains(x) {
        let i = choose|i: int| 0 <= i < b.len() && b[i] == x;
        assert((a + b)[a.len() + i] == x);
    }
}

/// The name that a plain-name pattern binds.
pub open spec fn ident_name(m: Matcher<Expr>) -> Seq<char> {
    m->Ident_0@
}

/// Each field pattern binds a plain name; no two bind the same name or read
/// the same field.
pub open spec fn plain_items(items: Seq<(String, Matcher<Expr>, Option<Expr>)>) -> bool {
    &&& forall|i: int| 0 <= i < items.len() ==> (#[trigger] items[i]).1 is Ident
    &&& forall|i: int, j: int| 0 <= i < j < items.len() ==> ident_name((#[trigger] items[i]).1) != ident_name(
        (#[trigger] items[j]).1,
    ) && items[i].0@ != items[j].0@
}

/// Node `x` is what field pattern `item` takes from the fields `fs`: the
/// field's node when there is such a field, else the default.
pub open spec fn item_node(fs: Seq<(Seq<char>, Expr)>, item: (String, Matcher<Expr>, Option<Expr>), x: Expr) -> bool {
    has_entry(fs, item.0@, x) || (!has_key(fs, item.0@) && item.2 == Some(x))
}

/// Every field pattern without a default has its field in `fs`.
pub open spec fn items_present(fs: Seq<(Seq<char>, Expr)>, items: Seq<(String, Matcher<Expr>, Option<Expr>)>) -> bool {
    forall|i: int| 0 <= i < items.len() && (#[trigger] items[i]).2 is None ==> has_key(fs, items[i].0@)
}

/// Every field of `fs` is read by a field pattern.
pub open spec fn no_extra(fs: Seq<(Seq<char>, Expr)>, items: Seq<(String, Matcher<Expr>, Option<Expr>)>) -> bool {
    forall|k: Seq<char>| #[trigger] has_key(fs, k) ==> exists|i: int| 0 <= i < items.len() && items[i].0@ == k
}

/// Field pattern `i` is the first whose field is missing and that has no
/// default.
pub open spec fn first_missing(fs: Seq<(Seq<char>, Expr)>, items: Seq<(String, Matcher<Expr>, Option<Expr>)>, i: int) -> bool {
    &&& 0 <= i < items.len()
    &&& items[i].2 is None && !has_key(fs, items[i].0@)
    &&& forall|j: int| 0 <= j < i && (#[trigger] items[j]).2 is None ==> has_key(fs, items[j].0@)
}

/// What matching an evaluated object with fields `fs` against the pattern
/// `{ items }` gives, where each field pattern binds a plain name: each name
/// bound to its field's node or default; a missing field without default is
/// an error naming the first such field, and, where the pattern takes no
/// other fields, an extra field is an error.
pub open spec fn object_match_outcome(
    fs: Seq<(Seq<char>, Expr)>,
    items: Seq<(String, Matcher<Expr>, Option<Expr>)>,
    need_all: bool,
    r: Result<ImMap<Expr>, Error>,
) -> bool {
    if !items_present(fs, items) {
        r matches Err(e) && e.typ == ErrorType::NoValue && exists|i: int| #[trigger] first_missing(fs, items, i) && e.msg@
            == "Expected field '"@ + items[i].0@ + "' not found"@
    } else if need_all && !no_extra(fs, items) {
        r matches Err(e) && e.typ == ErrorType::NoValue && e.msg@ == "Extra fields passed to function"@
    } else {
        r matches Ok(s) && items_bound(fs, items, s@, items.len() as int)
    }
}

/// Each of the first `n` field patterns binds its name in `s` to what it
/// takes from the fields `fs`.
pub open spec fn items_bound(
    fs: Seq<(Seq<char>, Expr)>,
    items: Seq<(String, Matcher<Expr>, Option<Expr>)>,
    s: Seq<(Seq<char>, Expr)>,
    n: int,
) -> bool {
    forall|i: int| 0 <= i < n ==> item_bound(fs, #[trigger] items[i], s)
}

/// Field pattern `item` binds its name in `s` to what it takes from the
/// fields `fs`.
pub open spec fn item_bound(fs: Seq<(Seq<char>, Expr)>, item: (String, Matcher<Expr>, Option<Expr>), s: Seq<(Seq<char>, Expr)>) -> bool {
    exists|x: Expr| #[trigger] item_node(fs, item, x) && has_entry(s, ident_name(item.1), x)
}

/// Each pattern of `ms` binds a plain name, no two the same.
pub open spec fn plain_matchers(ms: Seq<Matcher<Expr>>) -> bool {
    &&& forall|i: int| 0 <= i < ms.len() ==> (#[trigger] ms[i]) is Ident
    &&& forall|i: int, j: int| 0 <= i < j < ms.len() ==> ident_name(#[trigger] ms[i]) != ident_name(#[trigger] ms[j])
}

/// Each of the first `n` patterns of `ms` binds its name in `s` to the item
/// of `xs` at the same place.
pub open spec fn tuple_bound(ms: Seq<Matcher<Expr>>, xs: Seq<Expr>, s: Seq<(Seq<char>, Expr)>, n: int) -> bool {
    forall|i: int| 0 <= i < n ==> has_entry(s, ident_name(#[trigger] ms[i]), xs[i])
}

/// Matches `e` against the pattern: the variables it binds, each to a node.
#[verifier::loop_isolation(false)]
pub fn run_matcher<H: ExprBuiltin>(
    pool: &mut ExprPool,
    host: &mut H,
    m: &Matcher<Expr>,
    e: Expr,
    fuel: u64,
) -> (res: Result<ImMap<Expr>, Error>)
    requires
        old(pool).wf(),
        old(pool).valid(e),
        matcher_ok(*m, old(pool).size()),
    ensures
        grown(*final(pool), *old(pool)),
        res matches Ok(s) ==> set_ok(s@, final(pool).size()),
        res matches Ok(s) ==> forall|k: Seq<char>| #[trigger] has_key(s@, k) <==> m.bound_names().contains(k),
        fuel > 0 ==> (m matches Matcher::Ident(name) ==> (res matches Ok(s) && s@ == seq![(name@, e)])),
        fuel > 0 ==> (m is DontCare ==> (res matches Ok(s) && s@.len() == 0)),
        fuel > 0 && (m is Ident || m is DontCare) ==> *final(pool) == *old(pool),
        m matches Matcher::Alias(_, name) ==> (res matches Ok(s) ==> has_entry(s@, name@, e)),
        m matches Matcher::Tuple(ms) ==> (res is Ok ==> (final(pool).node(e) matches ExprType::Tuple(xs)
            && xs@.len() == ms@.len())),
        m matches Matcher::Object(items, need_all) ==> (res is Ok ==> (final(pool).node(e) matches ExprType::Object(fs)
            && (forall|i: int| 0 <= i < items@.len() && (#[trigger] items@[i]).2 is None ==> has_key(fs@, items@[i].0@))
            && (*need_all ==> forall|k: Seq<char>| #[trigger] has_key(fs@, k) ==> exists|i: int| 0 <= i < items@.len()
            && items@[i].0@ == k))),
        fuel > 1 && (m matches Matcher::Object(items, need_all) && plain_items(items@) && old(pool).node(e) matches ExprType::Object(
            fs,
        )) ==> object_match_outcome(old(pool).node(e)->Object_0@, m->Object_0@, m->Object_1, res) && *final(pool)
            == *old(pool),
        fuel > 1 && (m matches Matcher::Tuple(ms) && plain_matchers(ms@) && old(pool).node(e) matches ExprType::Tuple(xs)) ==> (
        if old(pool).node(e)->Tuple_0@.len() == m->Tuple_0@.len() {
            res matches Ok(s) && tuple_bound(m->Tuple_0@, old(pool).node(e)->Tuple_0@, s@, m->Tuple_0@.len() as int)
        } else {
            res matches Err(er) && er.typ == ErrorType::Type
        }),
    decreases fuel,
{
    if fuel == 0 {
        return Err(too_deep());
    }
    let ghost p0 = *pool;
    match m {
        Matcher::Alias(b, name) => {
            let mut out = run_matcher(pool, host, b, e, fuel - 1)?;
            let ghost o0 = out@;
            scope_upsert(&mut out, name.as_str(), e);
            proof {
                assert forall|k: Seq<char>| #[trigger] has_key(out@, k) <==> m.bound_names().contains(k) by {
                    lemma_concat_contains(b.bound_names(), seq![name@], k);
                    assert(b.bound_names().push(name@) =~= b.bound_names() + seq![name@]);
                    assert(seq![name@].contains(k) <==> k == name@) by {
                        if k == name@ {
                            assert(seq![name@][0] == k);
                        }
                    }
                    assert(has_key(o0, k) <==> b.bound_names().contains(k));
                }
            }
            Ok(out)
        },
        Matcher::DontCare => {
            let out = ImMap::new();
            proof {
                assert forall|k: Seq<char>| #[trigger] has_key(out@, k) <==> m.bound_names().contains(k) by {
                    assert(m.bound_names() =~= Seq::<Seq<char>>::empty());
                }
            }
            Ok(out)
        },
        Matcher::Ident(name) => {
            let out = ImMap::single(name.as_str(), e);
            proof {
                assert forall|k: Seq<char>| #[trigger] has_key(out@, k) <==> m.bound_names().contains(k) by {
                    if k == name@ {
                        assert(out@[0].0 == k);
                        assert(m.bound_names()[0] == k);
                    }
                    if m.bound_names().contains(k) {
                        let j = choose|j: int| 0 <= j < m.bound_names().len() && m.bound_names()[j] == k;
                        assert(j == 0);
                    }
                }
            }
            Ok(out)
        },
        Matcher::Tuple(ms) => {
            resolve(pool, host, e, fuel - 1)?;
            let items = match pool.tok(e) {
                ExprType::Tuple(v) => copy_exprs(v),
                _ => {
                    return Err(err_msg(ErrorType::Type, "Expected tuple"));
                },
            };
            if items.len() != ms.len() {
                let n = u64_to_string(ms.len() as u64);
                return Err(err_name(ErrorType::Type, "Expected tuple of length ", n.as_str(), ""));
            }
            proof {
                lemma_matchers_ok_iff(ms@, p0.size());
                assert(tok_ok(pool.node(e), pool.size()));
            }
            let ghost p1 = *pool;
            let ghost n1 = pool.node(e);
            let ghost ready = fuel > 1 && plain_matchers(ms@) && p0.node(e) is Tuple;
            proof {
                if ready {
                    assert(p1 == p0);
                    assert(items@ == p0.node(e)->Tuple_0@);
                }
            }
            let mut out: ImMap<Expr> = ImMap::new();
            let mut i: usize = 0;
            proof { assert(ms@.take(0) =~= Seq::<Matcher<Expr>>::empty()); }
            while i < items.len()
                invariant
                    i <= items@.len(),
                    items@.len() == ms@.len(),
                    grown(*pool, p0),
                    p1.wf(),
                    p1.size() >= p0.size(),
                    vec_ok(items@, p1.size()),
                    pool.size() >= p1.size(),
                    forall|j: int| 0 <= j < ms@.len() ==> matcher_ok(#[trigger] ms@[j], p0.size()),
                    set_ok(out@, pool.size()),
                    forall|k: Seq<char>| #[trigger] has_key(out@, k) <==> crate::lang::expr::names_seq(ms@.take(i as int)).contains(k),
                    pool.valid(e),
                    pool.node(e) == n1,
                    is_normal(n1),
                    ready ==> *pool == p0 && tuple_bound(ms@, items@, out@, i as int),
                decreases items.len() - i,
            {
                let ghost before = *pool;
                proof { lemma_matcher_ok_mono(ms@[i as int], p0.size(), pool.size()); }
                let sub = run_matcher(pool, host, &ms[i], items[i], fuel - 1)?;
                proof {
                    lemma_normal_kept(*pool, before, e);
                    lemma_extends_trans(*pool, before, p0);
                    lemma_set_ok_mono(out@, before.size(), pool.size());
                }
                let ghost o0 = out@;
                scope_merge(&mut out, &sub);
                proof {
                    if ready {
                        assert(ms@[i as int] is Ident);
                        assert(sub@ == seq![(ident_name(ms@[i as int]), items@[i as int])]);
                        assert(sub@[0] == (ident_name(ms@[i as int]), items@[i as int]));
                        assert(has_entry(sub@, ident_name(ms@[i as int]), items@[i as int]));
                        assert forall|j: int| 0 <= j < i + 1 implies has_entry(out@, ident_name(#[trigger] ms@[j]), items@[j]) by {
                            if j < i {
                                assert(has_entry(o0, ident_name(ms@[j]), items@[j]));
                                assert(ident_name(ms@[j]) != ident_name(ms@[i as int]));
                                assert(!has_key(sub@, ident_name(ms@[j]))) by {
                                    if has_key(sub@, ident_name(ms@[j])) {
                                        let q = choose|q: int| 0 <= q < sub@.len() && #[trigger] sub@[q].0 == ident_name(ms@[j]);
                                        assert(sub@[q] == sub@[0]);
                                    }
                                }
                            }
                        }
                    }
                    assert(ms@.take(i + 1).drop_last() =~= ms@.take(i as int));
                    assert forall|k: Seq<char>| #[trigger] has_key(out@, k) <==> crate::lang::expr::names_seq(ms@.take(i + 1)).contains(k) by {
                        lemma_concat_contains(crate::lang::expr::names_seq(ms@.take(i as int)), ms@[i as int].bound_names(), k);
                        assert(has_key(o0, k) <==> crate::lang::expr::names_seq(ms@.take(i as int)).contains(k));
                        assert(has_key(sub@, k) <==> ms@[i as int].bound_names().contains(k));
                    }
                }
                i = i + 1;
            }
            proof { assert(ms@.take(ms@.len() as int) =~= ms@); }
            Ok(out)
        },
        Matcher::Object(items, need_all) => {
            resolve(pool, host, e, fuel - 1)?;
            let mut input = match pool.tok(e) {
                ExprType::Object(f) => f.copy(),
                _ => {
                    return Err(err_msg(ErrorType::Type, "Expected object"));
                },
            };
            proof {
                lemma_items_ok_iff(items@, p0.size());
                assert(tok_ok(pool.node(e), pool.size()));
            }
            let ghost p1 = *pool;
            let ghost n1 = pool.node(e);
            let ghost fs = input@;
            let ghost ready = fuel > 1 && plain_items(items@) && p0.node(e) is Object;
            proof {
                if ready {
                    assert(p1 == p0);
                }
            }
            let mut out: ImMap<Expr> = ImMap::new();
            let mut i: usize = 0;
            proof { assert(items@.take(0) =~= Seq::<(String, Matcher<Expr>, Option<Expr>)>::empty()); }
            while i < items.len()
                invariant
                    i <= items@.len(),
                    grown(*pool, p0),
                    pool.size() >= p1.size(),
                    p1.size() >= p0.size(),
                    set_ok(input@, p1.size()),
                    forall|j: int| 0 <= j < items@.len() ==> matcher_ok((#[trigger] items@[j]).1, p0.size()) && opt_ok(items@[j].2, p0.size()),
                    set_ok(out@, pool.size()),
                    forall|k: Seq<char>| #[trigger] has_key(out@, k) <==> crate::lang::expr::names_items(items@.take(i as int)).contains(k),
                    pool.valid(e),
                    pool.node(e) == n1,
                    is_normal(n1),
                    n1 matches ExprType::Object(f1) && f1@ == fs,
                    forall|j: int| 0 <= j < i && (#[trigger] items@[j]).2 is None ==> has_key(fs, items@[j].0@),
                    forall|k: Seq<char>| #[trigger] has_key(input@, k) ==> has_key(fs, k),
                    forall|k: Seq<char>| has_key(fs, k) ==> #[trigger] has_key(input@, k) || exists|j: int| 0 <= j < i
                        && items@[j].0@ == k,
                    ready ==> *pool == p0,
                    ready ==> forall|k: Seq<char>, x: Expr| #[trigger] has_entry(input@, k, x) <==> (has_entry(fs, k, x)
                        && forall|j: int| 0 <= j < i ==> items@[j].0@ != k),
                    ready ==> items_bound(fs, items@, out@, i as int),
                decreases items.len() - i,
            {
                let name = &items[i].0;
                let v = match input.get(name.as_str()) {
                    Some(x) => *x,
                    None => match items[i].2 {
                        Some(d) => d,
                        None => {
                            proof {
                                if ready {
                                    assert(!has_key(fs, name@)) by {
                                        if has_key(fs, name@) {
                                            lemma_key_iff_entry(fs, name@);
                                            let x = choose|x: Expr| #[trigger] has_entry(fs, name@, x);
                                            assert forall|j: int| 0 <= j < i implies items@[j].0@ != name@ by {
                                                assert(items@[j].0@ != items@[i as int].0@);
                                            }
                                            assert(has_entry(input@, name@, x));
                                            lemma_key_iff_entry(input@, name@);
                                        }
                                    }
                                    assert(first_missing(fs, items@, i as int));
                                    assert(!items_present(fs, items@));
                                }
                            }
                            return Err(err_name(ErrorType::NoValue, "Expected field '", name.as_str(), "' not found"));
                        },
                    },
                };
                proof {
                    if ready {
                        assert(item_node(fs, items@[i as int], v)) by {
                            if has_entry(input@, name@, v) {
                            } else {
                                if has_key(fs, name@) {
                                    lemma_key_iff_entry(fs, name@);
                                    let x = choose|x: Expr| #[trigger] has_entry(fs, name@, x);
                                    assert forall|j: int| 0 <= j < i implies items@[j].0@ != name@ by {
                                        assert(items@[j].0@ != items@[i as int].0@);
                                    }
                                    assert(has_entry(input@, name@, x));
                                    lemma_key_iff_entry(input@, name@);
                                }
                            }
                        }
                    }
                }
                proof {
                    if has_entry(input@, name@, v) {
                        let q = choose|q: int| 0 <= q < input@.len() && input@[q] == (name@, v);
                        assert(input@[q].1.0 < p1.size());
                    }
                }
                let ghost in0 = input@;
                input.unset_mut(name.as_str());
                proof {
                    assert forall|k: Seq<char>| #[trigger] has_key(input@, k) implies has_key(fs, k) by {
                        lemma_key_iff_entry(input@, k);
                        lemma_key_iff_entry(in0, k);
                    }
                    assert forall|k: Seq<char>| has_key(fs, k) implies #[trigger] has_key(input@, k) || exists|j: int|
                        0 <= j < i + 1 && items@[j].0@ == k by {
                        lemma_key_iff_entry(input@, k);
                        lemma_key_iff_entry(in0, k);
                        if !has_key(in0, k) {
                            let j = choose|j: int| 0 <= j < i && items@[j].0@ == k;
                            assert(0 <= j < i + 1 && items@[j].0@ == k);
                        } else if k == name@ {
                            assert(0 <= i < i + 1 && items@[i as int].0@ == k);
                        } else {
                            let w = choose|w: Expr| #[trigger] has_entry(in0, k, w);
                            assert(has_entry(input@, k, w));
                        }
                    }
                    if items@[i as int].2 is None {
                        assert(has_entry(in0, name@, v));
                        lemma_key_iff_entry(in0, name@);
                    }
                    assert forall|j: int| 0 <= j < input@.len() implies (#[trigger] input@[j]).1.0 < p1.size() by {
                        assert(has_entry(input@, input@[j].0, input@[j].1));
                        let q = choose|q: int| 0 <= q < in0.len() && in0[q] == (input@[j].0, input@[j].1);
                        assert(in0[q].1.0 < p1.size());
                    }
                }
                let ghost before = *pool;
                proof { lemma_matcher_ok_mono(items@[i as int].1, p0.size(), pool.size()); }
                let sub = run_matcher(pool, host, &items[i].1, v, fuel - 1)?;
                proof {
                    lemma_normal_kept(*pool, before, e);
                    lemma_extends_trans(*pool, before, p0);
                    lemma_set_ok_mono(out@, before.size(), pool.size());
                }
                let ghost o0 = out@;
                scope_merge(&mut out, &sub);
                proof {
                    if ready {
                        assert(items@[i as int].1 is Ident);
                        assert(sub@ == seq![(ident_name(items@[i as int].1), v)]);
                        assert(has_entry(sub@, ident_name(items@[i as int].1), v)) by {
                            assert(sub@[0] == (ident_name(items@[i as int].1), v));
                        }
                        let ghost ob = out@;
                        assert(items_bound(fs, items@, ob, i + 1)) by {
                            assert forall|j: int| 0 <= j < i + 1 implies item_bound(fs, #[trigger] items@[j], ob) by {
                                if j < i {
                                    assert(item_bound(fs, items@[j], o0));
                                    let x = choose|x: Expr| #[trigger] item_node(fs, items@[j], x) && has_entry(
                                        o0,
                                        ident_name(items@[j].1),
                                        x,
                                    );
                                    assert(ident_name(items@[j].1) != ident_name(items@[i as int].1));
                                    assert(!has_key(sub@, ident_name(items@[j].1))) by {
                                        if has_key(sub@, ident_name(items@[j].1)) {
                                            let q = choose|q: int| 0 <= q < sub@.len() && #[trigger] sub@[q].0 == ident_name(items@[j].1);
                                            assert(sub@[q] == sub@[0]);
                                        }
                                    }
                                    assert(has_entry(ob, ident_name(items@[j].1), x));
                                } else {
                                    assert(item_node(fs, items@[j], v));
                                }
                            }
                        }
                        assert forall|k: Seq<char>, x: Expr| #[trigger] has_entry(input@, k, x) <==> (has_entry(fs, k, x)
                            && forall|j: int| 0 <= j < i + 1 ==> items@[j].0@ != k) by {
                            if has_entry(fs, k, x) && (forall|j: int| 0 <= j < i + 1 ==> items@[j].0@ != k) {
                                assert(items@[i as int].0@ != k);
                            }
                        }
                    }
                    assert(items@.take(i + 1).drop_last() =~= items@.take(i as int));
                    assert forall|k: Seq<char>| #[trigger] has_key(out@, k) <==> crate::lang::expr::names_items(items@.take(i + 1)).contains(k) by {
                        lemma_concat_contains(crate::lang::expr::names_items(items@.take(i as int)), items@[i as int].1.bound_names(), k);
                        assert(has_key(o0, k) <==> crate::lang::expr::names_items(items@.take(i as int)).contains(k));
                        assert(has_key(sub@, k) <==> items@[i as int].1.bound_names().contains(k));
                    }
                }
                i = i + 1;
            }
            proof { assert(items@.take(items@.len() as int) =~= items@); }
            if *need_all && !input.is_empty() {
                proof {
                    if ready {
                        let k = input@[0].0;
                        let x = input@[0].1;
                        assert(has_entry(input@, k, x));
                        assert(has_key(fs, k)) by {
                            lemma_key_iff_entry(fs, k);
                        }
                        assert(!no_extra(fs, items@)) by {
                            if no_extra(fs, items@) {
                                let j = choose|j: int| 0 <= j < items@.len() && items@[j].0@ == k;
                            }
                        }
                    }
                }
                return Err(err_msg(ErrorType::NoValue, "Extra fields passed to function"));
            }
            proof {
                if *need_all {
                    assert forall|k: Seq<char>| #[trigger] has_key(fs, k) implies exists|j: int| 0 <= j < items@.len()
                        && items@[j].0@ == k by {
                        if has_key(input@, k) {
                            let q = choose|q: int| 0 <= q < input@.len() && #[trigger] input@[q].0 == k;
                        }
                    }
                }
            }
            Ok(out)
        },
    }
}

/// Evaluates node `e` until its content is data or a function, and stores
/// that content in the node. A node that is evaluated already is left as it
/// is; one whose operands are evaluated already gets the content that
/// `ready_outcome` gives.
#[verifier::loop_isolation(false)]
pub fn resolve<H: ExprBuiltin>(pool: &mut ExprPool, host: &mut H, e: Expr, fuel: u64) -> (res: Result<(), Error>)
    requires
        old(pool).wf(),
        old(pool).valid(e),
    ensures
        grown(*final(pool), *old(pool)),
        res is Ok ==> is_normal(final(pool).node(e)),
        is_normal(old(pool).node(e)) ==> res is Ok && *final(pool) == *old(pool),
        fuel > 2 && operands_ready(*old(pool), old(pool).node(e)) ==> ready_outcome(
            *old(pool),
            *final(pool),
            old(pool).node(e),
            match res {
                Ok(_) => Ok(final(pool).node(e)),
                Err(er) => Err(er),
            },
        ),
        fuel > 2 && operands_ready(*old(pool), old(pool).node(e)) ==> forall|i: int| 0 <= i < old(pool).size() && i != e.0
            ==> #[trigger] final(pool).nodes()[i] == old(pool).nodes()[i],
        fuel > 3 && let_ready(*old(pool), old(pool).node(e)) ==> let_result(
            *old(pool),
            *final(pool),
            old(pool).node(e),
            match res {
                Ok(_) => Ok(final(pool).node(e)),
                Err(er) => Err(er),
            },
        ),
        fuel > 3 && call_ready(*old(pool), old(pool).node(e)) ==> call_result(
            *old(pool),
            *final(pool),
            old(pool).node(e),
            match res {
                Ok(_) => Ok(final(pool).node(e)),
                Err(er) => Err(er),
            },
        ),
        fuel > 2 && short_circuit(*old(pool), old(pool).node(e)) is Some ==> res is Ok && final(pool).node(e)
            == ExprType::Value(Value::Bool(short_circuit(*old(pool), old(pool).node(e))->Some_0)),
        fuel > 4 && scoped_short_circuit(*old(pool), old(pool).node(e)) is Some ==> res is Ok && final(pool).node(e)
            == ExprType::Value(Value::Bool(scoped_short_circuit(*old(pool), old(pool).node(e))->Some_0)),
        scoped_tree(*old(pool), old(pool).node(e)) is Some && fuel > 3 * scoped_tree(*old(pool), old(pool).node(e))->Some_0.0
            + 6 ==> tree_result(
            op_tree_value(*old(pool), scoped_tree(*old(pool), old(pool).node(e))->Some_0),
            match res {
                Ok(_) => Ok(final(pool).node(e)),
                Err(er) => Err(er),
            },
        ) && kept_but(*old(pool), *final(pool), e, e),
    decreases fuel,
{
    if is_normal_tok(pool.tok(e)) {
        return Ok(());
    }
    if fuel == 0 {
        return Err(too_deep());
    }
    let ghost p0 = *pool;
    let ghost t0 = pool.node(e);
    let ghost ready = fuel > 2 && operands_ready(p0, t0);
    let ghost cready = fuel > 3 && call_ready(p0, t0);
    let ghost lready = fuel > 3 && let_ready(p0, t0);
    let ghost sready = fuel > 2 && short_circuit(p0, t0) is Some;
    let ghost bsready = fuel > 4 && scoped_short_circuit(p0, t0) is Some;
    let ghost decision = scoped_short_circuit(p0, t0)->Some_0;
    let ghost tx = scoped_tree(p0, t0)->Some_0;
    let ghost tready = scoped_tree(p0, t0) is Some && fuel > 3 * tx.0 + 6;
    let ghost tv = op_tree_value(p0, tx);
    let mut cur = pool.tok(e).duplicate();
    pool.set(e, ExprType::Null);
    let ghost p_set = *pool;
    let ghost mut phase: int = 0;
    let ghost mut t_call: ExprType = t0;
    let ghost arg0 = t0->FuncCall_0;
    let ghost func0 = t0->FuncCall_1;
    let ghost stmts0 = t0->Let_0;
    let ghost target0 = t0->Let_1;
    let ghost mut p_mid: ExprPool = p_set;
    let ghost mut lvars: Seq<(Seq<char>, Expr)> = seq![];
    proof {
        if ready {
            lemma_ready_transfer(p0, p_set, p_set, p_set, t0, e);
        }
    }
    let mut steps: u64 = STEP_LIMIT;
    while !is_normal_tok(&cur)
        invariant
            grown(*pool, p0),
            p0.valid(e),
            tok_ok(cur, pool.size()),
            fuel > 0,
            ready ==> only_pushed(*pool, p_set) && ((steps == STEP_LIMIT && same_step(cur, t0) && *pool == p_set)
                || (is_normal(cur) && ready_outcome(p_set, *pool, t0, Ok(cur)))),
            cready ==> only_pushed(*pool, p_set) && ((phase == 0 && steps == STEP_LIMIT && cur == t0 && *pool == p_set)
                || (phase == 1 && steps == STEP_LIMIT - 1 && *pool == p_set && cur == t_call && t_call is Bind
                && call_steps_to(p0, arg0, func0, t_call)) || (phase == 2 && is_normal(cur) && call_steps_to(
                p0,
                arg0,
                func0,
                t_call,
            ) && ready_outcome(p_set, *pool, t_call, Ok(cur)))),
            lready ==> only_pushed(*pool, p_set) && p0.node(target0) == p_set.node(target0) && ((phase == 0 && steps
                == STEP_LIMIT && (cur matches ExprType::Let(st, x) && x == target0 && crate::lang::expr::stmts_like(
                st@,
                stmts0@,
            )) && *pool == p_set) || (phase == 1 && steps == STEP_LIMIT - 1 && *pool == p_mid
                && cur == t_call && t_call == ExprType::Bind(t_call->Bind_0, target0) && t_call->Bind_0@ == lvars
                && operands_ready(p_mid, t_call) && only_pushed(p_mid, p_set) && let_vars(p_mid, seq![], stmts0@, lvars))
                || (phase == 2 && is_normal(cur) && only_pushed(p_mid, p_set) && only_pushed(*pool, p_mid) && t_call
                == ExprType::Bind(t_call->Bind_0, target0) && t_call->Bind_0@ == lvars && operands_ready(p_mid, t_call)
                && let_vars(*pool, seq![], stmts0@, lvars) && ready_outcome(p_mid, *pool, t_call, Ok(cur)))),
            sready ==> *pool == p_set && ((steps == STEP_LIMIT && same_step(cur, t0)) || cur == ExprType::Value(
                Value::Bool(short_circuit(p0, t0)->Some_0),
            )),
            bsready ==> (steps == STEP_LIMIT && same_step(cur, t0) && *pool == p_set) || (steps == STEP_LIMIT - 1
                && bound_short_circuit(*pool, cur) == Some(decision) && pool.size() >= p_set.size()
                && pool.nodes()[e.0 as int] == p_set.nodes()[e.0 as int]) || (cur == ExprType::Value(
                Value::Bool(decision),
            ) && pool.nodes()[e.0 as int] == p_set.nodes()[e.0 as int]),
            tready ==> (steps == STEP_LIMIT && same_step(cur, t0) && *pool == p_set) || (steps == STEP_LIMIT - 1
                && only_pushed(*pool, p_set) && tree_call(p0, *pool, p_set.size() as nat, cur, tx)) || (tree_result(
                tv,
                Ok(cur),
            ) && only_pushed(*pool, p_set)),
        decreases steps,
    {
        proof {
            if tready {
                assert(p_set.nodes()[tx.0 as int] == p0.nodes()[tx.0 as int]);
                if steps == STEP_LIMIT - 1 {
                    let xa = p0.node(tx)->BinOp_1;
                    let xb = p0.node(tx)->BinOp_2;
                    lemma_op_tree_kept(p0, *pool, xa);
                    lemma_op_tree_kept(p0, *pool, xb);
                }
            }
            if bsready && steps == STEP_LIMIT {
                let inner0 = t0->Bind_1;
                assert(p_set.nodes()[inner0.0 as int] == p0.nodes()[inner0.0 as int]);
                let a0 = p0.node(inner0)->BinOp_1;
                assert(p_set.nodes()[a0.0 as int] == p0.nodes()[a0.0 as int]);
            }
        }
        proof {
            if sready {
                let a0 = t0->BinOp_1;
                assert(p_set.nodes()[a0.0 as int] == p0.nodes()[a0.0 as int]);
                assert(short_circuit(*pool, cur) == short_circuit(p0, t0));
            }
        }
        if steps == 0 {
            return Err(too_deep());
        }
        steps = steps - 1;
        let ghost before = *pool;
        let next = match cur {
            ExprType::Bind(scope, inner) => bind_step(pool, host, &scope, inner, fuel - 1),
            ExprType::Let(stmts, target) => let_step(pool, host, ImMap::new(), &stmts, target, fuel - 1),
            ExprType::AttrSel(v, attr) => attr_step(pool, host, v, &attr, fuel - 1),
            ExprType::FuncCall(arg, func) => call_step(pool, host, arg, func, fuel - 1),
            ExprType::MapList(kind, func, src) => map_step(pool, host, kind, func, src, fuel - 1),
            ExprType::Fold(func, init, src) => fold_step(pool, host, func, init, src, fuel - 1),
            ExprType::UnOp(op, x) => unop_step(pool, host, op, x, fuel - 1),
            ExprType::BinOp(op, a, b) => binop_step(pool, host, op, a, b, fuel - 1),
            ExprType::Var(name) => {
                let er = err_name(ErrorType::Scope, "Unknown variable ", name.as_str(), "");
                proof {
                    reveal_strlit("");
                    assert(er.msg@ =~= "Unknown variable "@ + name@);
                }
                Err(er)
            },
            ExprType::Null => Err(err_msg(ErrorType::Eval, "Found null in expression tree")),
            other => Ok(other),
        };
        proof {
            if ready {
                assert(ready_outcome(before, *pool, cur, next));
                assert(operands_ready(p_set, cur) == operands_ready(p_set, t0));
                assert(ready_outcome(p_set, *pool, t0, next));
                assert(pool.nodes()[e.0 as int] == p_set.nodes()[e.0 as int]);
                lemma_ready_transfer(p0, p_set, *pool, *pool, t0, e);
            }
            if lready {
                if phase == 0 {
                    lemma_stmts_like(cur->Let_0@, stmts0@, seq![]);
                    let t = next->Ok_0;
                    assert(pool.nodes()[target0.0 as int] == p_set.nodes()[target0.0 as int]);
                    assert(tok_ok(t, pool.size()));
                    p_mid = *pool;
                    lvars = t->Bind_0@;
                    t_call = t;
                    phase = 1;
                } else if phase == 1 {
                    assert(ready_outcome(p_mid, *pool, t_call, next));
                    lemma_let_vars_kept(*pool, p_mid, seq![], stmts0@, lvars);
                    phase = 2;
                }
            }
            if cready {
                if phase == 0 {
                    assert(p0.node(func0) is FuncDef);
                    assert(p_set.nodes()[func0.0 as int] == p0.nodes()[func0.0 as int]);
                    assert(call_outcome(p_set, arg0, func0, next));
                    assert(*pool == p_set);
                    let t = next->Ok_0;
                    let body = p0.node(func0)->FuncDef_1;
                    if body != e {
                        assert(p_set.nodes()[body.0 as int] == p0.nodes()[body.0 as int]);
                    }
                    if p0.node(func0)->FuncDef_0 is Object {
                        assert(p_set.nodes()[arg0.0 as int] == p0.nodes()[arg0.0 as int]);
                    }
                    assert(call_steps_to(p0, arg0, func0, t));
                    assert(operands_ready(p0, t));
                    phase = 1;
                    t_call = t;
                } else if phase == 1 {
                    assert(operands_ready(p0, t_call));
                    lemma_bind_transfer(p0, p_set, p_set, p_set, t_call, e);
                    assert(ready_outcome(p_set, *pool, t_call, next));
                    assert(pool.nodes()[e.0 as int] == p_set.nodes()[e.0 as int]);
                    lemma_bind_transfer(p0, p_set, *pool, *pool, t_call, e);
                    assert(ready_outcome(p0, *pool, t_call, next));
                    assert(call_result(p0, *pool, t0, next));
                    phase = 2;
                }
            }
        }
        proof {
            if tready {
                if steps == STEP_LIMIT - 1 {
                    lemma_op_tree_kept(p0, p_set, tx);
                    if p0.node(tx) is Value {
                        lemma_plain_same(next->Ok_0->Value_0, p0.node(tx)->Value_0);
                    }
                }
            }
        }
        cur = next?;
        proof { lemma_extends_trans(*pool, before, p0); }
    }
    let ghost q = *pool;
    proof {
        if ready {
            assert(pool.nodes()[e.0 as int] == p_set.nodes()[e.0 as int]);
        }
    }
    proof {
        if cready {
            assert(phase == 2);
            assert(pool.nodes()[e.0 as int] == p_set.nodes()[e.0 as int]);
        }
        if lready {
            assert(phase == 2);
            assert(pool.nodes()[e.0 as int] == p_set.nodes()[e.0 as int]);
        }
        if sready {
            assert(pool.nodes()[e.0 as int] == p_set.nodes()[e.0 as int]);
        }
        if bsready || tready {
            assert(pool.nodes()[e.0 as int] == p_set.nodes()[e.0 as int]);
        }
    }
    if !is_normal_tok(pool.tok(e)) {
        pool.set(e, cur);
    }
    proof {
        if ready {
            lemma_ready_transfer(p0, p_set, q, *pool, t0, e);
            assert forall|i: int| 0 <= i < p0.size() && i != e.0 implies #[trigger] pool.nodes()[i] == p0.nodes()[i] by {
                assert(q.nodes()[i] == p_set.nodes()[i]);
            }
        }
        if lready {
            lemma_bind_q_transfer(p_mid, q, *pool, t_call, e);
            assert(ready_outcome(p_mid, *pool, t_call, Ok(cur)));
            assert(p_mid.node(target0) == p0.node(target0)) by {
                assert(p_mid.nodes()[target0.0 as int] == p_set.nodes()[target0.0 as int]);
            }
            assert(bind_ready_outcome(p0, *pool, lvars, target0, Ok(cur)));
            assert(let_vars(*pool, seq![], stmts0@, lvars)) by {
                assert forall|i: int, b: Expr| 0 <= i < stmts0@.len() && #[trigger] has_entry(lvars, stmt_name(stmts0@[i]), b)
                    implies pool.valid(b) && (pool.node(b) matches ExprType::Bind(_, y) && y == stmts0@[i].1) by {
                    assert(q.node(b) is Bind);
                    assert(pool.nodes()[b.0 as int] == q.nodes()[b.0 as int]);
                }
            }
            assert(pool.node(e) == cur);
            assert(let_result(p0, *pool, t0, Ok(pool.node(e))));
        }
        if cready {
            assert(operands_ready(p0, t_call));
            lemma_bind_transfer(p0, p_set, q, *pool, t_call, e);
            assert(ready_outcome(p0, *pool, t_call, Ok(cur)));
            assert(pool.node(e) == cur);
            assert(call_result(p0, *pool, t0, Ok(pool.node(e))));
        }
    }
    Ok(())
}

/// Evaluates the content of `inner` as seen with the variables of `scope`,
/// by one step: the variables move to the parts of the content.
#[verifier::loop_isolation(false)]
fn bind_step<H: ExprBuiltin>(
    pool: &mut ExprPool,
    host: &mut H,
    scope: &ImMap<Expr>,
    inner: Expr,
    fuel: u64,
) -> (res: Result<ExprType, Error>)
    requires
        old(pool).wf(),
        old(pool).valid(inner),
        set_ok(scope@, old(pool).size()),
    ensures
        grown(*final(pool), *old(pool)),
        res matches Ok(t) ==> tok_ok(t, final(pool).size()),
        operands_ready(*old(pool), ExprType::Bind(*scope, inner)) && fuel > 0 ==> only_pushed(*final(pool), *old(pool))
            && ready_outcome(*old(pool), *final(pool), ExprType::Bind(*scope, inner), res),
        old(pool).node(inner) is BinOp && fuel > 0 ==> only_pushed(*final(pool), *old(pool)) && bound_binop(
            *old(pool),
            *final(pool),
            scope@,
            inner,
            res,
        ),
    decreases fuel,
{
    if fuel == 0 {
        return Err(too_deep());
    }
    let ghost p0 = *pool;
    let ghost ready = operands_ready(p0, ExprType::Bind(*scope, inner));
    let t = pool.tok(inner).duplicate();
    proof { assert(tok_ok(t, p0.size())); }
    match t {
        ExprType::Object(fields) => {
            let mut vals: Vec<Expr> = Vec::new();
            let mut i: usize = 0;
            while i < fields.len()
                invariant
                    i <= fields@.len(),
                    grown(*pool, p0),
                    set_ok(fields@, p0.size()),
                    set_ok(scope@, p0.size()),
                    vals@.len() == i,
                    vec_ok(vals@, pool.size()),
                    only_pushed(*pool, p0),
                    forall|j: int| 0 <= j < i ==> #[trigger] bound_in(*pool, vals@[j], scope@, fields@[j].1),
                decreases fields@.len() - i,
            {
                let ghost before = *pool;
                assert(fields@[i as int].1.0 < p0.size());
                let x = *fields.value_at(i);
                let b = bind_one(pool, scope, x);
                proof {
                    lemma_extends_trans(*pool, before, p0);
                    assert forall|j: int| 0 <= j < i implies #[trigger] bound_in(*pool, vals@[j], scope@, fields@[j].1) by {
                        assert(bound_in(before, vals@[j], scope@, fields@[j].1));
                        assert(pool.nodes()[vals@[j].0 as int] == before.nodes()[vals@[j].0 as int]);
                    }
                }
                vals.push(b);
                i = i + 1;
            }
            let out = fields.with_values(vals);
            proof {
                if ready {
                    assert forall|i: int| 0 <= i < fields@.len() implies (#[trigger] out@[i]).0 == fields@[i].0
                        && bound_in(*pool, out@[i].1, scope@, fields@[i].1) by {
                        assert(out@[i] == (fields@[i].0, vals@[i]));
                        assert(bound_in(*pool, vals@[i], scope@, fields@[i].1));
                    }
                }
            }
            Ok(ExprType::Object(out))
        },
        ExprType::List(items) => Ok(ExprType::List(bind_all(pool, scope, &items))),
        ExprType::Tuple(items) => Ok(ExprType::Tuple(bind_all(pool, scope, &items))),
        ExprType::AttrSel(v, a) => Ok(ExprType::AttrSel(bind_one(pool, scope, v), a)),
        ExprType::Value(v) => Ok(ExprType::Value(v)),
        ExprType::Var(name) => {
            let x = match scope.get(name.as_str()) {
                Some(x) => *x,
                None => {
                    let er = err_name(ErrorType::Scope, "Unknown variable ", name.as_str(), "");
                    proof {
                        reveal_strlit("");
                        assert(er.msg@ =~= "Unknown variable "@ + name@);
                    }
                    return Err(er);
                },
            };
            proof {
                let q = choose|q: int| 0 <= q < scope@.len() && scope@[q] == (name@, x);
                assert(scope@[q].1.0 < p0.size());
                assert(scope@[q].0 == name@);
                assert(has_key(scope@, name@));
                if ready {
                    assert(p0.node(inner) matches ExprType::Var(n2) ==> forall|y: Expr| #[trigger] has_entry(scope@, n2@, y)
                        ==> p0.valid(y) && is_normal(p0.node(y)));
                    assert(has_entry(scope@, name@, x));
                    assert(is_normal(p0.node(x)));
                }
            }
            resolve(pool, host, x, fuel - 1)?;
            let r = pool.tok(x).duplicate();
            proof {
                assert(tok_ok(pool.node(x), pool.size()));
                if ready {
                    assert(has_entry(scope@, name@, x));
                }
            }
            Ok(r)
        },
        ExprType::UnOp(op, x) => Ok(ExprType::UnOp(op, bind_one(pool, scope, x))),
        ExprType::BinOp(op, a, b) => {
            let a2 = bind_one(pool, scope, a);
            let ghost mid = *pool;
            let b2 = bind_one(pool, scope, b);
            proof { lemma_extends_trans(*pool, mid, p0); }
            Ok(ExprType::BinOp(op, a2, b2))
        },
        ExprType::FuncDef(m, body) => {
            let m2 = bind_matcher(pool, &m, scope);
            let mut names: Vec<String> = Vec::new();
            m.collect_names(&mut names);
            let inner_scope = scope_without(scope, &names);
            let ghost mid = *pool;
            proof { lemma_set_ok_mono(inner_scope@, p0.size(), pool.size()); }
            let b = bind_one(pool, &inner_scope, body);
            proof {
                lemma_extends_trans(*pool, mid, p0);
                lemma_matcher_ok_mono(m2, mid.size(), pool.size());
            }
            Ok(ExprType::FuncDef(m2, b))
        },
        ExprType::FuncDefBuiltin(w) => Ok(ExprType::FuncDefBuiltin(w)),
        ExprType::Let(stmts, target) => let_step(pool, host, scope.copy(), &stmts, target, fuel - 1),
        ExprType::MapList(k, f, src) => {
            let f2 = bind_one(pool, scope, f);
            let ghost mid = *pool;
            let s2 = bind_one(pool, scope, src);
            proof { lemma_extends_trans(*pool, mid, p0); }
            Ok(ExprType::MapList(k, f2, s2))
        },
        ExprType::Fold(f, init, src) => {
            let f2 = bind_one(pool, scope, f);
            let ghost m1 = *pool;
            let i2 = bind_one(pool, scope, init);
            let ghost m2 = *pool;
            let s2 = bind_one(pool, scope, src);
            proof {
                lemma_extends_trans(*pool, m2, m1);
                lemma_extends_trans(*pool, m1, p0);
            }
            Ok(ExprType::Fold(f2, i2, s2))
        },
        ExprType::FuncCall(arg, func) => {
            let a2 = bind_one(pool, scope, arg);
            let ghost mid = *pool;
            let f2 = bind_one(pool, scope, func);
            proof { lemma_extends_trans(*pool, mid, p0); }
            Ok(ExprType::FuncCall(a2, f2))
        },
        ExprType::Bind(s2, x) => Ok(ExprType::Bind(s2, x)),
        ExprType::Null => Err(err_msg(ErrorType::Eval, "Found null in expression tree")),
    }
}

/// The name that the pattern of `let` statement `st` binds, where it is a
/// plain name.
pub open spec fn stmt_name(st: (Matcher<Expr>, Expr)) -> Seq<char> {
    st.0->Ident_0@
}

/// Each `let` statement binds a plain name, and no name is bound twice or is
/// bound by `scope` already.
pub open spec fn simple_stmts(scope: Seq<(Seq<char>, Expr)>, stmts: Seq<(Matcher<Expr>, Expr)>) -> bool {
    &&& forall|i: int| 0 <= i < stmts.len() ==> (#[trigger] stmts[i]).0 is Ident && !has_key(scope, stmt_name(stmts[i]))
    &&& forall|i: int, j: int| 0 <= i < j < stmts.len() ==> stmt_name(#[trigger] stmts[i]) != stmt_name(#[trigger] stmts[j])
}

/// The variables `vars` that simple `let` statements bind: those of `scope`,
/// and each statement's name bound to a new node that holds the statement's
/// expression with the variables bound before it.
pub open spec fn let_vars(q: ExprPool, scope: Seq<(Seq<char>, Expr)>, stmts: Seq<(Matcher<Expr>, Expr)>, vars: Seq<
    (Seq<char>, Expr),
>) -> bool {
    &&& forall|k: Seq<char>| #[trigger] has_key(vars, k) <==> (has_key(scope, k) || exists|i: int| 0 <= i < stmts.len()
        && stmt_name(stmts[i]) == k)
    &&& forall|k: Seq<char>, v: Expr| #[trigger] has_entry(scope, k, v) ==> has_entry(vars, k, v)
    &&& forall|i: int, b: Expr| 0 <= i < stmts.len() && #[trigger] has_entry(vars, stmt_name(stmts[i]), b) ==> q.valid(b)
        && (q.node(b) matches ExprType::Bind(_, y) && y == stmts[i].1)
}

proof fn lemma_insert_entries<T>(s: Seq<(Seq<char>, T)>, p: int, e: (Seq<char>, T))
    requires
        0 <= p <= s.len(),
    ensures
        forall|k: Seq<char>, v: T| #[trigger] has_entry(s.insert(p, e), k, v) <==> (has_entry(s, k, v) || (k, v) == e),
        forall|k: Seq<char>| #[trigger] has_key(s.insert(p, e), k) <==> (has_key(s, k) || k == e.0),
{
    let t = s.insert(p, e);
    assert forall|k: Seq<char>, v: T| #[trigger] has_entry(t, k, v) <==> (has_entry(s, k, v) || (k, v) == e) by {
        if has_entry(t, k, v) {
            let q = choose|q: int| 0 <= q < t.len() && t[q] == (k, v);
            if q < p {
                assert(s[q] == t[q]);
            } else if q > p {
                assert(s[q - 1] == t[q]);
            }
        }
        if has_entry(s, k, v) {
            let q = choose|q: int| 0 <= q < s.len() && s[q] == (k, v);
            if q < p {
                assert(t[q] == s[q]);
            } else {
                assert(t[q + 1] == s[q]);
            }
        }
        if (k, v) == e {
            assert(t[p] == e);
        }
    }
    assert forall|k: Seq<char>| #[trigger] has_key(t, k) <==> (has_key(s, k) || k == e.0) by {
        if has_key(t, k) {
            let q = choose|q: int| 0 <= q < t.len() && #[trigger] t[q].0 == k;
            if q < p {
                assert(s[q] == t[q]);
            } else if q > p {
                assert(s[q - 1] == t[q]);
            }
        }
        if has_key(s, k) {
            let q = choose|q: int| 0 <= q < s.len() && #[trigger] s[q].0 == k;
            if q < p {
                assert(t[q] == s[q]);
            } else {
                assert(t[q + 1] == s[q]);
            }
        }
        if k == e.0 {
            assert(t[p].0 == k);
        }
    }
}

proof fn lemma_let_vars_kept(q: ExprPool, p: ExprPool, scope: Seq<(Seq<char>, Expr)>, stmts: Seq<(Matcher<Expr>, Expr)>, vars: Seq<
    (Seq<char>, Expr),
>)
    requires
        only_pushed(q, p),
        let_vars(p, scope, stmts, vars),
    ensures
        let_vars(q, scope, stmts, vars),
{
    assert forall|i: int, b: Expr| 0 <= i < stmts.len() && #[trigger] has_entry(vars, stmt_name(stmts[i]), b) implies q.valid(b)
        && (q.node(b) matches ExprType::Bind(_, y) && y == stmts[i].1) by {
        assert(q.nodes()[b.0 as int] == p.nodes()[b.0 as int]);
    }
}

/// Evaluates `let` statements in order, each seeing the variables bound
/// before it; a name bound twice is an error.
#[verifier::loop_isolation(false)]
fn let_step<H: ExprBuiltin>(
    pool: &mut ExprPool,
    host: &mut H,
    scope: ImMap<Expr>,
    stmts: &Vec<(Matcher<Expr>, Expr)>,
    target: Expr,
    fuel: u64,
) -> (res: Result<ExprType, Error>)
    requires
        old(pool).wf(),
        old(pool).valid(target),
        set_ok(scope@, old(pool).size()),
        stmts_ok(stmts@, old(pool).size()),
    ensures
        grown(*final(pool), *old(pool)),
        res matches Ok(t) ==> tok_ok(t, final(pool).size()),
        simple_stmts(scope@, stmts@) && fuel > 1 ==> (res matches Ok(ExprType::Bind(vars, x)) && x == target && let_vars(
            *final(pool),
            scope@,
            stmts@,
            vars@,
        )) && only_pushed(*final(pool), *old(pool)),
    decreases fuel,
{
    if fuel == 0 {
        return Err(too_deep());
    }
    let ghost p0 = *pool;
    let ghost ready = simple_stmts(scope@, stmts@) && fuel > 1;
    let mut vars = scope;
    let mut i: usize = 0;
    while i < stmts.len()
        invariant
            i <= stmts@.len(),
            grown(*pool, p0),
            p0.valid(target),
            stmts_ok(stmts@, p0.size()),
            set_ok(vars@, pool.size()),
            ready ==> only_pushed(*pool, p0) && let_vars(*pool, scope@, stmts@.take(i as int), vars@),
        decreases stmts.len() - i,
    {
        let ghost before = *pool;
        let ghost vars0 = vars@;
        proof { lemma_matcher_ok_mono(stmts@[i as int].0, p0.size(), pool.size()); }
        let node = bind_one(pool, &vars, stmts[i].1);
        let ghost m1 = *pool;
        proof { lemma_set_ok_mono(vars@, before.size(), pool.size()); lemma_matcher_ok_mono(stmts@[i as int].0, p0.size(), pool.size()); }
        let m2 = bind_matcher(pool, &stmts[i].0, &vars);
        let ghost m2p = *pool;
        let out = run_matcher(pool, host, &m2, node, fuel - 1)?;
        proof {
            lemma_extends_trans(*pool, m2p, m1);
            lemma_extends_trans(*pool, m1, before);
            lemma_extends_trans(*pool, before, p0);
            lemma_set_ok_mono(vars@, before.size(), pool.size());
            if ready {
                assert(stmts@[i as int].0 is Ident);
                assert(*pool == m1);
                assert(out@ == seq![(stmt_name(stmts@[i as int]), node)]);
                assert(only_pushed(*pool, before));
                lemma_let_vars_kept(*pool, before, scope@, stmts@.take(i as int), vars0);
                assert(only_pushed(*pool, p0)) by {
                    assert forall|q: int| 0 <= q < p0.size() implies #[trigger] pool.nodes()[q] == p0.nodes()[q] by {
                        assert(before.nodes()[q] == p0.nodes()[q]);
                    }
                }
                assert(!has_key(vars0, stmt_name(stmts@[i as int]))) by {
                    if has_key(vars0, stmt_name(stmts@[i as int])) {
                        if !has_key(scope@, stmt_name(stmts@[i as int])) {
                            let i2 = choose|i2: int| 0 <= i2 < stmts@.take(i as int).len() && stmt_name(stmts@.take(i as int)[i2])
                                == stmt_name(stmts@[i as int]);
                            assert(stmts@.take(i as int)[i2] == stmts@[i2]);
                        }
                    }
                }
            }
        }
        let ghost pj = *pool;
        let mut j: usize = 0;
        while j < out.len()
            invariant
                j <= out@.len(),
                set_ok(out@, pool.size()),
                set_ok(vars@, pool.size()),
                *pool == pj,
                ready ==> out@ == seq![(stmt_name(stmts@[i as int]), node)] && (j == 0 ==> vars@ == vars0) && (j == 1
                    ==> let_vars(*pool, scope@, stmts@.take(i + 1), vars@)),
            decreases out@.len() - j,
        {
            let k = out.key_at(j);
            let v = *out.value_at(j);
            let ghost v0 = vars@;
            match vars.set_mut(k.as_str(), v) {
                Ok(()) => {},
                Err(_) => {
                    return Err(Error::new(ErrorType::DupKey, k.clone()));
                },
            }
            proof {
                let p = choose|p: int| 0 <= p <= v0.len() && vars@ == v0.insert(p, (k@, v));
                assert forall|q: int| 0 <= q < vars@.len() implies (#[trigger] vars@[q]).1.0 < pool.size() by {
                    if q < p {
                        assert(vars@[q] == v0[q]);
                    } else if q > p {
                        assert(vars@[q] == v0[q - 1]);
                    }
                }
                if ready {
                    lemma_insert_entries(v0, p, (k@, v));
                    let st = stmts@.take(i + 1);
                    assert(out@[j as int] == (k@, v));
                    assert(j == 0);
                    assert(k@ == stmt_name(stmts@[i as int]) && v == node);
                    assert(st[i as int] == stmts@[i as int]);
                    assert forall|kk: Seq<char>| #[trigger] has_key(vars@, kk) <==> (has_key(scope@, kk) || exists|i2: int|
                        0 <= i2 < st.len() && stmt_name(st[i2]) == kk) by {
                        if exists|i2: int| 0 <= i2 < st.len() && stmt_name(st[i2]) == kk {
                            let i2 = choose|i2: int| 0 <= i2 < st.len() && stmt_name(st[i2]) == kk;
                            if i2 < i {
                                assert(stmts@.take(i as int)[i2] == st[i2]);
                            }
                        }
                        if has_key(v0, kk) && !has_key(scope@, kk) {
                            let i2 = choose|i2: int| 0 <= i2 < stmts@.take(i as int).len() && stmt_name(stmts@.take(i as int)[i2]) == kk;
                            assert(stmts@.take(i as int)[i2] == st[i2]);
                        }
                    }
                    assert forall|i2: int, b: Expr| 0 <= i2 < st.len() && #[trigger] has_entry(vars@, stmt_name(st[i2]), b)
                        implies pool.valid(b) && (pool.node(b) matches ExprType::Bind(_, y) && y == st[i2].1) by {
                        if i2 < i {
                            assert(stmts@.take(i as int)[i2] == st[i2]);
                            assert(stmt_name(st[i2]) != stmt_name(st[i as int]));
                            assert(has_entry(v0, stmt_name(stmts@.take(i as int)[i2]), b));
                        } else {
                            if !((stmt_name(st[i2]), b) == (k@, v)) {
                                assert(has_entry(v0, stmt_name(st[i2]), b));
                                let q = choose|q: int| 0 <= q < v0.len() && v0[q] == (stmt_name(st[i2]), b);
                                assert(v0[q].0 == stmt_name(st[i2]));
                                assert(has_key(v0, stmt_name(st[i2])));
                                assert(false);
                            }
                        }
                    }
                }
            }
            j = j + 1;
        }
        i = i + 1;
    }
    proof {
        if ready {
            assert(stmts@.take(stmts@.len() as int) =~= stmts@);
        }
    }
    Ok(ExprType::Bind(vars, target))
}

/// Field `attr` of the object that `v` evaluates to, evaluated.
fn attr_step<H: ExprBuiltin>(
    pool: &mut ExprPool,
    host: &mut H,
    v: Expr,
    attr: &String,
    fuel: u64,
) -> (res: Result<ExprType, Error>)
    requires
        old(pool).wf(),
        old(pool).valid(v),
    ensures
        grown(*final(pool), *old(pool)),
        res matches Ok(t) ==> tok_ok(t, final(pool).size()),
        operands_ready(*old(pool), ExprType::AttrSel(v, *attr)) && fuel > 1 ==> *final(pool) == *old(pool)
            && ready_outcome(*old(pool), *final(pool), ExprType::AttrSel(v, *attr), res),
    decreases fuel,
{
    if fuel == 0 {
        return Err(too_deep());
    }
    let ghost p0 = *pool;
    let f = get_field(pool, host, v, attr.as_str(), fuel - 1)?;
    let ghost p1 = *pool;
    let ghost ready = operands_ready(p0, ExprType::AttrSel(v, *attr)) && fuel > 1;
    proof {
        if ready {
            let t = ExprType::AttrSel(v, *attr);
            assert(operands_ready(p0, t));
            assert(t matches ExprType::AttrSel(v2, name2) && v2 == v && name2@ == attr@);
            assert(p0.node(v) matches ExprType::Object(fs2) ==> forall|g: Expr| #[trigger] has_entry(fs2@, attr@, g)
                ==> p0.valid(g) && is_normal(p0.node(g)));
            assert(has_entry(p0.node(v)->Object_0@, attr@, f));
            assert(is_normal(p1.node(f)));
        }
    }
    resolve(pool, host, f, fuel - 1)?;
    proof {
        lemma_extends_trans(*pool, p1, p0);
        assert(tok_ok(pool.node(f), pool.size()));
    }
    let r = pool.tok(f).duplicate();
    proof {
        if ready {
            let fs = p0.node(v)->Object_0;
            let q = choose|q: int| 0 <= q < fs@.len() && fs@[q] == (attr@, f);
            assert(fs@[q].0 == attr@);
            assert(has_key(fs@, attr@));
            let t = ExprType::AttrSel(v, *attr);
            assert(ready_outcome(p0, *pool, t, Ok(r)));
        }
    }
    Ok(r)
}

/// The node of field `name` of the object that `v` evaluates to.
pub fn get_field<H: ExprBuiltin>(
    pool: &mut ExprPool,
    host: &mut H,
    v: Expr,
    name: &str,
    fuel: u64,
) -> (res: Result<Expr, Error>)
    requires
        old(pool).wf(),
        old(pool).valid(v),
    ensures
        grown(*final(pool), *old(pool)),
        res matches Ok(f) ==> final(pool).valid(f) && (final(pool).node(v) matches ExprType::Object(
            fields,
        ) && has_entry(fields@, name@, f)),
        is_normal(old(pool).node(v)) && fuel > 0 ==> *final(pool) == *old(pool) && (res matches Err(er)
            ==> er.typ == ErrorType::NoValue && !(old(pool).node(v) matches ExprType::Object(fs) && has_key(
            fs@,
            name@,
        ))),
    decreases fuel,
{
    if fuel == 0 {
        return Err(too_deep());
    }
    resolve(pool, host, v, fuel - 1)?;
    let r = match pool.tok(v) {
        ExprType::Object(fields) => match fields.get(name) {
            Some(x) => Ok(*x),
            None => Err(err_name(ErrorType::NoValue, "Invalid field '", name, "'")),
        },
        _ => Err(err_name(ErrorType::NoValue, "Invalid item '", name, "'")),
    };
    proof {
        if r is Ok {
            let fields = pool.node(v)->Object_0;
            assert(tok_ok(pool.node(v), pool.size()));
            let q = choose|q: int| 0 <= q < fields@.len() && fields@[q] == (name@, r->Ok_0);
            assert(fields@[q].1.0 < pool.size());
        }
    }
    r
}

/// The node content that applying a function body to the bound variables
/// `args` gives: the body with the scope it was bound with, where `args`
/// take precedence over that scope.
pub fn apply_scope(pool: &ExprPool, args: ImMap<Expr>, body: Expr) -> (res: ExprType)
    requires
        pool.wf(),
        pool.valid(body),
        set_ok(args@, pool.size()),
    ensures
        tok_ok(res, pool.size()),
        pool.node(body) matches ExprType::Bind(vs, inner) ==> (res matches ExprType::Bind(s, x) && x == inner
            && forall|k: Seq<char>, v: Expr| #[trigger] has_entry(s@, k, v) <==> (has_entry(args@, k, v)
            || (!has_key(args@, k) && has_entry(vs@, k, v)))),
        !(pool.node(body) is Bind) ==> (res matches ExprType::Bind(s, x) && x == body && s@ == args@),
{
    match pool.tok(body) {
        ExprType::Bind(vs, inner) => {
            proof { assert(tok_ok(pool.node(body), pool.size())); }
            let mut merged = vs.copy();
            scope_merge(&mut merged, &args);
            ExprType::Bind(merged, *inner)
        },
        _ => ExprType::Bind(args, body),
    }
}

/// Content `t` is what applying a function body `body` of `p` to the bound
/// variables `args` gives, as `apply_scope` says.
pub open spec fn applied(p: ExprPool, args: Seq<(Seq<char>, Expr)>, body: Expr, t: ExprType) -> bool {
    match p.node(body) {
        ExprType::Bind(vs, inner) => t matches ExprType::Bind(s, x) && x == inner && forall|k: Seq<char>, v: Expr|
            #[trigger] has_entry(s@, k, v) <==> (has_entry(args, k, v) || (!has_key(args, k) && has_entry(vs@, k, v))),
        _ => t matches ExprType::Bind(s, x) && x == body && s@ == args,
    }
}

/// The scope that applying a body gives holds nodes of the pool.
pub proof fn lemma_applied_set_ok(p: ExprPool, args: Seq<(Seq<char>, Expr)>, body: Expr, t: ExprType)
    requires
        p.wf(),
        p.valid(body),
        set_ok(args, p.size()),
        applied(p, args, body, t),
    ensures
        t matches ExprType::Bind(sc, x) && set_ok(sc@, p.size()),
{
    assert(tok_ok(p.nodes()[body.0 as int].tok, p.size()));
    if p.node(body) is Bind {
        let vs = p.node(body)->Bind_0;
        let sc = t->Bind_0;
        assert forall|i: int| 0 <= i < sc@.len() implies (#[trigger] sc@[i]).1.0 < p.size() by {
            assert(has_entry(sc@, sc@[i].0, sc@[i].1));
            if has_entry(args, sc@[i].0, sc@[i].1) {
                let j = choose|j: int| 0 <= j < args.len() && args[j] == (sc@[i].0, sc@[i].1);
                assert(args[j].1.0 < p.size());
            } else {
                let j = choose|j: int| 0 <= j < vs@.len() && vs@[j] == (sc@[i].0, sc@[i].1);
                assert(vs@[j].1.0 < p.size());
            }
        }
    }
}

/// What one call step gives when the function is evaluated already: a
/// function whose parameter is a name binds it to the argument node, one
/// that ignores its parameter binds nothing, and anything but a function is
/// a scope error. Other patterns and builtins evaluate the argument first.
pub open spec fn call_outcome(p: ExprPool, arg: Expr, func: Expr, r: Result<ExprType, Error>) -> bool {
    match p.node(func) {
        ExprType::FuncDef(Matcher::Ident(n), body) => r matches Ok(t) && applied(p, seq![(n@, arg)], body, t),
        ExprType::FuncDef(Matcher::DontCare, body) => r matches Ok(t) && applied(p, seq![], body, t),
        ExprType::FuncDef(Matcher::Object(items, need_all), _) => object_call_ok(p, arg, items@, need_all) ==> (r matches Ok(
            t,
        ) && call_steps_to(p, arg, func, t)),
        ExprType::FuncDef(_, _) => true,
        ExprType::FuncDefBuiltin(_) => true,
        _ => r matches Err(e) && e.typ == ErrorType::Scope,
    }
}

/// Field patterns that copy plain ones are plain, match the same fields,
/// and bind the same nodes.
proof fn lemma_items_like(
    a: Seq<(String, Matcher<Expr>, Option<Expr>)>,
    b: Seq<(String, Matcher<Expr>, Option<Expr>)>,
    fs: Seq<(Seq<char>, Expr)>,
)
    requires
        crate::lang::expr::items_like(a, b),
        plain_items(b),
    ensures
        plain_items(a),
        items_present(fs, b) ==> items_present(fs, a),
        no_extra(fs, b) ==> no_extra(fs, a),
        forall|s: Seq<(Seq<char>, Expr)>, n: int| #[trigger] items_bound(fs, a, s, n) && n <= b.len() ==> items_bound(fs, b, s, n),
{
    assert forall|i: int| 0 <= i < a.len() implies (#[trigger] a[i]).1 is Ident && ident_name(a[i].1) == ident_name(b[i].1)
        && a[i].0@ == b[i].0@ && a[i].2 == b[i].2 by {
        assert(b[i].1 is Ident);
    }
    assert forall|i: int, j: int| 0 <= i < j < a.len() implies ident_name((#[trigger] a[i]).1) != ident_name(
        (#[trigger] a[j]).1,
    ) && a[i].0@ != a[j].0@ by {
        assert(ident_name(b[i].1) != ident_name(b[j].1) && b[i].0@ != b[j].0@);
        assert(a[i].1 is Ident && ident_name(a[i].1) == ident_name(b[i].1));
        assert(a[j].1 is Ident && ident_name(a[j].1) == ident_name(b[j].1));
    }
    if items_present(fs, b) {
        assert forall|i: int| 0 <= i < a.len() && (#[trigger] a[i]).2 is None implies has_key(fs, a[i].0@) by {
            assert(b[i].2 is None);
        }
    }
    if no_extra(fs, b) {
        assert forall|k: Seq<char>| #[trigger] has_key(fs, k) implies exists|i: int| 0 <= i < a.len() && a[i].0@ == k by {
            let i = choose|i: int| 0 <= i < b.len() && b[i].0@ == k;
            assert(a[i].0@ == k);
        }
    }
    assert forall|s: Seq<(Seq<char>, Expr)>, n: int| #[trigger] items_bound(fs, a, s, n) && n <= b.len() implies items_bound(fs, b, s, n) by {
        assert forall|i: int| 0 <= i < n implies item_bound(fs, #[trigger] b[i], s) by {
            assert(item_bound(fs, a[i], s));
            let x = choose|x: Expr| #[trigger] item_node(fs, a[i], x) && has_entry(s, ident_name(a[i].1), x);
            assert(a[i].1 is Ident && ident_name(a[i].1) == ident_name(b[i].1));
            assert(item_node(fs, b[i], x));
        }
    }
}

/// Calls the function that `func` evaluates to with the argument `arg`.
fn call_step<H: ExprBuiltin>(
    pool: &mut ExprPool,
    host: &mut H,
    arg: Expr,
    func: Expr,
    fuel: u64,
) -> (res: Result<ExprType, Error>)
    requires
        old(pool).wf(),
        old(pool).valid(arg),
        old(pool).valid(func),
    ensures
        grown(*final(pool), *old(pool)),
        res matches Ok(t) ==> tok_ok(t, final(pool).size()),
        is_normal(old(pool).node(func)) && fuel > 2 ==> call_outcome(*old(pool), arg, func, res),
        is_normal(old(pool).node(func)) && fuel > 2 && (old(pool).node(func) matches ExprType::FuncDef(m, _) && (m is Ident
            || m is DontCare || (m matches Matcher::Object(items, need_all) && object_call_ok(*old(pool), arg, items@, need_all))))
            ==> *final(pool) == *old(pool),
    decreases fuel,
{
    if fuel == 0 {
        return Err(too_deep());
    }
    let ghost p0 = *pool;
    resolve(pool, host, func, fuel - 1)?;
    let t = pool.tok(func).duplicate();
    proof { assert(tok_ok(pool.node(func), pool.size())); }
    let ghost p1 = *pool;
    match t {
        ExprType::FuncDef(m, body) => {
            let ghost m0 = p0.node(func)->FuncDef_0;
            let ghost oready = is_normal(p0.node(func)) && fuel > 2 && (m0 matches Matcher::Object(items, need_all)
                && object_call_ok(p0, arg, items@, need_all));
            proof {
                if oready {
                    assert(p1 == p0);
                    assert(matcher_like(m, m0));
                    lemma_items_like(m->Object_0@, m0->Object_0@, p0.node(arg)->Object_0@);
                }
            }
            let args = run_matcher(pool, host, &m, arg, fuel - 1)?;
            proof { lemma_extends_trans(*pool, p1, p0); }
            let r = apply_scope(pool, args, body);
            proof {
                if oready {
                    assert(*pool == p0);
                    let fs = p0.node(arg)->Object_0@;
                    assert(object_args(fs, m0->Object_0@, m0, args@, p0.size()));
                    assert(applied(p0, args@, body, r));
                    assert(call_steps_to(p0, arg, func, r));
                }
                if is_normal(p0.node(func)) && fuel > 2 && (m is Ident || m is DontCare) {
                    assert(*pool == p0);
                    if m is Ident {
                        assert(args@ =~= seq![(m->Ident_0@, arg)]);
                    }
                    if m is DontCare {
                        assert(args@ =~= Seq::<(Seq<char>, Expr)>::empty());
                    }
                }
            }
            Ok(r)
        },
        ExprType::FuncDefBuiltin(w) => {
            resolve(pool, host, arg, fuel - 1)?;
            let ghost p2 = *pool;
            let r = call_builtin(pool, host, &w, arg, fuel - 1)?;
            proof {
                lemma_extends_trans(*pool, p2, p1);
                lemma_extends_trans(*pool, p1, p0);
            }
            Ok(apply_scope(pool, ImMap::new(), r))
        },
        _ => Err(err_msg(ErrorType::Scope, "called func, but it is not a function")),
    }
}

/// Calls a builtin function on its evaluated argument.
fn call_builtin<H: ExprBuiltin>(
    pool: &mut ExprPool,
    host: &mut H,
    w: &ExprBuiltinWrapper,
    arg: Expr,
    fuel: u64,
) -> (res: Result<Expr, Error>)
    requires
        old(pool).wf(),
        old(pool).valid(arg),
    ensures
        grown(*final(pool), *old(pool)),
        res matches Ok(r) ==> final(pool).valid(r),
        w.1 == BuiltinKind::Lock && is_normal(old(pool).node(arg)) && fuel > 3 ==> (res is Ok <==> old(pool).node(arg) matches ExprType::Value(
            Value::Path(_),
        )),
        w.1 == BuiltinKind::Translate && (old(pool).node(arg) matches ExprType::Object(fs) && translate_ok(*old(pool), fs@))
            && fuel > 3 ==> res is Ok,
        w.1 == BuiltinKind::Retype && (old(pool).node(arg) matches ExprType::Object(fs) && retype_ok(*old(pool), fs@))
            && fuel > 3 ==> res is Ok,
        w.1 == BuiltinKind::Build && (old(pool).node(arg) matches ExprType::Object(fs) && build_ok(*old(pool), fs@))
            && fuel > 3 && old(pool).next_id() < usize::MAX ==> res is Ok,
    decreases fuel,
{
    if fuel == 0 {
        return Err(too_deep());
    }
    match w.1 {
        BuiltinKind::External => host.call(pool, &w.0, arg),
        BuiltinKind::Lock => BuiltinPbLock::call(pool, host, arg, fuel - 1),
        BuiltinKind::Rule => BuiltinPbRule::call(pool, host, arg, fuel - 1),
        BuiltinKind::Build => BuiltinPbBuild::call(pool, host, arg, fuel - 1),
        BuiltinKind::Translate => BuiltinPbTranslate::call(pool, host, arg, fuel - 1),
        BuiltinKind::Retype => BuiltinPbRetype::call(pool, host, arg, fuel - 1),
    }
}

/// The items that iteration over the value of `src` visits: the elements of
/// a list, or `(key, value)` tuples of an object in key order.
#[verifier::loop_isolation(false)]
fn source_items<H: ExprBuiltin>(
    pool: &mut ExprPool,
    host: &mut H,
    src: Expr,
    fuel: u64,
) -> (res: Result<Vec<Expr>, Error>)
    requires
        old(pool).wf(),
        old(pool).valid(src),
    ensures
        grown(*final(pool), *old(pool)),
        res matches Ok(v) ==> vec_ok(v@, final(pool).size()),
        is_normal(old(pool).node(src)) && fuel > 0 ==> only_pushed(*final(pool), *old(pool)) && match old(pool).node(src) {
            ExprType::List(xs) => res matches Ok(v) && v@ == xs@,
            ExprType::Object(fs) => res matches Ok(v) && v@.len() == fs@.len() && forall|i: int| 0 <= i < fs@.len()
                ==> final(pool).valid(#[trigger] v@[i]) && is_pair(*final(pool), v@[i], fs@[i]),
            _ => res matches Err(er) && er.typ == ErrorType::Eval,
        },
    decreases fuel,
{
    if fuel == 0 {
        return Err(too_deep());
    }
    let ghost p0 = *pool;
    resolve(pool, host, src, fuel - 1)?;
    proof { assert(tok_ok(pool.node(src), pool.size())); }
    let ghost p1 = *pool;
    let fields = match pool.tok(src) {
        ExprType::List(v) => {
            return Ok(copy_exprs(v));
        },
        ExprType::Object(f) => f.copy(),
        _ => {
            return Err(err_msg(ErrorType::Eval, "Foreach over non-list"));
        },
    };
    let ghost ready = is_normal(p0.node(src)) && fuel > 0;
    let mut out: Vec<Expr> = Vec::new();
    let mut i: usize = 0;
    while i < fields.len()
        invariant
            i <= fields@.len(),
            grown(*pool, p0),
            pool.size() >= p1.size(),
            set_ok(fields@, p1.size()),
            vec_ok(out@, pool.size()),
            out@.len() == i,
            ready ==> only_pushed(*pool, p0) && (p0.node(src) matches ExprType::Object(f0) && f0@ == fields@),
            ready ==> forall|j: int| 0 <= j < i ==> pool.valid(#[trigger] out@[j]) && is_pair(*pool, out@[j], fields@[j]),
        decreases fields@.len() - i,
    {
        let ghost before = *pool;
        let key = to_owned_string(fields.key_at(i).as_str());
        let kn = pool.push(ExprType::Value(Value::String(key)), None);
        let mut pair: Vec<Expr> = Vec::new();
        pair.push(kn);
        pair.push(*fields.value_at(i));
        let ghost mid = *pool;
        assert(fields@[i as int].1.0 < p1.size());
        let t = pool.push(ExprType::Tuple(pair), None);
        proof {
            lemma_extends_trans(*pool, mid, before);
            lemma_extends_trans(*pool, before, p0);
            if ready {
                assert forall|j: int| 0 <= j < i implies pool.valid(#[trigger] out@[j]) && is_pair(*pool, out@[j], fields@[j]) by {
                    assert(is_pair(before, out@[j], fields@[j]));
                    let tt = out@[j];
                    assert(pool.nodes()[tt.0 as int] == before.nodes()[tt.0 as int]);
                    let k = before.node(tt)->Tuple_0@[0];
                    assert(pool.nodes()[k.0 as int] == before.nodes()[k.0 as int]);
                }
                assert(pool.nodes()[kn.0 as int] == mid.nodes()[kn.0 as int]);
                assert(is_pair(*pool, t, fields@[i as int]));
            }
        }
        out.push(t);
        i = i + 1;
    }
    Ok(out)
}

/// `items` are the items that iteration visits over content `c` of `q`: the
/// elements of a list, or new `(key, value)` tuples for the fields of an
/// object.
pub open spec fn items_of_source(q: ExprPool, c: ExprType, items: Seq<Expr>) -> bool {
    match c {
        ExprType::List(xs) => items == xs@,
        ExprType::Object(fs) => items.len() == fs@.len() && forall|i: int| 0 <= i < fs@.len() ==> q.valid(
            #[trigger] items[i],
        ) && is_pair(q, items[i], fs@[i]),
        _ => false,
    }
}

/// Node `acc` of `q` folds `func` over `items` from `init`: `init` when
/// there are no items, else a call of a call of `func` on the fold of all
/// items but the last, applied to the last item.
pub open spec fn fold_chain(q: ExprPool, func: Expr, init: Expr, items: Seq<Expr>, acc: Expr) -> bool
    decreases items.len(),
{
    if items.len() == 0 {
        acc == init
    } else {
        q.valid(acc) && match q.node(acc) {
            ExprType::FuncCall(x, st) => x == items.last() && q.valid(st) && match q.node(st) {
                ExprType::FuncCall(a2, f) => f == func && fold_chain(q, func, init, items.drop_last(), a2),
                _ => false,
            },
            _ => false,
        }
    }
}

/// Content `a` is a copy of content `b`, as `ExprType::duplicate` makes it.
pub open spec fn content_copy(a: ExprType, b: ExprType) -> bool {
    match b {
        ExprType::Bind(sc, x) => a matches ExprType::Bind(sc2, x2) && sc2@ == sc@ && x2 == x,
        ExprType::Let(_, _) => a is Let,
        ExprType::FuncDef(m, x) => a matches ExprType::FuncDef(m2, x2) && x2 == x && matcher_like(m2, m),
        _ => if is_normal(b) {
            same_content(a, b)
        } else {
            a == b
        },
    }
}

proof fn lemma_chain_kept(q: ExprPool, p: ExprPool, func: Expr, init: Expr, items: Seq<Expr>, acc: Expr)
    requires
        only_pushed(q, p),
        fold_chain(p, func, init, items, acc),
    ensures
        fold_chain(q, func, init, items, acc),
    decreases items.len(),
{
    if items.len() > 0 {
        assert(q.nodes()[acc.0 as int] == p.nodes()[acc.0 as int]);
        let st = p.node(acc)->FuncCall_1;
        assert(q.nodes()[st.0 as int] == p.nodes()[st.0 as int]);
        lemma_chain_kept(q, p, func, init, items.drop_last(), p.node(st)->FuncCall_0);
    }
}

proof fn lemma_source_kept(q: ExprPool, p: ExprPool, c: ExprType, items: Seq<Expr>)
    requires
        only_pushed(q, p),
        items_of_source(p, c, items),
    ensures
        items_of_source(q, c, items),
{
    if c is Object {
        let fs = c->Object_0;
        assert forall|i: int| 0 <= i < fs@.len() implies q.valid(#[trigger] items[i]) && is_pair(q, items[i], fs@[i]) by {
            assert(is_pair(p, items[i], fs@[i]));
            let t = items[i];
            assert(q.nodes()[t.0 as int] == p.nodes()[t.0 as int]);
            let k = p.node(t)->Tuple_0@[0];
            assert(q.nodes()[k.0 as int] == p.nodes()[k.0 as int]);
        }
    }
}

/// `[ |p| e <- source ]` and `{ |p| e <- source }`.
#[verifier::loop_isolation(false)]
fn map_step<H: ExprBuiltin>(
    pool: &mut ExprPool,
    host: &mut H,
    kind: ExprMapType,
    func: Expr,
    src: Expr,
    fuel: u64,
) -> (res: Result<ExprType, Error>)
    requires
        old(pool).wf(),
        old(pool).valid(func),
        old(pool).valid(src),
    ensures
        grown(*final(pool), *old(pool)),
        res matches Ok(t) ==> tok_ok(t, final(pool).size()),
        operands_ready(*old(pool), ExprType::MapList(kind, func, src)) && fuel > 1 ==> only_pushed(*final(pool), *old(pool))
            && ready_outcome(*old(pool), *final(pool), ExprType::MapList(kind, func, src), res),
    decreases fuel,
{
    if fuel == 0 {
        return Err(too_deep());
    }
    let ghost p0 = *pool;
    let ghost ready = operands_ready(p0, ExprType::MapList(kind, func, src)) && fuel > 1;
    let items = source_items(pool, host, src, fuel - 1)?;
    let ghost p1 = *pool;
    let mut calls: Vec<Expr> = Vec::new();
    let mut i: usize = 0;
    while i < items.len()
        invariant
            i <= items@.len(),
            grown(*pool, p0),
            pool.size() >= p1.size(),
            p1.size() >= p0.size(),
            p0.valid(func),
            vec_ok(items@, p1.size()),
            vec_ok(calls@, pool.size()),
            calls@.len() == i,
            ready ==> only_pushed(*pool, p1) && only_pushed(p1, p0),
            ready ==> forall|j: int| 0 <= j < i ==> pool.valid(#[trigger] calls@[j]) && pool.node(calls@[j])
                == ExprType::FuncCall(items@[j], func),
        decreases items@.len() - i,
    {
        let ghost before = *pool;
        assert(items@[i as int].0 < p1.size());
        let c = pool.push(ExprType::FuncCall(items[i], func), None);
        proof {
            lemma_extends_trans(*pool, before, p0);
            if ready {
                assert forall|j: int| 0 <= j < i implies pool.valid(#[trigger] calls@[j]) && pool.node(calls@[j])
                    == ExprType::FuncCall(items@[j], func) by {
                    assert(pool.nodes()[calls@[j].0 as int] == before.nodes()[calls@[j].0 as int]);
                }
            }
        }
        calls.push(c);
        i = i + 1;
    }
    proof {
        if ready {
            match p0.node(src) {
                ExprType::Object(fs) => {
                    assert forall|j: int| 0 <= j < fs@.len() implies pool.valid(#[trigger] calls@[j]) && is_pair_call(
                        *pool,
                        calls@[j],
                        fs@[j],
                        func,
                    ) by {
                        assert(is_pair(p1, items@[j], fs@[j]));
                        let tt = items@[j];
                        assert(pool.nodes()[tt.0 as int] == p1.nodes()[tt.0 as int]);
                        let k = p1.node(tt)->Tuple_0@[0];
                        assert(pool.nodes()[k.0 as int] == p1.nodes()[k.0 as int]);
                    }
                },
                _ => {},
            }
        }
    }
    match kind {
        ExprMapType::List => Ok(ExprType::List(calls)),
        ExprMapType::Object => {
            let ghost p2 = *pool;
            let mut out: ImMap<Expr> = ImMap::new();
            let mut j: usize = 0;
            while j < calls.len()
                invariant
                    j <= calls@.len(),
                    grown(*pool, p0),
                    pool.size() >= p2.size(),
                    vec_ok(calls@, p2.size()),
                    set_ok(out@, pool.size()),
                decreases calls@.len() - j,
            {
                let ghost before = *pool;
                assert(calls@[j as int].0 < p2.size());
                resolve(pool, host, calls[j], fuel - 1)?;
                proof { assert(tok_ok(pool.node(calls@[j as int]), pool.size())); }
                let (kn, vn) = match pool.tok(calls[j]) {
                    ExprType::Tuple(v) => if v.len() == 2 {
                        (v[0], v[1])
                    } else {
                        return Err(err_msg(ErrorType::Type, "Expected (key, value) tuple"));
                    },
                    _ => {
                        return Err(err_msg(ErrorType::Type, "Expected (key, value) tuple"));
                    },
                };
                let ghost mid = *pool;
                resolve(pool, host, kn, fuel - 1)?;
                let key = match pool.tok(kn) {
                    ExprType::Value(Value::String(s)) => s.clone(),
                    _ => {
                        return Err(err_msg(ErrorType::Type, "Expected string as key"));
                    },
                };
                proof {
                    lemma_extends_trans(*pool, mid, before);
                    lemma_extends_trans(*pool, before, p0);
                    lemma_set_ok_mono(out@, before.size(), pool.size());
                }
                let ghost o0 = out@;
                match out.set_mut(key.as_str(), vn) {
                    Ok(()) => {},
                    Err(_) => {
                        return Err(Error::new(ErrorType::DupKey, key));
                    },
                }
                proof {
                    let p = choose|p: int| 0 <= p <= o0.len() && out@ == o0.insert(p, (key@, vn));
                    assert forall|q: int| 0 <= q < out@.len() implies (#[trigger] out@[q]).1.0 < pool.size() by {
                        if q < p {
                            assert(out@[q] == o0[q]);
                        } else if q > p {
                            assert(out@[q] == o0[q - 1]);
                        }
                    }
                }
                j = j + 1;
            }
            Ok(ExprType::Object(out))
        },
    }
}

/// `(|acc item| e <- initial .. source)`: the function applied to the
/// accumulated value and each item in turn.
#[verifier::loop_isolation(false)]
fn fold_step<H: ExprBuiltin>(
    pool: &mut ExprPool,
    host: &mut H,
    func: Expr,
    init: Expr,
    src: Expr,
    fuel: u64,
) -> (res: Result<ExprType, Error>)
    requires
        old(pool).wf(),
        old(pool).valid(func),
        old(pool).valid(init),
        old(pool).valid(src),
    ensures
        grown(*final(pool), *old(pool)),
        res matches Ok(t) ==> tok_ok(t, final(pool).size()),
        is_normal(old(pool).node(src)) && fuel > 1 ==> match old(pool).node(src) {
            ExprType::List(_) | ExprType::Object(_) => res matches Ok(t) && exists|items: Seq<Expr>, acc: Expr|
                items_of_source(*final(pool), old(pool).node(src), items) && #[trigger] fold_chain(
                *final(pool),
                func,
                init,
                items,
                acc,
            ) && content_copy(t, final(pool).node(acc)),
            _ => res matches Err(e) && e.typ == ErrorType::Eval,
        },
    decreases fuel,
{
    if fuel == 0 {
        return Err(too_deep());
    }
    let ghost p0 = *pool;
    let ghost ready = is_normal(p0.node(src)) && fuel > 1;
    let items = source_items(pool, host, src, fuel - 1)?;
    let ghost p1 = *pool;
    proof {
        if ready {
            assert(items_of_source(p1, p0.node(src), items@));
            assert(items@.take(0) =~= Seq::<Expr>::empty());
        }
    }
    let mut acc = init;
    let mut i: usize = 0;
    while i < items.len()
        invariant
            i <= items@.len(),
            grown(*pool, p0),
            pool.size() >= p1.size(),
            p1.size() >= p0.size(),
            p0.valid(func),
            vec_ok(items@, p1.size()),
            pool.valid(acc),
            ready ==> only_pushed(*pool, p1) && only_pushed(p1, p0) && items_of_source(*pool, p0.node(src), items@)
                && fold_chain(*pool, func, init, items@.take(i as int), acc),
        decreases items@.len() - i,
    {
        let ghost before = *pool;
        let ghost acc0 = acc;
        let step = pool.push(ExprType::FuncCall(acc, func), None);
        let ghost mid = *pool;
        assert(items@[i as int].0 < p1.size());
        acc = pool.push(ExprType::FuncCall(items[i], step), None);
        proof {
            lemma_extends_trans(*pool, mid, before);
            lemma_extends_trans(*pool, before, p0);
            if ready {
                assert(only_pushed(*pool, before));
                lemma_chain_kept(*pool, before, func, init, items@.take(i as int), acc0);
                lemma_source_kept(*pool, before, p0.node(src), items@);
                assert(items@.take(i + 1).drop_last() =~= items@.take(i as int));
                assert(items@.take(i + 1).last() == items@[i as int]);
                assert(pool.node(step) == ExprType::FuncCall(acc0, func));
                assert(fold_chain(*pool, func, init, items@.take(i + 1), acc));
            }
        }
        i = i + 1;
    }
    proof { assert(tok_ok(pool.node(acc), pool.size())); }
    let r = pool.tok(acc).duplicate();
    proof {
        if ready {
            assert(items@.take(items@.len() as int) =~= items@);
            assert(content_copy(r, pool.node(acc)));
        }
    }
    Ok(r)
}

/// `-x` and `!x`.
fn unop_step<H: ExprBuiltin>(
    pool: &mut ExprPool,
    host: &mut H,
    op: ExprUnOp,
    x: Expr,
    fuel: u64,
) -> (res: Result<ExprType, Error>)
    requires
        old(pool).wf(),
        old(pool).valid(x),
    ensures
        grown(*final(pool), *old(pool)),
        res matches Ok(t) ==> tok_ok(t, final(pool).size()),
        operands_ready(*old(pool), ExprType::UnOp(op, x)) && fuel > 0 ==> *final(pool) == *old(pool)
            && ready_outcome(*old(pool), *final(pool), ExprType::UnOp(op, x), res),
    decreases fuel,
{
    if fuel == 0 {
        return Err(too_deep());
    }
    resolve(pool, host, x, fuel - 1)?;
    match pool.tok(x) {
        ExprType::Value(v) => match op {
            ExprUnOp::Neg => Ok(ExprType::Value(v.op_neg()?)),
            ExprUnOp::Not => Ok(ExprType::Value(v.op_not()?)),
        },
        _ => Err(err_msg(ErrorType::Eval, "negating non-value")),
    }
}

/// What an operator applied to two values gives: integer arithmetic
/// (failing on overflow), string concatenation and placeholder text for `+`,
/// a path step for `/`, comparisons of integers and of strings, and equality
/// of any two values; the other operators are type errors on values.
pub open spec fn binop_outcome(op: ExprBinOp, l: Value, r: Value, res: Result<Value, Error>) -> bool {
    &&& (op == ExprBinOp::Mult ==> match (l, r) {
        (Value::Int(a), Value::Int(b)) => if i64::MIN <= a * b <= i64::MAX {
            res == Ok::<Value, Error>(Value::Int((a * b) as i64))
        } else {
            res matches Err(e) && e.typ == ErrorType::Eval
        },
        _ => type_error(res),
    })
    &&& (op == ExprBinOp::Sub ==> match (l, r) {
        (Value::Int(a), Value::Int(b)) => if i64::MIN <= a - b <= i64::MAX {
            res == Ok::<Value, Error>(Value::Int((a - b) as i64))
        } else {
            res matches Err(e) && e.typ == ErrorType::Eval
        },
        _ => type_error(res),
    })
    &&& (op == ExprBinOp::Add ==> match (l, r) {
        (Value::Int(a), Value::Int(b)) => if i64::MIN <= a + b <= i64::MAX {
            res == Ok::<Value, Error>(Value::Int((a + b) as i64))
        } else {
            res matches Err(e) && e.typ == ErrorType::Eval
        },
        (Value::String(a), Value::String(b)) => res matches Ok(Value::String(s)) && s@ == a@ + b@,
        (Value::String(_), Value::BuildVar(_)) | (Value::BuildVar(_), Value::String(_)) => res matches Ok(
            Value::BuildConcat(vs),
        ) && vs@.len() == 2 && same_value(vs@[0], l) && same_value(vs@[1], r),
        (Value::BuildConcat(xs), Value::BuildVar(_)) | (Value::BuildConcat(xs), Value::String(_)) => res matches Ok(
            Value::BuildConcat(vs),
        ) && vs@.len() == xs@.len() + 1 && (forall|i: int| 0 <= i < xs@.len() ==> same_value(#[trigger] vs@[i], xs@[i]))
            && same_value(vs@.last(), r),
        _ => type_error(res),
    })
    &&& (op == ExprBinOp::Div ==> match (l, r) {
        (Value::Int(a), Value::Int(b)) => if b == 0 || !(i64::MIN <= trunc_div(a as int, b as int) <= i64::MAX) {
            res matches Err(e) && e.typ == ErrorType::Eval
        } else {
            res == Ok::<Value, Error>(Value::Int(trunc_div(a as int, b as int) as i64))
        },
        (Value::Path(p), Value::String(s)) => match res {
            Ok(Value::Path(q)) => q@ == (if s@ == seq!['.', '.'] {
                PathModel { parts: p@.parts.drop_last(), ..p@ }
            } else if s@ == seq!['.'] {
                p@
            } else {
                PathModel { parts: p@.parts.push(s@), ..p@ }
            }),
            Ok(_) => false,
            Err(e) => e.typ == ErrorType::Eval && s@ == seq!['.', '.'] && p@.parts.len() == 0,
        },
        _ => type_error(res),
    })
    &&& (op == ExprBinOp::Lt ==> match compare_result(l, r, true, false, false) {
        Some(b) => res == Ok::<Value, Error>(Value::Bool(b)),
        None => type_error(res),
    })
    &&& (op == ExprBinOp::Le ==> match compare_result(l, r, true, true, false) {
        Some(b) => res == Ok::<Value, Error>(Value::Bool(b)),
        None => type_error(res),
    })
    &&& (op == ExprBinOp::Gt ==> match compare_result(l, r, false, false, true) {
        Some(b) => res == Ok::<Value, Error>(Value::Bool(b)),
        None => type_error(res),
    })
    &&& (op == ExprBinOp::Ge ==> match compare_result(l, r, false, true, true) {
        Some(b) => res == Ok::<Value, Error>(Value::Bool(b)),
        None => type_error(res),
    })
    &&& (op == ExprBinOp::Eq ==> res == Ok::<Value, Error>(Value::Bool(same_value(l, r))))
    &&& (op == ExprBinOp::Neq ==> res == Ok::<Value, Error>(Value::Bool(!same_value(l, r))))
    &&& ((op == ExprBinOp::HasAttr || op == ExprBinOp::ListConcat || op == ExprBinOp::Update
        || op == ExprBinOp::LogAnd || op == ExprBinOp::LogOr || op == ExprBinOp::LogImpl) ==> type_error(res))
}

/// An operator applied to two values, as `binop_outcome` says.
pub fn value_binop(op: ExprBinOp, l: &Value, r: &Value) -> (res: Result<Value, Error>)
    ensures
        binop_outcome(op, *l, *r, res),
{
    match op {
        ExprBinOp::Mult => Value::op_mult(l, r),
        ExprBinOp::Div => Value::op_div(l, r),
        ExprBinOp::Sub => Value::op_sub(l, r),
        ExprBinOp::Add => Value::op_add(l, r),
        ExprBinOp::Lt => Value::op_lt(l, r),
        ExprBinOp::Le => Value::op_le(l, r),
        ExprBinOp::Gt => Value::op_gt(l, r),
        ExprBinOp::Ge => Value::op_ge(l, r),
        ExprBinOp::Eq => Value::op_eq(l, r),
        ExprBinOp::Neq => Value::op_neq(l, r),
        _ => Err(err_msg(ErrorType::Type, "operator not defined on values")),
    }
}

/// Binary operators; `&&`, `||` and `->` evaluate their right side only
/// when the left side does not decide.
#[verifier::loop_isolation(false)]
#[verifier::rlimit(60)]
fn binop_step<H: ExprBuiltin>(
    pool: &mut ExprPool,
    host: &mut H,
    op: ExprBinOp,
    a: Expr,
    b: Expr,
    fuel: u64,
) -> (res: Result<ExprType, Error>)
    requires
        old(pool).wf(),
        old(pool).valid(a),
        old(pool).valid(b),
    ensures
        grown(*final(pool), *old(pool)),
        res matches Ok(t) ==> tok_ok(t, final(pool).size()),
        operands_ready(*old(pool), ExprType::BinOp(op, a, b)) && fuel > 0 ==> *final(pool) == *old(pool)
            && ready_outcome(*old(pool), *final(pool), ExprType::BinOp(op, a, b), res),
        short_circuit(*old(pool), ExprType::BinOp(op, a, b)) is Some && fuel > 0 ==> *final(pool) == *old(pool)
            && res == Ok::<ExprType, Error>(ExprType::Value(Value::Bool(short_circuit(*old(pool), ExprType::BinOp(op, a, b))->Some_0))),
        bound_short_circuit(*old(pool), ExprType::BinOp(op, a, b)) is Some && fuel > 3 ==> res == Ok::<ExprType, Error>(
            ExprType::Value(Value::Bool(bound_short_circuit(*old(pool), ExprType::BinOp(op, a, b))->Some_0)),
        ) && final(pool).size() >= old(pool).size() && forall|i: int| 0 <= i < old(pool).size() && i != a.0
            ==> #[trigger] final(pool).nodes()[i] == old(pool).nodes()[i],
        scoped_tree(*old(pool), old(pool).node(a)) is Some && scoped_tree(*old(pool), old(pool).node(b)) is Some && fuel
            > 3 * scoped_tree(*old(pool), old(pool).node(a))->Some_0.0 + 7 && fuel > 3 * scoped_tree(
            *old(pool),
            old(pool).node(b),
        )->Some_0.0 + 7 ==> tree_result(
            tree_op(
                op,
                op_tree_value(*old(pool), scoped_tree(*old(pool), old(pool).node(a))->Some_0),
                op_tree_value(*old(pool), scoped_tree(*old(pool), old(pool).node(b))->Some_0),
            ),
            res,
        ) && kept_but(*old(pool), *final(pool), a, b),
    decreases fuel,
{
    if fuel == 0 {
        return Err(too_deep());
    }
    let ghost p0 = *pool;
    let ghost tr = scoped_tree(p0, p0.node(a)) is Some && scoped_tree(p0, p0.node(b)) is Some && fuel > 3 * scoped_tree(
        p0,
        p0.node(a),
    )->Some_0.0 + 7 && fuel > 3 * scoped_tree(p0, p0.node(b))->Some_0.0 + 7;
    let ghost xa = scoped_tree(p0, p0.node(a))->Some_0;
    let ghost xb = scoped_tree(p0, p0.node(b))->Some_0;
    resolve(pool, host, a, fuel - 1)?;
    proof {
        if tr {
            lemma_op_tree_kept(p0, *pool, xb);
            if b != a {
                assert(pool.nodes()[b.0 as int] == p0.nodes()[b.0 as int]);
            }
        }
    }
    let lt = pool.tok(a).duplicate();
    proof { assert(tok_ok(pool.node(a), pool.size())); }
    let ghost p1 = *pool;
    match lt {
        ExprType::Value(_) => {
            match op {
                ExprBinOp::LogAnd | ExprBinOp::LogOr | ExprBinOp::LogImpl => {
                    let c = match pool.tok(a) {
                        ExprType::Value(lv) => lv.as_bool()?,
                        _ => false,
                    };
                    let decided = match op {
                        ExprBinOp::LogAnd => if !c { Some(false) } else { None },
                        ExprBinOp::LogOr => if c { Some(true) } else { None },
                        _ => if !c { Some(true) } else { None },
                    };
                    match decided {
                        Some(d) => Ok(ExprType::Value(Value::Bool(d))),
                        None => {
                            resolve(pool, host, b, fuel - 1)?;
                            proof {
                                lemma_extends_trans(*pool, p1, p0);
                                assert(tok_ok(pool.node(b), pool.size()));
                            }
                            let t = pool.tok(b).duplicate();
                            proof {
                                if tr {
                                    lemma_op_tree_plain(p0, xb);
                                    lemma_plain_same(t->Value_0, op_tree_value(p0, xb)->Some_0);
                                    assert(kept_but(p0, *pool, a, b));
                                }
                            }
                            Ok(t)
                        },
                    }
                },
                _ => {
                    resolve(pool, host, b, fuel - 1)?;
                    proof {
                        lemma_extends_trans(*pool, p1, p0);
                        if tr {
                            lemma_op_tree_plain(p0, xa);
                            lemma_op_tree_plain(p0, xb);
                            assert(kept_but(p0, *pool, a, b));
                            if a != b {
                                assert(pool.nodes()[a.0 as int] == p1.nodes()[a.0 as int]);
                            }
                        }
                    }
                    match (pool.tok(a), pool.tok(b)) {
                        (ExprType::Value(lv), ExprType::Value(rv)) => {
                            let r = value_binop(op, lv, rv);
                            proof {
                                if tr {
                                    lemma_plain_binop(op, *lv, *rv, r);
                                }
                            }
                            Ok(ExprType::Value(r?))
                        },
                        _ => Err(err_msg(ErrorType::Type, "operands of different kinds")),
                    }
                },
            }
        },
        ExprType::Object(lf) => {
            resolve(pool, host, b, fuel - 1)?;
            proof {
                lemma_extends_trans(*pool, p1, p0);
                assert(tok_ok(pool.node(b), pool.size()));
                lemma_set_ok_mono(lf@, p1.size(), pool.size());
            }
            match (op, pool.tok(b)) {
                (ExprBinOp::HasAttr, ExprType::Value(Value::String(s))) => Ok(
                    ExprType::Value(Value::Bool(lf.contains_key(s.as_str()))),
                ),
                (ExprBinOp::Update, ExprType::Object(rf)) => {
                    let mut m = lf;
                    scope_merge(&mut m, rf);
                    Ok(ExprType::Object(m))
                },
                _ => Err(err_msg(ErrorType::Type, "operator not defined on objects")),
            }
        },
        ExprType::List(lv) => {
            resolve(pool, host, b, fuel - 1)?;
            proof {
                lemma_extends_trans(*pool, p1, p0);
                assert(tok_ok(pool.node(b), pool.size()));
            }
            match (op, pool.tok(b)) {
                (ExprBinOp::Add, ExprType::List(rv)) | (ExprBinOp::ListConcat, ExprType::List(rv)) => {
                    let mut out = lv;
                    let mut i: usize = 0;
                    while i < rv.len()
                        invariant
                            i <= rv@.len(),
                            vec_ok(rv@, pool.size()),
                            vec_ok(out@, pool.size()),
                            out@ == lv@ + rv@.take(i as int),
                        decreases rv@.len() - i,
                    {
                        out.push(rv[i]);
                        proof { assert(rv@.take(i + 1) =~= rv@.take(i as int).push(rv@[i as int])); }
                        i = i + 1;
                    }
                    proof { assert(rv@.take(rv@.len() as int) =~= rv@); }
                    Ok(ExprType::List(out))
                },
                _ => Err(err_msg(ErrorType::Type, "operator not defined on lists")),
            }
        },
        _ => Err(err_msg(ErrorType::Eval, "operator on a value that is not data")),
    }
}

/// The nodes held by an object (its field values, in key order), a list or a
/// tuple.
pub open spec fn parts_of(t: ExprType) -> Seq<Expr> {
    match t {
        ExprType::Object(f) => f@.map_values(|x: (Seq<char>, Expr)| x.1),
        ExprType::List(v) => v@,
        ExprType::Tuple(v) => v@,
        _ => seq![],
    }
}

/// Node `e` is evaluated, and so are the nodes it holds as an object, list
/// or tuple, down to `n` levels below it.
pub open spec fn deep_evaluated(p: ExprPool, e: Expr, n: nat) -> bool
    decreases n,
{
    &&& p.valid(e)
    &&& is_normal(p.node(e))
    &&& n > 0 ==> forall|i: int| 0 <= i < parts_of(p.node(e)).len() ==> deep_evaluated(
        p,
        #[trigger] parts_of(p.node(e))[i],
        (n - 1) as nat,
    )
}

/// Node `e` is evaluated, and so are the nodes it holds as an object, list
/// or tuple, with all of them less than `n` levels deep.
pub open spec fn evaluated_within(p: ExprPool, e: Expr, n: nat) -> bool
    decreases n,
{
    &&& n > 0
    &&& p.valid(e)
    &&& is_normal(p.node(e))
    &&& forall|i: int| 0 <= i < parts_of(p.node(e)).len() ==> evaluated_within(
        p,
        #[trigger] parts_of(p.node(e))[i],
        (n - 1) as nat,
    )
}

/// What is evaluated stays evaluated as the pool grows.
pub proof fn lemma_deep_evaluated_kept(p: ExprPool, q: ExprPool, e: Expr, n: nat)
    requires
        deep_evaluated(p, e, n),
        q.extends(p),
    ensures
        deep_evaluated(q, e, n),
    decreases n,
{
    lemma_normal_kept(q, p, e);
    if n > 0 {
        assert forall|i: int| 0 <= i < parts_of(q.node(e)).len() implies deep_evaluated(
            q,
            #[trigger] parts_of(q.node(e))[i],
            (n - 1) as nat,
        ) by {
            assert(deep_evaluated(p, parts_of(p.node(e))[i], (n - 1) as nat));
            lemma_deep_evaluated_kept(p, q, parts_of(p.node(e))[i], (n - 1) as nat);
        }
    }
}

/// The value that `e` evaluates to; an error when it evaluates to anything
/// but a value.
pub fn value_of<H: ExprBuiltin>(pool: &mut ExprPool, host: &mut H, e: Expr, fuel: u64) -> (res: Result<Value, Error>)
    requires
        old(pool).wf(),
        old(pool).valid(e),
    ensures
        grown(*final(pool), *old(pool)),
        res matches Ok(v) ==> (final(pool).node(e) matches ExprType::Value(x) && same_value(v, x) && ((x is Build
            || x is BuildRule) ==> v == x)),
        is_normal(old(pool).node(e)) && fuel > 0 ==> *final(pool) == *old(pool) && (res is Ok <==> old(pool).node(e) is Value)
            && (res matches Err(er) ==> er.typ == ErrorType::NoValue),
        fuel > 3 && short_circuit(*old(pool), old(pool).node(e)) is Some ==> res is Ok && final(pool).node(e)
            == ExprType::Value(Value::Bool(short_circuit(*old(pool), old(pool).node(e))->Some_0)),
        fuel > 5 && scoped_short_circuit(*old(pool), old(pool).node(e)) is Some ==> res is Ok && final(pool).node(e)
            == ExprType::Value(Value::Bool(scoped_short_circuit(*old(pool), old(pool).node(e))->Some_0)),
        scoped_tree(*old(pool), old(pool).node(e)) is Some && fuel > 3 * scoped_tree(*old(pool), old(pool).node(e))->Some_0.0
            + 7 ==> tree_result(
            op_tree_value(*old(pool), scoped_tree(*old(pool), old(pool).node(e))->Some_0),
            match res {
                Ok(_) => Ok(final(pool).node(e)),
                Err(er) => Err(er),
            },
        ),
    decreases fuel,
{
    if fuel == 0 {
        return Err(too_deep());
    }
    resolve(pool, host, e, fuel - 1)?;
    match pool.tok(e) {
        ExprType::Value(v) => Ok(v.duplicate()),
        _ => Err(err_msg(ErrorType::NoValue, "Not a value")),
    }
}

/// Evaluates `e` and, inside objects, lists and tuples, every part.
#[verifier::loop_isolation(false)]
pub fn eval_deep<H: ExprBuiltin>(pool: &mut ExprPool, host: &mut H, e: Expr, fuel: u64) -> (res: Result<(), Error>)
    requires
        old(pool).wf(),
        old(pool).valid(e),
    ensures
        grown(*final(pool), *old(pool)),
        res is Ok ==> is_normal(final(pool).node(e)),
        res is Ok ==> deep_evaluated(*final(pool), e, (fuel - 1) as nat),
        evaluated_within(*old(pool), e, fuel as nat) ==> res is Ok && *final(pool) == *old(pool),
        fuel > 3 && short_circuit(*old(pool), old(pool).node(e)) is Some ==> res is Ok && final(pool).node(e)
            == ExprType::Value(Value::Bool(short_circuit(*old(pool), old(pool).node(e))->Some_0)),
        fuel > 5 && scoped_short_circuit(*old(pool), old(pool).node(e)) is Some ==> res is Ok && final(pool).node(e)
            == ExprType::Value(Value::Bool(scoped_short_circuit(*old(pool), old(pool).node(e))->Some_0)),
        scoped_tree(*old(pool), old(pool).node(e)) is Some && fuel > 3 * scoped_tree(*old(pool), old(pool).node(e))->Some_0.0
            + 7 ==> tree_result(
            op_tree_value(*old(pool), scoped_tree(*old(pool), old(pool).node(e))->Some_0),
            match res {
                Ok(_) => Ok(final(pool).node(e)),
                Err(er) => Err(er),
            },
        ),
    decreases fuel,
{
    if fuel == 0 {
        return Err(too_deep());
    }
    let ghost p0 = *pool;
    let ghost ready = evaluated_within(p0, e, fuel as nat);
    resolve(pool, host, e, fuel - 1)?;
    proof { assert(tok_ok(pool.node(e), pool.size())); }
    let parts: Vec<Expr> = match pool.tok(e) {
        ExprType::Object(f) => {
            let mut v: Vec<Expr> = Vec::new();
            let mut i: usize = 0;
            while i < f.len()
                invariant
                    i <= f@.len(),
                    set_ok(f@, pool.size()),
                    vec_ok(v@, pool.size()),
                    v@.len() == i,
                    forall|j: int| 0 <= j < i ==> #[trigger] v@[j] == f@[j].1,
                decreases f@.len() - i,
            {
                assert(f@[i as int].1.0 < pool.size());
                v.push(*f.value_at(i));
                i = i + 1;
            }
            proof { assert(v@ =~= f@.map_values(|x: (Seq<char>, Expr)| x.1)); }
            v
        },
        ExprType::List(v) => copy_exprs(v),
        ExprType::Tuple(v) => copy_exprs(v),
        _ => Vec::new(),
    };
    let ghost p1 = *pool;
    proof { assert(parts@ == parts_of(p1.node(e))); }
    let mut i: usize = 0;
    while i < parts.len()
        invariant
            i <= parts@.len(),
            grown(*pool, p0),
            pool.size() >= p1.size(),
            vec_ok(parts@, p1.size()),
            is_normal(pool.node(e)),
            pool.node(e) == p1.node(e),
            p0.valid(e),
            fuel > 0,
            parts@ == parts_of(p1.node(e)),
            forall|j: int| 0 <= j < i ==> deep_evaluated(*pool, #[trigger] parts@[j], (fuel - 2) as nat),
            ready ==> *pool == p0 && p1 == p0,
        decreases parts@.len() - i,
    {
        let ghost before = *pool;
        assert(parts@[i as int].0 < p1.size());
        proof {
            if ready {
                assert(evaluated_within(p0, parts_of(p0.node(e))[i as int], (fuel - 1) as nat));
            }
        }
        let r = eval_deep(pool, host, parts[i], fuel - 1);
        proof {
            lemma_extends_trans(*pool, before, p0);
            assert(before.nodes()[e.0 as int] == pool.nodes()[e.0 as int]);
        }
        if r.is_err() {
            return r;
        }
        proof {
            assert forall|j: int| 0 <= j < i + 1 implies deep_evaluated(*pool, #[trigger] parts@[j], (fuel - 2) as nat) by {
                if j < i {
                    lemma_deep_evaluated_kept(before, *pool, parts@[j], (fuel - 2) as nat);
                }
            }
        }
        i = i + 1;
    }
    Ok(())
}

impl Expr {
    /// Evaluates the node until its content is data or a function, as the
    /// free function `resolve` does.
    pub fn resolve<H: ExprBuiltin>(&self, pool: &mut ExprPool, host: &mut H) -> (res: Result<(), Error>)
        requires
            old(pool).wf(),
            old(pool).valid(*self),
        ensures
            grown(*final(pool), *old(pool)),
            res is Ok ==> is_normal(final(pool).node(*self)),
            is_normal(old(pool).node(*self)) ==> res is Ok && *final(pool) == *old(pool),
            operands_ready(*old(pool), old(pool).node(*self)) ==> ready_outcome(
                *old(pool),
                *final(pool),
                old(pool).node(*self),
                match res {
                    Ok(_) => Ok(final(pool).node(*self)),
                    Err(er) => Err(er),
                },
            ),
            call_ready(*old(pool), old(pool).node(*self)) ==> call_result(
                *old(pool),
                *final(pool),
                old(pool).node(*self),
                match res {
                    Ok(_) => Ok(final(pool).node(*self)),
                    Err(er) => Err(er),
                },
            ),
            let_ready(*old(pool), old(pool).node(*self)) ==> let_result(
                *old(pool),
                *final(pool),
                old(pool).node(*self),
                match res {
                    Ok(_) => Ok(final(pool).node(*self)),
                    Err(er) => Err(er),
                },
            ),
            short_circuit(*old(pool), old(pool).node(*self)) is Some ==> res is Ok && final(pool).node(*self)
                == ExprType::Value(Value::Bool(short_circuit(*old(pool), old(pool).node(*self))->Some_0)),
            scoped_short_circuit(*old(pool), old(pool).node(*self)) is Some ==> res is Ok && final(pool).node(*self)
                == ExprType::Value(Value::Bool(scoped_short_circuit(*old(pool), old(pool).node(*self))->Some_0)),
            scoped_tree(*old(pool), old(pool).node(*self)) is Some && 3 * scoped_tree(*old(pool), old(pool).node(*self))->Some_0.0
                + 6 < EVAL_FUEL ==> tree_result(
                op_tree_value(*old(pool), scoped_tree(*old(pool), old(pool).node(*self))->Some_0),
                match res {
                    Ok(_) => Ok(final(pool).node(*self)),
                    Err(er) => Err(er),
                },
            ),
    {
        resolve(pool, host, *self, EVAL_FUEL)
    }

    /// Evaluates the node and all parts of the objects, lists and tuples it
    /// holds.
    pub fn eval<H: ExprBuiltin>(&self, pool: &mut ExprPool, host: &mut H) -> (res: Result<(), Error>)
        requires
            old(pool).wf(),
            old(pool).valid(*self),
        ensures
            grown(*final(pool), *old(pool)),
            res is Ok ==> is_normal(final(pool).node(*self)),
            res is Ok ==> deep_evaluated(*final(pool), *self, (EVAL_FUEL - 1) as nat),
            evaluated_within(*old(pool), *self, EVAL_FUEL as nat) ==> res is Ok && *final(pool) == *old(pool),
            short_circuit(*old(pool), old(pool).node(*self)) is Some ==> res is Ok && final(pool).node(*self)
                == ExprType::Value(Value::Bool(short_circuit(*old(pool), old(pool).node(*self))->Some_0)),
            scoped_short_circuit(*old(pool), old(pool).node(*self)) is Some ==> res is Ok && final(pool).node(*self)
                == ExprType::Value(Value::Bool(scoped_short_circuit(*old(pool), old(pool).node(*self))->Some_0)),
            scoped_tree(*old(pool), old(pool).node(*self)) is Some && 3 * scoped_tree(*old(pool), old(pool).node(*self))->Some_0.0
                + 7 < EVAL_FUEL ==> tree_result(
                op_tree_value(*old(pool), scoped_tree(*old(pool), old(pool).node(*self))->Some_0),
                match res {
                    Ok(_) => Ok(final(pool).node(*self)),
                    Err(er) => Err(er),
                },
            ),
    {
        eval_deep(pool, host, *self, EVAL_FUEL)
    }

    /// The value the node evaluates to.
    pub fn value<H: ExprBuiltin>(&self, pool: &mut ExprPool, host: &mut H) -> (res: Result<Value, Error>)
        requires
            old(pool).wf(),
            old(pool).valid(*self),
        ensures
            grown(*final(pool), *old(pool)),
            res matches Ok(v) ==> (final(pool).node(*self) matches ExprType::Value(x) && same_value(v, x)),
            is_normal(old(pool).node(*self)) ==> *final(pool) == *old(pool) && (res is Ok <==> old(pool).node(*self) is Value)
                && (res matches Err(er) ==> er.typ == ErrorType::NoValue),
            short_circuit(*old(pool), old(pool).node(*self)) is Some ==> res is Ok && final(pool).node(*self)
                == ExprType::Value(Value::Bool(short_circuit(*old(pool), old(pool).node(*self))->Some_0)),
            scoped_short_circuit(*old(pool), old(pool).node(*self)) is Some ==> res is Ok && final(pool).node(*self)
                == ExprType::Value(Value::Bool(scoped_short_circuit(*old(pool), old(pool).node(*self))->Some_0)),
            scoped_tree(*old(pool), old(pool).node(*self)) is Some && 3 * scoped_tree(*old(pool), old(pool).node(*self))->Some_0.0
                + 7 < EVAL_FUEL ==> value_result(op_tree_value(*old(pool), scoped_tree(*old(pool), old(pool).node(*self))->Some_0), res),
    {
        value_of(pool, host, *self, EVAL_FUEL)
    }

    /// The string the node evaluates to.
    pub fn eval_string<H: ExprBuiltin>(&self, pool: &mut ExprPool, host: &mut H) -> (res: Result<String, Error>)
        requires
            old(pool).wf(),
            old(pool).valid(*self),
        ensures
            grown(*final(pool), *old(pool)),
            res matches Ok(s) ==> (final(pool).node(*self) matches ExprType::Value(Value::String(x)) && s@ == x@),
            is_normal(old(pool).node(*self)) ==> *final(pool) == *old(pool) && (res is Ok <==> old(pool).node(*self) matches ExprType::Value(Value::String(_)))
                && (res matches Err(er) ==> er.typ == ErrorType::NoValue),
    {
        let v = value_of(pool, host, *self, EVAL_FUEL)?;
        match v {
            Value::String(s) => Ok(s),
            _ => Err(err_msg(ErrorType::NoValue, "Not a string")),
        }
    }

    /// The node of field `name` of the object the node evaluates to.
    pub fn get_item<H: ExprBuiltin>(&self, pool: &mut ExprPool, host: &mut H, name: &str) -> (res: Result<Expr, Error>)
        requires
            old(pool).wf(),
            old(pool).valid(*self),
        ensures
            grown(*final(pool), *old(pool)),
            res matches Ok(f) ==> final(pool).valid(f) && (final(pool).node(*self) matches ExprType::Object(
                fields,
            ) && has_entry(fields@, name@, f)),
            is_normal(old(pool).node(*self)) ==> *final(pool) == *old(pool) && (res matches Err(er) ==> er.typ
                == ErrorType::NoValue && !(old(pool).node(*self) matches ExprType::Object(fs) && has_key(fs@, name@))),
    {
        get_field(pool, host, *self, name, EVAL_FUEL)
    }

    /// A new node holding the builtin `name` that the caller of evaluation
    /// provides.
    pub fn new_builtin(pool: &mut ExprPool, name: &str) -> (res: Expr)
        requires
            old(pool).wf(),
        ensures
            grown(*final(pool), *old(pool)),
            only_pushed(*final(pool), *old(pool)),
            final(pool).valid(res),
            final(pool).node(res) matches ExprType::FuncDefBuiltin(w) && w.0@ == name@ && w.1 == BuiltinKind::External,
    {
        pool.push(ExprType::FuncDefBuiltin(ExprBuiltinWrapper(to_owned_string(name), BuiltinKind::External)), None)
    }

    /// A new object node with one builtin of the caller for each name; a
    /// name given twice is an error.
    #[verifier::loop_isolation(false)]
    pub fn from_builtins(pool: &mut ExprPool, names: &Vec<String>) -> (res: Result<Expr, Error>)
        requires
            old(pool).wf(),
        ensures
            grown(*final(pool), *old(pool)),
            res matches Ok(r) ==> final(pool).valid(r) && (final(pool).node(r) matches ExprType::Object(fields) && (
            forall|k: Seq<char>| #[trigger] has_key(fields@, k) <==> strings_view(names@).contains(k)) && forall|
                k: Seq<char>,
                x: Expr,
            | #[trigger] has_entry(fields@, k, x) ==> final(pool).valid(x) && (final(pool).node(x) matches ExprType::FuncDefBuiltin(
                w,
            ) && w.0@ == k && w.1 == BuiltinKind::External)),
            res matches Err(e) ==> e.typ == ErrorType::DupKey && exists|a: int, b: int|
                0 <= a < b < names@.len() && names@[a]@ == names@[b]@ && e.msg@ == names@[b]@,
            res is Err <==> exists|a: int, b: int| 0 <= a < b < names@.len() && names@[a]@ == names@[b]@,
    {
        let ghost p0 = *pool;
        let mut fields: ImMap<Expr> = ImMap::new();
        let mut i: usize = 0;
        while i < names.len()
            invariant
                i <= names@.len(),
                grown(*pool, p0),
                set_ok(fields@, pool.size()),
                forall|k: Seq<char>| #[trigger] has_key(fields@, k) <==> strings_view(names@).take(i as int).contains(k),
                forall|k: Seq<char>, x: Expr| #[trigger] has_entry(fields@, k, x) ==> pool.valid(x) && (pool.node(x) matches ExprType::FuncDefBuiltin(
                    w,
                ) && w.0@ == k && w.1 == BuiltinKind::External),
                forall|a: int, b: int| 0 <= a < b < i ==> names@[a]@ != names@[b]@,
            decreases names@.len() - i,
        {
            let ghost before = *pool;
            let b = Expr::new_builtin(pool, names[i].as_str());
            proof {
                lemma_extends_trans(*pool, before, p0);
                lemma_set_ok_mono(fields@, before.size(), pool.size());
                assert forall|k: Seq<char>, x: Expr| #[trigger] has_entry(fields@, k, x) implies pool.valid(x) && (pool.node(
                    x,
                ) matches ExprType::FuncDefBuiltin(w) && w.0@ == k && w.1 == BuiltinKind::External) by {
                    lemma_normal_kept(*pool, before, x);
                }
                assert(strings_view(names@).take(i + 1) =~= strings_view(names@).take(i as int).push(names@[i as int]@));
            }
            let ghost f0 = fields@;
            match fields.set_mut(names[i].as_str(), b) {
                Ok(()) => {},
                Err(_) => {
                    proof {
                        let a = choose|a: int| 0 <= a < i && #[trigger] strings_view(names@).take(i as int)[a] == names@[i as int]@;
                        assert(names@[a]@ == names@[i as int]@);
                    }
                    return Err(Error::new(ErrorType::DupKey, names[i].clone()));
                },
            }
            proof {
                let p = choose|p: int| 0 <= p <= f0.len() && fields@ == f0.insert(p, (names@[i as int]@, b));
                assert forall|q: int| 0 <= q < fields@.len() implies (#[trigger] fields@[q]).1.0 < pool.size() by {
                    if q < p {
                        assert(fields@[q] == f0[q]);
                    } else if q > p {
                        assert(fields@[q] == f0[q - 1]);
                    }
                }
                assert forall|k: Seq<char>| #[trigger] has_key(fields@, k) <==> strings_view(names@).take(i + 1).contains(k) by {
                    if has_key(fields@, k) {
                        let q = choose|q: int| 0 <= q < fields@.len() && #[trigger] fields@[q].0 == k;
                        if q == p {
                            assert(strings_view(names@).take(i + 1)[i as int] == k);
                        } else {
                            if q < p {
                                assert(f0[q].0 == k);
                            } else {
                                assert(f0[q - 1].0 == k);
                            }
                            assert(has_key(f0, k));
                            assert(strings_view(names@).take(i as int).contains(k));
                            let a = choose|a: int| 0 <= a < i && #[trigger] strings_view(names@).take(i as int)[a] == k;
                            assert(strings_view(names@).take(i + 1)[a] == k);
                        }
                    }
                    if strings_view(names@).take(i + 1).contains(k) {
                        if k == names@[i as int]@ {
                            assert(fields@[p].0 == k);
                        } else {
                            let a = choose|a: int| 0 <= a < i + 1 && #[trigger] strings_view(names@).take(i + 1)[a] == k;
                            assert(strings_view(names@).take(i as int)[a] == k);
                            assert(has_key(f0, k));
                            let q = choose|q: int| 0 <= q < f0.len() && #[trigger] f0[q].0 == k;
                            if q < p {
                                assert(fields@[q].0 == k);
                            } else {
                                assert(fields@[q + 1].0 == k);
                            }
                        }
                    }
                }
                assert forall|k: Seq<char>, x: Expr| #[trigger] has_entry(fields@, k, x) implies pool.valid(x) && (pool.node(
                    x,
                ) matches ExprType::FuncDefBuiltin(w) && w.0@ == k && w.1 == BuiltinKind::External) by {
                    let q = choose|q: int| 0 <= q < fields@.len() && fields@[q] == (k, x);
                    if q < p {
                        assert(f0[q] == (k, x));
                        assert(has_entry(f0, k, x));
                    } else if q > p {
                        assert(f0[q - 1] == (k, x));
                        assert(has_entry(f0, k, x));
                    }
                }
                assert forall|a: int, c: int| 0 <= a < c < i + 1 implies names@[a]@ != names@[c]@ by {
                    if c == i {
                        assert(strings_view(names@).take(i as int)[a] == names@[a]@);
                    }
                }
            }
            i = i + 1;
        }
        proof { assert(strings_view(names@).take(names@.len() as int) =~= strings_view(names@)); }
        let ghost pf = *pool;
        let r = pool.push(ExprType::Object(fields), None);
        proof {
            assert forall|k: Seq<char>, x: Expr| #[trigger] has_entry(fields@, k, x) implies pool.valid(x) && (pool.node(
                x,
            ) matches ExprType::FuncDefBuiltin(w) && w.0@ == k && w.1 == BuiltinKind::External) by {
                lemma_normal_kept(*pool, pf, x);
            }
        }
        Ok(r)
    }
}

impl Matcher<Expr> {
    /// Matches `e` against the pattern: the variables it binds, each to a
    /// node.
    pub fn run<H: ExprBuiltin>(&self, pool: &mut ExprPool, host: &mut H, e: Expr) -> (res: Result<ImMap<Expr>, Error>)
        requires
            old(pool).wf(),
            old(pool).valid(e),
            matcher_ok(*self, old(pool).size()),
        ensures
            grown(*final(pool), *old(pool)),
            res matches Ok(s) ==> set_ok(s@, final(pool).size()),
            res matches Ok(s) ==> forall|k: Seq<char>| #[trigger] has_key(s@, k) <==> self.bound_names().contains(k),
            *self matches Matcher::Ident(name) ==> (res matches Ok(s) && s@ == seq![(name@, e)]),
            *self is DontCare ==> (res matches Ok(s) && s@.len() == 0),
            *self matches Matcher::Alias(_, name) ==> (res matches Ok(s) ==> has_entry(s@, name@, e)),
            *self matches Matcher::Tuple(ms) ==> (res is Ok ==> (final(pool).node(e) matches ExprType::Tuple(xs)
                && xs@.len() == ms@.len())),
            *self matches Matcher::Object(items, need_all) ==> (res is Ok ==> (final(pool).node(e) matches ExprType::Object(
                fs,
            ) && (forall|i: int| 0 <= i < items@.len() && (#[trigger] items@[i]).2 is None ==> has_key(fs@, items@[i].0@))
                && (need_all ==> forall|k: Seq<char>| #[trigger] has_key(fs@, k) ==> exists|i: int| 0 <= i < items@.len()
                && items@[i].0@ == k))),
            (*self matches Matcher::Object(items, need_all) && plain_items(items@) && old(pool).node(e) matches ExprType::Object(
                fs,
            )) ==> object_match_outcome(old(pool).node(e)->Object_0@, self->Object_0@, self->Object_1, res),
            (*self matches Matcher::Tuple(ms) && plain_matchers(ms@) && old(pool).node(e) matches ExprType::Tuple(xs)) ==> (
            if old(pool).node(e)->Tuple_0@.len() == self->Tuple_0@.len() {
                res matches Ok(s) && tuple_bound(self->Tuple_0@, old(pool).node(e)->Tuple_0@, s@, self->Tuple_0@.len() as int)
            } else {
                res matches Err(er) && er.typ == ErrorType::Type
            }),
    {
        run_matcher(pool, host, self, e, EVAL_FUEL)
    }
}

/// A source `x op y` whose two operands are literals (booleans or numbers)
/// reads to an operator on two value nodes, which evaluation takes in one
/// step, as `ready_outcome` says.
pub proof fn law_literal_operator_ready(code: Seq<char>, pool: ExprPool, e: Expr)
    requires
        pool.wf(),
        pool.valid(e),
        binop_of_source(code, pool, e),
        forall|v: Seq<Token>| #[trigger] tokens_of(code, v) && v.len() == 3 ==> !(v[0].tok is Ident) && !(v[2].tok
            is Ident),
    ensures
        pool.node(e) matches ExprType::BinOp(_, l, r) && pool.node(l) is Value && pool.node(r) is Value,
        operands_ready(pool, pool.node(e)),
{
    let v = choose|v: Seq<Token>| #[trigger] tokens_of(code, v) && v.len() == 3 && binop_node(
        pool,
        e,
        binop_kind(tok_kind(v[1].tok)),
        v[0].tok,
        v[2].tok,
    );
    assert(tok_ok(pool.nodes()[e.0 as int].tok, pool.size()));
}

/// An operator expression of literals (booleans and numbers, no names)
/// reads to an operator tree, so that evaluating it in a scope gives what
/// `op_tree_value` says.
pub proof fn law_literal_expression_tree(q: ExprPool, e: Expr, ts: Seq<Token>, i: int, j: int, level: int)
    requires
        ftree(q, e, ts, i, j, level),
        forall|k: int| i <= k < j ==> !(#[trigger] ts[k].tok is Ident),
    ensures
        op_tree(q, e),
    decreases j - i, level,
{
    if level <= 10 {
        assert(ts[i].tok == ts[i].tok);
    } else {
        let k = if right_assoc(level) {
            first_op(ts, i, j, level)
        } else {
            last_op(ts, i, j, level)
        };
        if !(i < k < j) {
            law_literal_expression_tree(q, e, ts, i, j, level - 1);
        } else {
            let a = q.node(e)->BinOp_1;
            let b = q.node(e)->BinOp_2;
            if right_assoc(level) {
                law_literal_expression_tree(q, a, ts, i, k, level - 1);
                law_literal_expression_tree(q, b, ts, k + 1, j, level);
            } else {
                law_literal_expression_tree(q, a, ts, i, k, level);
                law_literal_expression_tree(q, b, ts, k + 1, j, level - 1);
            }
        }
    }
}

} // verus!
