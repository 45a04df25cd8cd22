use lead_build::immap::ImMap;
use lead_build::lang::error::ErrorType;
use lead_build::lang::eval::NoBuiltins;
use lead_build::lang::expr::{Expr, ExprBinOp, ExprMapType, ExprPool, ExprType, ExprUnOp};
use lead_build::lang::tree::{tree_of, ExprTree};
use lead_build::value::Value;

fn int_node(pool: &mut ExprPool, v: i64) -> Expr {
    ExprType::Value(Value::Int(v)).builtin(pool)
}

fn tree(pool: &ExprPool, e: Expr) -> ExprTree {
    tree_of(pool, e, 10000).unwrap()
}

#[test]
fn resolve_negation_of_a_value() {
    let mut pool = ExprPool::new();
    let x = int_node(&mut pool, 3);
    let e = ExprType::UnOp(ExprUnOp::Neg, x).builtin(&mut pool);
    e.resolve(&mut pool, &mut NoBuiltins).unwrap();
    assert_eq!(tree(&pool, e), ExprTree::Value(Value::Int(-3)));
}

#[test]
fn resolve_negation_overflow_is_an_eval_error() {
    let mut pool = ExprPool::new();
    let x = int_node(&mut pool, i64::MIN);
    let e = ExprType::UnOp(ExprUnOp::Neg, x).builtin(&mut pool);
    let err = e.resolve(&mut pool, &mut NoBuiltins).unwrap_err();
    assert_eq!(err.typ, ErrorType::Eval);
}

#[test]
fn resolve_unbound_variable_is_a_scope_error() {
    let mut pool = ExprPool::new();
    let e = ExprType::Var("nope".to_string()).builtin(&mut pool);
    let err = e.resolve(&mut pool, &mut NoBuiltins).unwrap_err();
    assert_eq!(err.typ, ErrorType::Scope);
}

#[test]
fn resolve_field_of_evaluated_object() {
    let mut pool = ExprPool::new();
    let one = int_node(&mut pool, 1);
    let mut fields = ImMap::new();
    fields.upsert("a", one);
    let obj = ExprType::Object(fields).builtin(&mut pool);
    let sel = ExprType::AttrSel(obj, "a".to_string()).builtin(&mut pool);
    sel.resolve(&mut pool, &mut NoBuiltins).unwrap();
    assert_eq!(tree(&pool, sel), ExprTree::Value(Value::Int(1)));
    let missing = ExprType::AttrSel(obj, "b".to_string()).builtin(&mut pool);
    assert_eq!(missing.resolve(&mut pool, &mut NoBuiltins).unwrap_err().typ, ErrorType::NoValue);
}

#[test]
fn resolve_scope_moves_into_object_fields() {
    let mut pool = ExprPool::new();
    let v = ExprType::Var("x".to_string()).builtin(&mut pool);
    let mut fields = ImMap::new();
    fields.upsert("a", v);
    let obj = ExprType::Object(fields).builtin(&mut pool);
    let seven = int_node(&mut pool, 7);
    let mut scope = ImMap::new();
    scope.upsert("x", seven);
    let b = ExprType::Bind(scope, obj).builtin(&mut pool);
    b.resolve(&mut pool, &mut NoBuiltins).unwrap();
    let mut sc = ImMap::new();
    sc.upsert("x", ExprTree::Value(Value::Int(7)));
    let mut expect = ImMap::new();
    expect.upsert("a", ExprTree::Bind(sc, Box::new(ExprTree::Var("x".to_string()))));
    assert_eq!(tree(&pool, b), ExprTree::Object(expect));
}

#[test]
fn resolve_bound_variable_gives_its_value() {
    let mut pool = ExprPool::new();
    let v = ExprType::Var("x".to_string()).builtin(&mut pool);
    let seven = int_node(&mut pool, 7);
    let mut scope = ImMap::new();
    scope.upsert("x", seven);
    let b = ExprType::Bind(scope, v).builtin(&mut pool);
    b.resolve(&mut pool, &mut NoBuiltins).unwrap();
    assert_eq!(tree(&pool, b), ExprTree::Value(Value::Int(7)));
}

#[test]
fn resolve_map_over_evaluated_list_calls_function_on_each_item() {
    let mut pool = ExprPool::new();
    let f = ExprType::Var("f".to_string()).builtin(&mut pool);
    let one = int_node(&mut pool, 1);
    let two = int_node(&mut pool, 2);
    let src = ExprType::List(vec![one, two]).builtin(&mut pool);
    let m = ExprType::MapList(ExprMapType::List, f, src).builtin(&mut pool);
    m.resolve(&mut pool, &mut NoBuiltins).unwrap();
    let call = |v: i64| {
        ExprTree::FuncCall(Box::new(ExprTree::Value(Value::Int(v))), Box::new(ExprTree::Var("f".to_string())))
    };
    assert_eq!(tree(&pool, m), ExprTree::List(vec![call(1), call(2)]));
}

#[test]
fn decided_logic_operators_leave_the_right_operand_alone() {
    for (op, left, want) in [
        (ExprBinOp::LogAnd, false, false),
        (ExprBinOp::LogOr, true, true),
        (ExprBinOp::LogImpl, false, true),
    ] {
        let mut pool = ExprPool::new();
        let a = ExprType::Value(Value::Bool(left)).builtin(&mut pool);
        let b = ExprType::Var("invalid_var".to_string()).builtin(&mut pool);
        let e = ExprType::BinOp(op, a, b).builtin(&mut pool);
        e.resolve(&mut pool, &mut NoBuiltins).unwrap();
        assert_eq!(tree(&pool, e), ExprTree::Value(Value::Bool(want)));
        assert_eq!(tree(&pool, b), ExprTree::Var("invalid_var".into()));
    }
}

#[test]
fn undecided_logic_operator_resolves_the_right_operand() {
    let mut pool = ExprPool::new();
    let a = ExprType::Value(Value::Bool(true)).builtin(&mut pool);
    let b = ExprType::Var("invalid_var".to_string()).builtin(&mut pool);
    let e = ExprType::BinOp(ExprBinOp::LogAnd, a, b).builtin(&mut pool);
    let err = e.resolve(&mut pool, &mut NoBuiltins).unwrap_err();
    assert_eq!(err.typ, ErrorType::Scope);
}

#[test]
fn scoped_integer_operator_evaluates_its_operands() {
    for (op, x, y, want) in [
        (ExprBinOp::Add, 6, 20, 26),
        (ExprBinOp::Sub, 8, 2, 6),
        (ExprBinOp::Mult, 2, 3, 6),
        (ExprBinOp::Div, 8, 2, 4),
    ] {
        let mut pool = ExprPool::new();
        let a = int_node(&mut pool, x);
        let b = int_node(&mut pool, y);
        let inner = ExprType::BinOp(op, a, b).builtin(&mut pool);
        let e = ExprType::Bind(ImMap::new(), inner).builtin(&mut pool);
        e.resolve(&mut pool, &mut NoBuiltins).unwrap();
        assert_eq!(tree(&pool, e), ExprTree::Value(Value::Int(want)));
    }
}

#[test]
fn scoped_integer_overflow_is_an_eval_error() {
    let mut pool = ExprPool::new();
    let a = int_node(&mut pool, i64::MAX);
    let b = int_node(&mut pool, 1);
    let inner = ExprType::BinOp(ExprBinOp::Add, a, b).builtin(&mut pool);
    let e = ExprType::Bind(ImMap::new(), inner).builtin(&mut pool);
    let err = e.resolve(&mut pool, &mut NoBuiltins).unwrap_err();
    assert_eq!(err.typ, ErrorType::Eval);
}

#[test]
fn scoped_decided_logic_operator_skips_the_right_operand() {
    let mut pool = ExprPool::new();
    let a = ExprType::Value(Value::Bool(false)).builtin(&mut pool);
    let b = ExprType::Var("invalid_var".to_string()).builtin(&mut pool);
    let inner = ExprType::BinOp(ExprBinOp::LogImpl, a, b).builtin(&mut pool);
    let e = ExprType::Bind(ImMap::new(), inner).builtin(&mut pool);
    e.resolve(&mut pool, &mut NoBuiltins).unwrap();
    assert_eq!(tree(&pool, e), ExprTree::Value(Value::Bool(true)));
}
