use lead_build::immap::ImMap;
use lead_build::lang::error::Error;
use lead_build::lang::eval::{ExprBuiltin, NoBuiltins};
use lead_build::lang::expr::{Expr, ExprPool, ExprType};
use lead_build::lang::parser::parse_str;
use lead_build::lang::tree::{tree_of, ExprTree};
use lead_build::value::Value;

fn tree(pool: &ExprPool, e: Expr) -> ExprTree {
    tree_of(pool, e, 10000).unwrap()
}

fn eval_in<H: ExprBuiltin>(pool: &mut ExprPool, host: &mut H, code: &str, scope: ImMap<Expr>) -> Result<Expr, Error> {
    let e = parse_str(pool, code, 1).unwrap();
    let b = ExprType::Bind(scope, e).builtin(pool);
    b.eval(pool, host)?;
    Ok(b)
}

fn eval(code: &str) -> ExprTree {
    let mut pool = ExprPool::new();
    let b = eval_in(&mut pool, &mut NoBuiltins, code, ImMap::new()).unwrap();
    tree(&pool, b)
}

fn int_tree(v: i64) -> ExprTree {
    ExprTree::Value(Value::Int(v))
}

struct CountingBuiltin {
    count: i32,
}

impl ExprBuiltin for CountingBuiltin {
    fn call(&mut self, _pool: &mut ExprPool, _name: &String, arg: Expr) -> Result<Expr, Error> {
        self.count += 1;
        Ok(arg)
    }
}

#[test]
fn test_resolve() {
    let mut pool = ExprPool::new();
    let code = r#"
                {
                    stuff = "hello";
                    something = "hej";
                }
            "#;
    let expr = parse_str(&mut pool, code, 1).unwrap();
    let value = expr.get_item(&mut pool, &mut NoBuiltins, "stuff").unwrap();
    assert_eq!(tree(&pool, value), ExprTree::Value(Value::String("hello".to_string())));
}

#[test]
fn test_eval_obj() {
    assert_eq!(eval("{ a = (let x = 3; in x); }"), eval("{ a = 3; }"));
}

#[test]
fn test_eval_list() {
    assert_eq!(eval("[ (let x = 3; in x) ]"), eval("[ 3 ]"));
}

#[test]
fn test_func_in_let_res() {
    assert_eq!(eval("let a = |x| (x+1); in (a 12)"), eval("13"));
}

#[test]
fn test_resolve_deep() {
    let mut pool = ExprPool::new();
    let code = r#"
                {
                    stuff = "hello";
                    something = {
                        inner = 55;
                    };
                }
            "#;
    let expr = parse_str(&mut pool, code, 1).unwrap();
    let something = expr.get_item(&mut pool, &mut NoBuiltins, "something").unwrap();
    let value = something.get_item(&mut pool, &mut NoBuiltins, "inner").unwrap();
    assert_eq!(tree(&pool, value), int_tree(55));
}

#[test]
fn tests_test_let() {
    assert_eq!(eval("let x = 12; in (let a = 21; b = 37; in (a+x))"), eval("33"));
}

#[test]
fn test_let_pattern() {
    assert_eq!(
        eval(
            r#"
            let
                x = { b = 32; a = 12; };
                { a = newvar, ... } = x;
            in
                newvar
            "#
        ),
        eval("12")
    );
}

#[test]
fn test_bind() {
    assert_eq!(eval("let x = 12; in (bind a = 21; b = 37; in a)"), eval("21"));
}

#[test]
#[should_panic]
fn test_bind_error() {
    eval("let x = 12; in (bind a = 21; in x)");
}

#[test]
fn tests_test_invalid_var() {
    let mut pool = ExprPool::new();
    let e = parse_str(&mut pool, "invalid_var", 1).unwrap();
    let b = ExprType::Bind(ImMap::new(), e).builtin(&mut pool);
    match b.resolve(&mut pool, &mut NoBuiltins) {
        Err(Error { msg, .. }) => assert_eq!(msg.as_str(), "Unknown variable invalid_var"),
        Ok(()) => assert!(false),
    }
}

#[test]
fn tests_test_let_set_var() {
    assert_eq!(
        eval(
            r#"
                let
                    a = 12;
                in
                {
                    stuff = a;
                }
            "#
        ),
        eval("{ stuff = 12; }"),
    );
}

#[test]
fn test_let_set_var_seq() {
    assert_eq!(
        eval(
            r#"
                let
                    a = 12;
                    b = a;
                in
                {
                    stuff = b;
                }
            "#
        ),
        eval("{ stuff = 12; }"),
    );
}

#[test]
fn tests_test_func_call() {
    let mut pool = ExprPool::new();
    let func_a = parse_str(&mut pool, "|var| 13", 1).unwrap();
    let func_b = parse_str(&mut pool, "|var| 42", 1).unwrap();
    let call = parse_str(&mut pool, "func_b 32", 1).unwrap();
    let varscope = ImMap::from(vec![("func_a".to_string(), func_a), ("func_b".to_string(), func_b)]).unwrap();
    let value = ExprType::Bind(varscope, call).builtin(&mut pool);
    value.resolve(&mut pool, &mut NoBuiltins).unwrap();
    assert_eq!(tree(&pool, value), int_tree(42));
}

#[test]
fn tests_test_func_call_var_arg() {
    let mut pool = ExprPool::new();
    let func_var = parse_str(&mut pool, "|var| var", 1).unwrap();
    let arg_var = parse_str(&mut pool, "32", 1).unwrap();
    let call = parse_str(&mut pool, "func arg", 1).unwrap();
    let varscope = ImMap::from(vec![("func".to_string(), func_var), ("arg".to_string(), arg_var)]).unwrap();
    let value = ExprType::Bind(varscope, call).builtin(&mut pool);
    value.resolve(&mut pool, &mut NoBuiltins).unwrap();
    assert_eq!(tree(&pool, value), int_tree(32));
}

#[test]
fn test_func_call_order() {
    assert_eq!(eval("let f = |a| |b| (a+b); in (f 3 4)"), eval("7"));
}

#[test]
fn tests_test_func_call_resolved() {
    assert_eq!(
        eval(
            r#"
                let
                    a = 12;
                    func = |test| {
                        var = test;
                    };
                in
                {
                    stuff = func a;
                }
            "#
        ),
        eval("{ stuff = { var = 12; }; }"),
    );
}

#[test]
fn test_func_call_bound() {
    assert_eq!(
        eval(
            r#"
                let
                    a = 12;
                    func = |test| {
                        var = a;
                    };
                in
                {
                    stuff = func 77;
                }
            "#
        ),
        eval("{ stuff = { var = 12; }; }"),
    );
}

#[test]
fn tests_test_func_call_resolved_stacked_let() {
    assert_eq!(
        eval(
            r#"
                let
                    a = 12;
                in
                let
                    func = |test| {
                        var = test;
                    };
                in
                {
                    stuff = func a;
                }
            "#
        ),
        eval("{ stuff = { var = 12; }; }"),
    );
}

#[test]
fn tests_test_func_call_pattern() {
    assert_eq!(
        eval(
            r#"
                let
                    a = 12;
                    b = 13;
                    func = |{ a, b, ... }| {
                        var = b;
                    };
                in
                {
                    stuff = func {
                        a = 15;
                        b = 74;
                    };
                }
            "#
        ),
        eval("{ stuff = { var = 74; }; }"),
    );
}

#[test]
#[should_panic]
fn test_func_call_pattern_needall() {
    eval(
        r#"
                let
                    func = |{ a, b }| {
                        var = b;
                    };
                in
                {
                    stuff = func {
                        a = 15;
                        b = 74;
                        c = 123;
                    };
                }
            "#,
    );
}

#[test]
#[should_panic]
fn test_func_call_pattern_extra_args() {
    assert_eq!(
        eval(
            r#"
                let
                    func = |{ a, b, ... }| {
                        var = b;
                    };
                in
                {
                    stuff = func {
                        a = 15;
                        b = 74;
                        c = 123;
                    };
                }
            "#,
        ),
        eval("{var = 74;}")
    );
}

#[test]
fn test_var_through_func_call() {
    assert_eq!(
        eval(
            r#"
                let
                    func = (|a| a+2);
                in
                let
                    myvar = 13;
                in
                (func myvar)
            "#
        ),
        eval("15"),
    );
}

#[test]
fn tests_test_eval() {
    assert_eq!(
        eval(
            r#"
                let
                    a = 12;
                    b = { inner = 43; };
                    myfunc = |{target, ...}| { var = b; };
                in
                {
                    app = myfunc {
                        target = "app.elf";
                    };
                }
            "#
        ),
        eval("{ app = { var = { inner = 43; }; }; }"),
    );
}

#[test]
fn test_arith() {
    assert_eq!(eval("2 * 3 + 4 * 5"), eval("6 + 20"));
    assert_eq!(eval("6 + 20"), eval("26"));
}

#[test]
fn tests_test_bool_op() {
    assert_eq!(eval("false || 12"), eval("12"));
    assert_eq!(eval("true || 12"), eval("true"));
    assert_eq!(eval("false && 12"), eval("false"));
    assert_eq!(eval("true && 12"), eval("12"));
}

#[test]
fn test_bool_laziness() {
    assert_eq!(eval("true || invalid_var"), eval("true"));
    assert_eq!(eval("false && invalid_var"), eval("false"));
    assert_eq!(eval("false -> invalid_var"), eval("true"));
}

#[test]
fn test_bool_implication() {
    assert_eq!(eval("false -> false"), eval("true"));
    assert_eq!(eval("false -> true"), eval("true"));
    assert_eq!(eval("true -> false"), eval("false"));
    assert_eq!(eval("true -> true"), eval("true"));
    assert_eq!(eval("false -> 12"), eval("true"));
    assert_eq!(eval("true -> 12"), eval("12"));
}

#[test]
fn test_bool_not() {
    assert_eq!(eval("!true"), eval("false"));
    assert_eq!(eval("!false"), eval("true"));
}

#[test]
fn test_bool_neg() {
    assert_eq!(eval("let a = 5; in (-a) + 3"), eval("-2"));
}

#[test]
fn test_func_call_laziness() {
    assert_eq!(
        eval(
            r#"
                let
                    myfunc = not_a_function;
                    lazy_func_call = myfunc 72;
                in
                    false && lazy_func_call
                "#
        ),
        eval("false")
    );
}

#[test]
fn test_parse_func_call_from_obj() {
    assert_eq!(eval("let lib = { func = |a| a+3; }; in (lib.func 7)"), eval("10"));
}

#[test]
fn test_parse_func_call_match_tuple() {
    assert_eq!(
        eval(
            r#"
        let
            func = |(a,b)| 10*a + b;
        in
            func (3,4)
        "#
        ),
        eval("34")
    );
}

#[test]
fn test_parse_func_call_match_alias() {
    assert_eq!(
        eval(
            r#"
        let
            func = |(a,b @ bx) @ x| {
                a = a;
                b = b;
                bx = bx;
                x = x;
            };
        in
            func (3,4)
        "#
        ),
        eval(
            r#"
            {
                a = 3;
                b = 4;
                bx = 4;
                x = (3,4);
            }
        "#
        )
    );
}

#[test]
fn test_parse_func_call_match_obj_rename() {
    assert_eq!(
        eval(
            r#"
        let
            a = 10;
            b = 11;
            func = |{a = ax, b = _}| {
                a = a;
                b = b;
                ax = ax;
            };
        in
            func { a = 20; b = 21; }
        "#
        ),
        eval(
            r#"
            {
                a = 10;
                b = 11;
                ax = 20;
            }
        "#
        )
    );
}

#[test]
fn test_parse_func_no_args() {
    assert_eq!(
        eval(
            r#"
        let
            func = | | 12;
        in
            func
        "#
        ),
        eval("12")
    );
}

#[test]
fn test_parse_func_multi_args() {
    assert_eq!(
        eval(
            r#"
        let
            func = |a b c| 100*a + 10*b + 1*c;
            x = func 2 3;
        in
            x 4
        "#
        ),
        eval("234")
    );
}

#[test]
fn test_parse_func_multi_args_syntax() {
    assert_eq!(eval("|a b c| x"), eval("|a| |b| |c| x"));
}

#[test]
fn test_multi_level_obj() {
    assert_eq!(eval("let a = { b = { c = 3; }; }; in a.b.c"), eval("3"));
}

#[test]
fn test_list_concat() {
    assert_eq!(eval("[1, 3, 5, 7] + [2, 4, 6, 8]"), eval("[1, 3, 5, 7, 2, 4, 6, 8]"));
}

#[test]
fn test_tuple() {
    assert_eq!(eval("let a=1; b=2; in (a,b)"), eval("(1,2)"));
}

#[test]
fn test_tuple_single_item() {
    assert_ne!(eval("(1,)"), eval("(1)"));
}

#[test]
fn test_tuple_empty() {
    assert_eq!(eval("(,)"), ExprTree::Tuple(vec![]));
}

#[test]
fn test_list_commas() {
    assert_eq!(eval("[1, 3, 5, 7,]"), eval("[1, 3, 5, 7]"));
}

#[test]
fn test_list_fold() {
    assert_eq!(eval("(|prev field| (prev*10 + field) <- 7 .. [1, 2, 3] )"), eval("7123"));
}

#[test]
fn test_list_map_list_to_list() {
    assert_eq!(eval("[ |a| (a*2) <- [1, 2, 3] ]"), eval("[2, 4, 6]"));
}

#[test]
fn test_list_map_list_to_obj() {
    assert_eq!(eval("{ |a| (a, 3) <- [\"a\", \"b\", \"c\"] }"), eval("{a=3; b=3; c=3;}"));
}

#[test]
fn test_list_map_obj_to_list() {
    assert_eq!(eval("[ |(k, v)| v <- {a=1; b=2; c=3;} ]"), eval("[1, 2, 3]"));
}

#[test]
fn test_list_map_obj_to_obj() {
    assert_eq!(eval("{ |(k, v)| (k, v*3) <- {a=1; b=2; c=3;} }"), eval("{a=3; b=6; c=9;}"));
}

#[test]
fn test_div_precedence() {
    assert_eq!(eval("8 / 2 / 2"), eval("2"));
}

#[test]
fn test_sub_precedence() {
    assert_eq!(eval("8 - 2 - 2"), eval("4"));
}

#[test]
fn test_builtin_func() {
    let mut pool = ExprPool::new();
    let mut counter = CountingBuiltin { count: 0 };
    let b = Expr::new_builtin(&mut pool, "mybuiltin");
    let builtins = ImMap::single("mybuiltin", b);
    let expr = eval_in(&mut pool, &mut counter, "mybuiltin 10", builtins).unwrap();
    assert_eq!(tree(&pool, expr), eval("10"));
}

#[test]
fn test_builtin_func_laziness_multiple_calls() {
    let code = r#"
                let
                    func_call = mybuiltin 10;
                in
                {
                    a = func_call;
                    b = func_call;
                }
            "#;
    let mut pool = ExprPool::new();
    let mut counter = CountingBuiltin { count: 0 };
    let b = Expr::new_builtin(&mut pool, "mybuiltin");
    let builtins = ImMap::single("mybuiltin", b);
    let expr = eval_in(&mut pool, &mut counter, code, builtins).unwrap();
    assert_eq!(tree(&pool, expr), eval("{ a = 10; b = 10; }"));
    assert_eq!(counter.count, 1);
}

#[test]
fn test_builtin_func_laziness_no_calls() {
    let code = r#"
                let
                    func_call = mybuiltin 10;
                in
                {}
            "#;
    let mut pool = ExprPool::new();
    let mut counter = CountingBuiltin { count: 0 };
    let b = Expr::new_builtin(&mut pool, "mybuiltin");
    let builtins = ImMap::single("mybuiltin", b);
    let expr = eval_in(&mut pool, &mut counter, code, builtins).unwrap();
    assert_eq!(tree(&pool, expr), eval("{}"));
    assert_eq!(counter.count, 0);
}

#[test]
fn datamodel_test_eval() {
    let mut pool = ExprPool::new();
    let code = r#"
                {
                    stuff = "hello";
                    something = "hej";
                }
            "#;
    let expr = parse_str(&mut pool, code, 1).unwrap();
    let value = expr.get_item(&mut pool, &mut NoBuiltins, "stuff").unwrap();
    assert_eq!(tree(&pool, value), ExprTree::Value(Value::String("hello".to_string())));
}

#[test]
fn test_eval_deep() {
    // "inner" starts with the keyword "in" and is still a name
    let mut pool = ExprPool::new();
    let code = r#"
                {
                    stuff = "hello";
                    something = {
                        inner = "deep";
                    };
                }
            "#;
    let expr = parse_str(&mut pool, code, 1).unwrap();
    let something = expr.get_item(&mut pool, &mut NoBuiltins, "something").unwrap();
    let value = something.get_item(&mut pool, &mut NoBuiltins, "inner").unwrap();
    assert_eq!(tree(&pool, value), ExprTree::Value(Value::String("deep".to_string())));
}

#[test]
fn datamodel_test_let() {
    let code = r#"
                let
                    a = 12;
                    b = "hello";
                in
                b
            "#;
    assert_eq!(eval(code), ExprTree::Value(Value::String("hello".to_string())));
}

#[test]
fn datamodel_test_let_set_var() {
    let mut pool = ExprPool::new();
    let code = r#"
                let
                    a = 12;
                in
                {
                    stuff = a;
                }
            "#;
    let b = eval_in(&mut pool, &mut NoBuiltins, code, ImMap::new()).unwrap();
    let value = b.get_item(&mut pool, &mut NoBuiltins, "stuff").unwrap();
    assert_eq!(tree(&pool, value), int_tree(12));
}

fn eval_err(code: &str) -> Error {
    let mut pool = ExprPool::new();
    match eval_in(&mut pool, &mut NoBuiltins, code, ImMap::new()) {
        Err(e) => e,
        Ok(_) => panic!("evaluation succeeded"),
    }
}

#[test]
fn pattern_missing_field_names_it() {
    let e = eval_err("(|{ a, b }| a) { a = 1; }");
    assert_eq!(e.msg.as_str(), "Expected field 'b' not found");
}

#[test]
fn pattern_extra_field_is_refused() {
    let e = eval_err("(|{ a }| a) { a = 1; c = 2; }");
    assert_eq!(e.msg.as_str(), "Extra fields passed to function");
}

#[test]
fn pattern_default_used_when_field_absent() {
    assert_eq!(eval("(|{ a, b ? 7 }| a + b) { a = 1; }"), eval("8"));
}

#[test]
fn identity_function_returns_its_argument() {
    assert_eq!(eval("(|x| x) 5"), eval("5"));
}
