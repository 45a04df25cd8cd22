use lead_build::immap::ImMap;
use lead_build::lang::expr::{ExprBinOp, ExprPool, Matcher};
use lead_build::lang::parser::parse_str;
use lead_build::lang::tree::{tree_of, ExprTree};
use lead_build::value::Value;

fn parse(code: &str) -> ExprTree {
    let mut pool = ExprPool::new();
    let e = parse_str(&mut pool, code, 1).unwrap();
    tree_of(&pool, e, 10000).unwrap()
}

fn parses(code: &str) -> bool {
    let mut pool = ExprPool::new();
    parse_str(&mut pool, code, 1).is_ok()
}

fn num(v: i64) -> ExprTree {
    ExprTree::Value(Value::Int(v))
}

fn text(s: &str) -> ExprTree {
    ExprTree::Value(Value::String(s.to_string()))
}

fn obj(fields: Vec<(&str, ExprTree)>) -> ExprTree {
    ExprTree::Object(ImMap::from(fields.into_iter().map(|(k, v)| (k.to_string(), v)).collect()).unwrap())
}

fn add(a: ExprTree, b: ExprTree) -> ExprTree {
    ExprTree::BinOp(ExprBinOp::Add, Box::new(a), Box::new(b))
}

#[test]
fn parser_test_parse_int() {
    assert_eq!(num(1231), parse("1231"));
}

#[test]
fn parser_test_parse_obj() {
    let code = r#"
            {
                boll = 123;
                hej = 323;
            }
        "#;
    assert_eq!(obj(vec![("boll", num(123)), ("hej", num(323))]), parse(code));
}

#[test]
fn parser_test_parse_obj_in_obj() {
    let code = r#"
            {
                boll = 123;
                hej = { a=2; b=3; };
            }
        "#;
    assert_eq!(
        obj(vec![("boll", num(123)), ("hej", obj(vec![("a", num(2)), ("b", num(3))]))]),
        parse(code)
    );
}

#[test]
fn test_parse_str_unicode() {
    let code = "\"boll\\\"hej\\u0041\"";
    assert_eq!(text("boll\"hejA"), parse(code));
}

#[test]
fn test_parse_str_var() {
    let code = "\"prefix${myvar}suffix\"";
    assert_eq!(add(add(text("prefix"), ExprTree::Var("myvar".into())), text("suffix")), parse(code));
}

#[test]
fn test_parse_str_obj() {
    let code = "\"prefix${{a = 12;}}suffix\"";
    assert_eq!(add(add(text("prefix"), obj(vec![("a", num(12))])), text("suffix")), parse(code));
}

#[test]
fn test_parse_str_obj_expr() {
    let code = "\"prefix${({a = 12;} // {b = 13;}).b}mid${44}\"";
    assert_eq!(
        add(add(add(parse("\"prefix\""), parse("({a = 12;} // {b = 13;}).b")), parse("\"mid\"")), parse("44")),
        parse(code)
    );
}

#[test]
fn parser_test_parse_func_call() {
    assert_eq!(
        ExprTree::FuncCall(Box::new(num(12)), Box::new(ExprTree::Var("hej".into()))),
        parse("hej 12")
    );
}

#[test]
fn parser_test_parse_func_def_pattern_non_var_1() {
    assert!(!parses("{ hej, hopp, svej }: 12"));
}

#[test]
fn parser_test_parse_func_def_pattern_non_var_2() {
    assert!(!parses("{ hej, hopp, svej, }: 12"));
}

#[test]
fn parser_test_parse_let() {
    assert_eq!(
        ExprTree::Let(
            vec![(Matcher::Ident("a".into()), num(21)), (Matcher::Ident("b".into()), num(33))],
            Box::new(num(434)),
        ),
        parse("let a = 21; b = 33; in 434")
    );
}

#[test]
fn test_parse_add_mul_prio() {
    assert_eq!(
        add(
            ExprTree::BinOp(ExprBinOp::Mult, Box::new(num(2)), Box::new(num(3))),
            ExprTree::BinOp(ExprBinOp::Mult, Box::new(num(4)), Box::new(num(5)))
        ),
        parse("2 * 3 + 4 * 5")
    );
}

#[test]
fn parser_test_bool_op() {
    assert_eq!(
        ExprTree::BinOp(
            ExprBinOp::LogOr,
            Box::new(ExprTree::Value(Value::Bool(false))),
            Box::new(ExprTree::Value(Value::Bool(true)))
        ),
        parse("false || true")
    );
}

#[test]
fn test_parse_list() {
    assert!(parses("[]"));
    assert!(parses("[1]"));
    assert!(parses("[1,2]"));
    assert!(parses("[1,2,]"));
    assert!(!parses("[,1,2]"));
    assert!(!parses("[1,,2]"));
    assert!(!parses("[1,2,,]"));
}

#[test]
fn grammar_test_parse_int() {
    assert_eq!(num(1231), parse("1231"));
}

#[test]
fn grammar_test_parse_obj() {
    let code = r#"
            {
                boll = 123;
                hej = 323;
            }
        "#;
    assert_eq!(obj(vec![("boll", num(123)), ("hej", num(323))]), parse(code));
}

#[test]
fn grammar_test_parse_obj_in_obj() {
    let code = r#"
            {
                boll = 123;
                hej = { a=2; b=3; };
            }
        "#;
    assert_eq!(
        obj(vec![("boll", num(123)), ("hej", obj(vec![("a", num(2)), ("b", num(3))]))]),
        parse(code)
    );
}

#[test]
fn grammar_test_parse_str() {
    let code = "\"boll\\\"hej\\u0041\"";
    assert_eq!(text("boll\"hejA"), parse(code));
}

#[test]
fn parser_test_parse_str() {
    let code = "\"boll\\\"hej\\u0041\"";
    assert_eq!(text("boll\"hejA"), parse(code));
}

#[test]
fn grammar_test_parse_func_call() {
    assert_eq!(
        ExprTree::FuncCall(Box::new(num(12)), Box::new(ExprTree::Var("hej".into()))),
        parse("hej 12")
    );
}

#[test]
fn grammar_test_parse_func_def_pattern_non_var_1() {
    assert!(!parses("{ hej, hopp, svej }: 12"));
}

#[test]
fn grammar_test_parse_func_def_pattern_non_var_2() {
    assert!(!parses("{ hej, hopp, svej, }: 12"));
}

#[test]
fn grammar_test_parse_let() {
    assert_eq!(
        ExprTree::Let(
            vec![(Matcher::Ident("a".into()), num(21)), (Matcher::Ident("b".into()), num(33))],
            Box::new(num(434)),
        ),
        parse("let a = 21; b = 33; in 434")
    );
}

#[test]
fn lone_name_parses_to_variable() {
    assert_eq!(ExprTree::Var("target".into()), parse("  target  # the one name\n"));
}

#[test]
fn lone_boolean_parses_to_value() {
    assert_eq!(ExprTree::Value(Value::Bool(true)), parse("true"));
    assert_eq!(ExprTree::Value(Value::Bool(false)), parse("\n false\t"));
}

fn var(n: &str) -> ExprTree {
    ExprTree::Var(n.into())
}

fn binop(op: ExprBinOp, a: ExprTree, b: ExprTree) -> ExprTree {
    ExprTree::BinOp(op, Box::new(a), Box::new(b))
}

#[test]
fn operator_between_two_names_parses_to_binop() {
    let cases = [
        ("a && b", ExprBinOp::LogAnd),
        ("a || b", ExprBinOp::LogOr),
        ("a -> b", ExprBinOp::LogImpl),
        ("a + b", ExprBinOp::Add),
        ("a - b", ExprBinOp::Sub),
        ("a * b", ExprBinOp::Mult),
        ("a / b", ExprBinOp::Div),
        ("a ++ b", ExprBinOp::ListConcat),
        ("a // b", ExprBinOp::Update),
        ("a < b", ExprBinOp::Lt),
        ("a <= b", ExprBinOp::Le),
        ("a > b", ExprBinOp::Gt),
        ("a >= b", ExprBinOp::Ge),
        ("a == b", ExprBinOp::Eq),
        ("a != b", ExprBinOp::Neq),
    ];
    for (code, op) in cases {
        assert_eq!(binop(op, var("a"), var("b")), parse(code), "{}", code);
    }
}

#[test]
fn operator_between_booleans_parses_to_binop() {
    let t = || ExprTree::Value(Value::Bool(true));
    let f = || ExprTree::Value(Value::Bool(false));
    assert_eq!(binop(ExprBinOp::LogImpl, f(), var("invalid_var")), parse("false -> invalid_var"));
    assert_eq!(binop(ExprBinOp::LogOr, t(), f()), parse("true || false"));
}

#[test]
fn numbers_parse_alone_and_around_operators() {
    assert_eq!(num(42), parse(" 42 "));
    assert_eq!(binop(ExprBinOp::Add, num(6), num(20)), parse("6 + 20"));
    assert_eq!(binop(ExprBinOp::Mult, num(2), var("x")), parse("2 * x"));
}

#[test]
fn operator_chains_group_by_level() {
    assert_eq!(
        binop(ExprBinOp::Add, binop(ExprBinOp::Mult, num(2), num(3)), binop(ExprBinOp::Mult, num(4), num(5))),
        parse("2 * 3 + 4 * 5")
    );
    assert_eq!(binop(ExprBinOp::Div, binop(ExprBinOp::Div, num(8), num(2)), num(2)), parse("8 / 2 / 2"));
    assert_eq!(binop(ExprBinOp::Sub, binop(ExprBinOp::Sub, num(8), num(2)), num(2)), parse("8 - 2 - 2"));
    assert_eq!(
        binop(
            ExprBinOp::LogOr,
            binop(ExprBinOp::LogAnd, binop(ExprBinOp::Lt, var("a"), var("b")), binop(ExprBinOp::Eq, var("c"), var("d"))),
            var("e"),
        ),
        parse("a < b && c == d || e")
    );
}

#[test]
fn right_grouping_operators_chain_to_the_right() {
    assert_eq!(
        binop(ExprBinOp::LogImpl, var("a"), binop(ExprBinOp::LogImpl, var("b"), var("c"))),
        parse("a -> b -> c")
    );
    assert_eq!(
        binop(ExprBinOp::Update, var("a"), binop(ExprBinOp::Update, var("b"), var("c"))),
        parse("a // b // c")
    );
    assert_eq!(
        binop(ExprBinOp::LogImpl, binop(ExprBinOp::LogOr, var("a"), var("b")), var("c")),
        parse("a || b -> c")
    );
    assert_eq!(
        binop(ExprBinOp::Add, binop(ExprBinOp::ListConcat, var("x"), binop(ExprBinOp::ListConcat, var("y"), var("z"))), num(1)),
        parse("x ++ y ++ z + 1")
    );
}
