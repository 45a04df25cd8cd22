use lead_build::lang::expr::ExprPool;
use lead_build::lang::parser::parse_str;

fn export(code: &str) -> String {
    let mut pool = ExprPool::new();
    let e = parse_str(&mut pool, code, 1).unwrap();
    e.export(&pool).unwrap()
}

#[test]
fn export_object_with_list() {
    assert_eq!(export("{ a = [1, 2]; }"), "{\n  a = [\n    1\n    2\n  ];\n}");
}

#[test]
fn export_binop_and_attr() {
    assert_eq!(export("a.b + 1"), "(a.b)+(1)");
}

#[test]
fn export_tuple_single() {
    assert_eq!(export("(1,)"), "(1,)");
}

#[test]
fn export_lambda_and_string() {
    assert_eq!(export("|x| \"s\""), "|x| \"s\"");
}

#[test]
fn export_is_stable_under_reparse() {
    let first = export("let a = 1; b = { c = a; }; in b.c");
    assert_eq!(export(&first), first);
}
