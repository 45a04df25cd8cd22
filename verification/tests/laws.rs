use lead_build::immap::ImMap;
use lead_build::lang::eval::NoBuiltins;
use lead_build::lang::expr::{ExprPool, ExprType, Matcher};
use lead_build::lang::parser::parse_str;
use lead_build::lang::tree::{tree_of, ExprTree};
use lead_build::path::VirtPath;
use lead_build::stringdecode::{string_decode, StringType};
use lead_build::value::Value;

fn eval(code: &str) -> ExprTree {
    let mut pool = ExprPool::new();
    let e = parse_str(&mut pool, code, 1).unwrap();
    let b = ExprType::Bind(ImMap::new(), e).builtin(&mut pool);
    b.eval(&mut pool, &mut NoBuiltins).unwrap();
    tree_of(&pool, b, 10000).unwrap()
}

#[test]
fn law_step_down_then_up_gives_same_path() {
    let p = VirtPath::new("root").step("a").unwrap();
    let q = p.clone().step("b").unwrap().step("..").unwrap();
    assert_eq!(p, q);
}

#[test]
fn law_lock_keeps_location_but_blocks_parent() {
    let p = VirtPath::virtualize("./dir/file.c", "r");
    let locked = p.clone().lock();
    assert_eq!(locked.to_path_buf(), p.to_path_buf());
    assert!(locked.step("..").is_none());
}

#[test]
fn law_translate_round_trip() {
    let src = VirtPath::virtualize("./src", "s");
    let build = VirtPath::virtualize("./build", "b");
    let file = src.clone().step("x").unwrap().step("y.c").unwrap();
    let there = file.clone().translate(&src, &build).unwrap();
    assert_eq!(there.to_path_buf(), "./build/x/y.c".to_string());
    let back = there.translate(&build, &src).unwrap();
    assert_eq!(back, file);
}

#[test]
fn law_equality_symmetric() {
    assert_eq!(eval("\"a\" == \"a\""), ExprTree::Value(Value::Bool(true)));
    assert_eq!(eval("1 == 2"), eval("2 == 1"));
    assert_eq!(eval("1 != 2"), ExprTree::Value(Value::Bool(true)));
}

#[test]
fn law_comparison_flips() {
    assert_eq!(eval("1 < 2"), eval("2 > 1"));
    assert_eq!(eval("\"abc\" <= \"abd\""), eval("\"abd\" >= \"abc\""));
    assert_eq!(eval("\"b\" < \"a\""), ExprTree::Value(Value::Bool(false)));
}

#[test]
fn law_plain_text_decodes_to_itself() {
    assert_eq!(string_decode("no substitution"), Some(vec![StringType::Str("no substitution".into())]));
}

#[test]
fn law_one_value_per_key() {
    let m = ImMap::from(vec![("a".to_string(), 1u64), ("b".to_string(), 2u64)]).unwrap();
    assert_eq!(m.get("a"), Some(&1));
    assert!(ImMap::from(vec![("a".to_string(), 1u64), ("a".to_string(), 2u64)]).is_err());
    let m2 = m.set("c", 3).unwrap();
    assert_eq!(m2.get("c"), Some(&3));
    assert_eq!(m2.get("a"), Some(&1));
    assert!(m2.set("a", 5).is_err());
}

#[test]
fn law_merge_prefers_other() {
    let a = ImMap::from(vec![("x".to_string(), 1u64), ("y".to_string(), 2u64)]).unwrap();
    let b = ImMap::from(vec![("y".to_string(), 20u64), ("z".to_string(), 30u64)]).unwrap();
    let m = a.merge(&b);
    assert_eq!(m.get("x"), Some(&1));
    assert_eq!(m.get("y"), Some(&20));
    assert_eq!(m.get("z"), Some(&30));
    assert_eq!(m.len(), 3);
}

#[test]
fn law_pattern_binds_exactly_its_names() {
    let mut pool = ExprPool::new();
    let f = parse_str(&mut pool, "|{a = x, b ? 3, ...} @ whole| 0", 1).unwrap();
    let arg = parse_str(&mut pool, "{ a = 1; c = 2; }", 1).unwrap();
    let m = match tree_of(&pool, f, 100).unwrap() {
        ExprTree::FuncDef(_, _) => match pool.tok(f) {
            ExprType::FuncDef(m, _) => m.duplicate(),
            _ => unreachable!(),
        },
        _ => unreachable!(),
    };
    let vars = m.run(&mut pool, &mut NoBuiltins, arg).unwrap();
    let keys: Vec<String> = (0..vars.len()).map(|i| vars.key_at(i).clone()).collect();
    assert_eq!(keys, vec!["b".to_string(), "whole".to_string(), "x".to_string()]);
    assert!(matches!(m, Matcher::Alias(_, _)));
}

#[test]
fn law_evaluated_node_is_kept() {
    let mut pool = ExprPool::new();
    let e = parse_str(&mut pool, "let a = 2; in a * 21", 1).unwrap();
    let b = ExprType::Bind(ImMap::new(), e).builtin(&mut pool);
    b.resolve(&mut pool, &mut NoBuiltins).unwrap();
    let size = pool.len();
    let first = tree_of(&pool, b, 100).unwrap();
    b.resolve(&mut pool, &mut NoBuiltins).unwrap();
    assert_eq!(pool.len(), size);
    assert_eq!(tree_of(&pool, b, 100).unwrap(), first);
    assert_eq!(first, ExprTree::Value(Value::Int(42)));
}

fn resolve_parsed(code: &str) -> ExprTree {
    let mut pool = ExprPool::new();
    let e = parse_str(&mut pool, code, 1).unwrap();
    e.resolve(&mut pool, &mut NoBuiltins).unwrap();
    tree_of(&pool, e, 10000).unwrap()
}

#[test]
fn literal_operator_takes_one_step() {
    assert_eq!(resolve_parsed("6 + 20"), ExprTree::Value(Value::Int(26)));
    assert_eq!(resolve_parsed("8 / 2"), ExprTree::Value(Value::Int(4)));
    assert_eq!(resolve_parsed("true && false"), ExprTree::Value(Value::Bool(false)));
    assert_eq!(resolve_parsed("false -> invalid_var"), ExprTree::Value(Value::Bool(true)));
    assert_eq!(eval("6 + 20"), ExprTree::Value(Value::Int(26)));
    assert_eq!(eval("false || true"), ExprTree::Value(Value::Bool(true)));
}

#[test]
fn literal_expression_evaluates_as_its_tree() {
    assert_eq!(eval("2 * 3 + 4 * 5"), ExprTree::Value(Value::Int(26)));
    assert_eq!(eval("8 / 2 / 2"), ExprTree::Value(Value::Int(2)));
    assert_eq!(eval("8 - 2 - 2"), ExprTree::Value(Value::Int(4)));
    assert_eq!(eval("1 < 2 && 3 == 3 || false"), ExprTree::Value(Value::Bool(true)));
    assert_eq!(eval("true && 12"), ExprTree::Value(Value::Int(12)));
}
