use lead_build::immap::ImMap;
use lead_build::lang::error::{Error, ErrorType};
use lead_build::lang::eval::NoBuiltins;
use lead_build::lang::expr::{ExprPool, ExprType};
use lead_build::lang::parser::{parse_str, unescape_str};

fn eval_err(code: &str) -> Error {
    let mut pool = ExprPool::new();
    let e = match parse_str(&mut pool, code, 1) {
        Ok(e) => e,
        Err(err) => return err,
    };
    let b = ExprType::Bind(ImMap::new(), e).builtin(&mut pool);
    b.eval(&mut pool, &mut NoBuiltins).unwrap_err()
}

#[test]
fn parse_error_kind_and_place() {
    let err = eval_err("{ a = 1 }");
    assert_eq!(err.typ, ErrorType::Parse);
    assert_eq!(err.locs.len(), 1);
    assert_eq!(err.locs[0].left, 8);
}

#[test]
fn parse_error_at_end_of_input() {
    let err = eval_err("[1, 2");
    assert_eq!(err.typ, ErrorType::Parse);
    assert!(err.msg.starts_with("Unexpected end of file"));
}

#[test]
fn invalid_character_is_a_parse_error() {
    assert_eq!(eval_err("1 ^ 2").typ, ErrorType::Parse);
}

#[test]
fn unknown_variable_is_a_scope_error() {
    let err = eval_err("nothing");
    assert_eq!(err.typ, ErrorType::Scope);
    assert_eq!(err.msg, "Unknown variable nothing");
}

#[test]
fn overflow_is_an_eval_error() {
    assert_eq!(eval_err("9223372036854775807 + 1").typ, ErrorType::Eval);
    assert_eq!(eval_err("1 / 0").typ, ErrorType::Eval);
}

#[test]
fn mixed_operands_are_a_type_error() {
    assert_eq!(eval_err("1 + true").typ, ErrorType::Type);
    assert_eq!(eval_err("(1, 2) 3").typ, ErrorType::Scope);
}

#[test]
fn rebinding_is_a_duplicate_key() {
    let err = eval_err("let a = 1; a = 2; in a");
    assert_eq!(err.typ, ErrorType::DupKey);
    assert_eq!(err.msg, "a");
}

#[test]
fn missing_field_is_no_value() {
    let err = eval_err("{ a = 1; }.b");
    assert_eq!(err.typ, ErrorType::NoValue);
    assert_eq!(err.msg, "Invalid field 'b'");
}

#[test]
fn message_names_kind() {
    let err = Error::new(ErrorType::Type, "bad".to_string());
    assert_eq!(err.message(), "Type error: bad\n".to_string());
}

#[test]
fn unicode_escape_must_be_valid() {
    assert_eq!(unescape_str("a\\u0042c").unwrap(), "aBc".to_string());
    assert!(unescape_str("\\ud800").is_err());
    assert!(unescape_str("\\u12").is_err());
    assert_eq!(unescape_str("x\\ty").unwrap(), "x\ty".to_string());
}

#[test]
fn string_substitution_adds_parts() {
    let mut pool = ExprPool::new();
    let e = parse_str(&mut pool, "let who = \"world\"; in \"hello ${who}\"", 1).unwrap();
    let b = ExprType::Bind(ImMap::new(), e).builtin(&mut pool);
    assert_eq!(b.eval_string(&mut pool, &mut NoBuiltins).unwrap(), "hello world".to_string());
}

#[test]
fn add_builtin_refuses_a_name_already_there() {
    let mut pool = ExprPool::new();
    let mut ctx = lead_build::context::LangContext::new(&mut pool);
    let one = ExprType::Value(lead_build::value::Value::Int(1)).builtin(&mut pool);
    let two = ExprType::Value(lead_build::value::Value::Int(2)).builtin(&mut pool);
    assert!(ctx.add_builtin("mine", one).is_ok());
    let err = ctx.add_builtin("mine", two).unwrap_err();
    assert_eq!(err.typ, ErrorType::DupKey);
    assert_eq!(err.msg, "mine");
    assert_eq!(ctx.add_builtin("pb", two).unwrap_err().typ, ErrorType::DupKey);
    assert!(ctx.add_builtin("other", two).is_ok());
}
