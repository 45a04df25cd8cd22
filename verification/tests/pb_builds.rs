use lead_build::context::LangContext;
use lead_build::lang::error::ErrorType;
use lead_build::lang::eval::NoBuiltins;
use lead_build::lang::expr::{Expr, ExprPool};
use lead_build::lang::tree::{tree_of, ExprTree};
use lead_build::ninjawriter::NinjaFile;
use lead_build::path::VirtPath;
use lead_build::pbbuild::{add_expr_to_ninjafile, PbBuildRule};
use lead_build::value::Value;

fn load(pool: &mut ExprPool, code: &str) -> Expr {
    let ctx = LangContext::new(pool);
    let file = VirtPath::virtualize("./main.pbb", "root");
    ctx.include_file(pool, &file, code, 0).unwrap()
}

fn ninja_of(code: &str) -> String {
    let mut pool = ExprPool::new();
    let e = load(&mut pool, code);
    let mut nf = NinjaFile::new();
    add_expr_to_ninjafile(&mut pool, &mut NoBuiltins, e, &mut nf, 5000).unwrap();
    assert_eq!(nf.validate(), Vec::<String>::new());
    nf.to_string()
}

fn value_of(code: &str) -> Value {
    let mut pool = ExprPool::new();
    let e = load(&mut pool, code);
    e.value(&mut pool, &mut NoBuiltins).unwrap()
}

#[test]
fn rule_and_build_write_ninja_statements() {
    let code = r#"
|{pb, cwd, ...}|
let
  cc_rule = pb.rule (|{input, output, ...}| {
    command = ["gcc", "-o", output, "-MMD", "-MF", "${output}.d", input];
    depfile = "${output}.d";
  });

  my_build = pb.build {
    rule = cc_rule;
    input = [cwd / "src" / "main.c"];
    output = cwd / "build" / "main.o";
  };
in
  my_build
"#;
    assert_eq!(
        ninja_of(code),
        "rule gcc_o_MMD_MF\n  command = gcc -o ${out} -MMD -MF ${out}.d ${in}\n  depfile = ${out}.d\n\nbuild ./build/main.o: gcc_o_MMD_MF ./src/main.c\n\n"
    );
}

#[test]
fn build_outputs_feed_later_builds() {
    let code = r#"
|{pb, cwd, ...}|
let
  cc_rule = pb.rule (|{input, output, ...}| {
      command = ["gcc", "-c", "-o", output, input];
  });
  link_rule = pb.rule (|{input, output, ...}| {
      command = ["gcc", "-o", output, input];
  });
  objs = [
    (pb.build {
      rule = cc_rule;
      input = [cwd / "src" / "main.c"];
      output = cwd / "build" / "main.o";
    })
  ];
  app = pb.build {
    rule = link_rule;
    input = objs;
    output = cwd / "build" / "app";
  };
in
  app
"#;
    let text = ninja_of(code);
    assert!(text.contains("build ./build/main.o: gcc_c_o ./src/main.c\n"));
    assert!(text.contains("build ./build/app: gcc_o ./build/main.o\n"));
    assert!(text.find("build ./build/main.o").unwrap() < text.find("build ./build/app").unwrap());
}

#[test]
fn lock_keeps_paths_below_it() {
    let code = r#"
|{cwd, pb, ...}|
let
  locked = pb.lock (cwd / "src");
in
  locked / ".."
"#;
    let mut pool = ExprPool::new();
    let e = load(&mut pool, code);
    let r = e.value(&mut pool, &mut NoBuiltins);
    assert!(r.is_err());
}

#[test]
fn retype_changes_suffix() {
    let code = r#"
|{cwd, pb, ...}|
  pb.retype { input = cwd / "src" / "a.c"; from = ".c"; to = ".o"; }
"#;
    match value_of(code) {
        Value::Path(p) => assert_eq!(p.to_path_buf(), "./src/a.o".to_string()),
        v => panic!("not a path: {:?}", v),
    }
}

#[test]
fn translate_moves_between_directories() {
    let code = r#"
|{cwd, pb, ...}|
  pb.translate { input = cwd / "src" / "lib" / "a.c"; from = cwd / "src"; to = cwd / "build"; }
"#;
    match value_of(code) {
        Value::Path(p) => assert_eq!(p.to_path_buf(), "./build/lib/a.c".to_string()),
        v => panic!("not a path: {:?}", v),
    }
}

#[test]
fn rule_without_command_is_named_rule() {
    assert_eq!(PbBuildRule::get_name(&vec![]), "rule".to_string());
}

#[test]
fn not_a_build_is_an_error() {
    let mut pool = ExprPool::new();
    let e = load(&mut pool, "|{...}| 12");
    let mut nf = NinjaFile::new();
    let r = add_expr_to_ninjafile(&mut pool, &mut NoBuiltins, e, &mut nf, 5000);
    assert_eq!(r.unwrap_err().typ, ErrorType::Custom);
}

#[test]
fn file_arguments_hold_cwd() {
    let mut pool = ExprPool::new();
    let e = load(&mut pool, "|{cwd, ...}| cwd");
    e.resolve(&mut pool, &mut NoBuiltins).unwrap();
    match tree_of(&pool, e, 100).unwrap() {
        ExprTree::Value(Value::Path(p)) => assert_eq!(p.to_string(), "[root]/$".to_string()),
        t => panic!("unexpected {:?}", t),
    }
}

#[test]
fn included_file_calls_its_parsed_source() {
    let mut pool = ExprPool::new();
    let e = load(&mut pool, "main_target");
    match tree_of(&pool, e, 10000).unwrap() {
        ExprTree::FuncCall(_, f) => assert_eq!(ExprTree::Var("main_target".into()), *f),
        other => panic!("not a call: {:?}", other),
    }
}

fn rule_error(code: &str) -> lead_build::lang::error::Error {
    let mut pool = ExprPool::new();
    let e = load(&mut pool, code);
    e.value(&mut pool, &mut NoBuiltins).unwrap_err()
}

#[test]
fn rule_of_a_non_pattern_function_is_a_type_error() {
    let err = rule_error("|{pb, ...}| pb.rule (|x| { command = x; })");
    assert_eq!(err.typ, ErrorType::Type);
    assert_eq!(err.msg, "pb.rule needs to take a pattern function as argument");
}

#[test]
fn rule_with_a_default_is_a_type_error() {
    let err = rule_error("|{pb, ...}| pb.rule (|{input, output ? 1, ...}| { command = input; })");
    assert_eq!(err.typ, ErrorType::Type);
    assert_eq!(err.msg, "pb.rule does not support default values for output");
}
