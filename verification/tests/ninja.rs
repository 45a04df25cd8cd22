use lead_build::ninjawriter::{NinjaArg, NinjaBuild, NinjaFile, NinjaRule, NinjaRuleRef};
use lead_build::path::VirtPath;

fn c(s: &str) -> NinjaArg {
    NinjaArg::Const(s.to_string())
}

fn lines(v: &[&str]) -> String {
    v.join("\n")
}

#[test]
fn test_write_rule() {
    let mut rule = NinjaRule::new("test");
    rule.var("deps", vec![c("boll"), c("something")])
        .var("something", vec![c("stuff"), c("stuff"), NinjaArg::Var("in".into())]);
    assert_eq!(
        rule.to_string(),
        lines(&["rule test", "  deps = boll something", "  something = stuff stuff ${in}", "", ""])
    );
}

#[test]
fn test_esc_string() {
    let mut rule = NinjaRule::new("r$a");
    rule.var("a b", vec![c("a$b"), c("a b")]).var("b", vec![c("a\nb"), c("a:b")]);
    assert_eq!(
        rule.to_string(),
        lines(&["rule r$$a", "  a$ b = a$$b a$ b", "  b = a$", "    b a$:b", "", ""])
    );
}

#[test]
fn test_build() {
    let mut rule = NinjaRule::new("r$a");
    rule.var("a b", vec![c("a$b"), c("a b")]).var("b", vec![c("a\nb"), c("a:b")]);
    let mut build = NinjaBuild::new(&rule.as_ref());
    build
        .input(c("boll"))
        .input(c("hej"))
        .output(c("dest"))
        .output(c("destb"))
        .var("tjo", vec![c("xx")]);
    let output = format!("{}{}", rule.to_string(), build.to_string());
    assert_eq!(
        output,
        lines(&[
            "rule r$$a",
            "  a$ b = a$$b a$ b",
            "  b = a$",
            "    b a$:b",
            "",
            "build dest destb: r$$a boll hej",
            "  tjo = xx",
            "",
            ""
        ])
    );
}

#[test]
fn test_build_deps() {
    let rule = NinjaRule::new("rule");
    let mut build = NinjaBuild::new(&rule.as_ref());
    build.input(c("in")).output(c("out")).dep(c("dep"));
    let output = format!("{}{}", rule.to_string(), build.to_string());
    assert_eq!(output, lines(&["rule rule", "", "build out: rule in | dep", "", ""]));
}

#[test]
fn test_build_default() {
    let rule = NinjaRule::new("rule");
    let mut build = NinjaBuild::new(&rule.as_ref());
    build.input(c("in")).output(c("out")).set_default();
    let output = format!("{}{}", rule.to_string(), build.to_string());
    assert_eq!(
        output,
        lines(&["rule rule", "", "build out: rule in", "", "default out", "", ""])
    );
}

#[test]
fn test_file() {
    let mut file = NinjaFile::new();

    let rule1 = file.rule(1, "test1").var("x", vec![c("stuff")]).as_ref();
    let _rule2 = file.rule(2, "test2").var("y", vec![c("stuff")]).as_ref();

    file.build(3, &rule1).input(c("in1_1")).input(c("in1_2")).output(c("out1"));

    assert_eq!(
        file.to_string(),
        lines(&[
            "rule test1",
            "  x = stuff",
            "",
            "rule test2",
            "  y = stuff",
            "",
            "build out1: test1 in1_1 in1_2",
            "",
            ""
        ])
    );
}

#[test]
fn test_file_unique_rules() {
    let mut file = NinjaFile::new();

    assert_eq!(file.rule(1, "test").as_ref(), NinjaRuleRef("test".into()));
    assert_eq!(file.rule(2, "test").as_ref(), NinjaRuleRef("test1".into()));
    assert_eq!(file.rule(3, "x").as_ref(), NinjaRuleRef("x".into()));
    assert_eq!(file.rule(4, "test").as_ref(), NinjaRuleRef("test2".into()));
    assert_eq!(file.rule(5, "x").as_ref(), NinjaRuleRef("x1".into()));
    assert_eq!(file.rule(6, "test").as_ref(), NinjaRuleRef("test3".into()));
    assert_eq!(file.rule(7, "test").as_ref(), NinjaRuleRef("test4".into()));
    assert_eq!(file.rule(8, "x").as_ref(), NinjaRuleRef("x2".into()));
}

#[test]
fn test_ref_unique_name() {
    let mut file = NinjaFile::new();

    let _rule = file.rule(1, "test").as_ref();
    let rule1 = file.rule(2, "test").as_ref();
    let rule2 = file.rule(3, "test").as_ref();

    file.build(4, &rule1)
        .output(NinjaArg::Path(VirtPath::new("root").step("out1").unwrap()))
        .set_default();
    file.build(5, &rule2).output(NinjaArg::Path(VirtPath::new("root").step("out2").unwrap()));

    assert_eq!(file.validate(), Vec::<String>::new());

    assert_eq!(
        file.to_string(),
        lines(&[
            "rule test",
            "",
            "rule test1",
            "",
            "rule test2",
            "",
            "build ./out1: test1",
            "",
            "default ./out1",
            "",
            "build ./out2: test2",
            "",
            ""
        ])
    );
}

#[test]
fn test_variable_output_name() {
    let mut file = NinjaFile::new();
    let rule = file.rule(1, "test").as_ref();
    file.build(2, &rule).output(NinjaArg::Var("out1".into()));
    assert_eq!(file.validate().len(), 1);
}

#[test]
fn test_multiple_same_targets() {
    let mut file = NinjaFile::new();
    let rule = file.rule(1, "test").as_ref();
    file.build(2, &rule).output(NinjaArg::Path(VirtPath::new("root").step("file").unwrap()));
    file.build(3, &rule).output(NinjaArg::Path(VirtPath::new("root").step("file").unwrap()));
    assert_eq!(file.validate(), vec!["Multiple builds generating: ./file".to_string()]);
}
