//! Build rules and build steps (`pb.rule`, `pb.build`) and the path
//! builtins of `pb`, and how builds are added to a Ninja file.
use std::rc::Rc;
use vstd::prelude::*;

use crate::immap::ImMap;
use crate::ninjawriter::{
    arg_text, first_free, has_id, has_pair, id_put, keeps_entries, lemma_id_put_has, lemma_id_put_keeps, lemma_keeps_trans, NinjaArg,
    NinjaBuild, NinjaFile, NinjaRule, NinjaRuleRef, NinjaVar,
};
use crate::path::{path_text, retyped, translated, PathModel, VirtPath};
use crate::text::{i64_to_string, int_text, push_char, push_str, str_eq, to_owned_string};
use crate::value::{rc_clone, same_value, Value};
use crate::lang::error::{Error, ErrorType};
use crate::lang::eval::{
    applied, call_ready, call_result, call_steps_to, err_msg, err_name, get_field, grown, items_present, lemma_applied_set_ok,
    lemma_set_ok_mono, no_extra, object_args, object_call_ok, only_pushed, operands_ready, plain_items, ready_outcome, resolve,
    value_of, ExprBuiltin,
};
use crate::lang::expr::{
    copy_exprs, is_normal, lemma_extends_trans, lemma_normal_kept, set_ok, tok_ok, vec_ok, BuiltinKind, Expr, ExprBuiltinWrapper,
    ExprPool, ExprType, Matcher,
};
use crate::immap::{has_entry, has_key, law_one_value_per_key, sorted_keys};

verus! {

/// A build rule: a command template with named placeholders.
#[derive(Debug, PartialEq)]
pub struct PbBuildRule {
    pub id: usize,
    pub name: String,
    /// The placeholder names, in ascending order.
    pub rule_args: ImMap<bool>,
    pub rule_vars: Vec<(String, Vec<NinjaArg>)>,
}

/// A build step: a rule applied to inputs and outputs.
#[derive(Debug, PartialEq)]
pub struct PbBuild {
    pub id: usize,
    pub rule: Rc<PbBuildRule>,
    pub input: Vec<NinjaArg>,
    pub output: Vec<NinjaArg>,
    pub args: ImMap<Vec<NinjaArg>>,
    pub deps: Vec<Rc<PbBuild>>,
}

/// How a build names its files: ` ` and the path text for a file, `??`
/// for anything else.
pub open spec fn files_text(v: Seq<NinjaArg>) -> Seq<char>
    decreases v.len(),
{
    if v.len() == 0 {
        seq![]
    } else {
        files_text(v.drop_last()) + match v.last() {
            NinjaArg::Path(p) => seq![' '] + path_text(p@),
            _ => seq!['?', '?'],
        }
    }
}

/// The display text of a build: `rule( outputs <- inputs )`.
pub open spec fn build_display(b: PbBuild) -> Seq<char> {
    b.rule.name@ + seq!['('] + files_text(b.output@) + seq![' ', '<', '-'] + files_text(b.input@)
        + seq![' ', ')']
}

fn write_files(v: &Vec<NinjaArg>, out: &mut String)
    ensures
        final(out)@ == old(out)@ + files_text(v@),
{
    let mut i: usize = 0;
    assert(v@.take(0) =~= Seq::<NinjaArg>::empty());
    while i < v.len()
        invariant
            i <= v@.len(),
            out@ == old(out)@ + files_text(v@.take(i as int)),
        decreases v.len() - i,
    {
        match &v[i] {
            NinjaArg::Path(p) => {
                push_char(out, ' ');
                let t = p.to_path_buf();
                push_str(out, t.as_str());
            },
            _ => {
                push_char(out, '?');
                push_char(out, '?');
            },
        }
        assert(v@.take(i + 1).drop_last() =~= v@.take(i as int));
        i = i + 1;
    }
    assert(v@.take(v.len() as int) =~= v@);
}

impl PbBuild {
    /// The display text of the build.
    pub fn to_string(&self) -> (res: String)
        ensures
            res@ == build_display(*self),
    {
        let mut out = String::new();
        push_str(&mut out, self.rule.name.as_str());
        push_char(&mut out, '(');
        write_files(&self.output, &mut out);
        push_char(&mut out, ' ');
        push_char(&mut out, '<');
        push_char(&mut out, '-');
        write_files(&self.input, &mut out);
        push_char(&mut out, ' ');
        push_char(&mut out, ')');
        assert(out@ =~= build_display(*self));
        out
    }
}


/// Whether `c` has the Unicode `Alphabetic` property (`char::is_alphabetic`).
pub uninterp spec fn alphabetic(c: char) -> bool;

/// `char::is_alphabetic`: whether the character has the Unicode
/// `Alphabetic` property. The contract names that property and says
/// nothing more of it.
#[verifier::external_body]
fn char_is_alphabetic(c: char) -> (res: bool)
    ensures
        res == alphabetic(c),
{
    c.is_alphabetic()
}

/// The alphabetic characters of `s`, in order.
pub open spec fn alpha_only(s: Seq<char>) -> Seq<char>
    decreases s.len(),
{
    if s.len() == 0 {
        seq![]
    } else {
        alpha_only(s.drop_last()) + if alphabetic(s.last()) {
            seq![s.last()]
        } else {
            seq![]
        }
    }
}

/// What one command argument adds to a rule name: the letters of a
/// literal, nothing for anything else.
pub open spec fn arg_part(a: NinjaArg) -> Seq<char> {
    match a {
        NinjaArg::Const(x) => alpha_only(x@),
        _ => seq![],
    }
}

/// The non-empty parts of the arguments, in order.
pub open spec fn name_parts(args: Seq<NinjaArg>) -> Seq<Seq<char>>
    decreases args.len(),
{
    if args.len() == 0 {
        seq![]
    } else if arg_part(args.last()).len() > 0 {
        name_parts(args.drop_last()).push(arg_part(args.last()))
    } else {
        name_parts(args.drop_last())
    }
}

/// The parts joined with `_`.
pub open spec fn join_underscore(parts: Seq<Seq<char>>) -> Seq<char>
    decreases parts.len(),
{
    if parts.len() == 0 {
        seq![]
    } else if parts.len() == 1 {
        parts[0]
    } else {
        join_underscore(parts.drop_last()) + seq!['_'] + parts.last()
    }
}

/// Index of the first variable named `command`.
pub open spec fn first_command(vars: Seq<(String, Vec<NinjaArg>)>) -> Option<int>
    decreases vars.len(),
{
    if vars.len() == 0 {
        None
    } else {
        match first_command(vars.drop_last()) {
            Some(i) => Some(i),
            None => if vars.last().0@ == "command"@ {
                Some(vars.len() - 1)
            } else {
                None
            },
        }
    }
}

/// The descriptive name of a rule: the letters of the literal parts among
/// the first five arguments of its `command`, joined with `_`; `rule` when
/// that is empty or there is no command.
pub open spec fn rule_name(vars: Seq<(String, Vec<NinjaArg>)>) -> Seq<char> {
    match first_command(vars) {
        Some(i) => {
            let args = vars[i].1@;
            let j = join_underscore(name_parts(args.take(if args.len() < 5 { args.len() as int } else { 5 })));
            if j.len() == 0 {
                "rule"@
            } else {
                j
            }
        },
        None => "rule"@,
    }
}

fn letters_of(x: &String) -> (res: String)
    ensures
        res@ == alpha_only(x@),
{
    let cs = crate::text::chars_of(x.as_str());
    let mut out = String::new();
    let mut i: usize = 0;
    while i < cs.len()
        invariant
            i <= cs@.len(),
            cs@ == x@,
            out@ == alpha_only(cs@.take(i as int)),
        decreases cs.len() - i,
    {
        assert(cs@.take(i + 1).drop_last() =~= cs@.take(i as int));
        if char_is_alphabetic(cs[i]) {
            push_char(&mut out, cs[i]);
        }
        i = i + 1;
    }
    assert(cs@.take(cs@.len() as int) =~= cs@);
    out
}

impl PbBuildRule {
    /// The descriptive name for a rule with the variables `rule_vars`.
    /// Names need not be unique: the Ninja file numbers repeated names.
    pub fn get_name(rule_vars: &Vec<(String, Vec<NinjaArg>)>) -> (res: String)
        ensures
            res@ == rule_name(rule_vars@),
    {
        proof { reveal_strlit("rule"); reveal_strlit("command"); }
        let mut k: usize = 0;
        while k < rule_vars.len()
            invariant
                k <= rule_vars@.len(),
                first_command(rule_vars@.take(k as int)) is None,
            ensures
                k <= rule_vars@.len(),
                first_command(rule_vars@.take(k as int)) is None,
                k < rule_vars@.len() ==> rule_vars@[k as int].0@ == "command"@,
            decreases rule_vars.len() - k,
        {
            assert(rule_vars@.take(k + 1).drop_last() =~= rule_vars@.take(k as int));
            if str_eq(rule_vars[k].0.as_str(), "command") {
                break;
            }
            k = k + 1;
        }
        proof {
            lemma_first_command_prefix(rule_vars@, k as int);
        }
        if k == rule_vars.len() {
            return to_owned_string("rule");
        }
        let args = &rule_vars[k].1;
        let n: usize = if args.len() < 5 { args.len() } else { 5 };
        let mut out = String::new();
        let mut count: usize = 0;
        let mut i: usize = 0;
        while i < n
            invariant
                i <= n,
                n <= args@.len(),
                out@ == join_underscore(name_parts(args@.take(i as int))),
                count == name_parts(args@.take(i as int)).len(),
                count <= i,
            decreases n - i,
        {
            assert(args@.take(i + 1).drop_last() =~= args@.take(i as int));
            let part = match &args[i] {
                NinjaArg::Const(x) => letters_of(x),
                _ => String::new(),
            };
            if crate::text::chars_of(part.as_str()).len() > 0 {
                proof {
                    assert(part@.len() > 0);
                }
                if count > 0 {
                    push_char(&mut out, '_');
                }
                push_str(&mut out, part.as_str());
                proof {
                    let ps = name_parts(args@.take(i + 1));
                    assert(ps == name_parts(args@.take(i as int)).push(part@));
                    if count > 0 {
                        assert(ps.drop_last() == name_parts(args@.take(i as int)));
                    } else {
                        assert(out@ =~= part@);
                    }
                }
                count = count + 1;
            } else {
                proof {
                    assert(part@.len() == 0);
                }
            }
            i = i + 1;
        }
        if crate::text::chars_of(out.as_str()).len() == 0 {
            to_owned_string("rule")
        } else {
            out
        }
    }
}

proof fn lemma_first_command_prefix(vars: Seq<(String, Vec<NinjaArg>)>, k: int)
    requires
        0 <= k <= vars.len(),
        first_command(vars.take(k)) is None,
        k < vars.len() ==> vars[k].0@ == "command"@,
    ensures
        k == vars.len() ==> first_command(vars) is None,
        k < vars.len() ==> first_command(vars) == Some(k),
    decreases vars.len() - k,
{
    if k < vars.len() {
        assert(vars.take(k + 1).drop_last() =~= vars.take(k));
        lemma_first_command_extend(vars, k + 1, k);
    } else {
        assert(vars.take(k) =~= vars);
    }
}

proof fn lemma_first_command_extend(vars: Seq<(String, Vec<NinjaArg>)>, m: int, k: int)
    requires
        0 <= k < m <= vars.len(),
        first_command(vars.take(m)) == Some(k),
    ensures
        first_command(vars) == Some(k),
    decreases vars.len() - m,
{
    if m < vars.len() {
        assert(vars.take(m + 1).drop_last() =~= vars.take(m));
        lemma_first_command_extend(vars, m + 1, k);
    } else {
        assert(vars.take(m) =~= vars);
    }
}

/// Values that stand for one argument of a Ninja statement directly.
pub open spec fn is_simple(v: Value) -> bool {
    v is Int || v is String || v is Path || v is BuildVar
}

/// Values that can be written into a Ninja statement: simple values, a
/// build with one output, and text of simple values.
pub open spec fn ninja_convertible(v: Value) -> bool {
    match v {
        Value::Build(b) => b.output@.len() == 1,
        Value::BuildConcat(vs) => forall|i: int| 0 <= i < vs@.len() ==> is_simple(#[trigger] vs@[i]),
        Value::Bool(_) | Value::BuildRule(_) => false,
        _ => true,
    }
}

/// `a` is the Ninja argument for the simple value `v`.
pub open spec fn simple_arg(v: Value, a: NinjaArg) -> bool {
    match v {
        Value::Int(x) => a matches NinjaArg::Const(s) && s@ == int_text(x as int),
        Value::String(x) => a matches NinjaArg::Const(s) && s@ == x@,
        Value::Path(p) => a matches NinjaArg::Path(q) && q@ == p@,
        Value::BuildVar(x) => a matches NinjaArg::Var(s) && s@ == x@,
        _ => false,
    }
}

fn simple_to_arg(v: &Value) -> (res: NinjaArg)
    requires
        is_simple(*v),
    ensures
        simple_arg(*v, res),
{
    match v {
        Value::Int(x) => NinjaArg::Const(i64_to_string(*x)),
        Value::String(x) => NinjaArg::Const(x.clone()),
        Value::Path(p) => NinjaArg::Path(p.duplicate()),
        Value::BuildVar(x) => NinjaArg::Var(x.clone()),
        _ => NinjaArg::Const(String::new()),
    }
}

fn value_is_simple(v: &Value) -> (res: bool)
    ensures
        res == is_simple(*v),
{
    match v {
        Value::Int(_) => true,
        Value::String(_) => true,
        Value::Path(_) => true,
        Value::BuildVar(_) => true,
        _ => false,
    }
}

/// Whether the value can be written into a Ninja statement.
pub fn is_ninja_convertible(v: &Value) -> (res: bool)
    ensures
        res == ninja_convertible(*v),
{
    match v {
        Value::Int(_) | Value::String(_) | Value::Path(_) | Value::BuildVar(_) => true,
        Value::Build(b) => b.output.len() == 1,
        Value::BuildConcat(vs) => {
            let mut i: usize = 0;
            while i < vs.len()
                invariant
                    i <= vs@.len(),
                    *v == Value::BuildConcat(*vs),
                    forall|j: int| 0 <= j < i ==> is_simple(#[trigger] vs@[j]),
                decreases vs.len() - i,
            {
                if !value_is_simple(&vs[i]) {
                    proof {
                        let ghost w = *v;
                        assert(w is BuildConcat);
                        assert(w->BuildConcat_0@ == vs@);
                        assert(!is_simple(w->BuildConcat_0@[i as int]));
                    }
                    return false;
                }
                i = i + 1;
            }
            true
        },
        _ => false,
    }
}

/// `a` is the Ninja argument for the value `v`: a literal for integers and
/// strings, the file for a path, the only output of a build, a variable
/// reference for a placeholder, and the parts of a text one after the other.
pub open spec fn arg_of(v: Value, a: NinjaArg) -> bool {
    &&& ninja_convertible(v)
    &&& match v {
        Value::Build(b) => forall|i: nat| #[trigger] arg_text(a, i) == arg_text(b.output@[0], i),
        Value::BuildConcat(vs) => a matches NinjaArg::Concat(xs) && xs@.len() == vs@.len() && forall|j: int|
            0 <= j < vs@.len() ==> simple_arg(#[trigger] vs@[j], xs@[j]),
        _ => simple_arg(v, a),
    }
}

/// The Ninja argument for a value that can be written into a statement.
pub fn value_to_ninja_arg(attr: &Value) -> (res: NinjaArg)
    requires
        ninja_convertible(*attr),
    ensures
        arg_of(*attr, res),
{
    match attr {
        Value::Build(b) => b.output[0].duplicate(),
        Value::BuildConcat(vs) => {
            let mut xs: Vec<NinjaArg> = Vec::new();
            let mut i: usize = 0;
            while i < vs.len()
                invariant
                    i <= vs@.len(),
                    *attr == Value::BuildConcat(*vs),
                    forall|j: int| 0 <= j < vs@.len() ==> is_simple(#[trigger] vs@[j]),
                    xs@.len() == i,
                    forall|j: int| 0 <= j < i ==> simple_arg(#[trigger] vs@[j], xs@[j]),
                decreases vs.len() - i,
            {
                assert(is_simple(vs@[i as int]));
                xs.push(simple_to_arg(&vs[i]));
                i = i + 1;
            }
            NinjaArg::Concat(xs)
        },
        _ => simple_to_arg(attr),
    }
}

fn dup_args(v: &Vec<NinjaArg>) -> (res: Vec<NinjaArg>)
    ensures
        res@.len() == v@.len(),
        forall|j: int, i: nat| 0 <= j < v@.len() ==> #[trigger] arg_text(res@[j], i) == arg_text(v@[j], i),
{
    let mut out: Vec<NinjaArg> = Vec::new();
    let mut k: usize = 0;
    while k < v.len()
        invariant
            k <= v@.len(),
            out@.len() == k,
            forall|j: int, i: nat| 0 <= j < k ==> #[trigger] arg_text(out@[j], i) == arg_text(v@[j], i),
        decreases v.len() - k,
    {
        out.push(v[k].duplicate());
        k = k + 1;
    }
    out
}

/// Two argument lists that are written alike at every indentation.
pub open spec fn args_match(a: Seq<NinjaArg>, b: Seq<NinjaArg>) -> bool {
    &&& a.len() == b.len()
    &&& forall|j: int, n: nat| 0 <= j < a.len() ==> #[trigger] arg_text(a[j], n) == arg_text(b[j], n)
}

/// Variable assignments with the names and, written alike, the arguments of
/// `rv`, in its order.
pub open spec fn vars_match(vs: Seq<NinjaVar>, rv: Seq<(Seq<char>, Seq<NinjaArg>)>) -> bool {
    &&& vs.len() == rv.len()
    &&& forall|i: int| 0 <= i < vs.len() ==> (#[trigger] vs[i]).name@ == rv[i].0 && args_match(vs[i].args@, rv[i].1)
}

/// The names and argument lists of rule variables.
pub open spec fn rule_vars_view(rv: Seq<(String, Vec<NinjaArg>)>) -> Seq<(Seq<char>, Seq<NinjaArg>)> {
    rv.map_values(|x: (String, Vec<NinjaArg>)| (x.0@, x.1@))
}

/// The names and argument lists of build variables.
pub open spec fn build_vars_view(args: Seq<(Seq<char>, Vec<NinjaArg>)>) -> Seq<(Seq<char>, Seq<NinjaArg>)> {
    args.map_values(|x: (Seq<char>, Vec<NinjaArg>)| (x.0, x.1@))
}

/// Build statement `b` is the one written for `pb`: its inputs, outputs and
/// variables written alike, in order, and no order dependencies.
pub open spec fn build_statement(b: NinjaBuild, pb: PbBuild) -> bool {
    &&& args_match(b.inputs@, pb.input@)
    &&& args_match(b.outputs@, pb.output@)
    &&& b.deps@.len() == 0
    &&& !b.is_default
    &&& vars_match(b.vars@, build_vars_view(pb.args@))
}

impl PbBuildRule {
    /// Adds the rule to the Ninja file under its number, unless it is there
    /// already; the reference to it.
    pub fn populate_ninja_file(&self, nf: &mut NinjaFile) -> (res: NinjaRuleRef)
        requires
            old(nf).wf(),
        ensures
            final(nf).wf(),
            has_id(final(nf).rule_entries(), self.id),
            forall|k: usize| has_id(old(nf).rule_entries(), k) ==> has_id(final(nf).rule_entries(), k),
            final(nf).build_entries() == old(nf).build_entries(),
            exists|i: int| 0 <= i < final(nf).rule_entries().len() && #[trigger] final(nf).rule_entries()[i].0 == self.id
                && final(nf).rule_entries()[i].1.name@ == res.0@,
            has_id(old(nf).rule_entries(), self.id) ==> *final(nf) == *old(nf),
            keeps_entries(old(nf).rule_entries(), final(nf).rule_entries()),
            !has_id(old(nf).rule_entries(), self.id) ==> first_free(old(nf).names(), self.name@, res.0@)
                && final(nf).names() == old(nf).names().push(res.0@) && exists|r: NinjaRule| #[trigger] id_put(
                old(nf).rule_entries(),
                self.id,
                r,
            ) == final(nf).rule_entries() && r.name@ == res.0@ && vars_match(r.vars@, rule_vars_view(self.rule_vars@)),
    {
        match nf.get_rule_ref(self.id) {
            Some(r) => r,
            None => {
                let mut vars: Vec<NinjaVar> = Vec::new();
                let mut i: usize = 0;
                while i < self.rule_vars.len()
                    invariant
                        i <= self.rule_vars@.len(),
                        vars@.len() == i,
                        forall|k: int| 0 <= k < i ==> (#[trigger] vars@[k]).name@ == self.rule_vars@[k].0@ && args_match(
                            vars@[k].args@,
                            self.rule_vars@[k].1@,
                        ),
                    decreases self.rule_vars.len() - i,
                {
                    let args = dup_args(&self.rule_vars[i].1);
                    vars.push(NinjaVar { name: self.rule_vars[i].0.clone(), args });
                    i = i + 1;
                }
                let ghost vs = vars@;
                let ghost old_nf = *nf;
                let res = nf.rule_with_vars(self.id, self.name.as_str(), vars);
                proof {
                    let r = choose|r: NinjaRule| #[trigger] id_put(old_nf.rule_entries(), self.id, r) == nf.rule_entries()
                        && r.name@ == res.0@ && r.vars@ == vs;
                    lemma_id_put_keeps(old_nf.rule_entries(), self.id, r);
                    assert forall|k: usize, w: NinjaRule| #[trigger] has_pair(old_nf.rule_entries(), k, w) implies has_pair(
                        nf.rule_entries(),
                        k,
                        w,
                    ) by {
                        if k == self.id {
                            let q = choose|q: int| 0 <= q < old_nf.rule_entries().len() && old_nf.rule_entries()[q] == (k, w);
                            assert(old_nf.rule_entries()[q].0 == self.id);
                        }
                    }
                    assert(vars_match(r.vars@, rule_vars_view(self.rule_vars@)));
                    lemma_id_put_has(old_nf.rule_entries(), self.id, r);
                    let i = choose|i: int| 0 <= i < nf.rule_entries().len() && #[trigger] nf.rule_entries()[i] == (self.id, r);
                    assert(nf.rule_entries()[i].0 == self.id);
                }
                res
            },
        }
    }
}

impl PbBuild {
    /// Adds the build, its dependencies first, and the rules they use to the
    /// Ninja file, each under its number, unless the build is there already.
    pub fn populate_ninja_file(&self, nf: &mut NinjaFile)
        requires
            old(nf).wf(),
        ensures
            final(nf).wf(),
            has_id(final(nf).build_entries(), self.id),
            forall|k: usize| has_id(old(nf).build_entries(), k) ==> has_id(final(nf).build_entries(), k),
            has_id(old(nf).build_entries(), self.id) ==> *final(nf) == *old(nf),
            keeps_entries(old(nf).build_entries(), final(nf).build_entries()),
            keeps_entries(old(nf).rule_entries(), final(nf).rule_entries()),
            !has_id(old(nf).build_entries(), self.id) ==> exists|i: int| 0 <= i < final(nf).build_entries().len()
                && #[trigger] final(nf).build_entries()[i].0 == self.id && build_statement(
                final(nf).build_entries()[i].1,
                *self,
            ) && exists|k: int| 0 <= k < final(nf).rule_entries().len() && #[trigger] final(nf).rule_entries()[k].0
                == self.rule.id && final(nf).rule_entries()[k].1.name@ == final(nf).build_entries()[i].1.rule@,
            !has_id(old(nf).build_entries(), self.id) ==> forall|i: int| 0 <= i < self.deps@.len() ==> has_id(
                final(nf).build_entries(),
                #[trigger] self.deps@[i].id,
            ),
        decreases self,
    {
        if nf.has_build(self.id) {
            return;
        }
        let mut i: usize = 0;
        while i < self.deps.len()
            invariant
                i <= self.deps@.len(),
                nf.wf(),
                forall|k: usize| has_id(old(nf).build_entries(), k) ==> has_id(nf.build_entries(), k),
                forall|k: int| 0 <= k < i ==> has_id(nf.build_entries(), #[trigger] self.deps@[k].id),
                keeps_entries(old(nf).build_entries(), nf.build_entries()),
                keeps_entries(old(nf).rule_entries(), nf.rule_entries()),
                !has_id(old(nf).build_entries(), self.id),
            decreases self.deps.len() - i,
        {
            assert(decreases_to!(*self => *self.deps@[i as int])) by {
                assert(decreases_to!(*self => self.deps));
                assert(decreases_to!(self.deps => self.deps@));
                assert(decreases_to!(self.deps@ => self.deps@[i as int]));
            }
            let ghost nf0 = nf.build_entries();
            let ghost nr0 = nf.rule_entries();
            self.deps[i].populate_ninja_file(nf);
            proof {
                lemma_keeps_trans(old(nf).build_entries(), nf0, nf.build_entries());
                lemma_keeps_trans(old(nf).rule_entries(), nr0, nf.rule_entries());
                assert forall|k: int| 0 <= k < i + 1 implies has_id(nf.build_entries(), #[trigger] self.deps@[k].id) by {
                    if k < i {
                        assert(has_id(nf0, self.deps@[k].id));
                    }
                }
            }
            i = i + 1;
        }
        let rule = self.rule.populate_ninja_file(nf);
        let mut b = NinjaBuild::new(&rule);
        let mut j: usize = 0;
        while j < self.input.len()
            invariant
                j <= self.input@.len(),
                b.rule@ == rule.0@,
                b.outputs@.len() == 0 && b.deps@.len() == 0 && b.vars@.len() == 0 && !b.is_default,
                args_match(b.inputs@, self.input@.take(j as int)),
            decreases self.input.len() - j,
        {
            b.input(self.input[j].duplicate());
            j = j + 1;
        }
        let mut j: usize = 0;
        while j < self.output.len()
            invariant
                j <= self.output@.len(),
                b.rule@ == rule.0@,
                b.deps@.len() == 0 && b.vars@.len() == 0 && !b.is_default,
                args_match(b.inputs@, self.input@),
                args_match(b.outputs@, self.output@.take(j as int)),
            decreases self.output.len() - j,
        {
            b.output(self.output[j].duplicate());
            j = j + 1;
        }
        let mut j: usize = 0;
        while j < self.args.len()
            invariant
                j <= self.args@.len(),
                b.rule@ == rule.0@,
                b.deps@.len() == 0 && !b.is_default,
                args_match(b.inputs@, self.input@),
                args_match(b.outputs@, self.output@),
                vars_match(b.vars@, build_vars_view(self.args@).take(j as int)),
            decreases self.args@.len() - j,
        {
            let name = self.args.key_at(j);
            let args = dup_args(self.args.value_at(j));
            let ghost v0 = b.vars@;
            let ghost av = args@;
            b.var(name.as_str(), args);
            proof {
                let view = build_vars_view(self.args@);
                assert(view[j as int] == (self.args@[j as int].0, self.args@[j as int].1@));
                assert forall|k: int| 0 <= k < b.vars@.len() implies (#[trigger] b.vars@[k]).name@ == view.take(j + 1)[k].0
                    && args_match(b.vars@[k].args@, view.take(j + 1)[k].1) by {
                    if k < j {
                        assert(b.vars@[k] == v0[k]);
                        assert(view.take(j + 1)[k] == view.take(j as int)[k]);
                    } else {
                        assert(b.vars@[k].args@ == av);
                    }
                }
            }
            j = j + 1;
        }
        proof {
            assert(self.input@.take(self.input@.len() as int) =~= self.input@);
            assert(self.output@.take(self.output@.len() as int) =~= self.output@);
            assert(build_vars_view(self.args@).take(self.args@.len() as int) =~= build_vars_view(self.args@));
        }
        let ghost nf1 = *nf;
        let ghost bb = b;
        nf.put_build(self.id, b);
        proof {
            lemma_id_put_keeps(nf1.build_entries(), self.id, bb);
            assert forall|k: usize, w: NinjaBuild| #[trigger] has_pair(old(nf).build_entries(), k, w) implies has_pair(
                nf.build_entries(),
                k,
                w,
            ) by {
                assert(has_pair(nf1.build_entries(), k, w));
                if k == self.id {
                    let q = choose|q: int| 0 <= q < old(nf).build_entries().len() && old(nf).build_entries()[q] == (k, w);
                    assert(old(nf).build_entries()[q].0 == self.id);
                }
            }
            lemma_id_put_has(nf1.build_entries(), self.id, bb);
            let i = choose|i: int| 0 <= i < nf.build_entries().len() && #[trigger] nf.build_entries()[i] == (self.id, bb);
            assert(nf.build_entries()[i].0 == self.id);
            assert(build_statement(bb, *self));
            assert forall|k: int| 0 <= k < self.deps@.len() implies has_id(nf.build_entries(), #[trigger] self.deps@[k].id) by {
                assert(has_id(nf1.build_entries(), self.deps@[k].id));
            }
        }
    }
}

/// Field `k` of `fs` is a node of `q` that holds the path `m`.
pub open spec fn field_path(q: ExprPool, fs: Seq<(Seq<char>, Expr)>, k: Seq<char>, m: PathModel) -> bool {
    exists|x: Expr| #[trigger] has_entry(fs, k, x) && q.valid(x) && (q.node(x) matches ExprType::Value(Value::Path(pp))
        && pp@ == m)
}

/// Field `k` of `fs` is a node of `q` that holds the string `t`.
pub open spec fn field_string(q: ExprPool, fs: Seq<(Seq<char>, Expr)>, k: Seq<char>, t: Seq<char>) -> bool {
    exists|x: Expr| #[trigger] has_entry(fs, k, x) && q.valid(x) && (q.node(x) matches ExprType::Value(Value::String(ss))
        && ss@ == t)
}

/// Field `k` of `fs` is there, and each node of `q` that `fs` holds for it
/// holds a path.
pub open spec fn path_field(q: ExprPool, fs: Seq<(Seq<char>, Expr)>, k: Seq<char>) -> bool {
    &&& has_key(fs, k)
    &&& forall|x: Expr| #[trigger] has_entry(fs, k, x) ==> q.valid(x) && q.node(x) matches ExprType::Value(Value::Path(_))
}

/// Field `k` of `fs` is there, and each node of `q` that `fs` holds for it
/// holds a string.
pub open spec fn string_field(q: ExprPool, fs: Seq<(Seq<char>, Expr)>, k: Seq<char>) -> bool {
    &&& has_key(fs, k)
    &&& forall|x: Expr| #[trigger] has_entry(fs, k, x) ==> q.valid(x) && q.node(x) matches ExprType::Value(Value::String(_))
}

/// The evaluated fields `input`, `from` and `to` of `fs` are paths, and the
/// input path lies below `from`, so that it can be moved below `to`.
pub open spec fn translate_ok(q: ExprPool, fs: Seq<(Seq<char>, Expr)>) -> bool {
    &&& path_field(q, fs, "input"@)
    &&& path_field(q, fs, "from"@)
    &&& path_field(q, fs, "to"@)
    &&& forall|ip: PathModel, fp: PathModel, tp: PathModel| field_path(q, fs, "input"@, ip) && field_path(q, fs, "from"@, fp)
        && field_path(q, fs, "to"@, tp) ==> #[trigger] translated(ip, fp, tp) is Some
}

/// The evaluated field `input` of `fs` is a path and `from` and `to` are
/// strings, and the input path ends in the suffix `from`.
pub open spec fn retype_ok(q: ExprPool, fs: Seq<(Seq<char>, Expr)>) -> bool {
    &&& path_field(q, fs, "input"@)
    &&& string_field(q, fs, "from"@)
    &&& string_field(q, fs, "to"@)
    &&& forall|ip: PathModel, f: Seq<char>, t: Seq<char>| field_path(q, fs, "input"@, ip) && field_string(q, fs, "from"@, f)
        && field_string(q, fs, "to"@, t) ==> #[trigger] retyped(ip, f, t) is Some
}

/// The path that node `e` evaluates to; a type error for any other value.
fn path_arg<H: ExprBuiltin>(pool: &mut ExprPool, host: &mut H, e: Expr, fuel: u64) -> (res: Result<VirtPath, Error>)
    requires
        old(pool).wf(),
        old(pool).valid(e),
    ensures
        grown(*final(pool), *old(pool)),
        res matches Ok(p) ==> (final(pool).node(e) matches ExprType::Value(Value::Path(q)) && p@ == q@),
        is_normal(old(pool).node(e)) && fuel > 1 ==> *final(pool) == *old(pool) && (res is Ok <==> old(pool).node(
            e,
        ) matches ExprType::Value(Value::Path(_))),
    decreases fuel,
{
    if fuel == 0 {
        return Err(err_msg(ErrorType::Eval, "Evaluation nested too deeply"));
    }
    let v = value_of(pool, host, e, fuel - 1)?;
    let loc = pool.loc(e);
    match v {
        Value::Path(p) => Ok(p),
        _ => Err(err_msg(ErrorType::Type, "expected path").reref(loc)),
    }
}

/// The string that node `e` evaluates to; a type error for any other value.
fn string_arg<H: ExprBuiltin>(pool: &mut ExprPool, host: &mut H, e: Expr, fuel: u64) -> (res: Result<String, Error>)
    requires
        old(pool).wf(),
        old(pool).valid(e),
    ensures
        grown(*final(pool), *old(pool)),
        res matches Ok(s) ==> (final(pool).node(e) matches ExprType::Value(Value::String(t)) && s@ == t@),
        is_normal(old(pool).node(e)) && fuel > 1 ==> *final(pool) == *old(pool) && (res is Ok <==> old(pool).node(
            e,
        ) matches ExprType::Value(Value::String(_))),
    decreases fuel,
{
    if fuel == 0 {
        return Err(err_msg(ErrorType::Eval, "Evaluation nested too deeply"));
    }
    let v = value_of(pool, host, e, fuel - 1)?;
    let loc = pool.loc(e);
    match v {
        Value::String(s) => Ok(s),
        _ => Err(err_msg(ErrorType::Type, "expected string").reref(loc)),
    }
}

/// `pb.lock`.
pub struct BuiltinPbLock;

impl BuiltinPbLock {
    /// The path that the argument evaluates to, locked at its position.
    pub fn call<H: ExprBuiltin>(pool: &mut ExprPool, host: &mut H, arg: Expr, fuel: u64) -> (res: Result<Expr, Error>)
        requires
            old(pool).wf(),
            old(pool).valid(arg),
        ensures
            grown(*final(pool), *old(pool)),
            res matches Ok(r) ==> final(pool).valid(r) && (final(pool).node(arg) matches ExprType::Value(Value::Path(p))
                && final(pool).node(r) matches ExprType::Value(Value::Path(q)) && q@ == p@.locked_here()),
            is_normal(old(pool).node(arg)) && fuel > 2 ==> (res is Ok <==> old(pool).node(arg) matches ExprType::Value(
                Value::Path(_),
            )),
        decreases fuel,
    {
        if fuel == 0 {
            return Err(err_msg(ErrorType::Eval, "Evaluation nested too deeply"));
        }
        let p = path_arg(pool, host, arg, fuel - 1)?;
        let loc = pool.loc(arg);
        let locked = p.lock();
        let r = pool.push(ExprType::Value(Value::Path(locked)), loc);
        Ok(r)
    }
}

/// `pb.translate`.
pub struct BuiltinPbTranslate;

impl BuiltinPbTranslate {
    /// The path `input` moved from below `from` to below `to`.
    pub fn call<H: ExprBuiltin>(pool: &mut ExprPool, host: &mut H, arg: Expr, fuel: u64) -> (res: Result<Expr, Error>)
        requires
            old(pool).wf(),
            old(pool).valid(arg),
        ensures
            grown(*final(pool), *old(pool)),
            res matches Ok(r) ==> final(pool).valid(r) && (final(pool).node(arg) matches ExprType::Object(fs)
                && exists|ip: PathModel, fp: PathModel, tp: PathModel| #[trigger] translated(ip, fp, tp) matches Some(m)
                && field_path(*final(pool), fs@, "input"@, ip) && field_path(*final(pool), fs@, "from"@, fp)
                && field_path(*final(pool), fs@, "to"@, tp) && (final(pool).node(r) matches ExprType::Value(
                Value::Path(q),
            ) && q@ == m)),
            (old(pool).node(arg) matches ExprType::Object(fs) && translate_ok(*old(pool), fs@)) && fuel > 2 ==> res is Ok,
        decreases fuel,
    {
        if fuel == 0 {
            return Err(err_msg(ErrorType::Eval, "Evaluation nested too deeply"));
        }
        let ghost p0 = *pool;
        let loc = pool.loc(arg);
        let input_e = get_field(pool, host, arg, "input", fuel - 1)?;
        let ghost p1 = *pool;
        let from_e = get_field(pool, host, arg, "from", fuel - 1)?;
        let ghost p2 = *pool;
        let to_e = get_field(pool, host, arg, "to", fuel - 1)?;
        let ghost p3 = *pool;
        proof {
            lemma_extends_trans(p2, p1, p0);
            lemma_extends_trans(p3, p2, p0);
        }
        let input = path_arg(pool, host, input_e, fuel - 1)?;
        let ghost p4 = *pool;
        proof { lemma_extends_trans(p4, p3, p0); }
        let from = path_arg(pool, host, from_e, fuel - 1)?;
        let ghost p5 = *pool;
        proof { lemma_extends_trans(p5, p4, p0); }
        let to = path_arg(pool, host, to_e, fuel - 1)?;
        proof { lemma_extends_trans(*pool, p5, p0); }
        let shown = input.to_string();
        let ghost (ip, fp, tp) = (input@, from@, to@);
        match input.translate(&from, &to) {
            Some(out) => {
                let ghost p6 = *pool;
                let r = pool.push(ExprType::Value(Value::Path(out)), loc);
                proof {
                    lemma_extends_trans(*pool, p6, p0);
                    lemma_extends_trans(*pool, p3, p1);
                    lemma_normal_kept(*pool, p1, arg);
                    let fs = pool.node(arg)->Object_0;
                    lemma_normal_kept(*pool, p4, input_e);
                    lemma_normal_kept(*pool, p5, from_e);
                    lemma_normal_kept(*pool, p6, to_e);
                    assert(has_entry(fs@, "input"@, input_e));
                    assert(field_path(*pool, fs@, "input"@, ip));
                    assert(field_path(*pool, fs@, "from"@, fp));
                    assert(field_path(*pool, fs@, "to"@, tp));
                    assert(translated(ip, fp, tp) matches Some(m) && (pool.node(r) matches ExprType::Value(Value::Path(q)) && q@ == m));
                }
                Ok(r)
            },
            None => {
                proof {
                    if old(pool).node(arg) matches ExprType::Object(fs0) && translate_ok(p0, fs0@) && fuel > 2 {
                        let fs = pool.node(arg)->Object_0;
                        assert(has_entry(fs@, "input"@, input_e));
                        assert(field_path(p0, fs@, "input"@, ip));
                        assert(field_path(p0, fs@, "from"@, fp));
                        assert(field_path(p0, fs@, "to"@, tp));
                        assert(translated(ip, fp, tp) is Some);
                    }
                }
                let mut m = to_owned_string("Can't translate ");
                push_str(&mut m, shown.as_str());
                push_str(&mut m, " from ");
                let f = from.to_string();
                push_str(&mut m, f.as_str());
                push_str(&mut m, " to ");
                let t = to.to_string();
                push_str(&mut m, t.as_str());
                Err(Error::new(ErrorType::Type, m).reref(loc))
            },
        }
    }
}

/// `pb.retype`.
pub struct BuiltinPbRetype;

impl BuiltinPbRetype {
    /// The path `input` with its suffix `from` replaced by `to`.
    pub fn call<H: ExprBuiltin>(pool: &mut ExprPool, host: &mut H, arg: Expr, fuel: u64) -> (res: Result<Expr, Error>)
        requires
            old(pool).wf(),
            old(pool).valid(arg),
        ensures
            grown(*final(pool), *old(pool)),
            res matches Ok(r) ==> final(pool).valid(r) && (final(pool).node(arg) matches ExprType::Object(fs)
                && exists|ip: PathModel, f: Seq<char>, t: Seq<char>| #[trigger] retyped(ip, f, t) matches Some(m)
                && field_path(*final(pool), fs@, "input"@, ip) && field_string(*final(pool), fs@, "from"@, f)
                && field_string(*final(pool), fs@, "to"@, t) && (final(pool).node(r) matches ExprType::Value(
                Value::Path(q),
            ) && q@ == m)),
            (old(pool).node(arg) matches ExprType::Object(fs) && retype_ok(*old(pool), fs@)) && fuel > 2 ==> res is Ok,
        decreases fuel,
    {
        if fuel == 0 {
            return Err(err_msg(ErrorType::Eval, "Evaluation nested too deeply"));
        }
        let ghost p0 = *pool;
        let loc = pool.loc(arg);
        let input_e = get_field(pool, host, arg, "input", fuel - 1)?;
        let ghost p1 = *pool;
        let from_e = get_field(pool, host, arg, "from", fuel - 1)?;
        let ghost p2 = *pool;
        let to_e = get_field(pool, host, arg, "to", fuel - 1)?;
        let ghost p3 = *pool;
        proof {
            lemma_extends_trans(p2, p1, p0);
            lemma_extends_trans(p3, p2, p0);
        }
        let input = path_arg(pool, host, input_e, fuel - 1)?;
        let ghost p4 = *pool;
        proof { lemma_extends_trans(p4, p3, p0); }
        let from = string_arg(pool, host, from_e, fuel - 1)?;
        let ghost p5 = *pool;
        proof { lemma_extends_trans(p5, p4, p0); }
        let to = string_arg(pool, host, to_e, fuel - 1)?;
        proof { lemma_extends_trans(*pool, p5, p0); }
        let shown = input.to_string();
        let ghost (ip, fs_, ts_) = (input@, from@, to@);
        match input.retype(from.as_str(), to.as_str()) {
            Some(out) => {
                let ghost p6 = *pool;
                let r = pool.push(ExprType::Value(Value::Path(out)), loc);
                proof {
                    lemma_extends_trans(*pool, p6, p0);
                    lemma_extends_trans(*pool, p3, p1);
                    lemma_normal_kept(*pool, p1, arg);
                    let fs = pool.node(arg)->Object_0;
                    lemma_normal_kept(*pool, p4, input_e);
                    lemma_normal_kept(*pool, p5, from_e);
                    lemma_normal_kept(*pool, p6, to_e);
                    assert(field_path(*pool, fs@, "input"@, ip));
                    assert(field_string(*pool, fs@, "from"@, fs_));
                    assert(field_string(*pool, fs@, "to"@, ts_));
                    assert(retyped(ip, fs_, ts_) matches Some(m) && (pool.node(r) matches ExprType::Value(Value::Path(q)) && q@ == m));
                }
                Ok(r)
            },
            None => {
                proof {
                    if old(pool).node(arg) matches ExprType::Object(fs0) && retype_ok(p0, fs0@) && fuel > 2 {
                        let fs = pool.node(arg)->Object_0;
                        assert(field_path(p0, fs@, "input"@, ip));
                        assert(field_string(p0, fs@, "from"@, fs_));
                        assert(field_string(p0, fs@, "to"@, ts_));
                        assert(retyped(ip, fs_, ts_) is Some);
                    }
                }
                let mut m = to_owned_string("Can't change suffix on ");
                push_str(&mut m, shown.as_str());
                push_str(&mut m, " from ");
                push_str(&mut m, from.as_str());
                push_str(&mut m, " to ");
                push_str(&mut m, to.as_str());
                Err(Error::new(ErrorType::Type, m).reref(loc))
            },
        }
    }
}

/// Each node of `xs` holds a value whose Ninja argument is the item of `out`
/// at the same place.
pub open spec fn args_of_nodes(q: ExprPool, xs: Seq<Expr>, out: Seq<NinjaArg>) -> bool {
    &&& out.len() == xs.len()
    &&& forall|j: int| 0 <= j < xs.len() ==> q.valid(#[trigger] xs[j]) && (q.node(xs[j]) matches ExprType::Value(v)
        && arg_of(v, out[j]))
}

/// Node `x` of `q` holds a value that can be written into a Ninja statement.
pub open spec fn convertible_node(q: ExprPool, x: Expr) -> bool {
    q.node(x) matches ExprType::Value(v) && ninja_convertible(v)
}

/// Node `e` of `q` holds a value with variables bound around it.
pub open spec fn bound_value(q: ExprPool, e: Expr) -> bool {
    &&& q.valid(e)
    &&& q.node(e) matches ExprType::Bind(sc, x) && set_ok(sc@, q.size()) && q.valid(x) && q.node(x) is Value
}

/// Each of the nodes `xs` of `q` is evaluated.
pub open spec fn nodes_evaluated(q: ExprPool, xs: Seq<Expr>) -> bool {
    forall|j: int| 0 <= j < xs.len() ==> q.valid(#[trigger] xs[j]) && is_normal(q.node(xs[j]))
}

/// Node `x` of `q` holds the Ninja arguments `out`: one for each item of a
/// list of values, or the one of a single value.
pub open spec fn field_args(q: ExprPool, x: Expr, out: Seq<NinjaArg>) -> bool {
    &&& q.valid(x)
    &&& match q.node(x) {
        ExprType::List(xs) => args_of_nodes(q, xs@, out),
        ExprType::Value(v) => out.len() == 1 && arg_of(v, out[0]),
        _ => false,
    }
}

/// Node `e` of `q` is evaluated to a build, or to a list of such nodes, with
/// all of them less than `n` levels deep.
pub open spec fn build_tree(q: ExprPool, e: Expr, n: nat) -> bool
    decreases n,
{
    &&& n > 0
    &&& q.valid(e)
    &&& match q.node(e) {
        ExprType::Value(Value::Build(_)) => true,
        ExprType::List(xs) => forall|j: int| 0 <= j < xs@.len() ==> build_tree(q, #[trigger] xs@[j], (n - 1) as nat),
        _ => false,
    }
}

/// The builds that the values of nodes `xs` of `q` hold, in order.
pub open spec fn builds_among(q: ExprPool, xs: Seq<Expr>) -> Seq<Rc<PbBuild>>
    decreases xs.len(),
{
    if xs.len() == 0 {
        seq![]
    } else {
        let rest = builds_among(q, xs.drop_last());
        match q.node(xs.last()) {
            ExprType::Value(Value::Build(b)) => rest.push(b),
            _ => rest,
        }
    }
}

/// The nodes that field node `x` of `q` stands for: the items of a list, or
/// the node itself.
pub open spec fn field_nodes(q: ExprPool, x: Expr) -> Seq<Expr> {
    match q.node(x) {
        ExprType::List(xs) => xs@,
        _ => seq![x],
    }
}

/// The node of field `k` of `obj`.
pub open spec fn field_node(obj: Seq<(Seq<char>, Expr)>, k: Seq<char>) -> Expr {
    choose|x: Expr| has_entry(obj, k, x)
}

/// The builds among the values of the fields of `obj` that `names` name,
/// field after field.
pub open spec fn builds_of_fields(q: ExprPool, obj: Seq<(Seq<char>, Expr)>, names: Seq<(Seq<char>, bool)>) -> Seq<
    Rc<PbBuild>,
>
    decreases names.len(),
{
    if names.len() == 0 {
        seq![]
    } else {
        builds_of_fields(q, obj, names.drop_last()) + builds_among(q, field_nodes(q, field_node(obj, names.last().0)))
    }
}

/// Builds among evaluated nodes stay as the pool grows.
proof fn lemma_builds_among_kept(q: ExprPool, p: ExprPool, xs: Seq<Expr>)
    requires
        q.extends(p),
        forall|j: int| 0 <= j < xs.len() ==> p.valid(#[trigger] xs[j]) && is_normal(p.node(xs[j])),
    ensures
        builds_among(q, xs) == builds_among(p, xs),
    decreases xs.len(),
{
    if xs.len() > 0 {
        let ys = xs.drop_last();
        assert forall|j: int| 0 <= j < ys.len() implies p.valid(#[trigger] ys[j]) && is_normal(p.node(ys[j])) by {
            assert(ys[j] == xs[j]);
        }
        lemma_builds_among_kept(q, p, ys);
        assert(xs.last() == xs[xs.len() - 1]);
        lemma_normal_kept(q, p, xs.last());
    }
}

/// A field that holds Ninja arguments keeps its builds as the pool grows.
proof fn lemma_field_builds_kept(q: ExprPool, p: ExprPool, x: Expr, out: Seq<NinjaArg>)
    requires
        q.extends(p),
        field_args(p, x, out),
    ensures
        field_nodes(q, x) == field_nodes(p, x),
        builds_among(q, field_nodes(q, x)) == builds_among(p, field_nodes(p, x)),
{
    lemma_normal_kept(q, p, x);
    let xs = field_nodes(p, x);
    assert forall|j: int| 0 <= j < xs.len() implies p.valid(#[trigger] xs[j]) && is_normal(p.node(xs[j])) by {
        if !(p.node(x) is List) {
            assert(xs[j] == x);
        }
    }
    lemma_builds_among_kept(q, p, xs);
}

/// Field `k` of `obj` holds Ninja arguments.
pub open spec fn field_ready(q: ExprPool, obj: Seq<(Seq<char>, Expr)>, k: Seq<char>) -> bool {
    exists|out: Seq<NinjaArg>| #[trigger] field_args(q, field_node(obj, k), out)
}

/// The fields that `names` name hold Ninja arguments.
pub open spec fn fields_ready(q: ExprPool, obj: Seq<(Seq<char>, Expr)>, names: Seq<(Seq<char>, bool)>) -> bool {
    forall|j: int| 0 <= j < names.len() ==> field_ready(q, obj, #[trigger] names[j].0)
}

/// A field that holds Ninja arguments keeps them as the pool grows.
proof fn lemma_field_ready_kept(q: ExprPool, p: ExprPool, obj: Seq<(Seq<char>, Expr)>, k: Seq<char>)
    requires
        q.extends(p),
        field_ready(p, obj, k),
    ensures
        field_ready(q, obj, k),
        builds_among(q, field_nodes(q, field_node(obj, k))) == builds_among(p, field_nodes(p, field_node(obj, k))),
{
    let x = field_node(obj, k);
    let out = choose|out: Seq<NinjaArg>| #[trigger] field_args(p, x, out);
    lemma_field_args_kept(q, p, x, out);
    lemma_field_builds_kept(q, p, x, out);
    assert(field_args(q, x, out));
}

/// Builds among fields that hold Ninja arguments stay as the pool grows.
proof fn lemma_builds_of_fields_kept(q: ExprPool, p: ExprPool, obj: Seq<(Seq<char>, Expr)>, names: Seq<(Seq<char>, bool)>)
    requires
        q.extends(p),
        fields_ready(p, obj, names),
    ensures
        builds_of_fields(q, obj, names) == builds_of_fields(p, obj, names),
        fields_ready(q, obj, names),
    decreases names.len(),
{
    assert forall|j: int| 0 <= j < names.len() implies field_ready(q, obj, #[trigger] names[j].0) by {
        lemma_field_ready_kept(q, p, obj, names[j].0);
    }
    if names.len() > 0 {
        let ns = names.drop_last();
        assert forall|j: int| 0 <= j < ns.len() implies field_ready(p, obj, #[trigger] ns[j].0) by {
            assert(ns[j] == names[j]);
        }
        lemma_builds_of_fields_kept(q, p, obj, ns);
        assert(names.last() == names[names.len() - 1]);
        lemma_field_ready_kept(q, p, obj, names.last().0);
    }
}

/// Evaluated nodes keep the arguments they hold as the pool grows.
proof fn lemma_args_kept(q: ExprPool, p: ExprPool, xs: Seq<Expr>, out: Seq<NinjaArg>)
    requires
        q.extends(p),
        args_of_nodes(p, xs, out),
    ensures
        args_of_nodes(q, xs, out),
{
    assert forall|j: int| 0 <= j < xs.len() implies q.valid(#[trigger] xs[j]) && (q.node(xs[j]) matches ExprType::Value(v)
        && arg_of(v, out[j])) by {
        lemma_normal_kept(q, p, xs[j]);
    }
}

/// A field keeps the arguments it holds as the pool grows.
proof fn lemma_field_args_kept(q: ExprPool, p: ExprPool, x: Expr, out: Seq<NinjaArg>)
    requires
        q.extends(p),
        field_args(p, x, out),
    ensures
        field_args(q, x, out),
{
    lemma_normal_kept(q, p, x);
    if p.node(x) is List {
        lemma_args_kept(q, p, p.node(x)->List_0@, out);
    }
}

/// The nodes a rule or build field stands for: the items of a list, or the
/// field itself when it is a value.
fn field_items<H: ExprBuiltin>(pool: &mut ExprPool, host: &mut H, e: Expr, fuel: u64) -> (res: Result<Vec<Expr>, Error>)
    requires
        old(pool).wf(),
        old(pool).valid(e),
    ensures
        grown(*final(pool), *old(pool)),
        res matches Ok(v) ==> vec_ok(v@, final(pool).size()) && final(pool).valid(e) && match final(pool).node(e) {
            ExprType::List(xs) => v@ == xs@,
            ExprType::Value(_) => v@ == seq![e],
            _ => false,
        },
        is_normal(old(pool).node(e)) && fuel > 1 ==> *final(pool) == *old(pool) && (res is Ok <==> (old(pool).node(e) is List
            || old(pool).node(e) is Value)),
        fuel > 3 && bound_value(*old(pool), e) ==> (res matches Ok(v) && v@ == seq![e]) && (final(pool).node(e) matches ExprType::Value(w)
            && same_value(w, old(pool).node(old(pool).node(e)->Bind_1)->Value_0)) && forall|i: int| 0 <= i < old(pool).size()
            && i != e.0 ==> #[trigger] final(pool).nodes()[i] == old(pool).nodes()[i],
    decreases fuel,
{
    if fuel == 0 {
        return Err(err_msg(ErrorType::Eval, "Evaluation nested too deeply"));
    }
    resolve(pool, host, e, fuel - 1)?;
    proof { assert(tok_ok(pool.node(e), pool.size())); }
    match pool.tok(e) {
        ExprType::List(v) => Ok(copy_exprs(v)),
        ExprType::Value(_) => {
            let mut v: Vec<Expr> = Vec::new();
            v.push(e);
            proof { assert(v@ =~= seq![e]); }
            Ok(v)
        },
        _ => Err(err_msg(ErrorType::Type, "field is not a list or value")),
    }
}

/// The Ninja arguments for the values of `items`, each evaluated; builds
/// among them are appended to `deps`.
#[verifier::loop_isolation(false)]
fn ninja_args<H: ExprBuiltin>(
    pool: &mut ExprPool,
    host: &mut H,
    items: &Vec<Expr>,
    deps: &mut Vec<Rc<PbBuild>>,
    fuel: u64,
) -> (res: Result<Vec<NinjaArg>, Error>)
    requires
        old(pool).wf(),
        vec_ok(items@, old(pool).size()),
    ensures
        grown(*final(pool), *old(pool)),
        res matches Ok(v) ==> args_of_nodes(*final(pool), items@, v@) && final(deps)@ == old(deps)@ + builds_among(
            *final(pool),
            items@,
        ),
        nodes_evaluated(*old(pool), items@) && fuel > 1 ==> *final(pool) == *old(pool) && (res is Ok <==> forall|j: int|
            0 <= j < items@.len() ==> convertible_node(*old(pool), #[trigger] items@[j])),
    decreases fuel,
{
    if fuel == 0 {
        return Err(err_msg(ErrorType::Eval, "Evaluation nested too deeply"));
    }
    let ghost p0 = *pool;
    let mut out: Vec<NinjaArg> = Vec::new();
    let mut i: usize = 0;
    while i < items.len()
        invariant
            i <= items@.len(),
            grown(*pool, p0),
            args_of_nodes(*pool, items@.take(i as int), out@),
            deps@ == old(deps)@ + builds_among(*pool, items@.take(i as int)),
            nodes_evaluated(p0, items@) && fuel > 1 ==> *pool == p0 && forall|j: int| 0 <= j < i ==> convertible_node(
                p0,
                #[trigger] items@[j],
            ),
        decreases items@.len() - i,
    {
        let ghost before = *pool;
        assert(items@[i as int].0 < p0.size());
        let r = resolve(pool, host, items[i], fuel - 1);
        proof { lemma_extends_trans(*pool, before, p0); }
        r?;
        proof {
            lemma_args_kept(*pool, before, items@.take(i as int), out@);
            lemma_builds_among_kept(*pool, before, items@.take(i as int));
        }
        let ghost d0 = deps@;
        let a = match pool.tok(items[i]) {
            ExprType::Value(attr) => {
                if let Value::Build(b) = attr {
                    deps.push(rc_clone(b));
                }
                if !is_ninja_convertible(attr) {
                    proof { assert(!convertible_node(p0, items@[i as int])); }
                    return Err(err_msg(ErrorType::Type, "Rule attr is of invalid type"));
                }
                value_to_ninja_arg(attr)
            },
            _ => {
                proof { assert(!convertible_node(p0, items@[i as int])); }
                return Err(err_msg(ErrorType::Type, "Rule attr is not a value"));
            },
        };
        let ghost o0 = out@;
        out.push(a);
        proof {
            assert(items@.take(i + 1) =~= items@.take(i as int).push(items@[i as int]));
            assert(items@.take(i + 1).drop_last() =~= items@.take(i as int));
            assert(deps@ == old(deps)@ + builds_among(*pool, items@.take(i + 1)));
            assert forall|j: int| 0 <= j < i + 1 implies pool.valid(#[trigger] items@.take(i + 1)[j]) && (pool.node(
                items@.take(i + 1)[j],
            ) matches ExprType::Value(v) && arg_of(v, out@[j])) by {
                if j < i {
                    assert(items@.take(i + 1)[j] == items@.take(i as int)[j]);
                    assert(out@[j] == o0[j]);
                }
            }
        }
        i = i + 1;
    }
    proof { assert(items@.take(items@.len() as int) =~= items@); }
    Ok(out)
}

/// Each rule variable is the field of `fs` at the same place, with the Ninja
/// arguments that the field's node in `q` holds.
pub open spec fn vars_from_fields(q: ExprPool, fs: Seq<(Seq<char>, Expr)>, vars: Seq<(String, Vec<NinjaArg>)>) -> bool {
    &&& vars.len() == fs.len()
    &&& forall|j: int| 0 <= j < fs.len() ==> (#[trigger] vars[j]).0@ == fs[j].0 && field_args(q, fs[j].1, vars[j].1@)
}

/// Rule variables keep the arguments their fields hold as the pool grows.
proof fn lemma_vars_kept(q: ExprPool, p: ExprPool, fs: Seq<(Seq<char>, Expr)>, vars: Seq<(String, Vec<NinjaArg>)>)
    requires
        q.extends(p),
        vars_from_fields(p, fs, vars),
    ensures
        vars_from_fields(q, fs, vars),
{
    assert forall|j: int| 0 <= j < fs.len() implies (#[trigger] vars[j]).0@ == fs[j].0 && field_args(q, fs[j].1, vars[j].1@) by {
        lemma_field_args_kept(q, p, fs[j].1, vars[j].1@);
    }
}

/// The node that holds the object a function body returns: the node inside
/// the variables bound around the body, or the body itself.
pub open spec fn body_object(p: ExprPool, body: Expr) -> Expr {
    match p.node(body) {
        ExprType::Bind(_, inner) => inner,
        _ => body,
    }
}

/// Node `x` of `p` is an object whose fields are evaluated simple values.
pub open spec fn const_object(p: ExprPool, x: Expr) -> bool {
    &&& p.valid(x)
    &&& p.node(x) matches ExprType::Object(fs) && forall|i: int| 0 <= i < fs@.len() ==> p.valid(#[trigger] fs@[i].1) && (
    p.node(fs@[i].1) matches ExprType::Value(v) && is_simple(v))
}

/// The evaluated argument `arg` of `pb.rule` is a function over a pattern of
/// plain names without defaults, whose body returns an object of simple
/// values.
pub open spec fn rule_ready(p: ExprPool, arg: Expr) -> bool {
    &&& p.valid(arg)
    &&& p.node(arg) matches ExprType::FuncDef(Matcher::Object(items, _), body) && plain_items(items@) && (forall|i: int|
        0 <= i < items@.len() ==> (#[trigger] items@[i]).2 is None) && p.valid(body) && const_object(p, body_object(p, body))
}

/// The fields of the object that the body of the function `arg` of `p`
/// returns.
pub open spec fn body_fields(p: ExprPool, arg: Expr) -> Seq<(Seq<char>, Expr)> {
    p.node(body_object(p, p.node(arg)->FuncDef_1))->Object_0@
}

/// Each rule variable is a field of `fs`, in order, with the one Ninja
/// argument for the field's value in `p`.
pub open spec fn vars_of_values(p: ExprPool, fs: Seq<(Seq<char>, Expr)>, vars: Seq<(String, Vec<NinjaArg>)>) -> bool {
    &&& vars.len() == fs.len()
    &&& forall|i: int| 0 <= i < fs.len() ==> (#[trigger] vars[i]).0@ == fs[i].0 && vars[i].1@.len() == 1 && (p.node(fs[i].1) matches ExprType::Value(
        v,
    ) && simple_arg(v, vars[i].1@[0]))
}

/// Node `n` of `q` is on its way to the simple value that node `y` of `p0`
/// holds: it holds `y` with variables bound around it, or a value like it.
pub open spec fn field_ready_val(q: ExprPool, n: Expr, y: Expr, p0: ExprPool) -> bool {
    &&& q.valid(n)
    &&& q.valid(y)
    &&& q.node(y) == p0.node(y)
    &&& p0.node(y) is Value
    &&& is_simple(p0.node(y)->Value_0)
    &&& match q.node(n) {
        ExprType::Bind(sc, y2) => y2 == y && set_ok(sc@, q.size()),
        ExprType::Value(w) => same_value(w, p0.node(y)->Value_0),
        _ => false,
    }
}

/// The fields `objs` from place `from` on are on their way to the values of
/// the fields `bfs` at the same places.
pub open spec fn fields_pending(
    q: ExprPool,
    objs: Seq<(Seq<char>, Expr)>,
    bfs: Seq<(Seq<char>, Expr)>,
    p0: ExprPool,
    from: int,
) -> bool {
    forall|j: int| from <= j < objs.len() ==> field_ready_val(q, (#[trigger] objs[j]).1, bfs[j].1, p0)
}

/// Values that compare alike are alike simple, with the same Ninja
/// argument.
proof fn lemma_same_value_simple(w: Value, v: Value)
    requires
        same_value(w, v),
        is_simple(v),
    ensures
        is_simple(w),
        forall|a: NinjaArg| #[trigger] simple_arg(w, a) ==> simple_arg(v, a),
{
}

/// The build variable that a rule function's parameter field `k` stands
/// for: `in` for `input`, `out` for `output`, and `k` itself otherwise.
pub open spec fn placeholder(k: Seq<char>) -> Seq<char> {
    if k == "input"@ {
        "in"@
    } else if k == "output"@ {
        "out"@
    } else {
        k
    }
}

/// Each field `k` of `fs` is a node of `q` holding the build variable
/// `placeholder(k)`.
pub open spec fn placeholder_fields(q: ExprPool, fs: Seq<(Seq<char>, Expr)>) -> bool {
    forall|k: Seq<char>, n: Expr| #[trigger] has_entry(fs, k, n) ==> q.valid(n) && (q.node(n) matches ExprType::Value(
        Value::BuildVar(v),
    ) && v@ == placeholder(k))
}

/// Node `o` of `q` is the object a rule function is called on: a field for
/// each key of `keys`, holding its placeholder.
pub open spec fn placeholder_object(q: ExprPool, o: Expr, keys: Seq<(Seq<char>, bool)>) -> bool {
    &&& q.valid(o)
    &&& q.node(o) matches ExprType::Object(fs) && placeholder_fields(q, fs@) && forall|k: Seq<char>|
        #[trigger] has_key(fs@, k) <==> has_key(keys, k)
}

proof fn lemma_placeholder_kept(p: ExprPool, q: ExprPool, o: Expr, keys: Seq<(Seq<char>, bool)>)
    requires
        placeholder_object(p, o, keys),
        q.extends(p),
    ensures
        placeholder_object(q, o, keys),
{
    lemma_normal_kept(q, p, o);
    let fs = p.node(o)->Object_0;
    assert forall|k: Seq<char>, n: Expr| #[trigger] has_entry(fs@, k, n) implies q.valid(n) && (q.node(n) matches ExprType::Value(
        Value::BuildVar(v),
    ) && v@ == placeholder(k)) by {
        lemma_normal_kept(q, p, n);
    }
}

/// `pb.rule`.
pub struct BuiltinPbRule;

impl BuiltinPbRule {
    /// A build rule from a function over an object pattern: the function is
    /// called with a placeholder for each pattern field (`input` and
    /// `output` become `in` and `out`), and each field of the object it
    /// returns becomes a rule variable.
    #[verifier::loop_isolation(false)]
    #[verifier::rlimit(80)]
    pub fn call<H: ExprBuiltin>(pool: &mut ExprPool, host: &mut H, arg: Expr, fuel: u64) -> (res: Result<Expr, Error>)
        requires
            old(pool).wf(),
            old(pool).valid(arg),
        ensures
            grown(*final(pool), *old(pool)),
            res matches Ok(r) ==> final(pool).valid(r) && (final(pool).node(r) matches ExprType::Value(
                Value::BuildRule(rule),
            ) && rule.name@ == rule_name(rule.rule_vars@) && final(pool).next_id() == rule.id + 1 && (final(pool).node(
                arg,
            ) matches ExprType::FuncDef(Matcher::Object(items, _), _) && (forall|i: int|
                0 <= i < items@.len() ==> (#[trigger] items@[i]).2 is None) && (forall|k: Seq<char>|
                #[trigger] has_key(rule.rule_args@, k) <==> exists|i: int| 0 <= i < items@.len() && items@[i].0@ == k)
                && forall|k: Seq<char>, v: bool| #[trigger] has_entry(rule.rule_args@, k, v) ==> v) && exists|c: Expr|
                c.0 >= old(pool).size() && final(pool).valid(c) && (final(pool).node(c) matches ExprType::Object(fs)
                && vars_from_fields(*final(pool), fs@, rule.rule_vars@))),
            fuel > 0 && is_normal(old(pool).node(arg)) && !(old(pool).node(arg) matches ExprType::FuncDef(
                Matcher::Object(_, _),
                _,
            )) ==> (res matches Err(e) && e.typ == ErrorType::Type && e.msg@
                == "pb.rule needs to take a pattern function as argument"@),
            fuel > 0 && (old(pool).node(arg) matches ExprType::FuncDef(Matcher::Object(items, _), _) && exists|i: int|
                0 <= i < items@.len() && (#[trigger] items@[i]).2 is Some) ==> (res matches Err(e) && e.typ
                == ErrorType::Type && exists|i: int|
                0 <= i < old(pool).node(arg)->FuncDef_0->Object_0@.len() && (#[trigger] old(pool).node(arg)->FuncDef_0->Object_0@[i]).2 is Some
                && (forall|j: int| 0 <= j < i ==> (#[trigger] old(pool).node(arg)->FuncDef_0->Object_0@[j]).2 is None)
                && e.msg@ == "pb.rule does not support default values for "@ + old(pool).node(arg)->FuncDef_0->Object_0@[i].0@
                + ""@),
            res matches Ok(r) ==> (final(pool).node(r) matches ExprType::Value(Value::BuildRule(rule)) && exists|o: Expr|
                #[trigger] placeholder_object(*final(pool), o, rule.rule_args@)),
            rule_ready(*old(pool), arg) && fuel > 4 ==> (res is Ok || final(pool).next_id() == usize::MAX),
            rule_ready(*old(pool), arg) && fuel > 4 ==> (res matches Ok(r) ==> (final(pool).node(r) matches ExprType::Value(
                Value::BuildRule(rule),
            ) && vars_of_values(*old(pool), body_fields(*old(pool), arg), rule.rule_vars@))),
        decreases fuel,
    {
        if fuel == 0 {
            return Err(err_msg(ErrorType::Eval, "Evaluation nested too deeply"));
        }
        let ghost p0 = *pool;
        let ghost rready = rule_ready(p0, arg) && fuel > 4;
        resolve(pool, host, arg, fuel - 1)?;
        let ghost pa = *pool;
        let loc = pool.loc(arg);
        let mut names: Vec<String> = Vec::new();
        match pool.tok(arg) {
            ExprType::FuncDef(Matcher::Object(items, _), _) => {
                let mut i: usize = 0;
                while i < items.len()
                    invariant
                        i <= items@.len(),
                        names@.len() == i,
                        forall|j: int| 0 <= j < i ==> (#[trigger] names@[j])@ == items@[j].0@ && items@[j].2 is None,
                    decreases items@.len() - i,
                {
                    if items[i].2.is_some() {
                        proof {
                            if p0.node(arg) is FuncDef {
                                assert(pa == p0);
                                assert(p0.node(arg)->FuncDef_0->Object_0@[i as int].2 is Some);
                                assert forall|j: int| 0 <= j < i implies (#[trigger] p0.node(arg)->FuncDef_0->Object_0@[j]).2 is None by {
                                    assert(names@[j]@ == items@[j].0@);
                                }
                            }
                        }
                        return Err(err_name(ErrorType::Type, "pb.rule does not support default values for ", items[i].0.as_str(), ""));
                    }
                    let nm = items[i].0.clone();
                    let ghost n0 = names@;
                    names.push(nm);
                    proof {
                        assert(names@[i as int] == nm);
                        assert forall|j: int| 0 <= j < i + 1 implies (#[trigger] names@[j])@ == items@[j].0@
                            && items@[j].2 is None by {
                            if j < i {
                                assert(names@[j] == n0[j]);
                            }
                        }
                    }
                    i = i + 1;
                }
            },
            _ => {
                return Err(err_msg(ErrorType::Type, "pb.rule needs to take a pattern function as argument"));
            },
        }
        let ghost p1 = *pool;
        let ghost its = pa.node(arg)->FuncDef_0->Object_0;
        proof {
            assert(pa.node(arg) matches ExprType::FuncDef(Matcher::Object(_, _), _));
            assert(names@.len() == its@.len());
            assert forall|j: int| 0 <= j < its@.len() implies (#[trigger] its@[j]).2 is None by {
                assert(names@[j]@ == its@[j].0@);
            }
            if p0.node(arg) is FuncDef {
                assert(pa == p0);
            }
        }
        let mut rule_args: ImMap<bool> = ImMap::new();
        let mut fields: ImMap<Expr> = ImMap::new();
        let mut i: usize = 0;
        while i < names.len()
            invariant
                i <= names@.len(),
                grown(*pool, p1),
                set_ok(fields@, pool.size()),
                only_pushed(*pool, p1),
                forall|k: Seq<char>| #[trigger] has_key(fields@, k) <==> exists|j: int| 0 <= j < i && names@[j]@ == k,
                forall|k: Seq<char>| #[trigger] has_key(rule_args@, k) <==> exists|j: int| 0 <= j < i && names@[j]@ == k,
                forall|k: Seq<char>, v: bool| #[trigger] has_entry(rule_args@, k, v) ==> v,
                placeholder_fields(*pool, fields@),
            decreases names@.len() - i,
        {
            let ghost ra0 = rule_args@;
            rule_args.upsert(names[i].as_str(), true);
            proof {
                assert forall|k: Seq<char>| #[trigger] has_key(rule_args@, k) <==> exists|j: int| 0 <= j < i + 1 && names@[j]@ == k by {
                    if has_key(rule_args@, k) && k != names@[i as int]@ {
                        assert(has_key(ra0, k));
                        let j = choose|j: int| 0 <= j < i && names@[j]@ == k;
                    }
                    if exists|j: int| 0 <= j < i + 1 && names@[j]@ == k {
                        let j = choose|j: int| 0 <= j < i + 1 && names@[j]@ == k;
                        if j < i {
                            assert(has_key(ra0, k));
                        }
                    }
                }
            }
            let ph = if str_eq(names[i].as_str(), "input") {
                to_owned_string("in")
            } else if str_eq(names[i].as_str(), "output") {
                to_owned_string("out")
            } else {
                names[i].clone()
            };
            let ghost before = *pool;
            let ghost ph_v = ph@;
            let node = pool.push(ExprType::Value(Value::BuildVar(ph)), loc);
            proof {
                lemma_extends_trans(*pool, before, p1);
                lemma_set_ok_mono(fields@, before.size(), pool.size());
            }
            let ghost f0 = fields@;
            fields.upsert(names[i].as_str(), node);
            proof {
                assert(ph_v == placeholder(names@[i as int]@));
                assert forall|k: Seq<char>, n: Expr| #[trigger] has_entry(fields@, k, n) implies pool.valid(n) && (pool.node(n) matches ExprType::Value(
                    Value::BuildVar(v),
                ) && v@ == placeholder(k)) by {
                    if n != node || k != names@[i as int]@ {
                        assert(has_entry(f0, k, n));
                        assert(pool.nodes()[n.0 as int] == before.nodes()[n.0 as int]);
                    }
                }
                assert(only_pushed(*pool, p1)) by {
                    assert forall|q: int| 0 <= q < p1.size() implies #[trigger] pool.nodes()[q] == p1.nodes()[q] by {
                        assert(before.nodes()[q] == p1.nodes()[q]);
                    }
                }
                assert forall|k: Seq<char>| #[trigger] has_key(fields@, k) <==> exists|j: int| 0 <= j < i + 1 && names@[j]@ == k by {
                    if has_key(fields@, k) && k != names@[i as int]@ {
                        assert(has_key(f0, k));
                        let j = choose|j: int| 0 <= j < i && names@[j]@ == k;
                    }
                    if exists|j: int| 0 <= j < i + 1 && names@[j]@ == k {
                        let j = choose|j: int| 0 <= j < i + 1 && names@[j]@ == k;
                        if j < i {
                            assert(has_key(f0, k));
                        }
                    }
                }
                assert forall|q: int| 0 <= q < fields@.len() implies (#[trigger] fields@[q]).1.0 < pool.size() by {
                    assert(has_entry(fields@, fields@[q].0, fields@[q].1));
                    if fields@[q].1 != node {
                        let j = choose|j: int| 0 <= j < f0.len() && f0[j] == (fields@[q].0, fields@[q].1);
                        assert(f0[j].1.0 < pool.size());
                    }
                }
            }
            i = i + 1;
        }
        proof {
            lemma_extends_trans(*pool, p1, p0);
            lemma_normal_kept(*pool, pa, arg);
        }
        let ghost pl = *pool;
        let var_obj = pool.push(ExprType::Object(fields), loc);
        proof {
            lemma_normal_kept(*pool, pl, arg);
            assert forall|k: Seq<char>, n: Expr| #[trigger] has_entry(fields@, k, n) implies pool.valid(n) && (pool.node(n) matches ExprType::Value(
                Value::BuildVar(v),
            ) && v@ == placeholder(k)) by {
                assert(pool.nodes()[n.0 as int] == pl.nodes()[n.0 as int]);
            }
            assert(placeholder_object(*pool, var_obj, rule_args@));
        }
        let ghost pv = *pool;
        let call = pool.push(ExprType::FuncCall(var_obj, arg), loc);
        proof { lemma_normal_kept(*pool, pv, arg); }
        let ghost p2 = *pool;
        let ghost bfs = body_fields(p0, arg);
        proof {
            if rready {
                assert(pa == p0);
                let items = p0.node(arg)->FuncDef_0->Object_0;
                let need_all = p0.node(arg)->FuncDef_0->Object_1;
                let body = p0.node(arg)->FuncDef_1;
                let x = body_object(p0, body);
                assert(only_pushed(p2, p0)) by {
                    assert forall|q: int| 0 <= q < p0.size() implies #[trigger] p2.nodes()[q] == p0.nodes()[q] by {
                        assert(pl.nodes()[q] == p1.nodes()[q]);
                        assert(pv.nodes()[q] == pl.nodes()[q]);
                    }
                }
                assert(p2.nodes()[arg.0 as int] == p0.nodes()[arg.0 as int]);
                assert(p2.nodes()[body.0 as int] == p0.nodes()[body.0 as int]);
                assert(p2.nodes()[x.0 as int] == p0.nodes()[x.0 as int]);
                assert(body_object(p2, body) == x);
                assert(items_present(fields@, items@)) by {
                    assert forall|i: int| 0 <= i < items@.len() && (#[trigger] items@[i]).2 is None implies has_key(fields@, items@[i].0@) by {
                        assert(names@[i]@ == items@[i].0@);
                    }
                }
                assert(no_extra(fields@, items@)) by {
                    assert forall|k: Seq<char>| #[trigger] has_key(fields@, k) implies exists|i: int| 0 <= i < items@.len() && items@[i].0@ == k by {
                        let j = choose|j: int| 0 <= j < names@.len() && names@[j]@ == k;
                        assert(names@[j]@ == items@[j].0@);
                    }
                }
                assert(object_call_ok(p2, var_obj, items@, need_all));
                assert forall|t2: ExprType| #[trigger] call_steps_to(p2, var_obj, arg, t2) implies operands_ready(p2, t2) by {
                    let m = p0.node(arg)->FuncDef_0;
                    let sv = choose|sv: Seq<(Seq<char>, Expr)>| #[trigger] object_args(fields@, items@, m, sv, p2.size()) && applied(
                        p2,
                        sv,
                        body,
                        t2,
                    );
                    lemma_applied_set_ok(p2, sv, body, t2);
                    assert(t2->Bind_1 == x);
                }
                assert(call_ready(p2, ExprType::FuncCall(var_obj, arg)));
            }
        }
        let rres = resolve(pool, host, call, fuel - 1);
        proof {
            if rready {
                assert(p2.node(call) == ExprType::FuncCall(var_obj, arg));
                let t2 = choose|t2: ExprType| #[trigger] call_steps_to(p2, var_obj, arg, t2) && ready_outcome(
                    p2,
                    *pool,
                    t2,
                    match rres {
                        Ok(_) => Ok(pool.node(call)),
                        Err(er) => Err(er),
                    },
                );
                let m = p0.node(arg)->FuncDef_0;
                let body = p0.node(arg)->FuncDef_1;
                let sv = choose|sv: Seq<(Seq<char>, Expr)>| #[trigger] object_args(
                    fields@,
                    p0.node(arg)->FuncDef_0->Object_0@,
                    m,
                    sv,
                    p2.size(),
                ) && applied(p2, sv, body, t2);
                lemma_applied_set_ok(p2, sv, body, t2);
                assert(t2->Bind_1 == body_object(p0, body));
                assert(p2.node(t2->Bind_1) == p0.node(body_object(p0, body)));
                assert(rres is Ok);
                let out = pool.node(call)->Object_0@;
                let sc = t2->Bind_0;
                assert(out.len() == bfs.len());
                assert forall|jj: int| 0 <= jj < out.len() implies (#[trigger] out[jj]).0 == bfs[jj].0 && (pool.node(out[jj].1) matches ExprType::Bind(
                    _,
                    yy,
                ) && yy == bfs[jj].1) && field_ready_val(*pool, out[jj].1, bfs[jj].1, p0) by {
                    assert(crate::lang::eval::bound_in(*pool, out[jj].1, sc@, bfs[jj].1));
                    let y = bfs[jj].1;
                    assert(p0.valid(y) && p0.node(y) is Value);
                    lemma_normal_kept(p2, p0, y);
                    lemma_normal_kept(*pool, p2, y);
                    lemma_set_ok_mono(sc@, p2.size(), pool.size());
                }
                assert(fields_pending(*pool, out, bfs, p0, 0));
            }
        }
        rres?;
        proof {
            lemma_placeholder_kept(pv, p2, var_obj, rule_args@);
            lemma_placeholder_kept(p2, *pool, var_obj, rule_args@);
            lemma_extends_trans(*pool, p2, p0);
            lemma_normal_kept(*pool, p2, arg);
            assert(tok_ok(pool.node(call), pool.size()));
        }
        let objargs = match pool.tok(call) {
            ExprType::Object(f) => f.copy(),
            _ => {
                return Err(err_msg(ErrorType::Type, "pb.rule function needs to return an object").reref(loc));
            },
        };
        let ghost p3 = *pool;
        proof {
            if rready {
                assert(bfs.take(0) =~= Seq::<(Seq<char>, Expr)>::empty());
            }
        }
        let mut vars: Vec<(String, Vec<NinjaArg>)> = Vec::new();
        let mut deps: Vec<Rc<PbBuild>> = Vec::new();
        let mut j: usize = 0;
        while j < objargs.len()
            invariant
                j <= objargs@.len(),
                grown(*pool, p0),
                pool.size() >= p3.size(),
                set_ok(objargs@, p3.size()),
                pool.valid(arg),
                pool.node(arg) == pa.node(arg),
                pool.valid(call),
                pool.node(call) == p3.node(call),
                vars_from_fields(*pool, objargs@.take(j as int), vars@),
                placeholder_object(*pool, var_obj, rule_args@),
                rready ==> objargs@.len() == bfs.len() && (forall|jj: int| 0 <= jj < objargs@.len() ==> (#[trigger] objargs@[jj]).0 == bfs[jj].0
                    && (p3.node(objargs@[jj].1) matches ExprType::Bind(_, yy) && yy == bfs[jj].1)) && fields_pending(
                    *pool,
                    objargs@,
                    bfs,
                    p0,
                    j as int,
                ) && vars_of_values(p0, bfs.take(j as int), vars@),
            decreases objargs@.len() - j,
        {
            let ghost before = *pool;
            assert(objargs@[j as int].1.0 < p3.size());
            let ghost nj = objargs@[j as int].1;
            let ghost yj = bfs[j as int].1;
            proof {
                if rready {
                    assert(field_ready_val(before, nj, yj, p0));
                }
            }
            let items = field_items(pool, host, *objargs.value_at(j), fuel - 1);
            proof {
                lemma_extends_trans(*pool, before, p0);
                if rready {
                    assert(items is Ok);
                }
            }
            let items = items?;
            let ghost after_items = *pool;
            proof { lemma_placeholder_kept(before, *pool, var_obj, rule_args@); }
            proof {
                if rready {
                    assert(items@ == seq![nj]);
                    assert(pool.node(nj) matches ExprType::Value(w) && same_value(w, p0.node(yj)->Value_0));
                    lemma_same_value_simple(pool.node(nj)->Value_0, p0.node(yj)->Value_0);
                    assert(items@[0] == nj);
                    assert(crate::pbbuild::nodes_evaluated(*pool, items@));
                    assert(convertible_node(*pool, items@[0]));
                }
            }
            proof { lemma_normal_kept(*pool, before, arg); }
            let ghost mid = *pool;
            let args = ninja_args(pool, host, &items, &mut deps, fuel - 1);
            proof {
                lemma_extends_trans(*pool, mid, p0);
                if rready {
                    assert(args is Ok);
                }
            }
            let args = args?;
            proof {
                lemma_placeholder_kept(mid, *pool, var_obj, rule_args@);
                lemma_normal_kept(*pool, mid, arg);
                lemma_normal_kept(*pool, before, call);
                lemma_vars_kept(*pool, before, objargs@.take(j as int), vars@);
                let x = objargs@[j as int].1;
                lemma_normal_kept(*pool, mid, x);
                match pool.node(x) {
                    ExprType::List(xs) => {
                        assert(items@ == xs@);
                    },
                    _ => {
                        assert(items@ == seq![x]);
                        assert(items@[0] == x);
                    },
                }
                assert(field_args(*pool, x, args@));
            }
            let ghost v0 = vars@;
            let key = objargs.key_at(j).clone();
            let ghost args_v = args@;
            vars.push((key, args));
            proof {
                if rready {
                    assert(*pool == after_items);
                    assert(args_of_nodes(*pool, items@, args_v));
                    assert(items@[0] == nj);
                    let w = pool.node(nj)->Value_0;
                    assert(arg_of(w, args_v[0]));
                    lemma_same_value_simple(w, p0.node(yj)->Value_0);
                    assert(simple_arg(p0.node(yj)->Value_0, args_v[0]));
                    assert(bfs.take(j + 1) =~= bfs.take(j as int).push(bfs[j as int]));
                    assert forall|ii: int| 0 <= ii < j + 1 implies (#[trigger] vars@[ii]).0@ == bfs.take(j + 1)[ii].0 && vars@[ii].1@.len() == 1
                        && (p0.node(bfs.take(j + 1)[ii].1) matches ExprType::Value(v) && simple_arg(v, vars@[ii].1@[0])) by {
                        if ii < j {
                            assert(vars@[ii] == v0[ii]);
                            assert(bfs.take(j + 1)[ii] == bfs.take(j as int)[ii]);
                        }
                    }
                    assert(vars_of_values(p0, bfs.take(j + 1), vars@));
                    assert forall|jj: int| j + 1 <= jj < objargs@.len() implies field_ready_val(
                        *pool,
                        (#[trigger] objargs@[jj]).1,
                        bfs[jj].1,
                        p0,
                    ) by {
                        assert(field_ready_val(before, objargs@[jj].1, bfs[jj].1, p0));
                        let n2 = objargs@[jj].1;
                        let y2 = bfs[jj].1;
                        lemma_normal_kept(*pool, before, y2);
                        if before.node(n2) is Bind {
                            lemma_set_ok_mono(before.node(n2)->Bind_0@, before.size(), pool.size());
                        }
                        if n2 == nj {
                            assert(y2 == yj);
                        } else {
                            if before.node(nj) is Bind {
                                assert(after_items.nodes()[n2.0 as int] == before.nodes()[n2.0 as int]);
                            }
                            if before.node(n2) is Value {
                                lemma_normal_kept(*pool, before, n2);
                            }
                        }
                    }
                }
                assert(objargs@.take(j + 1) =~= objargs@.take(j as int).push(objargs@[j as int]));
                assert forall|i: int| 0 <= i < j + 1 implies (#[trigger] vars@[i]).0@ == objargs@.take(j + 1)[i].0
                    && field_args(*pool, objargs@.take(j + 1)[i].1, vars@[i].1@) by {
                    if i < j {
                        assert(vars@[i] == v0[i]);
                        assert(objargs@.take(j + 1)[i] == objargs@.take(j as int)[i]);
                    }
                }
            }
            j = j + 1;
        }
        proof { assert(objargs@.take(objargs@.len() as int) =~= objargs@); }
        let id = match pool.unique_id() {
            Some(id) => id,
            None => {
                return Err(err_msg(ErrorType::Eval, "No identifiers left"));
            },
        };
        let name = PbBuildRule::get_name(&vars);
        let rule = PbBuildRule { id, name, rule_args, rule_vars: vars };
        let ghost p4 = *pool;
        let r = pool.push(ExprType::Value(Value::BuildRule(Rc::new(rule))), loc);
        proof {
            lemma_extends_trans(*pool, p4, p0);
            lemma_placeholder_kept(p4, *pool, var_obj, rule_args@);
            let rr = pool.node(r)->Value_0->BuildRule_0;
            assert(rr.rule_args@ == rule.rule_args@);
            assert(placeholder_object(*pool, var_obj, rr.rule_args@));
            lemma_normal_kept(*pool, p4, arg);
            lemma_normal_kept(*pool, p4, call);
            lemma_vars_kept(*pool, p4, objargs@, rule.rule_vars@);
            assert(call.0 >= p0.size());
            let items = its;
            assert(forall|i: int| 0 <= i < items@.len() ==> (#[trigger] items@[i]).2 is None);
            assert forall|k: Seq<char>| #[trigger] has_key(rule.rule_args@, k) <==> exists|i: int|
                0 <= i < items@.len() && items@[i].0@ == k by {
                if exists|j: int| 0 <= j < names@.len() && names@[j]@ == k {
                    let j = choose|j: int| 0 <= j < names@.len() && names@[j]@ == k;
                    assert(names@[j]@ == items@[j].0@);
                }
                if exists|i: int| 0 <= i < items@.len() && items@[i].0@ == k {
                    let i = choose|i: int| 0 <= i < items@.len() && items@[i].0@ == k;
                    assert(names@[i]@ == items@[i].0@);
                }
            }
        }
        Ok(r)
    }
}

/// Field `k` of `obj` is a node of `q` that holds the Ninja arguments `out`.
pub open spec fn field_holds(q: ExprPool, obj: Seq<(Seq<char>, Expr)>, k: Seq<char>, out: Seq<NinjaArg>) -> bool {
    exists|x: Expr| #[trigger] has_entry(obj, k, x) && field_args(q, x, out)
}

/// Build `b` takes its files and variables from the fields of `obj`: one
/// field for each placeholder of its rule, `input` and `output` for the
/// files, and the others for the variables, as the Ninja arguments that the
/// fields' nodes in `q` hold.
pub open spec fn build_fields(q: ExprPool, obj: Seq<(Seq<char>, Expr)>, b: PbBuild) -> bool {
    &&& forall|k: Seq<char>| #[trigger] has_key(b.rule.rule_args@, k) ==> has_key(obj, k)
    &&& forall|k: Seq<char>| #[trigger] has_key(b.args@, k) <==> (has_key(b.rule.rule_args@, k) && k != "input"@ && k
        != "output"@)
    &&& forall|k: Seq<char>, a: Vec<NinjaArg>| #[trigger] has_entry(b.args@, k, a) ==> field_holds(q, obj, k, a@)
    &&& if has_key(b.rule.rule_args@, "input"@) {
        field_holds(q, obj, "input"@, b.input@)
    } else {
        b.input@.len() == 0
    }
    &&& if has_key(b.rule.rule_args@, "output"@) {
        field_holds(q, obj, "output"@, b.output@)
    } else {
        b.output@.len() == 0
    }
    &&& b.deps@ == builds_of_fields(q, obj, b.rule.rule_args@)
}

/// A field keeps the arguments it holds as the pool grows.
proof fn lemma_field_holds_kept(q: ExprPool, p: ExprPool, obj: Seq<(Seq<char>, Expr)>, k: Seq<char>, out: Seq<NinjaArg>)
    requires
        q.extends(p),
        field_holds(p, obj, k, out),
    ensures
        field_holds(q, obj, k, out),
{
    let x = choose|x: Expr| #[trigger] has_entry(obj, k, x) && field_args(p, x, out);
    lemma_field_args_kept(q, p, x, out);
}

/// Field node `y` of `q` is evaluated and can stand for rule arguments: a
/// list of values, or a value, that can be written into a Ninja statement.
pub open spec fn field_ok(q: ExprPool, y: Expr) -> bool {
    &&& q.valid(y)
    &&& match q.node(y) {
        ExprType::List(xs) => forall|j: int| 0 <= j < xs@.len() ==> q.valid(#[trigger] xs@[j]) && convertible_node(q, xs@[j]),
        ExprType::Value(v) => ninja_convertible(v),
        _ => false,
    }
}

/// The evaluated object `fs` has a field `rule` that holds a rule, and for
/// each placeholder of the rule a field that `field_ok` accepts.
pub open spec fn build_ok(q: ExprPool, fs: Seq<(Seq<char>, Expr)>) -> bool {
    &&& has_key(fs, "rule"@)
    &&& forall|x: Expr| #[trigger] has_entry(fs, "rule"@, x) ==> rule_node_ok(q, fs, x)
}

/// Node `x` of `q` holds a rule, and `fs` has for each placeholder of the
/// rule a field that `field_ok` accepts.
pub open spec fn rule_node_ok(q: ExprPool, fs: Seq<(Seq<char>, Expr)>, x: Expr) -> bool {
    &&& q.valid(x)
    &&& match q.node(x) {
        ExprType::Value(Value::BuildRule(rr)) => forall|k: Seq<char>| #[trigger] has_key(rr.rule_args@, k) ==> has_key(
            fs,
            k,
        ) && forall|y: Expr| #[trigger] has_entry(fs, k, y) ==> field_ok(q, y),
        _ => false,
    }
}

/// The evaluated object `fs` has a field `rule` that holds a rule with a
/// placeholder that `fs` has no field for, and each field that it has for a
/// placeholder is one that `field_ok` accepts.
pub open spec fn build_lacks_arg(q: ExprPool, fs: Seq<(Seq<char>, Expr)>) -> bool {
    &&& has_key(fs, "rule"@)
    &&& forall|x: Expr| #[trigger] has_entry(fs, "rule"@, x) ==> rule_lacks_arg(q, fs, x)
}

/// Node `x` of `q` holds a rule with a placeholder that `fs` has no field
/// for, and each field that `fs` has for a placeholder is one that
/// `field_ok` accepts.
pub open spec fn rule_lacks_arg(q: ExprPool, fs: Seq<(Seq<char>, Expr)>, x: Expr) -> bool {
    &&& q.valid(x)
    &&& match q.node(x) {
        ExprType::Value(Value::BuildRule(rr)) => (exists|k: Seq<char>| #[trigger] has_key(rr.rule_args@, k) && !has_key(
            fs,
            k,
        )) && forall|k: Seq<char>, y: Expr| #[trigger] has_key(rr.rule_args@, k) && #[trigger] has_entry(fs, k, y)
            ==> field_ok(q, y),
        _ => false,
    }
}

/// `pb.build`.
pub struct BuiltinPbBuild;

impl BuiltinPbBuild {
    /// A build step from an object with the field `rule`, a rule made by
    /// `pb.rule`, and a field for each placeholder of the rule; `input` and
    /// `output` name the files, and builds among the values become
    /// dependencies.
    #[verifier::loop_isolation(false)]
    pub fn call<H: ExprBuiltin>(pool: &mut ExprPool, host: &mut H, arg: Expr, fuel: u64) -> (res: Result<Expr, Error>)
        requires
            old(pool).wf(),
            old(pool).valid(arg),
        ensures
            grown(*final(pool), *old(pool)),
            res matches Ok(r) ==> final(pool).valid(r) && (final(pool).node(r) matches ExprType::Value(Value::Build(b))
                && final(pool).next_id() == b.id + 1 && (final(pool).node(arg) matches ExprType::Object(obj)
                && build_fields(*final(pool), obj@, *b) && exists|x: Expr| #[trigger] has_entry(obj@, "rule"@, x)
                && (final(pool).node(x) matches ExprType::Value(Value::BuildRule(rr)) && rr.id == b.rule.id))),
            (old(pool).node(arg) matches ExprType::Object(fs) && build_ok(*old(pool), fs@)) && fuel > 2 && old(
                pool,
            ).next_id() < usize::MAX ==> res is Ok,
            (old(pool).node(arg) matches ExprType::Object(fs) && !has_key(fs@, "rule"@)) && fuel > 0 ==> (res matches Err(
                e,
            ) && e.typ == ErrorType::Type),
            (old(pool).node(arg) matches ExprType::Object(fs) && build_lacks_arg(*old(pool), fs@)) && fuel > 2 ==> (
            res matches Err(e) && e.typ == ErrorType::Type),
        decreases fuel,
    {
        if fuel == 0 {
            return Err(err_msg(ErrorType::Eval, "Evaluation nested too deeply"));
        }
        let ghost p0 = *pool;
        let ghost ready = (p0.node(arg) matches ExprType::Object(fs) && build_ok(p0, fs@)) && fuel > 2 && p0.next_id()
            < usize::MAX;
        let ghost lacks = (p0.node(arg) matches ExprType::Object(fs) && build_lacks_arg(p0, fs@)) && fuel > 2;
        resolve(pool, host, arg, fuel - 1)?;
        proof { assert(tok_ok(pool.node(arg), pool.size())); }
        let loc = pool.loc(arg);
        let mut obj = match pool.tok(arg) {
            ExprType::Object(f) => f.copy(),
            _ => {
                return Err(err_msg(ErrorType::Type, "unknown arg for pb.build").reref(loc));
            },
        };
        let ghost p1 = *pool;
        let rule_node = match obj.get("rule") {
            Some(x) => *x,
            None => {
                return Err(err_msg(ErrorType::Type, "Can't unpack \"rule\""));
            },
        };
        proof {
            let q = choose|q: int| 0 <= q < obj@.len() && obj@[q] == ("rule"@, rule_node);
            assert(obj@[q].1.0 < p1.size());
            assert(obj@[q].0 == "rule"@);
            if p0.node(arg) is Object {
                assert(*pool == p0);
                assert(has_key(p0.node(arg)->Object_0@, "rule"@));
            }
        }
        let rv = value_of(pool, host, rule_node, fuel - 1)?;
        let rule = match rv {
            Value::BuildRule(r) => r,
            _ => {
                return Err(err_msg(ErrorType::Type, "Can't unpack \"rule\""));
            },
        };
        proof {
            lemma_extends_trans(*pool, p1, p0);
            lemma_normal_kept(*pool, p1, arg);
            assert(has_entry(obj@, "rule"@, rule_node));
            if ready || lacks {
                assert(*pool == p0);
                assert(p0.node(rule_node) matches ExprType::Value(Value::BuildRule(rr)) && rr == rule);
            }
        }
        let ghost p2 = *pool;
        let ghost ra = rule.rule_args@;
        let mut input: Vec<NinjaArg> = Vec::new();
        let mut output: Vec<NinjaArg> = Vec::new();
        let mut args: ImMap<Vec<NinjaArg>> = ImMap::new();
        let mut deps: Vec<Rc<PbBuild>> = Vec::new();
        let mut j: usize = 0;
        obj.sorted_fact();
        proof {
            assert(ra.take(0) =~= Seq::<(Seq<char>, bool)>::empty());
            assert(deps@ =~= builds_of_fields(*pool, obj@, ra.take(0)));
        }
        while j < rule.rule_args.len()
            invariant
                sorted_keys(obj@),
                ready ==> *pool == p0 && forall|k: Seq<char>| #[trigger] has_key(ra, k) ==> has_key(obj@, k) && forall|y: Expr|
                    #[trigger] has_entry(obj@, k, y) ==> field_ok(p0, y),
                lacks ==> *pool == p0 && (exists|k: Seq<char>| #[trigger] has_key(ra, k) && !has_key(obj@, k)) && forall|
                    k: Seq<char>,
                    y: Expr,
                | #[trigger] has_key(ra, k) && #[trigger] has_entry(obj@, k, y) ==> field_ok(p0, y),
                fields_ready(*pool, obj@, ra.take(j as int)),
                deps@ == builds_of_fields(*pool, obj@, ra.take(j as int)),
                j <= rule.rule_args@.len(),
                grown(*pool, p0),
                pool.size() >= p2.size(),
                p2.size() >= p1.size(),
                set_ok(obj@, p1.size()),
                pool.valid(arg),
                pool.node(arg) == p1.node(arg),
                p1.node(arg) matches ExprType::Object(f1) && f1@ == obj@,
                pool.valid(rule_node),
                pool.node(rule_node) == p2.node(rule_node),
                rule.rule_args@ == ra,
                forall|jj: int| 0 <= jj < j ==> #[trigger] has_key(obj@, ra[jj].0),
                forall|k: Seq<char>| #[trigger] has_key(args@, k) <==> (exists|jj: int| 0 <= jj < j && ra[jj].0 == k)
                    && k != "input"@ && k != "output"@,
                (exists|jj: int| 0 <= jj < j && ra[jj].0 == "input"@) || input@.len() == 0,
                (exists|jj: int| 0 <= jj < j && ra[jj].0 == "output"@) || output@.len() == 0,
                (exists|jj: int| 0 <= jj < j && ra[jj].0 == "input"@) ==> field_holds(*pool, obj@, "input"@, input@),
                (exists|jj: int| 0 <= jj < j && ra[jj].0 == "output"@) ==> field_holds(*pool, obj@, "output"@, output@),
                forall|k: Seq<char>, a: Vec<NinjaArg>| #[trigger] has_entry(args@, k, a) ==> field_holds(*pool, obj@, k, a@),
            decreases rule.rule_args@.len() - j,
        {
            let ghost start = *pool;
            let ghost in_before = input@;
            let ghost out_before = output@;
            let arg_name = rule.rule_args.key_at(j);
            let node = match obj.get(arg_name.as_str()) {
                Some(x) => *x,
                None => {
                    proof {
                        if ready {
                            assert(ra[j as int].0 == arg_name@);
                            assert(has_key(ra, arg_name@));
                        }
                    }
                    return Err(err_msg(ErrorType::Type, "Can't unpack arg_name"));
                },
            };
            proof {
                let q = choose|q: int| 0 <= q < obj@.len() && obj@[q] == (arg_name@, node);
                assert(obj@[q].1.0 < p1.size());
                assert(obj@[q].0 == ra[j as int].0);
            }
            let ghost before = *pool;
            proof {
                if ready || lacks {
                    assert(ra[j as int].0 == arg_name@);
                    assert(has_key(ra, arg_name@));
                    assert(has_entry(obj@, arg_name@, node));
                    assert(field_ok(p0, node));
                }
            }
            let items = field_items(pool, host, node, fuel - 1);
            proof {
                lemma_extends_trans(*pool, before, p0);
                lemma_normal_kept(*pool, before, arg);
                lemma_normal_kept(*pool, before, rule_node);
            }
            let items = match items {
                Ok(v) => v,
                Err(_) => {
                    return Err(err_name(ErrorType::Type, "field ", arg_name.as_str(), " is not a list or value"));
                },
            };
            let ghost mid = *pool;
            proof {
                if ready || lacks {
                    match p0.node(node) {
                        ExprType::List(xs) => {
                            assert(items@ == xs@);
                        },
                        _ => {
                            assert(items@ == seq![node]);
                            assert(items@[0] == node);
                        },
                    }
                    assert(nodes_evaluated(p0, items@));
                    assert(forall|jj: int| 0 <= jj < items@.len() ==> convertible_node(p0, #[trigger] items@[jj]));
                }
            }
            let value = ninja_args(pool, host, &items, &mut deps, fuel - 1);
            proof {
                lemma_extends_trans(*pool, mid, p0);
                lemma_normal_kept(*pool, mid, arg);
                lemma_normal_kept(*pool, mid, rule_node);
            }
            let value = match value {
                Ok(v) => v,
                Err(e) => {
                    return Err(e);
                },
            };
            let ghost a0 = args@;
            proof {
                lemma_builds_of_fields_kept(mid, start, obj@, ra.take(j as int));
                lemma_builds_of_fields_kept(*pool, mid, obj@, ra.take(j as int));
                lemma_normal_kept(*pool, mid, node);
                match pool.node(node) {
                    ExprType::List(xs) => {
                        assert(items@ == xs@);
                    },
                    _ => {
                        assert(items@ == seq![node]);
                        assert(items@[0] == node);
                    },
                }
                assert(field_args(*pool, node, value@));
                assert(has_entry(obj@, arg_name@, node));
                assert(ra[j as int].0 == arg_name@);
                law_one_value_per_key(obj@, arg_name@, node, field_node(obj@, arg_name@));
                assert(field_ready(*pool, obj@, ra[j as int].0));
                assert(ra.take(j + 1).drop_last() =~= ra.take(j as int));
                assert(ra.take(j + 1).last() == ra[j as int]);
                assert(items@ == field_nodes(*pool, node));
                assert(deps@ == builds_of_fields(*pool, obj@, ra.take(j + 1)));
                assert forall|i: int| 0 <= i < j + 1 implies field_ready(*pool, obj@, #[trigger] ra.take(j + 1)[i].0) by {
                    if i < j {
                        assert(ra.take(j + 1)[i] == ra.take(j as int)[i]);
                    }
                }
                assert(field_holds(*pool, obj@, arg_name@, value@));
                if exists|jj: int| 0 <= jj < j && ra[jj].0 == "input"@ {
                    lemma_field_holds_kept(*pool, start, obj@, "input"@, in_before);
                }
                if exists|jj: int| 0 <= jj < j && ra[jj].0 == "output"@ {
                    lemma_field_holds_kept(*pool, start, obj@, "output"@, out_before);
                }
                assert forall|k: Seq<char>, a: Vec<NinjaArg>| #[trigger] has_entry(a0, k, a) implies field_holds(*pool, obj@, k, a@) by {
                    lemma_field_holds_kept(*pool, start, obj@, k, a@);
                }
            }
            if str_eq(arg_name.as_str(), "input") {
                input = value;
            } else if str_eq(arg_name.as_str(), "output") {
                output = value;
            } else {
                args.upsert(arg_name.as_str(), value);
            }
            proof {
                assert forall|k: Seq<char>| #[trigger] has_key(args@, k) <==> (exists|jj: int| 0 <= jj < j + 1 && ra[jj].0
                    == k) && k != "input"@ && k != "output"@ by {
                    if exists|jj: int| 0 <= jj < j + 1 && ra[jj].0 == k {
                        let jj = choose|jj: int| 0 <= jj < j + 1 && ra[jj].0 == k;
                        if jj < j && k != "input"@ && k != "output"@ {
                            assert(has_key(a0, k));
                        }
                    }
                    if has_key(args@, k) && k != ra[j as int].0 {
                        assert(has_key(a0, k));
                    }
                }
                assert forall|jj: int| 0 <= jj < j + 1 implies #[trigger] has_key(obj@, ra[jj].0) by {
                    if jj == j {
                        let q = choose|q: int| 0 <= q < obj@.len() && obj@[q] == (arg_name@, node);
                        assert(obj@[q].0 == ra[jj].0);
                    }
                }
                assert(ra[j as int].0 == arg_name@);
                reveal_strlit("input");
                reveal_strlit("output");
                if exists|jj: int| 0 <= jj < j + 1 && ra[jj].0 == "output"@ {
                    if arg_name@ != "output"@ {
                        let jj = choose|jj: int| 0 <= jj < j + 1 && ra[jj].0 == "output"@;
                        assert(jj < j);
                    }
                }
                if exists|jj: int| 0 <= jj < j + 1 && ra[jj].0 == "input"@ {
                    if arg_name@ != "input"@ {
                        let jj = choose|jj: int| 0 <= jj < j + 1 && ra[jj].0 == "input"@;
                        assert(jj < j);
                    }
                }
            }
            j = j + 1;
        }
        proof {
            if lacks {
                let k = choose|k: Seq<char>| #[trigger] has_key(ra, k) && !has_key(obj@, k);
                let jj = choose|jj: int| 0 <= jj < ra.len() && #[trigger] ra[jj].0 == k;
                assert(has_key(obj@, ra[jj].0));
                assert(false);
            }
        }
        let ghost p_exit = *pool;
        let id = match pool.unique_id() {
            Some(id) => id,
            None => {
                return Err(err_msg(ErrorType::Eval, "No identifiers left"));
            },
        };
        let build = PbBuild { id, rule, input, output, args, deps };
        let ghost p4 = *pool;
        let r = pool.push(ExprType::Value(Value::Build(Rc::new(build))), loc);
        proof {
            lemma_normal_kept(*pool, p4, arg);
            lemma_normal_kept(*pool, p4, rule_node);
            assert forall|k: Seq<char>| #[trigger] has_key(ra, k) implies has_key(obj@, k) by {
                let jj = choose|jj: int| 0 <= jj < ra.len() && #[trigger] ra[jj].0 == k;
                assert(has_key(obj@, ra[jj].0));
            }
            assert forall|k: Seq<char>| #[trigger] has_key(build.args@, k) <==> (has_key(ra, k) && k != "input"@
                && k != "output"@) by {
                if has_key(ra, k) {
                    let jj = choose|jj: int| 0 <= jj < ra.len() && #[trigger] ra[jj].0 == k;
                }
            }
            if exists|jj: int| 0 <= jj < ra.len() && ra[jj].0 == "input"@ {
                let jj = choose|jj: int| 0 <= jj < ra.len() && ra[jj].0 == "input"@;
                assert(has_key(ra, ra[jj].0));
                lemma_field_holds_kept(*pool, p4, obj@, "input"@, build.input@);
            } else {
                assert(!has_key(ra, "input"@));
            }
            if exists|jj: int| 0 <= jj < ra.len() && ra[jj].0 == "output"@ {
                let jj = choose|jj: int| 0 <= jj < ra.len() && ra[jj].0 == "output"@;
                assert(has_key(ra, ra[jj].0));
                lemma_field_holds_kept(*pool, p4, obj@, "output"@, build.output@);
            } else {
                assert(!has_key(ra, "output"@));
            }
            assert forall|k: Seq<char>, a: Vec<NinjaArg>| #[trigger] has_entry(build.args@, k, a) implies field_holds(
                *pool,
                obj@,
                k,
                a@,
            ) by {
                lemma_field_holds_kept(*pool, p4, obj@, k, a@);
            }
            assert(ra.take(ra.len() as int) =~= ra);
            assert(p4.extends(p_exit));
            lemma_builds_of_fields_kept(p4, p_exit, obj@, ra);
            lemma_builds_of_fields_kept(*pool, p4, obj@, ra);
            assert(build_fields(*pool, obj@, build));
        }
        Ok(r)
    }
}

/// Field `key` of `fields` is a node of `q` holding the builtin `name` of
/// kind `kind`.
pub open spec fn builtin_field(q: ExprPool, fields: Seq<(Seq<char>, Expr)>, key: Seq<char>, name: Seq<char>, kind: BuiltinKind) -> bool {
    exists|x: Expr| #[trigger] has_entry(fields, key, x) && q.valid(x) && (q.node(x) matches ExprType::FuncDefBuiltin(w)
        && w.0@ == name && w.1 == kind)
}

/// The object of `pb` builtins: `lock`, `rule`, `build`, `translate` and
/// `retype`.
pub fn get_pb_builtins(pool: &mut ExprPool) -> (res: Expr)
    requires
        old(pool).wf(),
    ensures
        grown(*final(pool), *old(pool)),
        final(pool).valid(res),
        final(pool).node(res) matches ExprType::Object(fields) && (forall|k: Seq<char>| #[trigger] has_key(fields@, k)
            <==> (k == "lock"@ || k == "rule"@ || k == "build"@ || k == "translate"@ || k == "retype"@)) && builtin_field(
            *final(pool),
            fields@,
            "lock"@,
            "lock"@,
            BuiltinKind::Lock,
        ) && builtin_field(*final(pool), fields@, "rule"@, "build"@, BuiltinKind::Rule) && builtin_field(
            *final(pool),
            fields@,
            "build"@,
            "build"@,
            BuiltinKind::Build,
        ) && builtin_field(*final(pool), fields@, "translate"@, "translate"@, BuiltinKind::Translate)
            && builtin_field(*final(pool), fields@, "retype"@, "retype"@, BuiltinKind::Retype),
        final(pool).nodes()[res.0 as int].loc is None,
{
    let ghost p0 = *pool;
    let mut fields: ImMap<Expr> = ImMap::new();
    let lock = pool.push(ExprType::FuncDefBuiltin(ExprBuiltinWrapper(to_owned_string("lock"), BuiltinKind::Lock)), None);
    let rule = pool.push(ExprType::FuncDefBuiltin(ExprBuiltinWrapper(to_owned_string("build"), BuiltinKind::Rule)), None);
    let build = pool.push(ExprType::FuncDefBuiltin(ExprBuiltinWrapper(to_owned_string("build"), BuiltinKind::Build)), None);
    let translate = pool.push(ExprType::FuncDefBuiltin(ExprBuiltinWrapper(to_owned_string("translate"), BuiltinKind::Translate)), None);
    let retype = pool.push(ExprType::FuncDefBuiltin(ExprBuiltinWrapper(to_owned_string("retype"), BuiltinKind::Retype)), None);
    fields.upsert("lock", lock);
    fields.upsert("rule", rule);
    fields.upsert("build", build);
    fields.upsert("translate", translate);
    fields.upsert("retype", retype);
    proof {
        assert forall|q: int| 0 <= q < fields@.len() implies (#[trigger] fields@[q]).1.0 < pool.size() by {
            assert(has_entry(fields@, fields@[q].0, fields@[q].1));
        }
        reveal_strlit("lock");
        reveal_strlit("rule");
        reveal_strlit("build");
        reveal_strlit("translate");
        reveal_strlit("retype");
        assert("lock"@[0] != "rule"@[0] && "lock"@[0] != "build"@[0] && "lock"@[0] != "translate"@[0]
            && "lock"@[0] != "retype"@[0]);
        assert("rule"@.len() != "build"@.len() && "rule"@[0] != "translate"@[0] && "rule"@.len() != "retype"@.len());
        assert("build"@[0] != "translate"@[0] && "build"@[0] != "retype"@[0]);
        assert("translate"@[0] != "retype"@[0]);
        assert(has_entry(fields@, "lock"@, lock));
        assert(has_entry(fields@, "rule"@, rule));
        assert(has_entry(fields@, "build"@, build));
        assert(has_entry(fields@, "translate"@, translate));
        assert(has_entry(fields@, "retype"@, retype));
    }
    let ghost pf = *pool;
    let res = pool.push(ExprType::Object(fields), None);
    proof {
        lemma_normal_kept(*pool, pf, lock);
        lemma_normal_kept(*pool, pf, rule);
        lemma_normal_kept(*pool, pf, build);
        lemma_normal_kept(*pool, pf, translate);
        lemma_normal_kept(*pool, pf, retype);
    }
    res
}

/// Node `e` of `q` holds a build whose number is among `ids`, or a list of
/// such nodes, nested at most `n` deep.
pub open spec fn builds_added(q: ExprPool, ids: Seq<(usize, NinjaBuild)>, e: Expr, n: nat) -> bool
    decreases n,
{
    &&& q.valid(e)
    &&& q.node(e) is List || (q.node(e) matches ExprType::Value(Value::Build(b)) && has_id(ids, b.id))
    &&& list_items(q.node(e)).len() == 0 || n > 0
    &&& n > 0 ==> forall|i: int| 0 <= i < list_items(q.node(e)).len() ==> builds_added(
        q,
        ids,
        #[trigger] list_items(q.node(e))[i],
        (n - 1) as nat,
    )
}

/// The items of a list content.
pub open spec fn list_items(t: ExprType) -> Seq<Expr> {
    match t {
        ExprType::List(v) => v@,
        _ => seq![],
    }
}

/// What was added stays added as the pool grows and builds are added.
pub proof fn lemma_builds_added_kept(
    p: ExprPool,
    q: ExprPool,
    ids: Seq<(usize, NinjaBuild)>,
    ids2: Seq<(usize, NinjaBuild)>,
    e: Expr,
    n: nat,
)
    requires
        builds_added(p, ids, e, n),
        q.extends(p),
        forall|k: usize| has_id(ids, k) ==> has_id(ids2, k),
    ensures
        builds_added(q, ids2, e, n),
    decreases n,
{
    lemma_normal_kept(q, p, e);
    if p.node(e) is List {
        if n > 0 {
            assert forall|i: int| 0 <= i < list_items(q.node(e)).len() implies builds_added(
                q,
                ids2,
                #[trigger] list_items(q.node(e))[i],
                (n - 1) as nat,
            ) by {
                lemma_builds_added_kept(p, q, ids, ids2, list_items(p.node(e))[i], (n - 1) as nat);
            }
        }
    } else {
        let b = p.node(e)->Value_0->Build_0;
        assert(has_id(ids, b.id));
        assert(list_items(q.node(e)) =~= Seq::<Expr>::empty());
    }
}

/// Adds the builds that `e` evaluates to, a build or a list of them (lists
/// nested in lists too), to the Ninja file; anything else is an error.
#[verifier::loop_isolation(false)]
pub fn add_expr_to_ninjafile<H: ExprBuiltin>(
    pool: &mut ExprPool,
    host: &mut H,
    e: Expr,
    nf: &mut NinjaFile,
    fuel: u64,
) -> (res: Result<(), Error>)
    requires
        old(pool).wf(),
        old(pool).valid(e),
        old(nf).wf(),
    ensures
        grown(*final(pool), *old(pool)),
        final(nf).wf(),
        res is Ok ==> fuel > 0 && builds_added(*final(pool), final(nf).build_entries(), e, (fuel - 1) as nat),
        forall|k: usize| has_id(old(nf).build_entries(), k) ==> has_id(final(nf).build_entries(), k),
        build_tree(*old(pool), e, fuel as nat) ==> res is Ok && *final(pool) == *old(pool),
        fuel > 0 && is_normal(old(pool).node(e)) && !(old(pool).node(e) is List) && !(old(pool).node(e) matches ExprType::Value(
            Value::Build(_),
        )) ==> (res matches Err(er) && er.typ == ErrorType::Custom),
    decreases fuel,
{
    if fuel == 0 {
        return Err(err_msg(ErrorType::Eval, "Evaluation nested too deeply"));
    }
    let ghost p0 = *pool;
    let ghost ready = build_tree(p0, e, fuel as nat);
    resolve(pool, host, e, fuel - 1)?;
    proof { assert(tok_ok(pool.node(e), pool.size())); }
    let items = match pool.tok(e) {
        ExprType::Value(Value::Build(b)) => {
            b.populate_ninja_file(nf);
            return Ok(());
        },
        ExprType::List(v) => copy_exprs(v),
        _ => {
            let loc = pool.loc(e);
            return Err(err_msg(ErrorType::Custom, "Not a valid build definition").reref(loc));
        },
    };
    let ghost p1 = *pool;
    let mut i: usize = 0;
    while i < items.len()
        invariant
            i <= items@.len(),
            grown(*pool, p0),
            pool.size() >= p1.size(),
            vec_ok(items@, p1.size()),
            nf.wf(),
            forall|k: usize| has_id(old(nf).build_entries(), k) ==> has_id(nf.build_entries(), k),
            pool.node(e) is List,
            pool.node(e) == p1.node(e),
            list_items(p1.node(e)) == items@,
            p0.valid(e),
            forall|j: int| 0 <= j < i ==> builds_added(*pool, nf.build_entries(), #[trigger] items@[j], (fuel - 2) as nat),
            i > 0 ==> fuel > 1,
            ready ==> *pool == p0 && p1 == p0,
        decreases items@.len() - i,
    {
        let ghost before = *pool;
        let ghost nf0 = nf.build_entries();
        assert(items@[i as int].0 < p1.size());
        proof {
            if ready {
                assert(build_tree(p0, items@[i as int], (fuel - 1) as nat));
            }
        }
        let r = add_expr_to_ninjafile(pool, host, items[i], nf, fuel - 1);
        proof {
            lemma_extends_trans(*pool, before, p0);
            assert(pool.nodes()[e.0 as int] == before.nodes()[e.0 as int]);
        }
        r?;
        proof {
            assert forall|j: int| 0 <= j < i + 1 implies builds_added(*pool, nf.build_entries(), #[trigger] items@[j], (fuel - 2) as nat) by {
                if j < i {
                    lemma_builds_added_kept(before, *pool, nf0, nf.build_entries(), items@[j], (fuel - 2) as nat);
                }
            }
        }
        i = i + 1;
    }
    Ok(())
}

} // verus!
