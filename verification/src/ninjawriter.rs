//! A model of a Ninja build file and its text rendering.
use vstd::prelude::*;

use crate::immap::ImMap;
use crate::path::{path_text, strings_view, VirtPath, lemma_strings_view_push};
use crate::text::{chars_of, decimal, push_char, push_chars, push_str, str_eq, string_of,
    to_owned_string, decimal_chars, lemma_decimal_nonempty, lemma_decimal_injective};

verus! {

/*
 * Model
 */

/// One argument in a Ninja statement.
#[derive(Debug, PartialEq)]
pub enum NinjaArg {
    /// Literal text, escaped when written.
    Const(String),
    /// A Ninja variable reference, written `${name}`.
    Var(String),
    /// A file.
    Path(VirtPath),
    /// The arguments written one after the other.
    Concat(Vec<NinjaArg>),
}

/// The names handed out so far.
#[derive(Debug)]
struct UniqueNames {
    names: Vec<String>,
}

/// A variable assignment inside a rule or a build.
#[derive(Debug, PartialEq)]
pub struct NinjaVar {
    pub name: String,
    pub args: Vec<NinjaArg>,
}

/// A Ninja rule.
#[derive(Debug, PartialEq)]
pub struct NinjaRule {
    pub name: String,
    pub vars: Vec<NinjaVar>,
}

/// The name by which builds refer to a rule.
#[derive(Debug, Clone, PartialEq)]
pub struct NinjaRuleRef(pub String);

/// A Ninja build statement.
#[derive(Debug, PartialEq)]
pub struct NinjaBuild {
    pub rule: String,
    pub outputs: Vec<NinjaArg>,
    pub inputs: Vec<NinjaArg>,
    pub deps: Vec<NinjaArg>,
    pub vars: Vec<NinjaVar>,
    pub is_default: bool,
}

/// Entries keyed by number, kept in ascending key order.
#[derive(Debug)]
pub struct IdMap<T> {
    entries: Vec<(usize, T)>,
}

impl<T> View for IdMap<T> {
    type V = Seq<(usize, T)>;

    closed spec fn view(&self) -> Seq<(usize, T)> {
        self.entries@
    }
}

/// A whole Ninja file: rules and builds, each keyed by a number that fixes
/// the order in which they are written.
#[derive(Debug)]
pub struct NinjaFile {
    rule_names: UniqueNames,
    rules: IdMap<NinjaRule>,
    builds: IdMap<NinjaBuild>,
}

impl NinjaFile {
    /// The rules with their keys, in ascending key order.
    pub closed spec fn rule_entries(&self) -> Seq<(usize, NinjaRule)> {
        self.rules@
    }

    /// The builds with their keys, in ascending key order.
    pub closed spec fn build_entries(&self) -> Seq<(usize, NinjaBuild)> {
        self.builds@
    }
}

/*
 * Text of the model
 */

/// `n` levels of two-space indentation.
pub open spec fn indent_text(n: nat) -> Seq<char>
    decreases n,
{
    if n == 0 {
        seq![]
    } else {
        indent_text((n - 1) as nat) + seq![' ', ' ']
    }
}

/// One escaped character: `$`, `:` and space get a `$` before them, and a
/// newline becomes `$`, newline and the indentation.
pub open spec fn esc_char(c: char, indent: nat) -> Seq<char> {
    if c == '$' {
        seq!['$', '$']
    } else if c == '\n' {
        seq!['$', '\n'] + indent_text(indent)
    } else if c == ':' {
        seq!['$', ':']
    } else if c == ' ' {
        seq!['$', ' ']
    } else {
        seq![c]
    }
}

/// Escaped text.
pub open spec fn esc(s: Seq<char>, indent: nat) -> Seq<char>
    decreases s.len(),
{
    if s.len() == 0 {
        seq![]
    } else {
        esc(s.drop_last(), indent) + esc_char(s.last(), indent)
    }
}

/// The written form of an argument.
pub open spec fn arg_text(a: NinjaArg, indent: nat) -> Seq<char>
    decreases a,
{
    match a {
        NinjaArg::Const(c) => esc(c@, indent + 1),
        NinjaArg::Var(n) => seq!['$', '{'] + n@ + seq!['}'],
        NinjaArg::Path(p) => path_text(p@),
        NinjaArg::Concat(v) => concat_text(v@, indent),
    }
}

/// The written forms of arguments, one after the other.
pub open spec fn concat_text(v: Seq<NinjaArg>, indent: nat) -> Seq<char>
    decreases v,
{
    if v.len() == 0 {
        seq![]
    } else {
        concat_text(v.drop_last(), indent) + arg_text(v.last(), indent)
    }
}

/// The written forms of arguments, each after a space.
pub open spec fn spaced_text(v: Seq<NinjaArg>, indent: nat) -> Seq<char>
    decreases v.len(),
{
    if v.len() == 0 {
        seq![]
    } else {
        spaced_text(v.drop_last(), indent) + seq![' '] + arg_text(v.last(), indent)
    }
}

/// The written form of a variable assignment.
pub open spec fn var_text(v: NinjaVar, indent: nat) -> Seq<char> {
    indent_text(indent) + esc(v.name@, indent + 1) + seq![' ', '='] + spaced_text(v.args@, indent)
        + seq!['\n']
}

/// The written forms of variable assignments, one after the other.
pub open spec fn vars_text(v: Seq<NinjaVar>, indent: nat) -> Seq<char>
    decreases v.len(),
{
    if v.len() == 0 {
        seq![]
    } else {
        vars_text(v.drop_last(), indent) + var_text(v.last(), indent)
    }
}

/// The written form of a rule.
pub open spec fn rule_text(r: NinjaRule) -> Seq<char> {
    seq!['r', 'u', 'l', 'e', ' '] + esc(r.name@, 1) + seq!['\n'] + vars_text(r.vars@, 1) + seq![
        '\n',
    ]
}

/// The order-only part of a build line: ` |` and the dependencies, when
/// there are any.
pub open spec fn deps_text(b: NinjaBuild) -> Seq<char> {
    if b.deps@.len() > 0 {
        seq![' ', '|'] + spaced_text(b.deps@, 1)
    } else {
        seq![]
    }
}

/// The `default` line of a build marked as default.
pub open spec fn default_text(b: NinjaBuild) -> Seq<char> {
    if b.is_default {
        seq!['d', 'e', 'f', 'a', 'u', 'l', 't'] + spaced_text(b.outputs@, 1) + seq!['\n', '\n']
    } else {
        seq![]
    }
}

/// The build line: outputs, rule and inputs.
pub open spec fn build_line(b: NinjaBuild) -> Seq<char> {
    seq!['b', 'u', 'i', 'l', 'd'] + spaced_text(b.outputs@, 1) + seq![':', ' '] + esc(b.rule@, 1)
        + spaced_text(b.inputs@, 1) + deps_text(b) + seq!['\n']
}

/// The written form of a build statement.
pub open spec fn build_text(b: NinjaBuild) -> Seq<char> {
    build_line(b) + vars_text(b.vars@, 1) + seq!['\n'] + default_text(b)
}

/// The written forms of the rules in key order.
pub open spec fn rules_text(v: Seq<(usize, NinjaRule)>) -> Seq<char>
    decreases v.len(),
{
    if v.len() == 0 {
        seq![]
    } else {
        rules_text(v.drop_last()) + rule_text(v.last().1)
    }
}

/// The written forms of the builds in key order.
pub open spec fn builds_text(v: Seq<(usize, NinjaBuild)>) -> Seq<char>
    decreases v.len(),
{
    if v.len() == 0 {
        seq![]
    } else {
        builds_text(v.drop_last()) + build_text(v.last().1)
    }
}

/// Arguments written the same give the same concatenation.
pub proof fn lemma_concat_text_same(a: Seq<NinjaArg>, b: Seq<NinjaArg>, k: nat)
    requires
        a.len() == b.len(),
        forall|j: int| 0 <= j < a.len() ==> #[trigger] arg_text(a[j], k) == arg_text(b[j], k),
    ensures
        concat_text(a, k) == concat_text(b, k),
    decreases a.len(),
{
    if a.len() > 0 {
        lemma_concat_text_same(a.drop_last(), b.drop_last(), k);
        assert(arg_text(a[a.len() - 1], k) == arg_text(b[b.len() - 1], k));
    }
}

/*
 * Writers
 */

fn ninja_indent(out: &mut String, indent: usize)
    ensures
        final(out)@ == old(out)@ + indent_text(indent as nat),
    decreases indent,
{
    if indent > 0 {
        ninja_indent(out, indent - 1);
        push_char(out, ' ');
        push_char(out, ' ');
        assert(out@ =~= old(out)@ + indent_text(indent as nat));
    } else {
        assert(out@ =~= old(out)@ + indent_text(indent as nat));
    }
}

fn ninja_esc_string(out: &mut String, indent: usize, input: &str)
    ensures
        final(out)@ == old(out)@ + esc(input@, indent as nat),
{
    let s = chars_of(input);
    let mut i: usize = 0;
    assert(s@.take(0) =~= Seq::<char>::empty());
    while i < s.len()
        invariant
            i <= s@.len(),
            s@ == input@,
            out@ == old(out)@ + esc(s@.take(i as int), indent as nat),
        decreases s.len() - i,
    {
        let c = s[i];
        let ghost before = out@;
        if c == '$' {
            push_char(out, '$');
            push_char(out, '$');
        } else if c == '\n' {
            push_char(out, '$');
            push_char(out, '\n');
            ninja_indent(out, indent);
        } else if c == ':' {
            push_char(out, '$');
            push_char(out, ':');
        } else if c == ' ' {
            push_char(out, '$');
            push_char(out, ' ');
        } else {
            push_char(out, c);
        }
        assert(s@.take(i + 1).drop_last() =~= s@.take(i as int));
        assert(out@ =~= before + esc_char(c, indent as nat));
        i = i + 1;
    }
    assert(s@.take(s.len() as int) =~= s@);
}

impl NinjaArg {
    /// A copy of the argument.
    pub fn duplicate(&self) -> (res: NinjaArg)
        ensures
            forall|i: nat| #[trigger] arg_text(res, i) == arg_text(*self, i),
            self is Path <==> res is Path,
        decreases self,
    {
        match self {
            NinjaArg::Const(c) => NinjaArg::Const(c.clone()),
            NinjaArg::Var(c) => NinjaArg::Var(c.clone()),
            NinjaArg::Path(p) => NinjaArg::Path(p.duplicate()),
            NinjaArg::Concat(args) => {
                let mut out: Vec<NinjaArg> = Vec::new();
                let mut i: usize = 0;
                while i < args.len()
                    invariant
                        i <= args@.len(),
                        *self == NinjaArg::Concat(*args),
                        out@.len() == i,
                        forall|j: int, k: nat| 0 <= j < i ==> #[trigger] arg_text(out@[j], k) == arg_text(args@[j], k),
                    decreases args.len() - i,
                {
                    assert(decreases_to!(*self => args@[i as int])) by {
                        assert(decreases_to!(*self => self->Concat_0));
                        assert(decreases_to!(self->Concat_0 => self->Concat_0@));
                        assert(decreases_to!(args@ => args@[i as int]));
                    }
                    out.push(args[i].duplicate());
                    i = i + 1;
                }
                let res = NinjaArg::Concat(out);
                assert forall|k: nat| #[trigger] arg_text(res, k) == arg_text(*self, k) by {
                    lemma_concat_text_same(out@, args@, k);
                }
                res
            },
        }
    }

    fn write(&self, indent: usize, out: &mut String)
        requires
            indent < usize::MAX,
        ensures
            final(out)@ == old(out)@ + arg_text(*self, indent as nat),
        decreases self,
    {
        match self {
            NinjaArg::Const(cnst) => ninja_esc_string(out, indent + 1, cnst.as_str()),
            NinjaArg::Var(name) => {
                push_char(out, '$');
                push_char(out, '{');
                push_str(out, name.as_str());
                push_char(out, '}');
                assert(out@ =~= old(out)@ + arg_text(*self, indent as nat));
            },
            NinjaArg::Path(path) => {
                let t = path.to_path_buf();
                push_str(out, t.as_str());
            },
            NinjaArg::Concat(args) => {
                let mut i: usize = 0;
                assert(args@.take(0) =~= Seq::<NinjaArg>::empty());
                while i < args.len()
                    invariant
                        i <= args@.len(),
                        indent < usize::MAX,
                        *self == NinjaArg::Concat(*args),
                        out@ == old(out)@ + concat_text(args@.take(i as int), indent as nat),
                    decreases args.len() - i,
                {
                    assert(decreases_to!(*self => args@[i as int])) by {
                        assert(decreases_to!(*self => self->Concat_0));
                        assert(decreases_to!(self->Concat_0 => self->Concat_0@));
                        assert(decreases_to!(args@ => args@[i as int]));
                    }
                    args[i].write(indent, out);
                    assert(args@.take(i + 1).drop_last() =~= args@.take(i as int));
                    i = i + 1;
                }
                assert(args@.take(args.len() as int) =~= args@);
            },
        }
    }
}

fn write_spaced(args: &Vec<NinjaArg>, indent: usize, out: &mut String)
    requires
        indent < usize::MAX,
    ensures
        final(out)@ == old(out)@ + spaced_text(args@, indent as nat),
{
    let mut i: usize = 0;
    assert(args@.take(0) =~= Seq::<NinjaArg>::empty());
    while i < args.len()
        invariant
            i <= args@.len(),
            indent < usize::MAX,
            out@ == old(out)@ + spaced_text(args@.take(i as int), indent as nat),
        decreases args.len() - i,
    {
        let ghost before = out@;
        push_char(out, ' ');
        args[i].write(indent, out);
        assert(args@.take(i + 1).drop_last() =~= args@.take(i as int));
        assert(out@ =~= before + seq![' '] + arg_text(args@[i as int], indent as nat));
        i = i + 1;
    }
    assert(args@.take(args.len() as int) =~= args@);
}

impl NinjaVar {
    fn write(&self, indent: usize, out: &mut String)
        requires
            indent < usize::MAX,
        ensures
            final(out)@ == old(out)@ + var_text(*self, indent as nat),
    {
        let ghost start = out@;
        ninja_indent(out, indent);
        ninja_esc_string(out, indent + 1, self.name.as_str());
        push_char(out, ' ');
        push_char(out, '=');
        write_spaced(&self.args, indent, out);
        push_char(out, '\n');
        assert(out@ =~= start + var_text(*self, indent as nat));
    }
}

fn write_vars(vars: &Vec<NinjaVar>, indent: usize, out: &mut String)
    requires
        indent < usize::MAX,
    ensures
        final(out)@ == old(out)@ + vars_text(vars@, indent as nat),
{
    let mut i: usize = 0;
    assert(vars@.take(0) =~= Seq::<NinjaVar>::empty());
    while i < vars.len()
        invariant
            i <= vars@.len(),
            indent < usize::MAX,
            out@ == old(out)@ + vars_text(vars@.take(i as int), indent as nat),
        decreases vars.len() - i,
    {
        vars[i].write(indent, out);
        assert(vars@.take(i + 1).drop_last() =~= vars@.take(i as int));
        i = i + 1;
    }
    assert(vars@.take(vars.len() as int) =~= vars@);
}

impl NinjaRule {
    /// An empty rule named `name`.
    pub fn new(name: &str) -> (res: NinjaRule)
        ensures
            res.name@ == name@,
            res.vars@.len() == 0,
    {
        NinjaRule { name: to_owned_string(name), vars: Vec::new() }
    }

    /// Adds a variable assignment.
    pub fn var(&mut self, name: &str, args: Vec<NinjaArg>) -> (r: &mut Self)
        ensures
            r.name == old(self).name,
            r.vars@.len() == old(self).vars@.len() + 1,
            r.vars@.drop_last() == old(self).vars@,
            r.vars@.last().name@ == name@,
            r.vars@.last().args == args,
            *final(self) == *final(r),
    {
        self.vars.push(NinjaVar { name: to_owned_string(name), args });
        assert(self.vars@.drop_last() =~= old(self).vars@);
        self
    }

    /// The name by which builds refer to this rule.
    pub fn as_ref(&self) -> (res: NinjaRuleRef)
        ensures
            res.0@ == self.name@,
    {
        NinjaRuleRef(self.name.clone())
    }

    /// The written form of the rule.
    pub fn to_string(&self) -> (res: String)
        ensures
            res@ == rule_text(*self),
    {
        let mut out = String::new();
        push_str(&mut out, "rule ");
        ninja_esc_string(&mut out, 1, self.name.as_str());
        push_char(&mut out, '\n');
        write_vars(&self.vars, 1, &mut out);
        push_char(&mut out, '\n');
        proof { reveal_strlit("rule "); }
        assert(out@ =~= rule_text(*self));
        out
    }

    fn write(&self, out: &mut String)
        ensures
            final(out)@ == old(out)@ + rule_text(*self),
    {
        let s = self.to_string();
        push_str(out, s.as_str());
    }
}

impl NinjaBuild {
    /// The written form of the build statement.
    pub fn to_string(&self) -> (res: String)
        ensures
            res@ == build_text(*self),
    {
        let mut out = String::new();
        self.write_line(&mut out);
        write_vars(&self.vars, 1, &mut out);
        push_char(&mut out, '\n');
        let ghost after_vars = out@;
        if self.is_default {
            push_str(&mut out, "default");
            write_spaced(&self.outputs, 1, &mut out);
            push_char(&mut out, '\n');
            push_char(&mut out, '\n');
            proof { reveal_strlit("default"); }
            assert(out@ =~= after_vars + default_text(*self));
        } else {
            assert(out@ =~= after_vars + default_text(*self));
        }
        assert(out@ =~= build_text(*self));
        out
    }

    fn write_line(&self, out: &mut String)
        ensures
            final(out)@ == old(out)@ + build_line(*self),
    {
        let ghost start = out@;
        push_str(out, "build");
        proof { reveal_strlit("build"); }
        write_spaced(&self.outputs, 1, out);
        push_char(out, ':');
        push_char(out, ' ');
        ninja_esc_string(out, 1, self.rule.as_str());
        write_spaced(&self.inputs, 1, out);
        let ghost after_inputs = out@;
        if self.deps.len() > 0 {
            push_char(out, ' ');
            push_char(out, '|');
            write_spaced(&self.deps, 1, out);
            assert(out@ =~= after_inputs + deps_text(*self));
        } else {
            assert(out@ =~= after_inputs + deps_text(*self));
        }
        push_char(out, '\n');
        assert(out@ =~= start + build_line(*self));
    }

    fn write(&self, out: &mut String)
        ensures
            final(out)@ == old(out)@ + build_text(*self),
    {
        let s = self.to_string();
        push_str(out, s.as_str());
    }
}

impl NinjaFile {
    /// The written form of the file: all rules in key order, then all
    /// builds in key order.
    pub fn to_string(&self) -> (res: String)
        ensures
            res@ == rules_text(self.rule_entries()) + builds_text(self.build_entries()),
    {
        let mut out = String::new();
        let mut i: usize = 0;
        assert(self.rules@.take(0) =~= Seq::<(usize, NinjaRule)>::empty());
        while i < self.rules.entries.len()
            invariant
                i <= self.rules@.len(),
                self.rules@ == self.rules.entries@,
                out@ == rules_text(self.rules@.take(i as int)),
            decreases self.rules@.len() - i,
        {
            self.rules.entries[i].1.write(&mut out);
            assert(self.rules@.take(i + 1).drop_last() =~= self.rules@.take(i as int));
            i = i + 1;
        }
        assert(self.rules@.take(self.rules@.len() as int) =~= self.rules@);
        let ghost mid = out@;
        let mut j: usize = 0;
        assert(self.builds@.take(0) =~= Seq::<(usize, NinjaBuild)>::empty());
        while j < self.builds.entries.len()
            invariant
                j <= self.builds@.len(),
                self.builds@ == self.builds.entries@,
                out@ == mid + builds_text(self.builds@.take(j as int)),
            decreases self.builds@.len() - j,
        {
            self.builds.entries[j].1.write(&mut out);
            assert(self.builds@.take(j + 1).drop_last() =~= self.builds@.take(j as int));
            j = j + 1;
        }
        assert(self.builds@.take(self.builds@.len() as int) =~= self.builds@);
        out
    }
}

/*
 * Unique names
 */

/// Candidate `k` for a requested name: the name itself, then the name with
/// 1, 2, ... appended.
pub open spec fn candidate(name: Seq<char>, k: nat) -> Seq<char> {
    if k == 0 {
        name
    } else {
        name + decimal(k)
    }
}

/// `res` is the first candidate for `name` that `names` does not hold.
pub open spec fn first_free(names: Seq<Seq<char>>, name: Seq<char>, res: Seq<char>) -> bool {
    exists|k: nat|
        res == candidate(name, k) && !names.contains(res) && forall|j: nat|
            j < k ==> names.contains(#[trigger] candidate(name, j))
}

proof fn lemma_candidate_injective(name: Seq<char>, a: nat, b: nat)
    requires
        candidate(name, a) == candidate(name, b),
    ensures
        a == b,
{
    if a == 0 && b != 0 {
        lemma_decimal_nonempty(b);
        assert(candidate(name, b).len() > name.len());
    } else if a != 0 && b == 0 {
        lemma_decimal_nonempty(a);
        assert(candidate(name, a).len() > name.len());
    } else if a != 0 && b != 0 {
        assert(candidate(name, a).skip(name.len() as int) =~= decimal(a));
        assert(candidate(name, b).skip(name.len() as int) =~= decimal(b));
        lemma_decimal_injective(a, b);
    }
}

/// `n + 1` distinct candidates cannot all be among `n` names.
proof fn lemma_some_candidate_free(names: Seq<Seq<char>>, name: Seq<char>)
    ensures
        exists|j: nat| j <= names.len() && !names.contains(#[trigger] candidate(name, j)),
{
    if forall|j: nat| j <= names.len() ==> names.contains(#[trigger] candidate(name, j)) {
        let cands = Seq::new((names.len() + 1) as nat, |j: int| candidate(name, j as nat));
        assert(cands.no_duplicates()) by {
            assert forall|i: int, j: int| 0 <= i < cands.len() && 0 <= j < cands.len() && i != j
                implies cands[i] != cands[j] by {
                if cands[i] == cands[j] {
                    lemma_candidate_injective(name, i as nat, j as nat);
                }
            }
        }
        cands.unique_seq_to_set();
        names.lemma_cardinality_of_set();
        assert(cands.to_set().subset_of(names.to_set())) by {
            assert forall|x: Seq<char>| cands.to_set().contains(x) implies names.to_set().contains(
                x,
            ) by {
                let i = choose|i: int| 0 <= i < cands.len() && cands[i] == x;
                assert(names.contains(candidate(name, i as nat)));
            }
        }
        vstd::set_lib::lemma_len_subset(cands.to_set(), names.to_set());
    }
}

fn candidate_string(name: &str, k: usize) -> (res: String)
    ensures
        res@ == candidate(name@, k as nat),
{
    let mut s = to_owned_string(name);
    if k > 0 {
        let d = decimal_chars(k as u64);
        push_chars(&mut s, &d);
    }
    s
}

impl UniqueNames {
    spec fn view(&self) -> Seq<Seq<char>> {
        strings_view(self.names@)
    }

    fn new() -> (res: UniqueNames)
        ensures
            res.view() == Seq::<Seq<char>>::empty(),
    {
        let res = UniqueNames { names: Vec::new() };
        assert(res.view() =~= Seq::<Seq<char>>::empty());
        res
    }

    fn contains(&self, s: &str) -> (res: bool)
        ensures
            res == self.view().contains(s@),
    {
        let mut i: usize = 0;
        while i < self.names.len()
            invariant
                i <= self.names@.len(),
                forall|j: int| 0 <= j < i ==> self.names@[j]@ != s@,
            decreases self.names.len() - i,
        {
            if str_eq(self.names[i].as_str(), s) {
                assert(self.view()[i as int] == s@);
                return true;
            }
            i = i + 1;
        }
        assert(!self.view().contains(s@)) by {
            if self.view().contains(s@) {
                let j = choose|j: int| 0 <= j < self.view().len() && self.view()[j] == s@;
                assert(self.names@[j]@ == s@);
            }
        }
        false
    }

    /// The first of `name`, `name1`, `name2`, ... not handed out before;
    /// it is handed out now.
    fn get(&mut self, name: &str) -> (res: String)
        requires
            old(self).view().no_duplicates(),
        ensures
            first_free(old(self).view(), name@, res@),
            final(self).view() == old(self).view().push(res@),
            final(self).view().no_duplicates(),
    {
        let mut k: usize = 0;
        loop
            invariant
                k <= self.names@.len(),
                self.view() == old(self).view(),
                self.view().no_duplicates(),
                forall|j: nat| j < k ==> self.view().contains(#[trigger] candidate(name@, j)),
            ensures
                k == self.names@.len(),
                self.view() == old(self).view(),
                forall|j: nat| j <= k ==> self.view().contains(#[trigger] candidate(name@, j)),
            decreases self.names.len() - k,
        {
            let c = candidate_string(name, k);
            if !self.contains(c.as_str()) {
                let r = to_owned_string(c.as_str());
                let ghost before = self.names@;
                self.names.push(c);
                proof {
                    lemma_strings_view_push(before, r);
                    assert(first_free(old(self).view(), name@, r@));
                    assert(self.view().no_duplicates()) by {
                        assert forall|i: int, j: int| 0 <= i < self.view().len() && 0 <= j
                            < self.view().len() && i != j implies self.view()[i] != self.view()[j] by {
                            if i == self.view().len() - 1 {
                                assert(self.view()[j] == old(self).view()[j]);
                                assert(old(self).view().contains(self.view()[j]));
                            } else if j == self.view().len() - 1 {
                                assert(self.view()[i] == old(self).view()[i]);
                                assert(old(self).view().contains(self.view()[i]));
                            } else {
                                assert(self.view()[i] == old(self).view()[i]);
                                assert(self.view()[j] == old(self).view()[j]);
                            }
                        }
                    }
                }
                return r;
            }
            if k == self.names.len() {
                break;
            }
            k = k + 1;
        }
        proof {
            lemma_some_candidate_free(self.view(), name@);
            let j = choose|j: nat| j <= self.view().len() && !self.view().contains(
                #[trigger] candidate(name@, j),
            );
            assert(self.view().contains(candidate(name@, j)));
        }
        to_owned_string(name)
    }
}

/*
 * Keyed entries
 */

/// Keys in strictly ascending order.
pub open spec fn ids_sorted<T>(s: Seq<(usize, T)>) -> bool {
    forall|i: int, j: int| 0 <= i < j < s.len() ==> #[trigger] s[i].0 < #[trigger] s[j].0
}

/// `s` with `id` mapped to `v`: replacing the entry for `id`, or inserting
/// one at its place in key order.
pub open spec fn id_put<T>(s: Seq<(usize, T)>, id: usize, v: T) -> Seq<(usize, T)>
    decreases s.len(),
{
    if s.len() == 0 {
        seq![(id, v)]
    } else if s[0].0 == id {
        seq![(id, v)] + s.drop_first()
    } else if s[0].0 > id {
        seq![(id, v)] + s
    } else {
        seq![s[0]] + id_put(s.drop_first(), id, v)
    }
}

/// `s` has an entry for `id`.
pub open spec fn has_id<T>(s: Seq<(usize, T)>, id: usize) -> bool {
    exists|i: int| 0 <= i < s.len() && #[trigger] s[i].0 == id
}

/// The entry `(k, v)` is in `s`.
pub open spec fn has_pair<T>(s: Seq<(usize, T)>, k: usize, v: T) -> bool {
    exists|i: int| 0 <= i < s.len() && s[i] == (k, v)
}

/// Every entry of `old` is still in `new`, with its value.
pub open spec fn keeps_entries<T>(old: Seq<(usize, T)>, new: Seq<(usize, T)>) -> bool {
    forall|k: usize, v: T| #[trigger] has_pair(old, k, v) ==> has_pair(new, k, v)
}

/// Putting a key keeps every entry under another key.
pub proof fn lemma_id_put_keeps<T>(s: Seq<(usize, T)>, id: usize, v: T)
    ensures
        forall|k: usize, w: T| #[trigger] has_pair(s, k, w) && k != id ==> has_pair(id_put(s, id, v), k, w),
    decreases s.len(),
{
    let r = id_put(s, id, v);
    if s.len() > 0 {
        if s[0].0 == id {
            assert forall|k: usize, w: T| #[trigger] has_pair(s, k, w) && k != id implies has_pair(r, k, w) by {
                let i = choose|i: int| 0 <= i < s.len() && s[i] == (k, w);
                assert(i != 0);
                assert(r[i] == s[i]);
            }
        } else if s[0].0 > id {
            assert forall|k: usize, w: T| #[trigger] has_pair(s, k, w) && k != id implies has_pair(r, k, w) by {
                let i = choose|i: int| 0 <= i < s.len() && s[i] == (k, w);
                assert(r[i + 1] == s[i]);
            }
        } else {
            let t = s.drop_first();
            lemma_id_put_keeps(t, id, v);
            assert forall|k: usize, w: T| #[trigger] has_pair(s, k, w) && k != id implies has_pair(r, k, w) by {
                let i = choose|i: int| 0 <= i < s.len() && s[i] == (k, w);
                if i == 0 {
                    assert(r[0] == s[0]);
                } else {
                    assert(t[i - 1] == s[i]);
                    assert(has_pair(t, k, w));
                    let j = choose|j: int| 0 <= j < id_put(t, id, v).len() && id_put(t, id, v)[j] == (k, w);
                    assert(r[j + 1] == id_put(t, id, v)[j]);
                }
            }
        }
    }
}

/// Keeping entries twice keeps them.
pub proof fn lemma_keeps_trans<T>(a: Seq<(usize, T)>, b: Seq<(usize, T)>, c: Seq<(usize, T)>)
    requires
        keeps_entries(a, b),
        keeps_entries(b, c),
    ensures
        keeps_entries(a, c),
{
    assert forall|k: usize, v: T| #[trigger] has_pair(a, k, v) implies has_pair(c, k, v) by {
        assert(has_pair(b, k, v));
    }
}

/// What is put under a key is found under it.
pub proof fn lemma_id_put_has<T>(s: Seq<(usize, T)>, id: usize, v: T)
    ensures
        exists|i: int| 0 <= i < id_put(s, id, v).len() && #[trigger] id_put(s, id, v)[i] == (id, v),
    decreases s.len(),
{
    let r = id_put(s, id, v);
    if s.len() == 0 || s[0].0 == id || s[0].0 > id {
        assert(r[0] == (id, v));
    } else {
        lemma_id_put_has(s.drop_first(), id, v);
        let t = id_put(s.drop_first(), id, v);
        let i = choose|i: int| 0 <= i < t.len() && #[trigger] t[i] == (id, v);
        assert(r == seq![s[0]] + t);
        assert(r[i + 1] == (id, v));
    }
}

/// After `id_put`, the keys are those before and `id`.
pub proof fn lemma_id_put_keys<T>(s: Seq<(usize, T)>, id: usize, v: T, k: usize)
    ensures
        has_id(id_put(s, id, v), k) <==> (k == id || has_id(s, k)),
    decreases s.len(),
{
    let r = id_put(s, id, v);
    if s.len() == 0 {
        assert(r[0].0 == id);
    } else if s[0].0 == id {
        assert(r[0].0 == id);
        if has_id(s, k) {
            let i = choose|i: int| 0 <= i < s.len() && #[trigger] s[i].0 == k;
            if i > 0 {
                assert(r[i].0 == k);
            }
        }
        if has_id(r, k) && k != id {
            let i = choose|i: int| 0 <= i < r.len() && #[trigger] r[i].0 == k;
            assert(s[i].0 == k);
        }
    } else if s[0].0 > id {
        assert(r[0].0 == id);
        if has_id(s, k) {
            let i = choose|i: int| 0 <= i < s.len() && #[trigger] s[i].0 == k;
            assert(r[i + 1].0 == k);
        }
        if has_id(r, k) && k != id {
            let i = choose|i: int| 0 <= i < r.len() && #[trigger] r[i].0 == k;
            assert(s[i - 1].0 == k);
        }
    } else {
        let t = s.drop_first();
        lemma_id_put_keys(t, id, v, k);
        let rt = id_put(t, id, v);
        assert(r == seq![s[0]] + rt);
        if k == id || has_id(s, k) {
            if k == s[0].0 {
                assert(r[0].0 == k);
            } else {
                if has_id(s, k) {
                    let i = choose|i: int| 0 <= i < s.len() && #[trigger] s[i].0 == k;
                    assert(t[i - 1].0 == k);
                }
                let i = choose|i: int| 0 <= i < rt.len() && #[trigger] rt[i].0 == k;
                assert(r[i + 1].0 == k);
            }
        }
        if has_id(r, k) {
            let i = choose|i: int| 0 <= i < r.len() && #[trigger] r[i].0 == k;
            if i == 0 {
                assert(s[0].0 == k);
            } else {
                assert(rt[i - 1].0 == k);
                if k != id {
                    let j = choose|j: int| 0 <= j < t.len() && #[trigger] t[j].0 == k;
                    assert(s[j + 1].0 == k);
                }
            }
        }
    }
}

proof fn lemma_id_put_at<T>(s: Seq<(usize, T)>, id: usize, v: T, p: int)
    requires
        ids_sorted(s),
        0 <= p <= s.len(),
        forall|j: int| 0 <= j < p ==> #[trigger] s[j].0 < id,
        p < s.len() ==> id <= s[p].0,
    ensures
        p < s.len() && s[p].0 == id ==> id_put(s, id, v) == s.update(p, (id, v)),
        !(p < s.len() && s[p].0 == id) ==> id_put(s, id, v) == s.insert(p, (id, v)),
        ids_sorted(id_put(s, id, v)),
    decreases s.len(),
{
    if s.len() == 0 {
        assert(s.insert(p, (id, v)) =~= seq![(id, v)]);
    } else if p == 0 {
        if s[0].0 == id {
            assert(id_put(s, id, v) =~= s.update(0, (id, v)));
        } else {
            assert(id_put(s, id, v) =~= s.insert(0, (id, v)));
        }
    } else {
        let t = s.drop_first();
        assert forall|j: int| 0 <= j < p - 1 implies #[trigger] t[j].0 < id by {
            assert(t[j] == s[j + 1]);
        }
        lemma_id_put_at(t, id, v, p - 1);
        if p < s.len() && s[p].0 == id {
            assert(id_put(s, id, v) =~= s.update(p, (id, v)));
        } else {
            assert(id_put(s, id, v) =~= s.insert(p, (id, v)));
        }
    }
    let r = id_put(s, id, v);
    if p < s.len() && s[p].0 == id {
        assert(r == s.update(p, (id, v)));
        assert forall|i: int, j: int| 0 <= i < j < r.len() implies #[trigger] r[i].0
            < #[trigger] r[j].0 by {
            assert(s[i].0 < s[j].0);
        }
    } else {
        assert(r == s.insert(p, (id, v)));
        assert forall|i: int, j: int| 0 <= i < j < r.len() implies #[trigger] r[i].0
            < #[trigger] r[j].0 by {
            if j < p {
                assert(s[i].0 < s[j].0);
            } else if j == p {
                assert(s[i].0 < id);
            } else if i < p {
                assert(s[i].0 < id);
                assert(id <= s[p].0);
                if j - 1 > p {
                    assert(s[p].0 < s[j - 1].0);
                }
            } else if i == p {
                if j - 1 > p {
                    assert(s[p].0 < s[j - 1].0);
                }
            } else {
                assert(s[i - 1].0 < s[j - 1].0);
            }
        }
    }
}

impl<T> IdMap<T> {
    fn new() -> (res: IdMap<T>)
        ensures
            res@ == Seq::<(usize, T)>::empty(),
    {
        IdMap { entries: Vec::new() }
    }

    fn position(&self, id: usize) -> (res: usize)
        requires
            ids_sorted(self@),
        ensures
            res <= self@.len(),
            forall|j: int| 0 <= j < res ==> #[trigger] self@[j].0 < id,
            res < self@.len() ==> id <= self@[res as int].0,
    {
        let mut i: usize = 0;
        while i < self.entries.len() && self.entries[i].0 < id
            invariant
                i <= self@.len(),
                self@ == self.entries@,
                forall|j: int| 0 <= j < i ==> #[trigger] self@[j].0 < id,
            decreases self.entries.len() - i,
        {
            i = i + 1;
        }
        i
    }

    /// Whether there is an entry for `id`.
    fn contains(&self, id: usize) -> (res: bool)
        requires
            ids_sorted(self@),
        ensures
            res == has_id(self@, id),
    {
        let p = self.position(id);
        let r = p < self.entries.len() && self.entries[p].0 == id;
        proof {
            if !r && has_id(self@, id) {
                let i = choose|i: int| 0 <= i < self@.len() && #[trigger] self@[i].0 == id;
                if i > p {
                    assert(self@[p as int].0 < self@[i].0);
                }
            }
        }
        r
    }

    /// Maps `id` to `v`; returns the position of the entry.
    fn put(&mut self, id: usize, v: T) -> (p: usize)
        requires
            ids_sorted(old(self)@),
        ensures
            final(self)@ == id_put(old(self)@, id, v),
            ids_sorted(final(self)@),
            p < final(self)@.len(),
            final(self)@[p as int] == (id, v),
            p <= old(self)@.len(),
            forall|j: int| 0 <= j < p ==> #[trigger] old(self)@[j].0 < id,
            p < old(self)@.len() ==> id <= old(self)@[p as int].0,
    {
        let p = self.position(id);
        proof { lemma_id_put_at(self@, id, v, p as int); }
        if p < self.entries.len() && self.entries[p].0 == id {
            self.entries.set(p, (id, v));
        } else {
            self.entries.insert(p, (id, v));
        }
        p
    }
}

impl NinjaFile {
    /// Keys of rules and builds ascend, and no rule name was handed out twice.
    pub closed spec fn wf(&self) -> bool {
        &&& ids_sorted(self.rules@)
        &&& ids_sorted(self.builds@)
        &&& self.rule_names.view().no_duplicates()
    }

    /// The rule names handed out so far.
    pub closed spec fn names(&self) -> Seq<Seq<char>> {
        self.rule_names.view()
    }

    /// An empty file.
    pub fn new() -> (res: NinjaFile)
        ensures
            res.wf(),
            res.rule_entries() == Seq::<(usize, NinjaRule)>::empty(),
            res.build_entries() == Seq::<(usize, NinjaBuild)>::empty(),
            res.names() == Seq::<Seq<char>>::empty(),
    {
        NinjaFile { rule_names: UniqueNames::new(), rules: IdMap::new(), builds: IdMap::new() }
    }

    /// Adds an empty rule under key `id`, named by the first of `name`,
    /// `name1`, `name2`, ... not used by an earlier rule, and returns it for
    /// filling in.
    pub fn rule(&mut self, id: usize, name: &str) -> (r: &mut NinjaRule)
        requires
            old(self).wf(),
        ensures
            final(self).wf(),
            first_free(old(self).names(), name@, r.name@),
            r.vars@.len() == 0,
            final(self).names() == old(self).names().push(r.name@),
            final(self).rule_entries() == id_put(old(self).rule_entries(), id, *final(r)),
            final(self).build_entries() == old(self).build_entries(),
    {
        let unique_name = self.rule_names.get(name);
        let ghost old_rules = self.rules@;
        let new_rule = NinjaRule::new(unique_name.as_str());
        let ghost nr = new_rule;
        let p = self.rules.put(id, new_rule);
        proof {
            assert forall|w: NinjaRule| #[trigger] id_put(old_rules, id, w) == id_put(
                old_rules,
                id,
                nr,
            ).update(p as int, (id, w)) by {
                lemma_id_put_at(old_rules, id, w, p as int);
                lemma_id_put_at(old_rules, id, nr, p as int);
                if p < old_rules.len() && old_rules[p as int].0 == id {
                    assert(old_rules.update(p as int, (id, w)) =~= old_rules.update(
                        p as int,
                        (id, nr),
                    ).update(p as int, (id, w)));
                } else {
                    assert(old_rules.insert(p as int, (id, w)) =~= old_rules.insert(
                        p as int,
                        (id, nr),
                    ).update(p as int, (id, w)));
                }
            }
        }
        &mut self.rules.entries[p].1
    }
}

/*
 * Builds
 */

impl NinjaBuild {
    /// An empty build statement using the rule `rule`.
    pub fn new(rule: &NinjaRuleRef) -> (res: NinjaBuild)
        ensures
            res.rule@ == rule.0@,
            res.outputs@.len() == 0,
            res.inputs@.len() == 0,
            res.deps@.len() == 0,
            res.vars@.len() == 0,
            !res.is_default,
    {
        NinjaBuild {
            rule: rule.0.clone(),
            outputs: Vec::new(),
            inputs: Vec::new(),
            deps: Vec::new(),
            vars: Vec::new(),
            is_default: false,
        }
    }

    /// Adds an output.
    pub fn output(&mut self, name: NinjaArg) -> (r: &mut Self)
        ensures
            *r == (NinjaBuild { outputs: r.outputs, ..*old(self) }),
            r.outputs@ == old(self).outputs@.push(name),
            *final(self) == *final(r),
    {
        self.outputs.push(name);
        self
    }

    /// Adds an input.
    pub fn input(&mut self, name: NinjaArg) -> (r: &mut Self)
        ensures
            *r == (NinjaBuild { inputs: r.inputs, ..*old(self) }),
            r.inputs@ == old(self).inputs@.push(name),
            *final(self) == *final(r),
    {
        self.inputs.push(name);
        self
    }

    /// Adds an order dependency.
    pub fn dep(&mut self, name: NinjaArg) -> (r: &mut Self)
        ensures
            *r == (NinjaBuild { deps: r.deps, ..*old(self) }),
            r.deps@ == old(self).deps@.push(name),
            *final(self) == *final(r),
    {
        self.deps.push(name);
        self
    }

    /// Adds a variable assignment.
    pub fn var(&mut self, name: &str, args: Vec<NinjaArg>) -> (r: &mut Self)
        ensures
            *r == (NinjaBuild { vars: r.vars, ..*old(self) }),
            r.vars@.len() == old(self).vars@.len() + 1,
            r.vars@.drop_last() == old(self).vars@,
            r.vars@.last().name@ == name@,
            r.vars@.last().args == args,
            *final(self) == *final(r),
    {
        self.vars.push(NinjaVar { name: to_owned_string(name), args });
        assert(self.vars@.drop_last() =~= old(self).vars@);
        self
    }

    /// Marks the build as a default target.
    pub fn set_default(&mut self) -> (r: &mut Self)
        ensures
            *r == (NinjaBuild { is_default: true, ..*old(self) }),
            *final(self) == *final(r),
    {
        self.is_default = true;
        self
    }
}

/*
 * File operations and validation
 */

/// Debug-style quoting of a string.
pub open spec fn quoted(s: Seq<char>) -> Seq<char> {
    seq!['"'] + quote_body(s) + seq!['"']
}

/// The escaped characters inside debug-style quotes.
pub open spec fn quote_body(s: Seq<char>) -> Seq<char>
    decreases s.len(),
{
    if s.len() == 0 {
        seq![]
    } else {
        quote_body(s.drop_last()) + quote_char(s.last())
    }
}

/// One character inside debug-style quotes.
pub open spec fn quote_char(c: char) -> Seq<char> {
    if c == '"' {
        seq!['\\', '"']
    } else if c == '\\' {
        seq!['\\', '\\']
    } else if c == '\n' {
        seq!['\\', 'n']
    } else if c == '\r' {
        seq!['\\', 'r']
    } else if c == '\t' {
        seq!['\\', 't']
    } else {
        seq![c]
    }
}

/// The text of an argument in the validation message for a non-path output.
pub open spec fn arg_debug(a: NinjaArg) -> Seq<char>
    decreases a,
{
    match a {
        NinjaArg::Const(c) => seq!['C', 'o', 'n', 's', 't', '('] + quoted(c@) + seq![')'],
        NinjaArg::Var(c) => seq!['V', 'a', 'r', '('] + quoted(c@) + seq![')'],
        NinjaArg::Path(p) => seq!['P', 'a', 't', 'h', '('] + quoted(path_text(p@)) + seq![')'],
        NinjaArg::Concat(v) => seq!['C', 'o', 'n', 'c', 'a', 't', '(', '['] + debug_list(v@)
            + seq![']', ')'],
    }
}

/// The texts of arguments, separated by `, `.
pub open spec fn debug_list(v: Seq<NinjaArg>) -> Seq<char>
    decreases v,
{
    if v.len() == 0 {
        seq![]
    } else if v.len() == 1 {
        arg_debug(v[0])
    } else {
        debug_list(v.drop_last()) + seq![',', ' '] + arg_debug(v.last())
    }
}

/// All outputs of the builds, in key order.
pub open spec fn all_outputs(v: Seq<(usize, NinjaBuild)>) -> Seq<NinjaArg>
    decreases v.len(),
{
    if v.len() == 0 {
        seq![]
    } else {
        all_outputs(v.drop_last()) + v.last().1.outputs@
    }
}

/// The message for an output produced by more than one build.
pub open spec fn dup_message(p: Seq<char>) -> Seq<char> {
    "Multiple builds generating: "@ + p
}

/// The message for an output that is not a file.
pub open spec fn non_path_message(a: NinjaArg) -> Seq<char> {
    "Non-path build output: "@ + arg_debug(a)
}

/// The problems of a list of outputs: a file that two of them name, or an
/// output that is not a file.
pub open spec fn output_problem(outs: Seq<NinjaArg>, msg: Seq<char>) -> bool {
    ||| exists|i: int, j: int|
        0 <= i < j < outs.len() && #[trigger] outs[i] is Path && #[trigger] outs[j] is Path
            && path_text(outs[i]->Path_0@) == path_text(outs[j]->Path_0@) && msg == dup_message(
            path_text(outs[j]->Path_0@),
        )
    ||| exists|i: int| 0 <= i < outs.len() && !(#[trigger] outs[i] is Path) && msg == non_path_message(outs[i])
}

/// The arguments behind references.
pub open spec fn deref_all(s: Seq<&NinjaArg>) -> Seq<NinjaArg> {
    s.map_values(|x: &NinjaArg| *x)
}

proof fn lemma_push_deref(before: Seq<&NinjaArg>, x: &NinjaArg)
    ensures
        deref_all(before.push(x)) == deref_all(before).push(*x),
{
    assert(deref_all(before.push(x)) =~= deref_all(before).push(*x));
}

/// The problems after one more output.
proof fn lemma_problem_step(outs: Seq<NinjaArg>, k: int)
    requires
        0 <= k < outs.len(),
    ensures
        forall|m: Seq<char>| #[trigger] output_problem(outs.take(k + 1), m) <==> (output_problem(outs.take(k), m)
            || (outs[k] is Path && (exists|i: int| 0 <= i < k && #[trigger] outs[i] is Path && path_text(outs[i]->Path_0@) == path_text(outs[k]->Path_0@))
                && m == dup_message(path_text(outs[k]->Path_0@)))
            || (!(outs[k] is Path) && m == non_path_message(outs[k]))),
{
    let a = outs.take(k + 1);
    let b = outs.take(k);
    assert forall|m: Seq<char>| output_problem(a, m) <==> (output_problem(b, m)
            || (outs[k] is Path && (exists|i: int| 0 <= i < k && #[trigger] outs[i] is Path && path_text(outs[i]->Path_0@) == path_text(outs[k]->Path_0@))
                && m == dup_message(path_text(outs[k]->Path_0@)))
            || (!(outs[k] is Path) && m == non_path_message(outs[k]))) by {
        if exists|i: int, j: int|
            0 <= i < j < a.len() && #[trigger] a[i] is Path && #[trigger] a[j] is Path
                && path_text(a[i]->Path_0@) == path_text(a[j]->Path_0@) && m == dup_message(path_text(a[j]->Path_0@)) {
            let (i, j) = choose|i: int, j: int|
                0 <= i < j < a.len() && #[trigger] a[i] is Path && #[trigger] a[j] is Path
                    && path_text(a[i]->Path_0@) == path_text(a[j]->Path_0@) && m == dup_message(path_text(a[j]->Path_0@));
            if j < k {
                assert(b[i] == a[i] && b[j] == a[j]);
            } else {
                assert(outs[i] is Path);
            }
        }
        if exists|i: int| 0 <= i < a.len() && !(#[trigger] a[i] is Path) && m == non_path_message(a[i]) {
            let i = choose|i: int| 0 <= i < a.len() && !(#[trigger] a[i] is Path) && m == non_path_message(a[i]);
            if i < k {
                assert(b[i] == a[i]);
            }
        }
        if exists|i: int, j: int|
            0 <= i < j < b.len() && #[trigger] b[i] is Path && #[trigger] b[j] is Path
                && path_text(b[i]->Path_0@) == path_text(b[j]->Path_0@) && m == dup_message(path_text(b[j]->Path_0@)) {
            let (i, j) = choose|i: int, j: int|
                0 <= i < j < b.len() && #[trigger] b[i] is Path && #[trigger] b[j] is Path
                    && path_text(b[i]->Path_0@) == path_text(b[j]->Path_0@) && m == dup_message(path_text(b[j]->Path_0@));
            assert(a[i] == b[i] && a[j] == b[j]);
        }
        if exists|i: int| 0 <= i < b.len() && !(#[trigger] b[i] is Path) && m == non_path_message(b[i]) {
            let i = choose|i: int| 0 <= i < b.len() && !(#[trigger] b[i] is Path) && m == non_path_message(b[i]);
            assert(a[i] == b[i]);
        }
        if outs[k] is Path && (exists|i: int| 0 <= i < k && #[trigger] outs[i] is Path && path_text(outs[i]->Path_0@) == path_text(outs[k]->Path_0@))
                && m == dup_message(path_text(outs[k]->Path_0@)) {
            let i = choose|i: int| 0 <= i < k && #[trigger] outs[i] is Path && path_text(outs[i]->Path_0@) == path_text(outs[k]->Path_0@);
            assert(a[i] == outs[i] && a[k] == outs[k]);
        }
        if !(outs[k] is Path) && m == non_path_message(outs[k]) {
            assert(a[k] == outs[k]);
        }
    }
}

/// Whether `v` holds a string equal to `s`.
fn contains_string(v: &Vec<String>, s: &str) -> (res: bool)
    ensures
        res == strings_view(v@).contains(s@),
{
    let mut i: usize = 0;
    while i < v.len()
        invariant
            i <= v@.len(),
            forall|j: int| 0 <= j < i ==> v@[j]@ != s@,
        decreases v.len() - i,
    {
        if str_eq(v[i].as_str(), s) {
            assert(strings_view(v@)[i as int] == s@);
            return true;
        }
        i = i + 1;
    }
    assert(!strings_view(v@).contains(s@)) by {
        if strings_view(v@).contains(s@) {
            let j = choose|j: int| 0 <= j < strings_view(v@).len() && strings_view(v@)[j] == s@;
            assert(v@[j]@ == s@);
        }
    }
    false
}

fn write_quoted(out: &mut String, s: &str)
    ensures
        final(out)@ == old(out)@ + quoted(s@),
{
    let v = chars_of(s);
    push_char(out, '"');
    let ghost start = out@;
    let mut i: usize = 0;
    assert(v@.take(0) =~= Seq::<char>::empty());
    while i < v.len()
        invariant
            i <= v@.len(),
            v@ == s@,
            out@ == start + quote_body(v@.take(i as int)),
        decreases v.len() - i,
    {
        let c = v[i];
        let ghost before = out@;
        if c == '"' {
            push_char(out, '\\');
            push_char(out, '"');
        } else if c == '\\' {
            push_char(out, '\\');
            push_char(out, '\\');
        } else if c == '\n' {
            push_char(out, '\\');
            push_char(out, 'n');
        } else if c == '\r' {
            push_char(out, '\\');
            push_char(out, 'r');
        } else if c == '\t' {
            push_char(out, '\\');
            push_char(out, 't');
        } else {
            push_char(out, c);
        }
        assert(v@.take(i + 1).drop_last() =~= v@.take(i as int));
        assert(out@ =~= before + quote_char(c));
        i = i + 1;
    }
    assert(v@.take(v.len() as int) =~= v@);
    push_char(out, '"');
    assert(out@ =~= old(out)@ + quoted(s@));
}

impl NinjaArg {
    /// The text of the argument in validation messages.
    fn debug_into(&self, out: &mut String)
        ensures
            final(out)@ == old(out)@ + arg_debug(*self),
        decreases self,
    {
        let ghost start = out@;
        match self {
            NinjaArg::Const(c) => {
                push_str(out, "Const(");
                write_quoted(out, c.as_str());
                push_char(out, ')');
                proof { reveal_strlit("Const("); }
            },
            NinjaArg::Var(c) => {
                push_str(out, "Var(");
                write_quoted(out, c.as_str());
                push_char(out, ')');
                proof { reveal_strlit("Var("); }
            },
            NinjaArg::Path(p) => {
                push_str(out, "Path(");
                let t = p.to_path_buf();
                write_quoted(out, t.as_str());
                push_char(out, ')');
                proof { reveal_strlit("Path("); }
            },
            NinjaArg::Concat(args) => {
                push_str(out, "Concat([");
                proof { reveal_strlit("Concat(["); }
                let ghost head = out@;
                let mut i: usize = 0;
                assert(args@.take(0) =~= Seq::<NinjaArg>::empty());
                while i < args.len()
                    invariant
                        i <= args@.len(),
                        *self == NinjaArg::Concat(*args),
                        out@ == head + debug_list(args@.take(i as int)),
                    decreases args.len() - i,
                {
                    assert(decreases_to!(*self => args@[i as int])) by {
                        assert(decreases_to!(*self => self->Concat_0));
                        assert(decreases_to!(self->Concat_0 => self->Concat_0@));
                        assert(decreases_to!(args@ => args@[i as int]));
                    }
                    if i > 0 {
                        push_char(out, ',');
                        push_char(out, ' ');
                    }
                    args[i].debug_into(out);
                    assert(args@.take(i + 1).drop_last() =~= args@.take(i as int));
                    i = i + 1;
                }
                assert(args@.take(args.len() as int) =~= args@);
                push_char(out, ']');
                push_char(out, ')');
            },
        }
        assert(out@ =~= start + arg_debug(*self));
    }
}

impl NinjaFile {
    /// Adds an empty build statement under key `id` using `rule`, and
    /// returns it for filling in.
    pub fn build(&mut self, id: usize, rule: &NinjaRuleRef) -> (r: &mut NinjaBuild)
        requires
            old(self).wf(),
        ensures
            final(self).wf(),
            r.rule@ == rule.0@,
            r.outputs@.len() == 0 && r.inputs@.len() == 0 && r.deps@.len() == 0,
            r.vars@.len() == 0 && !r.is_default,
            final(self).names() == old(self).names(),
            final(self).rule_entries() == old(self).rule_entries(),
            final(self).build_entries() == id_put(old(self).build_entries(), id, *final(r)),
    {
        let ghost old_builds = self.builds@;
        let new_build = NinjaBuild::new(rule);
        let ghost nb = new_build;
        let p = self.builds.put(id, new_build);
        proof {
            assert forall|w: NinjaBuild| #[trigger] id_put(old_builds, id, w) == id_put(
                old_builds,
                id,
                nb,
            ).update(p as int, (id, w)) by {
                lemma_id_put_at(old_builds, id, w, p as int);
                lemma_id_put_at(old_builds, id, nb, p as int);
                if p < old_builds.len() && old_builds[p as int].0 == id {
                    assert(old_builds.update(p as int, (id, w)) =~= old_builds.update(
                        p as int,
                        (id, nb),
                    ).update(p as int, (id, w)));
                } else {
                    assert(old_builds.insert(p as int, (id, w)) =~= old_builds.insert(
                        p as int,
                        (id, nb),
                    ).update(p as int, (id, w)));
                }
            }
        }
        &mut self.builds.entries[p].1
    }

    /// The name by which builds refer to the rule under key `id`, if any.
    pub fn get_rule_ref(&self, id: usize) -> (res: Option<NinjaRuleRef>)
        requires
            self.wf(),
        ensures
            res is Some <==> has_id(self.rule_entries(), id),
            res matches Some(r) ==> exists|i: int|
                0 <= i < self.rule_entries().len() && #[trigger] self.rule_entries()[i].0 == id
                    && self.rule_entries()[i].1.name@ == r.0@,
    {
        let p = self.rules.position(id);
        if p < self.rules.entries.len() && self.rules.entries[p].0 == id {
            Some(self.rules.entries[p].1.as_ref())
        } else {
            proof {
                if has_id(self.rules@, id) {
                    let i = choose|i: int| 0 <= i < self.rules@.len() && #[trigger] self.rules@[i].0 == id;
                    if i > p {
                        assert(self.rules@[p as int].0 < self.rules@[i].0);
                    }
                }
            }
            None
        }
    }

    /// Adds a rule under key `id` with the variables `vars`, named by the
    /// first free name as `rule` names it; returns the reference to it.
    pub fn rule_with_vars(&mut self, id: usize, name: &str, vars: Vec<NinjaVar>) -> (res: NinjaRuleRef)
        requires
            old(self).wf(),
        ensures
            final(self).wf(),
            first_free(old(self).names(), name@, res.0@),
            final(self).names() == old(self).names().push(res.0@),
            forall|k: usize| has_id(final(self).rule_entries(), k) <==> (k == id || has_id(old(self).rule_entries(), k)),
            final(self).build_entries() == old(self).build_entries(),
            exists|r: NinjaRule| #[trigger] id_put(old(self).rule_entries(), id, r) == final(self).rule_entries()
                && r.name@ == res.0@ && r.vars@ == vars@,
    {
        let r = self.rule(id, name);
        r.vars = vars;
        let res = r.as_ref();
        proof {
            assert forall|k: usize| has_id(final(self).rule_entries(), k) <==> (k == id || has_id(old(self).rule_entries(), k)) by {
                lemma_id_put_keys(old(self).rule_entries(), id, *final(r), k);
            }
        }
        res
    }

    /// Adds the build statement `b` under key `id`.
    pub fn put_build(&mut self, id: usize, b: NinjaBuild)
        requires
            old(self).wf(),
        ensures
            final(self).wf(),
            final(self).names() == old(self).names(),
            final(self).rule_entries() == old(self).rule_entries(),
            final(self).build_entries() == id_put(old(self).build_entries(), id, b),
            forall|k: usize| has_id(final(self).build_entries(), k) <==> (k == id || has_id(old(self).build_entries(), k)),
    {
        let rr = NinjaRuleRef(b.rule.clone());
        let r = self.build(id, &rr);
        *r = b;
        proof {
            assert forall|k: usize| has_id(final(self).build_entries(), k) <==> (k == id || has_id(old(self).build_entries(), k)) by {
                lemma_id_put_keys(old(self).build_entries(), id, b, k);
            }
        }
    }

    /// Whether there is a build statement under key `id`.
    pub fn has_build(&self, id: usize) -> (res: bool)
        requires
            self.wf(),
        ensures
            res == has_id(self.build_entries(), id),
    {
        self.builds.contains(id)
    }

    /// The problems that keep the file from being a valid build: a file that
    /// two outputs name, or an output that is not a file. Each message once,
    /// in ascending order.
    pub fn validate(&self) -> (res: Vec<String>)
        ensures
            forall|i: int, j: int| 0 <= i < j < res@.len() ==> crate::text::seq_lt(
                #[trigger] res@[i]@,
                #[trigger] res@[j]@,
            ),
            forall|m: Seq<char>| (exists|i: int| 0 <= i < res@.len() && #[trigger] res@[i]@ == m)
                <==> output_problem(all_outputs(self.build_entries()), m),
    {
        // Flatten the outputs.
        let mut outs: Vec<&NinjaArg> = Vec::new();
        let mut b: usize = 0;
        assert(self.builds@.take(0) =~= Seq::<(usize, NinjaBuild)>::empty());
        while b < self.builds.entries.len()
            invariant
                b <= self.builds@.len(),
                self.builds@ == self.builds.entries@,
                deref_all(outs@) == all_outputs(self.builds@.take(b as int)),
            decreases self.builds@.len() - b,
        {
            let build = &self.builds.entries[b].1;
            let mut o: usize = 0;
            let ghost base = deref_all(outs@);
            while o < build.outputs.len()
                invariant
                    o <= build.outputs@.len(),
                    deref_all(outs@) == base + build.outputs@.take(o as int),
                decreases build.outputs@.len() - o,
            {
                let ghost before = outs@;
                outs.push(&build.outputs[o]);
                proof {
                    lemma_push_deref(before, &build.outputs@[o as int]);
                    assert(build.outputs@.take(o + 1) =~= build.outputs@.take(o as int).push(build.outputs@[o as int]));
                    assert(deref_all(outs@) =~= base + build.outputs@.take(o + 1));
                }
                o = o + 1;
            }
            assert(build.outputs@.take(build.outputs@.len() as int) =~= build.outputs@);
            assert(self.builds@.take(b + 1).drop_last() =~= self.builds@.take(b as int));
            b = b + 1;
        }
        assert(self.builds@.take(self.builds@.len() as int) =~= self.builds@);
        let ghost all = deref_all(outs@);
        assert(all == all_outputs(self.build_entries()));
        // Collect the messages.
        let mut errors: ImMap<bool> = ImMap::new();
        let mut seen: Vec<String> = Vec::new();
        let mut k: usize = 0;
        while k < outs.len()
            invariant
                k <= all.len(),
                deref_all(outs@) == all,
                forall|q: Seq<char>| strings_view(seen@).contains(q) <==> exists|i: int|
                    0 <= i < k && #[trigger] all[i] is Path && path_text(all[i]->Path_0@) == q,
                forall|m: Seq<char>| #[trigger] crate::immap::has_key(errors@, m)
                    <==> output_problem(all.take(k as int), m),
            decreases all.len() - k,
        {
            let a = outs[k];
            assert(*a == all[k as int]);
            let ghost before_errors = errors@;
            proof { lemma_problem_step(all, k as int); }
            match a {
                NinjaArg::Path(p) => {
                    let t = p.to_path_buf();
                    let found = contains_string(&seen, t.as_str());
                    if found {
                        let mut msg = String::new();
                        push_str(&mut msg, "Multiple builds generating: ");
                        push_str(&mut msg, t.as_str());
                        proof { reveal_strlit("Multiple builds generating: "); }
                        errors.upsert(msg.as_str(), true);
                        proof {
                            assert forall|m: Seq<char>| crate::immap::has_key(errors@, m)
                                <==> output_problem(all.take(k + 1), m) by {
                                assert(crate::immap::has_key(before_errors, m) <==> output_problem(all.take(k as int), m));
                            }
                        }
                    }
                    let ghost before_seen = seen@;
                    proof { lemma_strings_view_push(seen@, t); }
                    seen.push(t);
                    proof {
                        assert forall|q: Seq<char>| strings_view(seen@).contains(q) <==> exists|i: int|
                            0 <= i < k + 1 && #[trigger] all[i] is Path && path_text(all[i]->Path_0@) == q by {
                            if strings_view(seen@).contains(q) && q != path_text(p@) {
                                let j = choose|j: int| 0 <= j < strings_view(seen@).len() && strings_view(seen@)[j] == q;
                                assert(strings_view(before_seen)[j] == q);
                                assert(strings_view(before_seen).contains(q));
                            }
                            if q == path_text(p@) {
                                assert(all[k as int] is Path);
                                assert(strings_view(seen@)[strings_view(seen@).len() - 1] == q);
                            }
                            if exists|i: int| 0 <= i < k + 1 && #[trigger] all[i] is Path && path_text(all[i]->Path_0@) == q {
                                let i = choose|i: int| 0 <= i < k + 1 && #[trigger] all[i] is Path && path_text(all[i]->Path_0@) == q;
                                if i < k {
                                    assert(strings_view(before_seen).contains(q));
                                    let j = choose|j: int| 0 <= j < strings_view(before_seen).len() && strings_view(before_seen)[j] == q;
                                    assert(strings_view(seen@)[j] == q);
                                }
                            }
                        }
                        if !found {
                            assert forall|m: Seq<char>| crate::immap::has_key(errors@, m)
                                <==> output_problem(all.take(k + 1), m) by {
                            }
                        }
                    }
                },
                _ => {
                    let mut msg = String::new();
                    push_str(&mut msg, "Non-path build output: ");
                    a.debug_into(&mut msg);
                    proof { reveal_strlit("Non-path build output: "); }
                    errors.upsert(msg.as_str(), true);
                    proof {
                        assert forall|m: Seq<char>| crate::immap::has_key(errors@, m)
                            <==> output_problem(all.take(k + 1), m) by {
                            assert(crate::immap::has_key(before_errors, m) <==> output_problem(all.take(k as int), m));
                        }
                    }
                },
            }
            k = k + 1;
        }
        assert(all.take(all.len() as int) =~= all);
        errors.sorted_fact();
        let mut res: Vec<String> = Vec::new();
        let mut r: usize = 0;
        while r < errors.len()
            invariant
                r <= errors@.len(),
                errors@ == errors@,
                res@.len() == r,
                forall|i: int| 0 <= i < r ==> #[trigger] res@[i]@ == errors@[i].0,
            decreases errors@.len() - r,
        {
            let key = errors.key_at(r);
            let kc = to_owned_string(key.as_str());
            res.push(kc);
            assert(res@[r as int]@ == errors@[r as int].0);
            r = r + 1;
        }
        proof {
            assert forall|m: Seq<char>| (exists|i: int| 0 <= i < res@.len() && #[trigger] res@[i]@ == m)
                <==> crate::immap::has_key(errors@, m) by {
                if exists|i: int| 0 <= i < res@.len() && #[trigger] res@[i]@ == m {
                    let i = choose|i: int| 0 <= i < res@.len() && #[trigger] res@[i]@ == m;
                    assert(errors@[i].0 == m);
                }
                if crate::immap::has_key(errors@, m) {
                    let i = choose|i: int| 0 <= i < errors@.len() && #[trigger] errors@[i].0 == m;
                    assert(res@[i]@ == m);
                }
            }
            assert forall|m: Seq<char>| #[trigger] crate::immap::has_key(errors@, m) <==> output_problem(all_outputs(self.build_entries()), m) by {
                assert(all.take(all.len() as int) == all);
                assert(crate::immap::has_key(errors@, m) <==> output_problem(all.take(all.len() as int), m));
            }
            assert forall|m: Seq<char>| (exists|i: int| 0 <= i < res@.len() && #[trigger] res@[i]@ == m)
                <==> output_problem(all_outputs(self.build_entries()), m) by {
                assert(crate::immap::has_key(errors@, m) <==> output_problem(all_outputs(self.build_entries()), m));
                assert((exists|i: int| 0 <= i < res@.len() && #[trigger] res@[i]@ == m)
                    <==> crate::immap::has_key(errors@, m));
            }
        }
        res
    }
}

/// No two rules of a well-formed Ninja file have the same name.
pub proof fn law_rule_names_unique(nf: NinjaFile)
    requires
        nf.wf(),
    ensures
        nf.names().no_duplicates(),
{
}

} // verus!
