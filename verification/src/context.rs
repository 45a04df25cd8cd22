//! The context in which build files are evaluated: the builtins every file
//! receives, and how a file's source becomes an expression applied to them.
use vstd::prelude::*;

use crate::immap::{has_entry, has_key, lemma_key_iff_entry, ImMap};
use crate::lang::error::{Error, ErrorType};
use crate::lang::eval::{err_msg, grown, lemma_set_ok_mono, only_pushed, value_of, ExprBuiltin, EVAL_FUEL};
use crate::lang::expr::{
    is_normal, lemma_extends_trans, lemma_normal_kept, set_ok, BuiltinKind, Expr, ExprBuiltinWrapper, ExprPool, ExprType,
};
use crate::lang::parser::{
    atom_node, atom_of_source, binop_kind, binop_node, binop_of_source, binop_source, flat_of_source, flat_source, ftree,
    lemma_ftree_kept, one_atom_source, parse_err, parse_str, tok_kind, tokens_of, Token,
};
use crate::path::{PathModel, VirtPath};
use crate::pbbuild::{builtin_field, get_pb_builtins};
use crate::text::to_owned_string;
use crate::value::Value;

verus! {

/// The builtins given to every file.
pub struct LangContext {
    builtins: ImMap<Expr>,
}

/// The directory of a file, locked there: what `cwd` is in the file.
pub open spec fn cwd_of(file: PathModel) -> PathModel {
    PathModel { parts: file.parts.drop_last(), ..file }.locked_here()
}

impl LangContext {
    /// The builtins by name.
    pub closed spec fn scope(&self) -> Seq<(Seq<char>, Expr)> {
        self.builtins@
    }

    /// A context with the builtin `pb`.
    pub fn new(pool: &mut ExprPool) -> (res: LangContext)
        requires
            old(pool).wf(),
        ensures
            grown(*final(pool), *old(pool)),
            set_ok(res.scope(), final(pool).size()),
            res.scope().len() == 1,
            res.scope()[0].0 == "pb"@,
            final(pool).valid(res.scope()[0].1),
            final(pool).node(res.scope()[0].1) matches ExprType::Object(fields) && (forall|k: Seq<char>|
                #[trigger] has_key(fields@, k) <==> (k == "lock"@ || k == "rule"@ || k == "build"@ || k == "translate"@
                || k == "retype"@)) && builtin_field(*final(pool), fields@, "lock"@, "lock"@, BuiltinKind::Lock)
                && builtin_field(*final(pool), fields@, "rule"@, "build"@, BuiltinKind::Rule) && builtin_field(
                *final(pool),
                fields@,
                "build"@,
                "build"@,
                BuiltinKind::Build,
            ) && builtin_field(*final(pool), fields@, "translate"@, "translate"@, BuiltinKind::Translate)
                && builtin_field(*final(pool), fields@, "retype"@, "retype"@, BuiltinKind::Retype),
    {
        let pb = get_pb_builtins(pool);
        LangContext { builtins: ImMap::single("pb", pb) }
    }

    /// Adds the builtin `name`; a name already there is refused with
    /// `DupKey`, and the builtins stay as they were.
    pub fn add_builtin(&mut self, name: &str, value: Expr) -> (res: Result<(), Error>)
        ensures
            res is Err <==> has_key(old(self).scope(), name@),
            res matches Err(e) ==> e.typ == ErrorType::DupKey && e.msg@ == name@ && final(self).scope() == old(
                self,
            ).scope(),
            res is Ok ==> forall|k: Seq<char>, v: Expr|
                has_entry(final(self).scope(), k, v) <==> ((k == name@ && v == value) || has_entry(
                    old(self).scope(),
                    k,
                    v,
                )),
    {
        if self.builtins.contains_key(name) {
            return Err(Error::new(ErrorType::DupKey, to_owned_string(name)));
        }
        proof { lemma_key_iff_entry(self.builtins@, name@); }
        self.builtins.upsert(name, value);
        Ok(())
    }

    /// The argument a file's function is applied to: the builtins, `cwd`
    /// (the file's directory, locked) and `include`.
    pub fn setup_file_args(&self, pool: &mut ExprPool, file: &VirtPath) -> (res: Expr)
        requires
            old(pool).wf(),
            set_ok(self.scope(), old(pool).size()),
            file@.parts.len() > 0,
        ensures
            grown(*final(pool), *old(pool)),
            only_pushed(*final(pool), *old(pool)),
            final(pool).valid(res),
            res.0 >= old(pool).size(),
            file_args(*final(pool), res, self.scope(), file@),
    {
        let ghost p0 = *pool;
        let dir = match file.duplicate().parent() {
            Some(d) => d,
            None => file.duplicate(),
        };
        let cwd = dir.lock();
        let c = pool.push(ExprType::Value(Value::Path(cwd)), None);
        let ghost p1 = *pool;
        let inc = Expr::new_builtin(pool, "include");
        proof { lemma_extends_trans(*pool, p1, p0); }
        let mut fields = self.builtins.copy();
        proof { lemma_set_ok_mono(fields@, p0.size(), pool.size()); }
        let ghost f0 = fields@;
        fields.upsert("cwd", c);
        let ghost f1 = fields@;
        fields.upsert("include", inc);
        proof {
            assert(has_entry(f1, "cwd"@, c));
            reveal_strlit("cwd");
            reveal_strlit("include");
            assert("cwd"@.len() != "include"@.len());
            assert("cwd"@ != "include"@);
            assert(has_entry(fields@, "cwd"@, c));
            assert forall|q: int| 0 <= q < fields@.len() implies (#[trigger] fields@[q]).1.0 < pool.size() by {
                assert(has_entry(fields@, fields@[q].0, fields@[q].1));
                if fields@[q].1 != c && fields@[q].1 != inc {
                    let j = choose|j: int| 0 <= j < f0.len() && f0[j] == (fields@[q].0, fields@[q].1);
                    assert(f0[j].1.0 < pool.size());
                }
            }
        }
        let ghost p2 = *pool;
        let res = pool.push(ExprType::Object(fields), None);
        proof {
            lemma_extends_trans(*pool, p2, p0);
            lemma_extends_trans(*pool, p2, p1);
            lemma_normal_kept(*pool, p1, c);
            lemma_normal_kept(*pool, p2, inc);
            assert(has_entry(fields@, "include"@, inc));
            assert(only_pushed(*pool, p0));
        }
        res
    }

    /// A file: its source parsed and applied to the file arguments.
    pub fn include_file(&self, pool: &mut ExprPool, file: &VirtPath, code: &str, file_id: usize) -> (res: Result<Expr, Error>)
        requires
            old(pool).wf(),
            set_ok(self.scope(), old(pool).size()),
            file@.parts.len() > 0,
        ensures
            grown(*final(pool), *old(pool)),
            res matches Ok(e) ==> final(pool).valid(e) && (final(pool).node(e) matches ExprType::FuncCall(a, f)
                && final(pool).valid(a) && file_args(*final(pool), a, self.scope(), file@) && final(pool).valid(f)
                && f.0 < a.0),
            parse_err(res),
            one_atom_source(code@) ==> (res matches Ok(e) && (final(pool).node(e) matches ExprType::FuncCall(a, f)
                && atom_of_source(code@, *final(pool), f))),
            binop_source(code@) ==> (res matches Ok(e) && (final(pool).node(e) matches ExprType::FuncCall(a, f)
                && binop_of_source(code@, *final(pool), f))),
            flat_source(code@) ==> (res matches Ok(e) && (final(pool).node(e) matches ExprType::FuncCall(a, f)
                && flat_of_source(code@, *final(pool), f))),
    {
        let ghost p0 = *pool;
        let file_expr = parse_str(pool, code, file_id)?;
        let ghost p1 = *pool;
        proof { lemma_set_ok_mono(self.builtins@, p0.size(), pool.size()); }
        let args = self.setup_file_args(pool, file);
        let ghost p2 = *pool;
        let res = pool.push(ExprType::FuncCall(args, file_expr), None);
        proof {
            lemma_extends_trans(p2, p1, p0);
            lemma_extends_trans(*pool, p2, p0);
            lemma_file_args_kept(p2, *pool, args, self.scope(), file@);
            if flat_source(code@) {
                let v = choose|v: Seq<Token>| tokens_of(code@, v) && ftree(p1, file_expr, v, 0, v.len() as int, 20);
                lemma_ftree_kept(p1, *pool, file_expr, v, 0, v.len() as int, 20);
                assert(tokens_of(code@, v) && ftree(*pool, file_expr, v, 0, v.len() as int, 20));
            }
            if binop_source(code@) {
                let v = choose|v: Seq<Token>| tokens_of(code@, v) && v.len() == 3 && binop_node(
                    p1,
                    file_expr,
                    binop_kind(tok_kind(v[1].tok)),
                    v[0].tok,
                    v[2].tok,
                );
                assert(pool.nodes()[file_expr.0 as int] == p1.nodes()[file_expr.0 as int]);
                let x = p1.node(file_expr)->BinOp_1;
                let y = p1.node(file_expr)->BinOp_2;
                assert(pool.nodes()[x.0 as int] == p1.nodes()[x.0 as int]);
                assert(pool.nodes()[y.0 as int] == p1.nodes()[y.0 as int]);
                assert(tokens_of(code@, v) && v.len() == 3 && binop_node(
                    *pool,
                    file_expr,
                    binop_kind(tok_kind(v[1].tok)),
                    v[0].tok,
                    v[2].tok,
                ));
            }
            if one_atom_source(code@) {
                let v = choose|v: Seq<Token>| tokens_of(code@, v) && v.len() == 1 && atom_node(p1, file_expr, v[0].tok);
                assert(pool.nodes()[file_expr.0 as int] == p1.nodes()[file_expr.0 as int]);
                assert(tokens_of(code@, v) && v.len() == 1 && atom_node(*pool, file_expr, v[0].tok));
            }
        }
        Ok(res)
    }
}

/// Node `a` of `q` is the argument of a file's function: an object with the
/// builtins of `scope`, `cwd` the locked directory of `file`, and `include`.
pub open spec fn file_args(q: ExprPool, a: Expr, scope: Seq<(Seq<char>, Expr)>, file: PathModel) -> bool {
    q.node(a) matches ExprType::Object(fields) && (exists|c: Expr| has_entry(fields@, "cwd"@, c) && q.valid(c) && (q.node(c)
        matches ExprType::Value(Value::Path(p)) && p@ == cwd_of(file))) && (exists|i: Expr| has_entry(fields@, "include"@, i)
        && q.valid(i) && (q.node(i) matches ExprType::FuncDefBuiltin(w) && w.0@ == "include"@ && w.1 == BuiltinKind::External))
        && (forall|k: Seq<char>| #[trigger] has_key(fields@, k) <==> (has_key(scope, k) || k == "cwd"@ || k == "include"@))
}

proof fn lemma_file_args_kept(p: ExprPool, q: ExprPool, a: Expr, scope: Seq<(Seq<char>, Expr)>, file: PathModel)
    requires
        file_args(p, a, scope, file),
        p.valid(a),
        q.extends(p),
    ensures
        file_args(q, a, scope, file),
{
    lemma_normal_kept(q, p, a);
    let fields = p.node(a)->Object_0;
    let c = choose|c: Expr| has_entry(fields@, "cwd"@, c) && p.valid(c) && (p.node(c) matches ExprType::Value(Value::Path(pp))
        && pp@ == cwd_of(file));
    lemma_normal_kept(q, p, c);
    let i = choose|i: Expr| has_entry(fields@, "include"@, i) && p.valid(i) && (p.node(i) matches ExprType::FuncDefBuiltin(w)
        && w.0@ == "include"@ && w.1 == BuiltinKind::External);
    lemma_normal_kept(q, p, i);
}

/// The path that the argument of `include` evaluates to.
pub fn include_target<H: ExprBuiltin>(pool: &mut ExprPool, host: &mut H, arg: Expr) -> (res: Result<VirtPath, Error>)
    requires
        old(pool).wf(),
        old(pool).valid(arg),
    ensures
        grown(*final(pool), *old(pool)),
        res matches Ok(p) ==> (final(pool).node(arg) matches ExprType::Value(Value::Path(q)) && p@ == q@),
        is_normal(old(pool).node(arg)) ==> *final(pool) == *old(pool) && (res is Ok <==> old(pool).node(arg) matches ExprType::Value(
            Value::Path(_),
        )),
{
    let v = value_of(pool, host, arg, EVAL_FUEL)?;
    match v {
        Value::Path(p) => Ok(p),
        _ => Err(err_msg(ErrorType::Type, "Include of non-path argument")),
    }
}

} // verus!
