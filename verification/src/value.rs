//! The values of the build language and the operators on them.
use std::rc::Rc;
use vstd::prelude::*;

use crate::lang::error::{Error, ErrorType};
use crate::ninjawriter::NinjaArg;
use crate::path::{display_text, PathModel, VirtPath};
use crate::pbbuild::{build_display, PbBuild, PbBuildRule};
use crate::text::{char_is_digit, chars_of, digit_value, i64_to_string, int_text, is_digit,
    push_char, push_str, seq_lt, str_eq, str_lt, to_owned_string};

verus! {

/// A shared handle to the same value (`Rc::clone`).
#[verifier::external_body]
pub fn rc_clone<T>(r: &Rc<T>) -> (res: Rc<T>)
    ensures
        res == *r,
{
    Rc::clone(r)
}

/// A value of the language.
#[derive(Debug, PartialEq)]
pub enum Value {
    Int(i64),
    String(String),
    Path(VirtPath),
    Bool(bool),
    /// A build step made by `pb.build`.
    Build(Rc<PbBuild>),
    /// A build rule made by `pb.rule`.
    BuildRule(Rc<PbBuildRule>),
    /// A placeholder for a rule variable, written `$name`.
    BuildVar(String),
    /// Text mixing placeholders and strings.
    BuildConcat(Vec<Value>),
}

/// Whether two values are equal: same kind and same contents, builds and
/// rules by identity.
pub open spec fn same_value(a: Value, b: Value) -> bool
    decreases a,
{
    match (a, b) {
        (Value::Int(x), Value::Int(y)) => x == y,
        (Value::String(x), Value::String(y)) => x@ == y@,
        (Value::Path(x), Value::Path(y)) => x@ == y@,
        (Value::Bool(x), Value::Bool(y)) => x == y,
        (Value::Build(x), Value::Build(y)) => x.id == y.id,
        (Value::BuildRule(x), Value::BuildRule(y)) => x.id == y.id,
        (Value::BuildVar(x), Value::BuildVar(y)) => x@ == y@,
        (Value::BuildConcat(x), Value::BuildConcat(y)) => x@.len() == y@.len() && forall|i: int|
            0 <= i < x@.len() ==> same_value(#[trigger] x@[i], y@[i]),
        _ => false,
    }
}

/// The display text of a value.
pub open spec fn value_text(v: Value) -> Seq<char>
    decreases v,
{
    match v {
        Value::Int(x) => int_text(x as int),
        Value::String(s) => seq!['"'] + s@ + seq!['"'],
        Value::Path(p) => display_text(p@),
        Value::Bool(b) => if b {
            seq!['t', 'r', 'u', 'e']
        } else {
            seq!['f', 'a', 'l', 's', 'e']
        },
        Value::Build(b) => build_display(*b),
        Value::BuildRule(r) => seq!['B', 'u', 'i', 'l', 'd', 'R', 'u', 'l', 'e', '('] + r.name@
            + seq![')'],
        Value::BuildVar(s) => seq!['$'] + s@,
        Value::BuildConcat(vs) => values_text(vs@),
    }
}

/// The display texts of values, one after the other.
pub open spec fn values_text(vs: Seq<Value>) -> Seq<char>
    decreases vs,
{
    if vs.len() == 0 {
        seq![]
    } else {
        values_text(vs.drop_last()) + value_text(vs.last())
    }
}

/// Integer division rounding toward zero.
pub open spec fn trunc_div(x: int, d: int) -> int {
    if x == 0 {
        0
    } else if x > 0 && d > 0 {
        x / d
    } else if x < 0 && d < 0 {
        (x * -1) / (d * -1)
    } else if x < 0 {
        ((x * -1) / d) * -1
    } else {
        (x / (d * -1)) * -1
    }
}

/// The error of an operator applied to operands it does not take.
pub open spec fn type_error(r: Result<Value, Error>) -> bool {
    r matches Err(e) && e.typ == ErrorType::Type
}

/// Ordering of two integers or two strings by `cmp`, where `cmp(l, e, g)`
/// picks the answer for less, equal and greater.
pub open spec fn compare_result(lhs: Value, rhs: Value, lt: bool, eq: bool, gt: bool) -> Option<
    bool,
> {
    match (lhs, rhs) {
        (Value::Int(a), Value::Int(b)) => Some(
            if a < b {
                lt
            } else if a == b {
                eq
            } else {
                gt
            },
        ),
        (Value::String(a), Value::String(b)) => Some(
            if seq_lt(a@, b@) {
                lt
            } else if a@ == b@ {
                eq
            } else {
                gt
            },
        ),
        _ => None,
    }
}

impl Value {
    /// A copy of the value.
    pub fn duplicate(&self) -> (res: Value)
        ensures
            same_value(res, *self),
            value_text(res) == value_text(*self),
            (self is Build || self is BuildRule) ==> res == *self,
        decreases self,
    {
        match self {
            Value::Int(x) => Value::Int(*x),
            Value::String(s) => Value::String(s.clone()),
            Value::Path(p) => Value::Path(p.duplicate()),
            Value::Bool(b) => Value::Bool(*b),
            Value::Build(b) => Value::Build(rc_clone(b)),
            Value::BuildRule(r) => Value::BuildRule(rc_clone(r)),
            Value::BuildVar(s) => Value::BuildVar(s.clone()),
            Value::BuildConcat(vs) => {
                let mut out: Vec<Value> = Vec::new();
                let mut i: usize = 0;
                while i < vs.len()
                    invariant
                        i <= vs@.len(),
                        *self == Value::BuildConcat(*vs),
                        out@.len() == i,
                        forall|j: int| 0 <= j < i ==> same_value(#[trigger] out@[j], vs@[j]),
                        forall|j: int| 0 <= j < i ==> value_text(#[trigger] out@[j]) == value_text(
                            vs@[j],
                        ),
                    decreases vs.len() - i,
                {
                    assert(decreases_to!(*self => vs@[i as int])) by {
                        assert(decreases_to!(*self => self->BuildConcat_0));
                        assert(decreases_to!(self->BuildConcat_0 => self->BuildConcat_0@));
                    }
                    out.push(vs[i].duplicate());
                    i = i + 1;
                }
                proof { lemma_values_text_same(out@, vs@); }
                Value::BuildConcat(out)
            },
        }
    }

    /// The display text of the value.
    pub fn to_string(&self) -> (res: String)
        ensures
            res@ == value_text(*self),
    {
        let mut out = String::new();
        self.write(&mut out);
        out
    }

    pub fn write(&self, out: &mut String)
        ensures
            final(out)@ == old(out)@ + value_text(*self),
        decreases self,
    {
        let ghost start = out@;
        match self {
            Value::Int(x) => {
                let s = i64_to_string(*x);
                push_str(out, s.as_str());
            },
            Value::String(s) => {
                push_char(out, '"');
                push_str(out, s.as_str());
                push_char(out, '"');
            },
            Value::Path(p) => {
                let s = p.to_string();
                push_str(out, s.as_str());
            },
            Value::Bool(b) => {
                if *b {
                    push_str(out, "true");
                    proof { reveal_strlit("true"); }
                } else {
                    push_str(out, "false");
                    proof { reveal_strlit("false"); }
                }
            },
            Value::Build(b) => {
                let s = b.to_string();
                push_str(out, s.as_str());
            },
            Value::BuildRule(r) => {
                push_str(out, "BuildRule(");
                push_str(out, r.name.as_str());
                push_char(out, ')');
                proof { reveal_strlit("BuildRule("); }
            },
            Value::BuildVar(s) => {
                push_char(out, '$');
                push_str(out, s.as_str());
            },
            Value::BuildConcat(vs) => {
                let mut i: usize = 0;
                assert(vs@.take(0) =~= Seq::<Value>::empty());
                while i < vs.len()
                    invariant
                        i <= vs@.len(),
                        *self == Value::BuildConcat(*vs),
                        out@ == start + values_text(vs@.take(i as int)),
                    decreases vs.len() - i,
                {
                    assert(decreases_to!(*self => vs@[i as int])) by {
                        assert(decreases_to!(*self => self->BuildConcat_0));
                        assert(decreases_to!(self->BuildConcat_0 => self->BuildConcat_0@));
                    }
                    vs[i].write(out);
                    assert(vs@.take(i + 1).drop_last() =~= vs@.take(i as int));
                    i = i + 1;
                }
                assert(vs@.take(vs.len() as int) =~= vs@);
            },
        }
        assert(out@ =~= start + value_text(*self));
    }

    /// Whether two values are equal.
    pub fn equals(&self, other: &Value) -> (res: bool)
        ensures
            res == same_value(*self, *other),
        decreases self,
    {
        match (self, other) {
            (Value::Int(x), Value::Int(y)) => *x == *y,
            (Value::String(x), Value::String(y)) => str_eq(x.as_str(), y.as_str()),
            (Value::Path(x), Value::Path(y)) => x.same(y),
            (Value::Bool(x), Value::Bool(y)) => *x == *y,
            (Value::Build(x), Value::Build(y)) => x.id == y.id,
            (Value::BuildRule(x), Value::BuildRule(y)) => x.id == y.id,
            (Value::BuildVar(x), Value::BuildVar(y)) => str_eq(x.as_str(), y.as_str()),
            (Value::BuildConcat(xs), Value::BuildConcat(ys)) => {
                if xs.len() != ys.len() {
                    return false;
                }
                let mut i: usize = 0;
                while i < xs.len()
                    invariant
                        i <= xs@.len(),
                        xs@.len() == ys@.len(),
                        *self == Value::BuildConcat(*xs),
                        *other == Value::BuildConcat(*ys),
                        forall|j: int| 0 <= j < i ==> same_value(#[trigger] xs@[j], ys@[j]),
                    decreases xs.len() - i,
                {
                    assert(decreases_to!(*self => xs@[i as int])) by {
                        assert(decreases_to!(*self => self->BuildConcat_0));
                        assert(decreases_to!(self->BuildConcat_0 => self->BuildConcat_0@));
                    }
                    if !xs[i].equals(&ys[i]) {
                        return false;
                    }
                    i = i + 1;
                }
                true
            },
            _ => false,
        }
    }
}

proof fn lemma_values_text_same(a: Seq<Value>, b: Seq<Value>)
    requires
        a.len() == b.len(),
        forall|j: int| 0 <= j < a.len() ==> value_text(#[trigger] a[j]) == value_text(b[j]),
    ensures
        values_text(a) == values_text(b),
    decreases a.len(),
{
    if a.len() > 0 {
        lemma_values_text_same(a.drop_last(), b.drop_last());
        assert(value_text(a[a.len() - 1]) == value_text(b[b.len() - 1]));
    }
}

fn type_err(msg: &str, lhs: &Value, rhs: &Value) -> (res: Error)
    ensures
        res.typ == ErrorType::Type,
{
    let mut m = to_owned_string(msg);
    push_char(&mut m, ' ');
    let a = lhs.to_string();
    push_str(&mut m, a.as_str());
    push_str(&mut m, " and ");
    let b = rhs.to_string();
    push_str(&mut m, b.as_str());
    Error::new(ErrorType::Type, m)
}

fn type_err1(msg: &str, v: &Value) -> (res: Error)
    ensures
        res.typ == ErrorType::Type,
{
    let mut m = to_owned_string(msg);
    let a = v.to_string();
    push_str(&mut m, a.as_str());
    Error::new(ErrorType::Type, m)
}

/// Operators of the language on values.
pub trait ExprOps: Sized {
    fn op_add(lhs: &Self, rhs: &Self) -> Result<Self, Error>;

    fn op_sub(lhs: &Self, rhs: &Self) -> Result<Self, Error>;

    fn op_mult(lhs: &Self, rhs: &Self) -> Result<Self, Error>;

    fn op_div(lhs: &Self, rhs: &Self) -> Result<Self, Error>;

    fn op_lt(lhs: &Self, rhs: &Self) -> Result<Self, Error>;

    fn op_le(lhs: &Self, rhs: &Self) -> Result<Self, Error>;

    fn op_gt(lhs: &Self, rhs: &Self) -> Result<Self, Error>;

    fn op_ge(lhs: &Self, rhs: &Self) -> Result<Self, Error>;

    fn op_eq(lhs: &Self, rhs: &Self) -> Result<Self, Error>;

    fn op_neq(lhs: &Self, rhs: &Self) -> Result<Self, Error>;

    fn op_neg(&self) -> Result<Self, Error>;

    fn op_not(&self) -> Result<Self, Error>;

    fn as_bool(&self) -> Result<bool, Error>;

    fn as_string(&self) -> Result<String, Error>;

    fn new_from_bool(&self, value: bool) -> Self;
}

impl ExprOps for Value {
    /// Integer sum, string concatenation, or text built from placeholders
    /// and strings.
    fn op_add(lhs: &Self, rhs: &Self) -> (res: Result<Self, Error>)
        ensures
            match (*lhs, *rhs) {
                (Value::Int(a), Value::Int(b)) => if i64::MIN <= a + b <= i64::MAX {
                    res == Ok::<Value, Error>(Value::Int((a + b) as i64))
                } else {
                    res matches Err(e) && e.typ == ErrorType::Eval
                },
                (Value::String(a), Value::String(b)) => res matches Ok(Value::String(s)) && s@
                    == a@ + b@,
                (Value::String(_), Value::BuildVar(_)) | (Value::BuildVar(_), Value::String(_)) =>
                    res matches Ok(Value::BuildConcat(vs)) && vs@.len() == 2 && same_value(
                    vs@[0],
                    *lhs,
                ) && same_value(vs@[1], *rhs),
                (Value::BuildConcat(xs), Value::BuildVar(_)) | (
                    Value::BuildConcat(xs),
                    Value::String(_),
                ) => res matches Ok(Value::BuildConcat(vs)) && vs@.len() == xs@.len() + 1
                    && (forall|i: int| 0 <= i < xs@.len() ==> same_value(#[trigger] vs@[i], xs@[i]))
                    && same_value(vs@.last(), *rhs),
                _ => type_error(res),
            },
    {
        match (lhs, rhs) {
            (Value::Int(a), Value::Int(b)) => match a.checked_add(*b) {
                Some(v) => Ok(Value::Int(v)),
                None => Err(Error::new(ErrorType::Eval, to_owned_string("integer overflow"))),
            },
            (Value::String(a), Value::String(b)) => {
                let mut s = a.clone();
                push_str(&mut s, b.as_str());
                Ok(Value::String(s))
            },
            (Value::String(_), Value::BuildVar(_)) | (Value::BuildVar(_), Value::String(_)) => {
                let mut vs: Vec<Value> = Vec::new();
                vs.push(lhs.duplicate());
                vs.push(rhs.duplicate());
                Ok(Value::BuildConcat(vs))
            },
            (Value::BuildConcat(xs), Value::BuildVar(_)) | (
                Value::BuildConcat(xs),
                Value::String(_),
            ) => {
                let mut vs: Vec<Value> = Vec::new();
                let mut i: usize = 0;
                while i < xs.len()
                    invariant
                        i <= xs@.len(),
                        vs@.len() == i,
                        forall|j: int| 0 <= j < i ==> same_value(#[trigger] vs@[j], xs@[j]),
                    decreases xs.len() - i,
                {
                    vs.push(xs[i].duplicate());
                    i = i + 1;
                }
                vs.push(rhs.duplicate());
                Ok(Value::BuildConcat(vs))
            },
            _ => Err(type_err("can't add", lhs, rhs)),
        }
    }

    /// Integer difference.
    fn op_sub(lhs: &Self, rhs: &Self) -> (res: Result<Self, Error>)
        ensures
            match (*lhs, *rhs) {
                (Value::Int(a), Value::Int(b)) => if i64::MIN <= a - b <= i64::MAX {
                    res == Ok::<Value, Error>(Value::Int((a - b) as i64))
                } else {
                    res matches Err(e) && e.typ == ErrorType::Eval
                },
                _ => type_error(res),
            },
    {
        match (lhs, rhs) {
            (Value::Int(a), Value::Int(b)) => match a.checked_sub(*b) {
                Some(v) => Ok(Value::Int(v)),
                None => Err(Error::new(ErrorType::Eval, to_owned_string("integer overflow"))),
            },
            _ => Err(type_err("can't subtract", lhs, rhs)),
        }
    }

    /// Integer product.
    fn op_mult(lhs: &Self, rhs: &Self) -> (res: Result<Self, Error>)
        ensures
            match (*lhs, *rhs) {
                (Value::Int(a), Value::Int(b)) => if i64::MIN <= a * b <= i64::MAX {
                    res == Ok::<Value, Error>(Value::Int((a * b) as i64))
                } else {
                    res matches Err(e) && e.typ == ErrorType::Eval
                },
                _ => type_error(res),
            },
    {
        match (lhs, rhs) {
            (Value::Int(a), Value::Int(b)) => match a.checked_mul(*b) {
                Some(v) => Ok(Value::Int(v)),
                None => Err(Error::new(ErrorType::Eval, to_owned_string("integer overflow"))),
            },
            _ => Err(type_err("can't multiply", lhs, rhs)),
        }
    }

    /// Integer division rounding toward zero, or a step from a path into a
    /// named entry.
    fn op_div(lhs: &Self, rhs: &Self) -> (res: Result<Self, Error>)
        ensures
            match (*lhs, *rhs) {
                (Value::Int(a), Value::Int(b)) => if b == 0 || !(i64::MIN <= trunc_div(
                    a as int,
                    b as int,
                ) <= i64::MAX) {
                    res matches Err(e) && e.typ == ErrorType::Eval
                } else {
                    res == Ok::<Value, Error>(Value::Int(trunc_div(a as int, b as int) as i64))
                },
                (Value::Path(p), Value::String(s)) => match res {
                    Ok(Value::Path(q)) => q@ == (if s@ == seq!['.', '.'] {
                        PathModel { parts: p@.parts.drop_last(), ..p@ }
                    } else if s@ == seq!['.'] {
                        p@
                    } else {
                        PathModel { parts: p@.parts.push(s@), ..p@ }
                    }),
                    Ok(_) => false,
                    Err(e) => e.typ == ErrorType::Eval && s@ == seq!['.', '.'] && p@.parts.len()
                        == 0,
                },
                _ => type_error(res),
            },
    {
        match (lhs, rhs) {
            (Value::Int(a), Value::Int(b)) => match a.checked_div(*b) {
                Some(v) => Ok(Value::Int(v)),
                None => Err(Error::new(ErrorType::Eval, to_owned_string("integer division error"))),
            },
            (Value::Path(p), Value::String(s)) => match p.duplicate().step(s.as_str()) {
                Some(path) => Ok(Value::Path(path)),
                None => Err(Error::new(ErrorType::Eval, to_owned_string("path steps above its root"))),
            },
            _ => Err(type_err("can't divide", lhs, rhs)),
        }
    }

    fn op_lt(lhs: &Self, rhs: &Self) -> (res: Result<Self, Error>)
        ensures
            match compare_result(*lhs, *rhs, true, false, false) {
                Some(b) => res == Ok::<Value, Error>(Value::Bool(b)),
                None => type_error(res),
            },
    {
        compare(lhs, rhs, true, false, false)
    }

    fn op_le(lhs: &Self, rhs: &Self) -> (res: Result<Self, Error>)
        ensures
            match compare_result(*lhs, *rhs, true, true, false) {
                Some(b) => res == Ok::<Value, Error>(Value::Bool(b)),
                None => type_error(res),
            },
    {
        compare(lhs, rhs, true, true, false)
    }

    fn op_gt(lhs: &Self, rhs: &Self) -> (res: Result<Self, Error>)
        ensures
            match compare_result(*lhs, *rhs, false, false, true) {
                Some(b) => res == Ok::<Value, Error>(Value::Bool(b)),
                None => type_error(res),
            },
    {
        compare(lhs, rhs, false, false, true)
    }

    fn op_ge(lhs: &Self, rhs: &Self) -> (res: Result<Self, Error>)
        ensures
            match compare_result(*lhs, *rhs, false, true, true) {
                Some(b) => res == Ok::<Value, Error>(Value::Bool(b)),
                None => type_error(res),
            },
    {
        compare(lhs, rhs, false, true, true)
    }

    fn op_eq(lhs: &Self, rhs: &Self) -> (res: Result<Self, Error>)
        ensures
            res == Ok::<Value, Error>(Value::Bool(same_value(*lhs, *rhs))),
    {
        Ok(Value::Bool(lhs.equals(rhs)))
    }

    fn op_neq(lhs: &Self, rhs: &Self) -> (res: Result<Self, Error>)
        ensures
            res == Ok::<Value, Error>(Value::Bool(!same_value(*lhs, *rhs))),
    {
        Ok(Value::Bool(!lhs.equals(rhs)))
    }

    fn op_neg(&self) -> (res: Result<Self, Error>)
        ensures
            match *self {
                Value::Int(a) => if a == i64::MIN {
                    res matches Err(e) && e.typ == ErrorType::Eval
                } else {
                    res == Ok::<Value, Error>(Value::Int((-a) as i64))
                },
                _ => type_error(res),
            },
    {
        match self {
            Value::Int(a) => if *a == i64::MIN {
                Err(Error::new(ErrorType::Eval, to_owned_string("integer overflow")))
            } else {
                Ok(Value::Int(-*a))
            },
            _ => Err(type_err1("not an integer: ", self)),
        }
    }

    fn op_not(&self) -> (res: Result<Self, Error>)
        ensures
            match *self {
                Value::Bool(b) => res == Ok::<Value, Error>(Value::Bool(!b)),
                _ => type_error(res),
            },
    {
        match self {
            Value::Bool(b) => Ok(Value::Bool(!*b)),
            _ => Err(type_err1("not a boolean: ", self)),
        }
    }

    fn as_bool(&self) -> (res: Result<bool, Error>)
        ensures
            match *self {
                Value::Bool(b) => res == Ok::<bool, Error>(b),
                _ => res matches Err(e) && e.typ == ErrorType::Type,
            },
    {
        match self {
            Value::Bool(b) => Ok(*b),
            _ => Err(type_err1("not a boolean: ", self)),
        }
    }

    fn as_string(&self) -> (res: Result<String, Error>)
        ensures
            match *self {
                Value::String(s) => res matches Ok(r) && r@ == s@,
                _ => res matches Err(e) && e.typ == ErrorType::Type,
            },
    {
        match self {
            Value::String(s) => Ok(s.clone()),
            _ => Err(type_err1("not a string: ", self)),
        }
    }

    fn new_from_bool(&self, value: bool) -> (res: Self)
        ensures
            res == Value::Bool(value),
    {
        Value::Bool(value)
    }
}

fn compare(lhs: &Value, rhs: &Value, lt: bool, eq: bool, gt: bool) -> (res: Result<Value, Error>)
    ensures
        match compare_result(*lhs, *rhs, lt, eq, gt) {
            Some(b) => res == Ok::<Value, Error>(Value::Bool(b)),
            None => type_error(res),
        },
{
    match (lhs, rhs) {
        (Value::Int(a), Value::Int(b)) => Ok(
            Value::Bool(
                if *a < *b {
                    lt
                } else if *a == *b {
                    eq
                } else {
                    gt
                },
            ),
        ),
        (Value::String(a), Value::String(b)) => Ok(
            Value::Bool(
                if str_lt(a.as_str(), b.as_str()) {
                    lt
                } else if str_eq(a.as_str(), b.as_str()) {
                    eq
                } else {
                    gt
                },
            ),
        ),
        _ => Err(type_err("can't compare", lhs, rhs)),
    }
}

/// Values that integer and string literals stand for.
pub trait ParsableValue: Sized {
    fn parse_int(value: &str) -> Option<Self>;

    fn parse_string(value: &str) -> Option<Self>;

    fn from_bool(value: bool) -> Self;
}

/// The number written by the decimal digits `s`.
pub open spec fn digits_value(s: Seq<char>) -> int
    decreases s.len(),
{
    if s.len() == 0 {
        0
    } else {
        digits_value(s.drop_last()) * 10 + digit_value(s.last())
    }
}

/// `s` is a non-empty run of decimal digits.
pub open spec fn all_digits(s: Seq<char>) -> bool {
    s.len() > 0 && forall|i: int| 0 <= i < s.len() ==> is_digit(#[trigger] s[i])
}

proof fn lemma_digits_value_nonneg(s: Seq<char>)
    requires
        forall|i: int| 0 <= i < s.len() ==> is_digit(#[trigger] s[i]),
    ensures
        digits_value(s) >= 0,
    decreases s.len(),
{
    if s.len() > 0 {
        lemma_digits_value_nonneg(s.drop_last());
    }
}

proof fn lemma_digits_value_mono(s: Seq<char>, k: int)
    requires
        0 <= k <= s.len(),
        forall|i: int| 0 <= i < s.len() ==> is_digit(#[trigger] s[i]),
    ensures
        digits_value(s.take(k)) <= digits_value(s),
    decreases s.len() - k,
{
    if k < s.len() {
        lemma_digits_value_mono(s, k + 1);
        assert(s.take(k + 1).drop_last() =~= s.take(k));
        lemma_digits_value_nonneg(s.take(k));
    } else {
        assert(s.take(k) =~= s);
    }
}

impl ParsableValue for Value {
    /// The integer written in decimal digits; `None` for anything else and
    /// for numbers beyond `i64`.
    fn parse_int(value: &str) -> (res: Option<Self>)
        ensures
            res is Some <==> (all_digits(value@) && digits_value(value@) <= i64::MAX),
            res matches Some(v) ==> v == Value::Int(digits_value(value@) as i64),
    {
        let cs = chars_of(value);
        if cs.len() == 0 {
            return None;
        }
        let mut n: i64 = 0;
        let mut i: usize = 0;
        while i < cs.len()
            invariant
                i <= cs@.len(),
                cs@ == value@,
                forall|j: int| 0 <= j < i ==> is_digit(#[trigger] cs@[j]),
                n == digits_value(cs@.take(i as int)),
                0 <= n,
            decreases cs.len() - i,
        {
            assert(cs@.take(i + 1).drop_last() =~= cs@.take(i as int));
            let c = cs[i];
            if !char_is_digit(c) {
                return None;
            }
            let d = (c as u32 - '0' as u32) as i64;
            if n > (i64::MAX - d) / 10 {
                proof {
                    assert(forall|j: int| 0 <= j < i + 1 ==> is_digit(#[trigger] cs@[j]));
                    if forall|j: int| 0 <= j < cs@.len() ==> is_digit(#[trigger] cs@[j]) {
                        lemma_digits_value_mono(cs@, i + 1);
                    }
                }
                return None;
            }
            n = n * 10 + d;
            i = i + 1;
        }
        assert(cs@.take(cs@.len() as int) =~= cs@);
        Some(Value::Int(n))
    }

    /// The string itself.
    fn parse_string(value: &str) -> (res: Option<Self>)
        ensures
            res matches Some(Value::String(s)) && s@ == value@,
    {
        Some(Value::String(to_owned_string(value)))
    }

    /// The boolean itself.
    fn from_bool(value: bool) -> (res: Self)
        ensures
            res == Value::Bool(value),
    {
        Value::Bool(value)
    }
}

/// Value equality is reflexive and symmetric, and `!=` is its negation.
pub proof fn law_equality(a: Value, b: Value)
    ensures
        same_value(a, a),
        same_value(a, b) == same_value(b, a),
    decreases a,
{
    match (a, b) {
        (Value::BuildConcat(x), Value::BuildConcat(y)) => {
            assert forall|i: int| 0 <= i < x@.len() implies same_value(#[trigger] x@[i], x@[i]) by {
                assert(decreases_to!(a => x@[i])) by {
                    assert(decreases_to!(a => a->BuildConcat_0));
                    assert(decreases_to!(a->BuildConcat_0 => a->BuildConcat_0@));
                }
                law_equality(x@[i], x@[i]);
            }
            if x@.len() == y@.len() {
                assert forall|i: int| 0 <= i < x@.len() implies same_value(#[trigger] x@[i], y@[i]) == same_value(y@[i], x@[i]) by {
                    assert(decreases_to!(a => x@[i])) by {
                        assert(decreases_to!(a => a->BuildConcat_0));
                        assert(decreases_to!(a->BuildConcat_0 => a->BuildConcat_0@));
                    }
                    law_equality(x@[i], y@[i]);
                }
            }
        },
        (Value::BuildConcat(x), _) => {
            assert forall|i: int| 0 <= i < x@.len() implies same_value(#[trigger] x@[i], x@[i]) by {
                assert(decreases_to!(a => x@[i])) by {
                    assert(decreases_to!(a => a->BuildConcat_0));
                    assert(decreases_to!(a->BuildConcat_0 => a->BuildConcat_0@));
                }
                law_equality(x@[i], x@[i]);
            }
        },
        _ => {},
    }
}

/// `a < b` is `b > a`, and `a <= b` is `b >= a`, for integers and strings.
pub proof fn law_comparison_flips(a: Value, b: Value)
    ensures
        compare_result(a, b, true, false, false) == compare_result(b, a, false, false, true),
        compare_result(a, b, true, true, false) == compare_result(b, a, false, true, true),
{
    match (a, b) {
        (Value::String(x), Value::String(y)) => {
            crate::text::lemma_seq_lt_total(x@, y@);
            crate::text::lemma_seq_lt_irreflexive(x@);
            if seq_lt(x@, y@) && seq_lt(y@, x@) {
                crate::text::lemma_seq_lt_transitive(x@, y@, x@);
            }
        },
        _ => {},
    }
}

} // verus!
