//! Errors of the language, with the places in the source they refer to.
use vstd::prelude::*;

use crate::lang::expr::ExprSourceRef;
use crate::text::{push_char, push_str, to_owned_string, u64_to_string};

verus! {

/// What kind of error occurred.
#[derive(Debug, PartialEq, Eq, Clone, Copy)]
pub enum ErrorType {
    Parse,
    Scope,
    Eval,
    Type,
    DupKey,
    NoValue,
    Custom,
}

impl ErrorType {
    /// The heading of an error of this kind.
    pub fn to_string(&self) -> (res: String)
        ensures
            res@ == error_type_text(*self),
    {
        let s = match self {
            ErrorType::Parse => "Parse error",
            ErrorType::Scope => "Scope error",
            ErrorType::Eval => "Eval error",
            ErrorType::Type => "Type error",
            ErrorType::DupKey => "Duplicate key",
            ErrorType::NoValue => "No value",
            ErrorType::Custom => "Error",
        };
        proof {
            reveal_strlit("Parse error");
            reveal_strlit("Scope error");
            reveal_strlit("Eval error");
            reveal_strlit("Type error");
            reveal_strlit("Duplicate key");
            reveal_strlit("No value");
            reveal_strlit("Error");
        }
        to_owned_string(s)
    }
}

/// The heading of an error kind.
pub open spec fn error_type_text(t: ErrorType) -> Seq<char> {
    match t {
        ErrorType::Parse => "Parse error"@,
        ErrorType::Scope => "Scope error"@,
        ErrorType::Eval => "Eval error"@,
        ErrorType::Type => "Type error"@,
        ErrorType::DupKey => "Duplicate key"@,
        ErrorType::NoValue => "No value"@,
        ErrorType::Custom => "Error"@,
    }
}

/// A place in a source file: the file and a span of character offsets.
#[derive(Debug, PartialEq, Clone)]
pub struct Loc {
    pub file: usize,
    pub left: usize,
    pub right: usize,
}

/// An error: its kind, a message, and the places it was referenced from.
#[derive(Debug)]
pub struct Error {
    pub typ: ErrorType,
    pub msg: String,
    pub locs: Vec<Loc>,
}

impl Error {
    /// An error without places.
    pub fn new(typ: ErrorType, msg: String) -> (res: Error)
        ensures
            res.typ == typ,
            res.msg@ == msg@,
            res.locs@.len() == 0,
    {
        Error { typ, msg, locs: Vec::new() }
    }

    /// The error with one more place.
    pub fn loc(self, left: usize, right: usize, file: usize) -> (res: Error)
        ensures
            res.typ == self.typ,
            res.msg == self.msg,
            res.locs@ == self.locs@.push(Loc { file, left, right }),
    {
        let mut out = self;
        out.locs.push(Loc { file, left, right });
        out
    }

    /// The error with the place `loc`, if there is one.
    pub fn reref(self, loc: Option<ExprSourceRef>) -> (res: Error)
        ensures
            res.typ == self.typ,
            res.msg == self.msg,
            loc matches Some(l) ==> res.locs@ == self.locs@.push(
                Loc { file: l.file, left: l.left, right: l.right },
            ),
            loc is None ==> res.locs@ == self.locs@,
    {
        match loc {
            Some(l) => self.loc(l.left, l.right, l.file),
            None => self,
        }
    }
}

impl Error {
    /// The first line of the error's text: its kind and message.
    pub fn message(&self) -> (res: String)
        ensures
            res@ == error_type_text(self.typ) + ": "@ + self.msg@ + seq!['\n'],
    {
        let mut out = self.typ.to_string();
        push_str(&mut out, ": ");
        push_str(&mut out, self.msg.as_str());
        push_char(&mut out, '\n');
        proof { reveal_strlit(": "); }
        assert(out@ =~= error_type_text(self.typ) + ": "@ + self.msg@ + seq!['\n']);
        out
    }
}

} // verus!
