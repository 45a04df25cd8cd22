use vstd::prelude::*;

pub mod text;
pub mod immap;
pub mod stringdecode;
pub mod path;
pub mod ninjawriter;
pub mod value;
pub mod lang;
pub mod pbbuild;
pub mod context;

verus! {
} // verus!
