use vstd::prelude::*;

verus! {

/// What a command is about: everything, or what bears a name.
pub enum Query {
    All,
    Name(String),
}

} // verus!
