use vstd::prelude::*;

verus! {

/// A generic, order-preserving key/value tree, as produced by a parser of a
/// textual encoding. Numbers are kept as their decimal text.
#[derive(Debug)]
pub enum Tree {
    Null,
    Bool(bool),
    Number(String),
    Text(String),
    List(Vec<Tree>),
    Mapping(Vec<(String, Tree)>),
}

} // verus!
