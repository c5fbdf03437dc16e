//! What a debug adapter says of a stopped program.
use vstd::prelude::*;

verus! {

/// A variable, or a child of one.
#[derive(Debug)]
pub struct Variable {
    pub name: String,
    pub value: String,
    pub ty: Option<String>,
    /// An expression that names the variable.
    pub evaluate_name: Option<String>,
    /// What its children are asked for by; 0 if it has none.
    pub variables_reference: usize,
    pub indexed_variables: Option<usize>,
}

/// A group of variables of a frame.
#[derive(Debug)]
pub struct Scope {
    pub name: String,
    pub presentation_hint: Option<String>,
    pub variables_reference: usize,
    /// Its variables take long to fetch.
    pub expensive: bool,
}

} // verus!
