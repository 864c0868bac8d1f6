//! Type expressions, for analyses that infer the types of declarations.

use vstd::prelude::*;

verus! {

/// A type: a named type, or a function type from parameter types to a result type.
pub enum TypeExpr {
    Identifier(String),
    Function(Vec<TypeExpr>, Box<TypeExpr>),
}

} // verus!
