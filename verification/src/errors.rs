//! What the compiler reports when it refuses a program.

use vstd::prelude::*;
use vstd::pervasive::cloned;
use crate::syntax::Name;

verus! {

/// A violation found in a program, with the annotation of the place.
#[derive(Debug, PartialEq, Eq)]
pub enum CompileErr<Span> {
    UnboundVariable { unbound: String, location: Span },
    UndefinedFunction { undefined: String, location: Span },
    /// The location is that of the `let` that holds the two bindings.
    DuplicateBinding { duplicated_name: String, location: Span },
    Overflow { num: i64, location: Span },
    DuplicateFunName {
        duplicated_name: String,
        location: Span,  // the location of the group of functions
    },
    DuplicateArgName { duplicated_name: String, location: Span },
}

/// The kind of a violation and what it is about, without the place.
pub enum Violation {
    UnboundVariable(Name),
    UndefinedFunction(Name),
    DuplicateBinding(Name),
    Overflow(i64),
    DuplicateFunName(Name),
    DuplicateArgName(Name),
}

impl<Span> CompileErr<Span> {
    /// The kind of this error and what it is about.
    pub open spec fn violation(&self) -> Violation {
        match self {
            CompileErr::UnboundVariable { unbound, .. } => Violation::UnboundVariable(unbound@),
            CompileErr::UndefinedFunction { undefined, .. } => Violation::UndefinedFunction(
                undefined@,
            ),
            CompileErr::DuplicateBinding { duplicated_name, .. } => Violation::DuplicateBinding(
                duplicated_name@,
            ),
            CompileErr::Overflow { num, .. } => Violation::Overflow(*num),
            CompileErr::DuplicateFunName { duplicated_name, .. } => Violation::DuplicateFunName(
                duplicated_name@,
            ),
            CompileErr::DuplicateArgName { duplicated_name, .. } => Violation::DuplicateArgName(
                duplicated_name@,
            ),
        }
    }

    /// The annotation of the place of this error.
    pub open spec fn location(&self) -> Span {
        match self {
            CompileErr::UnboundVariable { location, .. } => *location,
            CompileErr::UndefinedFunction { location, .. } => *location,
            CompileErr::DuplicateBinding { location, .. } => *location,
            CompileErr::Overflow { location, .. } => *location,
            CompileErr::DuplicateFunName { location, .. } => *location,
            CompileErr::DuplicateArgName { location, .. } => *location,
        }
    }
}

/// Whether a result reports exactly the expected violation, or none where
/// none is expected. The place that an error carries is a clone of the
/// annotation found in the program.
pub open spec fn reports<Span: Clone>(
    r: Result<(), CompileErr<Span>>,
    expected: Option<(Violation, Span)>,
) -> bool {
    match r {
        Ok(_) => expected is None,
        Err(err) => expected matches Some(v) && err.violation() == v.0 && cloned(
            v.1,
            err.location(),
        ),
    }
}

} // verus!
