use vstd::prelude::*;

use crate::ast::meta::SourceRef;

verus! {

/// The errors the analyses report.
#[derive(Debug)]
#[allow(inconsistent_fields)]
pub enum MerakError {
    NameResolution { message: String },
    SemanticError(String),
    ConstraintSolvingFailed { message: String },
    StorageAccessAfterExternalCall {
        operation: String,
        location_name: String,
        access_point: SourceRef,
        call_point: SourceRef,
    },
    WriteToImmutable { location_name: String, write_point: SourceRef },
    TypeMismatch { expected: String, found: String, source_ref: SourceRef },
    ArityMismatch { name: String, expected: usize, found: usize, source_ref: SourceRef },
    UndefinedVariable { name: String, source_ref: SourceRef },
    UndefinedFunction { name: String, source_ref: SourceRef },
    UndefinedMethod { method: String, contract: String, source_ref: SourceRef },
    NotCallable { name: String, source_ref: SourceRef },
    MemberCallOnNonContract { found: String, source_ref: SourceRef },
    FunctionRedefinition { name: String, source_ref: SourceRef },
    OldInvalidUse { source_ref: SourceRef },
    /// A name declared twice in one scope and namespace.
    DuplicateSymbol { name: String },
}

} // verus!
