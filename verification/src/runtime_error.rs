use vstd::prelude::*;

verus! {

#[verifier::external_type_specification]
#[verifier::external_body]
pub struct ExIoError(std::io::Error);

#[verifier::external_type_specification]
#[verifier::external_body]
pub struct ExSystemTimeError(std::time::SystemTimeError);

/// The engine's runtime failure taxonomy: each variant wraps the
/// underlying error with a context message naming what was being done.
#[derive(Debug)]
#[allow(inconsistent_fields)]
pub enum RuntimeError {
    GenericError { context: String },
    TryFromIntError { source: std::num::TryFromIntError, context: String },
    IoError { source: std::io::Error, context: String },
    SystemTimeError { source: std::time::SystemTimeError, context: String },
}

impl RuntimeError {
    /// Wrap an integer narrowing failure together with its context
    /// message.
    #[allow(non_snake_case)]
    pub fn TryFromIntError(p_err: std::num::TryFromIntError, p_context: &str) -> (r: Self)
        ensures
            (r matches RuntimeError::TryFromIntError { source, context } && source == p_err
                && context@ == p_context@),
    {
        RuntimeError::TryFromIntError { source: p_err, context: p_context.to_owned() }
    }
}

} // verus!
