//! The outcome of a test run.
use vstd::prelude::*;

verus! {

/// What a test run printed, and whether it passed.
pub struct TestResult {
    pub success: bool,
    pub stdout: String,
    pub stderr: String,
}

/// A test or coverage run that did not pass.
#[derive(PartialEq, Eq, Structural)]
pub enum QualityError {
    TestsFailed,
    CoverageFailed,
}

impl QualityError {
    pub fn message(&self) -> (r: String)
        ensures
            *self == QualityError::TestsFailed ==> r@ == "tests failed"@,
            *self == QualityError::CoverageFailed ==> r@ == "coverage failed"@,
    {
        match self {
            QualityError::TestsFailed => crate::text::copy_text("tests failed"),
            QualityError::CoverageFailed => crate::text::copy_text("coverage failed"),
        }
    }
}

/// Succeeds exactly when the tests passed.
pub fn ensure_success(result: &TestResult) -> (r: Result<(), QualityError>)
    ensures
        r is Ok <==> result.success,
        r is Err ==> r == Err::<(), QualityError>(QualityError::TestsFailed),
{
    if result.success {
        Ok(())
    } else {
        Err(QualityError::TestsFailed)
    }
}

/// Succeeds exactly when the coverage run passed.
pub fn ensure_coverage_success(success: bool) -> (r: Result<(), QualityError>)
    ensures
        r is Ok <==> success,
        r is Err ==> r == Err::<(), QualityError>(QualityError::CoverageFailed),
{
    if success {
        Ok(())
    } else {
        Err(QualityError::CoverageFailed)
    }
}

} // verus!
