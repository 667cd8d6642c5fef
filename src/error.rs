use vstd::prelude::*;

verus! {

/// `std::io::Error`, carried through opaquely by [`Error::FailedReadingInput`].
#[verifier::external_type_specification]
#[verifier::external_body]
pub struct ExIoError(std::io::Error);

/// Native return code of a successful ODBC call.
pub const SQL_SUCCESS: i16 = 0;

/// Native return code of a successful ODBC call that left warnings behind.
pub const SQL_SUCCESS_WITH_INFO: i16 = 1;

/// Native return code of a failed ODBC call.
pub const SQL_ERROR: i16 = -1;

/// Index of the diagnostic record that describes a failed call (records count from one).
pub const FIRST_RECORD: i16 = 1;

/// A diagnostic record that the driver attached to a handle.
#[derive(Clone, Debug, PartialEq, Eq, Default)]
pub struct DiagnosticRecord {
    /// The five character SQLSTATE code.
    pub state: [u8; 5],
    /// Error code specific to the data source.
    pub native_error: i32,
    /// The diagnostic message text.
    pub message: Vec<u8>,
}

/// Error type used to indicate that a low level ODBC call returned with `SQL_ERROR`.
#[derive(Debug)]
pub enum Error {
    /// No diagnostics available. This is usually the case if allocation of the ODBC environment
    /// itself fails: then no object exists to obtain the diagnostic record from.
    NoDiagnostics,
    /// A low level ODBC call failed; the diagnostic record obtained for it is attached.
    Diagnostics(DiagnosticRecord),
    /// A user dialog to complete the connection string has been aborted.
    AbortedConnectionStringCompletion,
    /// The driver manager does not support the required ODBC version; the diagnostic record
    /// returned when setting it explains why.
    OdbcApiVersionUnsupported(DiagnosticRecord),
    /// Sending data to the database at statement execution time failed.
    FailedReadingInput(std::io::Error),
}

/// The outcome an ODBC call reports through its return code.
#[derive(Clone, Copy, Debug, PartialEq, Eq)]
pub enum CallOutcome {
    Success,
    SuccessWithInfo,
    Error,
}

/// What to do next while turning a call outcome into a result.
#[derive(Debug)]
pub enum Step {
    /// Read the diagnostic record with this index from the handle and pass it to
    /// [`after_lookup`].
    LookUpDiagnostic(i16),
    /// Emit the diagnostics of the handle to the log, then return the result.
    LogThenReturn(Result<(), Error>),
    /// Return the result.
    Return(Result<(), Error>),
}

/// The outcome that a native return code stands for, if it is one of the three expected.
pub open spec fn outcome_of_code(code: i16) -> Option<CallOutcome> {
    if code == SQL_SUCCESS {
        Some(CallOutcome::Success)
    } else if code == SQL_SUCCESS_WITH_INFO {
        Some(CallOutcome::SuccessWithInfo)
    } else if code == SQL_ERROR {
        Some(CallOutcome::Error)
    } else {
        None
    }
}

/// First step for an outcome: success returns at once, success with warnings logs them,
/// an error looks up the first diagnostic record.
pub open spec fn classify_step(outcome: CallOutcome) -> Step {
    match outcome {
        CallOutcome::Success => Step::Return(Ok(())),
        CallOutcome::SuccessWithInfo => Step::LogThenReturn(Ok(())),
        CallOutcome::Error => Step::LookUpDiagnostic(FIRST_RECORD),
    }
}

/// Step after the diagnostic lookup of a failed call: a record found is logged and attached
/// to the error; without one the error says so, and nothing is logged.
pub open spec fn lookup_step(found: Option<DiagnosticRecord>) -> Step {
    match found {
        Some(record) => Step::LogThenReturn(Err(Error::Diagnostics(record))),
        None => Step::Return(Err(Error::NoDiagnostics)),
    }
}

/// Number of log emissions a step makes.
pub open spec fn logs_of(step: Step) -> nat {
    match step {
        Step::LogThenReturn(_) => 1,
        _ => 0,
    }
}

/// Number of diagnostic lookups a step makes.
pub open spec fn lookups_of(step: Step) -> nat {
    match step {
        Step::LookUpDiagnostic(_) => 1,
        _ => 0,
    }
}

/// The last step taken for `outcome`, where `found` is what the lookup of the first
/// diagnostic record of the handle gives.
pub open spec fn final_step(outcome: CallOutcome, found: Option<DiagnosticRecord>) -> Step {
    match classify_step(outcome) {
        Step::LookUpDiagnostic(_) => lookup_step(found),
        step => step,
    }
}

/// The result a step returns with (none for a lookup, which is never the last step).
pub open spec fn result_of(step: Step) -> Option<Result<(), Error>> {
    match step {
        Step::LogThenReturn(r) => Some(r),
        Step::Return(r) => Some(r),
        Step::LookUpDiagnostic(_) => None,
    }
}

/// Diagnostic lookups, log emissions and result of classifying `outcome`, where `found` is
/// what the lookup of the first diagnostic record of the handle gives.
pub open spec fn classify_run(outcome: CallOutcome, found: Option<DiagnosticRecord>) -> (
    nat,
    nat,
    Option<Result<(), Error>>,
) {
    let first = classify_step(outcome);
    let last = final_step(outcome, found);
    (lookups_of(first) + lookups_of(last), logs_of(last), result_of(last))
}

impl CallOutcome {
    /// The outcome a native return code stands for; `None` for any code but the three that
    /// ODBC calls report.
    pub fn from_code(code: i16) -> (r: Option<CallOutcome>)
        ensures
            r == outcome_of_code(code),
    {
        if code == SQL_SUCCESS {
            Some(CallOutcome::Success)
        } else if code == SQL_SUCCESS_WITH_INFO {
            Some(CallOutcome::SuccessWithInfo)
        } else if code == SQL_ERROR {
            Some(CallOutcome::Error)
        } else {
            None
        }
    }
}

/// First step in turning the outcome of a call into a result.
pub fn classify(outcome: CallOutcome) -> (r: Step)
    ensures
        r == classify_step(outcome),
{
    match outcome {
        CallOutcome::Success => Step::Return(Ok(())),
        CallOutcome::SuccessWithInfo => Step::LogThenReturn(Ok(())),
        CallOutcome::Error => Step::LookUpDiagnostic(FIRST_RECORD),
    }
}

/// Step that follows the lookup of the diagnostic record of a failed call.
pub fn after_lookup(found: Option<DiagnosticRecord>) -> (r: Step)
    ensures
        r == lookup_step(found),
{
    match found {
        Some(record) => Step::LogThenReturn(Err(Error::Diagnostics(record))),
        None => Step::Return(Err(Error::NoDiagnostics)),
    }
}

/// A successful call returns success, and looks up and logs nothing, whatever the handle holds.
pub proof fn lemma_success_is_silent(found: Option<DiagnosticRecord>)
    ensures
        classify_run(CallOutcome::Success, found).0 == 0,
        classify_run(CallOutcome::Success, found).1 == 0,
        classify_run(CallOutcome::Success, found).2 == Some(Ok::<(), Error>(())),
{
}

/// A call that succeeded with warnings returns success after logging once, and looks
/// nothing up, whatever the handle holds.
pub proof fn lemma_success_with_info_logs_once(found: Option<DiagnosticRecord>)
    ensures
        classify_run(CallOutcome::SuccessWithInfo, found).0 == 0,
        classify_run(CallOutcome::SuccessWithInfo, found).1 == 1,
        classify_run(CallOutcome::SuccessWithInfo, found).2 == Some(Ok::<(), Error>(())),
{
}

/// A failed call looks up the first diagnostic record; where the handle has it, the call
/// logs once and fails with exactly that record attached.
pub proof fn lemma_error_with_record(record: DiagnosticRecord)
    ensures
        classify_step(CallOutcome::Error) == Step::LookUpDiagnostic(1),
        classify_run(CallOutcome::Error, Some(record)).0 == 1,
        classify_run(CallOutcome::Error, Some(record)).1 == 1,
        classify_run(CallOutcome::Error, Some(record)).2 == Some(
            Err::<(), Error>(Error::Diagnostics(record)),
        ),
{
}

/// A failed call whose handle has no diagnostic record fails with `NoDiagnostics`, after
/// one lookup and without logging.
pub proof fn lemma_error_without_record()
    ensures
        classify_step(CallOutcome::Error) == Step::LookUpDiagnostic(1),
        classify_run(CallOutcome::Error, None).0 == 1,
        classify_run(CallOutcome::Error, None).1 == 0,
        classify_run(CallOutcome::Error, None).2 == Some(Err::<(), Error>(Error::NoDiagnostics)),
{
}

/// A handle that the driver attaches diagnostic records to.
pub trait AsHandle {
    /// The diagnostic record with the given index (counting from one), if there is one.
    fn diagnostic_record(&self, index: i16) -> Option<DiagnosticRecord>;

    /// Emits the diagnostic records of the handle to the log, as far as that is possible.
    fn log_diagnostics(&self);
}

/// Turns the outcome of a native call into a result.
pub trait IntoResult {
    /// Success, or the error of the call with the diagnostics the handle gives for it.
    fn into_result<H: AsHandle>(self, handle: &H) -> Result<(), Error>;
}

impl IntoResult for CallOutcome {
    /// Runs the steps of [`classify`] and [`after_lookup`] against the handle.
    fn into_result<H: AsHandle>(self, handle: &H) -> (r: Result<(), Error>)
        ensures
            exists|found: Option<DiagnosticRecord>| #[trigger]
                result_of(final_step(self, found)) == Some(r),
    {
        let mut step = classify(self);
        let ghost mut found: Option<DiagnosticRecord> = None;
        if let Step::LookUpDiagnostic(index) = step {
            let record = handle.diagnostic_record(index);
            proof {
                found = record;
            }
            step = after_lookup(record);
        }
        assert(step == final_step(self, found));
        let r = match step {
            Step::LogThenReturn(r) => {
                handle.log_diagnostics();
                r
            },
            Step::Return(r) => r,
            Step::LookUpDiagnostic(_) => unreached(),
        };
        assert(result_of(final_step(self, found)) == Some(r));
        r
    }
}

} // verus!
