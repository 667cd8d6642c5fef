use std::cell::Cell;

use odbc_api::error::{
    after_lookup, classify, AsHandle, CallOutcome, IntoResult, Step, SQL_ERROR, SQL_SUCCESS,
    SQL_SUCCESS_WITH_INFO,
};
use odbc_api::{DiagnosticRecord, Error};

struct FakeHandle {
    record: Option<DiagnosticRecord>,
    lookups: Cell<u32>,
    last_index: Cell<i16>,
    logs: Cell<u32>,
}

impl FakeHandle {
    fn new(record: Option<DiagnosticRecord>) -> FakeHandle {
        FakeHandle { record, lookups: Cell::new(0), last_index: Cell::new(0), logs: Cell::new(0) }
    }
}

impl AsHandle for FakeHandle {
    fn diagnostic_record(&self, index: i16) -> Option<DiagnosticRecord> {
        self.lookups.set(self.lookups.get() + 1);
        self.last_index.set(index);
        self.record.clone()
    }

    fn log_diagnostics(&self) {
        self.logs.set(self.logs.get() + 1);
    }
}

fn sample_record() -> DiagnosticRecord {
    DiagnosticRecord { state: *b"42S02", native_error: 208, message: b"Invalid object name".to_vec() }
}

#[test]
fn codes_map_to_outcomes() {
    assert_eq!(Some(CallOutcome::Success), CallOutcome::from_code(SQL_SUCCESS));
    assert_eq!(Some(CallOutcome::SuccessWithInfo), CallOutcome::from_code(SQL_SUCCESS_WITH_INFO));
    assert_eq!(Some(CallOutcome::Error), CallOutcome::from_code(SQL_ERROR));
    assert_eq!(Some(CallOutcome::Error), CallOutcome::from_code(-1));
    assert_eq!(None, CallOutcome::from_code(2));
    assert_eq!(None, CallOutcome::from_code(100));
    assert_eq!(None, CallOutcome::from_code(-2));
}

#[test]
fn classify_steps() {
    assert!(matches!(classify(CallOutcome::Success), Step::Return(Ok(()))));
    assert!(matches!(classify(CallOutcome::SuccessWithInfo), Step::LogThenReturn(Ok(()))));
    assert!(matches!(classify(CallOutcome::Error), Step::LookUpDiagnostic(1)));
}

#[test]
fn after_lookup_steps() {
    match after_lookup(Some(sample_record())) {
        Step::LogThenReturn(Err(Error::Diagnostics(record))) => assert_eq!(sample_record(), record),
        other => panic!("unexpected step {:?}", other),
    }
    assert!(matches!(after_lookup(None), Step::Return(Err(Error::NoDiagnostics))));
}

#[test]
fn success_is_silent() {
    let handle = FakeHandle::new(Some(sample_record()));
    assert!(CallOutcome::Success.into_result(&handle).is_ok());
    assert_eq!(0, handle.lookups.get());
    assert_eq!(0, handle.logs.get());
}

#[test]
fn success_with_info_logs_once() {
    let handle = FakeHandle::new(Some(sample_record()));
    assert!(CallOutcome::SuccessWithInfo.into_result(&handle).is_ok());
    assert_eq!(0, handle.lookups.get());
    assert_eq!(1, handle.logs.get());
}

#[test]
fn error_with_record_attaches_it() {
    let handle = FakeHandle::new(Some(sample_record()));
    match CallOutcome::Error.into_result(&handle) {
        Err(Error::Diagnostics(record)) => assert_eq!(sample_record(), record),
        other => panic!("unexpected result {:?}", other),
    }
    assert_eq!(1, handle.lookups.get());
    assert_eq!(1, handle.last_index.get());
    assert_eq!(1, handle.logs.get());
}

#[test]
fn error_without_record_has_no_diagnostics() {
    let handle = FakeHandle::new(None);
    assert!(matches!(CallOutcome::Error.into_result(&handle), Err(Error::NoDiagnostics)));
    assert_eq!(1, handle.lookups.get());
    assert_eq!(0, handle.logs.get());
}
