use anthroforge_core::error::{
    anthroforge_last_error, clear_last_error, set_last_error, LastError,
};

#[test]
fn no_error_by_default_returns_null() {
    assert!(anthroforge_last_error(&LastError::new()).is_none());
}

#[test]
fn set_then_get_roundtrips_message() {
    let mut slot = LastError::new();
    clear_last_error(&mut slot);
    set_last_error(&mut slot, "something specific went wrong".to_string());
    assert_eq!(anthroforge_last_error(&slot), Some("something specific went wrong"));
}

#[test]
fn clear_removes_previous_error() {
    let mut slot = LastError::new();
    set_last_error(&mut slot, "some earlier failure".to_string());
    assert!(anthroforge_last_error(&slot).is_some());
    clear_last_error(&mut slot);
    assert!(anthroforge_last_error(&slot).is_none());
}

#[test]
fn second_set_overwrites_first_without_leaking_old_message() {
    let mut slot = LastError::new();
    set_last_error(&mut slot, "first failure".to_string());
    set_last_error(&mut slot, "second failure".to_string());
    assert_eq!(anthroforge_last_error(&slot), Some("second failure"));
}

#[test]
fn embedded_nul_byte_does_not_panic() {
    let mut slot = LastError::new();
    set_last_error(&mut slot, "bad \0 message".to_string());
    assert_eq!(
        anthroforge_last_error(&slot),
        Some("<error message omitted: contained an embedded NUL byte>")
    );
}

#[test]
fn error_is_thread_local() {
    let mut here = LastError::new();
    let elsewhere = LastError::new();
    set_last_error(&mut here, "set on the main test thread".to_string());
    assert!(anthroforge_last_error(&elsewhere).is_none());
    assert!(anthroforge_last_error(&here).is_some());
}
