use blueprint_markup::trace::{compilation_error, Error, ErrorKind, WithContext};

#[test]
fn new_error_has_no_frames() {
    let e = Error::new(ErrorKind::IO, "disk");
    assert!(matches!(e.kind, ErrorKind::IO));
    assert_eq!(e.reason, "disk");
    assert!(e.backtrace.is_empty());
}

#[test]
fn msg_replaces_the_reason() {
    let e = Error::new(ErrorKind::Parsing, "a").msg("b");
    assert!(matches!(e.kind, ErrorKind::Parsing));
    assert_eq!(e.reason, "b");
}

#[test]
fn compilation_error_kind() {
    let e = compilation_error("bad");
    assert!(matches!(e.kind, ErrorKind::Compilation));
    assert_eq!(e.reason, "bad");
}

#[test]
fn context_frames_are_appended() {
    let r: Result<u8, Error> = Err(Error::new(ErrorKind::IO, "x"));
    let e = r.ctx("inner".to_string()).ctx("outer".to_string()).unwrap_err();
    assert_eq!(e.backtrace, vec!["inner".to_string(), "outer".to_string()]);
    let ok: Result<u8, Error> = Ok(3);
    assert_eq!(ok.ctx("unused".to_string()).unwrap(), 3);
}

#[test]
fn missing_value_becomes_unknown_error() {
    let e = None::<u8>.ctx("looking".to_string()).unwrap_err();
    assert!(matches!(e.kind, ErrorKind::Unknown));
    assert_eq!(e.reason, "Missing expected value");
    assert_eq!(e.backtrace, vec!["looking".to_string()]);
    assert_eq!(Some(1).ctx("x".to_string()).unwrap(), 1);
}

#[test]
fn report_text_lists_frames_outermost_first() {
    let r: Result<u8, Error> = Err(Error::new(ErrorKind::Parsing, "bad tag"));
    let e = r.ctx("inner".to_string()).ctx("outer".to_string()).unwrap_err();
    assert_eq!(e.to_text(), "\n[PARSING ERROR] bad tag\nBacktrace:\nouter\ninner\n");
    assert_eq!(Error::new(ErrorKind::Memory, "m").to_text(), "\n[MEMORY ERROR] m\nBacktrace:\n");
    assert_eq!(ErrorKind::Compilation.label(), "COMPILATION");
}
