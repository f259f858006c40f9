use lazymd::cli::{CELL_SIZE_HELP, LOG_LEVEL_HELP, LogLevel, parse_cell_size, parse_log_level};

#[test]
fn cell_size_parses() {
    let size = parse_cell_size("12x26").unwrap();
    assert_eq!((size.width, size.height), (12, 26));
}

#[test]
fn malformed_cell_sizes_are_errors() {
    for bad in ["0x20", "10x0", "abc", "10", "10x", "x20", "-1x20", "10x20x3"] {
        assert!(parse_cell_size(bad).is_err(), "{bad} should be rejected");
    }
}

#[test]
fn cell_size_accepts_a_plus_sign_and_rejects_overflow() {
    let size = parse_cell_size("+7x65535").unwrap();
    assert_eq!((size.width, size.height), (7, 65535));
    assert_eq!(parse_cell_size("7x65536").unwrap_err(), CELL_SIZE_HELP);
    assert!(parse_cell_size("+x2").is_err());
}

#[test]
fn log_levels_parse_in_any_case() {
    assert_eq!(parse_log_level("debug"), Ok(LogLevel::Debug));
    assert_eq!(parse_log_level("TRACE"), Ok(LogLevel::Trace));
    assert_eq!(parse_log_level("Off"), Ok(LogLevel::Off));
    assert_eq!(parse_log_level("info"), Ok(LogLevel::Info));
    assert_eq!(parse_log_level("warn"), Ok(LogLevel::Warn));
    assert_eq!(parse_log_level("error"), Ok(LogLevel::Error));
}

#[test]
fn bad_log_level_is_an_error() {
    assert_eq!(parse_log_level("loud"), Err(LOG_LEVEL_HELP.to_string()));
    assert!(parse_log_level("").is_err());
    assert!(parse_log_level("debugx").is_err());
}
