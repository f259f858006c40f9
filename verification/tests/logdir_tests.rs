use lazymd::logdir::log_dir_from;

fn some(s: &str) -> Option<String> {
    Some(s.to_string())
}

#[test]
fn the_state_directory_comes_first() {
    assert_eq!(log_dir_from(some("/state"), some("/home/u"), None), some("/state/lazymd"));
}

#[test]
fn home_is_the_fallback_and_relative_values_are_skipped() {
    assert_eq!(log_dir_from(some("relative"), some("/home/u"), None), some("/home/u/.local/state/lazymd"));
    assert_eq!(log_dir_from(None, some("/home/u"), some("/local")), some("/home/u/.local/state/lazymd"));
}

#[test]
fn the_local_app_data_is_the_last_resort() {
    assert_eq!(log_dir_from(None, some("home"), some("/local")), some("/local/lazymd"));
    assert_eq!(log_dir_from(None, None, None), None);
    assert_eq!(log_dir_from(some("a"), some("b"), some("c")), None);
}
