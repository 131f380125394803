use runner::RunnerError;

#[test]
fn error_text_names_the_kind() {
    assert_eq!(RunnerError::Io("no such file".to_string()).to_string(), "io error: no such file");
    assert_eq!(RunnerError::Parse("bad line".to_string()).to_string(), "parse error: bad line");
    assert_eq!(RunnerError::Chan("closed".to_string()).to_string(), "chan error: closed");
    assert_eq!(RunnerError::Join.to_string(), "thread join error");
}

#[test]
fn errors_compare_by_kind_and_message() {
    assert_eq!(RunnerError::Io("a".to_string()), RunnerError::Io("a".to_string()));
    assert_ne!(RunnerError::Io("a".to_string()), RunnerError::Parse("a".to_string()));
    assert_ne!(RunnerError::Io("a".to_string()), RunnerError::Io("b".to_string()));
    assert_eq!(RunnerError::Join.clone(), RunnerError::Join);
}
