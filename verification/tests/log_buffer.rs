use tuirunner::runner::LogBuffer;

#[test]
fn test_push_and_clear_update_contents_and_version() {
    let mut buffer = LogBuffer::default();

    buffer.push("first".to_string());
    buffer.push("second".to_string());
    assert_eq!(buffer.lines, ["first", "second"]);
    assert_eq!(buffer.version, 2);
    assert_eq!(buffer.len(), 2);

    buffer.clear();
    assert!(buffer.lines.is_empty());
    assert_eq!(buffer.version, 3);
}

#[test]
fn version_wraps_at_the_top() {
    let mut buffer = LogBuffer { lines: Vec::new(), version: usize::MAX };
    buffer.push("x".to_string());
    assert_eq!(buffer.version, 0);
    assert_eq!(buffer.lines, ["x"]);
}

#[test]
fn every_mutation_changes_the_version() {
    let mut buffer = LogBuffer::default();
    let v0 = buffer.version;
    buffer.clear();
    assert_ne!(buffer.version, v0);
    let v1 = buffer.version;
    buffer.push("a".to_string());
    assert_ne!(buffer.version, v1);
    assert_eq!(buffer.len(), 1);
}

#[test]
fn a_copy_is_stale_once_the_log_changes() {
    let mut buffer = LogBuffer::default();
    assert!(buffer.stale_copy(None));
    let copy = buffer.clone();
    assert!(!buffer.stale_copy(Some(&copy)));
    buffer.push("x".to_string());
    assert!(buffer.stale_copy(Some(&copy)));
}
