use herdr_terminal::procargs::{environment_for_argc, environment_from_procargs};

#[test]
fn parses_environment_from_procargs() {
    let mut buffer = 2i32.to_ne_bytes().to_vec();
    buffer.extend_from_slice(b"/usr/bin/herdr\0\0\0\0herdr\0--session\0");
    buffer.extend_from_slice(b"KITTY_WINDOW_ID=1\0KITTY_LISTEN_ON=unix:/tmp/a b\0\0junk\0");
    assert_eq!(
        environment_from_procargs(&buffer),
        Some(vec![
            ("KITTY_WINDOW_ID".to_string(), "1".to_string()),
            ("KITTY_LISTEN_ON".to_string(), "unix:/tmp/a b".to_string()),
        ])
    );
}

#[test]
fn rejects_truncated_procargs() {
    assert_eq!(environment_from_procargs(&[1, 0]), None);
    let mut buffer = 3i32.to_ne_bytes().to_vec();
    buffer.extend_from_slice(b"/usr/bin/herdr\0herdr\0");
    assert_eq!(environment_from_procargs(&buffer), None);
}

fn with_argc_bytes(rest: &[u8]) -> Vec<u8> {
    let mut buffer = vec![0xde, 0xad, 0xbe, 0xef];
    buffer.extend_from_slice(rest);
    buffer
}

#[test]
fn takes_the_argument_count_as_given() {
    let buffer = with_argc_bytes(b"/bin/x\0\0a\0b\0A=1\0B=2=3\0NOEQUALS\0=empty\0\0C=4\0");
    assert_eq!(
        environment_for_argc(&buffer, 2),
        Some(vec![
            ("A".to_string(), "1".to_string()),
            ("B".to_string(), "2=3".to_string()),
            ("".to_string(), "empty".to_string()),
        ])
    );
    assert_eq!(environment_for_argc(&buffer, 0), environment_for_argc(&buffer, 2));
    assert_eq!(environment_for_argc(&buffer, -7), environment_for_argc(&buffer, 0));
    assert_eq!(
        environment_for_argc(&buffer, 3),
        Some(vec![
            ("B".to_string(), "2=3".to_string()),
            ("".to_string(), "empty".to_string()),
        ])
    );
    assert_eq!(environment_for_argc(&buffer, 9), Some(Vec::new()));
    assert_eq!(environment_for_argc(&buffer, 10), None);
    assert_eq!(environment_for_argc(&buffer, i32::MAX), None);
}

#[test]
fn reads_environment_up_to_the_end_of_the_buffer() {
    let buffer = with_argc_bytes(b"/bin/x\0arg\0K=v");
    assert_eq!(
        environment_for_argc(&buffer, 1),
        Some(vec![("K".to_string(), "v".to_string())])
    );
    let bare = with_argc_bytes(b"");
    assert_eq!(environment_for_argc(&bare, 0), Some(Vec::new()));
    assert_eq!(environment_for_argc(&bare, 1), None);
}

#[test]
fn replaces_invalid_utf8_in_entries() {
    let buffer = with_argc_bytes(b"/bin/x\0K=\xff\xfeok\0");
    assert_eq!(
        environment_for_argc(&buffer, 0),
        Some(vec![("K".to_string(), "\u{fffd}\u{fffd}ok".to_string())])
    );
}
