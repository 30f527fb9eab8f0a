use got::kvlm::{kvlm_parser, kvlm_serialize, KvlmError};

fn entry(k: &str, v: &str) -> (Vec<u8>, Vec<u8>) {
    (k.as_bytes().to_vec(), v.as_bytes().to_vec())
}

#[test]
fn single_header_and_message() {
    let text = b"tree abc123\n\nhello\n";
    let parsed = kvlm_parser(text).unwrap();
    assert_eq!(parsed, vec![entry("tree", "abc123"), entry("", "hello\n")]);
    assert_eq!(kvlm_serialize(&parsed), text.to_vec());
}

#[test]
fn repeated_keys_keep_order() {
    let text = b"tree 1660685a\nparent 52f5c834\nparent 9a8b7c6d\nauthor A U Thor <a@b.c> 1666772992 +0100\n\nMerge\n";
    let parsed = kvlm_parser(text).unwrap();
    assert_eq!(
        parsed,
        vec![
            entry("tree", "1660685a"),
            entry("parent", "52f5c834"),
            entry("parent", "9a8b7c6d"),
            entry("author", "A U Thor <a@b.c> 1666772992 +0100"),
            entry("", "Merge\n"),
        ]
    );
    assert_eq!(kvlm_serialize(&parsed), text.to_vec());
}

#[test]
fn message_with_blank_lines_is_verbatim() {
    let text = b"tree abc\n\nfirst paragraph\n\n\nsecond paragraph\nkey value\n";
    let parsed = kvlm_parser(text).unwrap();
    assert_eq!(
        parsed,
        vec![entry("tree", "abc"), entry("", "first paragraph\n\n\nsecond paragraph\nkey value\n")]
    );
    assert_eq!(kvlm_serialize(&parsed), text.to_vec());
}

#[test]
fn continuation_lines_fold_into_value() {
    let text = b"gpgsig -----BEGIN-----\n line two\n  indented\nparent p\n\nmsg";
    let parsed = kvlm_parser(text).unwrap();
    assert_eq!(
        parsed,
        vec![
            entry("gpgsig", "-----BEGIN-----\nline two\n indented"),
            entry("parent", "p"),
            entry("", "msg"),
        ]
    );
    assert_eq!(kvlm_serialize(&parsed), text.to_vec());
}

#[test]
fn empty_message_and_no_headers() {
    assert_eq!(kvlm_parser(b"\n").unwrap(), vec![entry("", "")]);
    assert_eq!(kvlm_parser(b"\nbody").unwrap(), vec![entry("", "body")]);
}

#[test]
fn missing_newline_is_truncated() {
    assert_eq!(kvlm_parser(b""), Err(KvlmError::Truncated));
    assert_eq!(kvlm_parser(b"tree abc"), Err(KvlmError::Truncated));
    assert_eq!(kvlm_parser(b"tree abc\nparent def"), Err(KvlmError::Truncated));
}

#[test]
fn leading_continuation_is_rejected() {
    assert_eq!(kvlm_parser(b" stray\n\nmsg"), Err(KvlmError::DanglingContinuation));
}

#[test]
fn serialize_escapes_newlines_in_values() {
    let es = vec![entry("k", "a\nb"), entry("", "m\n")];
    assert_eq!(kvlm_serialize(&es), b"k a\n b\n\nm\n".to_vec());
    assert_eq!(kvlm_parser(&kvlm_serialize(&es)).unwrap(), es);
}
