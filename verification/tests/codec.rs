use kvs::records::{decode_command, encode_command, Command};

fn put(key: &str, value: &str) -> Command {
    Command::Put { key: key.to_owned(), value: value.to_owned() }
}

fn rm(key: &str) -> Command {
    Command::Remove { key: key.to_owned() }
}

fn assert_round_trip(c: &Command) {
    let bytes = encode_command(c);
    let (decoded, end) = decode_command(&bytes, 0).expect("canonical encoding must decode");
    assert_eq!(end, bytes.len());
    match (c, &decoded) {
        (Command::Put { key: k1, value: v1 }, Command::Put { key: k2, value: v2 }) => {
            assert_eq!(k1, k2);
            assert_eq!(v1, v2);
        }
        (Command::Remove { key: k1 }, Command::Remove { key: k2 }) => {
            assert_eq!(k1, k2);
        }
        _ => panic!("decoded the wrong variant"),
    }
}

#[test]
fn record_bytes_are_framed_json() {
    let bytes = encode_command(&put("a", "1"));
    assert_eq!(bytes.as_slice(), br#"{"Set":{"key":"a","value":"1"}}"#);
    let bytes = encode_command(&rm("a"));
    assert_eq!(bytes.as_slice(), br#"{"Remove":{"key":"a"}}"#);
}

#[test]
fn records_round_trip() {
    assert_round_trip(&put("key", "value"));
    assert_round_trip(&rm("key"));
    assert_round_trip(&put("", ""));
    assert_round_trip(&rm(""));
    assert_round_trip(&put("quote\" and \\ slash", "tab\tnewline\ncr\r"));
    assert_round_trip(&put("\u{0}\u{1}\u{1f}", "control bytes"));
    assert_round_trip(&put("ünïcødé κλειδί", "värde 値"));
}

#[test]
fn escapes_match_the_framing() {
    let bytes = encode_command(&put("a\"b", "c\\d"));
    assert_eq!(bytes.as_slice(), br#"{"Set":{"key":"a\"b","value":"c\\d"}}"#);
    let bytes = encode_command(&put("nl", "\n"));
    assert_eq!(bytes.as_slice(), br#"{"Set":{"key":"nl","value":"\u000a"}}"#);
}

#[test]
fn no_strict_prefix_decodes() {
    let bytes = encode_command(&put("some key", "söme välue\n"));
    for cut in 0..bytes.len() {
        let prefix = bytes[..cut].to_vec();
        assert!(decode_command(&prefix, 0).is_none(), "a cut record must not decode");
    }
}

#[test]
fn stream_reports_offsets() {
    let mut log: Vec<u8> = Vec::new();
    let cmds = vec![put("a", "1"), rm("a"), put("b", "two")];
    let mut boundaries = Vec::new();
    for c in &cmds {
        let bytes = encode_command(c);
        boundaries.push((log.len(), bytes.len()));
        log.extend_from_slice(&bytes);
    }
    let mut pos = 0usize;
    for (i, (start, len)) in boundaries.iter().enumerate() {
        assert_eq!(pos, *start);
        let (decoded, end) = decode_command(&log, pos).expect("record must decode");
        assert_eq!(end - pos, *len);
        match (&cmds[i], &decoded) {
            (Command::Put { key: k1, .. }, Command::Put { key: k2, .. }) => assert_eq!(k1, k2),
            (Command::Remove { key: k1 }, Command::Remove { key: k2 }) => assert_eq!(k1, k2),
            _ => panic!("wrong variant at offset {}", pos),
        }
        pos = end;
    }
    assert_eq!(pos, log.len());
    assert!(decode_command(&log, pos).is_none());
}
