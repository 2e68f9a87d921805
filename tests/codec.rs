use kvs::codec::{decode_command, encode_command};
use kvs::{Command, KvStore, KvsError};

fn json_set(k: &str, v: &str) -> Vec<u8> {
    format!(
        "{{\"Set\":{{\"key\":{},\"value\":{}}}}}",
        serde_json::to_string(k).unwrap(),
        serde_json::to_string(v).unwrap()
    )
    .into_bytes()
}

fn json_remove(k: &str) -> Vec<u8> {
    format!("{{\"Remove\":{{\"key\":{}}}}}", serde_json::to_string(k).unwrap()).into_bytes()
}

#[test]
fn set_record_is_compact_json() {
    let b = encode_command(&Command::set("a".to_string(), "1".to_string()));
    assert_eq!(b, b"{\"Set\":{\"key\":\"a\",\"value\":\"1\"}}".to_vec());
    let r = encode_command(&Command::remove("a".to_string()));
    assert_eq!(r, b"{\"Remove\":{\"key\":\"a\"}}".to_vec());
    let r = encode_command(&Command::rm("a".to_string()));
    assert_eq!(r, b"{\"Remove\":{\"key\":\"a\"}}".to_vec());
}

#[test]
fn escapes_match_serde_json() {
    let keys = ["plain", "q\"uote", "back\\slash", "line\nfeed", "tab\t", "bell\u{7}", "\u{1f}", "\u{8}\u{c}\r", "\u{e9} \u{fc} \u{65e5}\u{672c}", "\u{7f}", ""];
    for k in keys.iter() {
        for v in keys.iter() {
            let b = encode_command(&Command::set(k.to_string(), v.to_string()));
            assert_eq!(b, json_set(k, v), "key {:?} value {:?}", k, v);
            match decode_command(&b, 0) {
                Some((Command::Put { key, value }, e)) => {
                    assert_eq!(key, *k);
                    assert_eq!(value, *v);
                    assert_eq!(e, b.len());
                }
                other => panic!("no round trip: {:?}", other),
            }
        }
        let r = encode_command(&Command::remove(k.to_string()));
        assert_eq!(r, json_remove(k));
    }
}

#[test]
fn records_back_to_back_decode_in_turn() {
    let mut log = encode_command(&Command::set("k".to_string(), "v".to_string()));
    let first = log.len();
    log.extend(encode_command(&Command::remove("k".to_string())));
    match decode_command(&log, first) {
        Some((Command::Remove { key }, e)) => {
            assert_eq!(key, "k");
            assert_eq!(e, log.len());
        }
        other => panic!("unexpected {:?}", other),
    }
}

#[test]
fn malformed_records_do_not_decode() {
    for bad in [
        &b""[..],
        &b"{\"Set\":{\"key\":\"a\"}}"[..],
        &b"{\"Set\":{\"key\":\"a\",\"value\":\"1\"}"[..],
        &b"{\"Get\":{\"key\":\"a\"}}"[..],
        &b"{\"Set\":{\"key\":\"a\\q\",\"value\":\"1\"}}"[..],
        &b"{\"Set\":{\"key\":\"a\n\",\"value\":\"1\"}}"[..],
        &b"{\"Set\":{\"key\":\"\\u000a\",\"value\":\"1\"}}"[..],
        &b"{\"Remove\":{\"key\":\"\xff\"}}"[..],
    ] {
        assert!(decode_command(bad, 0).is_none(), "decoded {:?}", String::from_utf8_lossy(bad));
    }
}

#[test]
fn read_value_checks_the_record() {
    let set = encode_command(&Command::set("a".to_string(), "1".to_string()));
    assert_eq!(KvStore::read_value(&set).unwrap(), "1");
    let rm = encode_command(&Command::remove("a".to_string()));
    assert!(matches!(KvStore::read_value(&rm), Err(KvsError::UnexpectedCommandType)));
    assert!(matches!(KvStore::read_value(&set[..set.len() - 1]), Err(KvsError::UnexpectedCommandType)));
    let mut longer = set.clone();
    longer.push(b' ');
    assert!(matches!(KvStore::read_value(&longer), Err(KvsError::UnexpectedCommandType)));
    assert!(matches!(KvStore::read_value(&[0u8]), Err(KvsError::UnexpectedCommandType)));
    assert!(matches!(KvStore::read_value(&[]), Err(KvsError::UnexpectedCommandType)));
}
