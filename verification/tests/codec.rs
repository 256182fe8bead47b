use kvstore::kv::KV;

#[test]
fn encode_put_with_expiry() {
    let rec = KV::put_record("k".to_string(), vec![104, 105], Some(5));
    assert_eq!(
        rec.encode(),
        "{\"op\":\"set\",\"key\":\"k\",\"value\":[104,105],\"expires_at\":5}"
    );
}

#[test]
fn encode_put_without_expiry() {
    let rec = KV::put_record("k".to_string(), vec![0, 255], None);
    assert_eq!(rec.encode(), "{\"op\":\"set\",\"key\":\"k\",\"value\":[0,255]}");
}

#[test]
fn encode_put_empty_value() {
    let rec = KV::put_record("k".to_string(), vec![], None);
    assert_eq!(rec.encode(), "{\"op\":\"set\",\"key\":\"k\",\"value\":[]}");
}

#[test]
fn encode_delete() {
    let rec = KV::del_record("gone".to_string());
    assert_eq!(rec.encode(), "{\"op\":\"del\",\"key\":\"gone\"}");
}

#[test]
fn encode_escapes_key() {
    let rec = KV::put_record("a\"b\\c\nd".to_string(), vec![1], None);
    assert_eq!(
        rec.encode(),
        "{\"op\":\"set\",\"key\":\"a\\\"b\\\\c\\u000ad\",\"value\":[1]}"
    );
}

#[test]
fn decode_put_with_expiry() {
    let rec = KV::decode_line("{\"op\":\"set\",\"key\":\"k\",\"value\":[104,105],\"expires_at\":5}")
        .expect("line must parse");
    assert_eq!(
        rec.encode(),
        "{\"op\":\"set\",\"key\":\"k\",\"value\":[104,105],\"expires_at\":5}"
    );
}

#[test]
fn decode_delete() {
    let rec = KV::decode_line("{\"op\":\"del\",\"key\":\"gone\"}").expect("line must parse");
    assert_eq!(rec.encode(), "{\"op\":\"del\",\"key\":\"gone\"}");
}

#[test]
fn escaped_key_round_trips() {
    let key = "quote\" backslash\\ tab\t end";
    let rec = KV::put_record(key.to_string(), vec![9, 8, 7], Some(123));
    let line = rec.encode();
    let back = KV::decode_line(&line).expect("own encoding must parse");
    assert_eq!(back.encode(), line);
}

#[test]
fn unicode_key_round_trips() {
    let key = "clé \u{263a} ключ";
    let rec = KV::put_record(key.to_string(), vec![42], None);
    let line = rec.encode();
    let back = KV::decode_line(&line).expect("own encoding must parse");
    assert_eq!(back.encode(), line);
}

#[test]
fn short_escapes_are_accepted() {
    // Other JSON writers emit \t, \n, \b, \f, \r for those controls; the
    // decoder reads them back to the same keys this library would escape as
    // \u00xx forms.
    let rec = KV::decode_line("{\"op\":\"set\",\"key\":\"a\\tb\",\"value\":[1]}")
        .expect("tab escape must parse");
    assert_eq!(
        rec.encode(),
        KV::put_record("a\tb".to_string(), vec![1], None).encode()
    );
    let rec = KV::decode_line("{\"op\":\"del\",\"key\":\"x\\ny\\r\\b\\f\"}")
        .expect("short escapes must parse");
    assert_eq!(
        rec.encode(),
        KV::del_record("x\ny\r\u{8}\u{c}".to_string()).encode()
    );
}

#[test]
fn malformed_lines_are_rejected() {
    for line in [
        "",
        "not json",
        "{\"op\":\"set\"}",
        "{\"op\":\"put\",\"key\":\"k\",\"value\":[]}",
        "{\"op\":\"set\",\"key\":\"k\"}",
        "{\"op\":\"set\",\"key\":\"k\",\"value\":[256]}",
        "{\"op\":\"set\",\"key\":\"k\",\"value\":[01]}",
        "{\"op\":\"set\",\"key\":\"k\",\"value\":[1,]}",
        "{\"op\":\"set\",\"key\":\"k\",\"value\":[1]",
        "{\"op\":\"set\",\"key\":\"k\",\"value\":[1]} ",
        "{\"op\":\"set\",\"key\":\"k\",\"value\":[1],\"expires_at\":}",
        "{\"op\":\"set\",\"key\":\"k\",\"value\":[1],\"expires_at\":18446744073709551616}",
        "{\"op\":\"del\",\"key\":\"k\",\"value\":[1]}",
        "{\"op\":\"set\",\"key\":\"a\\qb\",\"value\":[1]}",
        "{\"op\":\"del\",\"key\":\"k\"",
    ] {
        assert!(KV::decode_line(line).is_none(), "must reject: {}", line);
    }
}

#[test]
fn largest_expiry_round_trips() {
    let rec = KV::put_record("k".to_string(), vec![1], Some(u64::MAX));
    let line = rec.encode();
    assert_eq!(
        line,
        "{\"op\":\"set\",\"key\":\"k\",\"value\":[1],\"expires_at\":18446744073709551615}"
    );
    assert!(KV::decode_line(&line).is_some());
}

#[test]
fn replay_skips_malformed_lines() {
    let lines = vec![
        "{\"op\":\"set\",\"key\":\"a\",\"value\":[49]}".to_string(),
        "garbage line".to_string(),
        "{\"op\":\"set\",\"key\":\"b\",\"value\":[50]}".to_string(),
    ];
    let index = KV::load_to_mem(&lines, 0);
    assert!(index.get(&"a".to_string()).is_some());
    assert!(index.get(&"b".to_string()).is_some());
}
