use kvstore::command::Command;
use kvstore::index::Index;
use kvstore::kv::{KVResult, KV};

fn put(key: &str, value: &[u8], ttl: Option<u64>) -> Command {
    Command::Put { key: key.to_string(), value: value.to_vec(), ttl }
}

fn run(cmd: &Command, now: u64, index: &mut Index, log: &mut Vec<String>) -> KVResult {
    let step = KV::build(cmd, now, index);
    for line in step.lines() {
        log.push(line);
    }
    step.commit(index);
    let result = step.result();
    match result {
        KVResult::Get { value } => KVResult::Get {
            value: value.clone(),
        },
        KVResult::Put => KVResult::Put,
        KVResult::Delete => KVResult::Delete,
        KVResult::Has { has } => KVResult::Has { has: *has },
        KVResult::Persist => KVResult::Persist,
        KVResult::Touch => KVResult::Touch,
        KVResult::Ttl { remaining } => KVResult::Ttl {
            remaining: *remaining,
        },
    }
}

#[test]
fn round_trip_set_then_get() {
    let mut index = Index::new();
    let mut log = Vec::new();
    run(&put("k", b"v", None), 100, &mut index, &mut log);
    match run(
        &Command::Get {
            key: "k".to_string(),
        },
        100_000,
        &mut index,
        &mut log,
    ) {
        KVResult::Get { value: Some(v) } => {
            assert_eq!(v.value(), &b"v".to_vec());
            assert_eq!(v.expires_at(), None);
        }
        other => panic!("unexpected result: {:?}", other),
    }
}

#[test]
fn replay_equivalence_after_reload() {
    let mut index = Index::new();
    let mut log = Vec::new();
    let now = 500;
    run(&put("a", b"1", None), now, &mut index, &mut log);
    run(&put("b", b"2", None), now, &mut index, &mut log);
    run(&put("a", b"3", None), now, &mut index, &mut log);
    run(
        &Command::Delete {
            key: "b".to_string(),
        },
        now,
        &mut index,
        &mut log,
    );
    let reloaded = KV::load_to_mem(&log, now);
    let a = reloaded.get(&"a".to_string()).expect("a must survive reload");
    assert_eq!(a.value(), &b"3".to_vec());
    assert!(reloaded.get(&"b".to_string()).is_none());
}

#[test]
fn replay_drops_entries_expired_at_reload() {
    let mut index = Index::new();
    let mut log = Vec::new();
    run(&put("k", b"v", Some(10)), 100, &mut index, &mut log);
    // Before the deadline the reloaded store still has the key.
    let early = KV::load_to_mem(&log, 105);
    assert!(early.get(&"k".to_string()).is_some());
    // At the deadline it is gone.
    let late = KV::load_to_mem(&log, 110);
    assert!(late.get(&"k".to_string()).is_none());
}

#[test]
fn lazy_ttl_expires_on_read() {
    let mut index = Index::new();
    let mut log = Vec::new();
    run(&put("k", b"v", Some(1)), 100, &mut index, &mut log);
    // Immediately, the value is there.
    match run(
        &Command::Get {
            key: "k".to_string(),
        },
        100,
        &mut index,
        &mut log,
    ) {
        KVResult::Get { value: Some(v) } => assert_eq!(v.value(), &b"v".to_vec()),
        other => panic!("unexpected result: {:?}", other),
    }
    let log_len_before = log.len();
    // Past the deadline the read reports not-found and appends the delete.
    match run(
        &Command::Get {
            key: "k".to_string(),
        },
        101,
        &mut index,
        &mut log,
    ) {
        KVResult::Get { value: None } => {}
        other => panic!("unexpected result: {:?}", other),
    }
    assert_eq!(log.len(), log_len_before + 1);
    // The key is gone from the index, and Has agrees.
    assert!(index.get(&"k".to_string()).is_none());
    match run(
        &Command::Has {
            key: "k".to_string(),
        },
        102,
        &mut index,
        &mut log,
    ) {
        KVResult::Has { has } => assert!(!has),
        other => panic!("unexpected result: {:?}", other),
    }
}

#[test]
fn persist_removes_expiry() {
    let mut index = Index::new();
    let mut log = Vec::new();
    run(&put("k", b"v", Some(1)), 100, &mut index, &mut log);
    run(
        &Command::Persist {
            key: "k".to_string(),
        },
        100,
        &mut index,
        &mut log,
    );
    match run(
        &Command::Get {
            key: "k".to_string(),
        },
        999_999,
        &mut index,
        &mut log,
    ) {
        KVResult::Get { value: Some(v) } => {
            assert_eq!(v.value(), &b"v".to_vec());
            assert_eq!(v.expires_at(), None);
        }
        other => panic!("unexpected result: {:?}", other),
    }
}

#[test]
fn touch_updates_expiry_without_changing_value() {
    let mut index = Index::new();
    let mut log = Vec::new();
    run(&put("k", b"v", Some(100)), 0, &mut index, &mut log);
    run(
        &Command::Touch {
            key: "k".to_string(),
            ttl: 1,
        },
        10,
        &mut index,
        &mut log,
    );
    // The record the touch appended carries the unchanged value.
    let rec = KV::decode_line(log.last().unwrap()).expect("touch line must parse");
    let line = rec.encode();
    assert_eq!(line, "{\"op\":\"set\",\"key\":\"k\",\"value\":[118],\"expires_at\":11}");
    // Past the fresh deadline the key reads as gone.
    match run(
        &Command::Get {
            key: "k".to_string(),
        },
        11,
        &mut index,
        &mut log,
    ) {
        KVResult::Get { value: None } => {}
        other => panic!("unexpected result: {:?}", other),
    }
}

#[test]
fn delete_of_missing_key_is_a_noop() {
    let mut index = Index::new();
    let mut log = Vec::new();
    match run(
        &Command::Delete {
            key: "missing".to_string(),
        },
        100,
        &mut index,
        &mut log,
    ) {
        KVResult::Delete => {}
        other => panic!("unexpected result: {:?}", other),
    }
    assert!(log.is_empty());
}

#[test]
fn compaction_keeps_live_and_drops_dead() {
    let mut index = Index::new();
    let mut log = Vec::new();
    run(&put("a", b"1", None), 0, &mut index, &mut log);
    run(&put("b", b"2", Some(5)), 0, &mut index, &mut log);
    // At time 10 the entry for b has expired.
    let compacted = KV::compact(&index, 10);
    assert_eq!(compacted.len(), 1);
    let reloaded = KV::load_to_mem(&compacted, 10);
    let a = reloaded.get(&"a".to_string()).expect("a must survive compaction");
    assert_eq!(a.value(), &b"1".to_vec());
    assert_eq!(a.expires_at(), None);
    assert!(reloaded.get(&"b".to_string()).is_none());
}

#[test]
fn end_to_end_set_set_delete_reload() {
    let mut index = Index::new();
    let mut log = Vec::new();
    let now = 7;
    run(&put("a", b"1", None), now, &mut index, &mut log);
    run(&put("b", b"2", None), now, &mut index, &mut log);
    run(
        &Command::Delete {
            key: "a".to_string(),
        },
        now,
        &mut index,
        &mut log,
    );
    assert_eq!(log.len(), 3);
    let reloaded = KV::load_to_mem(&log, now);
    assert!(reloaded.get(&"a".to_string()).is_none());
    let b = reloaded.get(&"b".to_string()).expect("b must survive reload");
    assert_eq!(b.value(), &b"2".to_vec());
}

#[test]
fn ttl_command_reports_remaining_seconds() {
    let mut index = Index::new();
    let mut log = Vec::new();
    run(&put("k", b"v", Some(100)), 40, &mut index, &mut log);
    match run(
        &Command::Ttl {
            key: "k".to_string(),
        },
        100,
        &mut index,
        &mut log,
    ) {
        KVResult::Ttl { remaining } => assert_eq!(remaining, Some(40)),
        other => panic!("unexpected result: {:?}", other),
    }
    // A key without a TTL, and a missing key, both report nothing.
    run(&put("p", b"v", None), 100, &mut index, &mut log);
    match run(
        &Command::Ttl {
            key: "p".to_string(),
        },
        100,
        &mut index,
        &mut log,
    ) {
        KVResult::Ttl { remaining } => assert_eq!(remaining, None),
        other => panic!("unexpected result: {:?}", other),
    }
    match run(
        &Command::Ttl {
            key: "missing".to_string(),
        },
        100,
        &mut index,
        &mut log,
    ) {
        KVResult::Ttl { remaining } => assert_eq!(remaining, None),
        other => panic!("unexpected result: {:?}", other),
    }
}

#[test]
fn touch_of_absent_or_expired_key_is_a_noop() {
    let mut index = Index::new();
    let mut log = Vec::new();
    // Absent key: no record, no deadline stored, even with the largest TTL.
    match run(
        &Command::Touch {
            key: "missing".to_string(),
            ttl: u64::MAX,
        },
        100,
        &mut index,
        &mut log,
    ) {
        KVResult::Touch => {}
        other => panic!("unexpected result: {:?}", other),
    }
    assert!(log.is_empty());
    // Expired key: only the deferred delete of lazy expiry is appended.
    run(&put("k", b"v", Some(1)), 100, &mut index, &mut log);
    match run(
        &Command::Touch {
            key: "k".to_string(),
            ttl: u64::MAX,
        },
        500,
        &mut index,
        &mut log,
    ) {
        KVResult::Touch => {}
        other => panic!("unexpected result: {:?}", other),
    }
    assert_eq!(log.len(), 2);
    assert_eq!(log[1], "{\"op\":\"del\",\"key\":\"k\"}");
    assert!(index.get(&"k".to_string()).is_none());
}

#[test]
fn compaction_emits_one_record_per_live_key() {
    let mut index = Index::new();
    let mut log = Vec::new();
    // Overwrites and deletes inflate the log; compaction reduces it to one
    // record per live key.
    run(&put("a", b"1", None), 0, &mut index, &mut log);
    run(&put("a", b"9", None), 0, &mut index, &mut log);
    run(&put("b", b"2", None), 0, &mut index, &mut log);
    run(&put("c", b"3", Some(5)), 0, &mut index, &mut log);
    run(&put("d", b"4", Some(100)), 0, &mut index, &mut log);
    run(
        &Command::Delete {
            key: "b".to_string(),
        },
        0,
        &mut index,
        &mut log,
    );
    // At time 10, c has expired; a and d are the live keys.
    let compacted = KV::compact(&index, 10);
    assert_eq!(compacted.len(), 2);
    let reloaded = KV::load_to_mem(&compacted, 10);
    assert_eq!(
        reloaded.get(&"a".to_string()).expect("a lives").value(),
        &b"9".to_vec()
    );
    assert_eq!(
        reloaded.get(&"d".to_string()).expect("d lives").expires_at(),
        Some(100)
    );
    assert!(reloaded.get(&"b".to_string()).is_none());
    assert!(reloaded.get(&"c".to_string()).is_none());
}

#[test]
fn time_helpers() {
    assert!(kvstore::time::has_passed(5, 5));
    assert!(kvstore::time::has_passed(5, 6));
    assert!(!kvstore::time::has_passed(6, 5));
    assert_eq!(kvstore::time::time_remaining(10, 4), 6);
    assert_eq!(kvstore::time::time_remaining(10, 10), 0);
}
