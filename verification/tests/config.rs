use kvstore::command::Command;
use kvstore::config::{parse_u64_trimmed, Config};

fn words(ws: &[&str]) -> Vec<String> {
    ws.iter().map(|w| w.to_string()).collect()
}

#[test]
fn parse_u64_accepts_trimmed_decimals() {
    assert_eq!(parse_u64_trimmed("42"), Some(42));
    assert_eq!(parse_u64_trimmed(" 42 \n"), Some(42));
    assert_eq!(parse_u64_trimmed("+7"), Some(7));
    assert_eq!(parse_u64_trimmed("007"), Some(7));
    assert_eq!(parse_u64_trimmed("0"), Some(0));
    assert_eq!(parse_u64_trimmed("18446744073709551615"), Some(u64::MAX));
}

#[test]
fn parse_u64_rejects_everything_else() {
    assert_eq!(parse_u64_trimmed(""), None);
    assert_eq!(parse_u64_trimmed("   "), None);
    assert_eq!(parse_u64_trimmed("+"), None);
    assert_eq!(parse_u64_trimmed("-3"), None);
    assert_eq!(parse_u64_trimmed("4 2"), None);
    assert_eq!(parse_u64_trimmed("12a"), None);
    assert_eq!(parse_u64_trimmed("18446744073709551616"), None);
}

#[test]
fn build_parses_set_with_ttl() {
    let args = words(&["prog", "kvstore", "set", "k", "hello", "10"]);
    let config = Config::build(&args).expect("must parse");
    match config.command {
        Command::Put { key, value, ttl } => {
            assert_eq!(key, "k");
            assert_eq!(value, b"hello".to_vec());
            assert_eq!(ttl, Some(10));
        }
        other => panic!("unexpected command: {:?}", other),
    }
}

#[test]
fn build_set_with_bad_ttl_has_no_ttl() {
    let args = words(&["prog", "kvstore", "set", "k", "v", "soon"]);
    let config = Config::build(&args).expect("must parse");
    match config.command {
        Command::Put { ttl, .. } => assert_eq!(ttl, None),
        other => panic!("unexpected command: {:?}", other),
    }
}

#[test]
fn build_rejects_short_or_unknown_invocations() {
    assert_eq!(
        Config::build(&words(&["prog", "kvstore", "get"])).err(),
        Some("Invalid command structure".to_string())
    );
    assert_eq!(
        Config::build(&words(&["prog", "store", "get", "k"])).err(),
        Some("Invalid command structure".to_string())
    );
    assert_eq!(
        Config::build(&words(&["prog", "kvstore", "set", "k"])).err(),
        Some("Invalid command. Use kvstore set <key> <value>".to_string())
    );
    assert_eq!(
        Config::build(&words(&["prog", "kvstore", "get", "k", "extra"])).err(),
        Some("Invalid command. Use kvstore get <key>".to_string())
    );
    assert_eq!(
        Config::build(&words(&["prog", "kvstore", "touch", "k"])).err(),
        Some("Invalid command. Use kvstore touch <key> <ttl>".to_string())
    );
    assert_eq!(
        Config::build(&words(&["prog", "kvstore", "touch", "k", "soon"])).err(),
        Some("Invalid command. Use kvstore touch <key> <ttl>".to_string())
    );
    assert_eq!(
        Config::build(&words(&["prog", "kvstore", "frobnicate", "k"])).err(),
        Some("Invalid command provided".to_string())
    );
}

#[test]
fn build_parses_each_command_word() {
    let cases: [(&str, fn(&Command) -> bool); 6] = [
        ("get", |c| matches!(c, Command::Get { .. })),
        ("delete", |c| matches!(c, Command::Delete { .. })),
        ("has", |c| matches!(c, Command::Has { .. })),
        ("exists", |c| matches!(c, Command::Has { .. })),
        ("persist", |c| matches!(c, Command::Persist { .. })),
        ("ttl", |c| matches!(c, Command::Ttl { .. })),
    ];
    for (word, check) in cases {
        let config = Config::build(&words(&["prog", "kvstore", word, "k"])).expect(word);
        assert!(check(&config.command), "wrong command for {}", word);
    }
}

#[test]
fn build_with_loop_parses_interactive_words() {
    let config = Config::build_with_loop(&words(&["set", "k", "v", "3"])).expect("must parse");
    match config.command {
        Command::Put { key, value, ttl } => {
            assert_eq!(key, "k");
            assert_eq!(value, b"v".to_vec());
            assert_eq!(ttl, Some(3));
        }
        other => panic!("unexpected command: {:?}", other),
    }
    let config = Config::build_with_loop(&words(&["get", "k"])).expect("must parse");
    assert!(matches!(config.command, Command::Get { .. }));
    let config = Config::build_with_loop(&words(&["touch", "k", "9"])).expect("must parse");
    assert!(matches!(config.command, Command::Touch { ttl: 9, .. }));
}

#[test]
fn build_with_loop_rejects_bad_lines() {
    assert_eq!(
        Config::build_with_loop(&words(&["set", "k"])).err(),
        Some("Invalid command. Use set <key> <value> <ttl, optional>".to_string())
    );
    assert_eq!(
        Config::build_with_loop(&words(&["get", "k", "extra"])).err(),
        Some("Invalid command. Use get <key>".to_string())
    );
    assert_eq!(
        Config::build_with_loop(&words(&["touch", "k"])).err(),
        Some("Invalid command. Use touch <key> <ttl>".to_string())
    );
    assert_eq!(
        Config::build_with_loop(&words(&["nonsense", "k"])).err(),
        Some("Invalid command provided".to_string())
    );
}
