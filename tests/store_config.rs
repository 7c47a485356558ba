use redis_lite::config::{unknown_arguments, Config, ConfigError, Role};
use redis_lite::store::{expiry_time, Store};

fn s(x: &str) -> String {
    x.to_string()
}

fn args(words: &[&str]) -> Vec<String> {
    words.iter().map(|w| s(w)).collect()
}

#[test]
fn store_set_get() {
    let mut store = Store::new();
    assert_eq!(store.get(&s("a"), 0), None);
    store.set(s("a"), s("1"), None);
    store.set(s("b"), s("2"), Some(10));
    assert_eq!(store.get(&s("a"), 99), Some(s("1")));
    assert_eq!(store.get(&s("b"), 9), Some(s("2")));
    assert_eq!(store.get(&s("b"), 10), None);
    store.set(s("a"), s("3"), None);
    assert_eq!(store.get(&s("a"), 0), Some(s("3")));
}

#[test]
fn expire_removes_only_due_keys() {
    let mut store = Store::new();
    store.set(s("k"), s("v"), Some(100));
    assert!(!store.expire(&s("k"), 99));
    assert_eq!(store.get(&s("k"), 99), Some(s("v")));
    assert!(store.expire(&s("k"), 100));
    assert!(!store.expire(&s("k"), 100));
    assert!(!store.expire(&s("missing"), 100));
}

#[test]
fn rewritten_key_survives_old_timer() {
    let mut store = Store::new();
    store.set(s("k"), s("old"), Some(50));
    store.set(s("k"), s("new"), None);
    assert!(!store.expire(&s("k"), 50));
    assert_eq!(store.get(&s("k"), 60), Some(s("new")));
    store.set(s("k"), s("later"), Some(200));
    assert!(!store.expire(&s("k"), 60));
    assert_eq!(store.get(&s("k"), 60), Some(s("later")));
}

#[test]
fn expiry_times() {
    assert_eq!(expiry_time(1000, Some(50)), Some(1050));
    assert_eq!(expiry_time(1000, None), None);
    assert_eq!(expiry_time(u64::MAX - 1, Some(5)), None);
}

#[test]
fn config_defaults() {
    let config = Config::parse(&Vec::new()).unwrap();
    assert_eq!(config.port(), "6379");
    assert_eq!(
        config.role(),
        &Role::Master { id: s("8371b4fb1155b71f4a04d3e1bc3e18c4a990aeeb"), offset: 0 }
    );
}

#[test]
fn config_port_and_leader() {
    let config = Config::parse(&args(&["--port", "7000", "--replicaof", "localhost", "6379"])).unwrap();
    assert_eq!(config.port(), "7000");
    assert_eq!(config.role(), &Role::Slave { master: s("localhost:6379") });
}

#[test]
fn config_skips_unknown_arguments() {
    let config = Config::parse(&args(&["--verbose", "--port", "1", "x", "--port", "2"])).unwrap();
    assert_eq!(config.port(), "2");
}

#[test]
fn config_errors() {
    assert_eq!(Config::parse(&args(&["--port"])).err(), Some(ConfigError::MissingPort));
    assert_eq!(Config::parse(&args(&["--replicaof"])).err(), Some(ConfigError::MissingMasterHost));
    assert_eq!(
        Config::parse(&args(&["--replicaof", "host"])).err(),
        Some(ConfigError::MissingMasterPort)
    );
    assert_eq!(ConfigError::MissingPort.message(), "missing port");
    assert_eq!(ConfigError::MissingMasterHost.message(), "missing master host");
    assert_eq!(ConfigError::MissingMasterPort.message(), "missing master port");
}

#[test]
fn unknown_arguments_are_named() {
    let given = args(&["--verbose", "--port", "1", "x", "--replicaof", "h", "2", "y"]);
    assert_eq!(unknown_arguments(&given), args(&["--verbose", "x", "y"]));
    assert!(unknown_arguments(&args(&["--port", "1"])).is_empty());
}
