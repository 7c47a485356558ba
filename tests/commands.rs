use redis_lite::command::{info, query, run, Argument, Command, CommandError, CommandName};
use redis_lite::config::{Config, Role};
use redis_lite::resp::Data;
use redis_lite::store::Store;

const ID: &str = "8371b4fb1155b71f4a04d3e1bc3e18c4a990aeeb";

fn bulk(s: &str) -> Data {
    Data::BulkString(Some(s.to_string()))
}

fn request(words: &[&str]) -> Data {
    Data::Array(words.iter().map(|w| bulk(w)).collect())
}

fn master() -> Config {
    Config::parse(&Vec::new()).unwrap()
}

fn command(words: &[&str]) -> Result<Command, CommandError> {
    Command::try_from(request(words))
}

#[test]
fn ping_commands() {
    assert_eq!(command(&["PING"]), Ok(Command::Ping { message: None }));
    assert_eq!(command(&["ping", "hi"]), Ok(Command::Ping { message: Some("hi".to_string()) }));
    assert_eq!(
        Command::try_from(Data::Array(vec![bulk("PING"), Data::BulkString(None)])),
        Ok(Command::Ping { message: None })
    );
    assert_eq!(command(&["PING", "a", "b"]), Err(CommandError::WrongArity(CommandName::Ping)));
}

#[test]
fn names_ignore_case() {
    assert_eq!(command(&["PiNg"]), Ok(Command::Ping { message: None }));
    assert_eq!(command(&["gEt", "k"]), Ok(Command::Get { key: "k".to_string() }));
}

#[test]
fn echo_commands() {
    assert_eq!(command(&["ECHO", "hey"]), Ok(Command::Echo { message: "hey".to_string() }));
    assert_eq!(command(&["ECHO"]), Err(CommandError::WrongArity(CommandName::Echo)));
    assert_eq!(
        Command::try_from(Data::Array(vec![bulk("ECHO"), Data::BulkString(None)])),
        Err(CommandError::NilArgument(Argument::Message))
    );
}

#[test]
fn set_commands() {
    assert_eq!(
        command(&["SET", "foo", "bar"]),
        Ok(Command::SetValue { key: "foo".to_string(), value: "bar".to_string(), ttl: None })
    );
    assert_eq!(
        command(&["set", "foo", "bar", "px", "100"]),
        Ok(Command::SetValue { key: "foo".to_string(), value: "bar".to_string(), ttl: Some(100) })
    );
    assert_eq!(
        command(&["SET", "foo", "bar", "PX", "100", "ignored"]),
        Ok(Command::SetValue { key: "foo".to_string(), value: "bar".to_string(), ttl: Some(100) })
    );
}

#[test]
fn set_errors() {
    assert_eq!(command(&["SET", "foo"]), Err(CommandError::WrongArity(CommandName::SetValue)));
    assert_eq!(command(&["SET", "foo", "bar", "PX"]), Err(CommandError::SyntaxError));
    assert_eq!(command(&["SET", "foo", "bar", "PX", "soon"]), Err(CommandError::TtlNotInteger));
    assert_eq!(command(&["SET", "foo", "bar", "PX", "-5"]), Err(CommandError::TtlNotInteger));
    assert_eq!(command(&["SET", "foo", "bar", "EX", "5"]), Err(CommandError::UnknownOption));
    let nil_ttl = Data::Array(vec![bulk("SET"), bulk("k"), bulk("v"), bulk("PX"), Data::BulkString(None)]);
    assert_eq!(Command::try_from(nil_ttl), Err(CommandError::NilArgument(Argument::Ttl)));
    let nil_key = Data::Array(vec![bulk("SET"), Data::BulkString(None), bulk("v")]);
    assert_eq!(Command::try_from(nil_key), Err(CommandError::NilArgument(Argument::Key)));
    let nil_value = Data::Array(vec![bulk("SET"), bulk("k"), Data::BulkString(None)]);
    assert_eq!(Command::try_from(nil_value), Err(CommandError::NilArgument(Argument::Value)));
    let number_key = Data::Array(vec![bulk("SET"), Data::Integer(1), bulk("v")]);
    assert_eq!(Command::try_from(number_key), Err(CommandError::InvalidCommand));
}

#[test]
fn get_commands() {
    assert_eq!(command(&["GET", "foo"]), Ok(Command::Get { key: "foo".to_string() }));
    assert_eq!(command(&["GET"]), Err(CommandError::WrongArity(CommandName::Get)));
    assert_eq!(command(&["GET", "a", "b"]), Err(CommandError::WrongArity(CommandName::Get)));
    let nil_key = Data::Array(vec![bulk("GET"), Data::BulkString(None)]);
    assert_eq!(Command::try_from(nil_key), Err(CommandError::NilArgument(Argument::Key)));
}

#[test]
fn info_commands() {
    assert_eq!(command(&["INFO"]), Ok(Command::Info { sections: [None, None, None] }));
    assert_eq!(
        command(&["info", "replication"]),
        Ok(Command::Info { sections: [Some("replication".to_string()), None, None] })
    );
    assert_eq!(command(&["INFO", "a", "b", "c", "d"]), Err(CommandError::TooManySections));
    let odd = Data::Array(vec![bulk("INFO"), Data::Integer(3)]);
    assert_eq!(Command::try_from(odd), Err(CommandError::InvalidCommand));
}

#[test]
fn malformed_requests() {
    assert_eq!(Command::try_from(bulk("PING")), Err(CommandError::InvalidCommand));
    assert_eq!(Command::try_from(Data::Array(vec![])), Err(CommandError::InvalidCommand));
    assert_eq!(
        Command::try_from(Data::Array(vec![Data::BulkString(None)])),
        Err(CommandError::NilCommand)
    );
    assert_eq!(
        Command::try_from(Data::Array(vec![Data::Integer(1)])),
        Err(CommandError::InvalidCommand)
    );
    assert_eq!(command(&["FLUSHALL"]), Err(CommandError::UnknownCommand));
}

#[test]
fn command_error_messages() {
    assert_eq!(CommandError::InvalidCommand.message(), "RESP invalid command");
    assert_eq!(CommandError::NilCommand.message(), "WRONGTYPE command is nil");
    assert_eq!(
        CommandError::WrongArity(CommandName::Echo).message(),
        "ERR wrong number of arguments for 'echo' command"
    );
    assert_eq!(
        CommandError::WrongArity(CommandName::SetValue).message(),
        "ERR wrong number of arguments for 'set' command"
    );
    assert_eq!(CommandError::NilArgument(Argument::Key).message(), "WRONGTYPE key is nil");
    assert_eq!(CommandError::SyntaxError.message(), "ERR syntax error");
    assert_eq!(CommandError::TtlNotInteger.message(), "WRONGTYPE ttl is not an integer");
    assert_eq!(CommandError::UnknownOption.message(), "UNIMPLEMENTED unknown option for set");
    assert_eq!(CommandError::TooManySections.message(), "ERR 'info' supports up to 3 sections");
    assert_eq!(CommandError::UnknownCommand.message(), "UNIMPLEMENTED unknown command");
}

#[test]
fn run_ping_and_echo() {
    let mut store = Store::new();
    let config = master();
    let reply = run(Command::Ping { message: None }, &mut store, &config, 0);
    assert_eq!(reply, Data::SimpleString("PONG".to_string()));
    let reply = run(Command::Ping { message: Some("yo".to_string()) }, &mut store, &config, 0);
    assert_eq!(reply, Data::SimpleString("yo".to_string()));
    let reply = run(Command::Echo { message: "hey".to_string() }, &mut store, &config, 0);
    assert_eq!(reply, Data::SimpleString("hey".to_string()));
}

#[test]
fn set_then_get_returns_value() {
    let mut store = Store::new();
    let config = master();
    let set = command(&["SET", "foo", "bar"]).unwrap();
    assert_eq!(run(set, &mut store, &config, 10), Data::SimpleString("OK".to_string()));
    let get = command(&["GET", "foo"]).unwrap();
    assert_eq!(run(get, &mut store, &config, 1_000_000), bulk("bar"));
    let overwrite = command(&["SET", "foo", "baz"]).unwrap();
    run(overwrite, &mut store, &config, 20);
    let get = command(&["GET", "foo"]).unwrap();
    assert_eq!(run(get, &mut store, &config, 30), bulk("baz"));
}

#[test]
fn get_absent_key_is_nil() {
    let mut store = Store::new();
    let config = master();
    let get = command(&["GET", "never"]).unwrap();
    assert_eq!(run(get, &mut store, &config, 5), Data::BulkString(None));
}

#[test]
fn px_expiry_boundary() {
    let mut store = Store::new();
    let config = master();
    let set = command(&["SET", "k", "v", "PX", "100"]).unwrap();
    run(set, &mut store, &config, 1000);
    let get = Command::Get { key: "k".to_string() };
    assert_eq!(query(&get, &store, &config, 1000), Some(bulk("v")));
    assert_eq!(query(&get, &store, &config, 1099), Some(bulk("v")));
    assert_eq!(query(&get, &store, &config, 1100), Some(Data::BulkString(None)));
    assert_eq!(query(&get, &store, &config, 5000), Some(Data::BulkString(None)));
}

#[test]
fn distinct_keys_do_not_interfere() {
    let mut store = Store::new();
    let config = master();
    for i in 0..20 {
        let key = format!("key{i}");
        let value = format!("value{i}");
        run(command(&["SET", &key, &value]).unwrap(), &mut store, &config, i);
    }
    for i in (0..20).rev() {
        let get = Command::Get { key: format!("key{i}") };
        assert_eq!(query(&get, &store, &config, 100), Some(bulk(&format!("value{i}"))));
    }
}

#[test]
fn query_leaves_writes_to_run() {
    let store = Store::new();
    let config = master();
    let set = command(&["SET", "k", "v"]).unwrap();
    assert_eq!(query(&set, &store, &config, 0), None);
}

#[test]
fn info_reports() {
    let expected = format!(
        "# Replication\r\nrole:master\r\nmaster_replid:{ID}\r\nmaster_repl_offset:0\r\n"
    );
    assert_eq!(info(&Role::Master { id: ID.to_string(), offset: 0 }), expected);
    assert_eq!(
        info(&Role::Master { id: "abc".to_string(), offset: 1234 }),
        "# Replication\r\nrole:master\r\nmaster_replid:abc\r\nmaster_repl_offset:1234\r\n"
    );
    assert_eq!(
        info(&Role::Slave { master: "localhost:6380".to_string() }),
        "# Replication\r\nrole:slave\r\n"
    );
    let mut store = Store::new();
    let reply = run(command(&["INFO", "replication"]).unwrap(), &mut store, &master(), 0);
    assert_eq!(reply, Data::BulkString(Some(expected)));
}

#[test]
fn ping_request_for_a_peer() {
    let d = Data::from(Command::Ping { message: None });
    assert_eq!(d.encode(), b"*1\r\n$4\r\nPING\r\n".to_vec());
    let d = Data::from(Command::Ping { message: Some("hello".to_string()) });
    assert_eq!(d, Data::Array(vec![bulk("hello")]));
}

#[test]
fn echo_of_text_with_line_break_is_bulk() {
    let mut store = Store::new();
    let config = master();
    let reply = run(Command::Echo { message: "a\r\nb".to_string() }, &mut store, &config, 0);
    assert_eq!(reply, bulk("a\r\nb"));
    let bytes = reply.encode();
    assert_eq!(Data::decode(&bytes).unwrap(), (bulk("a\r\nb"), &b""[..]));
    let reply = run(Command::Ping { message: Some("x\ny".to_string()) }, &mut store, &config, 0);
    assert_eq!(reply, bulk("x\ny"));
}
