use redis_lite::client::{handle, Connection, Step};
use redis_lite::command::{run, Command};
use redis_lite::config::Config;
use redis_lite::resp::Data;
use redis_lite::store::Store;

struct Server {
    store: Store,
    config: Config,
}

impl Server {
    fn new() -> Server {
        Server { store: Store::new(), config: Config::parse(&Vec::new()).unwrap() }
    }

    /// Feeds `input` to `conn` at time `now`; returns what is written back and
    /// whether the connection closes.
    fn exchange(&mut self, conn: &mut Connection, input: &[u8], now: u64) -> (Vec<u8>, bool) {
        conn.receive(input);
        let mut out = Vec::new();
        loop {
            match handle(conn) {
                Step::Execute(cmd) => {
                    out.extend(run(cmd, &mut self.store, &self.config, now).encode())
                }
                Step::Reply(reply) => out.extend(reply.encode()),
                Step::Read => return (out, false),
                Step::Fail(reply) => {
                    out.extend(reply.encode());
                    return (out, true);
                }
            }
        }
    }
}

#[test]
fn ping_gets_pong() {
    let mut server = Server::new();
    let mut conn = Connection::new();
    let (out, closed) = server.exchange(&mut conn, b"*1\r\n$4\r\nPING\r\n", 0);
    assert_eq!(out, b"+PONG\r\n".to_vec());
    assert!(!closed);
}

#[test]
fn set_then_get_over_the_wire() {
    let mut server = Server::new();
    let mut conn = Connection::new();
    let (out, _) = server.exchange(&mut conn, b"*3\r\n$3\r\nSET\r\n$3\r\nfoo\r\n$3\r\nbar\r\n", 0);
    assert_eq!(out, b"+OK\r\n".to_vec());
    let (out, _) = server.exchange(&mut conn, b"*2\r\n$3\r\nGET\r\n$3\r\nfoo\r\n", 1);
    assert_eq!(out, b"$3\r\nbar\r\n".to_vec());
}

#[test]
fn px_value_expires() {
    let mut server = Server::new();
    let mut conn = Connection::new();
    let set = b"*5\r\n$3\r\nSET\r\n$3\r\nfoo\r\n$3\r\nbar\r\n$2\r\nPX\r\n$2\r\n50\r\n";
    let (out, _) = server.exchange(&mut conn, set, 0);
    assert_eq!(out, b"+OK\r\n".to_vec());
    let (out, _) = server.exchange(&mut conn, b"*2\r\n$3\r\nGET\r\n$3\r\nfoo\r\n", 20);
    assert_eq!(out, b"$3\r\nbar\r\n".to_vec());
    let (out, _) = server.exchange(&mut conn, b"*2\r\n$3\r\nGET\r\n$3\r\nfoo\r\n", 80);
    assert_eq!(out, b"$-1\r\n".to_vec());
}

#[test]
fn truncated_frame_gets_error_then_close() {
    let mut server = Server::new();
    let mut conn = Connection::new();
    let (out, closed) = server.exchange(&mut conn, b"*1\r\n$10\r\nPING\r\n", 0);
    assert!(out.is_empty());
    assert!(!closed);
    let reply = conn.end_of_input().unwrap();
    assert_eq!(reply.encode(), b"-RESP truncated bulk string\r\n".to_vec());
}

#[test]
fn nothing_pending_at_end_of_input() {
    let mut server = Server::new();
    let mut conn = Connection::new();
    assert_eq!(conn.end_of_input(), None);
    server.exchange(&mut conn, b"*1\r\n$4\r\nPING\r\n", 0);
    assert_eq!(conn.end_of_input(), None);
}

#[test]
fn wrong_arity_keeps_connection_open() {
    let mut server = Server::new();
    let mut conn = Connection::new();
    let (out, closed) = server.exchange(&mut conn, b"*1\r\n$4\r\nECHO\r\n", 0);
    assert_eq!(out, b"-ERR wrong number of arguments for 'echo' command\r\n".to_vec());
    assert!(!closed);
    let (out, closed) = server.exchange(&mut conn, b"*2\r\n$4\r\nECHO\r\n$2\r\nhi\r\n", 0);
    assert_eq!(out, b"+hi\r\n".to_vec());
    assert!(!closed);
}

#[test]
fn get_never_set_key_is_nil() {
    let mut server = Server::new();
    let mut conn = Connection::new();
    let (out, _) = server.exchange(&mut conn, b"*2\r\n$3\r\nGET\r\n$5\r\nnever\r\n", 0);
    assert_eq!(out, b"$-1\r\n".to_vec());
}

#[test]
fn request_split_across_reads() {
    let mut server = Server::new();
    let mut conn = Connection::new();
    let (out, closed) = server.exchange(&mut conn, b"*2\r\n$4\r\nEC", 0);
    assert!(out.is_empty());
    assert!(!closed);
    let (out, _) = server.exchange(&mut conn, b"HO\r\n$3\r\nab", 0);
    assert!(out.is_empty());
    let (out, _) = server.exchange(&mut conn, b"c\r\n", 0);
    assert_eq!(out, b"+abc\r\n".to_vec());
}

#[test]
fn pipelined_requests_answer_in_order() {
    let mut server = Server::new();
    let mut conn = Connection::new();
    let input = b"*1\r\n$4\r\nPING\r\n*2\r\n$4\r\nECHO\r\n$1\r\nx\r\n*1\r\n$3\r\nFOO\r\n";
    let (out, closed) = server.exchange(&mut conn, input, 0);
    assert_eq!(out, b"+PONG\r\n+x\r\n-UNIMPLEMENTED unknown command\r\n".to_vec());
    assert!(!closed);
}

#[test]
fn malformed_frame_fails() {
    let mut server = Server::new();
    let mut conn = Connection::new();
    let (out, closed) = server.exchange(&mut conn, b"!oops\r\n", 0);
    assert_eq!(out, b"-UNIMPLEMENTED unknown data type\r\n".to_vec());
    assert!(closed);
}

#[test]
fn handle_steps() {
    let mut conn = Connection::new();
    assert_eq!(handle(&mut conn), Step::Read);
    conn.receive(b"*1\r\n$4\r\nPING\r\n*1");
    assert_eq!(handle(&mut conn), Step::Execute(Command::Ping { message: None }));
    assert_eq!(handle(&mut conn), Step::Read);
    conn.receive(b"\r\n:1\r\n");
    assert_eq!(
        handle(&mut conn),
        Step::Reply(Data::SimpleError("RESP invalid command".to_string()))
    );
    assert_eq!(handle(&mut conn), Step::Read);
    conn.receive(b"$3\r\nabcde");
    assert_eq!(
        handle(&mut conn),
        Step::Fail(Data::SimpleError("RESP no crlf".to_string()))
    );
}

#[test]
fn echo_with_line_break_over_the_wire() {
    let mut server = Server::new();
    let mut conn = Connection::new();
    let (out, closed) = server.exchange(&mut conn, b"*2\r\n$4\r\nECHO\r\n$4\r\na\r\nb\r\n", 0);
    assert_eq!(out, b"$4\r\na\r\nb\r\n".to_vec());
    assert!(!closed);
}

#[test]
fn malformed_line_fails_before_its_end() {
    let mut server = Server::new();
    let mut conn = Connection::new();
    let (out, closed) = server.exchange(&mut conn, b"*x", 0);
    assert_eq!(out, b"-RESP invalid integer\r\n".to_vec());
    assert!(closed);
}

#[test]
fn refused_request_in_any_form_keeps_connection_open() {
    let mut server = Server::new();
    let mut conn = Connection::new();
    let (out, closed) = server.exchange(&mut conn, b"*+1\r\n$04\r\nECHO\r\n*1\r\n$4\r\nPI", 0);
    assert_eq!(out, b"-ERR wrong number of arguments for 'echo' command\r\n".to_vec());
    assert!(!closed);
    let (out, _) = server.exchange(&mut conn, b"NG\r\n", 0);
    assert_eq!(out, b"+PONG\r\n".to_vec());
}
