//! The commands: how a request message names one, and what running it does
//! to the store and replies.
use vstd::prelude::*;
use vstd::string::StringExecFns;
use vstd::utf8::{decode_utf8, encode_utf8, is_ascii_chars_encode_utf8};

use crate::config::{Config, Role};
use crate::decimal::{nat_text, parse_u64, u64_of_text, u64_string};
use crate::resp::{
    is_one_line, lemma_decode_encode, lemma_messages_of, message_of, messages_of, one_line, parse,
    well_formed, wire, Data, DecodeError, Message,
};
use crate::store::{deadline, expiry_time, live, Contents, Store};
use crate::text::{ascii_upper, eq_ignore_case, names, text_of};

verus! {

/// A request, checked and ready to run.
#[derive(Debug, PartialEq, Eq)]
pub enum Command {
    Ping { message: Option<String> },
    Echo { message: String },
    SetValue { key: String, value: String, ttl: Option<u64> },
    Get { key: String },
    Info { sections: [Option<String>; 3] },
}

/// What a [`Command`] asks, with its text as characters.
pub enum Instruction {
    Ping(Option<Seq<char>>),
    Echo(Seq<char>),
    SetValue(Seq<char>, Seq<char>, Option<u64>),
    Get(Seq<char>),
    Info(Seq<Option<Seq<char>>>),
}

impl View for Command {
    type V = Instruction;

    open spec fn view(&self) -> Instruction {
        match self {
            Command::Ping { message } => Instruction::Ping(text_of(*message)),
            Command::Echo { message } => Instruction::Echo(message@),
            Command::SetValue { key, value, ttl } => Instruction::SetValue(key@, value@, *ttl),
            Command::Get { key } => Instruction::Get(key@),
            Command::Info { sections } => Instruction::Info(
                sections@.map_values(|s: Option<String>| text_of(s)),
            ),
        }
    }
}

#[derive(Debug, Clone, Copy, PartialEq, Eq, Structural)]
pub enum CommandName {
    Ping,
    Echo,
    SetValue,
    Get,
}

#[derive(Debug, Clone, Copy, PartialEq, Eq, Structural)]
pub enum Argument {
    Message,
    Key,
    Value,
    Ttl,
}

/// Why a request is not a command that can run.
#[derive(Debug, Clone, Copy, PartialEq, Eq, Structural)]
pub enum CommandError {
    /// Not an array whose first element and arguments are bulk strings.
    InvalidCommand,
    /// The command name is the nil bulk string.
    NilCommand,
    WrongArity(CommandName),
    /// An argument that must have a value is nil.
    NilArgument(Argument),
    /// `PX` with no value after it.
    SyntaxError,
    /// The `PX` value is not a decimal `u64`.
    TtlNotInteger,
    /// A `SET` option other than `PX`.
    UnknownOption,
    /// `INFO` with more than three sections.
    TooManySections,
    UnknownCommand,
}

/// The reply text that reports `e`.
pub open spec fn command_error_text(e: CommandError) -> Seq<char> {
    match e {
        CommandError::InvalidCommand => "RESP invalid command"@,
        CommandError::NilCommand => "WRONGTYPE command is nil"@,
        CommandError::WrongArity(CommandName::Ping) => "ERR wrong number of arguments for 'ping' command"@,
        CommandError::WrongArity(CommandName::Echo) => "ERR wrong number of arguments for 'echo' command"@,
        CommandError::WrongArity(CommandName::SetValue) => "ERR wrong number of arguments for 'set' command"@,
        CommandError::WrongArity(CommandName::Get) => "ERR wrong number of arguments for 'get' command"@,
        CommandError::NilArgument(Argument::Message) => "WRONGTYPE message is nil"@,
        CommandError::NilArgument(Argument::Key) => "WRONGTYPE key is nil"@,
        CommandError::NilArgument(Argument::Value) => "WRONGTYPE value is nil"@,
        CommandError::NilArgument(Argument::Ttl) => "WRONGTYPE ttl is nil"@,
        CommandError::SyntaxError => "ERR syntax error"@,
        CommandError::TtlNotInteger => "WRONGTYPE ttl is not an integer"@,
        CommandError::UnknownOption => "UNIMPLEMENTED unknown option for set"@,
        CommandError::TooManySections => "ERR 'info' supports up to 3 sections"@,
        CommandError::UnknownCommand => "UNIMPLEMENTED unknown command"@,
    }
}

impl CommandError {
    pub fn message(&self) -> (r: String)
        ensures
            r@ == command_error_text(*self),
    {
        match self {
            CommandError::InvalidCommand => "RESP invalid command".to_owned(),
            CommandError::NilCommand => "WRONGTYPE command is nil".to_owned(),
            CommandError::WrongArity(CommandName::Ping) => "ERR wrong number of arguments for 'ping' command".to_owned(),
            CommandError::WrongArity(CommandName::Echo) => "ERR wrong number of arguments for 'echo' command".to_owned(),
            CommandError::WrongArity(CommandName::SetValue) => "ERR wrong number of arguments for 'set' command".to_owned(),
            CommandError::WrongArity(CommandName::Get) => "ERR wrong number of arguments for 'get' command".to_owned(),
            CommandError::NilArgument(Argument::Message) => "WRONGTYPE message is nil".to_owned(),
            CommandError::NilArgument(Argument::Key) => "WRONGTYPE key is nil".to_owned(),
            CommandError::NilArgument(Argument::Value) => "WRONGTYPE value is nil".to_owned(),
            CommandError::NilArgument(Argument::Ttl) => "WRONGTYPE ttl is nil".to_owned(),
            CommandError::SyntaxError => "ERR syntax error".to_owned(),
            CommandError::TtlNotInteger => "WRONGTYPE ttl is not an integer".to_owned(),
            CommandError::UnknownOption => "UNIMPLEMENTED unknown option for set".to_owned(),
            CommandError::TooManySections => "ERR 'info' supports up to 3 sections".to_owned(),
            CommandError::UnknownCommand => "UNIMPLEMENTED unknown command".to_owned(),
        }
    }
}

/// The expiry that the options after a `SET`'s key and value ask for:
/// none, or `PX` and a number of milliseconds. Elements after those are passed over.
pub open spec fn set_ttl(items: Seq<Message>) -> Result<Option<u64>, CommandError> {
    if items.len() <= 3 {
        Ok(None)
    } else {
        match items[3] {
            Message::Bulk(Some(option)) => if names(option, "PX"@) {
                if items.len() <= 4 {
                    Err(CommandError::SyntaxError)
                } else {
                    match items[4] {
                        Message::Bulk(Some(t)) => match u64_of_text(encode_utf8(t)) {
                            Some(ms) => Ok(Some(ms)),
                            None => Err(CommandError::TtlNotInteger),
                        },
                        Message::Bulk(None) => Err(CommandError::NilArgument(Argument::Ttl)),
                        _ => Err(CommandError::InvalidCommand),
                    }
                }
            } else {
                Err(CommandError::UnknownOption)
            },
            Message::Bulk(None) => Err(CommandError::UnknownOption),
            _ => Err(CommandError::InvalidCommand),
        }
    }
}

/// The command that the request `items`, named `name`, asks for.
pub open spec fn interpret_named(name: Seq<char>, items: Seq<Message>) -> Result<
    Instruction,
    CommandError,
> {
    let n = items.len();
    if names(name, "PING"@) {
        if n == 1 {
            Ok(Instruction::Ping(None))
        } else if n == 2 {
            match items[1] {
                Message::Bulk(t) => Ok(Instruction::Ping(t)),
                _ => Err(CommandError::InvalidCommand),
            }
        } else {
            Err(CommandError::WrongArity(CommandName::Ping))
        }
    } else if names(name, "ECHO"@) {
        if n != 2 {
            Err(CommandError::WrongArity(CommandName::Echo))
        } else {
            match items[1] {
                Message::Bulk(Some(t)) => Ok(Instruction::Echo(t)),
                Message::Bulk(None) => Err(CommandError::NilArgument(Argument::Message)),
                _ => Err(CommandError::InvalidCommand),
            }
        }
    } else if names(name, "SET"@) {
        if n < 3 {
            Err(CommandError::WrongArity(CommandName::SetValue))
        } else {
            match set_ttl(items) {
                Err(e) => Err(e),
                Ok(ttl) => match (items[1], items[2]) {
                    (Message::Bulk(Some(k)), Message::Bulk(Some(v))) => Ok(Instruction::SetValue(k, v, ttl)),
                    (Message::Bulk(None), Message::Bulk(_)) => Err(
                        CommandError::NilArgument(Argument::Key),
                    ),
                    (Message::Bulk(Some(_)), Message::Bulk(None)) => Err(
                        CommandError::NilArgument(Argument::Value),
                    ),
                    _ => Err(CommandError::InvalidCommand),
                },
            }
        }
    } else if names(name, "GET"@) {
        if n != 2 {
            Err(CommandError::WrongArity(CommandName::Get))
        } else {
            match items[1] {
                Message::Bulk(Some(k)) => Ok(Instruction::Get(k)),
                Message::Bulk(None) => Err(CommandError::NilArgument(Argument::Key)),
                _ => Err(CommandError::InvalidCommand),
            }
        }
    } else if names(name, "INFO"@) {
        if n > 4 {
            Err(CommandError::TooManySections)
        } else if exists|i: int| 1 <= i < n && !(#[trigger] items[i] is Bulk) {
            Err(CommandError::InvalidCommand)
        } else {
            Ok(
                Instruction::Info(
                    Seq::new(
                        3,
                        |i: int|
                            if i + 1 < n {
                                items[i + 1]->Bulk_0
                            } else {
                                None
                            },
                    ),
                ),
            )
        }
    } else {
        Err(CommandError::UnknownCommand)
    }
}

/// The command that the request `m` asks for: an array whose first element
/// is a bulk string naming the command, in any case.
pub open spec fn interpret(m: Message) -> Result<Instruction, CommandError> {
    match m {
        Message::Array(items) => if items.len() == 0 {
            Err(CommandError::InvalidCommand)
        } else {
            match items[0] {
                Message::Bulk(Some(name)) => interpret_named(name, items),
                Message::Bulk(None) => Err(CommandError::NilCommand),
                _ => Err(CommandError::InvalidCommand),
            }
        },
        _ => Err(CommandError::InvalidCommand),
    }
}

/// The text of the `INFO` report for `role`.
pub open spec fn info_text(role: Role) -> Seq<char> {
    match role {
        Role::Master { id, offset } => "# Replication\r\n"@ + "role:master\r\n"@ + "master_replid:"@
            + id@ + "\r\n"@ + "master_repl_offset:"@ + decode_utf8(nat_text(offset as nat))
            + "\r\n"@,
        Role::Slave { .. } => "# Replication\r\n"@ + "role:slave\r\n"@,
    }
}

/// The reply that hands `t` back: a simple string when it is on one line, a
/// bulk string otherwise, so that the reply always reads back as `t`.
pub open spec fn echoed(t: Seq<char>) -> Message {
    if one_line(t) {
        Message::Simple(t)
    } else {
        Message::Bulk(Some(t))
    }
}

fn echo_reply(t: &String) -> (r: Data)
    ensures
        r@ == echoed(t@),
{
    if is_one_line(t.as_str()) {
        Data::SimpleString(t.clone())
    } else {
        Data::BulkString(Some(t.clone()))
    }
}

/// The reply to `c` when the store holds `m` at time `now`.
pub open spec fn response(c: Instruction, m: Contents, role: Role, now: u64) -> Message {
    match c {
        Instruction::Ping(None) => Message::Simple("PONG"@),
        Instruction::Ping(Some(t)) => echoed(t),
        Instruction::Echo(t) => echoed(t),
        Instruction::SetValue(_, _, _) => Message::Simple("OK"@),
        Instruction::Get(k) => Message::Bulk(live(m, k, now)),
        Instruction::Info(_) => Message::Bulk(Some(info_text(role))),
    }
}

/// What the store holds after `c` runs at time `now` on contents `m`.
pub open spec fn effect(c: Instruction, m: Contents, now: u64) -> Contents {
    match c {
        Instruction::SetValue(k, v, ttl) => m.insert(k, (v, deadline(now, ttl))),
        _ => m,
    }
}

fn copy_text(s: &Option<String>) -> (r: Option<String>)
    ensures
        text_of(r) == text_of(*s),
{
    match s {
        Some(t) => Some(t.clone()),
        None => None,
    }
}

/// The `k`-th element of `items` as an `INFO` section, where it is a bulk string.
fn section(items: &Vec<Data>, k: usize) -> (r: Option<String>)
    ensures
        k < items@.len() ==> match message_of(items@[k as int]) {
            Message::Bulk(t) => text_of(r) == t,
            _ => true,
        },
        k >= items@.len() ==> r is None,
{
    if k < items.len() {
        match &items[k] {
            Data::BulkString(t) => copy_text(t),
            _ => None,
        }
    } else {
        None
    }
}

fn set_ttl_of(items: &Vec<Data>) -> (r: Result<Option<u64>, CommandError>)
    ensures
        r == set_ttl(messages_of(items@)),
{
    proof {
        lemma_messages_of(items@);
    }
    if items.len() <= 3 {
        return Ok(None);
    }
    match &items[3] {
        Data::BulkString(Some(option)) => {
            if !eq_ignore_case(option.as_str(), "PX") {
                return Err(CommandError::UnknownOption);
            }
            if items.len() <= 4 {
                return Err(CommandError::SyntaxError);
            }
            match &items[4] {
                Data::BulkString(Some(t)) => match parse_u64(t.as_str().as_bytes()) {
                    Some(ms) => Ok(Some(ms)),
                    None => Err(CommandError::TtlNotInteger),
                },
                Data::BulkString(None) => Err(CommandError::NilArgument(Argument::Ttl)),
                _ => Err(CommandError::InvalidCommand),
            }
        },
        Data::BulkString(None) => Err(CommandError::UnknownOption),
        _ => Err(CommandError::InvalidCommand),
    }
}

impl Command {
    /// Checks a request and names the command it asks for.
    pub fn try_from(value: Data) -> (r: Result<Command, CommandError>)
        ensures
            match r {
                Ok(c) => interpret(value@) == Ok::<Instruction, CommandError>(c@),
                Err(e) => interpret(value@) == Err::<Instruction, CommandError>(e),
            },
    {
        let items = match &value {
            Data::Array(items) => items,
            _ => return Err(CommandError::InvalidCommand),
        };
        let ghost views = messages_of(items@);
        proof {
            lemma_messages_of(items@);
        }
        if items.len() == 0 {
            return Err(CommandError::InvalidCommand);
        }
        let name = match &items[0] {
            Data::BulkString(Some(name)) => name,
            Data::BulkString(None) => return Err(CommandError::NilCommand),
            _ => return Err(CommandError::InvalidCommand),
        };
        let n = items.len();
        if eq_ignore_case(name.as_str(), "PING") {
            if n == 1 {
                return Ok(Command::Ping { message: None });
            }
            if n == 2 {
                return match &items[1] {
                    Data::BulkString(m) => Ok(Command::Ping { message: copy_text(m) }),
                    _ => Err(CommandError::InvalidCommand),
                };
            }
            return Err(CommandError::WrongArity(CommandName::Ping));
        }
        if eq_ignore_case(name.as_str(), "ECHO") {
            if n != 2 {
                return Err(CommandError::WrongArity(CommandName::Echo));
            }
            return match &items[1] {
                Data::BulkString(Some(m)) => Ok(Command::Echo { message: m.clone() }),
                Data::BulkString(None) => Err(CommandError::NilArgument(Argument::Message)),
                _ => Err(CommandError::InvalidCommand),
            };
        }
        if eq_ignore_case(name.as_str(), "SET") {
            if n < 3 {
                return Err(CommandError::WrongArity(CommandName::SetValue));
            }
            let ttl = match set_ttl_of(items) {
                Ok(ttl) => ttl,
                Err(e) => return Err(e),
            };
            return match (&items[1], &items[2]) {
                (Data::BulkString(Some(k)), Data::BulkString(Some(v))) => Ok(
                    Command::SetValue { key: k.clone(), value: v.clone(), ttl },
                ),
                (Data::BulkString(None), Data::BulkString(_)) => Err(
                    CommandError::NilArgument(Argument::Key),
                ),
                (Data::BulkString(Some(_)), Data::BulkString(None)) => Err(
                    CommandError::NilArgument(Argument::Value),
                ),
                _ => Err(CommandError::InvalidCommand),
            };
        }
        if eq_ignore_case(name.as_str(), "GET") {
            if n != 2 {
                return Err(CommandError::WrongArity(CommandName::Get));
            }
            return match &items[1] {
                Data::BulkString(Some(k)) => Ok(Command::Get { key: k.clone() }),
                Data::BulkString(None) => Err(CommandError::NilArgument(Argument::Key)),
                _ => Err(CommandError::InvalidCommand),
            };
        }
        if eq_ignore_case(name.as_str(), "INFO") {
            if n > 4 {
                return Err(CommandError::TooManySections);
            }
            let mut i: usize = 1;
            while i < n
                invariant
                    value@ == Message::Array(views),
                    views[0] == Message::Bulk(Some(name@)),
                    names(name@, "INFO"@),
                    !names(name@, "PING"@),
                    !names(name@, "ECHO"@),
                    !names(name@, "SET"@),
                    !names(name@, "GET"@),
                    n == items@.len(),
                    n <= 4,
                    1 <= i <= n,
                    views == messages_of(items@),
                    views.len() == n,
                    forall|k: int| 0 <= k < n ==> #[trigger] views[k] == message_of(items@[k]),
                    forall|k: int| 1 <= k < i ==> #[trigger] views[k] is Bulk,
                decreases n - i,
            {
                match &items[i] {
                    Data::BulkString(_) => {},
                    _ => {
                        assert(!(views[i as int] is Bulk));
                        return Err(CommandError::InvalidCommand);
                    },
                }
                i = i + 1;
            }
            let sections = [section(items, 1), section(items, 2), section(items, 3)];
            proof {
                let want = Seq::new(
                    3,
                    |k: int|
                        if k + 1 < n {
                            views[k + 1]->Bulk_0
                        } else {
                            None
                        },
                );
                assert(sections@.map_values(|s: Option<String>| text_of(s)) =~= want);
            }
            return Ok(Command::Info { sections });
        }
        Err(CommandError::UnknownCommand)
    }
}

/// The request that asks a peer for a `PING`: an array holding the bulk
/// string `PING`, or the message alone when there is one.
pub open spec fn request_of(c: Instruction) -> Message {
    match c {
        Instruction::Ping(Some(t)) => Message::Array(seq![Message::Bulk(Some(t))]),
        _ => Message::Array(seq![Message::Bulk(Some("PING"@))]),
    }
}

impl Data {
    /// The request for `cmd`, which must be a `PING`.
    pub fn from(cmd: Command) -> (r: Data)
        requires
            cmd@ is Ping,
        ensures
            r@ == request_of(cmd@),
    {
        let word = match cmd {
            Command::Ping { message: Some(m) } => m,
            _ => "PING".to_owned(),
        };
        let items = vec![Data::BulkString(Some(word))];
        proof {
            lemma_messages_of(items@);
        }
        assert(messages_of(items@) =~= seq![message_of(items@[0])]);
        Data::Array(items)
    }
}

/// The `INFO` report for `role`.
pub fn info(role: &Role) -> (r: String)
    ensures
        r@ == info_text(*role),
{
    let mut text = "# Replication\r\n".to_owned();
    match role {
        Role::Slave { .. } => {
            text.append("role:slave\r\n");
        },
        Role::Master { id, offset } => {
            text.append("role:master\r\n");
            text.append("master_replid:");
            text.append(id.as_str());
            text.append("\r\n");
            text.append("master_repl_offset:");
            let digits = u64_string(*offset);
            text.append(digits.as_str());
            text.append("\r\n");
        },
    }
    text
}

/// The reply to `cmd` against the store as it stands.
fn reply(cmd: &Command, store: &Store, config: &Config, now: u64) -> (r: Data)
    requires
        store.wf(),
    ensures
        r@ == response(cmd@, store@, config.role_of(), now),
{
    match cmd {
        Command::Ping { message: Some(m) } => echo_reply(m),
        Command::Ping { message: None } => Data::SimpleString("PONG".to_owned()),
        Command::Echo { message } => echo_reply(message),
        Command::SetValue { .. } => Data::SimpleString("OK".to_owned()),
        Command::Get { key } => Data::BulkString(store.get(key, now)),
        Command::Info { .. } => Data::BulkString(Some(info(config.role()))),
    }
}

/// Runs `cmd` at time `now` (in milliseconds), and gives the reply.
pub fn run(cmd: Command, store: &mut Store, config: &Config, now: u64) -> (r: Data)
    requires
        old(store).wf(),
    ensures
        final(store).wf(),
        r@ == response(cmd@, old(store)@, config.role_of(), now),
        final(store)@ == effect(cmd@, old(store)@, now),
{
    let r = reply(&cmd, store, config, now);
    if let Command::SetValue { key, value, ttl } = cmd {
        store.set(key, value, expiry_time(now, ttl));
    }
    r
}

/// The reply to a command that only reads the store; `None` for one that writes.
pub fn query(cmd: &Command, store: &Store, config: &Config, now: u64) -> (r: Option<Data>)
    requires
        store.wf(),
    ensures
        match r {
            Some(d) => !(cmd@ is SetValue) && d@ == response(cmd@, store@, config.role_of(), now),
            None => cmd@ is SetValue,
        },
{
    match cmd {
        Command::SetValue { .. } => None,
        _ => Some(reply(cmd, store, config, now)),
    }
}

/// The reply to `PING` with a message, or to `ECHO`, decodes back to the
/// message it was given, whatever characters that message holds.
pub proof fn lemma_echo_reads_back(t: Seq<char>)
    requires
        encode_utf8(t).len() <= i64::MAX,
    ensures
        well_formed(echoed(t)),
        parse(wire(echoed(t))) == Ok::<(Message, int), DecodeError>(
            (echoed(t), wire(echoed(t)).len() as int),
        ),
        echoed(t) == Message::Simple(t) || echoed(t) == Message::Bulk(Some(t)),
{
    lemma_decode_encode(echoed(t));
}

/// A `SET` without expiry, then a `GET` of the same key at any time after:
/// the reply is the value just written.
pub proof fn lemma_set_then_get(
    m: Contents,
    role: Role,
    k: Seq<char>,
    v: Seq<char>,
    now: u64,
    later: u64,
)
    ensures
        response(
            Instruction::Get(k),
            effect(Instruction::SetValue(k, v, None), m, now),
            role,
            later,
        ) == Message::Bulk(Some(v)),
{
}

/// A `GET` of a key that the store does not hold is a command, and its reply
/// is the nil bulk string.
pub proof fn lemma_get_absent(m: Contents, role: Role, k: Seq<char>, now: u64)
    requires
        !m.contains_key(k),
    ensures
        interpret(Message::Array(seq![Message::Bulk(Some("GET"@)), Message::Bulk(Some(k))]))
            == Ok::<Instruction, CommandError>(Instruction::Get(k)),
        response(Instruction::Get(k), m, role, now) == Message::Bulk(None),
{
    reveal_strlit("GET");
    reveal_strlit("PING");
    reveal_strlit("ECHO");
    reveal_strlit("SET");
    is_ascii_chars_encode_utf8("GET"@);
    is_ascii_chars_encode_utf8("PING"@);
    is_ascii_chars_encode_utf8("ECHO"@);
    is_ascii_chars_encode_utf8("SET"@);
    let get = encode_utf8("GET"@);
    assert(!names("GET"@, "SET"@)) by {
        assert(ascii_upper(get[0]) != ascii_upper(encode_utf8("SET"@)[0]));
    }
}

/// After `SET k v PX n` at time `now`, a `GET k` with no write in between
/// replies with `v` before `now + n` milliseconds and with nil from then on.
pub proof fn lemma_set_px_then_get(
    m: Contents,
    role: Role,
    k: Seq<char>,
    v: Seq<char>,
    n: u64,
    now: u64,
    later: u64,
)
    ensures
        later < now + n ==> response(
            Instruction::Get(k),
            effect(Instruction::SetValue(k, v, Some(n)), m, now),
            role,
            later,
        ) == Message::Bulk(Some(v)),
        now + n <= later ==> response(
            Instruction::Get(k),
            effect(Instruction::SetValue(k, v, Some(n)), m, now),
            role,
            later,
        ) == Message::Bulk(None),
{
}

/// What the store holds after the commands `cs`, each with the time it ran at,
/// one after another.
pub open spec fn run_all(m: Contents, cs: Seq<(Instruction, u64)>) -> Contents
    decreases cs.len(),
{
    if cs.len() == 0 {
        m
    } else {
        effect(cs.last().0, run_all(m, cs.drop_last()), cs.last().1)
    }
}

pub open spec fn writes_key(c: Instruction, k: Seq<char>) -> bool {
    c matches Instruction::SetValue(k2, _, _) && k2 == k
}

/// Commands from any number of connections, in whatever order the store's
/// lock lets them through: a key holds what the last `SET` of it wrote, with
/// that write's expiry time. No other command, and no write to another key,
/// loses or alters it.
pub proof fn lemma_last_write_wins(m: Contents, cs: Seq<(Instruction, u64)>, k: Seq<char>, j: int)
    requires
        0 <= j < cs.len(),
        writes_key(cs[j].0, k),
        forall|i: int| j < i < cs.len() ==> !writes_key(#[trigger] cs[i].0, k),
    ensures
        run_all(m, cs).contains_key(k),
        run_all(m, cs)[k] == (cs[j].0->SetValue_1, deadline(cs[j].1, cs[j].0->SetValue_2)),
    decreases cs.len(),
{
    if j < cs.len() - 1 {
        let prev = cs.drop_last();
        assert forall|i: int| j < i < prev.len() implies !writes_key(#[trigger] prev[i].0, k) by {
            assert(prev[i] == cs[i]);
        }
        assert(prev[j] == cs[j]);
        lemma_last_write_wins(m, prev, k, j);
        assert(!writes_key(cs[cs.len() - 1].0, k));
    }
}

/// A key that none of the commands `cs` writes keeps what it held.
pub proof fn lemma_untouched_key(m: Contents, cs: Seq<(Instruction, u64)>, k: Seq<char>)
    requires
        forall|i: int| 0 <= i < cs.len() ==> !writes_key(#[trigger] cs[i].0, k),
    ensures
        run_all(m, cs).contains_key(k) == m.contains_key(k),
        m.contains_key(k) ==> run_all(m, cs)[k] == m[k],
    decreases cs.len(),
{
    if cs.len() > 0 {
        let prev = cs.drop_last();
        assert forall|i: int| 0 <= i < prev.len() implies !writes_key(#[trigger] prev[i].0, k) by {
            assert(prev[i] == cs[i]);
        }
        lemma_untouched_key(m, prev, k);
        assert(!writes_key(cs[cs.len() - 1].0, k));
    }
}

} // verus!
