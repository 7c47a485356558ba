//! The server's settings: the port it listens on and its replication role.
use vstd::prelude::*;
use vstd::string::StringExecFns;

use crate::text::{text_eq, text_of};

verus! {

/// Whether this server leads or follows.
#[derive(Debug, PartialEq, Eq)]
pub enum Role {
    Master { id: String, offset: u64 },
    Slave { master: String },
}

/// Why the arguments name no configuration.
#[derive(Debug, Clone, Copy, PartialEq, Eq, Structural)]
pub enum ConfigError {
    MissingPort,
    MissingMasterHost,
    MissingMasterPort,
}

impl ConfigError {
    pub fn message(&self) -> (r: String)
        ensures
            r@ == match *self {
                ConfigError::MissingPort => "missing port"@,
                ConfigError::MissingMasterHost => "missing master host"@,
                ConfigError::MissingMasterPort => "missing master port"@,
            },
    {
        match self {
            ConfigError::MissingPort => "missing port".to_owned(),
            ConfigError::MissingMasterHost => "missing master host".to_owned(),
            ConfigError::MissingMasterPort => "missing master port".to_owned(),
        }
    }
}

pub struct Config {
    port: String,
    role: Role,
}

pub open spec fn texts(args: Seq<String>) -> Seq<Seq<char>> {
    args.map_values(|s: String| s@)
}

/// The port and the leader's address that `args` set, read from the front:
/// `--port <port>` and `--replicaof <host> <port>`, a later one in place of an
/// earlier one; any other argument is passed over.
pub open spec fn scan_args(
    args: Seq<Seq<char>>,
    port: Option<Seq<char>>,
    master: Option<Seq<char>>,
) -> Result<(Option<Seq<char>>, Option<Seq<char>>), ConfigError>
    decreases args.len(),
{
    if args.len() == 0 {
        Ok((port, master))
    } else if args[0] == "--port"@ {
        if args.len() < 2 {
            Err(ConfigError::MissingPort)
        } else {
            scan_args(args.subrange(2, args.len() as int), Some(args[1]), master)
        }
    } else if args[0] == "--replicaof"@ {
        if args.len() < 2 {
            Err(ConfigError::MissingMasterHost)
        } else if args.len() < 3 {
            Err(ConfigError::MissingMasterPort)
        } else {
            scan_args(args.subrange(3, args.len() as int), port, Some(args[1] + ":"@ + args[2]))
        }
    } else {
        scan_args(args.drop_first(), port, master)
    }
}

/// The arguments that [`scan_args`] passes over, in order; scanning stops at
/// a missing value.
pub open spec fn passed_over(args: Seq<Seq<char>>) -> Seq<Seq<char>>
    decreases args.len(),
{
    if args.len() == 0 {
        Seq::empty()
    } else if args[0] == "--port"@ {
        if args.len() < 2 {
            Seq::empty()
        } else {
            passed_over(args.subrange(2, args.len() as int))
        }
    } else if args[0] == "--replicaof"@ {
        if args.len() < 3 {
            Seq::empty()
        } else {
            passed_over(args.subrange(3, args.len() as int))
        }
    } else {
        seq![args[0]] + passed_over(args.drop_first())
    }
}

/// The arguments that name no setting, so that they can be reported.
pub fn unknown_arguments(args: &Vec<String>) -> (r: Vec<String>)
    ensures
        texts(r@) == passed_over(texts(args@)),
{
    let ghost all = texts(args@);
    let mut found: Vec<String> = Vec::new();
    let mut i: usize = 0;
    assert(all.subrange(0, all.len() as int) =~= all);
    assert(texts(found@) =~= Seq::<Seq<char>>::empty());
    while i < args.len()
        invariant
            all == texts(args@),
            i <= args@.len(),
            passed_over(all) == texts(found@) + passed_over(all.subrange(i as int, all.len() as int)),
        decreases args@.len() - i,
    {
        let ghost rest = all.subrange(i as int, all.len() as int);
        assert(rest[0] == args@[i as int]@);
        if text_eq(args[i].as_str(), "--port") {
            if args.len() - i < 2 {
                assert(texts(found@) + Seq::<Seq<char>>::empty() =~= texts(found@));
                return found;
            }
            assert(rest.subrange(2, rest.len() as int) =~= all.subrange(i + 2, all.len() as int));
            i = i + 2;
        } else if text_eq(args[i].as_str(), "--replicaof") {
            if args.len() - i < 3 {
                assert(texts(found@) + Seq::<Seq<char>>::empty() =~= texts(found@));
                return found;
            }
            assert(rest.subrange(3, rest.len() as int) =~= all.subrange(i + 3, all.len() as int));
            i = i + 3;
        } else {
            let ghost before = texts(found@);
            found.push(args[i].clone());
            assert(texts(found@) =~= before + seq![rest[0]]);
            assert(rest.drop_first() =~= all.subrange(i + 1, all.len() as int));
            assert(before + (seq![rest[0]] + passed_over(rest.drop_first())) =~= texts(found@)
                + passed_over(rest.drop_first()));
            i = i + 1;
        }
    }
    assert(texts(found@) + Seq::<Seq<char>>::empty() =~= texts(found@));
    found
}

impl Config {
    pub closed spec fn port_of(&self) -> Seq<char> {
        self.port@
    }

    pub closed spec fn role_of(&self) -> Role {
        self.role
    }

    /// The configuration that `args` (the program's arguments, its name left
    /// out) set: port 6379 unless `--port` names another, and a leader, with a
    /// fixed replication id and offset 0, unless `--replicaof` names the
    /// leader that this server follows.
    pub fn parse(args: &Vec<String>) -> (r: Result<Config, ConfigError>)
        ensures
            match scan_args(texts(args@), None, None) {
                Ok((port, master)) => r matches Ok(c) && c.port_of() == match port {
                    Some(p) => p,
                    None => "6379"@,
                } && match master {
                    Some(m) => c.role_of() matches Role::Slave { master } && master@ == m,
                    None => c.role_of() matches Role::Master { id, offset } && id@
                        == "8371b4fb1155b71f4a04d3e1bc3e18c4a990aeeb"@ && offset == 0,
                },
                Err(e) => r matches Err(e2) && e2 == e,
            },
    {
        let ghost all = texts(args@);
        let mut port: Option<String> = None;
        let mut master: Option<String> = None;
        let mut i: usize = 0;
        assert(all.subrange(0, all.len() as int) =~= all);
        while i < args.len()
            invariant
                all == texts(args@),
                i <= args@.len(),
                scan_args(all, None, None) == scan_args(
                    all.subrange(i as int, all.len() as int),
                    text_of(port),
                    text_of(master),
                ),
            decreases args@.len() - i,
        {
            let ghost rest = all.subrange(i as int, all.len() as int);
            assert(rest[0] == args@[i as int]@);
            if text_eq(args[i].as_str(), "--port") {
                if args.len() - i < 2 {
                    return Err(ConfigError::MissingPort);
                }
                assert(rest[1] == args@[i + 1]@);
                port = Some(args[i + 1].clone());
                assert(rest.subrange(2, rest.len() as int) =~= all.subrange(i + 2, all.len() as int));
                i = i + 2;
            } else if text_eq(args[i].as_str(), "--replicaof") {
                if args.len() - i < 2 {
                    return Err(ConfigError::MissingMasterHost);
                }
                if args.len() - i < 3 {
                    return Err(ConfigError::MissingMasterPort);
                }
                assert(rest[1] == args@[i + 1]@);
                assert(rest[2] == args@[i + 2]@);
                let mut address = args[i + 1].clone();
                address.append(":");
                address.append(args[i + 2].as_str());
                master = Some(address);
                assert(rest.subrange(3, rest.len() as int) =~= all.subrange(i + 3, all.len() as int));
                i = i + 3;
            } else {
                assert(rest.drop_first() =~= all.subrange(i + 1, all.len() as int));
                i = i + 1;
            }
        }
        let port = match port {
            Some(p) => p,
            None => "6379".to_owned(),
        };
        let role = match master {
            Some(m) => Role::Slave { master: m },
            None => Role::Master { id: "8371b4fb1155b71f4a04d3e1bc3e18c4a990aeeb".to_owned(), offset: 0 },
        };
        Ok(Config { port, role })
    }

    pub fn port(&self) -> (r: &str)
        ensures
            r@ == self.port_of(),
    {
        self.port.as_str()
    }

    pub fn role(&self) -> (r: &Role)
        ensures
            *r == self.role_of(),
    {
        &self.role
    }
}

} // verus!
