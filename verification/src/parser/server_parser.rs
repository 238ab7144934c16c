//! The server's command line: optional `--addr ADDR` (or `-a`) and optional
//! `--engine kvs|sled` (or `-e`), in either order.

use vstd::prelude::*;

use crate::common::Engine;
use crate::error::KVError;
use crate::parser::{arg_views, spec_default_addr};

verus! {

/// A parsed server invocation.
pub struct Cli {
    pub addr: String,
    pub engine: Engine,
}

pub open spec fn spec_engine_of(s: Seq<char>) -> Option<Engine> {
    if s == "kvs"@ {
        Some(Engine::Kvs)
    } else if s == "sled"@ {
        Some(Engine::Sled)
    } else {
        None
    }
}

pub open spec fn is_addr_flag(s: Seq<char>) -> bool {
    s == "--addr"@ || s == "-a"@
}

pub open spec fn is_engine_flag(s: Seq<char>) -> bool {
    s == "--engine"@ || s == "-e"@
}

/// What a server argument list parses to: the address and the backend.
pub open spec fn spec_parse_server(a: Seq<Seq<char>>) -> Option<(Seq<char>, Engine)> {
    if a.len() == 0 {
        Some((spec_default_addr(), Engine::Kvs))
    } else if a.len() == 2 {
        if is_addr_flag(a[0]) {
            Some((a[1], Engine::Kvs))
        } else if is_engine_flag(a[0]) {
            match spec_engine_of(a[1]) {
                Some(e) => Some((spec_default_addr(), e)),
                None => None,
            }
        } else {
            None
        }
    } else if a.len() == 4 {
        if is_addr_flag(a[0]) && is_engine_flag(a[2]) {
            match spec_engine_of(a[3]) {
                Some(e) => Some((a[1], e)),
                None => None,
            }
        } else if is_engine_flag(a[0]) && is_addr_flag(a[2]) {
            match spec_engine_of(a[1]) {
                Some(e) => Some((a[3], e)),
                None => None,
            }
        } else {
            None
        }
    } else {
        None
    }
}

fn engine_of(s: &String) -> (r: Option<Engine>)
    ensures
        r == spec_engine_of(s@),
{
    let kvs_s: String = "kvs".to_owned();
    let sled_s: String = "sled".to_owned();
    if s.eq(&kvs_s) {
        Some(Engine::Kvs)
    } else if s.eq(&sled_s) {
        Some(Engine::Sled)
    } else {
        None
    }
}

impl Cli {
    /// Parse the arguments that followed the binary's name.
    pub fn parse_cli(args: Vec<String>) -> (r: Result<Cli, KVError>)
        ensures
            match r {
                Ok(cli) => spec_parse_server(arg_views(args@)) == Some((cli.addr@, cli.engine)),
                Err(e) => spec_parse_server(arg_views(args@)) is None && e
                    == KVError::ParseError,
            },
    {
        let n = args.len();
        let addr_long: String = "--addr".to_owned();
        let addr_short: String = "-a".to_owned();
        let eng_long: String = "--engine".to_owned();
        let eng_short: String = "-e".to_owned();
        if n == 0 {
            return Ok(Cli { addr: "127.0.0.1:4000".to_owned(), engine: Engine::Kvs });
        }
        if n == 2 {
            if args[0].eq(&addr_long) || args[0].eq(&addr_short) {
                return Ok(Cli { addr: args[1].clone(), engine: Engine::Kvs });
            }
            if args[0].eq(&eng_long) || args[0].eq(&eng_short) {
                return match engine_of(&args[1]) {
                    Some(e) => Ok(Cli { addr: "127.0.0.1:4000".to_owned(), engine: e }),
                    None => Err(KVError::ParseError),
                };
            }
            return Err(KVError::ParseError);
        }
        if n == 4 {
            if (args[0].eq(&addr_long) || args[0].eq(&addr_short)) && (args[2].eq(&eng_long)
                || args[2].eq(&eng_short)) {
                return match engine_of(&args[3]) {
                    Some(e) => Ok(Cli { addr: args[1].clone(), engine: e }),
                    None => Err(KVError::ParseError),
                };
            }
            if (args[0].eq(&eng_long) || args[0].eq(&eng_short)) && (args[2].eq(&addr_long)
                || args[2].eq(&addr_short)) {
                return match engine_of(&args[1]) {
                    Some(e) => Ok(Cli { addr: args[3].clone(), engine: e }),
                    None => Err(KVError::ParseError),
                };
            }
            return Err(KVError::ParseError);
        }
        Err(KVError::ParseError)
    }
}

} // verus!
