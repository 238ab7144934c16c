//! The client's command line: `get KEY`, `set KEY VALUE` or `rm KEY`, each
//! optionally followed by `--addr ADDR` (or `-a ADDR`).

use vstd::prelude::*;

use crate::common::{GetAction, Methods, MethodsV, RemoveAction, SetAction};
use crate::error::KVError;
use crate::parser::{arg_views, spec_default_addr};

verus! {

/// A parsed client invocation.
pub struct Cli {
    pub params: Methods,
}

/// What an argument list (without the binary's own name) parses to.
pub open spec fn spec_parse_client(a: Seq<Seq<char>>) -> Option<MethodsV> {
    if a.len() < 2 {
        None
    } else {
        let key = a[1];
        if a[0] == "get"@ {
            if a.len() == 2 {
                Some(MethodsV::Get { key, addr: spec_default_addr() })
            } else if a.len() == 4 && (a[2] == "--addr"@ || a[2] == "-a"@) {
                Some(MethodsV::Get { key, addr: a[3] })
            } else {
                None
            }
        } else if a[0] == "rm"@ {
            if a.len() == 2 {
                Some(MethodsV::Rm { key, addr: spec_default_addr() })
            } else if a.len() == 4 && (a[2] == "--addr"@ || a[2] == "-a"@) {
                Some(MethodsV::Rm { key, addr: a[3] })
            } else {
                None
            }
        } else if a[0] == "set"@ {
            if a.len() == 3 {
                Some(MethodsV::Put { key, value: a[2], addr: spec_default_addr() })
            } else if a.len() == 5 && (a[3] == "--addr"@ || a[3] == "-a"@) {
                Some(MethodsV::Put { key, value: a[2], addr: a[4] })
            } else {
                None
            }
        } else {
            None
        }
    }
}

impl Cli {
    /// Parse the arguments that followed the binary's name.
    pub fn parse_cli(args: Vec<String>) -> (r: Result<Cli, KVError>)
        ensures
            match r {
                Ok(cli) => spec_parse_client(arg_views(args@)) == Some(cli.params@),
                Err(e) => spec_parse_client(arg_views(args@)) is None && e
                    == KVError::ParseError,
            },
    {
        let n = args.len();
        if n < 2 {
            return Err(KVError::ParseError);
        }
        let get_s: String = "get".to_owned();
        let rm_s: String = "rm".to_owned();
        let set_s: String = "set".to_owned();
        let addr_long: String = "--addr".to_owned();
        let addr_short: String = "-a".to_owned();
        if args[0].eq(&get_s) {
            if n == 2 {
                let act = GetAction { key: args[1].clone(), addr: "127.0.0.1:4000".to_owned() };
                return Ok(Cli { params: Methods::Get(act) });
            }
            if n == 4 && (args[2].eq(&addr_long) || args[2].eq(&addr_short)) {
                let act = GetAction { key: args[1].clone(), addr: args[3].clone() };
                return Ok(Cli { params: Methods::Get(act) });
            }
            return Err(KVError::ParseError);
        }
        if args[0].eq(&rm_s) {
            if n == 2 {
                let act = RemoveAction { key: args[1].clone(), addr: "127.0.0.1:4000".to_owned() };
                return Ok(Cli { params: Methods::Rm(act) });
            }
            if n == 4 && (args[2].eq(&addr_long) || args[2].eq(&addr_short)) {
                let act = RemoveAction { key: args[1].clone(), addr: args[3].clone() };
                return Ok(Cli { params: Methods::Rm(act) });
            }
            return Err(KVError::ParseError);
        }
        if args[0].eq(&set_s) {
            if n == 3 {
                let act = SetAction {
                    key: args[1].clone(),
                    value: args[2].clone(),
                    addr: "127.0.0.1:4000".to_owned(),
                };
                return Ok(Cli { params: Methods::Put(act) });
            }
            if n == 5 && (args[3].eq(&addr_long) || args[3].eq(&addr_short)) {
                let act = SetAction {
                    key: args[1].clone(),
                    value: args[2].clone(),
                    addr: args[4].clone(),
                };
                return Ok(Cli { params: Methods::Put(act) });
            }
            return Err(KVError::ParseError);
        }
        Err(KVError::ParseError)
    }
}

} // verus!
