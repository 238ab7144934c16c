//! Command-line parsing for the two binaries. The binaries read the process
//! arguments and hand them here as plain strings; the grammar itself is
//! checked code.

use vstd::prelude::*;

pub mod client_parser;
pub mod server_parser;

verus! {

/// The views of an argument list.
pub open spec fn arg_views(args: Seq<String>) -> Seq<Seq<char>> {
    args.map_values(|s: String| s@)
}

/// The address a client or server uses when none is given.
pub open spec fn spec_default_addr() -> Seq<char> {
    "127.0.0.1:4000"@
}

} // verus!
