//! Startup arguments: the four optional flags and their defaults.  The
//! caller parses the command line into a [`Cli`] and this module applies
//! the defaults.

use vstd::prelude::*;

use crate::bytesutil::str_bytes;
use vstd::string::StringSliceAdditionalSpecFns;

verus! {

/// The startup flags, each optional.
pub struct Cli {
    pub dir: Option<Vec<u8>>,
    pub dbfilename: Option<Vec<u8>>,
    pub port: Option<Vec<u8>>,
    pub replicaof: Option<Vec<u8>>,
}

/// The directory, snapshot name, port, and replica target, with the
/// defaults `.`, `dump.rdb`, `6379` and the empty string applied.
pub fn getargs(cli: Cli) -> (r: (Vec<u8>, Vec<u8>, Vec<u8>, Vec<u8>))
    ensures
        r.0@ == (match cli.dir {
            Some(d) => d@,
            None => ".".spec_bytes(),
        }),
        r.1@ == (match cli.dbfilename {
            Some(d) => d@,
            None => "dump.rdb".spec_bytes(),
        }),
        r.2@ == (match cli.port {
            Some(d) => d@,
            None => "6379".spec_bytes(),
        }),
        r.3@ == (match cli.replicaof {
            Some(d) => d@,
            None => Seq::empty(),
        }),
{
    let dir = match cli.dir {
        Some(d) => d,
        None => str_bytes("."),
    };
    let dbfilename = match cli.dbfilename {
        Some(d) => d,
        None => str_bytes("dump.rdb"),
    };
    let port = match cli.port {
        Some(d) => d,
        None => str_bytes("6379"),
    };
    let replicaof = match cli.replicaof {
        Some(d) => d,
        None => Vec::new(),
    };
    (dir, dbfilename, port, replicaof)
}

} // verus!
