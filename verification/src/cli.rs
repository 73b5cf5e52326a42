//! How the program is started: as a client or as a server, and where.

use vstd::prelude::*;

verus! {

/// Whether this process joins a game or hosts it.
#[derive(Copy, Clone, PartialEq, Eq, PartialOrd, Ord, Debug)]
pub enum Mode {
    Client,
    Server,
}

/// The command line: the mode and the address to connect to or listen on.
pub struct Cli {
    pub mode: Mode,
    pub addrs: String,
}

} // verus!
