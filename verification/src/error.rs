use vstd::prelude::*;
use crate::config::ConfigError;

verus! {

/// The conditions under which a node cannot go on.
#[derive(Clone, Copy, Debug, PartialEq, Eq, Structural)]
pub enum RaftError {
    /// The configuration the node was to be started with is invalid.
    Config(ConfigError),
    /// An election would need a term beyond the largest representable one.
    TermOverflow,
    /// An entry would need an index beyond the largest usable one.
    LogFull,
}

} // verus!
