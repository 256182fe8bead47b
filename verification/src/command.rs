//! The command surface the engine accepts. The command-line layer translates
//! user text into these values; the engine never re-checks argument arity.
use vstd::prelude::*;
use crate::model::CmdModel;

verus! {

/// One store operation. `ttl` is in seconds from the moment the command runs.
/// `Ttl` reports the remaining seconds of a key's active TTL.
#[derive(Debug)]
pub enum Command {
    Put { key: String, value: Vec<u8>, ttl: Option<u64> },
    Get { key: String },
    Delete { key: String },
    Has { key: String },
    Persist { key: String },
    Touch { key: String, ttl: u64 },
    Ttl { key: String },
}

impl View for Command {
    type V = CmdModel;

    open spec fn view(&self) -> CmdModel {
        match self {
            Command::Put { key, value, ttl } => CmdModel::Put {
                key: key@,
                value: value@,
                ttl: *ttl,
            },
            Command::Get { key } => CmdModel::Get { key: key@ },
            Command::Delete { key } => CmdModel::Delete { key: key@ },
            Command::Has { key } => CmdModel::Has { key: key@ },
            Command::Persist { key } => CmdModel::Persist { key: key@ },
            Command::Touch { key, ttl } => CmdModel::Touch { key: key@, ttl: *ttl },
            Command::Ttl { key } => CmdModel::Ttl { key: key@ },
        }
    }
}

} // verus!
