//! The entries of an input recording, as the pass sees them: each entry's
//! channel topic, schema name and payload, in stored order.
use vstd::prelude::*;

verus! {

/// One entry of a recording: its channel's topic, the name of the channel's
/// schema (if it has one) and the payload.
#[derive(Clone, Debug)]
pub struct LogEntry {
    pub topic: Vec<u8>,
    pub schema_name: Option<Vec<u8>>,
    pub payload: Vec<u8>,
}

pub struct EntryModel {
    pub topic: Seq<u8>,
    pub schema_name: Option<Seq<u8>>,
    pub payload: Seq<u8>,
}

impl View for LogEntry {
    type V = EntryModel;

    open spec fn view(&self) -> EntryModel {
        EntryModel {
            topic: self.topic@,
            schema_name: match self.schema_name {
                Some(n) => Some(n@),
                None => None,
            },
            payload: self.payload@,
        }
    }
}

} // verus!
