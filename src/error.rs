use vstd::prelude::*;

verus! {

/// Why a request of a session could not be served.
#[derive(Clone, Copy, Debug, PartialEq, Eq, Structural, Hash)]
pub enum SchedError {
    /// A transaction was begun while another one is still open.
    TxAlreadyOpen,
    /// A transaction was ended, or a statement sent, with no transaction open.
    NoOpenTx,
    /// A single statement mixes reads and writes.
    MixedQuery,
    /// A statement touches a table for which the transaction holds no version grant.
    MissingGrant,
    /// The sequencer could not be reached or answered with something else than grants.
    SequencerUnavailable,
    /// A replica could not be reached.
    ReplicaUnavailable,
}

/// The semantic category of an error.
#[derive(Clone, Copy, Debug, PartialEq, Eq, Structural, Hash)]
pub enum ErrorKind {
    ProtocolMisuse,
    MalformedQuery,
    MissingGrant,
    SequencerUnavailable,
    ReplicaUnavailable,
}

impl SchedError {
    pub open spec fn kind_spec(self) -> ErrorKind {
        match self {
            SchedError::TxAlreadyOpen => ErrorKind::ProtocolMisuse,
            SchedError::NoOpenTx => ErrorKind::ProtocolMisuse,
            SchedError::MixedQuery => ErrorKind::MalformedQuery,
            SchedError::MissingGrant => ErrorKind::MissingGrant,
            SchedError::SequencerUnavailable => ErrorKind::SequencerUnavailable,
            SchedError::ReplicaUnavailable => ErrorKind::ReplicaUnavailable,
        }
    }

    pub fn kind(&self) -> (r: ErrorKind)
        ensures
            r == self.kind_spec(),
    {
        match self {
            SchedError::TxAlreadyOpen => ErrorKind::ProtocolMisuse,
            SchedError::NoOpenTx => ErrorKind::ProtocolMisuse,
            SchedError::MixedQuery => ErrorKind::MalformedQuery,
            SchedError::MissingGrant => ErrorKind::MissingGrant,
            SchedError::SequencerUnavailable => ErrorKind::SequencerUnavailable,
            SchedError::ReplicaUnavailable => ErrorKind::ReplicaUnavailable,
        }
    }

    pub open spec fn message_text(self) -> Seq<char> {
        match self {
            SchedError::TxAlreadyOpen => "Previous transaction not finished yet"@,
            SchedError::NoOpenTx => "No transaction is in progress"@,
            SchedError::MixedQuery => "mixed R/W"@,
            SchedError::MissingGrant => "The query touches a table the transaction did not declare"@,
            SchedError::SequencerUnavailable => "Invalid response from Sequencer"@,
            SchedError::ReplicaUnavailable => "The replica could not be reached"@,
        }
    }

    /// The text sent back to the client.
    pub fn message(&self) -> (r: &'static str)
        ensures
            r@ == self.message_text(),
    {
        match self {
            SchedError::TxAlreadyOpen => "Previous transaction not finished yet",
            SchedError::NoOpenTx => "No transaction is in progress",
            SchedError::MixedQuery => "mixed R/W",
            SchedError::MissingGrant => "The query touches a table the transaction did not declare",
            SchedError::SequencerUnavailable => "Invalid response from Sequencer",
            SchedError::ReplicaUnavailable => "The replica could not be reached",
        }
    }
}

} // verus!
