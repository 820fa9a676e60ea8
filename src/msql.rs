use vstd::prelude::*;

use crate::operation::TableOps;

verus! {

/// Opens a transaction on the tables it declares.
#[derive(Debug, PartialEq, Eq, Hash)]
pub struct MsqlBeginTx {
    pub tx: Option<String>,
    pub tableops: TableOps,
}

/// One statement of a transaction, with the tables it touches.
#[derive(Debug, PartialEq, Eq, Hash)]
pub struct MsqlQuery {
    pub query: String,
    pub tableops: TableOps,
}

/// How a transaction ends.
#[derive(Clone, Copy, Debug, PartialEq, Eq, Structural, Hash)]
pub enum EndTxMode {
    Commit,
    Abort,
}

/// Closes the transaction in progress.
#[derive(Clone, Debug, PartialEq, Eq, Hash)]
pub struct MsqlEndTx {
    pub tx: Option<String>,
    pub mode: EndTxMode,
}

/// A request of a client session.
#[derive(Debug, PartialEq, Eq, Hash)]
pub enum Msql {
    BeginTx(MsqlBeginTx),
    Query(MsqlQuery),
    EndTx(MsqlEndTx),
}

} // verus!
