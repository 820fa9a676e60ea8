use vstd::prelude::*;

use crate::dispatcher::release_at_all;
use crate::error::SchedError;
use crate::manager::{DbVNManager, ReplicaAddr};
use crate::state::ConnectionState;
use crate::version::{vn_in, TxVN};

verus! {

/// The reply to one request of a client session.
#[derive(Debug, PartialEq, Eq, Hash)]
pub enum MsqlResponse {
    BeginTx(Result<(), String>),
    Query(Result<String, String>),
    EndTx(Result<(), String>),
}

/// The text of an error, as sent to the client.
pub fn error_text(e: SchedError) -> (r: String)
    ensures
        r@ == e.message_text(),
{
    e.message().to_owned()
}

/// The reply owed to a `BeginTx` that fails with `e`.
pub open spec fn is_begin_error(r: MsqlResponse, e: SchedError) -> bool {
    match r {
        MsqlResponse::BeginTx(Err(s)) => s@ == e.message_text(),
        _ => false,
    }
}

/// The first step of a `BeginTx`: with a transaction already open the session replies
/// at once with an error; otherwise (`None`) the sequencer is to be asked for grants.
pub fn begin_tx(conn: &ConnectionState) -> (r: Option<MsqlResponse>)
    ensures
        match conn@ {
            Some(_) => r is Some && is_begin_error(r->Some_0, SchedError::TxAlreadyOpen),
            None => r is None,
        },
{
    if conn.current_txvn().is_some() {
        Some(MsqlResponse::BeginTx(Err(error_text(SchedError::TxAlreadyOpen))))
    } else {
        None
    }
}

/// The second step of a `BeginTx`: what the sequencer answered (`None` when it could
/// not be reached or did not answer with grants). The grants become the session's
/// transaction.
pub fn begin_tx_done(conn: &mut ConnectionState, reply: Option<TxVN>) -> (r: MsqlResponse)
    ensures
        match reply {
            None => final(conn)@ == old(conn)@ && is_begin_error(
                r,
                SchedError::SequencerUnavailable,
            ),
            Some(t) => match old(conn)@ {
                None => final(conn)@ == Some(t) && r == MsqlResponse::BeginTx(Ok(())),
                Some(_) => final(conn)@ == old(conn)@ && is_begin_error(
                    r,
                    SchedError::TxAlreadyOpen,
                ),
            },
        },
{
    match reply {
        None => MsqlResponse::BeginTx(Err(error_text(SchedError::SequencerUnavailable))),
        Some(t) => match conn.insert_txvn(t) {
            Ok(()) => MsqlResponse::BeginTx(Ok(())),
            Err(e) => MsqlResponse::BeginTx(Err(error_text(e))),
        },
    }
}

/// The last step of an `EndTx`, once the replicas of `acked` have acknowledged it:
/// the transaction's grants are released at each of them and the session's
/// transaction is cleared. With no transaction open the session replies with an error
/// and nothing changes.
pub fn end_tx_done(
    manager: &mut DbVNManager,
    conn: &mut ConnectionState,
    acked: &Vec<ReplicaAddr>,
) -> (r: MsqlResponse)
    requires
        old(manager).wf(),
        old(conn)@ matches Some(t) ==> t.releasable(),
    ensures
        final(manager).wf(),
        match old(conn)@ {
            None => {
                &&& final(conn)@ == old(conn)@
                &&& final(manager)@ == old(manager)@
                &&& match r {
                    MsqlResponse::EndTx(Err(s)) => s@ == SchedError::NoOpenTx.message_text(),
                    _ => false,
                }
            },
            Some(t) => {
                &&& final(conn)@ is None
                &&& r == MsqlResponse::EndTx(Ok(()))
                &&& forall|a: ReplicaAddr|
                    #[trigger] final(manager)@.contains_key(a) <==> old(manager)@.contains_key(a)
                        || acked@.contains(a)
                &&& forall|a: ReplicaAddr, u: Seq<char>|
                    old(manager)@.contains_key(a) ==> #[trigger] vn_in(final(manager)@[a], u)
                        >= vn_in(old(manager)@[a], u)
                &&& forall|a: ReplicaAddr, i: int|
                    acked@.contains(a) && 0 <= i < t.grants().len() ==> vn_in(
                        #[trigger] final(manager)@[a],
                        #[trigger] t.grants()[i].0,
                    ) >= t.grants()[i].1 + 1
            },
        },
{
    match conn.take_current_txvn() {
        Err(e) => MsqlResponse::EndTx(Err(error_text(e))),
        Ok(t) => {
            release_at_all(manager, acked, &t);
            MsqlResponse::EndTx(Ok(()))
        },
    }
}

} // verus!
