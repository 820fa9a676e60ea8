use vstd::prelude::*;

use crate::error::SchedError;
use crate::version::TxVN;

verus! {

/// The per-session slot for the transaction in progress, if any.
#[derive(Debug)]
pub struct ConnectionState {
    cur_txvn: Option<TxVN>,
}

impl View for ConnectionState {
    type V = Option<TxVN>;

    closed spec fn view(&self) -> Option<TxVN> {
        self.cur_txvn
    }
}

impl Default for ConnectionState {
    fn default() -> (r: ConnectionState)
        ensures
            r@.is_none(),
    {
        ConnectionState { cur_txvn: None }
    }
}

impl ConnectionState {
    /// The transaction in progress.
    pub fn current_txvn(&self) -> (r: &Option<TxVN>)
        ensures
            *r == self@,
    {
        &self.cur_txvn
    }

    /// Takes the transaction in progress out of the slot; with the slot empty, fails
    /// and leaves it as it is.
    pub fn take_current_txvn(&mut self) -> (r: Result<TxVN, SchedError>)
        ensures
            match old(self)@ {
                Some(t) => r == Ok::<TxVN, SchedError>(t) && final(self)@.is_none(),
                None => r == Err::<TxVN, SchedError>(SchedError::NoOpenTx) && final(self)@ == old(self)@,
            },
    {
        match self.cur_txvn.take() {
            Some(t) => Ok(t),
            None => Err(SchedError::NoOpenTx),
        }
    }

    /// Puts a new transaction into the slot; with the slot full, fails and leaves it as
    /// it is.
    pub fn insert_txvn(&mut self, new_txvn: TxVN) -> (r: Result<(), SchedError>)
        ensures
            match old(self)@ {
                Some(_) => r == Err::<(), SchedError>(SchedError::TxAlreadyOpen) && final(self)@ == old(self)@,
                None => r == Ok::<(), SchedError>(()) && final(self)@ == Some(new_txvn),
            },
    {
        if self.cur_txvn.is_some() {
            return Err(SchedError::TxAlreadyOpen);
        }
        self.cur_txvn = Some(new_txvn);
        Ok(())
    }
}

} // verus!
