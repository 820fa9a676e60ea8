use vstd::prelude::*;

use crate::error::SchedError;
use crate::manager::{addr_lt, DbVNManager, ReplicaAddr};
use crate::msql::Msql;
use crate::operation::{pattern_of, AccessPattern, Operation};
use crate::sequencer::{assigned, law_sequencer_monotone};
use crate::version::{grant_ready, grants_cover, ready, release_vn, vn_in, TxVN};

verus! {

/// Where a statement goes.
#[derive(Clone, Debug, PartialEq, Eq, Hash)]
pub enum Dispatch {
    /// To this one replica.
    One(ReplicaAddr),
    /// To each of these replicas; a write waits at each one until it is ready.
    All(Vec<ReplicaAddr>),
    /// No replica is ready yet: wait for the next release, then decide again.
    Wait,
}

/// `v` lists every replica of the manager once.
pub open spec fn lists_all(m: &DbVNManager, v: Seq<ReplicaAddr>) -> bool {
    &&& v.no_duplicates()
    &&& forall|a: ReplicaAddr| #[trigger] v.contains(a) <==> m@.contains_key(a)
}

/// The decision for a read under the grants `g`: the lowest-addressed ready replica,
/// or waiting when none is ready.
pub open spec fn read_decision(
    m: &DbVNManager,
    ops: Seq<(Seq<char>, Operation)>,
    g: Seq<(Seq<char>, u64, Operation)>,
    d: Dispatch,
) -> bool {
    match d {
        Dispatch::One(a) => {
            &&& m@.contains_key(a)
            &&& ready(m@[a], ops, g)
            &&& forall|b: ReplicaAddr|
                #[trigger] m@.contains_key(b) && ready(m@[b], ops, g) ==> b == a || addr_lt(a, b)
        },
        Dispatch::Wait => forall|b: ReplicaAddr|
            #[trigger] m@.contains_key(b) ==> !ready(m@[b], ops, g),
        Dispatch::All(_) => false,
    }
}

/// The routing decision that `assign_dbproxy_for_execution` owes for `msql`.
pub open spec fn dispatch_spec(
    m: &DbVNManager,
    msql: &Msql,
    txvn: Option<TxVN>,
    r: Result<Dispatch, SchedError>,
) -> bool {
    match msql {
        Msql::BeginTx(_) => false,
        Msql::Query(q) => {
            let ops = q.tableops@;
            match pattern_of(ops) {
                AccessPattern::Mixed => r == Err::<Dispatch, SchedError>(SchedError::MixedQuery),
                AccessPattern::ReadOnly => match txvn {
                    None => match r {
                        Ok(Dispatch::One(a)) => m.is_freshest(a, ops),
                        Ok(Dispatch::Wait) => m@.dom() == Set::<ReplicaAddr>::empty(),
                        _ => false,
                    },
                    Some(t) => if !grants_cover(ops, t.grants()) {
                        r == Err::<Dispatch, SchedError>(SchedError::MissingGrant)
                    } else {
                        match r {
                            Ok(d) => read_decision(m, ops, t.grants(), d),
                            Err(_) => false,
                        }
                    },
                },
                AccessPattern::WriteOnly => match txvn {
                    None => r == Err::<Dispatch, SchedError>(SchedError::NoOpenTx),
                    Some(t) => if !grants_cover(ops, t.grants()) {
                        r == Err::<Dispatch, SchedError>(SchedError::MissingGrant)
                    } else {
                        match r {
                            Ok(Dispatch::All(v)) => lists_all(m, v@),
                            _ => false,
                        }
                    },
                },
            }
        },
        Msql::EndTx(_) => match txvn {
            None => r == Err::<Dispatch, SchedError>(SchedError::NoOpenTx),
            Some(_) => match r {
                Ok(Dispatch::All(v)) => lists_all(m, v@),
                _ => false,
            },
        },
    }
}

/// Chooses where a statement or the end of a transaction goes: a read to one ready
/// replica (or, without grants, to the freshest one), a write and the end of a
/// transaction to every replica. A statement that mixes reads and writes, touches a
/// table without a grant, or needs a transaction where none is open is refused.
pub fn assign_dbproxy_for_execution(
    manager: &DbVNManager,
    msql: &Msql,
    txvn: &Option<TxVN>,
) -> (r: Result<Dispatch, SchedError>)
    requires
        manager.wf(),
        !(msql is BeginTx),
    ensures
        dispatch_spec(manager, msql, *txvn, r),
{
    match msql {
        Msql::BeginTx(_) => Err(SchedError::NoOpenTx),
        Msql::Query(q) => {
            let tableops = &q.tableops;
            match tableops.access_pattern() {
                AccessPattern::Mixed => Err(SchedError::MixedQuery),
                AccessPattern::ReadOnly => match txvn {
                    None => match manager.freshest_replica(tableops) {
                        Some(a) => Ok(Dispatch::One(a)),
                        None => Ok(Dispatch::Wait),
                    },
                    Some(t) => {
                        let ready_set = manager.get_all_that_can_execute_read_query(tableops, t);
                        match ready_set {
                            Err(e) => Err(e),
                            Ok(v) => {
                                if v.len() == 0 {
                                    proof {
                                        assert forall|b: ReplicaAddr|
                                            #[trigger] manager@.contains_key(b) implies !ready(
                                            manager@[b],
                                            tableops@,
                                            t.grants(),
                                        ) by {
                                            if ready(manager@[b], tableops@, t.grants()) {
                                                assert(manager@.contains_key(b) && ready(
                                                    manager@[b],
                                                    tableops@,
                                                    t.grants(),
                                                ));
                                            }
                                        }
                                    }
                                    Ok(Dispatch::Wait)
                                } else {
                                    let a = v[0].0;
                                    proof {
                                        assert forall|b: ReplicaAddr|
                                            #[trigger] manager@.contains_key(b) && ready(
                                                manager@[b],
                                                tableops@,
                                                t.grants(),
                                            ) implies b == a || addr_lt(a, b) by {
                                            let k = choose|k: int|
                                                0 <= k < v@.len() && v@[k].0 == b;
                                            if k > 0 {
                                                assert(addr_lt(v@[0].0, v@[k].0));
                                            }
                                        }
                                        assert(manager@.contains_key(v@[0].0));
                                    }
                                    Ok(Dispatch::One(a))
                                }
                            },
                        }
                    },
                },
                AccessPattern::WriteOnly => match txvn {
                    None => Err(SchedError::NoOpenTx),
                    Some(t) => {
                        if !t.covers(tableops) {
                            Err(SchedError::MissingGrant)
                        } else {
                            Ok(Dispatch::All(manager.addrs()))
                        }
                    },
                },
            }
        },
        Msql::EndTx(_) => match txvn {
            None => Err(SchedError::NoOpenTx),
            Some(_) => Ok(Dispatch::All(manager.addrs())),
        },
    }
}

/// Releases the grants of a finished transaction at each replica of `addrs`.
pub fn release_at_all(manager: &mut DbVNManager, addrs: &Vec<ReplicaAddr>, txvn: &TxVN)
    requires
        old(manager).wf(),
        txvn.releasable(),
    ensures
        final(manager).wf(),
        forall|a: ReplicaAddr|
            #[trigger] final(manager)@.contains_key(a) <==> old(manager)@.contains_key(a)
                || addrs@.contains(a),
        forall|a: ReplicaAddr, t: Seq<char>|
            old(manager)@.contains_key(a) ==> #[trigger] vn_in(final(manager)@[a], t) >= vn_in(
                old(manager)@[a],
                t,
            ),
        forall|a: ReplicaAddr, i: int|
            addrs@.contains(a) && 0 <= i < txvn.grants().len() ==> vn_in(
                #[trigger] final(manager)@[a],
                #[trigger] txvn.grants()[i].0,
            ) >= txvn.grants()[i].1 + 1,
{
    let ghost m0 = manager@;
    let mut k: usize = 0;
    while k < addrs.len()
        invariant
            0 <= k <= addrs.len(),
            manager.wf(),
            txvn.releasable(),
            forall|a: ReplicaAddr|
                #[trigger] manager@.contains_key(a) <==> m0.contains_key(a) || addrs@.take(
                    k as int,
                ).contains(a),
            forall|a: ReplicaAddr, t: Seq<char>|
                m0.contains_key(a) ==> #[trigger] vn_in(manager@[a], t) >= vn_in(m0[a], t),
            forall|a: ReplicaAddr, i: int|
                addrs@.take(k as int).contains(a) && 0 <= i < txvn.grants().len() ==> vn_in(
                    #[trigger] manager@[a],
                    #[trigger] txvn.grants()[i].0,
                ) >= txvn.grants()[i].1 + 1,
        decreases addrs.len() - k,
    {
        let a = addrs[k];
        let ghost before = manager@;
        manager.release_version(a, txvn);
        proof {
            assert forall|b: ReplicaAddr|
                addrs@.take(k + 1).contains(b) <==> (addrs@.take(k as int).contains(b) || b == a) by {
                if addrs@.take(k as int).contains(b) {
                    let j = choose|j: int| 0 <= j < k && #[trigger] addrs@.take(k as int)[j] == b;
                    assert(addrs@.take(k + 1)[j] == b);
                }
                if b == a {
                    assert(addrs@.take(k + 1)[k as int] == b);
                }
                if addrs@.take(k + 1).contains(b) {
                    let j = choose|j: int| 0 <= j < k + 1 && #[trigger] addrs@.take(k + 1)[j] == b;
                    if j < k {
                        assert(addrs@.take(k as int)[j] == b);
                    }
                }
            }
            assert forall|b: ReplicaAddr|
                #[trigger] manager@.contains_key(b) <==> m0.contains_key(b) || addrs@.take(
                    k + 1,
                ).contains(b) by {
                assert(manager@.dom().contains(b) == before.dom().insert(a).contains(b));
                assert(before.contains_key(b) <==> m0.contains_key(b) || addrs@.take(k as int).contains(b));
                assert(addrs@.take(k + 1).contains(b) <==> (addrs@.take(k as int).contains(b) || b == a));
            }
            assert forall|b: ReplicaAddr, t: Seq<char>|
                m0.contains_key(b) implies #[trigger] vn_in(manager@[b], t) >= vn_in(m0[b], t) by {
                if b == a {
                    let cur = if before.contains_key(a) {
                        vn_in(before[a], t) as int
                    } else {
                        0
                    };
                    assert(vn_in(manager@[a], t) as int == release_vn(cur, txvn.grants(), t));
                    crate::version::law_release_monotone(cur, txvn.grants(), t);
                } else {
                    assert(before.contains_key(b));
                }
            }
            assert forall|b: ReplicaAddr, i: int|
                addrs@.take(k + 1).contains(b) && 0 <= i < txvn.grants().len() implies vn_in(
                    #[trigger] manager@[b],
                    #[trigger] txvn.grants()[i].0,
                ) >= txvn.grants()[i].1 + 1 by {
                let t = txvn.grants()[i].0;
                if b == a {
                    let cur = if before.contains_key(a) {
                        vn_in(before[a], t) as int
                    } else {
                        0
                    };
                    assert(vn_in(manager@[a], t) as int == release_vn(cur, txvn.grants(), t));
                    crate::version::law_release_passes_grants(cur, txvn.grants(), i);
                } else {
                    assert(addrs@.take(k as int).contains(b));
                    assert(before.contains_key(b));
                    assert(vn_in(before[b], t) >= txvn.grants()[i].1 + 1);
                }
            }
        }
        k = k + 1;
    }
    assert(addrs@.take(addrs@.len() as int) =~= addrs@);
}

/// Two transactions that were granted the same table one after the other cannot both
/// be ready to write it at the same replica state: their versions differ.
pub proof fn law_write_exclusive(
    m0: Map<Seq<char>, u64>,
    ops1: Seq<(Seq<char>, Operation)>,
    g1: Seq<(Seq<char>, u64, Operation)>,
    m1: Map<Seq<char>, u64>,
    ops2: Seq<(Seq<char>, Operation)>,
    g2: Seq<(Seq<char>, u64, Operation)>,
    m2: Map<Seq<char>, u64>,
    i: int,
    j: int,
    cur: u64,
)
    requires
        assigned(m0, ops1, g1, m1),
        assigned(m1, ops2, g2, m2),
        0 <= i < g1.len(),
        0 <= j < g2.len(),
        g1[i].0 == g2[j].0,
    ensures
        !(grant_ready(cur, g1[i].1, Operation::W) && grant_ready(cur, g2[j].1, Operation::W)),
{
    law_sequencer_monotone(m0, ops1, g1, m1, ops2, g2, m2, i, j);
}

} // verus!
