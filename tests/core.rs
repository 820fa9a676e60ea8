use o2versioner::dispatcher::{assign_dbproxy_for_execution, Dispatch};
use o2versioner::error::{ErrorKind, SchedError};
use o2versioner::manager::{DbVNManager, ReplicaAddr};
use o2versioner::msql::{EndTxMode, Msql, MsqlBeginTx, MsqlEndTx, MsqlQuery};
use o2versioner::operation::{AccessPattern, Operation, TableOp, TableOps};
use o2versioner::sequencer::Sequencer;
use o2versioner::session::{begin_tx, begin_tx_done, end_tx_done, MsqlResponse};
use o2versioner::state::ConnectionState;
use o2versioner::version::{DbTableVN, DbVN, TxTableVN, TxVN};

fn addr(port: u16) -> ReplicaAddr {
    ReplicaAddr::new(127, 0, 0, 1, port)
}

fn read_ops(tables: &[&str]) -> TableOps {
    TableOps::from_iter(tables.iter().map(|t| TableOp::new(t, Operation::R)).collect())
}

fn txvn(grants: Vec<TxTableVN>) -> TxVN {
    TxVN { tx: None, txtablevns: grants }
}

#[test]
fn test_take_current_txvn() {
    let mut conn_state = ConnectionState::default();
    assert_eq!(*conn_state.current_txvn(), None);
    conn_state.insert_txvn(TxVN::default()).unwrap();
    assert_eq!(conn_state.take_current_txvn(), Ok(TxVN::default()));
    assert_eq!(*conn_state.current_txvn(), None);
}

#[test]
fn take_on_empty_slot_is_protocol_misuse() {
    let mut conn_state = ConnectionState::default();
    let r = conn_state.take_current_txvn();
    assert_eq!(r, Err(SchedError::NoOpenTx));
    assert_eq!(r.unwrap_err().kind(), ErrorKind::ProtocolMisuse);
    assert_eq!(*conn_state.current_txvn(), None);
}

#[test]
fn insert_on_full_slot_is_protocol_misuse() {
    let mut conn_state = ConnectionState::default();
    let first = txvn(vec![TxTableVN::new("t0", 3, Operation::W)]);
    conn_state.insert_txvn(first.clone()).unwrap();
    let r = conn_state.insert_txvn(TxVN::default());
    assert_eq!(r, Err(SchedError::TxAlreadyOpen));
    assert_eq!(r.unwrap_err().kind(), ErrorKind::ProtocolMisuse);
    assert_eq!(*conn_state.current_txvn(), Some(first));
}

#[test]
fn test_from_iter() {
    let dbvnmanager = DbVNManager::from_iter(vec![addr(10000), addr(10001), addr(10002)]);

    assert!(dbvnmanager.contains_key(&addr(10000)));
    assert!(dbvnmanager.contains_key(&addr(10001)));
    assert!(dbvnmanager.contains_key(&addr(10002)));
    assert!(!dbvnmanager.contains_key(&addr(10003)));
}

#[test]
fn test_get_all_that_can_execute_read_query() {
    let dbvnmanager = DbVNManager::from_iter(vec![addr(10000), addr(10001)]);

    assert_eq!(
        dbvnmanager.get_all_that_can_execute_read_query(
            &read_ops(&["t0", "t1"]),
            &txvn(vec![TxTableVN::new("t0", 0, Operation::R), TxTableVN::new("t1", 0, Operation::R)])
        ),
        Ok(vec![
            (addr(10000), vec![DbTableVN::new("t0", 0), DbTableVN::new("t1", 0)]),
            (addr(10001), vec![DbTableVN::new("t0", 0), DbTableVN::new("t1", 0)])
        ])
    );

    assert_eq!(
        dbvnmanager.get_all_that_can_execute_read_query(
            &read_ops(&["t0", "t1"]),
            &txvn(vec![TxTableVN::new("t0", 0, Operation::R), TxTableVN::new("t1", 1, Operation::R)])
        ),
        Ok(vec![])
    );

    assert_eq!(
        dbvnmanager.get_all_that_can_execute_read_query(
            &read_ops(&["t0"]),
            &txvn(vec![TxTableVN::new("t0", 0, Operation::R), TxTableVN::new("t1", 1, Operation::R)])
        ),
        Ok(vec![
            (addr(10000), vec![DbTableVN::new("t0", 0)]),
            (addr(10001), vec![DbTableVN::new("t0", 0)])
        ])
    );

    assert_eq!(
        dbvnmanager.get_all_that_can_execute_read_query(
            &read_ops(&["t1"]),
            &txvn(vec![TxTableVN::new("t0", 0, Operation::R), TxTableVN::new("t1", 1, Operation::R)])
        ),
        Ok(vec![])
    );
}

#[test]
fn test_release_version() {
    let mut dbvnmanager = DbVNManager::from_iter(vec![addr(10000), addr(10001)]);

    let txvn0 = txvn(vec![TxTableVN::new("t0", 0, Operation::R), TxTableVN::new("t1", 0, Operation::R)]);
    assert_eq!(
        dbvnmanager.get_all_that_can_execute_read_query(&read_ops(&["t0", "t1"]), &txvn0),
        Ok(vec![
            (addr(10000), vec![DbTableVN::new("t0", 0), DbTableVN::new("t1", 0)]),
            (addr(10001), vec![DbTableVN::new("t0", 0), DbTableVN::new("t1", 0)])
        ])
    );

    let txvn1 = txvn(vec![TxTableVN::new("t0", 0, Operation::R), TxTableVN::new("t1", 1, Operation::R)]);
    assert_eq!(
        dbvnmanager.get_all_that_can_execute_read_query(&read_ops(&["t0", "t1"]), &txvn1),
        Ok(vec![])
    );

    dbvnmanager.release_version(addr(10000), &txvn0);
    assert_eq!(
        dbvnmanager.get_all_that_can_execute_read_query(&read_ops(&["t0", "t1"]), &txvn1),
        Ok(vec![(addr(10000), vec![DbTableVN::new("t0", 1), DbTableVN::new("t1", 1)])])
    );

    dbvnmanager.release_version(addr(10001), &txvn0);
    assert_eq!(
        dbvnmanager.get_all_that_can_execute_read_query(&read_ops(&["t0", "t1"]), &txvn1),
        Ok(vec![
            (addr(10000), vec![DbTableVN::new("t0", 1), DbTableVN::new("t1", 1)]),
            (addr(10001), vec![DbTableVN::new("t0", 1), DbTableVN::new("t1", 1)])
        ])
    );
}

#[test]
fn ready_set_is_sorted_by_address() {
    let dbvnmanager = DbVNManager::from_iter(vec![addr(10002), addr(10000), ReplicaAddr::new(10, 0, 0, 1, 9)]);
    let r = dbvnmanager
        .get_all_that_can_execute_read_query(&read_ops(&["t0"]), &txvn(vec![TxTableVN::new("t0", 0, Operation::R)]))
        .unwrap();
    let addrs: Vec<ReplicaAddr> = r.iter().map(|e| e.0).collect();
    assert_eq!(addrs, vec![ReplicaAddr::new(10, 0, 0, 1, 9), addr(10000), addr(10002)]);
}

#[test]
fn read_of_undeclared_table_is_missing_grant() {
    let dbvnmanager = DbVNManager::from_iter(vec![addr(10000)]);
    let r = dbvnmanager
        .get_all_that_can_execute_read_query(&read_ops(&["t2"]), &txvn(vec![TxTableVN::new("t0", 0, Operation::R)]));
    assert_eq!(r, Err(SchedError::MissingGrant));
}

#[test]
fn canonicalization_collapses_and_sorts() {
    let ops = TableOps::from_iter(vec![
        TableOp::new("t1", Operation::R),
        TableOp::new("t0", Operation::R),
        TableOp::new("t1", Operation::W),
        TableOp::new("t0", Operation::R),
    ]);
    assert_eq!(ops.get(), &vec![TableOp::new("t0", Operation::R), TableOp::new("t1", Operation::W)]);
    assert_eq!(ops.access_pattern(), AccessPattern::Mixed);
}

#[test]
fn canonicalization_is_commutative_and_idempotent() {
    let a = vec![TableOp::new("b", Operation::W), TableOp::new("a", Operation::R)];
    let b = vec![TableOp::new("a", Operation::W), TableOp::new("c", Operation::R), TableOp::new("b", Operation::R)];
    let ab: Vec<TableOp> = a.iter().chain(b.iter()).cloned().collect();
    let ba: Vec<TableOp> = b.iter().chain(a.iter()).cloned().collect();
    let x = TableOps::from_iter(ab);
    let y = TableOps::from_iter(ba);
    assert_eq!(x, y);
    assert_eq!(
        x.get(),
        &vec![TableOp::new("a", Operation::W), TableOp::new("b", Operation::W), TableOp::new("c", Operation::R)]
    );
    let again = TableOps::from_iter(x.get().clone());
    assert_eq!(again, x);
}

#[test]
fn access_patterns() {
    assert_eq!(read_ops(&["t0", "t1"]).access_pattern(), AccessPattern::ReadOnly);
    let w = TableOps::from_iter(vec![TableOp::new("t0", Operation::W), TableOp::new("t1", Operation::W)]);
    assert_eq!(w.access_pattern(), AccessPattern::WriteOnly);
    assert_eq!(TableOps::from_iter(vec![]).access_pattern(), AccessPattern::ReadOnly);
    assert_eq!(TableOps::from_iter(vec![]).len(), 0);
}

fn begin(tables: Vec<TableOp>) -> MsqlBeginTx {
    MsqlBeginTx { tx: Some(String::from("tx")), tableops: TableOps::from_iter(tables) }
}

#[test]
fn sequencer_grants_increase_per_table() {
    let mut seq = Sequencer::new();
    let first = seq.assign_vn(&begin(vec![TableOp::new("t1", Operation::W), TableOp::new("t0", Operation::R)]));
    assert_eq!(first.tx, Some(String::from("tx")));
    assert_eq!(first.txtablevns, vec![TxTableVN::new("t0", 0, Operation::R), TxTableVN::new("t1", 0, Operation::W)]);
    let second = seq.assign_vn(&begin(vec![TableOp::new("t1", Operation::R), TableOp::new("t2", Operation::W)]));
    assert_eq!(second.txtablevns, vec![TxTableVN::new("t1", 1, Operation::R), TxTableVN::new("t2", 0, Operation::W)]);
    let third = seq.assign_vn(&begin(vec![TableOp::new("t0", Operation::W), TableOp::new("t1", Operation::W)]));
    assert_eq!(third.txtablevns, vec![TxTableVN::new("t0", 1, Operation::W), TxTableVN::new("t1", 2, Operation::W)]);
    assert_eq!(seq.next_vn(&String::from("t1")), 3);
    assert_eq!(seq.next_vn(&String::from("t9")), 0);
}

#[test]
fn release_lifts_granted_tables_only() {
    let mut db = DbVN::new();
    let t = txvn(vec![TxTableVN::new("t0", 4, Operation::W), TxTableVN::new("t1", 0, Operation::R)]);
    db.release_version(&t);
    assert_eq!(db.get_vn(&String::from("t0")), 5);
    assert_eq!(db.get_vn(&String::from("t1")), 1);
    assert_eq!(db.get_vn(&String::from("t2")), 0);
    // an older grant never lowers a version
    db.release_version(&txvn(vec![TxTableVN::new("t0", 1, Operation::R)]));
    assert_eq!(db.get_vn(&String::from("t0")), 5);
}

fn query(tableops: TableOps) -> Msql {
    Msql::Query(MsqlQuery { query: String::from("SELECT 1"), tableops })
}

#[test]
fn scenario_simple_read_only() {
    let m = DbVNManager::from_iter(vec![addr(10001), addr(10000)]);
    let t = txvn(vec![TxTableVN::new("t0", 0, Operation::R), TxTableVN::new("t1", 0, Operation::R)]);
    let ready = m.get_all_that_can_execute_read_query(&read_ops(&["t0", "t1"]), &t).unwrap();
    assert_eq!(ready.iter().map(|e| e.0).collect::<Vec<_>>(), vec![addr(10000), addr(10001)]);
    let d = assign_dbproxy_for_execution(&m, &query(read_ops(&["t0", "t1"])), &Some(t));
    assert_eq!(d, Ok(Dispatch::One(addr(10000))));
}

#[test]
fn scenario_stale_replicas_wait() {
    let m = DbVNManager::from_iter(vec![addr(10000), addr(10001)]);
    let t = txvn(vec![TxTableVN::new("t0", 0, Operation::R), TxTableVN::new("t1", 1, Operation::R)]);
    let d = assign_dbproxy_for_execution(&m, &query(read_ops(&["t0", "t1"])), &Some(t));
    assert_eq!(d, Ok(Dispatch::Wait));
}

#[test]
fn scenario_partial_release_unblocks() {
    let mut m = DbVNManager::from_iter(vec![addr(10000), addr(10001)]);
    let t = txvn(vec![TxTableVN::new("t0", 0, Operation::R), TxTableVN::new("t1", 1, Operation::R)]);
    let prior = txvn(vec![TxTableVN::new("t0", 0, Operation::R), TxTableVN::new("t1", 0, Operation::R)]);
    m.release_version(addr(10000), &prior);
    let a = m.get(&addr(10000)).unwrap();
    assert_eq!(a.get_vn(&String::from("t0")), 1);
    assert_eq!(a.get_vn(&String::from("t1")), 1);
    let ready = m.get_all_that_can_execute_read_query(&read_ops(&["t0", "t1"]), &t).unwrap();
    assert_eq!(ready.iter().map(|e| e.0).collect::<Vec<_>>(), vec![addr(10000)]);
    let d = assign_dbproxy_for_execution(&m, &query(read_ops(&["t0", "t1"])), &Some(t));
    assert_eq!(d, Ok(Dispatch::One(addr(10000))));
}

#[test]
fn scenario_write_broadcast() {
    let mut m = DbVNManager::from_iter(vec![addr(10000), addr(10001)]);
    let t = txvn(vec![TxTableVN::new("t0", 5, Operation::W)]);
    let w = TableOps::from_iter(vec![TableOp::new("t0", Operation::W)]);
    let d = assign_dbproxy_for_execution(&m, &query(w), &Some(t.clone()));
    assert_eq!(d, Ok(Dispatch::All(vec![addr(10000), addr(10001)])));
    let w = TableOps::from_iter(vec![TableOp::new("t0", Operation::W)]);
    // not ready until the replica stands exactly at version 5
    assert_eq!(m.get(&addr(10000)).unwrap().can_execute_query(&w, &t), Ok(false));
    for v in 0..5u64 {
        m.release_version(addr(10000), &txvn(vec![TxTableVN::new("t0", v, Operation::W)]));
    }
    assert_eq!(m.get(&addr(10000)).unwrap().can_execute_query(&w, &t), Ok(true));
    m.release_version(addr(10000), &t);
    assert_eq!(m.get(&addr(10000)).unwrap().get_vn(&String::from("t0")), 6);
    assert_eq!(m.get(&addr(10000)).unwrap().can_execute_query(&w, &t), Ok(false));
}

#[test]
fn scenario_double_begin() {
    let mut conn = ConnectionState::default();
    assert_eq!(begin_tx(&conn), None);
    let t = txvn(vec![TxTableVN::new("t0", 0, Operation::R)]);
    assert_eq!(begin_tx_done(&mut conn, Some(t.clone())), MsqlResponse::BeginTx(Ok(())));
    assert_eq!(
        begin_tx(&conn),
        Some(MsqlResponse::BeginTx(Err(String::from("Previous transaction not finished yet"))))
    );
    assert_eq!(*conn.current_txvn(), Some(t));
}

#[test]
fn scenario_mixed_query_rejected() {
    let m = DbVNManager::from_iter(vec![addr(10000)]);
    let mut conn = ConnectionState::default();
    let t = txvn(vec![TxTableVN::new("t0", 0, Operation::R), TxTableVN::new("t1", 0, Operation::W)]);
    conn.insert_txvn(t.clone()).unwrap();
    let mixed = TableOps::from_iter(vec![TableOp::new("t0", Operation::R), TableOp::new("t1", Operation::W)]);
    let d = assign_dbproxy_for_execution(&m, &query(mixed), conn.current_txvn());
    assert_eq!(d, Err(SchedError::MixedQuery));
    assert_eq!(SchedError::MixedQuery.message(), "mixed R/W");
    assert_eq!(SchedError::MixedQuery.kind(), ErrorKind::MalformedQuery);
    assert_eq!(*conn.current_txvn(), Some(t));
}

#[test]
fn write_without_transaction_or_grant_is_refused() {
    let m = DbVNManager::from_iter(vec![addr(10000)]);
    let w = TableOps::from_iter(vec![TableOp::new("t0", Operation::W)]);
    assert_eq!(assign_dbproxy_for_execution(&m, &query(w), &None), Err(SchedError::NoOpenTx));
    let w = TableOps::from_iter(vec![TableOp::new("t3", Operation::W)]);
    let t = txvn(vec![TxTableVN::new("t0", 0, Operation::W)]);
    assert_eq!(assign_dbproxy_for_execution(&m, &query(w), &Some(t)), Err(SchedError::MissingGrant));
    let end = Msql::EndTx(MsqlEndTx { tx: None, mode: EndTxMode::Commit });
    assert_eq!(assign_dbproxy_for_execution(&m, &end, &None), Err(SchedError::NoOpenTx));
}

#[test]
fn single_read_goes_to_freshest_replica() {
    let mut m = DbVNManager::from_iter(vec![addr(10000), addr(10001), addr(10002)]);
    let ops = read_ops(&["t0", "t1"]);
    // all equal: lowest address
    assert_eq!(assign_dbproxy_for_execution(&m, &query(read_ops(&["t0", "t1"])), &None), Ok(Dispatch::One(addr(10000))));
    m.release_version(addr(10002), &txvn(vec![TxTableVN::new("t0", 3, Operation::W), TxTableVN::new("t1", 0, Operation::W)]));
    m.release_version(addr(10001), &txvn(vec![TxTableVN::new("t0", 0, Operation::W)]));
    // 10002 has min 1, 10001 has min 0 (t1 unseen), 10000 has min 0
    assert_eq!(m.freshest_replica(&ops), Some(addr(10002)));
    let empty = DbVNManager::from_iter(vec![]);
    assert_eq!(empty.freshest_replica(&ops), None);
    assert_eq!(assign_dbproxy_for_execution(&empty, &query(ops), &None), Ok(Dispatch::Wait));
}

#[test]
fn end_tx_releases_at_every_acknowledging_replica() {
    let mut m = DbVNManager::from_iter(vec![addr(10000), addr(10001)]);
    let mut conn = ConnectionState::default();
    let t = txvn(vec![TxTableVN::new("t0", 2, Operation::W), TxTableVN::new("t1", 0, Operation::R)]);
    conn.insert_txvn(t.clone()).unwrap();
    let end = Msql::EndTx(MsqlEndTx { tx: None, mode: EndTxMode::Abort });
    let d = assign_dbproxy_for_execution(&m, &end, conn.current_txvn()).unwrap();
    let targets = match d {
        Dispatch::All(v) => v,
        other => panic!("unexpected {:?}", other),
    };
    assert_eq!(targets, vec![addr(10000), addr(10001)]);
    assert_eq!(end_tx_done(&mut m, &mut conn, &targets), MsqlResponse::EndTx(Ok(())));
    assert_eq!(*conn.current_txvn(), None);
    for a in targets {
        let db = m.get(&a).unwrap();
        assert_eq!(db.get_vn(&String::from("t0")), 3);
        assert_eq!(db.get_vn(&String::from("t1")), 1);
    }
    assert_eq!(
        end_tx_done(&mut m, &mut conn, &vec![addr(10000)]),
        MsqlResponse::EndTx(Err(String::from("No transaction is in progress")))
    );
}

#[test]
fn release_at_new_replica_registers_it() {
    let mut m = DbVNManager::from_iter(vec![addr(10000)]);
    assert!(!m.contains_key(&addr(10005)));
    m.release_version(addr(10005), &txvn(vec![TxTableVN::new("t0", 7, Operation::W)]));
    assert!(m.contains_key(&addr(10005)));
    assert_eq!(m.get(&addr(10005)).unwrap().get_vn(&String::from("t0")), 8);
    assert_eq!(m.addrs().len(), 2);
}

#[test]
fn sequencer_failure_keeps_the_slot() {
    let mut conn = ConnectionState::default();
    assert_eq!(
        begin_tx_done(&mut conn, None),
        MsqlResponse::BeginTx(Err(String::from("Invalid response from Sequencer")))
    );
    assert_eq!(*conn.current_txvn(), None);
    assert!(TxVN::default().is_releasable());
    assert!(!txvn(vec![TxTableVN::new("t0", u64::MAX, Operation::W)]).is_releasable());
    assert_eq!(ReplicaAddr::new(127, 0, 0, 1, 80).key(), (0x7f000001, 80));
}

#[test]
fn restriction_keeps_grants_of_the_statement_tables() {
    let t = txvn(vec![
        TxTableVN::new("t0", 5, Operation::W),
        TxTableVN::new("t1", 2, Operation::R),
        TxTableVN::new("t2", 9, Operation::W),
    ]);
    let ops = TableOps::from_iter(vec![TableOp::new("t2", Operation::W), TableOp::new("t0", Operation::W)]);
    let r = t.restricted_to(&ops);
    assert_eq!(r.txtablevns, vec![TxTableVN::new("t0", 5, Operation::W), TxTableVN::new("t2", 9, Operation::W)]);
    assert!(ops.has_table(&String::from("t2")));
    assert!(!ops.has_table(&String::from("t1")));
}

#[test]
fn error_kinds_and_texts() {
    assert_eq!(SchedError::TxAlreadyOpen.kind(), ErrorKind::ProtocolMisuse);
    assert_eq!(SchedError::NoOpenTx.kind(), ErrorKind::ProtocolMisuse);
    assert_eq!(SchedError::MissingGrant.kind(), ErrorKind::MissingGrant);
    assert_eq!(SchedError::SequencerUnavailable.kind(), ErrorKind::SequencerUnavailable);
    assert_eq!(SchedError::ReplicaUnavailable.kind(), ErrorKind::ReplicaUnavailable);
    assert_eq!(SchedError::ReplicaUnavailable.message(), "The replica could not be reached");
    assert_eq!(o2versioner::session::error_text(SchedError::TxAlreadyOpen), "Previous transaction not finished yet");
}
