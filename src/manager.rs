use vstd::prelude::*;

use itertools::Itertools;

use crate::error::SchedError;
use crate::operation::{pattern_of, AccessPattern, Operation, TableOps};
use crate::version::{
    dbtables_view, grants_cover, ready, release_vn, vn_in, DbTableVN, DbVN, TxVN,
};

verus! {

broadcast use vstd::seq_lib::group_to_multiset_ensures;

/// The network address of a replica: an IPv4 address and a port.
#[derive(Clone, Copy, Debug, PartialEq, Eq, Structural, Hash)]
pub struct ReplicaAddr {
    pub ip: u32,
    pub port: u16,
}

/// Addresses are ordered by address, then by port.
pub open spec fn addr_lt(a: ReplicaAddr, b: ReplicaAddr) -> bool {
    a.ip < b.ip || (a.ip == b.ip && a.port < b.port)
}

impl ReplicaAddr {
    /// The address `a.b.c.d:port`.
    pub fn new(a: u8, b: u8, c: u8, d: u8, port: u16) -> (r: ReplicaAddr)
        ensures
            r.ip == a as int * 16777216 + b as int * 65536 + c as int * 256 + d as int,
            r.port == port,
    {
        let ip: u32 = (a as u32) * 16777216 + (b as u32) * 65536 + (c as u32) * 256 + (d as u32);
        ReplicaAddr { ip, port }
    }

    /// The key replicas are sorted by.
    pub fn key(&self) -> (r: (u32, u16))
        ensures
            r == (self.ip, self.port),
    {
        (self.ip, self.port)
    }
}

/// The versions of the tables of `ops` in a frontier, in the order of `ops`.
pub open spec fn tables_at(db: Map<Seq<char>, u64>, ops: Seq<(Seq<char>, Operation)>) -> Seq<
    (Seq<char>, u64),
> {
    Seq::new(ops.len(), |i: int| (ops[i].0, vn_in(db, ops[i].0)))
}

/// Relies on `itertools::Itertools::sorted_by_key`: the same items, in ascending order
/// of the replica address.
#[verifier::external_body]
fn sort_by_addr(v: Vec<(ReplicaAddr, Vec<DbTableVN>)>) -> (r: Vec<(ReplicaAddr, Vec<DbTableVN>)>)
    ensures
        r@.to_multiset() == v@.to_multiset(),
        forall|i: int, j: int|
            0 <= i < j < r@.len() ==> !addr_lt(#[trigger] r@[j].0, #[trigger] r@[i].0),
{
    v.into_iter().sorted_by_key(|e| e.0.key()).collect()
}

/// A permutation of a sequence without repeated addresses repeats none either, and
/// holds the same items.
proof fn lemma_permutation_distinct<V>(v: Seq<(ReplicaAddr, V)>, r: Seq<(ReplicaAddr, V)>)
    requires
        r.to_multiset() == v.to_multiset(),
        forall|i: int, j: int| 0 <= i < j < v.len() ==> v[i].0 != v[j].0,
    ensures
        forall|i: int, j: int| 0 <= i < j < r.len() ==> r[i].0 != r[j].0,
        forall|k: int| 0 <= k < r.len() ==> v.contains(#[trigger] r[k]),
        forall|k: int| 0 <= k < v.len() ==> r.contains(#[trigger] v[k]),
{
    assert(v.no_duplicates());
    v.lemma_multiset_has_no_duplicates();
    r.lemma_multiset_has_no_duplicates_conv();
    assert forall|k: int| 0 <= k < r.len() implies v.contains(#[trigger] r[k]) by {
        assert(r.to_multiset().count(r[k]) > 0);
    }
    assert forall|k: int| 0 <= k < v.len() implies r.contains(#[trigger] v[k]) by {
        assert(v.to_multiset().count(v[k]) > 0);
    }
    assert forall|i: int, j: int| 0 <= i < j < r.len() implies r[i].0 != r[j].0 by {
        assert(v.contains(r[i]));
        assert(v.contains(r[j]));
        let a = choose|a: int| 0 <= a < v.len() && v[a] == r[i];
        let b = choose|b: int| 0 <= b < v.len() && v[b] == r[j];
        assert(a != b);
    }
}

/// The version frontiers of all replicas of the cluster.
#[derive(Debug)]
pub struct DbVNManager {
    replicas: Vec<(ReplicaAddr, DbVN)>,
}

impl View for DbVNManager {
    type V = Map<ReplicaAddr, Map<Seq<char>, u64>>;

    closed spec fn view(&self) -> Map<ReplicaAddr, Map<Seq<char>, u64>> {
        Map::new(
            |a: ReplicaAddr| exists|i: int| 0 <= i < self.replicas@.len() && self.replicas@[i].0 == a,
            |a: ReplicaAddr|
                self.replicas@[choose|i: int|
                    0 <= i < self.replicas@.len() && self.replicas@[i].0 == a].1@,
        )
    }
}

impl DbVNManager {
    /// No replica is listed twice and every frontier is well formed.
    pub closed spec fn wf(&self) -> bool {
        &&& forall|i: int, j: int|
            0 <= i < j < self.replicas@.len() ==> self.replicas@[i].0 != self.replicas@[j].0
        &&& forall|i: int| 0 <= i < self.replicas@.len() ==> (#[trigger] self.replicas@[i]).1.wf()
    }

    proof fn lemma_view_at(&self, i: int)
        requires
            self.wf(),
            0 <= i < self.replicas@.len(),
        ensures
            self@.contains_key(self.replicas@[i].0),
            self@[self.replicas@[i].0] == self.replicas@[i].1@,
    {
        let a = self.replicas@[i].0;
        assert(self@.contains_key(a));
        let j = choose|j: int| 0 <= j < self.replicas@.len() && self.replicas@[j].0 == a;
        assert(i == j);
    }

    /// One replica per address of `addrs`, each with every table at version zero.
    pub fn from_iter(addrs: Vec<ReplicaAddr>) -> (r: DbVNManager)
        ensures
            r.wf(),
            forall|a: ReplicaAddr| #[trigger] r@.contains_key(a) <==> addrs@.contains(a),
            forall|a: ReplicaAddr| #[trigger] r@.contains_key(a) ==> r@[a] == Map::<Seq<char>, u64>::empty(),
    {
        let mut m = DbVNManager { replicas: Vec::new() };
        let mut k: usize = 0;
        while k < addrs.len()
            invariant
                0 <= k <= addrs.len(),
                m.wf(),
                forall|a: ReplicaAddr| #[trigger] m@.contains_key(a) <==> addrs@.take(k as int).contains(a),
                forall|i: int| 0 <= i < m.replicas@.len() ==> (#[trigger] m.replicas@[i]).1@ == Map::<Seq<char>, u64>::empty(),
            decreases addrs.len() - k,
        {
            let a = addrs[k];
            assert forall|b: ReplicaAddr| addrs@.take(k + 1).contains(b) <==> (addrs@.take(k as int).contains(b) || b == a) by {
                if addrs@.take(k as int).contains(b) {
                    let j = choose|j: int| 0 <= j < k && #[trigger] addrs@.take(k as int)[j] == b;
                    assert(addrs@.take(k + 1)[j] == b);
                }
                if b == a {
                    assert(addrs@.take(k + 1)[k as int] == b);
                }
                if addrs@.take(k + 1).contains(b) {
                    let j = choose|j: int| 0 <= j < k + 1 && #[trigger] addrs@.take(k + 1)[j] == b;
                    if j < k {
                        assert(addrs@.take(k as int)[j] == b);
                    }
                }
            }
            if !m.contains_key(&a) {
                let ghost old_m = m;
                m.replicas.push((a, DbVN::new()));
                assert forall|b: ReplicaAddr| #[trigger] m@.contains_key(b) <==> addrs@.take(k + 1).contains(b) by {
                    if old_m@.contains_key(b) {
                        let i = choose|i: int| 0 <= i < old_m.replicas@.len() && old_m.replicas@[i].0 == b;
                        assert(m.replicas@[i].0 == b);
                    }
                    if m@.contains_key(b) && b != a {
                        let i = choose|i: int| 0 <= i < m.replicas@.len() && m.replicas@[i].0 == b;
                        assert(old_m.replicas@[i].0 == b);
                    }
                    if b == a {
                        assert(m.replicas@[old_m.replicas@.len() as int].0 == b);
                    }
                }
            }
            k = k + 1;
        }
        assert(addrs@.take(addrs@.len() as int) =~= addrs@);
        assert forall|a: ReplicaAddr| #[trigger] m@.contains_key(a) implies m@[a] == Map::<Seq<char>, u64>::empty() by {
            let i = choose|i: int| 0 <= i < m.replicas@.len() && m.replicas@[i].0 == a;
            m.lemma_view_at(i);
        }
        m
    }

    fn index_of(&self, addr: &ReplicaAddr) -> (r: Option<usize>)
        ensures
            match r {
                Some(i) => i < self.replicas@.len() && self.replicas@[i as int].0 == *addr,
                None => forall|j: int| 0 <= j < self.replicas@.len() ==> self.replicas@[j].0 != *addr,
            },
    {
        let mut i: usize = 0;
        while i < self.replicas.len()
            invariant
                0 <= i <= self.replicas.len(),
                forall|j: int| 0 <= j < i ==> self.replicas@[j].0 != *addr,
            decreases self.replicas.len() - i,
        {
            if self.replicas[i].0 == *addr {
                return Some(i);
            }
            i = i + 1;
        }
        None
    }

    /// Whether the replica `addr` is known.
    pub fn contains_key(&self, addr: &ReplicaAddr) -> (r: bool)
        ensures
            r == self@.contains_key(*addr),
    {
        self.index_of(addr).is_some()
    }

    /// The frontier of the replica `addr`, if it is known.
    pub fn get(&self, addr: &ReplicaAddr) -> (r: Option<&DbVN>)
        requires
            self.wf(),
        ensures
            match r {
                Some(d) => self@.contains_key(*addr) && d@ == self@[*addr] && d.wf(),
                None => !self@.contains_key(*addr),
            },
    {
        match self.index_of(addr) {
            Some(i) => {
                proof {
                    self.lemma_view_at(i as int);
                }
                Some(&self.replicas[i].1)
            },
            None => None,
        }
    }

    /// `v` lists, sorted by address, exactly the replicas that are ready for `ops` under
    /// the grants `g`, each with the current versions of the tables of `ops`.
    pub open spec fn is_ready_set(
        &self,
        v: Seq<(ReplicaAddr, Vec<DbTableVN>)>,
        ops: Seq<(Seq<char>, Operation)>,
        g: Seq<(Seq<char>, u64, Operation)>,
    ) -> bool {
        &&& forall|i: int, j: int| 0 <= i < j < v.len() ==> addr_lt(#[trigger] v[i].0, #[trigger] v[j].0)
        &&& forall|k: int|
            0 <= k < v.len() ==> {
                &&& self@.contains_key(#[trigger] v[k].0)
                &&& ready(self@[v[k].0], ops, g)
                &&& dbtables_view(v[k].1@) == tables_at(self@[v[k].0], ops)
            }
        &&& forall|a: ReplicaAddr|
            #[trigger] self@.contains_key(a) && ready(self@[a], ops, g) ==> exists|k: int|
                0 <= k < v.len() && v[k].0 == a
    }

    /// The replicas that may run the read statement on `tableops` now, sorted by
    /// address, each with the current versions of the statement's tables.
    pub fn get_all_that_can_execute_read_query(&self, tableops: &TableOps, txvn: &TxVN) -> (r:
        Result<Vec<(ReplicaAddr, Vec<DbTableVN>)>, SchedError>)
        requires
            self.wf(),
            pattern_of(tableops@) == AccessPattern::ReadOnly,
        ensures
            match r {
                Ok(v) => grants_cover(tableops@, txvn.grants()) && self.is_ready_set(
                    v@,
                    tableops@,
                    txvn.grants(),
                ),
                Err(e) => !grants_cover(tableops@, txvn.grants()) && e == SchedError::MissingGrant,
            },
    {
        if !txvn.covers(tableops) {
            return Err(SchedError::MissingGrant);
        }
        let mut cand: Vec<(ReplicaAddr, Vec<DbTableVN>)> = Vec::new();
        let mut i: usize = 0;
        while i < self.replicas.len()
            invariant
                0 <= i <= self.replicas.len(),
                self.wf(),
                grants_cover(tableops@, txvn.grants()),
                forall|k: int|
                    0 <= k < cand@.len() ==> exists|j: int|
                        0 <= j < i && self.replicas@[j].0 == (#[trigger] cand@[k]).0,
                forall|k1: int, k2: int|
                    0 <= k1 < k2 < cand@.len() ==> cand@[k1].0 != cand@[k2].0,
                forall|k: int|
                    0 <= k < cand@.len() ==> {
                        &&& self@.contains_key(#[trigger] cand@[k].0)
                        &&& ready(self@[cand@[k].0], tableops@, txvn.grants())
                        &&& dbtables_view(cand@[k].1@) == tables_at(self@[cand@[k].0], tableops@)
                    },
                forall|j: int|
                    0 <= j < i && ready(self.replicas@[j].1@, tableops@, txvn.grants())
                        ==> exists|k: int| 0 <= k < cand@.len() && cand@[k].0 == (#[trigger] self.replicas@[j]).0,
            decreases self.replicas.len() - i,
        {
            proof {
                self.lemma_view_at(i as int);
            }
            let dbvn = &self.replicas[i].1;
            assert(self.replicas@[i as int].1.wf());
            let ok = dbvn.can_execute_query(tableops, txvn);
            if let Ok(true) = ok {
                let tables = dbvn.get_from_tableops(tableops);
                let ghost old_cand = cand@;
                assert(dbtables_view(tables@) =~= tables_at(dbvn@, tableops@));
                cand.push((self.replicas[i].0, tables));
                proof {
                    assert forall|k: int| 0 <= k < cand@.len() implies exists|j: int|
                        0 <= j < i + 1 && self.replicas@[j].0 == (#[trigger] cand@[k]).0 by {
                        if k < old_cand.len() {
                            assert(cand@[k] == old_cand[k]);
                        } else {
                            assert(self.replicas@[i as int].0 == cand@[k].0);
                        }
                    }
                    assert forall|k1: int, k2: int|
                        0 <= k1 < k2 < cand@.len() implies cand@[k1].0 != cand@[k2].0 by {
                        if k2 == old_cand.len() {
                            assert(cand@[k1] == old_cand[k1]);
                            let j = choose|j: int| 0 <= j < i && self.replicas@[j].0 == old_cand[k1].0;
                        }
                    }
                    assert forall|j: int|
                        0 <= j < i + 1 && ready(self.replicas@[j].1@, tableops@, txvn.grants())
                            implies exists|k: int| 0 <= k < cand@.len() && cand@[k].0 == (#[trigger] self.replicas@[j]).0 by {
                        if j < i {
                            let k = choose|k: int| 0 <= k < old_cand.len() && old_cand[k].0 == self.replicas@[j].0;
                            assert(cand@[k] == old_cand[k]);
                        } else {
                            assert(cand@[old_cand.len() as int].0 == self.replicas@[j].0);
                        }
                    }
                }
            }
            i = i + 1;
        }
        let ghost c = cand@;
        let sorted = sort_by_addr(cand);
        proof {
            lemma_permutation_distinct(c, sorted@);
            let v = sorted@;
            assert forall|i: int, j: int| 0 <= i < j < v.len() implies addr_lt(#[trigger] v[i].0, #[trigger] v[j].0) by {
                assert(!addr_lt(v[j].0, v[i].0));
                assert(v[i].0 != v[j].0);
            }
            assert forall|k: int| 0 <= k < v.len() implies {
                &&& self@.contains_key(#[trigger] v[k].0)
                &&& ready(self@[v[k].0], tableops@, txvn.grants())
                &&& dbtables_view(v[k].1@) == tables_at(self@[v[k].0], tableops@)
            } by {
                assert(c.contains(v[k]));
                let kk = choose|kk: int| 0 <= kk < c.len() && c[kk] == v[k];
                assert(c[kk] == v[k]);
            }
            assert forall|a: ReplicaAddr|
                #[trigger] self@.contains_key(a) && ready(self@[a], tableops@, txvn.grants())
                    implies exists|k: int| 0 <= k < v.len() && v[k].0 == a by {
                let j = choose|j: int| 0 <= j < self.replicas@.len() && self.replicas@[j].0 == a;
                self.lemma_view_at(j);
                let kk = choose|kk: int| 0 <= kk < c.len() && c[kk].0 == self.replicas@[j].0;
                assert(v.contains(c[kk]));
                let k = choose|k: int| 0 <= k < v.len() && v[k] == c[kk];
                assert(v[k].0 == a);
            }
        }
        Ok(sorted)
    }

    /// Releases the grants of a finished transaction at the replica `addr`; a replica
    /// not yet known is added first, with every table at version zero.
    pub fn release_version(&mut self, addr: ReplicaAddr, txvn: &TxVN)
        requires
            old(self).wf(),
            txvn.releasable(),
        ensures
            final(self).wf(),
            final(self)@.dom() == old(self)@.dom().insert(addr),
            forall|a: ReplicaAddr|
                #[trigger] old(self)@.contains_key(a) && a != addr ==> final(self)@[a] == old(self)@[a],
            forall|t: Seq<char>|
                #[trigger] vn_in(final(self)@[addr], t) as int == release_vn(
                    if old(self)@.contains_key(addr) {
                        vn_in(old(self)@[addr], t) as int
                    } else {
                        0
                    },
                    txvn.grants(),
                    t,
                ),
            forall|a: ReplicaAddr, t: Seq<char>|
                old(self)@.contains_key(a) ==> #[trigger] vn_in(final(self)@[a], t) >= vn_in(
                    old(self)@[a],
                    t,
                ),
            forall|i: int|
                0 <= i < txvn.grants().len() ==> vn_in(
                    final(self)@[addr],
                    #[trigger] txvn.grants()[i].0,
                ) >= txvn.grants()[i].1 + 1,
    {
        let ghost old_reps = self.replicas@;
        let found = self.index_of(&addr);
        let i: usize = match found {
            Some(i) => i,
            None => self.replicas.len(),
        };
        if found.is_none() {
            self.replicas.push((addr, DbVN::new()));
            proof {
                assert forall|b: ReplicaAddr| self@.contains_key(b) <==> old(self)@.contains_key(b) || b == addr by {
                    if old(self)@.contains_key(b) {
                        let j = choose|j: int| 0 <= j < old_reps.len() && old_reps[j].0 == b;
                        assert(self.replicas@[j].0 == b);
                    }
                    if self@.contains_key(b) && b != addr {
                        let j = choose|j: int| 0 <= j < self.replicas@.len() && self.replicas@[j].0 == b;
                        assert(old_reps[j].0 == b);
                    }
                    if b == addr {
                        assert(self.replicas@[old_reps.len() as int].0 == b);
                    }
                }
                assert forall|b: ReplicaAddr| #[trigger] old(self)@.contains_key(b) && b != addr implies self@[b] == old(self)@[b] by {
                    let j = choose|j: int| 0 <= j < old_reps.len() && old_reps[j].0 == b;
                    old(self).lemma_view_at(j);
                    assert(self.replicas@[j] == old_reps[j]);
                    self.lemma_view_at(j);
                }
            }
        }
        proof {
            assert(self.replicas@[i as int].0 == addr);
            self.lemma_view_at(i as int);
        }
        let ghost mid = *self;
        let ghost d0 = mid.replicas@[i as int].1;
        proof {
            mid.lemma_view_at(i as int);
            if old(self)@.contains_key(addr) {
                let j = choose|j: int| 0 <= j < old_reps.len() && old_reps[j].0 == addr;
                old(self).lemma_view_at(j);
                assert(found.is_some());
            } else {
                assert(found.is_none());
                assert(d0@ == Map::<Seq<char>, u64>::empty());
            }
        }
        let (a, mut dbvn) = self.replicas.remove(i);
        assert(mid.replicas@[i as int].1.wf());
        dbvn.release_version(txvn);
        self.replicas.insert(i, (a, dbvn));
        proof {
            assert(self.replicas@ =~= mid.replicas@.update(i as int, (addr, dbvn)));
            assert forall|b: ReplicaAddr| self@.contains_key(b) <==> mid@.contains_key(b) by {
                if mid@.contains_key(b) {
                    let j = choose|j: int| 0 <= j < mid.replicas@.len() && mid.replicas@[j].0 == b;
                    assert(self.replicas@[j].0 == b);
                }
                if self@.contains_key(b) {
                    let j = choose|j: int| 0 <= j < self.replicas@.len() && self.replicas@[j].0 == b;
                    assert(mid.replicas@[j].0 == b);
                }
            }
            assert(self@.dom() =~= old(self)@.dom().insert(addr));
            assert forall|b: ReplicaAddr| #[trigger] old(self)@.contains_key(b) && b != addr implies self@[b] == old(self)@[b] by {
                let j = choose|j: int| 0 <= j < mid.replicas@.len() && mid.replicas@[j].0 == b;
                mid.lemma_view_at(j);
                self.lemma_view_at(j);
            }
            self.lemma_view_at(i as int);
            assert forall|t: Seq<char>|
                #[trigger] vn_in(self@[addr], t) as int == release_vn(
                    if old(self)@.contains_key(addr) {
                        vn_in(old(self)@[addr], t) as int
                    } else {
                        0
                    },
                    txvn.grants(),
                    t,
                ) by {
                assert(dbvn.vn_of(t) as int == release_vn(d0.vn_of(t) as int, txvn.grants(), t));
            }
            assert forall|b: ReplicaAddr, t: Seq<char>|
                old(self)@.contains_key(b) implies #[trigger] vn_in(self@[b], t) >= vn_in(old(self)@[b], t) by {
                if b == addr {
                    assert(dbvn.vn_of(t) >= d0.vn_of(t));
                }
            }
            assert forall|k: int| 0 <= k < txvn.grants().len() implies vn_in(
                self@[addr],
                #[trigger] txvn.grants()[k].0,
            ) >= txvn.grants()[k].1 + 1 by {
                assert(dbvn.vn_of(txvn.grants()[k].0) >= txvn.grants()[k].1 + 1);
            }
        }
    }

    /// The addresses of all replicas, each once.
    pub fn addrs(&self) -> (r: Vec<ReplicaAddr>)
        requires
            self.wf(),
        ensures
            forall|a: ReplicaAddr| #[trigger] r@.contains(a) <==> self@.contains_key(a),
            r@.no_duplicates(),
    {
        let mut out: Vec<ReplicaAddr> = Vec::new();
        let mut i: usize = 0;
        while i < self.replicas.len()
            invariant
                0 <= i <= self.replicas.len(),
                self.wf(),
                out@.len() == i,
                forall|j: int| 0 <= j < i ==> out@[j] == (#[trigger] self.replicas@[j]).0,
            decreases self.replicas.len() - i,
        {
            out.push(self.replicas[i].0);
            i = i + 1;
        }
        proof {
            assert forall|x: int, y: int| 0 <= x < out@.len() && 0 <= y < out@.len() && x != y implies out@[x] != out@[y] by {
                assert(out@[x] == self.replicas@[x].0);
                assert(out@[y] == self.replicas@[y].0);
            }
            assert forall|a: ReplicaAddr| #[trigger] out@.contains(a) <==> self@.contains_key(a) by {
                if out@.contains(a) {
                    let j = choose|j: int| 0 <= j < out@.len() && out@[j] == a;
                    assert(self.replicas@[j].0 == a);
                }
                if self@.contains_key(a) {
                    let j = choose|j: int| 0 <= j < self.replicas@.len() && self.replicas@[j].0 == a;
                    assert(out@[j] == a);
                }
            }
        }
        out
    }

    /// `a` is a replica whose oldest version among the tables of `ops` is the newest,
    /// with the lowest address among those that tie.
    pub open spec fn is_freshest(&self, a: ReplicaAddr, ops: Seq<(Seq<char>, Operation)>) -> bool {
        &&& self@.contains_key(a)
        &&& forall|b: ReplicaAddr|
            #[trigger] self@.contains_key(b) ==> min_vn(self@[b], ops) < min_vn(self@[a], ops) || (
            min_vn(self@[b], ops) == min_vn(self@[a], ops) && (b == a || addr_lt(a, b)))
    }

    /// For a read that holds no grants: the replica whose oldest version among the
    /// tables of `tableops` is the newest, the lowest address among equals; `None`
    /// when there is no replica.
    pub fn freshest_replica(&self, tableops: &TableOps) -> (r: Option<ReplicaAddr>)
        requires
            self.wf(),
        ensures
            match r {
                None => self@.dom() == Set::<ReplicaAddr>::empty(),
                Some(a) => self.is_freshest(a, tableops@),
            },
    {
        if self.replicas.len() == 0 {
            assert(self@.dom() =~= Set::<ReplicaAddr>::empty());
            return None;
        }
        let mut best: usize = 0;
        assert(self.replicas@[0].1.wf());
        let mut best_vn: u64 = min_covered_vn(&self.replicas[0].1, tableops);
        let mut i: usize = 1;
        while i < self.replicas.len()
            invariant
                1 <= i <= self.replicas.len(),
                self.wf(),
                best < i,
                best_vn as int == min_vn(self.replicas@[best as int].1@, tableops@),
                forall|j: int|
                    0 <= j < i ==> min_vn((#[trigger] self.replicas@[j]).1@, tableops@) < best_vn || (
                    min_vn(self.replicas@[j].1@, tableops@) == best_vn && (j == best || addr_lt(
                        self.replicas@[best as int].0,
                        self.replicas@[j].0,
                    ))),
            decreases self.replicas.len() - i,
        {
            assert(self.replicas@[i as int].1.wf());
            let v = min_covered_vn(&self.replicas[i].1, tableops);
            let a = self.replicas[i].0;
            let b = self.replicas[best].0;
            if v > best_vn || (v == best_vn && (a.ip < b.ip || (a.ip == b.ip && a.port < b.port))) {
                best = i;
                best_vn = v;
            }
            i = i + 1;
        }
        proof {
            self.lemma_view_at(best as int);
            let a = self.replicas@[best as int].0;
            assert forall|b: ReplicaAddr|
                #[trigger] self@.contains_key(b) implies min_vn(self@[b], tableops@) < min_vn(
                    self@[a],
                    tableops@,
                ) || (min_vn(self@[b], tableops@) == min_vn(self@[a], tableops@) && (b == a
                    || addr_lt(a, b))) by {
                let j = choose|j: int| 0 <= j < self.replicas@.len() && self.replicas@[j].0 == b;
                self.lemma_view_at(j);
            }
        }
        Some(self.replicas[best].0)
    }
}

/// The oldest version among the tables of `ops` in a frontier; `u64::MAX` for no table.
pub open spec fn min_vn(db: Map<Seq<char>, u64>, ops: Seq<(Seq<char>, Operation)>) -> int
    decreases ops.len(),
{
    if ops.len() == 0 {
        u64::MAX as int
    } else {
        let rest = min_vn(db, ops.drop_last());
        let v = vn_in(db, ops.last().0) as int;
        if v < rest {
            v
        } else {
            rest
        }
    }
}

fn min_covered_vn(db: &DbVN, tableops: &TableOps) -> (r: u64)
    requires
        db.wf(),
    ensures
        r as int == min_vn(db@, tableops@),
{
    let ops = tableops.get();
    let mut m: u64 = u64::MAX;
    let mut i: usize = 0;
    assert(tableops@.take(0) =~= Seq::<(Seq<char>, Operation)>::empty());
    while i < ops.len()
        invariant
            0 <= i <= ops.len(),
            db.wf(),
            crate::operation::raw_view(ops@) == tableops@,
            m as int == min_vn(db@, tableops@.take(i as int)),
        decreases ops.len() - i,
    {
        assert(tableops@[i as int] == ops@[i as int]@);
        assert(tableops@.take(i + 1).drop_last() =~= tableops@.take(i as int));
        let v = db.get_vn(&ops[i].table);
        if v < m {
            m = v;
        }
        i = i + 1;
    }
    assert(tableops@.take(ops.len() as int) =~= tableops@);
    m
}

} // verus!
