use vstd::prelude::*;

use crate::error::SchedError;
use crate::names::{
    keys_unique, lemma_map_of_domain, lemma_map_of_entry, lemma_map_of_push, lemma_map_of_update,
    map_of,
};
use crate::operation::{raw_view, Operation, TableOps};

verus! {

/// One table's grant inside a transaction: the transaction owns version `vn` of
/// `table` under `op`.
#[derive(Clone, Debug, PartialEq, Eq, Hash)]
pub struct TxTableVN {
    pub table: String,
    pub vn: u64,
    pub op: Operation,
}

impl View for TxTableVN {
    type V = (Seq<char>, u64, Operation);

    open spec fn view(&self) -> (Seq<char>, u64, Operation) {
        (self.table@, self.vn, self.op)
    }
}

impl TxTableVN {
    pub fn new(table: &str, vn: u64, op: Operation) -> (r: TxTableVN)
        ensures
            r@ == (table@, vn, op),
    {
        TxTableVN { table: table.to_owned(), vn, op }
    }
}

/// The version grants of one transaction.
#[derive(Clone, Debug, PartialEq, Eq, Hash)]
pub struct TxVN {
    pub tx: Option<String>,
    pub txtablevns: Vec<TxTableVN>,
}

/// The views of a sequence of grants.
pub open spec fn grants_view(s: Seq<TxTableVN>) -> Seq<(Seq<char>, u64, Operation)> {
    s.map_values(|g: TxTableVN| g@)
}

impl TxVN {
    pub open spec fn grants(&self) -> Seq<(Seq<char>, u64, Operation)> {
        grants_view(self.txtablevns@)
    }

    /// Every grant's version has a successor in `u64`.
    pub open spec fn releasable(&self) -> bool {
        forall|i: int| 0 <= i < self.grants().len() ==> self.grants()[i].1 < u64::MAX
    }

    /// Whether every grant's version has a successor in `u64`.
    pub fn is_releasable(&self) -> (r: bool)
        ensures
            r == self.releasable(),
    {
        let mut i: usize = 0;
        while i < self.txtablevns.len()
            invariant
                0 <= i <= self.txtablevns.len(),
                forall|j: int| 0 <= j < i ==> self.grants()[j].1 < u64::MAX,
            decreases self.txtablevns.len() - i,
        {
            assert(self.grants()[i as int] == self.txtablevns@[i as int]@);
            if self.txtablevns[i].vn == u64::MAX {
                return false;
            }
            i = i + 1;
        }
        true
    }

    /// The grant that governs `table`: the first one for it.
    pub fn grant_for(&self, table: &String) -> (r: Option<(u64, Operation)>)
        ensures
            r == find_grant(self.grants(), table@),
    {
        let ghost g = self.grants();
        let mut i: usize = 0;
        assert(g.subrange(0, g.len() as int) =~= g);
        while i < self.txtablevns.len()
            invariant
                0 <= i <= self.txtablevns.len(),
                g == self.grants(),
                find_grant(g, table@) == find_grant(g.subrange(i as int, g.len() as int), table@),
            decreases self.txtablevns.len() - i,
        {
            let ghost rest = g.subrange(i as int, g.len() as int);
            assert(rest[0] == self.txtablevns@[i as int]@);
            if self.txtablevns[i].table == *table {
                return Some((self.txtablevns[i].vn, self.txtablevns[i].op));
            }
            assert(rest.drop_first() =~= g.subrange(i + 1, g.len() as int));
            i = i + 1;
        }
        None
    }

    /// The grants on the tables of `tableops`, in their order here: what a replica
    /// releases once it has applied a write statement on those tables.
    pub fn restricted_to(&self, tableops: &TableOps) -> (r: TxVN)
        ensures
            r.tx.is_none(),
            r.grants() == self.grants().filter(
                |g: (Seq<char>, u64, Operation)| op_tables(tableops@).contains(g.0),
            ),
    {
        let ghost pred = |g: (Seq<char>, u64, Operation)| op_tables(tableops@).contains(g.0);
        let mut out: Vec<TxTableVN> = Vec::new();
        let mut i: usize = 0;
        proof {
            reveal(Seq::filter);
            assert(self.grants().take(0) =~= Seq::<(Seq<char>, u64, Operation)>::empty());
            assert(grants_view(out@) =~= self.grants().take(0).filter(pred));
        }
        while i < self.txtablevns.len()
            invariant
                0 <= i <= self.txtablevns.len(),
                pred == (|g: (Seq<char>, u64, Operation)| op_tables(tableops@).contains(g.0)),
                grants_view(out@) == self.grants().take(i as int).filter(pred),
            decreases self.txtablevns.len() - i,
        {
            let g = &self.txtablevns[i];
            proof {
                reveal(Seq::filter);
                assert(self.grants()[i as int] == g@);
                assert(self.grants().take(i + 1).drop_last() =~= self.grants().take(i as int));
                assert(self.grants().take(i + 1).last() == g@);
            }
            let keep = tableops.has_table(&g.table);
            if keep {
                let ghost before = out@;
                out.push(TxTableVN { table: g.table.clone(), vn: g.vn, op: g.op });
                assert(grants_view(out@) =~= grants_view(before).push(g@));
            }
            i = i + 1;
        }
        proof {
            assert(self.grants().take(self.grants().len() as int) =~= self.grants());
        }
        TxVN { tx: None, txtablevns: out }
    }

    /// Whether every table of `tableops` has a grant.
    pub fn covers(&self, tableops: &TableOps) -> (r: bool)
        ensures
            r == grants_cover(tableops@, self.grants()),
    {
        let ops = tableops.get();
        let mut i: usize = 0;
        while i < ops.len()
            invariant
                0 <= i <= ops.len(),
                raw_view(ops@) == tableops@,
                forall|j: int| 0 <= j < i ==> (#[trigger] find_grant(self.grants(), tableops@[j].0)).is_some(),
            decreases ops.len() - i,
        {
            assert(tableops@[i as int] == ops@[i as int]@);
            if self.grant_for(&ops[i].table).is_none() {
                assert(find_grant(self.grants(), tableops@[i as int].0).is_none());
                return false;
            }
            i = i + 1;
        }
        true
    }
}

impl Default for TxVN {
    fn default() -> (r: TxVN)
        ensures
            r.tx.is_none(),
            r.grants().len() == 0,
    {
        TxVN { tx: None, txtablevns: Vec::new() }
    }
}

/// The tables of a sequence of table operations.
pub open spec fn op_tables(ops: Seq<(Seq<char>, Operation)>) -> Seq<Seq<char>> {
    ops.map_values(|x: (Seq<char>, Operation)| x.0)
}

/// The grant that a sequence of grants holds for table `t`: the first one for it.
pub open spec fn find_grant(g: Seq<(Seq<char>, u64, Operation)>, t: Seq<char>) -> Option<
    (u64, Operation),
>
    decreases g.len(),
{
    if g.len() == 0 {
        None
    } else if g[0].0 == t {
        Some((g[0].1, g[0].2))
    } else {
        find_grant(g.drop_first(), t)
    }
}

/// Each table of `ops` has a grant in `g`.
pub open spec fn grants_cover(
    ops: Seq<(Seq<char>, Operation)>,
    g: Seq<(Seq<char>, u64, Operation)>,
) -> bool {
    forall|i: int| 0 <= i < ops.len() ==> (#[trigger] find_grant(g, ops[i].0)).is_some()
}

/// A replica whose current version of `t` is `cur` may run a statement on `t` under
/// grant `(vn, op)`: a read once the replica has reached `vn`, a write exactly at `vn`.
pub open spec fn grant_ready(cur: u64, vn: u64, op: Operation) -> bool {
    match op {
        Operation::R => cur >= vn,
        Operation::W => cur == vn,
    }
}

/// A replica with version frontier `db` is ready for the tables of `ops` under the grants `g`.
pub open spec fn ready(
    db: Map<Seq<char>, u64>,
    ops: Seq<(Seq<char>, Operation)>,
    g: Seq<(Seq<char>, u64, Operation)>,
) -> bool {
    forall|i: int|
        0 <= i < ops.len() ==> match #[trigger] find_grant(g, ops[i].0) {
            Some(grant) => grant_ready(vn_in(db, ops[i].0), grant.0, grant.1),
            None => false,
        }
}

/// The version of `t` in a frontier; a table not yet seen stands at zero.
pub open spec fn vn_in(db: Map<Seq<char>, u64>, t: Seq<char>) -> u64 {
    if db.contains_key(t) {
        db[t]
    } else {
        0
    }
}

/// The version of `t` after releasing the grants `g` one after another from `cur`:
/// each grant on `t` lifts it to at least its version plus one.
pub open spec fn release_vn(cur: int, g: Seq<(Seq<char>, u64, Operation)>, t: Seq<char>) -> int
    decreases g.len(),
{
    if g.len() == 0 {
        cur
    } else {
        let before = release_vn(cur, g.drop_last(), t);
        if g.last().0 == t && g.last().1 + 1 > before {
            g.last().1 + 1
        } else {
            before
        }
    }
}

/// The current version of one table at one replica.
#[derive(Clone, Debug, PartialEq, Eq, Hash)]
pub struct DbTableVN {
    pub table: String,
    pub vn: u64,
}

impl View for DbTableVN {
    type V = (Seq<char>, u64);

    open spec fn view(&self) -> (Seq<char>, u64) {
        (self.table@, self.vn)
    }
}

impl DbTableVN {
    pub fn new(table: &str, vn: u64) -> (r: DbTableVN)
        ensures
            r@ == (table@, vn),
    {
        DbTableVN { table: table.to_owned(), vn }
    }
}

/// The views of a sequence of table versions.
pub open spec fn dbtables_view(s: Seq<DbTableVN>) -> Seq<(Seq<char>, u64)> {
    s.map_values(|x: DbTableVN| x@)
}

/// The version frontier of one replica: for each table, the version it is ready to
/// apply or read next.
#[derive(Clone, Debug, PartialEq, Eq, Hash)]
pub struct DbVN {
    entries: Vec<DbTableVN>,
}

impl View for DbVN {
    type V = Map<Seq<char>, u64>;

    closed spec fn view(&self) -> Map<Seq<char>, u64> {
        map_of(dbtables_view(self.entries@))
    }
}

impl DbVN {
    /// No table is listed twice.
    pub closed spec fn wf(&self) -> bool {
        keys_unique(dbtables_view(self.entries@))
    }

    pub open spec fn vn_of(&self, t: Seq<char>) -> u64 {
        vn_in(self@, t)
    }

    /// A frontier at which every table stands at zero.
    pub fn new() -> (r: DbVN)
        ensures
            r.wf(),
            r@ == Map::<Seq<char>, u64>::empty(),
    {
        let r = DbVN { entries: Vec::new() };
        assert(dbtables_view(r.entries@) =~= Seq::empty());
        r
    }

    fn index_of(&self, table: &String) -> (r: Option<usize>)
        requires
            self.wf(),
        ensures
            match r {
                Some(i) => i < self.entries@.len() && self.entries@[i as int].table@ == table@,
                None => !self@.contains_key(table@),
            },
    {
        let mut i: usize = 0;
        while i < self.entries.len()
            invariant
                0 <= i <= self.entries.len(),
                forall|j: int| 0 <= j < i ==> self.entries@[j].table@ != table@,
            decreases self.entries.len() - i,
        {
            if self.entries[i].table == *table {
                return Some(i);
            }
            i = i + 1;
        }
        proof {
            let s = dbtables_view(self.entries@);
            lemma_map_of_domain(s, table@);
            assert forall|j: int| 0 <= j < s.len() implies s[j].0 != table@ by {
                assert(s[j] == self.entries@[j]@);
            }
        }
        None
    }

    /// The current version of `table`.
    pub fn get_vn(&self, table: &String) -> (r: u64)
        requires
            self.wf(),
        ensures
            r == self.vn_of(table@),
    {
        match self.index_of(table) {
            Some(i) => {
                proof {
                    let s = dbtables_view(self.entries@);
                    assert(s[i as int] == self.entries@[i as int]@);
                    lemma_map_of_entry(s, i as int);
                }
                self.entries[i].vn
            },
            None => 0,
        }
    }

    pub(crate) fn set_vn(&mut self, table: &String, vn: u64)
        requires
            old(self).wf(),
        ensures
            final(self).wf(),
            final(self)@ == old(self)@.insert(table@, vn),
    {
        let ghost s = dbtables_view(self.entries@);
        match self.index_of(table) {
            Some(i) => {
                let name = table.clone();
                self.entries.set(i, DbTableVN { table: name, vn });
                proof {
                    assert(s[i as int] == old(self).entries@[i as int]@);
                    lemma_map_of_update(s, i as int, vn);
                    assert(dbtables_view(self.entries@) =~= s.update(i as int, (s[i as int].0, vn)));
                }
            },
            None => {
                self.entries.push(DbTableVN { table: table.clone(), vn });
                proof {
                    lemma_map_of_push(s, table@, vn);
                    assert(dbtables_view(self.entries@) =~= s.push((table@, vn)));
                }
            },
        }
    }

    /// Whether this replica may run a statement on the tables of `tableops` under the
    /// grants of `txvn`; fails when a table has no grant.
    pub fn can_execute_query(&self, tableops: &TableOps, txvn: &TxVN) -> (r: Result<
        bool,
        SchedError,
    >)
        requires
            self.wf(),
        ensures
            match r {
                Ok(b) => grants_cover(tableops@, txvn.grants()) && b == ready(
                    self@,
                    tableops@,
                    txvn.grants(),
                ),
                Err(e) => !grants_cover(tableops@, txvn.grants()) && e == SchedError::MissingGrant,
            },
    {
        let ops = tableops.get();
        let mut all_ready: bool = true;
        let mut i: usize = 0;
        while i < ops.len()
            invariant
                0 <= i <= ops.len(),
                self.wf(),
                raw_view(ops@) == tableops@,
                forall|j: int| 0 <= j < i ==> (#[trigger] find_grant(txvn.grants(), tableops@[j].0)).is_some(),
                all_ready == forall|j: int|
                    0 <= j < i ==> match #[trigger] find_grant(txvn.grants(), tableops@[j].0) {
                        Some(grant) => grant_ready(
                            vn_in(self@, tableops@[j].0),
                            grant.0,
                            grant.1,
                        ),
                        None => false,
                    },
            decreases ops.len() - i,
        {
            assert(tableops@[i as int] == ops@[i as int]@);
            match txvn.grant_for(&ops[i].table) {
                None => {
                    assert(find_grant(txvn.grants(), tableops@[i as int].0).is_none());
                    return Err(SchedError::MissingGrant);
                },
                Some((vn, op)) => {
                    let cur = self.get_vn(&ops[i].table);
                    let ok = match op {
                        Operation::R => cur >= vn,
                        Operation::W => cur == vn,
                    };
                    if !ok {
                        all_ready = false;
                    }
                },
            }
            i = i + 1;
        }
        Ok(all_ready)
    }

    /// The current versions of the tables of `tableops`, in their order.
    pub fn get_from_tableops(&self, tableops: &TableOps) -> (r: Vec<DbTableVN>)
        requires
            self.wf(),
        ensures
            r@.len() == tableops@.len(),
            forall|i: int|
                0 <= i < r@.len() ==> (#[trigger] r@[i])@ == (
                    tableops@[i].0,
                    self.vn_of(tableops@[i].0),
                ),
    {
        let ops = tableops.get();
        let mut out: Vec<DbTableVN> = Vec::new();
        let mut i: usize = 0;
        while i < ops.len()
            invariant
                0 <= i <= ops.len(),
                self.wf(),
                raw_view(ops@) == tableops@,
                out@.len() == i,
                forall|j: int|
                    0 <= j < i ==> (#[trigger] out@[j])@ == (
                        tableops@[j].0,
                        self.vn_of(tableops@[j].0),
                    ),
            decreases ops.len() - i,
        {
            assert(tableops@[i as int] == ops@[i as int]@);
            let vn = self.get_vn(&ops[i].table);
            out.push(DbTableVN { table: ops[i].table.clone(), vn });
            i = i + 1;
        }
        out
    }

    /// Releases the grants of a finished transaction: each granted table moves to at
    /// least its granted version plus one.
    pub fn release_version(&mut self, txvn: &TxVN)
        requires
            old(self).wf(),
            txvn.releasable(),
        ensures
            final(self).wf(),
            forall|t: Seq<char>|
                #[trigger] final(self).vn_of(t) as int == release_vn(
                    old(self).vn_of(t) as int,
                    txvn.grants(),
                    t,
                ),
            forall|t: Seq<char>| #[trigger] final(self).vn_of(t) >= old(self).vn_of(t),
            forall|i: int|
                0 <= i < txvn.grants().len() ==> final(self).vn_of(#[trigger] txvn.grants()[i].0)
                    >= txvn.grants()[i].1 + 1,
    {
        let ghost g = txvn.grants();
        let mut i: usize = 0;
        while i < txvn.txtablevns.len()
            invariant
                0 <= i <= txvn.txtablevns.len(),
                g == txvn.grants(),
                txvn.releasable(),
                self.wf(),
                forall|t: Seq<char>|
                    #[trigger] self.vn_of(t) as int == release_vn(
                        old(self).vn_of(t) as int,
                        g.take(i as int),
                        t,
                    ),
            decreases txvn.txtablevns.len() - i,
        {
            let ghost prev = *self;
            let grant = &txvn.txtablevns[i];
            assert(g[i as int] == grant@);
            let cur = self.get_vn(&grant.table);
            let next = grant.vn + 1;
            if next > cur {
                self.set_vn(&grant.table, next);
            }
            proof {
                assert(g.take(i + 1).drop_last() =~= g.take(i as int));
                assert forall|t: Seq<char>|
                    #[trigger] self.vn_of(t) as int == release_vn(
                        old(self).vn_of(t) as int,
                        g.take(i + 1),
                        t,
                    ) by {
                    assert(prev.vn_of(t) as int == release_vn(
                        old(self).vn_of(t) as int,
                        g.take(i as int),
                        t,
                    ));
                }
            }
            i = i + 1;
        }
        proof {
            assert(g.take(g.len() as int) =~= g);
            assert forall|t: Seq<char>| #[trigger] self.vn_of(t) >= old(self).vn_of(t) by {
                law_release_monotone(old(self).vn_of(t) as int, g, t);
            }
            assert forall|i: int| 0 <= i < g.len() implies self.vn_of(#[trigger] g[i].0) >= g[i].1 + 1 by {
                law_release_passes_grants(old(self).vn_of(g[i].0) as int, g, i);
            }
        }
    }
}

/// Releasing never lowers a version.
pub proof fn law_release_monotone(cur: int, g: Seq<(Seq<char>, u64, Operation)>, t: Seq<char>)
    ensures
        release_vn(cur, g, t) >= cur,
    decreases g.len(),
{
    if g.len() > 0 {
        law_release_monotone(cur, g.drop_last(), t);
    }
}

/// After a release, every granted table stands past its granted version.
pub proof fn law_release_passes_grants(cur: int, g: Seq<(Seq<char>, u64, Operation)>, i: int)
    requires
        0 <= i < g.len(),
    ensures
        release_vn(cur, g, g[i].0) >= g[i].1 + 1,
    decreases g.len(),
{
    if i < g.len() - 1 {
        assert(g.drop_last()[i] == g[i]);
        law_release_passes_grants(cur, g.drop_last(), i);
    }
}

} // verus!
