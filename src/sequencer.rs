use vstd::prelude::*;

use crate::msql::MsqlBeginTx;
use crate::operation::{keys_sorted_ops, Operation};
use crate::version::{grants_view, vn_in, DbVN, TxTableVN, TxVN};

verus! {

/// `g` grants the tables of `ops`, in their order and under their operations, each at
/// the version that `before` holds for it; `after` holds those versions plus one and is
/// `before` elsewhere.
pub open spec fn assigned(
    before: Map<Seq<char>, u64>,
    ops: Seq<(Seq<char>, Operation)>,
    g: Seq<(Seq<char>, u64, Operation)>,
    after: Map<Seq<char>, u64>,
) -> bool {
    &&& g.len() == ops.len()
    &&& forall|i: int|
        0 <= i < ops.len() ==> #[trigger] g[i] == (ops[i].0, vn_in(before, ops[i].0), ops[i].1)
    &&& forall|t: Seq<char>|
        #[trigger] vn_in(after, t) as int == if exists|i: int| 0 <= i < ops.len() && ops[i].0 == t {
            vn_in(before, t) + 1
        } else {
            vn_in(before, t) as int
        }
}

/// The cluster-wide oracle of version numbers: for each table, the next version to grant.
#[derive(Debug)]
pub struct Sequencer {
    next: DbVN,
}

impl View for Sequencer {
    type V = Map<Seq<char>, u64>;

    closed spec fn view(&self) -> Map<Seq<char>, u64> {
        self.next@
    }
}

impl Sequencer {
    pub closed spec fn wf(&self) -> bool {
        self.next.wf()
    }

    /// The next version of `t` to grant.
    pub open spec fn next_of(&self, t: Seq<char>) -> u64 {
        vn_in(self@, t)
    }

    /// A sequencer at which every table starts at version zero.
    pub fn new() -> (r: Sequencer)
        ensures
            r.wf(),
            forall|t: Seq<char>| #[trigger] r.next_of(t) == 0,
    {
        Sequencer { next: DbVN::new() }
    }

    /// The next version of `table` to grant.
    pub fn next_vn(&self, table: &String) -> (r: u64)
        requires
            self.wf(),
        ensures
            r == self.next_of(table@),
    {
        self.next.get_vn(table)
    }

    /// Grants the transaction one version of each table it declares, in one step.
    pub fn assign_vn(&mut self, msqlbegintx: &MsqlBeginTx) -> (r: TxVN)
        requires
            old(self).wf(),
            forall|i: int|
                0 <= i < msqlbegintx.tableops@.len() ==> old(self).next_of(
                    #[trigger] msqlbegintx.tableops@[i].0,
                ) < u64::MAX,
        ensures
            final(self).wf(),
            r.tx == msqlbegintx.tx,
            assigned(old(self)@, msqlbegintx.tableops@, r.grants(), final(self)@),
    {
        let tableops = &msqlbegintx.tableops;
        let ops = tableops.get();
        let ghost m0 = self@;
        let mut grants: Vec<TxTableVN> = Vec::new();
        let mut i: usize = 0;
        while i < ops.len()
            invariant
                0 <= i <= ops.len(),
                self.wf(),
                tableops.wf(),
                crate::operation::raw_view(ops@) == tableops@,
                forall|j: int|
                    0 <= j < tableops@.len() ==> vn_in(m0, #[trigger] tableops@[j].0) < u64::MAX,
                grants@.len() == i,
                forall|j: int|
                    0 <= j < i ==> #[trigger] grants_view(grants@)[j] == (
                        tableops@[j].0,
                        vn_in(m0, tableops@[j].0),
                        tableops@[j].1,
                    ),
                forall|t: Seq<char>|
                    #[trigger] vn_in(self@, t) as int == if exists|j: int|
                        0 <= j < i && tableops@[j].0 == t {
                        vn_in(m0, t) + 1
                    } else {
                        vn_in(m0, t) as int
                    },
            decreases ops.len() - i,
        {
            let ghost s = tableops@;
            assert(s[i as int] == ops@[i as int]@);
            proof {
                keys_sorted_ops(s);
                assert(!exists|j: int| 0 <= j < i && s[j].0 == s[i as int].0);
            }
            let table = &ops[i].table;
            assert(vn_in(self@, s[i as int].0) == vn_in(m0, s[i as int].0));
            let vn = self.next.get_vn(table);
            let ghost prev = self@;
            self.next.set_vn(table, vn + 1);
            let ghost old_grants = grants@;
            grants.push(TxTableVN { table: table.clone(), vn, op: ops[i].op });
            proof {
                assert forall|j: int| 0 <= j < i + 1 implies #[trigger] grants_view(grants@)[j] == (
                    s[j].0,
                    vn_in(m0, s[j].0),
                    s[j].1,
                ) by {
                    assert(grants_view(grants@)[j] == grants@[j]@);
                    if j < i {
                        assert(grants@[j] == old_grants[j]);
                        assert(grants_view(old_grants)[j] == old_grants[j]@);
                    }
                }
                assert forall|t: Seq<char>|
                    #[trigger] vn_in(self@, t) as int == if exists|j: int|
                        0 <= j < i + 1 && s[j].0 == t {
                        vn_in(m0, t) + 1
                    } else {
                        vn_in(m0, t) as int
                    } by {
                    assert(vn_in(prev, t) as int == if exists|j: int| 0 <= j < i && s[j].0 == t {
                        vn_in(m0, t) + 1
                    } else {
                        vn_in(m0, t) as int
                    });
                    if t == s[i as int].0 {
                        assert(0 <= i < i + 1 && s[i as int].0 == t);
                    } else {
                        if exists|j: int| 0 <= j < i + 1 && s[j].0 == t {
                            let j = choose|j: int| 0 <= j < i + 1 && s[j].0 == t;
                            assert(j < i);
                        }
                    }
                }
            }
            i = i + 1;
        }
        let tx = match &msqlbegintx.tx {
            Some(name) => Some(name.clone()),
            None => None,
        };
        TxVN { tx, txtablevns: grants }
    }
}

/// Successive grants of the same table strictly increase: after one assignment and
/// then another, a table granted by both got a larger version the second time.
pub proof fn law_sequencer_monotone(
    m0: Map<Seq<char>, u64>,
    ops1: Seq<(Seq<char>, Operation)>,
    g1: Seq<(Seq<char>, u64, Operation)>,
    m1: Map<Seq<char>, u64>,
    ops2: Seq<(Seq<char>, Operation)>,
    g2: Seq<(Seq<char>, u64, Operation)>,
    m2: Map<Seq<char>, u64>,
    i: int,
    j: int,
)
    requires
        assigned(m0, ops1, g1, m1),
        assigned(m1, ops2, g2, m2),
        0 <= i < g1.len(),
        0 <= j < g2.len(),
        g1[i].0 == g2[j].0,
    ensures
        g1[i].1 < g2[j].1,
{
    let t = g1[i].0;
    assert(g1[i] == (ops1[i].0, vn_in(m0, ops1[i].0), ops1[i].1));
    assert(g2[j] == (ops2[j].0, vn_in(m1, ops2[j].0), ops2[j].1));
    assert(vn_in(m1, t) as int == vn_in(m0, t) + 1);
}

/// Two successive assignments order every table they share the same way: the first
/// transaction precedes the second on all of them, so no cycle can arise.
pub proof fn law_sequencer_consistent_order(
    m0: Map<Seq<char>, u64>,
    ops1: Seq<(Seq<char>, Operation)>,
    g1: Seq<(Seq<char>, u64, Operation)>,
    m1: Map<Seq<char>, u64>,
    ops2: Seq<(Seq<char>, Operation)>,
    g2: Seq<(Seq<char>, u64, Operation)>,
    m2: Map<Seq<char>, u64>,
)
    requires
        assigned(m0, ops1, g1, m1),
        assigned(m1, ops2, g2, m2),
    ensures
        forall|i: int, j: int|
            0 <= i < g1.len() && 0 <= j < g2.len() && #[trigger] g1[i].0 == #[trigger] g2[j].0
                ==> g1[i].1 < g2[j].1,
{
    assert forall|i: int, j: int|
        0 <= i < g1.len() && 0 <= j < g2.len() && #[trigger] g1[i].0 == #[trigger] g2[j].0
            implies g1[i].1 < g2[j].1 by {
        law_sequencer_monotone(m0, ops1, g1, m1, ops2, g2, m2, i, j);
    }
}

/// An assignment never lowers the next version of any table.
pub proof fn law_sequencer_counters_grow(
    m0: Map<Seq<char>, u64>,
    ops: Seq<(Seq<char>, Operation)>,
    g: Seq<(Seq<char>, u64, Operation)>,
    m1: Map<Seq<char>, u64>,
    t: Seq<char>,
)
    requires
        assigned(m0, ops, g, m1),
    ensures
        vn_in(m1, t) >= vn_in(m0, t),
{
    assert(vn_in(m1, t) as int == if exists|i: int| 0 <= i < ops.len() && ops[i].0 == t {
        vn_in(m0, t) + 1
    } else {
        vn_in(m0, t) as int
    });
}

} // verus!
