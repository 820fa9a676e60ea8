use vstd::prelude::*;

use crate::names::{
    keys_sorted, keys_unique, lemma_map_of_domain, lemma_map_of_entry, lemma_map_of_update,
    lemma_name_lt_asymmetric, lemma_name_lt_irreflexive, lemma_name_lt_total,
    lemma_name_lt_transitive, lemma_sorted_unique, map_of, name_less, name_lt,
};

verus! {

/// Read or write access to one table.
#[derive(Clone, Copy, Debug, PartialEq, Eq, Structural, Hash)]
pub enum Operation {
    R,
    W,
}

/// How the operations of one statement or transaction mix reads and writes.
#[derive(Clone, Copy, Debug, PartialEq, Eq, Structural, Hash)]
pub enum AccessPattern {
    ReadOnly,
    WriteOnly,
    Mixed,
}

/// One table together with the access a statement needs on it.
#[derive(Clone, Debug, PartialEq, Eq, Hash)]
pub struct TableOp {
    pub table: String,
    pub op: Operation,
}

impl View for TableOp {
    type V = (Seq<char>, Operation);

    open spec fn view(&self) -> (Seq<char>, Operation) {
        (self.table@, self.op)
    }
}

impl TableOp {
    pub fn new(table: &str, op: Operation) -> (r: TableOp)
        ensures
            r@ == (table@, op),
    {
        TableOp { table: table.to_owned(), op }
    }
}

/// The views of a sequence of raw table operations.
pub open spec fn raw_view(s: Seq<TableOp>) -> Seq<(Seq<char>, Operation)> {
    s.map_values(|x: TableOp| x@)
}

/// The canonical meaning of a raw list of table operations: every table that occurs,
/// mapped to `W` if it occurs with `W` anywhere and to `R` otherwise.
pub open spec fn merged(raw: Seq<(Seq<char>, Operation)>) -> Map<Seq<char>, Operation> {
    Map::new(
        |t: Seq<char>| exists|i: int| 0 <= i < raw.len() && raw[i].0 == t,
        |t: Seq<char>|
            if exists|i: int| 0 <= i < raw.len() && raw[i] == (t, Operation::W) {
                Operation::W
            } else {
                Operation::R
            },
    )
}

/// The access pattern of a sequence of table operations.
pub open spec fn pattern_of(s: Seq<(Seq<char>, Operation)>) -> AccessPattern {
    if forall|i: int| 0 <= i < s.len() ==> s[i].1 == Operation::R {
        AccessPattern::ReadOnly
    } else if forall|i: int| 0 <= i < s.len() ==> s[i].1 == Operation::W {
        AccessPattern::WriteOnly
    } else {
        AccessPattern::Mixed
    }
}

/// A canonical set of table operations: each table at most once, sorted by name.
#[derive(Debug, PartialEq, Eq, Hash)]
pub struct TableOps {
    ops: Vec<TableOp>,
}

impl View for TableOps {
    type V = Seq<(Seq<char>, Operation)>;

    closed spec fn view(&self) -> Seq<(Seq<char>, Operation)> {
        raw_view(self.ops@)
    }
}

impl TableOps {
    #[verifier::type_invariant]
    spec fn inv(&self) -> bool {
        keys_sorted(raw_view(self.ops@))
    }

    /// Tables strictly increase by name.
    pub open spec fn wf(&self) -> bool {
        keys_sorted(self@)
    }

    /// The canonical form of `raw`: a table under both `R` and `W` collapses to `W`,
    /// duplicates are dropped, and the tables come sorted by name.
    pub fn from_iter(raw: Vec<TableOp>) -> (r: TableOps)
        ensures
            r.wf(),
            map_of(r@) == merged(raw_view(raw@)),
    {
        let mut out: Vec<TableOp> = Vec::new();
        let mut k: usize = 0;
        proof {
            assert(raw_view(raw@).take(0) =~= Seq::empty());
            assert(map_of(raw_view(out@)) =~= merged(raw_view(raw@).take(0)));
        }
        while k < raw.len()
            invariant
                0 <= k <= raw.len(),
                keys_sorted(raw_view(out@)),
                map_of(raw_view(out@)) == merged(raw_view(raw@).take(k as int)),
            decreases raw.len() - k,
        {
            let t = &raw[k].table;
            let op = raw[k].op;
            let ghost before = raw_view(out@);
            let ghost out0 = out@;
            let mut i: usize = 0;
            while i < out.len() && name_less(&out[i].table, t)
                invariant
                    0 <= i <= out.len(),
                    out@ == out0,
                    before == raw_view(out0),
                    forall|j: int| 0 <= j < i ==> name_lt(out@[j].table@, t@),
                decreases out.len() - i,
            {
                i = i + 1;
            }
            proof {
                lemma_sorted_unique(before);
                lemma_merged_push(raw_view(raw@).take(k as int), (t@, op));
                assert(raw_view(raw@).take(k + 1) =~= raw_view(raw@).take(k as int).push((t@, op)));
            }
            if i < out.len() && out[i].table == *t {
                let cur = out[i].op;
                let new_op = if cur == Operation::W || op == Operation::W {
                    Operation::W
                } else {
                    Operation::R
                };
                let name = out[i].table.clone();
                out.set(i, TableOp { table: name, op: new_op });
                proof {
                    lemma_map_of_entry(before, i as int);
                    lemma_map_of_update(before, i as int, new_op);
                    assert(raw_view(out@) =~= before.update(i as int, (before[i as int].0, new_op)));
                }
            } else {
                proof {
                    if i < out.len() {
                        lemma_name_lt_total(out@[i as int].table@, t@);
                    }
                    assert forall|j: int| 0 <= j < before.len() implies before[j].0 != t@ by {
                        if j < i {
                            lemma_name_lt_irreflexive(t@);
                        } else {
                            if j > i {
                                lemma_name_lt_transitive(t@, before[i as int].0, before[j].0);
                            }
                            lemma_name_lt_irreflexive(t@);
                        }
                    }
                    lemma_map_of_domain(before, t@);
                    assert forall|j: int| i <= j < before.len() implies name_lt(t@, before[j].0) by {
                        if j > i {
                            lemma_name_lt_transitive(t@, before[i as int].0, before[j].0);
                        }
                    }
                }
                out.insert(i, TableOp { table: t.clone(), op });
                proof {
                    let after = raw_view(out@);
                    assert(after =~= before.insert(i as int, (t@, op)));
                    assert forall|a: int, b: int| 0 <= a < b < after.len() implies name_lt(
                        after[a].0,
                        after[b].0,
                    ) by {
                        if a < i && b > i {
                            assert(after[b] == before[b - 1]);
                            assert(after[a] == before[a]);
                            lemma_name_lt_transitive(after[a].0, t@, after[b].0);
                        } else if a == i {
                            assert(after[b] == before[b - 1]);
                        } else if a > i {
                            assert(after[b] == before[b - 1]);
                            assert(after[a] == before[a - 1]);
                        }
                    }
                    lemma_map_of_insert(before, i as int, t@, op);
                }
            }
            k = k + 1;
        }
        proof {
            assert(raw_view(raw@).take(raw.len() as int) =~= raw_view(raw@));
        }
        TableOps { ops: out }
    }

    /// Classifies the operations: all reads, all writes, or a mix.
    pub fn access_pattern(&self) -> (r: AccessPattern)
        ensures
            r == pattern_of(self@),
    {
        let mut reads: bool = true;
        let mut writes: bool = true;
        let mut i: usize = 0;
        while i < self.ops.len()
            invariant
                0 <= i <= self.ops.len(),
                reads == forall|j: int| 0 <= j < i ==> self@[j].1 == Operation::R,
                writes == forall|j: int| 0 <= j < i ==> self@[j].1 == Operation::W,
            decreases self.ops.len() - i,
        {
            assert(self@[i as int] == self.ops@[i as int]@);
            if self.ops[i].op == Operation::R {
                writes = false;
            } else {
                reads = false;
            }
            i = i + 1;
        }
        if reads {
            AccessPattern::ReadOnly
        } else if writes {
            AccessPattern::WriteOnly
        } else {
            AccessPattern::Mixed
        }
    }

    /// The operations in canonical order.
    pub fn get(&self) -> (r: &Vec<TableOp>)
        ensures
            raw_view(r@) == self@,
            self.wf(),
    {
        proof {
            use_type_invariant(self);
        }
        &self.ops
    }

    /// Whether `table` is one of the tables.
    pub fn has_table(&self, table: &String) -> (r: bool)
        ensures
            r == self@.map_values(|x: (Seq<char>, Operation)| x.0).contains(table@),
    {
        let mut i: usize = 0;
        while i < self.ops.len()
            invariant
                0 <= i <= self.ops.len(),
                forall|j: int| 0 <= j < i ==> self@[j].0 != table@,
            decreases self.ops.len() - i,
        {
            assert(self@[i as int] == self.ops@[i as int]@);
            if self.ops[i].table == *table {
                assert(self@.map_values(|x: (Seq<char>, Operation)| x.0)[i as int] == table@);
                return true;
            }
            i = i + 1;
        }
        proof {
            let ts = self@.map_values(|x: (Seq<char>, Operation)| x.0);
            assert forall|j: int| 0 <= j < ts.len() implies ts[j] != table@ by {
                assert(ts[j] == self@[j].0);
            }
        }
        false
    }

    pub fn len(&self) -> (r: usize)
        ensures
            r == self@.len(),
    {
        self.ops.len()
    }
}

proof fn lemma_merged_push(raw: Seq<(Seq<char>, Operation)>, x: (Seq<char>, Operation))
    ensures
        merged(raw.push(x)) == merged(raw).insert(
            x.0,
            if x.1 == Operation::W || (merged(raw).contains_key(x.0) && merged(raw)[x.0]
                == Operation::W) {
                Operation::W
            } else {
                Operation::R
            },
        ),
{
    let s = raw.push(x);
    assert forall|t: Seq<char>|
        #![trigger merged(s).contains_key(t)]
        (exists|i: int| 0 <= i < s.len() && s[i].0 == t) <==> (t == x.0 || exists|i: int|
            0 <= i < raw.len() && raw[i].0 == t) by {
        if exists|i: int| 0 <= i < s.len() && s[i].0 == t {
            let i = choose|i: int| 0 <= i < s.len() && s[i].0 == t;
            if i < raw.len() {
                assert(raw[i].0 == t);
            }
        }
        if exists|i: int| 0 <= i < raw.len() && raw[i].0 == t {
            let i = choose|i: int| 0 <= i < raw.len() && raw[i].0 == t;
            assert(s[i].0 == t);
        }
        if t == x.0 {
            assert(s[raw.len() as int].0 == t);
        }
    }
    assert forall|t: Seq<char>|
        #![trigger merged(s)[t]]
        (exists|i: int| 0 <= i < s.len() && s[i] == (t, Operation::W)) <==> ((t == x.0 && x.1
            == Operation::W) || exists|i: int|
            0 <= i < raw.len() && raw[i] == (t, Operation::W)) by {
        if exists|i: int| 0 <= i < s.len() && s[i] == (t, Operation::W) {
            let i = choose|i: int| 0 <= i < s.len() && s[i] == (t, Operation::W);
            if i < raw.len() {
                assert(raw[i] == (t, Operation::W));
            }
        }
        if exists|i: int| 0 <= i < raw.len() && raw[i] == (t, Operation::W) {
            let i = choose|i: int| 0 <= i < raw.len() && raw[i] == (t, Operation::W);
            assert(s[i] == (t, Operation::W));
        }
        if t == x.0 && x.1 == Operation::W {
            assert(s[raw.len() as int] == (t, Operation::W));
        }
    }
    assert(merged(s) =~= merged(raw).insert(
        x.0,
        if x.1 == Operation::W || (merged(raw).contains_key(x.0) && merged(raw)[x.0]
            == Operation::W) {
            Operation::W
        } else {
            Operation::R
        },
    ));
}

/// Two sequences without repeated keys and with the same entries describe the same map.
proof fn lemma_map_of_equal<V>(s: Seq<(Seq<char>, V)>, m: Map<Seq<char>, V>)
    requires
        keys_unique(s),
        forall|k: Seq<char>|
            m.contains_key(k) <==> exists|i: int| 0 <= i < s.len() && s[i].0 == k,
        forall|i: int| 0 <= i < s.len() ==> m[s[i].0] == s[i].1,
    ensures
        map_of(s) == m,
{
    assert forall|k: Seq<char>| map_of(s).contains_key(k) <==> m.contains_key(k) by {
        lemma_map_of_domain(s, k);
    }
    assert forall|k: Seq<char>| map_of(s).contains_key(k) implies map_of(s)[k] == m[k] by {
        lemma_map_of_domain(s, k);
        let i = choose|i: int| 0 <= i < s.len() && s[i].0 == k;
        lemma_map_of_entry(s, i);
    }
    assert(map_of(s) =~= m);
}

proof fn lemma_map_of_insert<V>(s: Seq<(Seq<char>, V)>, i: int, k: Seq<char>, v: V)
    requires
        keys_unique(s),
        keys_unique(s.insert(i, (k, v))),
        0 <= i <= s.len(),
        !map_of(s).contains_key(k),
    ensures
        map_of(s.insert(i, (k, v))) == map_of(s).insert(k, v),
{
    let u = s.insert(i, (k, v));
    let m = map_of(s).insert(k, v);
    assert forall|key: Seq<char>|
        m.contains_key(key) <==> exists|j: int| 0 <= j < u.len() && u[j].0 == key by {
        lemma_map_of_domain(s, key);
        if exists|j: int| 0 <= j < u.len() && u[j].0 == key {
            let j = choose|j: int| 0 <= j < u.len() && u[j].0 == key;
            if j < i {
                assert(s[j].0 == key);
            } else if j > i {
                assert(s[j - 1].0 == key);
            }
        }
        if map_of(s).contains_key(key) {
            let j = choose|j: int| 0 <= j < s.len() && s[j].0 == key;
            if j < i {
                assert(u[j].0 == key);
            } else {
                assert(u[j + 1].0 == key);
            }
        }
        if key == k {
            assert(u[i].0 == key);
        }
    }
    assert forall|j: int| 0 <= j < u.len() implies m[u[j].0] == u[j].1 by {
        if j != i {
            let jj = if j < i {
                j
            } else {
                j - 1
            };
            assert(u[j] == s[jj]);
            lemma_map_of_entry(s, jj);
        }
    }
    lemma_map_of_equal(u, m);
}

/// Removing the first entry of a sequence without repeated keys removes its key.
proof fn lemma_map_of_drop_first<V>(s: Seq<(Seq<char>, V)>)
    requires
        keys_unique(s),
        s.len() > 0,
    ensures
        map_of(s.drop_first()) == map_of(s).remove(s[0].0),
{
    let d = s.drop_first();
    let m = map_of(s).remove(s[0].0);
    assert forall|key: Seq<char>|
        m.contains_key(key) <==> exists|j: int| 0 <= j < d.len() && d[j].0 == key by {
        lemma_map_of_domain(s, key);
        if exists|j: int| 0 <= j < d.len() && d[j].0 == key {
            let j = choose|j: int| 0 <= j < d.len() && d[j].0 == key;
            assert(s[j + 1].0 == key);
        }
        if m.contains_key(key) {
            let j = choose|j: int| 0 <= j < s.len() && s[j].0 == key;
            assert(j != 0);
            assert(d[j - 1].0 == key);
        }
    }
    assert forall|j: int| 0 <= j < d.len() implies m[d[j].0] == d[j].1 by {
        assert(d[j] == s[j + 1]);
        lemma_map_of_entry(s, j + 1);
    }
    lemma_map_of_equal(d, m);
}

/// Two sorted sequences that describe the same map are the same sequence.
proof fn lemma_sorted_same_map<V>(s: Seq<(Seq<char>, V)>, u: Seq<(Seq<char>, V)>)
    requires
        keys_sorted(s),
        keys_sorted(u),
        map_of(s) == map_of(u),
    ensures
        s == u,
    decreases s.len(),
{
    lemma_sorted_unique(s);
    lemma_sorted_unique(u);
    if s.len() == 0 {
        if u.len() > 0 {
            lemma_map_of_entry(u, 0);
        }
        assert(s =~= u);
    } else {
        if u.len() == 0 {
            lemma_map_of_entry(s, 0);
        }
        lemma_map_of_entry(s, 0);
        lemma_map_of_entry(u, 0);
        lemma_map_of_domain(u, s[0].0);
        lemma_map_of_domain(s, u[0].0);
        let j = choose|j: int| 0 <= j < u.len() && u[j].0 == s[0].0;
        let k = choose|k: int| 0 <= k < s.len() && s[k].0 == u[0].0;
        if j > 0 {
            if k > 0 {
                lemma_name_lt_asymmetric(s[0].0, s[k].0);
            } else {
                lemma_name_lt_irreflexive(s[0].0);
            }
        }
        assert(s[0] == u[0]);
        lemma_map_of_drop_first(s);
        lemma_map_of_drop_first(u);
        lemma_sorted_same_map(s.drop_first(), u.drop_first());
        assert(s =~= seq![s[0]] + s.drop_first());
        assert(u =~= seq![u[0]] + u.drop_first());
    }
}

/// A raw list in which each table occurs once already means what it says.
proof fn lemma_merged_of_unique(s: Seq<(Seq<char>, Operation)>)
    requires
        keys_unique(s),
    ensures
        merged(s) == map_of(s),
{
    let m = merged(s);
    assert forall|j: int| 0 <= j < s.len() implies m[s[j].0] == s[j].1 by {
        if s[j].1 == Operation::R {
            if exists|i: int| 0 <= i < s.len() && s[i] == (s[j].0, Operation::W) {
                let i = choose|i: int| 0 <= i < s.len() && s[i] == (s[j].0, Operation::W);
                assert(i != j);
            }
        } else {
            assert(s[j] == (s[j].0, Operation::W));
        }
    }
    lemma_map_of_equal(s, m);
}

/// Canonicalization is commutative: the canonical forms of `a ++ b` and of `b ++ a`
/// are the same sequence.
pub proof fn law_canonical_commutative(
    a: Seq<(Seq<char>, Operation)>,
    b: Seq<(Seq<char>, Operation)>,
    x: TableOps,
    y: TableOps,
)
    requires
        x.wf(),
        y.wf(),
        map_of(x@) == merged(a + b),
        map_of(y@) == merged(b + a),
    ensures
        x@ == y@,
{
    let ab = a + b;
    let ba = b + a;
    assert forall|t: Seq<char>| #[trigger] merged(ab).contains_key(t) implies merged(ba).contains_key(t) by {
        let i = choose|i: int| 0 <= i < ab.len() && ab[i].0 == t;
        if i < a.len() {
            assert(ba[b.len() + i].0 == t);
        } else {
            assert(ba[i - a.len()].0 == t);
        }
    }
    assert forall|t: Seq<char>| #[trigger] merged(ba).contains_key(t) implies merged(ab).contains_key(t) by {
        let i = choose|i: int| 0 <= i < ba.len() && ba[i].0 == t;
        if i < b.len() {
            assert(ab[a.len() + i].0 == t);
        } else {
            assert(ab[i - b.len()].0 == t);
        }
    }
    assert forall|t: Seq<char>| merged(ab).contains_key(t) implies #[trigger] merged(ab)[t] == merged(ba)[t] by {
        if exists|i: int| 0 <= i < ab.len() && ab[i] == (t, Operation::W) {
            let i = choose|i: int| 0 <= i < ab.len() && ab[i] == (t, Operation::W);
            if i < a.len() {
                assert(ba[b.len() + i] == (t, Operation::W));
            } else {
                assert(ba[i - a.len()] == (t, Operation::W));
            }
        }
        if exists|i: int| 0 <= i < ba.len() && ba[i] == (t, Operation::W) {
            let i = choose|i: int| 0 <= i < ba.len() && ba[i] == (t, Operation::W);
            if i < b.len() {
                assert(ab[a.len() + i] == (t, Operation::W));
            } else {
                assert(ab[i - b.len()] == (t, Operation::W));
            }
        }
    }
    assert(merged(ab) =~= merged(ba));
    lemma_sorted_same_map(x@, y@);
}

/// Canonicalization is idempotent: canonicalizing a canonical form gives it back.
pub proof fn law_canonical_idempotent(x: TableOps, y: TableOps)
    requires
        x.wf(),
        y.wf(),
        map_of(y@) == merged(x@),
    ensures
        y@ == x@,
{
    lemma_sorted_unique(x@);
    lemma_merged_of_unique(x@);
    lemma_sorted_same_map(y@, x@);
}

/// In a sorted sequence no table occurs twice.
pub proof fn keys_sorted_ops(s: Seq<(Seq<char>, Operation)>)
    requires
        keys_sorted(s),
    ensures
        keys_unique(s),
{
    lemma_sorted_unique(s);
}

} // verus!
