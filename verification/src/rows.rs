//! Rows under construction and named value pools.
//!
//! Both are association lists with unique keys so that lookups and
//! updates have exact, order-aware contracts: a row keeps the order in
//! which its columns were generated, and the primary-key pool map keeps
//! one entry per table.

use vstd::prelude::*;
use crate::value::{Value, ValSpec};

verus! {

// ---------------------------------------------------------------------
// Spec-level association lookups (first match).
// ---------------------------------------------------------------------

pub open spec fn row_find(s: Seq<(Seq<char>, ValSpec)>, k: Seq<char>) -> Option<ValSpec>
    decreases s.len(),
{
    if s.len() == 0 {
        None
    } else if s[0].0 == k {
        Some(s[0].1)
    } else {
        row_find(s.skip(1), k)
    }
}

pub open spec fn pools_find(s: Seq<(Seq<char>, Seq<ValSpec>)>, k: Seq<char>) -> Option<
    Seq<ValSpec>,
>
    decreases s.len(),
{
    if s.len() == 0 {
        None
    } else if s[0].0 == k {
        Some(s[0].1)
    } else {
        pools_find(s.skip(1), k)
    }
}

// ---------------------------------------------------------------------
// A row being generated: column name -> value, in generation order.
// ---------------------------------------------------------------------

/// One row's generated values, keyed by column name, in the order the
/// columns were first generated.
#[derive(Debug, Clone)]
pub struct Row {
    entries: Vec<(String, Value)>,
}

impl View for Row {
    type V = Seq<(Seq<char>, ValSpec)>;

    closed spec fn view(&self) -> Seq<(Seq<char>, ValSpec)> {
        self.entries@.map_values(|e: (String, Value)| (e.0@, e.1@))
    }
}

impl Row {
    /// Column names are unique.
    pub open spec fn wf(&self) -> bool {
        forall|i: int, j: int|
            0 <= i < j < self@.len() ==> (#[trigger] self@[i]).0 != (#[trigger] self@[j]).0
    }

    pub open spec fn has_key(&self, k: Seq<char>) -> bool {
        row_find(self@, k) is Some
    }

    pub fn new() -> (r: Row)
        ensures
            r@ =~= Seq::<(Seq<char>, ValSpec)>::empty(),
            r.wf(),
    {
        Row { entries: Vec::new() }
    }

    pub fn len(&self) -> (r: usize)
        ensures
            r == self@.len(),
    {
        self.entries.len()
    }

    pub fn col_at(&self, i: usize) -> (r: &String)
        requires
            i < self@.len(),
        ensures
            r@ == self@[i as int].0,
    {
        &self.entries[i].0
    }

    pub fn val_at(&self, i: usize) -> (r: &Value)
        requires
            i < self@.len(),
        ensures
            r@ == self@[i as int].1,
    {
        &self.entries[i].1
    }

    /// The value generated for a column, if any.
    pub fn get(&self, name: &String) -> (r: Option<&Value>)
        ensures
            match r {
                Some(v) => row_find(self@, name@) == Some(v@),
                None => row_find(self@, name@) is None,
            },
    {
        let n = self.entries.len();
        proof {
            assert(self@.skip(0) =~= self@);
        }
        let mut i: usize = 0;
        while i < n
            invariant
                i <= n,
                n == self@.len(),
                row_find(self@, name@) == row_find(self@.skip(i as int), name@),
            decreases n - i,
        {
            proof {
                assert(self@.skip(i as int)[0] == self@[i as int]);
                assert(self@.skip(i as int).skip(1) =~= self@.skip(i as int + 1));
            }
            if self.entries[i].0 == *name {
                proof {
                    assert(self@[i as int].0 == name@);
                }
                return Some(&self.entries[i].1);
            }
            i += 1;
        }
        proof {
            assert(self@.skip(n as int).len() == 0);
        }
        None
    }

    /// Record a value for a column: replaces the value in place when the
    /// column was already generated, appends otherwise.  Other columns
    /// and their order are untouched.
    pub fn set(&mut self, name: String, v: Value)
        requires
            old(self).wf(),
        ensures
            final(self).wf(),
            row_find(final(self)@, name@) == Some(v@),
            forall|k2: Seq<char>| k2 != name@
                ==> #[trigger] row_find(final(self)@, k2) == row_find(old(self)@, k2),
            final(self)@.len() == if old(self).has_key(name@) {
                old(self)@.len() as int
            } else {
                old(self)@.len() + 1int
            },
            forall|i: int| 0 <= i < old(self)@.len()
                ==> (#[trigger] final(self)@[i]).0 == old(self)@[i].0,
            !old(self).has_key(name@) ==> final(self)@[final(self)@.len() - 1].0 == name@,
    {
        let n = self.entries.len();
        let mut i: usize = 0;
        while i < n
            invariant
                i <= n,
                n == self@.len(),
                self@ == old(self)@,
                old(self).wf(),
                forall|k: int| 0 <= k < i ==> (#[trigger] self@[k]).0 != name@,
            decreases n - i,
        {
            if self.entries[i].0 == *(&name) {
                let ghost oldv = self@;
                proof {
                    assert(oldv[i as int].0 == name@);
                }
                self.entries.set(i, (name, v));
                proof {
                    assert(self@ =~= oldv.update(i as int, (oldv[i as int].0, v@)));
                    lemma_row_find_update(oldv, i as int, v@);
                    lemma_row_find_present(oldv, i as int);
                    assert(forall|j: int| 0 <= j < self@.len()
                        ==> (#[trigger] self@[j]).0 == oldv[j].0);
                    assert forall|a: int, b: int| 0 <= a < b < self@.len()
                        implies (#[trigger] self@[a]).0 != (#[trigger] self@[b]).0 by {
                        assert(oldv[a].0 != oldv[b].0);
                    }
                    assert forall|k2: Seq<char>| k2 != name@
                        implies #[trigger] row_find(self@, k2) == row_find(oldv, k2) by {
                        assert(row_find(oldv.update(i as int, (oldv[i as int].0, v@)), k2)
                            == row_find(oldv, k2));
                    }
                }
                return;
            }
            i += 1;
        }
        let ghost oldv = self@;
        self.entries.push((name, v));
        proof {
            assert(self@ =~= oldv.push((name@, v@)));
            lemma_row_find_push(oldv, name@, v@);
            lemma_row_find_absent(oldv, name@);
            assert(forall|i: int| 0 <= i < oldv.len() ==> (#[trigger] self@[i]).0 == oldv[i].0);
            assert(self@[self@.len() - 1].0 == name@);
            assert forall|a: int, b: int| 0 <= a < b < self@.len()
                implies (#[trigger] self@[a]).0 != (#[trigger] self@[b]).0 by {
                if b == self@.len() - 1 {
                    assert(self@[a].0 == oldv[a].0);
                    assert(oldv[a].0 != name@);
                } else {
                    assert(oldv[a].0 != oldv[b].0);
                }
            }
            assert forall|k2: Seq<char>| k2 != name@
                implies #[trigger] row_find(self@, k2) == row_find(oldv, k2) by {
                assert(row_find(oldv.push((name@, v@)), k2) == row_find(oldv, k2));
            }
        }
    }
}

/// When every key differs from `k`, the lookup fails.
proof fn lemma_row_find_absent(s: Seq<(Seq<char>, ValSpec)>, k: Seq<char>)
    requires
        forall|i: int| 0 <= i < s.len() ==> (#[trigger] s[i]).0 != k,
    ensures
        row_find(s, k) is None,
    decreases s.len(),
{
    if s.len() > 0 {
        assert(forall|i: int| 0 <= i < s.skip(1).len() ==> s.skip(1)[i] == s[i + 1]);
        lemma_row_find_absent(s.skip(1), k);
    }
}

/// A key that stands at some index is found.
proof fn lemma_row_find_present(s: Seq<(Seq<char>, ValSpec)>, i: int)
    requires
        0 <= i < s.len(),
    ensures
        row_find(s, s[i].0) is Some,
    decreases i,
{
    if s[0].0 != s[i].0 {
        assert(i > 0);
        assert(s.skip(1)[i - 1] == s[i]);
        lemma_row_find_present(s.skip(1), i - 1);
    }
}

/// Updating the value at the first occurrence of a key changes that
/// key's lookup and no other.
proof fn lemma_row_find_update(s: Seq<(Seq<char>, ValSpec)>, i: int, v: ValSpec)
    requires
        0 <= i < s.len(),
        forall|j: int| 0 <= j < i ==> (#[trigger] s[j]).0 != s[i].0,
    ensures
        row_find(s.update(i, (s[i].0, v)), s[i].0) == Some(v),
        forall|k2: Seq<char>| k2 != s[i].0
            ==> #[trigger] row_find(s.update(i, (s[i].0, v)), k2) == row_find(s, k2),
    decreases i,
{
    let t = s.update(i, (s[i].0, v));
    if i == 0 {
        assert(t[0] == (s[0].0, v));
        assert forall|k2: Seq<char>| k2 != s[0].0
            implies #[trigger] row_find(t, k2) == row_find(s, k2) by {
            assert(t.skip(1) =~= s.skip(1));
        }
    } else {
        assert(t[0] == s[0]);
        assert(t.skip(1) =~= s.skip(1).update(i - 1, (s.skip(1)[i - 1].0, v)));
        assert(s.skip(1)[i - 1] == s[i]);
        assert(forall|j: int| 0 <= j < i - 1 ==> s.skip(1)[j] == s[j + 1]);
        lemma_row_find_update(s.skip(1), i - 1, v);
        assert(s[0].0 != s[i].0);
        assert(row_find(t, s[i].0) == row_find(t.skip(1), s[i].0));
        assert forall|k2: Seq<char>| k2 != s[i].0
            implies #[trigger] row_find(t, k2) == row_find(s, k2) by {
            if s[0].0 != k2 {
                assert(row_find(t, k2) == row_find(t.skip(1), k2));
                assert(row_find(s, k2) == row_find(s.skip(1), k2));
            }
        }
    }
}

/// Appending a fresh key: its lookup yields the new value; other keys
/// are unaffected.
proof fn lemma_row_find_push(s: Seq<(Seq<char>, ValSpec)>, k: Seq<char>, v: ValSpec)
    ensures
        forall|k2: Seq<char>| k2 != k
            ==> #[trigger] row_find(s.push((k, v)), k2) == row_find(s, k2),
        row_find(s, k) is None ==> row_find(s.push((k, v)), k) == Some(v),
    decreases s.len(),
{
    let t = s.push((k, v));
    if s.len() == 0 {
        assert(t[0] == (k, v));
        assert(t.skip(1) =~= Seq::<(Seq<char>, ValSpec)>::empty());
        assert forall|k2: Seq<char>| k2 != k
            implies #[trigger] row_find(t, k2) == row_find(s, k2) by {
            assert(row_find(t, k2) == row_find(t.skip(1), k2));
        }
    } else {
        assert(t[0] == s[0]);
        assert(t.skip(1) =~= s.skip(1).push((k, v)));
        lemma_row_find_push(s.skip(1), k, v);
        assert forall|k2: Seq<char>| k2 != k
            implies #[trigger] row_find(t, k2) == row_find(s, k2) by {
            if s[0].0 != k2 {
                assert(row_find(t, k2) == row_find(t.skip(1), k2));
                assert(row_find(s, k2) == row_find(s.skip(1), k2));
            }
        }
    }
}

// ---------------------------------------------------------------------
// Named pools of values: data pools and primary-key pools alike.
// ---------------------------------------------------------------------

/// The view of one pool: its values, in order.
pub open spec fn pool_view(vs: Seq<Value>) -> Seq<ValSpec> {
    vs.map_values(|v: Value| v@)
}

/// A map from name to a sequence of values.  Used both for the shared
/// data pools and for the per-table primary-key pools.
#[derive(Debug, Clone)]
pub struct Pools {
    entries: Vec<(String, Vec<Value>)>,
}

impl View for Pools {
    type V = Seq<(Seq<char>, Seq<ValSpec>)>;

    closed spec fn view(&self) -> Seq<(Seq<char>, Seq<ValSpec>)> {
        self.entries@.map_values(|e: (String, Vec<Value>)| (e.0@, pool_view(e.1@)))
    }
}

impl Pools {
    pub open spec fn wf(&self) -> bool {
        forall|i: int, j: int|
            0 <= i < j < self@.len() ==> (#[trigger] self@[i]).0 != (#[trigger] self@[j]).0
    }

    pub open spec fn has_key(&self, k: Seq<char>) -> bool {
        pools_find(self@, k) is Some
    }

    /// The set of pool names present.
    pub open spec fn key_set(&self) -> Set<Seq<char>> {
        Set::new(|k: Seq<char>| self.has_key(k))
    }

    pub fn new() -> (r: Pools)
        ensures
            r@ =~= Seq::<(Seq<char>, Seq<ValSpec>)>::empty(),
            r.wf(),
    {
        Pools { entries: Vec::new() }
    }

    pub fn get(&self, name: &String) -> (r: Option<&Vec<Value>>)
        ensures
            match r {
                Some(vs) => pools_find(self@, name@) == Some(pool_view(vs@)),
                None => pools_find(self@, name@) is None,
            },
    {
        let n = self.entries.len();
        proof {
            assert(self@.skip(0) =~= self@);
        }
        let mut i: usize = 0;
        while i < n
            invariant
                i <= n,
                n == self@.len(),
                pools_find(self@, name@) == pools_find(self@.skip(i as int), name@),
            decreases n - i,
        {
            proof {
                assert(self@.skip(i as int)[0] == self@[i as int]);
                assert(self@.skip(i as int).skip(1) =~= self@.skip(i as int + 1));
            }
            if self.entries[i].0 == *name {
                proof {
                    assert(self@[i as int].0 == name@);
                }
                return Some(&self.entries[i].1);
            }
            i += 1;
        }
        proof {
            assert(self@.skip(n as int).len() == 0);
        }
        None
    }

    /// Record a pool under a name, replacing any previous pool of that
    /// name (the plan's later entity for the same table wins).
    pub fn set(&mut self, name: String, vs: Vec<Value>)
        requires
            old(self).wf(),
        ensures
            final(self).wf(),
            pools_find(final(self)@, name@) == Some(pool_view(vs@)),
            forall|k2: Seq<char>| k2 != name@
                ==> #[trigger] pools_find(final(self)@, k2) == pools_find(old(self)@, k2),
    {
        let n = self.entries.len();
        let mut i: usize = 0;
        while i < n
            invariant
                i <= n,
                n == self@.len(),
                self@ == old(self)@,
                old(self).wf(),
                forall|k: int| 0 <= k < i ==> (#[trigger] self@[k]).0 != name@,
            decreases n - i,
        {
            if self.entries[i].0 == *(&name) {
                let ghost oldv = self@;
                proof {
                    assert(oldv[i as int].0 == name@);
                }
                self.entries.set(i, (name, vs));
                proof {
                    assert(self@ =~= oldv.update(i as int, (oldv[i as int].0, pool_view(vs@))));
                    lemma_pools_find_update(oldv, i as int, pool_view(vs@));
                    assert(forall|j: int| 0 <= j < self@.len()
                        ==> (#[trigger] self@[j]).0 == oldv[j].0);
                    assert forall|a: int, b: int| 0 <= a < b < self@.len()
                        implies (#[trigger] self@[a]).0 != (#[trigger] self@[b]).0 by {
                        assert(oldv[a].0 != oldv[b].0);
                    }
                    assert forall|k2: Seq<char>| k2 != name@
                        implies #[trigger] pools_find(self@, k2) == pools_find(oldv, k2) by {
                        assert(pools_find(
                            oldv.update(i as int, (oldv[i as int].0, pool_view(vs@))), k2)
                            == pools_find(oldv, k2));
                    }
                }
                return;
            }
            i += 1;
        }
        let ghost oldv = self@;
        self.entries.push((name, vs));
        proof {
            assert(self@ =~= oldv.push((name@, pool_view(vs@))));
            lemma_pools_find_push(oldv, name@, pool_view(vs@));
            lemma_pools_find_absent(oldv, name@);
            assert(forall|i: int| 0 <= i < oldv.len() ==> (#[trigger] self@[i]).0 == oldv[i].0);
            assert(self@[self@.len() - 1].0 == name@);
            assert forall|a: int, b: int| 0 <= a < b < self@.len()
                implies (#[trigger] self@[a]).0 != (#[trigger] self@[b]).0 by {
                if b == self@.len() - 1 {
                    assert(self@[a].0 == oldv[a].0);
                    assert(oldv[a].0 != name@);
                } else {
                    assert(oldv[a].0 != oldv[b].0);
                }
            }
            assert forall|k2: Seq<char>| k2 != name@
                implies #[trigger] pools_find(self@, k2) == pools_find(oldv, k2) by {
                assert(pools_find(oldv.push((name@, pool_view(vs@))), k2)
                    == pools_find(oldv, k2));
            }
        }
    }
}

/// An owned copy of a value list with the same view.
pub fn clone_values(vs: &Vec<Value>) -> (r: Vec<Value>)
    ensures
        pool_view(r@) == pool_view(vs@),
        r@.len() == vs@.len(),
{
    let mut out: Vec<Value> = Vec::new();
    let n = vs.len();
    let mut i: usize = 0;
    while i < n
        invariant
            i <= n,
            n == vs@.len(),
            out@.len() == i,
            forall|k: int| 0 <= k < i ==> (#[trigger] out@[k])@ == vs@[k]@,
        decreases n - i,
    {
        out.push(vs[i].duplicate());
        i += 1;
    }
    proof {
        assert(pool_view(out@) =~= pool_view(vs@));
    }
    out
}

impl Pools {
    /// An owned copy with the same view (the derived clone carries no
    /// specification).
    pub fn duplicate(&self) -> (r: Pools)
        ensures
            r@ == self@,
    {
        let mut out: Vec<(String, Vec<Value>)> = Vec::new();
        let n = self.entries.len();
        let mut i: usize = 0;
        while i < n
            invariant
                i <= n,
                n == self@.len(),
                n == self.entries@.len(),
                out@.len() == i,
                forall|k: int| 0 <= k < i
                    ==> ((#[trigger] out@[k]).0@, pool_view(out@[k].1@)) == self@[k],
            decreases n - i,
        {
            let name = self.entries[i].0.clone();
            let vals = clone_values(&self.entries[i].1);
            proof {
                assert(self@[i as int] == (self.entries@[i as int].0@, pool_view(
                    self.entries@[i as int].1@)));
            }
            out.push((name, vals));
            i += 1;
        }
        let r = Pools { entries: out };
        proof {
            assert(r@ =~= self@);
        }
        r
    }
}

proof fn lemma_pools_find_absent(s: Seq<(Seq<char>, Seq<ValSpec>)>, k: Seq<char>)
    requires
        forall|i: int| 0 <= i < s.len() ==> (#[trigger] s[i]).0 != k,
    ensures
        pools_find(s, k) is None,
    decreases s.len(),
{
    if s.len() > 0 {
        assert(forall|i: int| 0 <= i < s.skip(1).len() ==> s.skip(1)[i] == s[i + 1]);
        lemma_pools_find_absent(s.skip(1), k);
    }
}

proof fn lemma_pools_find_update(s: Seq<(Seq<char>, Seq<ValSpec>)>, i: int, v: Seq<ValSpec>)
    requires
        0 <= i < s.len(),
        forall|j: int| 0 <= j < i ==> (#[trigger] s[j]).0 != s[i].0,
    ensures
        pools_find(s.update(i, (s[i].0, v)), s[i].0) == Some(v),
        forall|k2: Seq<char>| k2 != s[i].0
            ==> #[trigger] pools_find(s.update(i, (s[i].0, v)), k2) == pools_find(s, k2),
    decreases i,
{
    let t = s.update(i, (s[i].0, v));
    if i == 0 {
        assert(t[0] == (s[0].0, v));
        assert forall|k2: Seq<char>| k2 != s[0].0
            implies #[trigger] pools_find(t, k2) == pools_find(s, k2) by {
            assert(t.skip(1) =~= s.skip(1));
        }
    } else {
        assert(t[0] == s[0]);
        assert(t.skip(1) =~= s.skip(1).update(i - 1, (s.skip(1)[i - 1].0, v)));
        assert(s.skip(1)[i - 1] == s[i]);
        assert(forall|j: int| 0 <= j < i - 1 ==> s.skip(1)[j] == s[j + 1]);
        lemma_pools_find_update(s.skip(1), i - 1, v);
        assert(s[0].0 != s[i].0);
        assert(pools_find(t, s[i].0) == pools_find(t.skip(1), s[i].0));
        assert forall|k2: Seq<char>| k2 != s[i].0
            implies #[trigger] pools_find(t, k2) == pools_find(s, k2) by {
            if s[0].0 != k2 {
                assert(pools_find(t, k2) == pools_find(t.skip(1), k2));
                assert(pools_find(s, k2) == pools_find(s.skip(1), k2));
            }
        }
    }
}

proof fn lemma_pools_find_push(s: Seq<(Seq<char>, Seq<ValSpec>)>, k: Seq<char>, v: Seq<ValSpec>)
    ensures
        forall|k2: Seq<char>| k2 != k
            ==> #[trigger] pools_find(s.push((k, v)), k2) == pools_find(s, k2),
        pools_find(s, k) is None ==> pools_find(s.push((k, v)), k) == Some(v),
    decreases s.len(),
{
    let t = s.push((k, v));
    if s.len() == 0 {
        assert(t[0] == (k, v));
        assert(t.skip(1) =~= Seq::<(Seq<char>, Seq<ValSpec>)>::empty());
        assert forall|k2: Seq<char>| k2 != k
            implies #[trigger] pools_find(t, k2) == pools_find(s, k2) by {
            assert(pools_find(t, k2) == pools_find(t.skip(1), k2));
        }
    } else {
        assert(t[0] == s[0]);
        assert(t.skip(1) =~= s.skip(1).push((k, v)));
        lemma_pools_find_push(s.skip(1), k, v);
        assert forall|k2: Seq<char>| k2 != k
            implies #[trigger] pools_find(t, k2) == pools_find(s, k2) by {
            if s[0].0 != k2 {
                assert(pools_find(t, k2) == pools_find(t.skip(1), k2));
                assert(pools_find(s, k2) == pools_find(s.skip(1), k2));
            }
        }
    }
}

} // verus!
