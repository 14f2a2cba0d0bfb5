//! The orchestrator: from a plan to dependency-ordered, typed inserts.
//!
//! `Seeder` holds the fetched schema and builds dependency graphs over
//! tables (for discovery) or plan entities (for execution).  A run is a
//! `SeedRun` state machine: the unverified shell asks it for one insert
//! statement at a time, executes it, and hands back any returned
//! primary key.  The machine threads the primary-key pools so that an
//! `fk` field can only ever draw from the pool of an entity already
//! processed, or from the current batch's own keys.

use vstd::prelude::*;
use crate::error::{ErrV, SeedError};
use crate::generator::{
    EntityGenerator, FieldV, field_err, field_val_ok, fields_view, gen_ok, param_str_spec,
};
use crate::graph::{Graph, has_cycle, in_range, is_cycle, lemma_cycle_defeats_order,
    lemma_edge_pos, valid_order};
use crate::persist::{InsertStmt, build_insert, built_ok, col_type_of, pk_kind_of};
use crate::plan::{ArchitecturalPlan, EntityTemplate};
use crate::rows::{Pools, clone_values, pool_view, pools_find};
use crate::schema::{DbSchema, TableSchema};
use crate::config::SeedingTask;
use crate::value::{ValSpec, Value};

verus! {

// ---------------------------------------------------------------------
// Graph characterizations.
// ---------------------------------------------------------------------

/// An edge occurs in an edge list.
pub open spec fn edge_in(edges: Seq<(usize, usize)>, a: usize, b: usize) -> bool {
    exists|j: int| 0 <= j < edges.len() && #[trigger] edges[j] == (a, b)
}

proof fn lemma_edge_in_has_edge(g: &Graph, a: usize, b: usize)
    ensures
        g.has_edge(a, b) == edge_in(g.edges@, a, b),
{
    if g.has_edge(a, b) {
        let k = choose|k: int| 0 <= k < g.edges@.len() && #[trigger] g.edges@[k] == (a, b);
        assert(edge_in(g.edges@, a, b));
    }
    if edge_in(g.edges@, a, b) {
        let j = choose|j: int| 0 <= j < g.edges@.len() && #[trigger] g.edges@[j] == (a, b);
        assert(g.has_edge(a, b));
    }
}

proof fn lemma_edge_in_push(edges: Seq<(usize, usize)>, e: (usize, usize), a: usize, b: usize)
    requires
        edge_in(edges, a, b),
    ensures
        edge_in(edges.push(e), a, b),
{
    let j = choose|j: int| 0 <= j < edges.len() && #[trigger] edges[j] == (a, b);
    assert(edges.push(e)[j] == (a, b));
}

/// A discovery-graph edge is justified by some foreign key between two
/// distinct tables.
pub open spec fn full_edge_ok(
    tables: Seq<TableSchema>,
    fks: Seq<crate::schema::ForeignKey>,
    e: (usize, usize),
) -> bool {
    &&& (e.0 as int) < tables.len()
    &&& (e.1 as int) < tables.len()
    &&& e.0 != e.1
    &&& exists|k: int|
        0 <= k < fks.len() && tables[e.0 as int].name@ == (#[trigger] fks[k]).to_table@
            && tables[e.1 as int].name@ == fks[k].from_table@
}

/// Foreign key `k` is represented: whenever both its tables are in the
/// catalog (and differ), the parent-to-child edge is present.
pub open spec fn full_fk_covered(
    tables: Seq<TableSchema>,
    fks: Seq<crate::schema::ForeignKey>,
    edges: Seq<(usize, usize)>,
    k: int,
) -> bool {
    forall|a: usize, b: usize|
        #![trigger tables[a as int], tables[b as int]]
        (a as int) < tables.len() && (b as int) < tables.len() && a != b
            && tables[a as int].name@ == fks[k].to_table@
            && tables[b as int].name@ == fks[k].from_table@
            ==> edge_in(edges, a, b)
}

/// The table targeted by the template at node `p`.
pub open spec fn tpl_table(tpls: Seq<EntityTemplate>, nodes: Seq<usize>, p: int) -> Seq<char> {
    tpls[nodes[p] as int].target_table@
}

pub open spec fn nodes_bounded(tpls: Seq<EntityTemplate>, nodes: Seq<usize>, upto: int) -> bool {
    forall|p: int| 0 <= p < nodes.len() ==> ((#[trigger] nodes[p]) as int) < upto
}

pub open spec fn nodes_distinct(tpls: Seq<EntityTemplate>, nodes: Seq<usize>) -> bool {
    forall|p: int, q: int|
        #![trigger tpl_table(tpls, nodes, p), tpl_table(tpls, nodes, q)]
        0 <= p < q < nodes.len() ==> tpl_table(tpls, nodes, p) != tpl_table(tpls, nodes, q)
}

pub open spec fn nodes_last(tpls: Seq<EntityTemplate>, nodes: Seq<usize>, upto: int) -> bool {
    forall|p: int, i: int|
        0 <= p < nodes.len() && 0 <= i < upto && (#[trigger] tpls[i]).target_table@
            == #[trigger] tpl_table(tpls, nodes, p) ==> i <= nodes[p]
}

pub open spec fn nodes_complete(tpls: Seq<EntityTemplate>, nodes: Seq<usize>, upto: int) -> bool {
    forall|i: int|
        0 <= i < upto ==> exists|p: int|
            0 <= p < nodes.len() && #[trigger] tpl_table(tpls, nodes, p) == (#[trigger] tpls[i]).target_table@
}

/// The plan's node list: one node per distinct target table, carrying
/// the last template mapped to that table (a later entity overwrites an
/// earlier one for the same table), and covering every template's
/// table.
pub open spec fn plan_nodes_ok(tpls: Seq<EntityTemplate>, nodes: Seq<usize>) -> bool {
    &&& nodes_bounded(tpls, nodes, tpls.len() as int)
    &&& nodes_distinct(tpls, nodes)
    &&& nodes_last(tpls, nodes, tpls.len() as int)
    &&& nodes_complete(tpls, nodes, tpls.len() as int)
}

/// A plan-graph edge is justified by some foreign key between the
/// tables of two distinct nodes.
pub open spec fn plan_edge_ok(
    tpls: Seq<EntityTemplate>,
    nodes: Seq<usize>,
    fks: Seq<crate::schema::ForeignKey>,
    e: (usize, usize),
) -> bool {
    &&& (e.0 as int) < nodes.len()
    &&& (e.1 as int) < nodes.len()
    &&& e.0 != e.1
    &&& exists|k: int|
        0 <= k < fks.len() && tpl_table(tpls, nodes, e.0 as int) == (#[trigger] fks[k]).to_table@
            && tpl_table(tpls, nodes, e.1 as int) == fks[k].from_table@
}

pub open spec fn plan_fk_covered(
    tpls: Seq<EntityTemplate>,
    nodes: Seq<usize>,
    fks: Seq<crate::schema::ForeignKey>,
    edges: Seq<(usize, usize)>,
    k: int,
) -> bool {
    forall|a: usize, b: usize|
        #![trigger tpl_table(tpls, nodes, a as int), tpl_table(tpls, nodes, b as int)]
        (a as int) < nodes.len() && (b as int) < nodes.len() && a != b
            && tpl_table(tpls, nodes, a as int) == fks[k].to_table@
            && tpl_table(tpls, nodes, b as int) == fks[k].from_table@
            ==> edge_in(edges, a, b)
}

/// The full characterization of the execution graph: nodes as above,
/// every edge justified, every applicable foreign key represented.
pub open spec fn plan_graph_spec(
    tpls: Seq<EntityTemplate>,
    fks: Seq<crate::schema::ForeignKey>,
    g: Graph,
    nodes: Seq<usize>,
) -> bool {
    &&& plan_nodes_ok(tpls, nodes)
    &&& g.n == nodes.len()
    &&& g.wf()
    &&& forall|j: int| 0 <= j < g.edges@.len()
        ==> plan_edge_ok(tpls, nodes, fks, #[trigger] g.edges@[j])
    &&& forall|k: int| 0 <= k < fks.len()
        ==> #[trigger] plan_fk_covered(tpls, nodes, fks, g.edges@, k)
}

// ---------------------------------------------------------------------
// Exec lookups.
// ---------------------------------------------------------------------

fn find_table_idx(tables: &Vec<TableSchema>, name: &String) -> (r: Option<usize>)
    ensures
        match r {
            Some(i) => (i as int) < tables@.len() && tables@[i as int].name@ == name@,
            None => forall|i: int| 0 <= i < tables@.len()
                ==> (#[trigger] tables@[i]).name@ != name@,
        },
{
    let n = tables.len();
    let mut i: usize = 0;
    while i < n
        invariant
            i <= n,
            n == tables@.len(),
            forall|k: int| 0 <= k < i ==> (#[trigger] tables@[k]).name@ != name@,
        decreases n - i,
    {
        if tables[i].name == *name {
            return Some(i);
        }
        i += 1;
    }
    None
}

fn find_node_by_table(
    tpls: &Vec<EntityTemplate>,
    nodes: &Vec<usize>,
    name: &String,
) -> (r: Option<usize>)
    requires
        forall|p: int| 0 <= p < nodes@.len() ==> ((#[trigger] nodes@[p]) as int) < tpls@.len(),
    ensures
        match r {
            Some(p) => (p as int) < nodes@.len() && tpl_table(tpls@, nodes@, p as int) == name@,
            None => forall|p: int| 0 <= p < nodes@.len()
                ==> #[trigger] tpl_table(tpls@, nodes@, p) != name@,
        },
{
    let n = nodes.len();
    let mut p: usize = 0;
    while p < n
        invariant
            p <= n,
            n == nodes@.len(),
            forall|q: int| 0 <= q < nodes@.len() ==> ((#[trigger] nodes@[q]) as int) < tpls@.len(),
            forall|q: int| 0 <= q < p ==> #[trigger] tpl_table(tpls@, nodes@, q) != name@,
        decreases n - p,
    {
        if tpls[nodes[p]].target_table == *name {
            return Some(p);
        }
        p += 1;
    }
    None
}

// ---------------------------------------------------------------------
// The seeder.
// ---------------------------------------------------------------------

/// Builds dependency graphs over the fetched schema and starts runs.
pub struct Seeder {
    pub schema: DbSchema,
}

impl Seeder {
    pub fn new(schema: DbSchema) -> (r: Seeder)
        ensures
            r.schema == schema,
    {
        Seeder { schema }
    }

    pub fn schema(&self) -> (r: &DbSchema)
        ensures
            r == &self.schema,
    {
        &self.schema
    }

    /// The graph over every table of the catalog (discovery mode):
    /// nodes are table positions, names run parallel, and an edge runs
    /// from each foreign key's parent table to its child table.
    pub fn build_full_dependency_graph(&self) -> (r: (Graph, Vec<String>))
        requires
            self.schema.wf(),
        ensures
            r.0.wf(),
            r.0.n == self.schema.tables@.len(),
            r.1@.len() == self.schema.tables@.len(),
            forall|i: int| 0 <= i < r.1@.len()
                ==> (#[trigger] r.1@[i])@ == self.schema.tables@[i].name@,
            forall|j: int| 0 <= j < r.0.edges@.len()
                ==> full_edge_ok(self.schema.tables@, self.schema.foreign_keys@,
                    #[trigger] r.0.edges@[j]),
            forall|k: int| 0 <= k < self.schema.foreign_keys@.len()
                ==> #[trigger] full_fk_covered(self.schema.tables@, self.schema.foreign_keys@,
                    r.0.edges@, k),
    {
        let n = self.schema.tables.len();
        let mut names: Vec<String> = Vec::new();
        let mut i: usize = 0;
        while i < n
            invariant
                i <= n,
                n == self.schema.tables@.len(),
                names@.len() == i,
                forall|k: int| 0 <= k < i
                    ==> (#[trigger] names@[k])@ == self.schema.tables@[k].name@,
            decreases n - i,
        {
            names.push(self.schema.tables[i].name.clone());
            i += 1;
        }
        let mut edges: Vec<(usize, usize)> = Vec::new();
        let m = self.schema.foreign_keys.len();
        let mut k: usize = 0;
        while k < m
            invariant
                k <= m,
                m == self.schema.foreign_keys@.len(),
                n == self.schema.tables@.len(),
                self.schema.wf(),
                forall|j: int| 0 <= j < edges@.len()
                    ==> full_edge_ok(self.schema.tables@, self.schema.foreign_keys@,
                        #[trigger] edges@[j]),
                forall|kk: int| 0 <= kk < k
                    ==> #[trigger] full_fk_covered(self.schema.tables@, self.schema.foreign_keys@,
                        edges@, kk),
            decreases m - k,
        {
            let fk = &self.schema.foreign_keys[k];
            let ia = find_table_idx(&self.schema.tables, &fk.to_table);
            let ib = find_table_idx(&self.schema.tables, &fk.from_table);
            let ghost oldedges = edges@;
            match (ia, ib) {
                (Some(a), Some(b)) => {
                    if a != b {
                        edges.push((a, b));
                        proof {
                            assert(edges@[edges@.len() - 1] == (a, b));
                            assert(edge_in(edges@, a, b));
                            assert forall|kk: int| 0 <= kk < k + 1 implies
                                #[trigger] full_fk_covered(self.schema.tables@,
                                    self.schema.foreign_keys@, edges@, kk) by {
                                if kk < k {
                                    assert forall|x: usize, y: usize|
                                        #![trigger self.schema.tables@[x as int],
                                            self.schema.tables@[y as int]]
                                        (x as int) < n && (y as int) < n && x != y
                                            && self.schema.tables@[x as int].name@
                                                == self.schema.foreign_keys@[kk].to_table@
                                            && self.schema.tables@[y as int].name@
                                                == self.schema.foreign_keys@[kk].from_table@
                                        implies edge_in(edges@, x, y) by {
                                        assert(full_fk_covered(self.schema.tables@,
                                            self.schema.foreign_keys@, oldedges, kk));
                                        assert(edge_in(oldedges, x, y));
                                        lemma_edge_in_push(oldedges, (a, b), x, y);
                                    }
                                } else {
                                    assert forall|x: usize, y: usize|
                                        #![trigger self.schema.tables@[x as int],
                                            self.schema.tables@[y as int]]
                                        (x as int) < n && (y as int) < n && x != y
                                            && self.schema.tables@[x as int].name@
                                                == self.schema.foreign_keys@[kk].to_table@
                                            && self.schema.tables@[y as int].name@
                                                == self.schema.foreign_keys@[kk].from_table@
                                        implies edge_in(edges@, x, y) by {
                                        // table names are unique, so x == a and y == b
                                        assert(x == a && y == b);
                                    }
                                }
                            }
                        }
                    } else {
                        proof {
                            assert forall|kk: int| 0 <= kk < k + 1 implies
                                #[trigger] full_fk_covered(self.schema.tables@,
                                    self.schema.foreign_keys@, edges@, kk) by {
                                if kk == k {
                                    assert forall|x: usize, y: usize|
                                        #![trigger self.schema.tables@[x as int],
                                            self.schema.tables@[y as int]]
                                        (x as int) < n && (y as int) < n && x != y
                                            && self.schema.tables@[x as int].name@
                                                == self.schema.foreign_keys@[kk].to_table@
                                            && self.schema.tables@[y as int].name@
                                                == self.schema.foreign_keys@[kk].from_table@
                                        implies edge_in(edges@, x, y) by {
                                        assert(x == a && y == b);
                                    }
                                }
                            }
                        }
                    }
                },
                _ => {
                    proof {
                        assert forall|kk: int| 0 <= kk < k + 1 implies
                            #[trigger] full_fk_covered(self.schema.tables@,
                                self.schema.foreign_keys@, edges@, kk) by {
                            if kk == k {
                                assert forall|x: usize, y: usize|
                                    #![trigger self.schema.tables@[x as int],
                                        self.schema.tables@[y as int]]
                                    (x as int) < n && (y as int) < n && x != y
                                        && self.schema.tables@[x as int].name@
                                            == self.schema.foreign_keys@[kk].to_table@
                                        && self.schema.tables@[y as int].name@
                                            == self.schema.foreign_keys@[kk].from_table@
                                    implies edge_in(edges@, x, y) by {
                                    assert(false);
                                }
                            }
                        }
                    }
                },
            }
            k += 1;
        }
        (Graph { n, edges }, names)
    }

    /// The graph over the plan's entities (execution mode): one node
    /// per distinct target table (the plan's later entity for a table
    /// wins), an edge per foreign key between two plan tables.  Foreign
    /// keys touching tables absent from the plan impose no constraint;
    /// a self-reference orders rows within a batch, not entities.
    pub fn build_plan_dependency_graph(&self, plan: &ArchitecturalPlan) -> (r: (
        Graph,
        Vec<usize>,
    ))
        requires
            self.schema.wf(),
        ensures
            plan_graph_spec(plan.entity_templates@, self.schema.foreign_keys@, r.0, r.1@),
    {
        let tpls = &plan.entity_templates;
        let tn = tpls.len();
        let mut nodes: Vec<usize> = Vec::new();
        let mut t: usize = 0;
        while t < tn
            invariant
                t <= tn,
                tn == tpls@.len(),
                nodes_bounded(tpls@, nodes@, t as int),
                nodes_distinct(tpls@, nodes@),
                nodes_last(tpls@, nodes@, t as int),
                nodes_complete(tpls@, nodes@, t as int),
            decreases tn - t,
        {
            let ghost oldnodes = nodes@;
            match find_node_by_table(tpls, &nodes, &tpls[t].target_table) {
                Some(p) => {
                    let ghost tgt = tpls@[t as int].target_table@;
                    proof {
                        assert(tpl_table(tpls@, oldnodes, p as int) == tgt);
                    }
                    nodes.set(p, t);
                    proof {
                        assert(nodes@ =~= oldnodes.update(p as int, t));
                        assert(tpl_table(tpls@, nodes@, p as int) == tgt);
                        assert(forall|q: int| 0 <= q < nodes@.len()
                            ==> #[trigger] tpl_table(tpls@, nodes@, q)
                                == tpl_table(tpls@, oldnodes, q));
                        assert forall|i: int| 0 <= i < t + 1 implies exists|p2: int|
                            0 <= p2 < nodes@.len() && #[trigger] tpl_table(tpls@, nodes@, p2)
                                == (#[trigger] tpls@[i]).target_table@ by {
                            if i < t {
                                let p0 = choose|p0: int|
                                    0 <= p0 < oldnodes.len() && #[trigger] tpl_table(
                                        tpls@, oldnodes, p0) == tpls@[i].target_table@;
                                assert(tpl_table(tpls@, nodes@, p0) == tpls@[i].target_table@);
                            } else {
                                assert(tpl_table(tpls@, nodes@, p as int)
                                    == tpls@[i].target_table@);
                            }
                        }
                        assert(nodes_complete(tpls@, nodes@, t + 1));
                        assert forall|p2: int, i: int|
                            0 <= p2 < nodes@.len() && 0 <= i < t + 1
                                && (#[trigger] tpls@[i]).target_table@
                                == #[trigger] tpl_table(tpls@, nodes@, p2)
                            implies i <= nodes@[p2] by {
                            if p2 == p {
                                assert(nodes@[p2] == t);
                            } else {
                                if i == t {
                                    assert(tpl_table(tpls@, nodes@, p2)
                                        != tpl_table(tpls@, nodes@, p as int));
                                    assert(false);
                                } else {
                                    assert(tpls@[i].target_table@
                                        == tpl_table(tpls@, oldnodes, p2));
                                }
                            }
                        }
                        assert(nodes_last(tpls@, nodes@, t + 1));
                    }
                },
                None => {
                    let ghost tgt = tpls@[t as int].target_table@;
                    nodes.push(t);
                    proof {
                        assert(nodes@ =~= oldnodes.push(t));
                        let np = nodes@.len() - 1;
                        assert(nodes@[np] == t);
                        assert(tpl_table(tpls@, nodes@, np) == tgt);
                        assert(forall|q: int| 0 <= q < oldnodes.len()
                            ==> #[trigger] tpl_table(tpls@, nodes@, q)
                                == tpl_table(tpls@, oldnodes, q));
                        // no earlier node targets this table
                        assert(forall|q: int| 0 <= q < oldnodes.len()
                            ==> #[trigger] tpl_table(tpls@, oldnodes, q) != tgt);
                        assert forall|p2: int, q2: int|
                            #![trigger tpl_table(tpls@, nodes@, p2), tpl_table(tpls@, nodes@, q2)]
                            0 <= p2 < q2 < nodes@.len()
                            implies tpl_table(tpls@, nodes@, p2) != tpl_table(tpls@, nodes@, q2)
                            by {
                            if q2 == np {
                                assert(tpl_table(tpls@, nodes@, p2)
                                    == tpl_table(tpls@, oldnodes, p2));
                            }
                        }
                        assert forall|i: int| 0 <= i < t + 1 implies exists|p2: int|
                            0 <= p2 < nodes@.len() && #[trigger] tpl_table(tpls@, nodes@, p2)
                                == (#[trigger] tpls@[i]).target_table@ by {
                            if i < t {
                                let p0 = choose|p0: int|
                                    0 <= p0 < oldnodes.len() && #[trigger] tpl_table(
                                        tpls@, oldnodes, p0) == tpls@[i].target_table@;
                                assert(tpl_table(tpls@, nodes@, p0) == tpls@[i].target_table@);
                            } else {
                                assert(tpl_table(tpls@, nodes@, np) == tpls@[i].target_table@);
                            }
                        }
                        assert forall|p2: int, i: int|
                            0 <= p2 < nodes@.len() && 0 <= i < t + 1
                                && (#[trigger] tpls@[i]).target_table@
                                == #[trigger] tpl_table(tpls@, nodes@, p2)
                            implies i <= nodes@[p2] by {
                            if p2 == np {
                                if i < t {
                                    // some old node would already carry this table
                                    let p0 = choose|p0: int|
                                        0 <= p0 < oldnodes.len() && #[trigger] tpl_table(
                                            tpls@, oldnodes, p0) == tpls@[i].target_table@;
                                    assert(tpl_table(tpls@, oldnodes, p0) == tgt);
                                    assert(false);
                                } else {
                                    assert(nodes@[p2] == t);
                                }
                            } else {
                                if i == t {
                                    assert(tpl_table(tpls@, oldnodes, p2) == tgt);
                                    assert(false);
                                } else {
                                    assert(tpls@[i].target_table@
                                        == tpl_table(tpls@, oldnodes, p2));
                                }
                            }
                        }
                        assert(nodes_last(tpls@, nodes@, t + 1));
                        assert(nodes_complete(tpls@, nodes@, t + 1));
                        assert(nodes_distinct(tpls@, nodes@));
                    }
                },
            }
            t += 1;
        }
        proof {
            assert(plan_nodes_ok(tpls@, nodes@));
        }
        let nn = nodes.len();
        let mut edges: Vec<(usize, usize)> = Vec::new();
        let m = self.schema.foreign_keys.len();
        let mut k: usize = 0;
        while k < m
            invariant
                k <= m,
                m == self.schema.foreign_keys@.len(),
                nn == nodes@.len(),
                tn == tpls@.len(),
                plan_nodes_ok(tpls@, nodes@),
                forall|j: int| 0 <= j < edges@.len()
                    ==> plan_edge_ok(tpls@, nodes@, self.schema.foreign_keys@,
                        #[trigger] edges@[j]),
                forall|kk: int| 0 <= kk < k
                    ==> #[trigger] plan_fk_covered(tpls@, nodes@, self.schema.foreign_keys@,
                        edges@, kk),
            decreases m - k,
        {
            let fk = &self.schema.foreign_keys[k];
            let ia = find_node_by_table(tpls, &nodes, &fk.to_table);
            let ib = find_node_by_table(tpls, &nodes, &fk.from_table);
            let ghost oldedges = edges@;
            match (ia, ib) {
                (Some(a), Some(b)) => {
                    if a != b {
                        edges.push((a, b));
                        proof {
                            assert(edges@[edges@.len() - 1] == (a, b));
                            assert(edge_in(edges@, a, b));
                            assert forall|kk: int| 0 <= kk < k + 1 implies
                                #[trigger] plan_fk_covered(tpls@, nodes@,
                                    self.schema.foreign_keys@, edges@, kk) by {
                                if kk < k {
                                    assert forall|x: usize, y: usize|
                                        #![trigger tpl_table(tpls@, nodes@, x as int),
                                            tpl_table(tpls@, nodes@, y as int)]
                                        (x as int) < nodes@.len() && (y as int) < nodes@.len()
                                            && x != y
                                            && tpl_table(tpls@, nodes@, x as int)
                                                == self.schema.foreign_keys@[kk].to_table@
                                            && tpl_table(tpls@, nodes@, y as int)
                                                == self.schema.foreign_keys@[kk].from_table@
                                        implies edge_in(edges@, x, y) by {
                                        assert(plan_fk_covered(tpls@, nodes@,
                                            self.schema.foreign_keys@, oldedges, kk));
                                        assert(edge_in(oldedges, x, y));
                                        lemma_edge_in_push(oldedges, (a, b), x, y);
                                    }
                                } else {
                                    assert forall|x: usize, y: usize|
                                        #![trigger tpl_table(tpls@, nodes@, x as int),
                                            tpl_table(tpls@, nodes@, y as int)]
                                        (x as int) < nodes@.len() && (y as int) < nodes@.len()
                                            && x != y
                                            && tpl_table(tpls@, nodes@, x as int)
                                                == self.schema.foreign_keys@[kk].to_table@
                                            && tpl_table(tpls@, nodes@, y as int)
                                                == self.schema.foreign_keys@[kk].from_table@
                                        implies edge_in(edges@, x, y) by {
                                        // node tables are distinct, so x == a and y == b
                                        assert(x == a && y == b);
                                    }
                                }
                            }
                        }
                    } else {
                        proof {
                            assert forall|kk: int| 0 <= kk < k + 1 implies
                                #[trigger] plan_fk_covered(tpls@, nodes@,
                                    self.schema.foreign_keys@, edges@, kk) by {
                                if kk == k {
                                    assert forall|x: usize, y: usize|
                                        #![trigger tpl_table(tpls@, nodes@, x as int),
                                            tpl_table(tpls@, nodes@, y as int)]
                                        (x as int) < nodes@.len() && (y as int) < nodes@.len()
                                            && x != y
                                            && tpl_table(tpls@, nodes@, x as int)
                                                == self.schema.foreign_keys@[kk].to_table@
                                            && tpl_table(tpls@, nodes@, y as int)
                                                == self.schema.foreign_keys@[kk].from_table@
                                        implies edge_in(edges@, x, y) by {
                                        assert(x == a && y == b);
                                    }
                                }
                            }
                        }
                    }
                },
                _ => {
                    proof {
                        assert forall|kk: int| 0 <= kk < k + 1 implies
                            #[trigger] plan_fk_covered(tpls@, nodes@, self.schema.foreign_keys@,
                                edges@, kk) by {
                            if kk == k {
                                assert forall|x: usize, y: usize|
                                    #![trigger tpl_table(tpls@, nodes@, x as int),
                                        tpl_table(tpls@, nodes@, y as int)]
                                    (x as int) < nodes@.len() && (y as int) < nodes@.len()
                                        && x != y
                                        && tpl_table(tpls@, nodes@, x as int)
                                            == self.schema.foreign_keys@[kk].to_table@
                                        && tpl_table(tpls@, nodes@, y as int)
                                            == self.schema.foreign_keys@[kk].from_table@
                                    implies edge_in(edges@, x, y) by {
                                    assert(false);
                                }
                            }
                        }
                    }
                },
            }
            k += 1;
        }
        (Graph { n: nn, edges }, nodes)
    }
}

// ---------------------------------------------------------------------
// A run in progress.
// ---------------------------------------------------------------------

/// The pool map a row generation sees: the accumulated primary-key
/// pools, with the current table's entry replaced by the keys collected
/// so far in this batch (so a self-referencing table sees its own
/// earlier rows).
pub open spec fn merged_view(
    base: Seq<(Seq<char>, Seq<ValSpec>)>,
    t: Seq<char>,
    vs: Seq<ValSpec>,
    avail: Seq<(Seq<char>, Seq<ValSpec>)>,
) -> bool {
    &&& pools_find(avail, t) == Some(vs)
    &&& forall|k2: Seq<char>| k2 != t ==> #[trigger] pools_find(avail, k2) == pools_find(base, k2)
}

/// The row count the task list assigns to a table: the first matching
/// task's, if any.
pub open spec fn task_rows_for(tasks: Seq<SeedingTask>, t: Seq<char>) -> Option<u32>
    decreases tasks.len(),
{
    if tasks.len() == 0 {
        None
    } else if tasks[0].table@ == t {
        Some(tasks[0].rows)
    } else {
        task_rows_for(tasks.skip(1), t)
    }
}

fn find_task_rows(tasks: &Vec<SeedingTask>, table: &String) -> (r: Option<u32>)
    ensures
        r == task_rows_for(tasks@, table@),
{
    let n = tasks.len();
    proof {
        assert(tasks@.skip(0) =~= tasks@);
    }
    let mut i: usize = 0;
    while i < n
        invariant
            i <= n,
            n == tasks@.len(),
            task_rows_for(tasks@, table@) == task_rows_for(tasks@.skip(i as int), table@),
        decreases n - i,
    {
        proof {
            assert(tasks@.skip(i as int)[0] == tasks@[i as int]);
            assert(tasks@.skip(i as int).skip(1) =~= tasks@.skip(i as int + 1));
        }
        if tasks[i].table == *table {
            return Some(tasks[i].rows);
        }
        i += 1;
    }
    proof {
        assert(tasks@.skip(n as int).len() == 0);
    }
    None
}

/// Position `s` of the topological order is represented in the seeding
/// order exactly as its task demands: a tasked entity stands there once,
/// with the task's row count; an untasked one not at all.
pub open spec fn order_entry_ok(
    tasks: Seq<SeedingTask>,
    tpls: Seq<EntityTemplate>,
    nodes: Seq<usize>,
    ord: Seq<usize>,
    order: Seq<(usize, u32)>,
    sel: Seq<int>,
    s: int,
) -> bool {
    match task_rows_for(tasks, tpl_table(tpls, nodes, ord[s] as int)) {
        Some(r) => exists|j: int|
            0 <= j < order.len() && #[trigger] sel[j] == s && order[j] == (
                nodes[ord[s] as int],
                r,
            ),
        None => forall|j: int| 0 <= j < order.len() ==> #[trigger] sel[j] != s,
    }
}

/// The batch being seeded: which template and table (by catalog
/// position), whether the table has a recognized key, the task's row
/// count, progress through it, and the keys captured so far.
pub struct CurBatch {
    pub tpl: usize,
    pub tbl: usize,
    pub has_pk: bool,
    /// The task's row count for this entity.
    pub rows: u32,
    /// Rows fully processed (inserted, and keyed rows recorded).
    pub done: u32,
    /// A keyed row has been prepared and awaits its returned key.
    pub pending: bool,
    pub collected: Vec<Value>,
}

/// One seeding run: the topologically ordered, task-filtered entity
/// list, the position reached, and the primary-key pools accumulated
/// from the entities already finished.
pub struct SeedRun<'a> {
    pub schema: &'a DbSchema,
    pub templates: &'a Vec<EntityTemplate>,
    /// (template index, row count), in seeding order.
    pub order: Vec<(usize, u32)>,
    /// How many entities of `order` have been begun.
    pub pos: usize,
    /// Table name -> primary keys captured, for finished entities only.
    pub pk_pools: Pools,
    pub cur: Option<CurBatch>,
    /// The execution graph, its nodes, a topological order of it, the
    /// positions of `order`'s entries within that topological order,
    /// and the task list the order was filtered against: the evidence
    /// that seeding covers exactly the tasked entities, in dependency
    /// order.
    pub g_graph: Ghost<Graph>,
    pub g_nodes: Ghost<Seq<usize>>,
    pub g_ord: Ghost<Seq<usize>>,
    pub g_sel: Ghost<Seq<int>>,
    pub g_tasks: Ghost<Seq<SeedingTask>>,
}

impl<'a> SeedRun<'a> {
    pub open spec fn inv(&self) -> bool {
        &&& self.schema.wf()
        &&& self.pk_pools.wf()
        &&& self.pos <= self.order@.len()
        &&& plan_graph_spec(self.templates@, self.schema.foreign_keys@, self.g_graph@,
            self.g_nodes@)
        &&& valid_order(&self.g_graph@, self.g_ord@)
        &&& self.g_sel@.len() == self.order@.len()
        &&& forall|j1: int, j2: int|
            #![trigger self.g_sel@[j1], self.g_sel@[j2]]
            0 <= j1 < j2 < self.g_sel@.len() ==> self.g_sel@[j1] < self.g_sel@[j2]
        &&& forall|j: int| 0 <= j < self.order@.len()
            ==> 0 <= #[trigger] self.g_sel@[j] < self.g_ord@.len()
        &&& forall|j: int| 0 <= j < self.order@.len()
            ==> (#[trigger] self.order@[j]).0 == self.g_nodes@[self.g_ord@[self.g_sel@[j]] as int]
        &&& forall|j: int| 0 <= j < self.order@.len()
            ==> ((#[trigger] self.order@[j]).0 as int) < self.templates@.len()
        // the order covers exactly the tasked entities, with their counts
        &&& forall|s: int| 0 <= s < self.g_ord@.len()
            ==> #[trigger] order_entry_ok(self.g_tasks@, self.templates@, self.g_nodes@,
                self.g_ord@, self.order@, self.g_sel@, s)
        &&& forall|k: Seq<char>| #[trigger] self.pk_pools.has_key(k)
            ==> self.schema.has_table(k)
                && self.schema.table_at(k).primary_key_column is Some
        &&& forall|k: Seq<char>| #[trigger] self.pk_pools.has_key(k)
            ==> exists|j: int|
                0 <= j < self.pos && self.templates@[(#[trigger] self.order@[j]).0 as int].target_table@ == k
        &&& match self.cur {
            Some(c) => {
                &&& 1 <= self.pos
                &&& c.tpl == self.order@[self.pos - 1].0
                &&& c.rows == self.order@[self.pos - 1].1
                &&& (c.tbl as int) < self.schema.tables@.len()
                &&& self.schema.tables@[c.tbl as int].name@
                    == self.templates@[c.tpl as int].target_table@
                &&& c.has_pk == (self.schema.tables@[c.tbl as int].primary_key_column is Some)
                &&& c.done <= c.rows
                &&& c.collected@.len() == if c.has_pk {
                    c.done as int
                } else {
                    0int
                }
                &&& (c.pending ==> c.has_pk && c.done < c.rows)
            },
            None => true,
        }
    }

    /// Move to the next entity of the order.  Returns the entity name,
    /// its target table and the requested row count; `None` when the
    /// run is complete; `MissingTable` exactly when the plan targets a
    /// table the catalog lacks.
    pub fn begin_entity(&mut self) -> (r: Result<Option<(String, String, u32)>, SeedError>)
        requires
            old(self).inv(),
            old(self).cur is None,
        ensures
            final(self).inv(),
            final(self).schema == old(self).schema,
            final(self).templates == old(self).templates,
            final(self).order == old(self).order,
            final(self).pk_pools == old(self).pk_pools,
            final(self).g_graph == old(self).g_graph,
            final(self).g_nodes == old(self).g_nodes,
            final(self).g_ord == old(self).g_ord,
            final(self).g_sel == old(self).g_sel,
            final(self).g_tasks == old(self).g_tasks,
            match r {
                Ok(opt) => match opt {
                    None => *final(self) == *old(self) && old(self).pos == old(self).order@.len(),
                    Some((name, table, rows)) => {
                        &&& old(self).pos < old(self).order@.len()
                        &&& final(self).pos == old(self).pos + 1
                        &&& final(self).cur matches Some(c) && c.tpl == old(self).order@[
                            old(self).pos as int].0 && c.rows == old(self).order@[
                            old(self).pos as int].1 && c.done == 0 && !c.pending
                            && c.collected@.len() == 0
                        &&& name@ == old(self).templates@[old(self).order@[
                            old(self).pos as int].0 as int].entity_name@
                        &&& table@ == old(self).templates@[old(self).order@[
                            old(self).pos as int].0 as int].target_table@
                        &&& rows == old(self).order@[old(self).pos as int].1
                    },
                },
                Err(e) => {
                    &&& *final(self) == *old(self)
                    &&& old(self).pos < old(self).order@.len()
                    &&& e@ matches ErrV::MissingTable(t) && t == old(self).templates@[
                        old(self).order@[old(self).pos as int].0 as int].target_table@
                    &&& !old(self).schema.has_table(old(self).templates@[old(self).order@[
                        old(self).pos as int].0 as int].target_table@)
                },
            },
    {
        if self.pos == self.order.len() {
            return Ok(None);
        }
        let (tpl_idx, rows) = self.order[self.pos];
        let templates: &Vec<EntityTemplate> = self.templates;
        let schema: &DbSchema = self.schema;
        let tpl = &templates[tpl_idx];
        let tbl_idx = match find_table_idx(&schema.tables, &tpl.target_table) {
            Some(i) => i,
            None => {
                proof {
                    if self.schema.has_table(tpl.target_table@) {
                        let k = choose|k: int|
                            0 <= k < self.schema.tables@.len()
                                && (#[trigger] self.schema.tables@[k]).name@
                                == tpl.target_table@;
                        assert(false);
                    }
                }
                return Err(SeedError::MissingTable(tpl.target_table.clone()));
            },
        };
        let has_pk = schema.tables[tbl_idx].primary_key_column.is_some();
        self.cur = Some(
            CurBatch {
                tpl: tpl_idx,
                tbl: tbl_idx,
                has_pk,
                rows,
                done: 0,
                pending: false,
                collected: Vec::new(),
            },
        );
        self.pos = self.pos + 1;
        Ok(Some((tpl.entity_name.clone(), tpl.target_table.clone(), rows)))
    }

    /// Generate one row of the current batch and build its insert.
    /// The row is generated against the data pools and the merged
    /// primary-key pools (finished entities plus this batch's own
    /// keys); the statement is built against the current table.  At
    /// most `rows` rows can be prepared per batch, and a keyed row must
    /// have its key recorded before the next one is prepared.
    pub fn prepare_row(&mut self, data_pools: &Pools) -> (r: Result<InsertStmt, SeedError>)
        requires
            old(self).inv(),
            old(self).cur matches Some(c) && !c.pending && c.done < c.rows,
        ensures
            final(self).inv(),
            final(self).schema == old(self).schema,
            final(self).templates == old(self).templates,
            final(self).order == old(self).order,
            final(self).pos == old(self).pos,
            final(self).pk_pools == old(self).pk_pools,
            final(self).g_graph == old(self).g_graph,
            final(self).g_nodes == old(self).g_nodes,
            final(self).g_ord == old(self).g_ord,
            final(self).g_sel == old(self).g_sel,
            final(self).g_tasks == old(self).g_tasks,
            ({
                let c = old(self).cur->Some_0;
                let table = old(self).schema.tables@[c.tbl as int];
                let fields = fields_view(old(self).templates@[c.tpl as int].fields@);
                match r {
                    Ok(stmt) => {
                        &&& exists|
                            avail: Seq<(Seq<char>, Seq<ValSpec>)>,
                            row: Seq<(Seq<char>, ValSpec)>,
                        |
                            merged_view(old(self).pk_pools@, table.name@,
                                pool_view(c.collected@), avail)
                                && #[trigger] gen_ok(fields, data_pools@, avail,
                                    Seq::<(Seq<char>, ValSpec)>::empty(), row)
                                && built_ok(table, row, stmt)
                        &&& final(self).cur matches Some(c2) && c2.tpl == c.tpl && c2.tbl == c.tbl
                            && c2.has_pk == c.has_pk && c2.rows == c.rows
                            && c2.collected == c.collected && c2.pending == c.has_pk
                            && c2.done as int == if c.has_pk {
                                c.done as int
                            } else {
                                c.done + 1int
                            }
                    },
                    Err(e) => {
                        &&& *final(self) == *old(self)
                        &&& exists|avail: Seq<(Seq<char>, Seq<ValSpec>)>|
                            #[trigger] merged_view(old(self).pk_pools@, table.name@,
                                pool_view(c.collected@), avail)
                            && ((exists|i: int, rm: Seq<(Seq<char>, ValSpec)>|
                                    0 <= i < fields.len() && #[trigger] gen_ok(fields.take(i),
                                        data_pools@, avail,
                                        Seq::<(Seq<char>, ValSpec)>::empty(), rm)
                                        && field_err(fields[i], data_pools@, avail) == Some(e@))
                                || (e@ matches ErrV::UnsupportedPkType(_) && (
                                    table.primary_key_column matches Some(p) && (
                                    match col_type_of(table.columns@, p@) {
                                        Some(ct) => pk_kind_of(ct) is None,
                                        None => true,
                                    }))))
                    },
                }
            }),
    {
        let (tpl_i, tbl_i, has_pk_c) = {
            let c = self.cur.as_ref().unwrap();
            (c.tpl, c.tbl, c.has_pk)
        };
        let collected_copy = {
            let c = self.cur.as_ref().unwrap();
            clone_values(&c.collected)
        };
        let schema: &DbSchema = self.schema;
        let templates: &Vec<EntityTemplate> = self.templates;
        let table = &schema.tables[tbl_i];
        let mut avail = self.pk_pools.duplicate();
        avail.set(table.name.clone(), collected_copy);
        proof {
            let c = old(self).cur->Some_0;
            assert(merged_view(self.pk_pools@, table.name@, pool_view(c.collected@), avail@));
        }
        let gen = EntityGenerator::new();
        let row = match gen.generate_entity(&templates[tpl_i].fields, data_pools, &avail) {
            Ok(row) => row,
            Err(e) => {
                return Err(e);
            },
        };
        let stmt = match build_insert(table, &row) {
            Ok(stmt) => stmt,
            Err(e) => {
                return Err(e);
            },
        };
        // one more row is under way: a keyed one awaits its key, a
        // key-less one is complete once executed
        match &mut self.cur {
            Some(c) => {
                if c.has_pk {
                    c.pending = true;
                } else {
                    c.done = c.done + 1;
                }
            },
            None => {
                proof {
                    assert(false);
                }
            },
        }
        Ok(stmt)
    }

    /// Record the primary key the executed insert returned for the
    /// pending row.
    pub fn record_pk(&mut self, v: Value)
        requires
            old(self).inv(),
            old(self).cur matches Some(c) && c.pending,
        ensures
            final(self).inv(),
            final(self).schema == old(self).schema,
            final(self).templates == old(self).templates,
            final(self).order == old(self).order,
            final(self).pos == old(self).pos,
            final(self).pk_pools == old(self).pk_pools,
            final(self).g_graph == old(self).g_graph,
            final(self).g_nodes == old(self).g_nodes,
            final(self).g_ord == old(self).g_ord,
            final(self).g_sel == old(self).g_sel,
            final(self).g_tasks == old(self).g_tasks,
            final(self).cur matches Some(c2) && ({
                let c = old(self).cur->Some_0;
                c2.tpl == c.tpl && c2.tbl == c.tbl && c2.has_pk == c.has_pk && c2.rows == c.rows
                    && c2.done as int == c.done + 1int && !c2.pending
                    && pool_view(c2.collected@) == pool_view(c.collected@).push(v@)
            }),
    {
        match &mut self.cur {
            Some(c) => {
                c.collected.push(v);
                c.done = c.done + 1;
                c.pending = false;
                proof {
                    let oldc = old(self).cur->Some_0;
                    assert(pool_view(c.collected@) =~= pool_view(oldc.collected@).push(v@));
                }
            },
            None => {
                proof {
                    assert(false);
                }
            },
        }
    }

    /// Close the current batch, which must be complete: every requested
    /// row prepared, and every keyed row's key recorded.  A keyed batch
    /// with at least one row leaves exactly its keys — as many as the
    /// task asked for — as the table's primary-key pool (replacing an
    /// earlier entity's contribution for the same table); a key-less or
    /// empty batch leaves the pools untouched.
    pub fn finish_entity(&mut self)
        requires
            old(self).inv(),
            old(self).cur matches Some(c) && c.done == c.rows && !c.pending,
        ensures
            final(self).inv(),
            final(self).cur is None,
            final(self).schema == old(self).schema,
            final(self).templates == old(self).templates,
            final(self).order == old(self).order,
            final(self).pos == old(self).pos,
            final(self).g_graph == old(self).g_graph,
            final(self).g_nodes == old(self).g_nodes,
            final(self).g_ord == old(self).g_ord,
            final(self).g_sel == old(self).g_sel,
            final(self).g_tasks == old(self).g_tasks,
            ({
                let c = old(self).cur->Some_0;
                let t = old(self).templates@[c.tpl as int].target_table@;
                if c.has_pk && c.rows > 0 {
                    pools_find(final(self).pk_pools@, t) == Some(pool_view(c.collected@))
                        && pool_view(c.collected@).len() == c.rows
                        && (forall|k2: Seq<char>| k2 != t
                            ==> #[trigger] pools_find(final(self).pk_pools@, k2)
                                == pools_find(old(self).pk_pools@, k2))
                } else {
                    final(self).pk_pools == old(self).pk_pools
                }
            }),
    {
        let schema: &DbSchema = self.schema;
        let templates: &Vec<EntityTemplate> = self.templates;
        let (tbl_name, collected_clone, nonempty) = {
            let c = self.cur.as_ref().unwrap();
            let nm = templates[c.tpl].target_table.clone();
            let cc = clone_values(&c.collected);
            let ne = c.collected.len() > 0;
            (nm, cc, ne)
        };
        if nonempty {
            self.pk_pools.set(tbl_name, collected_clone);
            proof {
                let c = old(self).cur->Some_0;
                let t = old(self).templates@[c.tpl as int].target_table@;
                // the key's table exists and carries a recognized key
                assert(self.schema.tables@[c.tbl as int].name@ == t);
                assert(self.schema.has_table(t));
                let k0 = choose|k0: int|
                    0 <= k0 < self.schema.tables@.len()
                        && (#[trigger] self.schema.tables@[k0]).name@ == t;
                assert(k0 == c.tbl as int);
                assert(self.schema.table_at(t) == self.schema.tables@[c.tbl as int]);
                assert(c.has_pk);
                // every key of the new pools satisfies both clauses
                assert forall|k: Seq<char>| #[trigger] self.pk_pools.has_key(k)
                    implies self.schema.has_table(k)
                        && self.schema.table_at(k).primary_key_column is Some by {
                    if k != t {
                        assert(pools_find(self.pk_pools@, k)
                            == pools_find(old(self).pk_pools@, k));
                        assert(old(self).pk_pools.has_key(k));
                    }
                }
                assert forall|k: Seq<char>| #[trigger] self.pk_pools.has_key(k)
                    implies exists|j: int|
                        0 <= j < self.pos && self.templates@[(#[trigger] self.order@[j]).0
                            as int].target_table@ == k by {
                    if k == t {
                        assert(self.order@[self.pos - 1].0 == c.tpl);
                        assert(self.templates@[self.order@[self.pos - 1].0 as int].target_table@
                            == k);
                    } else {
                        assert(pools_find(self.pk_pools@, k)
                            == pools_find(old(self).pk_pools@, k));
                        assert(old(self).pk_pools.has_key(k));
                    }
                }
            }
        }
        self.cur = None;
    }
}

// ---------------------------------------------------------------------
// Starting a run.
// ---------------------------------------------------------------------

impl Seeder {
    /// Build the execution graph, order it topologically, and keep
    /// exactly the entities that have a seeding task, in that order and
    /// with the tasks' row counts (the run's invariant pins this
    /// through `order_entry_ok`).  Fails with `CyclicDependency`
    /// exactly when the entity graph has a cycle, in which case nothing
    /// can be seeded.
    pub fn start_run<'a>(
        &'a self,
        plan: &'a ArchitecturalPlan,
        tasks: &Vec<SeedingTask>,
    ) -> (r: Result<SeedRun<'a>, SeedError>)
        requires
            self.schema.wf(),
        ensures
            match r {
                Ok(run) => {
                    &&& run.inv()
                    &&& run.pos == 0
                    &&& run.cur is None
                    &&& run.pk_pools@.len() == 0
                    &&& run.schema == &self.schema
                    &&& run.templates == &plan.entity_templates
                    &&& run.g_tasks@ == tasks@
                },
                Err(e) => {
                    &&& e@ == ErrV::CyclicDependency
                    &&& exists|g: Graph, nodes: Seq<usize>|
                        #[trigger] plan_graph_spec(plan.entity_templates@,
                            self.schema.foreign_keys@, g, nodes) && has_cycle(&g)
                },
            },
    {
        let (graph, nodes) = self.build_plan_dependency_graph(plan);
        let sorted = match graph.topo_sort() {
            Some(o) => o,
            None => {
                proof {
                    assert(plan_graph_spec(plan.entity_templates@, self.schema.foreign_keys@,
                        graph, nodes@) && has_cycle(&graph));
                }
                return Err(SeedError::CyclicDependency);
            },
        };
        // keep, in topological order, exactly the entities with a task
        let tpls = &plan.entity_templates;
        let mut order: Vec<(usize, u32)> = Vec::new();
        let ghost g_sel = Seq::<int>::empty();
        let mut sel: Ghost<Seq<int>> = Ghost(g_sel);
        let sn = sorted.len();
        let mut s: usize = 0;
        while s < sn
            invariant
                s <= sn,
                sn == sorted@.len(),
                self.schema.wf(),
                plan_graph_spec(tpls@, self.schema.foreign_keys@, graph, nodes@),
                valid_order(&graph, sorted@),
                sel@.len() == order@.len(),
                forall|j1: int, j2: int|
                    #![trigger sel@[j1], sel@[j2]]
                    0 <= j1 < j2 < sel@.len() ==> sel@[j1] < sel@[j2],
                forall|j: int| 0 <= j < order@.len() ==> 0 <= #[trigger] sel@[j] < s,
                forall|j: int| 0 <= j < order@.len()
                    ==> (#[trigger] order@[j]).0 == nodes@[sorted@[sel@[j]] as int],
                forall|j: int| 0 <= j < order@.len()
                    ==> ((#[trigger] order@[j]).0 as int) < tpls@.len(),
                forall|s2: int| 0 <= s2 < s
                    ==> #[trigger] order_entry_ok(tasks@, tpls@, nodes@, sorted@, order@, sel@,
                        s2),
            decreases sn - s,
        {
            let node = sorted[s];
            proof {
                assert(in_range(sorted@, graph.n));
                assert(sorted@[s as int] < graph.n);
            }
            let tpl_idx = nodes[node];
            let target = &tpls[tpl_idx].target_table;
            proof {
                assert(target@ == tpl_table(tpls@, nodes@, sorted@[s as int] as int));
            }
            let ghost oldorder = order@;
            let ghost oldsel = sel@;
            // the first task for this table supplies the row count
            match find_task_rows(tasks, target) {
                Some(rows) => {
                    order.push((tpl_idx, rows));
                    proof {
                        sel@ = sel@.push(s as int);
                        assert(order@ =~= oldorder.push((tpl_idx, rows)));
                        assert(sel@ =~= oldsel.push(s as int));
                        assert(order@[order@.len() - 1] == (tpl_idx, rows));
                        assert(sel@[sel@.len() - 1] == s as int);
                        assert(forall|j: int| 0 <= j < oldorder.len()
                            ==> #[trigger] order@[j] == oldorder[j]);
                        assert(forall|j: int| 0 <= j < oldsel.len()
                            ==> #[trigger] sel@[j] == oldsel[j]);
                        assert forall|s2: int| 0 <= s2 < s + 1 implies
                            #[trigger] order_entry_ok(tasks@, tpls@, nodes@, sorted@, order@,
                                sel@, s2) by {
                            if s2 < s {
                                assert(order_entry_ok(tasks@, tpls@, nodes@, sorted@, oldorder,
                                    oldsel, s2));
                                match task_rows_for(tasks@,
                                    tpl_table(tpls@, nodes@, sorted@[s2] as int)) {
                                    Some(r2) => {
                                        let j = choose|j: int|
                                            0 <= j < oldorder.len() && #[trigger] oldsel[j] == s2
                                                && oldorder[j] == (
                                                nodes@[sorted@[s2] as int],
                                                r2,
                                            );
                                        assert(sel@[j] == s2);
                                        assert(order@[j] == (nodes@[sorted@[s2] as int], r2));
                                    },
                                    None => {
                                        assert forall|j: int| 0 <= j < order@.len() implies
                                            #[trigger] sel@[j] != s2 by {
                                            if j < oldorder.len() {
                                                assert(oldsel[j] != s2);
                                            } else {
                                                assert(sel@[j] == s as int);
                                            }
                                        }
                                    },
                                }
                            } else {
                                assert(sel@[sel@.len() - 1] == s2);
                                assert(order@[order@.len() - 1]
                                    == (nodes@[sorted@[s2] as int], rows));
                            }
                        }
                    }
                },
                None => {
                    proof {
                        assert forall|s2: int| 0 <= s2 < s + 1 implies
                            #[trigger] order_entry_ok(tasks@, tpls@, nodes@, sorted@, order@,
                                sel@, s2) by {
                            if s2 == s {
                                assert forall|j: int| 0 <= j < order@.len() implies
                                    #[trigger] sel@[j] != s2 by {
                                    assert(sel@[j] < s);
                                }
                            }
                        }
                    }
                },
            }
            s += 1;
        }
        Ok(SeedRun {
            schema: &self.schema,
            templates: &plan.entity_templates,
            order,
            pos: 0,
            pk_pools: Pools::new(),
            cur: None,
            g_graph: Ghost(graph),
            g_nodes: Ghost(nodes@),
            g_ord: Ghost(sorted@),
            g_sel: sel,
            g_tasks: Ghost(tasks@),
        })
    }
}

// ---------------------------------------------------------------------
// The laws a run obeys.
// ---------------------------------------------------------------------

/// No run exists over a cyclic entity graph: the graph evidence a run
/// carries admits a topological order, which a cycle defeats.
pub proof fn lemma_run_graph_acyclic<'a>(run: &SeedRun<'a>)
    requires
        run.inv(),
    ensures
        !has_cycle(&run.g_graph@),
{
    if has_cycle(&run.g_graph@) {
        let c = choose|c: Seq<usize>| is_cycle(&run.g_graph@, c);
        lemma_cycle_defeats_order(&run.g_graph@, c, run.g_ord@);
    }
}

/// Parents are seeded strictly before children: whenever a foreign key
/// connects the target tables of two seeded entities (parent to child,
/// distinct tables), the parent entity's position in the seeding order
/// is strictly lower.
pub proof fn lemma_parent_precedes_child<'a>(run: &SeedRun<'a>, k: int, jp: int, jc: int)
    requires
        run.inv(),
        0 <= k < run.schema.foreign_keys@.len(),
        0 <= jp < run.order@.len(),
        0 <= jc < run.order@.len(),
        run.templates@[run.order@[jp].0 as int].target_table@
            == run.schema.foreign_keys@[k].to_table@,
        run.templates@[run.order@[jc].0 as int].target_table@
            == run.schema.foreign_keys@[k].from_table@,
        run.schema.foreign_keys@[k].to_table@ != run.schema.foreign_keys@[k].from_table@,
    ensures
        jp < jc,
{
    let g = run.g_graph@;
    let nodes = run.g_nodes@;
    let ord = run.g_ord@;
    let sel = run.g_sel@;
    let a = ord[sel[jp]];
    let b = ord[sel[jc]];
    assert(in_range(ord, g.n));
    assert((a as int) < nodes.len());
    assert((b as int) < nodes.len());
    assert(tpl_table(run.templates@, nodes, a as int)
        == run.schema.foreign_keys@[k].to_table@);
    assert(tpl_table(run.templates@, nodes, b as int)
        == run.schema.foreign_keys@[k].from_table@);
    assert(a != b);
    assert(plan_fk_covered(run.templates@, nodes, run.schema.foreign_keys@, g.edges@, k));
    assert(edge_in(g.edges@, a, b));
    lemma_edge_in_has_edge(&g, a, b);
    lemma_edge_pos(&g, ord, a, b, sel[jp], sel[jc]);
    if jc < jp {
        assert(sel[jc] < sel[jp]);
        assert(false);
    }
    if jc == jp {
        assert(false);
    }
}

/// A primary-key pool entry always belongs to an entity already
/// processed, never a later one.
pub proof fn lemma_pk_pool_from_processed<'a>(run: &SeedRun<'a>, t: Seq<char>)
    requires
        run.inv(),
        run.pk_pools.has_key(t),
    ensures
        exists|j: int|
            0 <= j < run.pos && run.templates@[(#[trigger] run.order@[j]).0 as int].target_table@
                == t,
        run.schema.has_table(t),
        run.schema.table_at(t).primary_key_column is Some,
{
}

/// An `fk` reference to a table without a recognized single-column
/// primary key can never produce a phantom key: the reference either
/// fails with `DependencyNotFound`, or (for the batch's own key-less
/// table) every admissible value is null.
pub proof fn lemma_fk_to_keyless<'a>(
    run: &SeedRun<'a>,
    avail: Seq<(Seq<char>, Seq<ValSpec>)>,
    pools: Seq<(Seq<char>, Seq<ValSpec>)>,
    f: FieldV,
    t: Seq<char>,
)
    requires
        run.inv(),
        run.cur is Some,
        merged_view(
            run.pk_pools@,
            run.schema.tables@[(run.cur->Some_0).tbl as int].name@,
            pool_view((run.cur->Some_0).collected@),
            avail,
        ),
        f.generator == "fk"@,
        param_str_spec(f.params, "references"@) == Some(t),
        !(run.schema.has_table(t) && run.schema.table_at(t).primary_key_column is Some),
    ensures
        field_err(f, pools, avail) == Some(ErrV::DependencyNotFound(t)) || (forall|
            row: Seq<(Seq<char>, ValSpec)>,
            v: ValSpec,
        |
            #[trigger] field_val_ok(f, pools, avail, row, v) ==> v is Null),
{
    crate::generator::lemma_tags_distinct();
    let c = run.cur->Some_0;
    let tname = run.schema.tables@[c.tbl as int].name@;
    if t == tname {
        // the batch's own table: it has no key, so nothing was captured
        assert(run.schema.has_table(tname));
        let k0 = choose|k0: int|
            0 <= k0 < run.schema.tables@.len() && (#[trigger] run.schema.tables@[k0]).name@
                == tname;
        assert(k0 == c.tbl as int);
        assert(run.schema.table_at(tname) == run.schema.tables@[c.tbl as int]);
        assert(!c.has_pk);
        assert(c.collected@.len() == 0);
        assert(pools_find(avail, t) == Some(pool_view(c.collected@)));
        assert(pool_view(c.collected@).len() == 0);
        assert forall|row: Seq<(Seq<char>, ValSpec)>, v: ValSpec|
            #[trigger] field_val_ok(f, pools, avail, row, v) implies v is Null by {}
    } else {
        assert(pools_find(avail, t) == pools_find(run.pk_pools@, t));
        if pools_find(run.pk_pools@, t) is Some {
            assert(run.pk_pools.has_key(t));
            assert(false);
        }
        assert(field_err(f, pools, avail) == Some(ErrV::DependencyNotFound(t)));
    }
}



/// Every entity whose target table has a task is seeded: some entry of
/// the seeding order targets that table, with the task's row count.
/// (The entry is unique: positions in the order map injectively into
/// the topological order, whose nodes carry distinct tables.)
pub proof fn lemma_tasked_entity_seeded<'a>(run: &SeedRun<'a>, i: int) -> (j: int)
    requires
        run.inv(),
        0 <= i < run.templates@.len(),
        task_rows_for(run.g_tasks@, run.templates@[i].target_table@) is Some,
    ensures
        0 <= j < run.order@.len(),
        run.templates@[run.order@[j].0 as int].target_table@
            == run.templates@[i].target_table@,
        Some(run.order@[j].1) == task_rows_for(run.g_tasks@, run.templates@[i].target_table@),
{
    let tpls = run.templates@;
    let nodes = run.g_nodes@;
    let ord = run.g_ord@;
    let tbl = tpls[i].target_table@;
    // some node carries this table
    assert(nodes_complete(tpls, nodes, tpls.len() as int));
    let p = choose|p: int| 0 <= p < nodes.len() && #[trigger] tpl_table(tpls, nodes, p) == tbl;
    // that node stands somewhere in the topological order
    assert(nodes.len() == run.g_graph@.n);
    assert(0 <= p < run.g_graph@.n);
    assert((p as usize) as int == p);
    assert(ord.contains(p as usize));
    let s = choose|s: int| 0 <= s < ord.len() && #[trigger] ord[s] == p as usize;
    assert(order_entry_ok(run.g_tasks@, tpls, nodes, ord, run.order@, run.g_sel@, s));
    assert(tpl_table(tpls, nodes, ord[s] as int) == tbl);
    let r = task_rows_for(run.g_tasks@, tbl)->Some_0;
    let j0 = choose|j0: int|
        0 <= j0 < run.order@.len() && #[trigger] run.g_sel@[j0] == s && run.order@[j0] == (
            nodes[ord[s] as int],
            r,
        );
    assert(run.order@[j0].0 == nodes[p]);
    assert(tpls[run.order@[j0].0 as int].target_table@ == tpl_table(tpls, nodes, p));
    j0
}

/// Every entry of the seeding order is owed to a task: the entry's
/// table has a task, and the entry carries exactly that task's row
/// count — so untasked entities are never seeded, and a batch's key
/// pool (sized by `finish_entity` to the entry's count) holds one key
/// per requested row.
pub proof fn lemma_order_entry_tasked<'a>(run: &SeedRun<'a>, j: int)
    requires
        run.inv(),
        0 <= j < run.order@.len(),
    ensures
        task_rows_for(
            run.g_tasks@,
            run.templates@[run.order@[j].0 as int].target_table@,
        ) == Some(run.order@[j].1),
{
    let tpls = run.templates@;
    let nodes = run.g_nodes@;
    let ord = run.g_ord@;
    let s = run.g_sel@[j];
    assert(0 <= s < ord.len());
    assert(order_entry_ok(run.g_tasks@, tpls, nodes, ord, run.order@, run.g_sel@, s));
    assert(run.order@[j].0 == nodes[ord[s] as int]);
    assert(tpls[run.order@[j].0 as int].target_table@ == tpl_table(tpls, nodes, ord[s] as int));
    match task_rows_for(run.g_tasks@, tpl_table(tpls, nodes, ord[s] as int)) {
        Some(r) => {
            let j2 = choose|j2: int|
                0 <= j2 < run.order@.len() && #[trigger] run.g_sel@[j2] == s && run.order@[j2]
                    == (nodes[ord[s] as int], r);
            // positions map injectively into the topological order
            if j2 < j {
                assert(run.g_sel@[j2] < run.g_sel@[j]);
                assert(false);
            }
            if j < j2 {
                assert(run.g_sel@[j] < run.g_sel@[j2]);
                assert(false);
            }
            assert(run.order@[j] == (nodes[ord[s] as int], r));
        },
        None => {
            assert(run.g_sel@[j] != s);
            assert(false);
        },
    }
}

/// Cyclicity is a property of the plan, not of one particular graph
/// value: any two graphs matching the plan characterization agree.
/// Together with `start_run`'s contract and `lemma_run_graph_acyclic`,
/// this pins the failure mode: a run starts exactly when the plan's
/// entity dependencies are acyclic.
#[verifier::rlimit(80)]
pub proof fn lemma_plan_cycle_transfer(
    tpls: Seq<EntityTemplate>,
    fks: Seq<crate::schema::ForeignKey>,
    g1: Graph,
    nodes1: Seq<usize>,
    g2: Graph,
    nodes2: Seq<usize>,
)
    requires
        plan_graph_spec(tpls, fks, g1, nodes1),
        plan_graph_spec(tpls, fks, g2, nodes2),
        nodes2.len() <= usize::MAX,
        has_cycle(&g1),
    ensures
        has_cycle(&g2),
{
    let c1 = choose|c: Seq<usize>| is_cycle(&g1, c);
    // map each node of the cycle to the node of g2 with the same table
    let m = |t: int| choose|p: int|
        0 <= p < nodes2.len() && tpl_table(tpls, nodes2, p) == tpl_table(tpls, nodes1, c1[t] as int);
    assert forall|t: int| 0 <= t < c1.len() implies
        0 <= m(t) < nodes2.len()
        && tpl_table(tpls, nodes2, m(t)) == tpl_table(tpls, nodes1, c1[t] as int) by {
        // every cycle node is a node of g1 (edge endpoints are in range)
        let u: usize = if t < c1.len() - 1 {
            let k = choose|k: int|
                0 <= k < g1.edges@.len() && #[trigger] g1.edges@[k] == (c1[t], c1[t + 1]);
            assert(plan_edge_ok(tpls, nodes1, fks, g1.edges@[k]));
            c1[t]
        } else {
            let k = choose|k: int|
                0 <= k < g1.edges@.len() && #[trigger] g1.edges@[k] == (c1.last(), c1[0]);
            assert(plan_edge_ok(tpls, nodes1, fks, g1.edges@[k]));
            c1[t]
        };
        assert((c1[t] as int) < nodes1.len());
        // its table is some template's target table, which g2's nodes cover
        let i = nodes1[c1[t] as int];
        assert(tpls[i as int].target_table@ == tpl_table(tpls, nodes1, c1[t] as int));
        assert(exists|p: int|
            0 <= p < nodes2.len() && #[trigger] tpl_table(tpls, nodes2, p)
                == tpls[i as int].target_table@);
        let p0 = choose|p: int|
            0 <= p < nodes2.len() && #[trigger] tpl_table(tpls, nodes2, p)
                == tpls[i as int].target_table@;
        assert(0 <= m(t) < nodes2.len() && tpl_table(tpls, nodes2, m(t))
            == tpl_table(tpls, nodes1, c1[t] as int));
    }
    let c2 = Seq::new(c1.len(), |t: int| nodes2_node(tpls, nodes1, nodes2, c1, t));
    assert forall|t: int| 0 <= t < c2.len() implies c2[t] == nodes2_node(tpls, nodes1, nodes2, c1, t)
        && (c2[t] as int) < nodes2.len()
        && tpl_table(tpls, nodes2, c2[t] as int) == tpl_table(tpls, nodes1, c1[t] as int) by {
        lemma_nodes2_node(tpls, nodes1, nodes2, c1, t);
    }
    // each edge of the cycle transfers through the shared foreign key
    assert forall|t: int| 0 <= t < c2.len() - 1 implies
        g2.has_edge(#[trigger] c2[t], c2[t + 1]) by {
        let k = choose|k: int|
            0 <= k < g1.edges@.len() && #[trigger] g1.edges@[k] == (c1[t], c1[t + 1]);
        lemma_edge_transfers(tpls, fks, g1, nodes1, g2, nodes2, k, c1[t], c1[t + 1],
            c2[t], c2[t + 1]);
    }
    assert(g2.has_edge(c2.last(), c2[0])) by {
        let k = choose|k: int|
            0 <= k < g1.edges@.len() && #[trigger] g1.edges@[k] == (c1.last(), c1[0]);
        assert(c2.last() == c2[c2.len() - 1] && c1.last() == c1[c1.len() - 1]);
        lemma_edge_transfers(tpls, fks, g1, nodes1, g2, nodes2, k, c1.last(), c1[0],
            c2.last(), c2[0]);
    }
    assert(is_cycle(&g2, c2));
}

/// The g2 node carrying the same table as cycle node `t` of g1.
pub open spec fn nodes2_node(
    tpls: Seq<EntityTemplate>,
    nodes1: Seq<usize>,
    nodes2: Seq<usize>,
    c1: Seq<usize>,
    t: int,
) -> usize {
    (choose|p: int|
        0 <= p < nodes2.len() && #[trigger] tpl_table(tpls, nodes2, p)
            == tpl_table(tpls, nodes1, c1[t] as int)) as usize
}

proof fn lemma_nodes2_node(
    tpls: Seq<EntityTemplate>,
    nodes1: Seq<usize>,
    nodes2: Seq<usize>,
    c1: Seq<usize>,
    t: int,
)
    requires
        nodes2.len() <= usize::MAX,
        exists|p: int|
            0 <= p < nodes2.len() && #[trigger] tpl_table(tpls, nodes2, p)
                == tpl_table(tpls, nodes1, c1[t] as int),
    ensures
        (nodes2_node(tpls, nodes1, nodes2, c1, t) as int) < nodes2.len(),
        tpl_table(tpls, nodes2, nodes2_node(tpls, nodes1, nodes2, c1, t) as int)
            == tpl_table(tpls, nodes1, c1[t] as int),
{
    let p = choose|p: int|
        0 <= p < nodes2.len() && #[trigger] tpl_table(tpls, nodes2, p)
            == tpl_table(tpls, nodes1, c1[t] as int);
    assert(0 <= p < nodes2.len());
    assert((p as usize) as int == p);
    assert(nodes2_node(tpls, nodes1, nodes2, c1, t) == p as usize);
}

proof fn lemma_edge_transfers(
    tpls: Seq<EntityTemplate>,
    fks: Seq<crate::schema::ForeignKey>,
    g1: Graph,
    nodes1: Seq<usize>,
    g2: Graph,
    nodes2: Seq<usize>,
    k: int,
    a1: usize,
    b1: usize,
    a2: usize,
    b2: usize,
)
    requires
        plan_graph_spec(tpls, fks, g1, nodes1),
        plan_graph_spec(tpls, fks, g2, nodes2),
        0 <= k < g1.edges@.len(),
        g1.edges@[k] == (a1, b1),
        (a2 as int) < nodes2.len(),
        (b2 as int) < nodes2.len(),
        tpl_table(tpls, nodes2, a2 as int) == tpl_table(tpls, nodes1, a1 as int),
        tpl_table(tpls, nodes2, b2 as int) == tpl_table(tpls, nodes1, b1 as int),
    ensures
        g2.has_edge(a2, b2),
{
    assert(plan_edge_ok(tpls, nodes1, fks, g1.edges@[k]));
    let fkk = choose|kk: int|
        0 <= kk < fks.len() && tpl_table(tpls, nodes1, a1 as int) == (#[trigger] fks[kk]).to_table@
            && tpl_table(tpls, nodes1, b1 as int) == fks[kk].from_table@;
    // distinct nodes of g1 carry distinct tables, so the g2 nodes differ
    assert(a1 != b1);
    assert(tpl_table(tpls, nodes1, a1 as int) != tpl_table(tpls, nodes1, b1 as int)) by {
        if a1 < b1 {
            assert(tpl_table(tpls, nodes1, a1 as int) != tpl_table(tpls, nodes1, b1 as int));
        } else {
            assert(tpl_table(tpls, nodes1, b1 as int) != tpl_table(tpls, nodes1, a1 as int));
        }
    }
    assert(a2 != b2);
    assert(plan_fk_covered(tpls, nodes2, fks, g2.edges@, fkk));
    assert(edge_in(g2.edges@, a2, b2));
    lemma_edge_in_has_edge(&g2, a2, b2);
}


} // verus!
