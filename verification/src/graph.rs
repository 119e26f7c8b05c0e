//! A weighted, directed-capable graph over `u32` node keys, stored as an
//! adjacency table: one row per node, each row an association list from
//! target node to an optional edge weight. An edge exists exactly when its
//! stored weight is `Some`. Every mutating operation returns a new graph and
//! leaves the receiver untouched.

use vstd::prelude::*;
use std::collections::VecDeque;
use crate::table::assoc_get;
use crate::table::assoc_has;
use crate::table::find_key;
use crate::table::lemma_assoc_get_first;
use crate::table::lemma_assoc_get_absent;
use crate::table::lemma_assoc_get_push;
use crate::table::lemma_assoc_get_update;
use crate::table::lemma_assoc_get_remove;
use crate::table::lemma_assoc_has_index;

verus! {

broadcast use vstd::seq_lib::lemma_seq_contains_after_push;

/// One adjacency row: targets of a node paired with optional weights.
pub type Row = Vec<(u32, Option<i32>)>;

/// Keys of one row are unique.
pub open spec fn row_wf(row: Seq<(u32, Option<i32>)>) -> bool {
    forall|a: int, b: int|
        0 <= a < b < row.len() ==> (#[trigger] row[a]).0 != (#[trigger] row[b]).0
}

/// Keys are unique at both levels, so each lookup is decided by the one
/// pair that carries the key.
pub open spec fn rows_wf(rows: Seq<(u32, Seq<(u32, Option<i32>)>)>) -> bool {
    &&& (forall|i: int, j: int|
        0 <= i < j < rows.len() ==> (#[trigger] rows[i]).0 != (#[trigger] rows[j]).0)
    &&& (forall|i: int| 0 <= i < rows.len() ==> row_wf((#[trigger] rows[i]).1))
}

/// Replacing the row at `i`, keeping its key, preserves well-formedness.
proof fn lemma_rows_wf_update(
    rows: Seq<(u32, Seq<(u32, Option<i32>)>)>,
    i: int,
    row: Seq<(u32, Option<i32>)>,
)
    requires
        rows_wf(rows),
        0 <= i < rows.len(),
        row_wf(row),
    ensures
        rows_wf(rows.update(i, (rows[i].0, row))),
{
}

/// Appending a row under a fresh key preserves well-formedness.
proof fn lemma_rows_wf_push(
    rows: Seq<(u32, Seq<(u32, Option<i32>)>)>,
    k: u32,
    row: Seq<(u32, Option<i32>)>,
)
    requires
        rows_wf(rows),
        forall|j: int| 0 <= j < rows.len() ==> (#[trigger] rows[j]).0 != k,
        row_wf(row),
    ensures
        rows_wf(rows.push((k, row))),
{
    let t = rows.push((k, row));
    assert forall|i: int, j: int| 0 <= i < j < t.len() implies (#[trigger] t[i]).0
        != (#[trigger] t[j]).0 by {
        if j < rows.len() {
            assert(t[i] == rows[i] && t[j] == rows[j]);
        } else {
            assert(t[i] == rows[i] && t[j] == (k, row));
        }
    }
    assert forall|i: int| 0 <= i < t.len() implies row_wf((#[trigger] t[i]).1) by {
        if i < rows.len() {
            assert(t[i] == rows[i]);
        } else {
            assert(t[i] == (k, row));
        }
    }
}

/// Appending a pair under a fresh key keeps a row's keys unique.
proof fn lemma_row_wf_push(row: Seq<(u32, Option<i32>)>, t: u32, w: Option<i32>)
    requires
        row_wf(row),
        forall|j: int| 0 <= j < row.len() ==> (#[trigger] row[j]).0 != t,
    ensures
        row_wf(row.push((t, w))),
{
    let r = row.push((t, w));
    assert forall|a: int, b: int| 0 <= a < b < r.len() implies (#[trigger] r[a]).0
        != (#[trigger] r[b]).0 by {
        if b < row.len() {
            assert(r[a] == row[a] && r[b] == row[b]);
        } else {
            assert(r[a] == row[a] && r[b] == (t, w));
        }
    }
}

/// Dropping a row preserves well-formedness.
proof fn lemma_rows_wf_remove(rows: Seq<(u32, Seq<(u32, Option<i32>)>)>, i: int)
    requires
        rows_wf(rows),
        0 <= i < rows.len(),
    ensures
        rows_wf(rows.remove(i)),
{
    let t = rows.remove(i);
    assert forall|a: int, b: int| 0 <= a < b < t.len() implies (#[trigger] t[a]).0
        != (#[trigger] t[b]).0 by {
        let a0 = if a < i { a } else { a + 1 };
        let b0 = if b < i { b } else { b + 1 };
        assert(t[a] == rows[a0] && t[b] == rows[b0]);
    }
    assert forall|a: int| 0 <= a < t.len() implies row_wf((#[trigger] t[a]).1) by {
        let a0 = if a < i { a } else { a + 1 };
        assert(t[a] == rows[a0]);
    }
}

/// The view of an adjacency table: each row replaced by its sequence view.
pub open spec fn rows_of(adj: Seq<(u32, Row)>) -> Seq<(u32, Seq<(u32, Option<i32>)>)> {
    adj.map_values(|p: (u32, Row)| (p.0, p.1@))
}

/// Copies one adjacency row.
fn clone_row(row: &Row) -> (r: Row)
    ensures
        r@ == row@,
{
    let mut r: Row = Vec::new();
    let mut j: usize = 0;
    while j < row.len()
        invariant
            j <= row@.len(),
            r@ == row@.subrange(0, j as int),
        decreases row@.len() - j,
    {
        r.push(row[j]);
        proof {
            assert(r@ =~= row@.subrange(0, j + 1));
        }
        j = j + 1;
    }
    proof {
        assert(row@.subrange(0, row@.len() as int) =~= row@);
    }
    r
}

/// Copies a whole adjacency table.
fn clone_adjacency(adj: &Vec<(u32, Row)>) -> (r: Vec<(u32, Row)>)
    ensures
        rows_of(r@) == rows_of(adj@),
        r@.len() == adj@.len(),
{
    let mut r: Vec<(u32, Row)> = Vec::new();
    let mut i: usize = 0;
    while i < adj.len()
        invariant
            i <= adj@.len(),
            r@.len() == i,
            forall|j: int|
                0 <= j < i ==> (#[trigger] r@[j]).0 == adj@[j].0 && r@[j].1@ == adj@[j].1@,
        decreases adj@.len() - i,
    {
        let key = adj[i].0;
        let row = clone_row(&adj[i].1);
        r.push((key, row));
        i = i + 1;
    }
    proof {
        assert(rows_of(r@) =~= rows_of(adj@));
    }
    r
}

/// Indexing commutes with taking the view of an adjacency table.
proof fn lemma_rows_of_index(adj: Seq<(u32, Row)>)
    ensures
        rows_of(adj).len() == adj.len(),
        forall|j: int|
            0 <= j < adj.len() ==> (#[trigger] rows_of(adj)[j]).0 == adj[j].0 && rows_of(
                adj,
            )[j].1 == adj[j].1@,
{
}

pub struct Graph {
    adjacency: Vec<(u32, Row)>,
}

impl Graph {
    /// The adjacency table as a sequence of `(node, row)` pairs.
    pub closed spec fn rows(self) -> Seq<(u32, Seq<(u32, Option<i32>)>)> {
        rows_of(self.adjacency@)
    }

    /// Keys are unique at both levels, so each lookup is decided by the one
    /// pair that carries the key.
    #[verifier::type_invariant]
    pub closed spec fn wf(self) -> bool {
        rows_wf(self.rows())
    }

    /// Whether `n` is a node of the graph.
    pub closed spec fn spec_contains(self, n: u32) -> bool {
        assoc_has(self.rows(), n)
    }

    /// The weight of the directed edge `from -> to`: `None` when the edge is
    /// absent or `from` is unknown.
    pub closed spec fn spec_weight(self, from: u32, to: u32) -> Option<i32> {
        match assoc_get(self.rows(), from) {
            Some(row) => match assoc_get(row, to) {
                Some(w) => w,
                None => None,
            },
            None => None,
        }
    }

    /// Whether the directed edge `from -> to` exists.
    pub open spec fn spec_edge(self, from: u32, to: u32) -> bool {
        self.spec_weight(from, to) is Some
    }

    /// An edge always leaves a known node.
    pub proof fn lemma_edge_source_contained(self, from: u32, to: u32)
        requires
            self.spec_edge(from, to),
        ensures
            self.spec_contains(from),
    {
    }

    /// Creates a graph with the given nodes and no edges. A node named twice
    /// is the same node.
    pub fn new(nodes: Vec<u32>) -> (g: Graph)
        ensures
            forall|n: u32| g.spec_contains(n) <==> nodes@.contains(n),
            forall|f: u32, t: u32| g.spec_weight(f, t) is None,
    {
        let mut g = Graph { adjacency: Vec::new() };
        proof {
            assert(g.rows() =~= Seq::<(u32, Seq<(u32, Option<i32>)>)>::empty());
        }
        let mut i: usize = 0;
        while i < nodes.len()
            invariant
                i <= nodes@.len(),
                forall|n: u32| g.spec_contains(n) <==> nodes@.subrange(0, i as int).contains(n),
                forall|f: u32, t: u32| g.spec_weight(f, t) is None,
            decreases nodes@.len() - i,
        {
            let node = nodes[i];
            let g2 = g.add_node(node);
            proof {
                assert(nodes@.subrange(0, i + 1) =~= nodes@.subrange(0, i as int).push(node));
                assert(forall|n: u32|
                    nodes@.subrange(0, i as int).push(node).contains(n)
                        <==> (nodes@.subrange(0, i as int).contains(n) || n == node));
            }
            g = g2;
            i = i + 1;
        }
        proof {
            assert(nodes@.subrange(0, nodes@.len() as int) =~= nodes@);
        }
        g
    }

    /// Returns a graph that also holds `new_node`. If the node already
    /// existed, its outgoing edges are discarded, as a fresh empty row
    /// replaces the old one.
    pub fn add_node(&self, new_node: u32) -> (g: Graph)
        ensures
            forall|n: u32| g.spec_contains(n) <==> (self.spec_contains(n) || n == new_node),
            forall|f: u32, t: u32|
                g.spec_weight(f, t) == (if f == new_node {
                    None::<i32>
                } else {
                    self.spec_weight(f, t)
                }),
    {
        proof {
            use_type_invariant(self);
        }
        let mut adjacency = clone_adjacency(&self.adjacency);
        let empty_row: Row = Vec::new();
        match find_key(&adjacency, new_node) {
            Some(i) => {
                proof {
                    assert(rows_of(adjacency@) == self.rows());
                    lemma_rows_of_index(adjacency@);
                    assert(self.rows()[i as int].0 == new_node);
                    assert(forall|j: int| 0 <= j < i ==> (#[trigger] self.rows()[j]).0 != new_node);
                }
                adjacency[i] = (new_node, empty_row);
                proof {
                    assert(rows_of(adjacency@) =~= self.rows().update(
                        i as int,
                        (new_node, Seq::<(u32, Option<i32>)>::empty()),
                    ));
                    lemma_rows_wf_update(
                        self.rows(),
                        i as int,
                        Seq::<(u32, Option<i32>)>::empty(),
                    );
                }
                let g = Graph { adjacency };
                proof {
                    assert(g.rows() =~= self.rows().update(
                        i as int,
                        (new_node, Seq::<(u32, Option<i32>)>::empty()),
                    ));
                    assert forall|q: u32|
                        assoc_get(g.rows(), q) == (if q == new_node {
                            Some(Seq::<(u32, Option<i32>)>::empty())
                        } else {
                            assoc_get(self.rows(), q)
                        }) by {
                        lemma_assoc_get_update(
                            self.rows(),
                            i as int,
                            Seq::<(u32, Option<i32>)>::empty(),
                            q,
                        );
                    }
                }
                g
            }
            None => {
                proof {
                    assert(rows_of(adjacency@) == self.rows());
                    lemma_rows_of_index(adjacency@);
                    assert(forall|j: int|
                        0 <= j < self.rows().len() ==> (#[trigger] self.rows()[j]).0 != new_node);
                }
                adjacency.push((new_node, empty_row));
                proof {
                    assert(rows_of(adjacency@) =~= self.rows().push(
                        (new_node, Seq::<(u32, Option<i32>)>::empty()),
                    ));
                    lemma_rows_wf_push(
                        self.rows(),
                        new_node,
                        Seq::<(u32, Option<i32>)>::empty(),
                    );
                }
                let g = Graph { adjacency };
                proof {
                    assert(g.rows() =~= self.rows().push(
                        (new_node, Seq::<(u32, Option<i32>)>::empty()),
                    ));
                    assert forall|q: u32|
                        assoc_get(g.rows(), q) == (if assoc_has(self.rows(), q) {
                            assoc_get(self.rows(), q)
                        } else if q == new_node {
                            Some(Seq::<(u32, Option<i32>)>::empty())
                        } else {
                            None::<Seq<(u32, Option<i32>)>>
                        }) by {
                        lemma_assoc_get_push(
                            self.rows(),
                            new_node,
                            Seq::<(u32, Option<i32>)>::empty(),
                            q,
                        );
                    }
                    lemma_assoc_get_absent(self.rows(), new_node);
                }
                g
            }
        }
    }

    /// Returns a graph where the directed edge `from -> to` carries `weight`;
    /// when `from` is unknown the graph comes back unchanged.
    pub fn add_edge(&self, from: u32, to: u32, weight: Option<i32>) -> (g: Graph)
        ensures
            forall|n: u32| g.spec_contains(n) <==> self.spec_contains(n),
            forall|f: u32, t: u32|
                g.spec_weight(f, t) == (if f == from && t == to && self.spec_contains(from) {
                    weight
                } else {
                    self.spec_weight(f, t)
                }),
    {
        proof {
            use_type_invariant(self);
        }
        match find_key(&self.adjacency, from) {
            Some(i) => {
                proof {
                    lemma_rows_of_index(self.adjacency@);
                    assert(self.rows()[i as int].0 == from);
                    assert(forall|j: int| 0 <= j < i ==> (#[trigger] self.rows()[j]).0 != from);
                    lemma_assoc_get_first(self.rows(), from, i as int);
                }
                let ghost old_row_view = self.rows()[i as int].1;
                let mut row = clone_row(&self.adjacency[i].1);
                proof {
                    assert(row@ == old_row_view);
                    assert(row_wf(old_row_view));
                }
                match find_key(&row, to) {
                    Some(j) => {
                        row[j] = (to, weight);
                        proof {
                            assert(row@ =~= old_row_view.update(j as int, (to, weight)));
                            assert(row_wf(row@));
                            assert forall|q: u32|
                                assoc_get(row@, q) == (if q == to {
                                    Some(weight)
                                } else {
                                    assoc_get(old_row_view, q)
                                }) by {
                                lemma_assoc_get_update(old_row_view, j as int, weight, q);
                            }
                        }
                    }
                    None => {
                        proof {
                            lemma_row_wf_push(old_row_view, to, weight);
                        }
                        row.push((to, weight));
                        proof {
                            assert(row@ =~= old_row_view.push((to, weight)));
                            assert(row_wf(row@));
                            assert forall|q: u32|
                                assoc_get(row@, q) == (if assoc_has(old_row_view, q) {
                                    assoc_get(old_row_view, q)
                                } else if q == to {
                                    Some(weight)
                                } else {
                                    None::<Option<i32>>
                                }) by {
                                lemma_assoc_get_push(old_row_view, to, weight, q);
                            }
                            lemma_assoc_get_absent(old_row_view, to);
                        }
                    }
                }
                let ghost new_row_view = row@;
                let mut adjacency = clone_adjacency(&self.adjacency);
                proof {
                    assert(rows_of(adjacency@) == self.rows());
                }
                adjacency[i] = (from, row);
                proof {
                    assert(rows_of(adjacency@) =~= self.rows().update(
                        i as int,
                        (from, new_row_view),
                    ));
                    lemma_rows_wf_update(self.rows(), i as int, new_row_view);
                }
                let g = Graph { adjacency };
                proof {
                    assert(g.rows() =~= self.rows().update(i as int, (from, new_row_view)));
                    assert forall|q: u32|
                        assoc_get(g.rows(), q) == (if q == from {
                            Some(new_row_view)
                        } else {
                            assoc_get(self.rows(), q)
                        }) by {
                        lemma_assoc_get_update(self.rows(), i as int, new_row_view, q);
                    }
                }
                g
            }
            None => {
                let adjacency = clone_adjacency(&self.adjacency);
                let g = Graph { adjacency };
                proof {
                    assert(g.rows() =~= self.rows());
                    lemma_assoc_get_absent(self.rows(), from);
                }
                g
            }
        }
    }

    /// Applies `add_edge` in both directions with the same weight.
    pub fn add_undirected_edge(&self, from: u32, to: u32, weight: Option<i32>) -> (g: Graph)
        ensures
            forall|n: u32| g.spec_contains(n) <==> self.spec_contains(n),
            forall|f: u32, t: u32|
                g.spec_weight(f, t) == (if f == from && t == to && self.spec_contains(from) {
                    weight
                } else if f == to && t == from && self.spec_contains(to) {
                    weight
                } else {
                    self.spec_weight(f, t)
                }),
    {
        self.add_edge(from, to, weight).add_edge(to, from, weight)
    }

    /// Whether `target_node` is a node of the graph.
    pub fn contains(&self, target_node: u32) -> (r: bool)
        ensures
            r == self.spec_contains(target_node),
    {
        proof {
            use_type_invariant(self);
        }
        match find_key(&self.adjacency, target_node) {
            Some(i) => {
                proof {
                    lemma_rows_of_index(self.adjacency@);
                    lemma_assoc_get_first(self.rows(), target_node, i as int);
                }
                true
            }
            None => {
                proof {
                    lemma_rows_of_index(self.adjacency@);
                    lemma_assoc_get_absent(self.rows(), target_node);
                }
                false
            }
        }
    }

    /// Returns a graph without `target_node`. Edges of other nodes that point
    /// at the removed node are left in place.
    pub fn remove_node(&self, target_node: u32) -> (g: Graph)
        ensures
            forall|n: u32| g.spec_contains(n) <==> (self.spec_contains(n) && n != target_node),
            forall|f: u32, t: u32|
                g.spec_weight(f, t) == (if f == target_node {
                    None::<i32>
                } else {
                    self.spec_weight(f, t)
                }),
    {
        proof {
            use_type_invariant(self);
        }
        let mut adjacency = clone_adjacency(&self.adjacency);
        match find_key(&adjacency, target_node) {
            Some(i) => {
                proof {
                    assert(rows_of(adjacency@) == self.rows());
                    lemma_rows_of_index(adjacency@);
                    assert(self.rows()[i as int].0 == target_node);
                }
                adjacency.remove(i);
                proof {
                    assert(rows_of(adjacency@) =~= self.rows().remove(i as int));
                    lemma_rows_wf_remove(self.rows(), i as int);
                }
                let g = Graph { adjacency };
                proof {
                    assert(g.rows() =~= self.rows().remove(i as int));
                    assert forall|q: u32|
                        assoc_get(g.rows(), q) == (if q == target_node {
                            None::<Seq<(u32, Option<i32>)>>
                        } else {
                            assoc_get(self.rows(), q)
                        }) by {
                        lemma_assoc_get_remove(self.rows(), i as int, q);
                    }
                }
                g
            }
            None => {
                let g = Graph { adjacency };
                proof {
                    assert(g.rows() =~= self.rows());
                    lemma_assoc_get_absent(self.rows(), target_node);
                }
                g
            }
        }
    }

    /// The nodes reachable from `node` by one existing edge, without
    /// duplicates; `None` when `node` is unknown.
    pub fn neighbours_of(&self, node: u32) -> (r: Option<Vec<u32>>)
        ensures
            r is Some <==> self.spec_contains(node),
            match r {
                Some(v) => (forall|t: u32| v@.contains(t) <==> self.spec_edge(node, t))
                    && v@.no_duplicates(),
                None => true,
            },
    {
        proof {
            use_type_invariant(self);
        }
        match find_key(&self.adjacency, node) {
            Some(i) => {
                proof {
                    lemma_rows_of_index(self.adjacency@);
                    lemma_assoc_get_first(self.rows(), node, i as int);
                }
                let row = &self.adjacency[i].1;
                let ghost row_view = self.rows()[i as int].1;
                proof {
                    assert(row@ == row_view);
                }
                let mut out: Vec<u32> = Vec::new();
                let mut j: usize = 0;
                while j < row.len()
                    invariant
                        j <= row_view.len(),
                        row@ == row_view,
                        forall|a: int, b: int|
                            0 <= a < b < row_view.len()
                                ==> (#[trigger] row_view[a]).0 != (#[trigger] row_view[b]).0,
                        forall|t: u32|
                            out@.contains(t) <==> exists|a: int|
                                0 <= a < j && (#[trigger] row_view[a]).0 == t
                                    && row_view[a].1 is Some,
                        out@.no_duplicates(),
                    decreases row_view.len() - j,
                {
                    let (t, w) = row[j];
                    if w.is_some() {
                        proof {
                            if out@.contains(t) {
                                let a = choose|a: int|
                                    0 <= a < j && (#[trigger] row_view[a]).0 == t
                                        && row_view[a].1 is Some;
                                assert(row_view[a].0 == row_view[j as int].0);
                                assert(false);
                            }
                        }
                        out.push(t);
                        proof {
                            assert forall|t2: u32| out@.contains(t2) implies exists|a: int|
                                0 <= a < j + 1 && (#[trigger] row_view[a]).0 == t2
                                    && row_view[a].1 is Some by {
                                if t2 == t {
                                    assert(row_view[j as int].0 == t2
                                        && row_view[j as int].1 is Some);
                                }
                            }
                        }
                    }
                    j = j + 1;
                }
                proof {
                    assert forall|t: u32| out@.contains(t) implies self.spec_edge(node, t) by {
                        let a = choose|a: int|
                            0 <= a < row_view.len() && (#[trigger] row_view[a]).0 == t
                                && row_view[a].1 is Some;
                        lemma_assoc_get_first(row_view, t, a);
                    }
                    assert forall|t: u32| self.spec_edge(node, t) implies out@.contains(t) by {
                        lemma_assoc_some_index(row_view, t);
                    }
                }
                Some(out)
            }
            None => {
                proof {
                    lemma_rows_of_index(self.adjacency@);
                    lemma_assoc_get_absent(self.rows(), node);
                }
                None
            }
        }
    }

    /// The weight of the directed edge `from -> to`: `None` when the edge is
    /// absent or `from` is unknown.
    pub fn weight_of(&self, from: u32, to: u32) -> (r: Option<i32>)
        ensures
            r == self.spec_weight(from, to),
    {
        proof {
            use_type_invariant(self);
        }
        match find_key(&self.adjacency, from) {
            Some(i) => {
                proof {
                    lemma_rows_of_index(self.adjacency@);
                    lemma_assoc_get_first(self.rows(), from, i as int);
                }
                let row = &self.adjacency[i].1;
                proof {
                    assert(row@ == self.rows()[i as int].1);
                }
                match find_key(row, to) {
                    Some(j) => {
                        proof {
                            lemma_assoc_get_first(self.rows()[i as int].1, to, j as int);
                        }
                        row[j].1
                    }
                    None => {
                        proof {
                            lemma_assoc_get_absent(self.rows()[i as int].1, to);
                        }
                        None
                    }
                }
            }
            None => {
                proof {
                    lemma_rows_of_index(self.adjacency@);
                    lemma_assoc_get_absent(self.rows(), from);
                }
                None
            }
        }
    }

    /// An identical copy: same nodes, same edges, same weights.
    pub fn duplicate(&self) -> (g: Graph)
        ensures
            forall|n: u32| g.spec_contains(n) <==> self.spec_contains(n),
            forall|f: u32, t: u32| g.spec_weight(f, t) == self.spec_weight(f, t),
    {
        proof {
            use_type_invariant(self);
        }
        let g = Graph { adjacency: clone_adjacency(&self.adjacency) };
        proof {
            assert(g.rows() == self.rows());
        }
        g
    }

    /// A walk along existing edges, written as the sequence of nodes it
    /// visits.
    pub open spec fn is_path(self, p: Seq<u32>) -> bool {
        p.len() >= 1 && (forall|i: int|
            0 <= i < p.len() - 1 ==> self.spec_edge(#[trigger] p[i], p[i + 1]))
    }

    /// The total weight of a path, summed edge by edge.
    pub open spec fn path_weight(self, p: Seq<u32>) -> int
        decreases p.len(),
    {
        if p.len() <= 1 {
            0
        } else {
            self.spec_weight(p[0], p[1]).unwrap() + self.path_weight(
                p.subrange(1, p.len() as int),
            )
        }
    }

    /// Whether some path leads from `a` to `b`.
    pub open spec fn spec_connected(self, a: u32, b: u32) -> bool {
        exists|p: Seq<u32>| self.is_path(p) && p.first() == a && p.last() == b
    }

    /// Every edge ends at a known node; traversal visits only known nodes
    /// then.
    pub open spec fn spec_closed(self) -> bool {
        forall|f: u32, t: u32| #[trigger] self.spec_edge(f, t) ==> self.spec_contains(t)
    }

    /// The predecessor table a traversal builds: every entry records a real
    /// edge, chains back to `start` through earlier entries, and no node but
    /// `start` appears twice or at all as `start`.
    spec fn came_from_wf(self, cf: Seq<(u32, u32)>, start: u32) -> bool {
        &&& (forall|k: int| 0 <= k < cf.len() ==> self.spec_edge((#[trigger] cf[k]).1, cf[k].0))
        &&& (forall|k: int|
            0 <= k < cf.len() ==> ((#[trigger] cf[k]).1 == start || exists|m: int|
                0 <= m < k && (#[trigger] cf[m]).0 == cf[k].1))
        &&& (forall|k: int, m: int|
            0 <= k < m < cf.len() ==> (#[trigger] cf[k]).0 != (#[trigger] cf[m]).0)
        &&& (forall|k: int| 0 <= k < cf.len() ==> (#[trigger] cf[k]).0 != start)
        &&& (forall|k: int| 0 <= k < cf.len() ==> self.spec_contains((#[trigger] cf[k]).0))
    }

    /// Discovery depths for a traversal: `start` sits at depth zero, every
    /// recorded node one step deeper than its predecessor, and nothing but
    /// `start` and the recorded nodes carries a depth.
    spec fn depth_wf(self, cf: Seq<(u32, u32)>, depth: Map<u32, int>, start: u32) -> bool {
        &&& depth.contains_key(start)
        &&& depth[start] == 0
        &&& (forall|x: u32| #[trigger] depth.contains_key(x) ==> depth[x] >= 0)
        &&& (forall|k: int|
            0 <= k < cf.len() ==> depth.contains_key((#[trigger] cf[k]).0) && depth.contains_key(
                cf[k].1,
            ) && depth[cf[k].0] == depth[cf[k].1] + 1)
        &&& (forall|x: u32| #[trigger] depth.contains_key(x) ==> x == start || assoc_has(cf, x))
    }

    /// Walking any path from `start` meets the traversal's frontier: the
    /// path's end is already settled within the path's own hop count, or
    /// some queued node sits within it.
    proof fn lemma_queue_bound_along_path(
        self,
        p: Seq<u32>,
        vs: Seq<u32>,
        qs: Seq<u32>,
        depth: Map<u32, int>,
        start: u32,
    )
        requires
            self.is_path(p),
            p.first() == start,
            vs.contains(start),
            depth.contains_key(start),
            depth[start] == 0,
            forall|x: u32| vs.contains(x) ==> depth.contains_key(x),
            forall|u: u32, y: u32|
                vs.contains(u) && self.spec_edge(u, y) ==> depth.contains_key(y) && depth[y]
                    <= depth[u] + 1 && (vs.contains(y) || qs.contains(y)),
        ensures
            (vs.contains(p.last()) && depth[p.last()] <= p.len() - 1) || (exists|y: u32|
                #[trigger] qs.contains(y) && depth[y] <= p.len() - 1),
        decreases p.len(),
    {
        if p.len() > 1 {
            let pre = p.drop_last();
            assert(pre.first() == p.first());
            assert forall|i: int|
                0 <= i < pre.len() - 1 implies self.spec_edge(#[trigger] pre[i], pre[i + 1]) by {
                assert(pre[i] == p[i] && pre[i + 1] == p[i + 1]);
            }
            self.lemma_queue_bound_along_path(pre, vs, qs, depth, start);
            assert(self.spec_edge(p[p.len() - 2], p[p.len() - 1]));
            if vs.contains(pre.last()) && depth[pre.last()] <= pre.len() - 1 {
                assert(pre.last() == p[p.len() - 2]);
                assert(depth[p.last()] <= depth[p[p.len() - 2]] + 1);
            } else {
                let y = choose|y: u32| #[trigger] qs.contains(y) && depth[y] <= pre.len() - 1;
                assert(qs.contains(y) && depth[y] <= p.len() - 1);
            }
        }
    }

    /// Walks the predecessor chain from `target` back to `start` and sums the
    /// weights of the edges along it. The walked path's hop count is exactly
    /// `target`'s recorded depth.
    fn find_path_length_in_came_from(
        &self,
        start: u32,
        target: u32,
        came_from: &Vec<(u32, u32)>,
        depth: Ghost<Map<u32, int>>,
    ) -> (total: i128)
        requires
            self.came_from_wf(came_from@, start),
            target == start || assoc_has(came_from@, target),
            self.depth_wf(came_from@, depth@, start),
        ensures
            exists|p: Seq<u32>|
                self.is_path(p) && p.first() == start && p.last() == target
                    && self.path_weight(p) == total as int && p.len() == depth@[target] + 1
                    && (forall|i: int|
                    1 <= i < p.len() ==> assoc_get(came_from@, #[trigger] p[i]) == Some(
                        p[i - 1],
                    )),
    {
        let cf_n = came_from.len();
        proof {
            assert(came_from@.len() == cf_n);
        }
        let mut curr = target;
        let mut total: i128 = 0;
        let ghost mut path: Seq<u32> = seq![target];
        let ghost mut cur_idx: int = -1;
        proof {
            if target != start {
                lemma_assoc_has_index(came_from@, target);
                cur_idx = choose|k: int|
                    0 <= k < came_from@.len() && (#[trigger] came_from@[k]).0 == target;
                assert(came_from@[cur_idx].0 == target);
                assert(depth@.contains_key(target));
            }
        }
        while curr != start
            invariant
                came_from@.len() == cf_n,
                self.came_from_wf(came_from@, start),
                curr == start || (0 <= cur_idx < came_from@.len()
                    && came_from@[cur_idx].0 == curr),
                self.is_path(path),
                path.first() == curr,
                path.last() == target,
                self.path_weight(path) == total as int,
                self.depth_wf(came_from@, depth@, start),
                depth@.contains_key(curr),
                depth@.contains_key(target),
                path.len() == depth@[target] - depth@[curr] + 1,
                forall|i: int|
                    1 <= i < path.len() ==> assoc_get(came_from@, #[trigger] path[i]) == Some(
                        path[i - 1],
                    ),
                curr != start ==> -0x8000_0000int * (came_from@.len() - cur_idx) <= total as int
                    <= 0x8000_0000int * (came_from@.len() - cur_idx),
                curr == start ==> -0x8000_0000int * (came_from@.len() + 1) <= total as int
                    <= 0x8000_0000int * (came_from@.len() + 1),
            decreases cur_idx + 1,
        {
            let ghost prev_idx = cur_idx;
            let k = match find_key(came_from, curr) {
                Some(k) => k,
                None => {
                    proof {
                        assert(false);
                    }
                    0
                }
            };
            proof {
                assert(k as int == cur_idx);
                lemma_assoc_get_first(came_from@, curr, k as int);
                assert(depth@.contains_key(came_from@[k as int].1));
                assert(depth@[came_from@[k as int].0] == depth@[came_from@[k as int].1] + 1);
            }
            let pred = came_from[k].1;
            let w = match self.weight_of(pred, curr) {
                Some(w) => w,
                None => {
                    proof {
                        assert(false);
                    }
                    0
                }
            };
            proof {
                let oldpath = path;
                path = seq![pred] + path;
                assert(path[0] == pred);
                assert(path.subrange(1, path.len() as int) =~= oldpath);
                assert forall|i: int|
                    0 <= i < path.len() - 1 implies self.spec_edge(
                    #[trigger] path[i],
                    path[i + 1],
                ) by {
                    if i == 0 {
                        assert(path[1] == oldpath[0]);
                    } else {
                        assert(path[i] == oldpath[i - 1] && path[i + 1] == oldpath[i]);
                    }
                }
                assert(self.path_weight(path) == w + self.path_weight(oldpath));
                assert forall|i: int|
                    1 <= i < path.len() implies assoc_get(came_from@, #[trigger] path[i]) == Some(
                    path[i - 1],
                ) by {
                    if i == 1 {
                        assert(path[1] == curr && path[0] == pred);
                    } else {
                        assert(path[i] == oldpath[i - 1] && path[i - 1] == oldpath[i - 2]);
                    }
                }
                if pred != start {
                    let m = choose|m: int|
                        0 <= m < prev_idx && (#[trigger] came_from@[m]).0 == came_from@[
                            prev_idx
                        ].1;
                    cur_idx = m;
                } else {
                    cur_idx = -1;
                }
            }
            total = total + (w as i128);
            curr = pred;
        }
        proof {
            assert(path.first() == start);
        }
        total
    }

    /// Recording one fresh neighbour preserves the predecessor table's and
    /// the depth table's well-formedness.
    #[verifier::rlimit(40)]
    proof fn lemma_record_neighbour(
        self,
        cf0: Seq<(u32, u32)>,
        cf1: Seq<(u32, u32)>,
        dpre: Map<u32, int>,
        dmap: Map<u32, int>,
        node: u32,
        curr: u32,
        start: u32,
        cd: int,
    )
        requires
            self.came_from_wf(cf0, start),
            self.depth_wf(cf0, dpre, start),
            self.spec_edge(curr, node),
            self.spec_contains(node),
            curr == start || assoc_has(cf0, curr),
            dpre.contains_key(curr),
            dpre[curr] == cd,
            forall|j: int| 0 <= j < cf0.len() ==> (#[trigger] cf0[j]).0 != node,
            !dpre.contains_key(node),
            node != start,
            cf1 == cf0.push((node, curr)),
            dmap == dpre.insert(node, cd + 1),
        ensures
            self.came_from_wf(cf1, start),
            self.depth_wf(cf1, dmap, start),
            forall|x: u32| assoc_has(cf1, x) == (assoc_has(cf0, x) || x == node),
            forall|x: u32|
                #[trigger] dpre.contains_key(x) ==> dmap.contains_key(x) && dmap[x] == dpre[x],
    {
        assert(forall|k: int| 0 <= k < cf0.len() ==> cf1[k] == cf0[k]);
        assert(cf1[cf0.len() as int] == (node, curr));
        assert forall|x: u32| assoc_has(cf1, x) == (assoc_has(cf0, x) || x == node) by {
            lemma_assoc_get_push(cf0, node, curr, x);
        }
        assert forall|k: int|
            0 <= k < cf1.len() implies self.spec_edge((#[trigger] cf1[k]).1, cf1[k].0) by {
            if k < cf0.len() {
                assert(cf1[k] == cf0[k]);
            }
        }
        assert forall|k: int|
            0 <= k < cf1.len() implies ((#[trigger] cf1[k]).1 == start || exists|m: int|
                0 <= m < k && (#[trigger] cf1[m]).0 == cf1[k].1) by {
            if k < cf0.len() {
                assert(cf1[k] == cf0[k]);
                if cf0[k].1 != start {
                    let m = choose|m: int| 0 <= m < k && (#[trigger] cf0[m]).0 == cf0[k].1;
                    assert(cf1[m].0 == cf1[k].1);
                }
            } else {
                if curr != start {
                    lemma_assoc_has_index(cf0, curr);
                    let m = choose|m: int|
                        0 <= m < cf0.len() && (#[trigger] cf0[m]).0 == curr;
                    assert(cf1[m].0 == cf1[k].1);
                }
            }
        }
        assert forall|k: int, m: int|
            0 <= k < m < cf1.len() implies (#[trigger] cf1[k]).0 != (#[trigger] cf1[m]).0 by {
            if m < cf0.len() {
                assert(cf1[k] == cf0[k] && cf1[m] == cf0[m]);
            } else {
                assert(cf1[k] == cf0[k] && cf1[m] == (node, curr));
            }
        }
        assert forall|k: int| 0 <= k < cf1.len() implies (#[trigger] cf1[k]).0 != start by {
            if k < cf0.len() {
                assert(cf1[k] == cf0[k]);
            } else {
                assert(cf1[k].0 == node);
            }
        }
        assert forall|k: int|
            0 <= k < cf1.len() implies self.spec_contains((#[trigger] cf1[k]).0) by {
            if k < cf0.len() {
                assert(cf1[k] == cf0[k]);
            } else {
                assert(cf1[k].0 == node);
            }
        }
        assert(self.came_from_wf(cf1, start));
        assert(node != curr);
        assert forall|k: int|
            0 <= k < cf1.len() implies dmap.contains_key((#[trigger] cf1[k]).0)
            && dmap.contains_key(cf1[k].1) && dmap[cf1[k].0] == dmap[cf1[k].1] + 1 by {
            if k < cf0.len() {
                assert(cf1[k] == cf0[k]);
                assert(cf0[k].0 != node);
                if cf0[k].1 != start {
                    let m = choose|m: int| 0 <= m < k && (#[trigger] cf0[m]).0 == cf0[k].1;
                    assert(cf0[m].0 != node);
                }
                assert(cf0[k].1 != node);
                assert(dpre.contains_key(cf0[k].0) && dpre.contains_key(cf0[k].1));
            } else {
                assert(cf1[k] == (node, curr));
            }
        }
        assert forall|x: u32| #[trigger] dmap.contains_key(x) implies x == start || assoc_has(
            cf1,
            x,
        ) by {
            if x != node {
                assert(dpre.contains_key(x));
            }
        }
        assert(self.depth_wf(cf1, dmap, start));
    }

    /// Records every neighbour of `curr` not yet seen: it enters the queue
    /// with `curr` as its predecessor.
    #[verifier::rlimit(40)]
    fn enqueue_neighbours(
        &self,
        curr: u32,
        start: u32,
        visited: &Vec<u32>,
        need_visit: &mut VecDeque<u32>,
        came_from: &mut Vec<(u32, u32)>,
        depth_in: Ghost<Map<u32, int>>,
        curr_depth: Ghost<int>,
    ) -> (depth_out: Ghost<Map<u32, int>>)
        requires
            self.spec_closed(),
            self.spec_contains(curr),
            curr == start || assoc_has(old(came_from)@, curr),
            self.came_from_wf(old(came_from)@, start),
            self.depth_wf(old(came_from)@, depth_in@, start),
            depth_in@.contains_key(curr),
            depth_in@[curr] == curr_depth@,
            forall|x: u32| old(need_visit)@.contains(x) ==> assoc_has(old(came_from)@, x),
            forall|x: u32|
                #[trigger] old(need_visit)@.contains(x) ==> depth_in@.contains_key(x)
                    && curr_depth@ <= depth_in@[x] <= curr_depth@ + 1,
            forall|x: u32|
                #[trigger] visited@.contains(x) ==> depth_in@.contains_key(x) && depth_in@[x]
                    <= curr_depth@,
            forall|x: u32|
                assoc_has(old(came_from)@, x)
                    ==> visited@.contains(x) || old(need_visit)@.contains(x) || x == curr,
            visited@.contains(start),
        ensures
            self.came_from_wf(final(came_from)@, start),
            self.depth_wf(final(came_from)@, depth_out@, start),
            forall|x: u32|
                #[trigger] depth_in@.contains_key(x) ==> depth_out@.contains_key(x)
                    && depth_out@[x] == depth_in@[x],
            forall|x: u32| final(need_visit)@.contains(x) ==> assoc_has(final(came_from)@, x),
            forall|x: u32|
                assoc_has(final(came_from)@, x)
                    ==> visited@.contains(x) || final(need_visit)@.contains(x) || x == curr,
            forall|x: u32| old(need_visit)@.contains(x) ==> final(need_visit)@.contains(x),
            final(need_visit)@.len() >= old(need_visit)@.len(),
            forall|i: int|
                0 <= i < old(need_visit)@.len() ==> final(need_visit)@[i] == old(need_visit)@[i],
            forall|i: int|
                old(need_visit)@.len() <= i < final(need_visit)@.len()
                    ==> depth_out@.contains_key(#[trigger] final(need_visit)@[i])
                        && depth_out@[final(need_visit)@[i]] == curr_depth@ + 1,
            forall|y: u32|
                self.spec_edge(curr, y)
                    ==> visited@.contains(y) || final(need_visit)@.contains(y) || y == curr,
            forall|y: u32|
                self.spec_edge(curr, y) ==> depth_out@.contains_key(y) && depth_out@[y]
                    <= curr_depth@ + 1,
            final(came_from)@.len() >= old(came_from)@.len(),
            final(came_from)@.len() <= self.rows().len(),
            final(came_from)@.len() == old(came_from)@.len()
                ==> final(need_visit)@ == old(need_visit)@,
    {
        let ghost mut dmap = depth_in@;
        proof {
            use_type_invariant(self);
            lemma_unique_keys_len(came_from@, self.rows());
        }
        let neighbours = match self.neighbours_of(curr) {
            Some(v) => v,
            None => {
                proof {
                    assert(false);
                }
                Vec::new()
            }
        };
        let mut ni: usize = 0;
        while ni < neighbours.len()
            invariant
                ni <= neighbours@.len(),
                self.spec_closed(),
                self.spec_contains(curr),
                curr == start || assoc_has(came_from@, curr),
                rows_wf(self.rows()),
                forall|t: u32| neighbours@.contains(t) <==> self.spec_edge(curr, t),
                self.came_from_wf(came_from@, start),
                forall|x: u32| need_visit@.contains(x) ==> assoc_has(came_from@, x),
                forall|x: u32|
                    assoc_has(came_from@, x) ==> visited@.contains(x) || need_visit@.contains(x)
                        || x == curr,
                forall|x: u32|
                    old(need_visit)@.contains(x) ==> need_visit@.contains(x),
                self.depth_wf(came_from@, dmap, start),
                dmap.contains_key(curr),
                dmap[curr] == curr_depth@,
                forall|x: u32|
                    #[trigger] depth_in@.contains_key(x) ==> dmap.contains_key(x) && dmap[x]
                        == depth_in@[x],
                forall|x: u32|
                    #[trigger] visited@.contains(x) ==> dmap.contains_key(x) && dmap[x]
                        <= curr_depth@,
                forall|x: u32|
                    #[trigger] old(need_visit)@.contains(x) ==> dmap.contains_key(x)
                        && curr_depth@ <= dmap[x] <= curr_depth@ + 1,
                need_visit@.len() >= old(need_visit)@.len(),
                forall|i: int|
                    0 <= i < old(need_visit)@.len() ==> need_visit@[i] == old(need_visit)@[i],
                forall|i: int|
                    old(need_visit)@.len() <= i < need_visit@.len() ==> dmap.contains_key(
                        #[trigger] need_visit@[i],
                    ) && dmap[need_visit@[i]] == curr_depth@ + 1,
                forall|j: int|
                    0 <= j < ni ==> visited@.contains(#[trigger] neighbours@[j])
                        || need_visit@.contains(neighbours@[j]) || assoc_has(
                        came_from@,
                        neighbours@[j],
                    ),
                forall|j: int|
                    0 <= j < ni ==> dmap.contains_key(#[trigger] neighbours@[j]) && dmap[
                        neighbours@[j]
                    ] <= curr_depth@ + 1,
                visited@.contains(start),
                came_from@.len() >= old(came_from)@.len(),
                came_from@.len() <= self.rows().len(),
                came_from@.len() == old(came_from)@.len() ==> need_visit@ == old(need_visit)@,
            decreases neighbours@.len() - ni,
        {
            let node = neighbours[ni];
            proof {
                assert(neighbours@.contains(node));
            }
            let in_visited = vec_contains_u32(visited, node);
            let in_queue = deque_contains_u32(need_visit, node);
            let in_came_from = match find_key(came_from, node) {
                Some(ix) => {
                    proof {
                        lemma_assoc_get_first(came_from@, node, ix as int);
                    }
                    true
                }
                None => false,
            };
            if !in_visited && !in_queue && !in_came_from {
                let ghost dpre = dmap;
                proof {
                    lemma_assoc_get_absent(came_from@, node);
                    assert(!dpre.contains_key(node));
                    dmap = dpre.insert(node, curr_depth@ + 1);
                }
                let ghost cf0 = came_from@;
                let ghost q0 = need_visit@;
                need_visit.push_back(node);
                came_from.push((node, curr));
                proof {
                    let cf1 = came_from@;
                    assert(cf1 == cf0.push((node, curr)));
                    assert(need_visit@ == q0.push(node));
                    assert(need_visit@[q0.len() as int] == node);
                    assert(need_visit@.contains(node));
                    assert(self.spec_edge(curr, node));
                    assert(node != start);
                    self.lemma_record_neighbour(
                        cf0,
                        cf1,
                        dpre,
                        dmap,
                        node,
                        curr,
                        start,
                        curr_depth@,
                    );
                    lemma_unique_keys_len(came_from@, self.rows());
                }
            } else {
                proof {
                    if in_visited {
                        assert(dmap.contains_key(node) && dmap[node] <= curr_depth@);
                    } else if in_queue {
                        let qi = choose|qi: int|
                            0 <= qi < need_visit@.len() && need_visit@[qi] == node;
                        if qi < old(need_visit)@.len() {
                            assert(old(need_visit)@.contains(node));
                        }
                        assert(dmap.contains_key(node) && dmap[node] <= curr_depth@ + 1);
                    } else {
                        assert(assoc_has(came_from@, node));
                        assert(node == curr || visited@.contains(node)
                            || need_visit@.contains(node));
                    }
                    assert(dmap.contains_key(node) && dmap[node] <= curr_depth@ + 1);
                }
            }
            ni = ni + 1;
        }
        proof {
            assert forall|y: u32|
                self.spec_edge(curr, y) implies visited@.contains(y) || need_visit@.contains(y)
                || y == curr by {
                let j = choose|j: int| 0 <= j < neighbours@.len() && neighbours@[j] == y;
                if !visited@.contains(y) && !need_visit@.contains(y) {
                    assert(assoc_has(came_from@, y));
                }
            }
            assert forall|y: u32|
                self.spec_edge(curr, y) implies dmap.contains_key(y) && dmap[y] <= curr_depth@
                + 1 by {
                let j = choose|j: int| 0 <= j < neighbours@.len() && neighbours@[j] == y;
                assert(dmap.contains_key(neighbours@[j]));
            }
        }
        Ghost(dmap)
    }

    /// A breadth-first search from `start`: the first discovery of `target`
    /// fixes a path of minimal hop count, whose exact edge-weight sum is
    /// returned; that sum is not the minimum weight over all paths. `None`
    /// means no path exists, or the found path's weight does not fit an
    /// `i32`.
    pub fn dfs(&self, start: u32, target: u32) -> (r: Option<i32>)
        requires
            self.spec_closed(),
            self.spec_contains(start),
        ensures
            start == target ==> r == Some(0i32),
            match r {
                Some(w) => self.spec_connected(start, target) && (exists|p: Seq<u32>|
                    self.is_path(p) && p.first() == start && p.last() == target
                        && self.path_weight(p) == w as int && (forall|q: Seq<u32>|
                        self.is_path(q) && q.first() == start && q.last() == target ==> q.len()
                            >= p.len())),
                None => !self.spec_connected(start, target) || (exists|p: Seq<u32>|
                    self.is_path(p) && p.first() == start && p.last() == target && !(
                    i32::MIN <= self.path_weight(p) <= i32::MAX) && (forall|q: Seq<u32>|
                        self.is_path(q) && q.first() == start && q.last() == target ==> q.len()
                            >= p.len())),
            },
    {
        if start == target {
            proof {
                let p = seq![start];
                assert(self.is_path(p) && p.first() == start && p.last() == target
                    && self.path_weight(p) == 0);
                assert(forall|q: Seq<u32>|
                    self.is_path(q) && q.first() == start && q.last() == target ==> q.len()
                        >= p.len());
            }
            return Some(0);
        }
        let mut visited: Vec<u32> = Vec::new();
        visited.push(start);
        let mut need_visit: VecDeque<u32> = VecDeque::new();
        let mut came_from: Vec<(u32, u32)> = Vec::new();
        let ghost mut dmap: Map<u32, int> = Map::empty().insert(start, 0int);
        proof {
            assert(visited@.contains(start));
            assert(self.depth_wf(came_from@, dmap, start));
        }
        let d0 = self.enqueue_neighbours(
            start,
            start,
            &visited,
            &mut need_visit,
            &mut came_from,
            Ghost(dmap),
            Ghost(0int),
        );
        proof {
            dmap = d0@;
        }
        while need_visit.len() > 0
            invariant
                self.spec_closed(),
                self.spec_contains(start),
                start != target,
                self.came_from_wf(came_from@, start),
                self.depth_wf(came_from@, dmap, start),
                forall|x: u32| need_visit@.contains(x) ==> assoc_has(came_from@, x),
                forall|x: u32|
                    assoc_has(came_from@, x) ==> visited@.contains(x)
                        || need_visit@.contains(x),
                forall|v: u32, y: u32|
                    visited@.contains(v) && self.spec_edge(v, y) ==> visited@.contains(y)
                        || need_visit@.contains(y),
                forall|v: u32, y: u32|
                    visited@.contains(v) && self.spec_edge(v, y) ==> dmap.contains_key(y)
                        && dmap[y] <= dmap[v] + 1,
                forall|x: u32| visited@.contains(x) ==> dmap.contains_key(x),
                forall|i: int, j: int|
                    0 <= i <= j < need_visit@.len() ==> dmap.contains_key(
                        #[trigger] need_visit@[i],
                    ) && dmap.contains_key(#[trigger] need_visit@[j]) && dmap[need_visit@[i]]
                        <= dmap[need_visit@[j]] <= dmap[need_visit@[i]] + 1,
                forall|x: u32, y: u32|
                    visited@.contains(x) && need_visit@.contains(y) ==> dmap[x] <= dmap[y],
                visited@.contains(start),
                !visited@.contains(target),
                came_from@.len() <= self.rows().len(),
            decreases self.rows().len() - came_from@.len(), need_visit@.len(),
        {
            let ghost q0 = need_visit@;
            let ghost dmap0 = dmap;
            let curr = match need_visit.pop_front() {
                Some(c) => c,
                None => {
                    proof {
                        assert(false);
                    }
                    0
                }
            };
            let ghost cd: int = dmap[curr];
            proof {
                assert(q0[0] == curr && q0.contains(curr));
                assert(need_visit@ == q0.subrange(1, q0.len() as int));
                assert(assoc_has(came_from@, curr));
                lemma_assoc_has_index(came_from@, curr);
                assert(dmap.contains_key(q0[0]));
            }
            if curr == target {
                let total = self.find_path_length_in_came_from(
                    start,
                    target,
                    &came_from,
                    Ghost(dmap),
                );
                proof {
                    assert forall|q: Seq<u32>|
                        self.is_path(q) && q.first() == start && q.last() == target implies q.len()
                        >= dmap[target] + 1 by {
                        self.lemma_queue_bound_along_path(q, visited@, q0, dmap, start);
                        assert(!visited@.contains(target));
                        let y = choose|y: u32| #[trigger] q0.contains(y) && dmap[y] <= q.len()
                            - 1;
                        let jj = choose|jj: int| 0 <= jj < q0.len() && q0[jj] == y;
                        assert(dmap[q0[0]] <= dmap[q0[jj]]);
                        assert(dmap[target] <= q.len() - 1);
                    }
                }
                if i32::MIN as i128 <= total && total <= i32::MAX as i128 {
                    proof {
                        let p = choose|p: Seq<u32>|
                            self.is_path(p) && p.first() == start && p.last() == target
                                && self.path_weight(p) == total as int && p.len() == dmap[target]
                                + 1;
                        assert(self.is_path(p) && p.first() == start && p.last() == target);
                        assert(forall|q: Seq<u32>|
                            self.is_path(q) && q.first() == start && q.last() == target
                                ==> q.len() >= p.len());
                    }
                    return Some(total as i32);
                } else {
                    proof {
                        let p = choose|p: Seq<u32>|
                            self.is_path(p) && p.first() == start && p.last() == target
                                && self.path_weight(p) == total as int && p.len() == dmap[target]
                                + 1;
                        assert(self.is_path(p) && p.first() == start && p.last() == target
                            && !(i32::MIN <= self.path_weight(p) <= i32::MAX));
                        assert(forall|q: Seq<u32>|
                            self.is_path(q) && q.first() == start && q.last() == target
                                ==> q.len() >= p.len());
                    }
                    return None;
                }
            }
            proof {
                assert forall|x: u32|
                    assoc_has(came_from@, x) implies visited@.contains(x)
                    || need_visit@.contains(x) || x == curr by {
                    if x != curr && !visited@.contains(x) {
                        assert(q0.contains(x));
                        let j = choose|j: int| 0 <= j < q0.len() && q0[j] == x;
                        assert(j != 0);
                        assert(need_visit@[j - 1] == x);
                        assert(need_visit@.contains(x));
                    }
                }
            }
            proof {
                assert forall|x: u32|
                    need_visit@.contains(x) implies dmap.contains_key(x) && cd <= dmap[x] <= cd
                    + 1 by {
                    let jj = choose|jj: int|
                        0 <= jj < need_visit@.len() && need_visit@[jj] == x;
                    assert(q0[jj + 1] == x);
                    assert(dmap[q0[0]] <= dmap[q0[jj + 1]] <= dmap[q0[0]] + 1);
                }
                assert forall|x: u32|
                    visited@.contains(x) implies dmap.contains_key(x) && dmap[x] <= cd by {
                    assert(q0.contains(curr));
                }
            }
            let ghost cf_before = came_from@;
            let ghost q_before = need_visit@;
            let dnew = self.enqueue_neighbours(
                curr,
                start,
                &visited,
                &mut need_visit,
                &mut came_from,
                Ghost(dmap),
                Ghost(cd),
            );
            visited.push(curr);
            proof {
                dmap = dnew@;
                assert(visited@.contains(start));
                assert(!visited@.contains(target));
                assert forall|x: u32|
                    assoc_has(came_from@, x) implies visited@.contains(x)
                    || need_visit@.contains(x) by {
                }
                assert forall|v: u32, y: u32|
                    visited@.contains(v) && self.spec_edge(v, y) implies visited@.contains(y)
                    || need_visit@.contains(y) by {
                    if v == curr {
                    } else {
                        let vv = visited@;
                        assert(vv.drop_last().push(curr) == vv);
                        if vv.drop_last().contains(v) {
                            if q0.contains(y) {
                                let j = choose|j: int| 0 <= j < q0.len() && q0[j] == y;
                                if j == 0 {
                                    assert(y == curr);
                                } else {
                                    assert(q_before[j - 1] == y);
                                    assert(q_before.contains(y));
                                }
                            }
                        } else {
                            assert(v == curr);
                        }
                    }
                }
                let q2 = need_visit@;
                assert forall|v: u32, y: u32|
                    visited@.contains(v) && self.spec_edge(v, y) implies dmap.contains_key(y)
                    && dmap[y] <= dmap[v] + 1 by {
                    if v == curr {
                        assert(dmap[curr] == cd);
                    } else {
                        let vv = visited@;
                        assert(vv.drop_last().push(curr) == vv);
                        if vv.drop_last().contains(v) {
                            assert(dmap0.contains_key(y) && dmap0[y] <= dmap0[v] + 1);
                        } else {
                            assert(v == curr);
                        }
                    }
                }
                assert forall|x: u32| visited@.contains(x) implies dmap.contains_key(x) by {
                    let vv = visited@;
                    assert(vv.drop_last().push(curr) == vv);
                }
                assert forall|i: int, j: int|
                    0 <= i <= j < q2.len() implies dmap.contains_key(#[trigger] q2[i])
                    && dmap.contains_key(#[trigger] q2[j]) && dmap[q2[i]] <= dmap[q2[j]]
                    <= dmap[q2[i]] + 1 by {
                    if j < q_before.len() {
                        assert(q2[i] == q_before[i] && q2[j] == q_before[j]);
                        assert(q0[i + 1] == q2[i] && q0[j + 1] == q2[j]);
                        assert(dmap0[q0[i + 1]] <= dmap0[q0[j + 1]] <= dmap0[q0[i + 1]] + 1);
                    } else if i < q_before.len() {
                        assert(q2[i] == q_before[i]);
                        assert(q0[i + 1] == q2[i]);
                        assert(cd <= dmap0[q0[i + 1]] <= cd + 1);
                        assert(dmap[q2[j]] == cd + 1);
                    } else {
                        assert(dmap[q2[i]] == cd + 1 && dmap[q2[j]] == cd + 1);
                    }
                }
                assert forall|x: u32, y: u32|
                    visited@.contains(x) && q2.contains(y) implies dmap[x] <= dmap[y] by {
                    let vv = visited@;
                    assert(vv.drop_last().push(curr) == vv);
                    let jj = choose|jj: int| 0 <= jj < q2.len() && q2[jj] == y;
                    if jj < q_before.len() {
                        assert(q2[jj] == q_before[jj] && q0[jj + 1] == q2[jj]);
                        assert(cd <= dmap0[q0[jj + 1]]);
                    } else {
                        assert(dmap[q2[jj]] == cd + 1);
                    }
                    if vv.drop_last().contains(x) {
                        assert(q0.contains(curr));
                        assert(dmap0[x] <= dmap0[q0[0]]);
                    } else {
                        assert(x == curr);
                    }
                }
            }
        }
        proof {
            if self.spec_connected(start, target) {
                let p = choose|p: Seq<u32>|
                    self.is_path(p) && p.first() == start && p.last() == target;
                self.lemma_path_stays_in_closed_set(p, visited@, need_visit@);
                assert(false);
            }
        }
        None
    }

    /// A set of nodes closed under outgoing edges traps every path that
    /// starts inside it.
    proof fn lemma_path_stays_in_closed_set(self, p: Seq<u32>, vs: Seq<u32>, qs: Seq<u32>)
        requires
            self.is_path(p),
            vs.contains(p.first()),
            qs.len() == 0,
            forall|v: u32, y: u32|
                vs.contains(v) && self.spec_edge(v, y) ==> vs.contains(y) || qs.contains(y),
        ensures
            vs.contains(p.last()),
        decreases p.len(),
    {
        if p.len() > 1 {
            assert(self.spec_edge(p[0], p[1]));
            let rest = p.subrange(1, p.len() as int);
            assert(rest.first() == p[1]);
            assert(vs.contains(p[1]));
            assert forall|i: int|
                0 <= i < rest.len() - 1 implies self.spec_edge(
                #[trigger] rest[i],
                rest[i + 1],
            ) by {
                assert(rest[i] == p[i + 1] && rest[i + 1] == p[i + 2]);
            }
            self.lemma_path_stays_in_closed_set(rest, vs, qs);
            assert(rest.last() == p.last());
        }
    }

    /// The nodes of the graph, each exactly once.
    fn node_list(&self) -> (r: Vec<u32>)
        ensures
            forall|n: u32| r@.contains(n) <==> self.spec_contains(n),
            r@.no_duplicates(),
    {
        proof {
            use_type_invariant(self);
            lemma_rows_of_index(self.adjacency@);
        }
        let mut r: Vec<u32> = Vec::new();
        let mut i: usize = 0;
        while i < self.adjacency.len()
            invariant
                i <= self.adjacency@.len(),
                rows_wf(self.rows()),
                self.rows().len() == self.adjacency@.len(),
                forall|j: int|
                    0 <= j < self.adjacency@.len() ==> (#[trigger] self.rows()[j]).0
                        == self.adjacency@[j].0,
                r@.len() == i,
                forall|j: int| 0 <= j < i ==> r@[j] == self.rows()[j].0,
            decreases self.adjacency@.len() - i,
        {
            r.push(self.adjacency[i].0);
            i = i + 1;
        }
        proof {
            assert forall|n: u32| r@.contains(n) implies self.spec_contains(n) by {
                let j = choose|j: int| 0 <= j < r@.len() && r@[j] == n;
                assert(self.rows()[j].0 == n);
                assert(forall|m: int| 0 <= m < j ==> (#[trigger] self.rows()[m]).0 != n);
                lemma_assoc_get_first(self.rows(), n, j);
            }
            assert forall|n: u32| self.spec_contains(n) implies r@.contains(n) by {
                lemma_assoc_has_index(self.rows(), n);
                let j = choose|j: int|
                    0 <= j < self.rows().len() && (#[trigger] self.rows()[j]).0 == n;
                assert(r@[j] == n);
            }
            assert forall|a: int, b: int|
                0 <= a < b < r@.len() implies r@[a] != r@[b] by {
                assert(r@[a] == self.rows()[a].0 && r@[b] == self.rows()[b].0);
            }
        }
        r
    }

    /// Builds a graph over the same nodes whose edge `a -> b` carries the
    /// weight this graph's path query finds from `a` to `b`; pairs without a
    /// discovered path get no edge. Every node is at distance zero from
    /// itself.
    /// What deriving a complete graph owes one ordered pair: if `a`
    /// connects to `b`, the derived graph `g` carries the edge `a -> b`,
    /// unless a fewest-hops connecting path's weight falls outside the
    /// weight type.
    pub open spec fn covers_pair(self, g: Graph, a: u32, b: u32) -> bool {
        self.spec_connected(a, b) ==> (g.spec_edge(a, b) || exists|p: Seq<u32>|
            self.is_path(p) && p.first() == a && p.last() == b && !(i32::MIN
                <= self.path_weight(p) <= i32::MAX) && (forall|q: Seq<u32>|
                self.is_path(q) && q.first() == a && q.last() == b ==> q.len() >= p.len()))
    }

    /// Between two distinct adjacent nodes the one-hop path is the only
    /// fewest-hops connection, so any derived distance between them is the
    /// edge's own weight. Deriving a complete graph a second time therefore
    /// reproduces the weights of the first derivation.
    pub proof fn lemma_adjacent_fewest_hops(self, a: u32, b: u32, p: Seq<u32>)
        requires
            self.spec_edge(a, b),
            a != b,
            self.is_path(p),
            p.first() == a,
            p.last() == b,
            forall|q: Seq<u32>|
                self.is_path(q) && q.first() == a && q.last() == b ==> q.len() >= p.len(),
        ensures
            p =~= seq![a, b],
            self.path_weight(p) == self.spec_weight(a, b).unwrap(),
    {
        let direct = seq![a, b];
        assert(self.spec_edge(direct[0], direct[1]));
        assert(self.is_path(direct) && direct.first() == a && direct.last() == b);
        assert(p.len() <= 2);
        assert(p.len() >= 2);
        assert(p =~= direct);
        assert(direct.subrange(1, 2) =~= seq![b]);
        assert(self.path_weight(seq![b]) == 0);
        assert(self.path_weight(direct) == self.spec_weight(a, b).unwrap());
    }

    pub fn generate_complete_graph(&self) -> (g: Graph)
        requires
            self.spec_closed(),
        ensures
            forall|n: u32| g.spec_contains(n) <==> self.spec_contains(n),
            g.spec_closed(),
            forall|a: u32, b: u32| #[trigger] g.spec_edge(a, b) ==> self.spec_connected(a, b),
            forall|a: u32, b: u32|
                self.spec_contains(a) && self.spec_contains(b) ==> #[trigger] self.covers_pair(
                    g,
                    a,
                    b,
                ),
            forall|a: u32, b: u32|
                (#[trigger] g.spec_weight(a, b)) matches Some(w) ==> exists|p: Seq<u32>|
                    self.is_path(p) && p.first() == a && p.last() == b && self.path_weight(p)
                        == w as int && (forall|q: Seq<u32>|
                        self.is_path(q) && q.first() == a && q.last() == b ==> q.len()
                            >= p.len()),
            forall|a: u32| self.spec_contains(a) ==> g.spec_weight(a, a) == Some(0i32),
    {
        let nodes = self.node_list();
        let mut new_graph = Graph::new(self.node_list());
        let mut i: usize = 0;
        while i < nodes.len()
            invariant
                i <= nodes@.len(),
                self.spec_closed(),
                forall|n: u32| nodes@.contains(n) <==> self.spec_contains(n),
                nodes@.no_duplicates(),
                forall|n: u32| new_graph.spec_contains(n) <==> self.spec_contains(n),
                new_graph.spec_closed(),
                forall|a: u32, b: u32| #[trigger] new_graph.spec_edge(a, b)
                    ==> self.spec_connected(a, b),
                forall|a: u32, b: u32|
                    (#[trigger] new_graph.spec_weight(a, b)) matches Some(w) ==> exists|p: Seq<u32>|
                        self.is_path(p) && p.first() == a && p.last() == b && self.path_weight(p)
                            == w as int && (forall|q: Seq<u32>|
                            self.is_path(q) && q.first() == a && q.last() == b ==> q.len()
                                >= p.len()),
                forall|ka: int, kb: int|
                    0 <= ka < i && 0 <= kb < nodes@.len() ==> #[trigger] self.covers_pair(
                        new_graph,
                        nodes@[ka],
                        nodes@[kb],
                    ),
                forall|k: int|
                    0 <= k < i ==> new_graph.spec_weight(
                        #[trigger] nodes@[k],
                        nodes@[k],
                    ) == Some(0i32),
            decreases nodes@.len() - i,
        {
            let node_a = nodes[i];
            proof {
                assert(nodes@.contains(node_a));
            }
            let mut j: usize = 0;
            while j < nodes.len()
                invariant
                    i < nodes@.len(),
                    j <= nodes@.len(),
                    node_a == nodes@[i as int],
                    self.spec_closed(),
                    self.spec_contains(node_a),
                    forall|n: u32| nodes@.contains(n) <==> self.spec_contains(n),
                    nodes@.no_duplicates(),
                    forall|n: u32| new_graph.spec_contains(n) <==> self.spec_contains(n),
                    new_graph.spec_closed(),
                    forall|a: u32, b: u32| #[trigger] new_graph.spec_edge(a, b)
                        ==> self.spec_connected(a, b),
                    forall|a: u32, b: u32|
                        (#[trigger] new_graph.spec_weight(a, b)) matches Some(w)
                            ==> exists|p: Seq<u32>|
                                self.is_path(p) && p.first() == a && p.last() == b
                                    && self.path_weight(p) == w as int && (forall|q: Seq<u32>|
                                    self.is_path(q) && q.first() == a && q.last() == b
                                        ==> q.len() >= p.len()),
                    forall|ka: int, kb: int|
                        0 <= ka < i && 0 <= kb < nodes@.len() ==> #[trigger] self.covers_pair(
                            new_graph,
                            nodes@[ka],
                            nodes@[kb],
                        ),
                    forall|kb: int|
                        0 <= kb < j ==> #[trigger] self.covers_pair(
                            new_graph,
                            node_a,
                            nodes@[kb],
                        ),
                    forall|k: int|
                        0 <= k < i ==> new_graph.spec_weight(
                            #[trigger] nodes@[k],
                            nodes@[k],
                        ) == Some(0i32),
                    i < j ==> new_graph.spec_weight(node_a, node_a) == Some(0i32),
                decreases nodes@.len() - j,
            {
                let node_b = nodes[j];
                proof {
                    assert(nodes@.contains(node_b));
                }
                let w = self.dfs(node_a, node_b);
                let g2 = new_graph.add_edge(node_a, node_b, w);
                proof {
                    assert forall|a: u32, b: u32| #[trigger] g2.spec_edge(a, b)
                        implies self.spec_connected(a, b) by {
                        if a == node_a && b == node_b && new_graph.spec_contains(node_a) {
                        } else {
                            assert(new_graph.spec_edge(a, b));
                        }
                    }
                    assert forall|f: u32, t: u32| #[trigger] g2.spec_edge(f, t)
                        implies g2.spec_contains(t) by {
                        if f == node_a && t == node_b && new_graph.spec_contains(node_a) {
                        } else {
                            assert(new_graph.spec_edge(f, t));
                        }
                    }
                    assert(self.covers_pair(g2, node_a, node_b)) by {
                        if self.spec_connected(node_a, node_b) && w is Some {
                            assert(g2.spec_weight(node_a, node_b) == w);
                        }
                    }
                    assert forall|ka: int, kb: int|
                        0 <= ka < i && 0 <= kb < nodes@.len() implies #[trigger] self.covers_pair(
                        g2,
                        nodes@[ka],
                        nodes@[kb],
                    ) by {
                        assert(nodes@[ka] != node_a);
                        assert(g2.spec_weight(nodes@[ka], nodes@[kb]) == new_graph.spec_weight(
                            nodes@[ka],
                            nodes@[kb],
                        ));
                        assert(self.covers_pair(new_graph, nodes@[ka], nodes@[kb]));
                    }
                    assert forall|kb: int|
                        0 <= kb < j implies #[trigger] self.covers_pair(
                        g2,
                        node_a,
                        nodes@[kb],
                    ) by {
                        assert(nodes@[kb] != node_b);
                        assert(g2.spec_weight(node_a, nodes@[kb]) == new_graph.spec_weight(
                            node_a,
                            nodes@[kb],
                        ));
                        assert(self.covers_pair(new_graph, node_a, nodes@[kb]));
                    }
                    assert forall|a: u32, b: u32|
                        (#[trigger] g2.spec_weight(a, b)) is Some implies exists|p: Seq<u32>|
                        self.is_path(p) && p.first() == a && p.last() == b && self.path_weight(p)
                            == g2.spec_weight(a, b).unwrap() as int && (forall|q: Seq<u32>|
                            self.is_path(q) && q.first() == a && q.last() == b ==> q.len()
                                >= p.len()) by {
                        if a == node_a && b == node_b && new_graph.spec_contains(node_a) {
                        } else {
                            assert(g2.spec_weight(a, b) == new_graph.spec_weight(a, b));
                        }
                    }
                    assert forall|k: int|
                        0 <= k < i implies g2.spec_weight(#[trigger] nodes@[k], nodes@[k])
                        == Some(0i32) by {
                        if nodes@[k] == node_a && nodes@[k] == node_b {
                            assert(false);
                        }
                    }
                }
                new_graph = g2;
                j = j + 1;
            }
            i = i + 1;
        }
        proof {
            assert forall|a: u32, b: u32|
                self.spec_contains(a) && self.spec_contains(b) implies #[trigger] self.covers_pair(
                new_graph,
                a,
                b,
            ) by {
                assert(nodes@.contains(a));
                assert(nodes@.contains(b));
                let ka = choose|ka: int| 0 <= ka < nodes@.len() && nodes@[ka] == a;
                let kb = choose|kb: int| 0 <= kb < nodes@.len() && nodes@[kb] == b;
                assert(self.covers_pair(new_graph, nodes@[ka], nodes@[kb]));
            }
        }
        new_graph
    }
}

/// Distinct keys that all occur among the keys of another table are no more
/// numerous than that table's pairs.
proof fn lemma_unique_keys_len<V, W>(a: Seq<(u32, V)>, b: Seq<(u32, W)>)
    requires
        forall|k: int, m: int| 0 <= k < m < a.len() ==> (#[trigger] a[k]).0 != (#[trigger] a[m]).0,
        forall|k: int, m: int| 0 <= k < m < b.len() ==> (#[trigger] b[k]).0 != (#[trigger] b[m]).0,
        forall|k: int| 0 <= k < a.len() ==> assoc_has(b, (#[trigger] a[k]).0),
    ensures
        a.len() <= b.len(),
{
    broadcast use vstd::seq_lib::seq_to_set_is_finite;
    broadcast use vstd::set::group_set_axioms;

    let ak = a.map_values(|p: (u32, V)| p.0);
    let bk = b.map_values(|p: (u32, W)| p.0);
    assert(ak.no_duplicates());
    assert(bk.no_duplicates());
    ak.unique_seq_to_set();
    bk.unique_seq_to_set();
    assert forall|x: u32| ak.to_set().contains(x) implies bk.to_set().contains(x) by {
        assert(ak.contains(x));
        let k = choose|k: int| 0 <= k < ak.len() && ak[k] == x;
        assert(a[k].0 == x);
        lemma_assoc_has_index(b, x);
        let m = choose|m: int| 0 <= m < b.len() && (#[trigger] b[m]).0 == x;
        assert(bk[m] == x);
        assert(bk.contains(x));
    }
    assert(ak.to_set().subset_of(bk.to_set()));
    vstd::set_lib::lemma_len_subset(ak.to_set(), bk.to_set());
}

/// Whether `x` occurs in `v`.
fn vec_contains_u32(v: &Vec<u32>, x: u32) -> (r: bool)
    ensures
        r == v@.contains(x),
{
    let mut i: usize = 0;
    while i < v.len()
        invariant
            i <= v@.len(),
            forall|j: int| 0 <= j < i ==> v@[j] != x,
        decreases v@.len() - i,
    {
        if v[i] == x {
            proof {
                assert(v@.contains(x));
            }
            return true;
        }
        i = i + 1;
    }
    false
}

/// Whether `x` occurs in `q`.
fn deque_contains_u32(q: &VecDeque<u32>, x: u32) -> (r: bool)
    ensures
        r == q@.contains(x),
{
    let mut i: usize = 0;
    while i < q.len()
        invariant
            i <= q@.len(),
            forall|j: int| 0 <= j < i ==> q@[j] != x,
        decreases q@.len() - i,
    {
        if q[i] == x {
            proof {
                assert(q@.contains(x));
            }
            return true;
        }
        i = i + 1;
    }
    false
}

/// A bound key whose value is `Some` occurs at some position of the row.
proof fn lemma_assoc_some_index(row: Seq<(u32, Option<i32>)>, t: u32)
    requires
        match assoc_get(row, t) {
            Some(w) => w is Some,
            None => false,
        },
    ensures
        exists|a: int|
            0 <= a < row.len() && (#[trigger] row[a]).0 == t && row[a].1 is Some,
    decreases row.len(),
{
    if row.len() > 0 {
        if row[0].0 == t {
            assert(row[0].0 == t && row[0].1 is Some);
        } else {
            lemma_assoc_some_index(row.subrange(1, row.len() as int), t);
            let a = choose|a: int|
                0 <= a < row.len() - 1 && (#[trigger] row.subrange(1, row.len() as int)[a]).0 == t
                    && row.subrange(1, row.len() as int)[a].1 is Some;
            assert(row[a + 1].0 == t && row[a + 1].1 is Some);
        }
    }
}

} // verus!
