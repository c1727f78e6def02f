//! The story graph: a strict DAG of beats with a weak-edge overlay.
//!
//! Strong edges carry constraint inheritance and are cycle-checked on every
//! connect; weak edges may close cycles and only play a part in successor
//! queries.  The graph carries a ghost topological numbering of the strong
//! subgraph as a standing witness of acyclicity.

use vstd::prelude::*;

use crate::constraint::Constraint;
use crate::story_node::{ConstrainedAlias, StoryNode};

verus! {

/// Identifier of a beat within one story graph.
#[derive(Debug, Clone, Copy, PartialEq, Eq, Structural)]
pub struct StoryNodeId(pub usize);

/// A strong edge would have closed a cycle; it was not retained.
#[derive(Debug, Clone, Copy, PartialEq, Eq, Structural)]
pub struct CycleDetected;

/// A query left no binding alive.
#[derive(Debug, Clone, Copy, PartialEq, Eq, Structural)]
pub struct ConstraintsNotSatisfied;

/// The adjacency rows of the strong subgraph, as plain sequences.
pub open spec fn adj_of(strong: Seq<Vec<(usize, u64)>>) -> Seq<Seq<(usize, u64)>> {
    Seq::new(strong.len(), |u: int| strong[u]@)
}

/// Is `v` a strong successor of `u`?
pub open spec fn edge_to(adj: Seq<Seq<(usize, u64)>>, u: int, v: int) -> bool {
    &&& 0 <= u < adj.len()
    &&& exists|j: int| 0 <= j < adj[u].len() && (#[trigger] adj[u][j]).0 == v
}

/// Does a numbering place every strong edge in ascending order?
pub open spec fn numbering_ok(ord: Seq<int>, adj: Seq<Seq<(usize, u64)>>) -> bool {
    &&& ord.len() == adj.len()
    &&& forall|u: int, v: int| edge_to(adj, u, v) ==> ord[u] < ord[v]
}

/// The strong subgraph is acyclic: some topological numbering exists.
pub open spec fn acyclic(adj: Seq<Seq<(usize, u64)>>) -> bool {
    exists|ord: Seq<int>| numbering_ok(ord, adj)
}

/// Every strong and weak edge points at a node of the graph, and the
/// adjacency rows line up with the nodes.
pub open spec fn edges_wf(
    n: int,
    strong: Seq<Vec<(usize, u64)>>,
    weak: Seq<Vec<usize>>,
) -> bool {
    &&& strong.len() == n
    &&& weak.len() == n
    &&& forall|u: int, j: int|
        0 <= u < n && 0 <= j < strong[u]@.len() ==> (#[trigger] strong[u]@[j]).0 < n
    &&& forall|u: int, j: int|
        0 <= u < n && 0 <= j < weak[u]@.len() ==> (#[trigger] weak[u]@[j]) < n
}

/// A DAG of beats, a weak-edge overlay, and the graph's alias roles.
pub struct StoryGraph {
    pub aliases: Vec<ConstrainedAlias>,
    pub start_id: StoryNodeId,
    pub start_set: bool,
    pub nodes: Vec<StoryNode>,
    pub strong_edges: Vec<Vec<(usize, u64)>>,
    pub weak_edges: Vec<Vec<usize>>,
    pub order: Ghost<Seq<int>>,
}

impl StoryGraph {
    /// The graph's standing invariant: edges in range, and the ghost
    /// numbering witnesses acyclicity of the strong subgraph.
    pub open spec fn wf(&self) -> bool {
        &&& edges_wf(self.nodes@.len() as int, self.strong_edges@, self.weak_edges@)
        &&& numbering_ok(self.order@, adj_of(self.strong_edges@))
        &&& forall|i: int| 0 <= i < self.order@.len() ==> 0 <= #[trigger] self.order@[i]
            < self.nodes@.len()
    }

    /// An empty graph; queries yield nothing until a start beat is marked.
    pub fn new() -> (r: StoryGraph)
        ensures
            r.wf(),
            r.aliases@.len() == 0,
            r.nodes@.len() == 0,
            r.start_id.0 == 0,
            !r.start_set,
    {
        let r = StoryGraph {
            aliases: Vec::new(),
            start_id: StoryNodeId(0),
            start_set: false,
            nodes: Vec::new(),
            strong_edges: Vec::new(),
            weak_edges: Vec::new(),
            order: Ghost(Seq::empty()),
        };
        r
    }

    /// The start beat.
    pub fn start(&self) -> (r: StoryNodeId)
        ensures
            r == self.start_id,
    {
        self.start_id
    }

    /// Mark the root beat for queries and traversal.
    pub fn set_start_node(&mut self, node_id: StoryNodeId)
        ensures
            *final(self) == (StoryGraph { start_id: node_id, start_set: true, ..*old(self) }),
    {
        self.start_id = node_id;
        self.start_set = true;
    }

    /// Declare a role; duplicates are not rejected.
    pub fn add_alias(&mut self, alias: &str, constraints: Vec<Constraint>)
        ensures
            final(self).aliases@.len() == old(self).aliases@.len() + 1,
            final(self).aliases@.take(old(self).aliases@.len() as int) == old(self).aliases@,
            final(self).aliases@.last().alias@ == alias@,
            final(self).aliases@.last().constraints == constraints,
            final(self).nodes == old(self).nodes,
            final(self).strong_edges == old(self).strong_edges,
            final(self).weak_edges == old(self).weak_edges,
            final(self).start_id == old(self).start_id,
            final(self).start_set == old(self).start_set,
            final(self).order == old(self).order,
    {
        let ghost pre = self.aliases@;
        self.aliases.push(ConstrainedAlias::new(alias, constraints));
        proof {
            assert(self.aliases@.take(pre.len() as int) =~= pre);
        }
    }

    /// Insert a beat and return its identifier.
    pub fn add(&mut self, story_node: StoryNode) -> (r: StoryNodeId)
        requires
            old(self).wf(),
            old(self).nodes@.len() < usize::MAX,
        ensures
            final(self).wf(),
            r.0 == old(self).nodes@.len(),
            final(self).nodes@ == old(self).nodes@.push(story_node),
            final(self).strong_edges@.len() == old(self).strong_edges@.len() + 1,
            final(self).strong_edges@.take(old(self).strong_edges@.len() as int) == old(
                self,
            ).strong_edges@,
            final(self).strong_edges@.last()@.len() == 0,
            final(self).weak_edges@.len() == old(self).weak_edges@.len() + 1,
            final(self).weak_edges@.take(old(self).weak_edges@.len() as int) == old(
                self,
            ).weak_edges@,
            final(self).weak_edges@.last()@.len() == 0,
            final(self).aliases == old(self).aliases,
            final(self).start_id == old(self).start_id,
            final(self).start_set == old(self).start_set,
    {
        let id = self.nodes.len();
        self.nodes.push(story_node);
        self.strong_edges.push(Vec::new());
        self.weak_edges.push(Vec::new());
        proof {
            self.order@ = self.order@.push(old(self).nodes@.len() as int);
            assert(self.strong_edges@.take(old(self).strong_edges@.len() as int) =~= old(
                self,
            ).strong_edges@);
            assert(self.weak_edges@.take(old(self).weak_edges@.len() as int) =~= old(
                self,
            ).weak_edges@);
            assert forall|u: int, v: int|
                edge_to(adj_of(self.strong_edges@), u, v) implies self.order@[u]
                < self.order@[v] by {
                if u < old(self).strong_edges@.len() {
                    assert(adj_of(self.strong_edges@)[u] == old(self).strong_edges@[u]@);
                    let j = choose|j: int|
                        0 <= j < adj_of(self.strong_edges@)[u].len() && (#[trigger] adj_of(
                            self.strong_edges@,
                        )[u][j]).0 == v;
                    assert((adj_of(old(self).strong_edges@)[u][j]).0 == v);
                    assert(edge_to(adj_of(old(self).strong_edges@), u, v));
                } else {
                    assert(adj_of(self.strong_edges@)[u].len() == 0);
                }
            }
        }
        StoryNodeId(id)
    }

    /// The strong successors of a beat, in insertion order.
    pub fn connections(&self, node_id: StoryNodeId) -> (r: Vec<StoryNodeId>)
        requires
            self.wf(),
            node_id.0 < self.nodes@.len(),
        ensures
            r@.len() == self.strong_edges@[node_id.0 as int]@.len(),
            forall|j: int|
                0 <= j < r@.len() ==> (#[trigger] r@[j]).0 == self.strong_edges@[
                    node_id.0 as int
                ]@[j].0,
    {
        let row = &self.strong_edges[node_id.0];
        let n = row.len();
        let mut r: Vec<StoryNodeId> = Vec::new();
        let mut i: usize = 0;
        while i < n
            invariant
                i <= n == row@.len(),
                r@.len() == i,
                forall|j: int| 0 <= j < i ==> (#[trigger] r@[j]).0 == row@[j].0,
            decreases n - i,
        {
            r.push(StoryNodeId(row[i].0));
            i = i + 1;
        }
        r
    }

    /// The strong and weak successors of a beat: what can play next.
    pub fn all_connections(&self, node_id: StoryNodeId) -> (r: Vec<StoryNodeId>)
        requires
            self.wf(),
            node_id.0 < self.nodes@.len(),
        ensures
            r@.len() == self.strong_edges@[node_id.0 as int]@.len() + self.weak_edges@[
                node_id.0 as int
            ]@.len(),
            forall|j: int|
                0 <= j < self.strong_edges@[node_id.0 as int]@.len() ==> (#[trigger] r@[j]).0
                    == self.strong_edges@[node_id.0 as int]@[j].0,
            forall|j: int|
                self.strong_edges@[node_id.0 as int]@.len() <= j < r@.len() ==> (#[trigger] r@[
                    j
                ]).0 == self.weak_edges@[node_id.0 as int]@[j - self.strong_edges@[
                    node_id.0 as int
                ]@.len()],
            forall|j: int| 0 <= j < r@.len() ==> (#[trigger] r@[j]).0 < self.nodes@.len(),
    {
        let mut r = self.connections(node_id);
        let row = &self.weak_edges[node_id.0];
        let n = row.len();
        let ghost base = r@.len();
        let mut i: usize = 0;
        while i < n
            invariant
                i <= n == row@.len(),
                r@.len() == base + i,
                forall|j: int| 0 <= j < base ==> (#[trigger] r@[j]).0 == self.strong_edges@[
                    node_id.0 as int
                ]@[j].0,
                forall|j: int| base <= j < r@.len() ==> (#[trigger] r@[j]).0 == row@[j - base],
            decreases n - i,
        {
            r.push(StoryNodeId(row[i]));
            i = i + 1;
        }
        proof {
            assert forall|j: int| 0 <= j < r@.len() implies (#[trigger] r@[j]).0
                < self.nodes@.len() by {
            }
        }
        r
    }

    /// Add a strong edge with the default weight.
    pub fn connect(&mut self, from: StoryNodeId, to: StoryNodeId) -> (r: Result<
        (),
        CycleDetected,
    >)
        requires
            old(self).wf(),
            from.0 < old(self).nodes@.len(),
            to.0 < old(self).nodes@.len(),
        ensures
            final(self).wf(),
            connect_post(*old(self), *final(self), from.0 as int, to.0 as int, 0, r),
    {
        self.connect_weight(from, to, 0)
    }

    /// Add a strong edge carrying an opaque weight, then re-check that the
    /// strong subgraph stays acyclic; on failure the edge is rolled back.
    pub fn connect_weight(&mut self, parent: StoryNodeId, child: StoryNodeId, weight: u64) -> (r:
        Result<(), CycleDetected>)
        requires
            old(self).wf(),
            parent.0 < old(self).nodes@.len(),
            child.0 < old(self).nodes@.len(),
        ensures
            final(self).wf(),
            connect_post(
                *old(self),
                *final(self),
                parent.0 as int,
                child.0 as int,
                weight,
                r,
            ),
    {
        let mut row = self.strong_edges.remove(parent.0);
        row.push((child.0, weight));
        self.strong_edges.insert(parent.0, row);
        proof {
            assert(self.strong_edges@ =~= old(self).strong_edges@.update(
                parent.0 as int,
                self.strong_edges@[parent.0 as int],
            ));
        }
        proof {
            assert(self.strong_edges@[parent.0 as int]@ =~= old(self).strong_edges@[
                parent.0 as int
            ]@.push((child.0, weight)));
            assert(adj_of(self.strong_edges@) =~= adj_of(old(self).strong_edges@).update(
                parent.0 as int,
                adj_of(old(self).strong_edges@)[parent.0 as int].push((child.0, weight)),
            ));
            assert forall|u: int, j: int|
                0 <= u < self.nodes@.len() && 0 <= j < self.strong_edges@[u]@.len() implies (
            #[trigger] self.strong_edges@[u]@[j]).0 < self.nodes@.len() by {
                if u != parent.0 as int {
                    assert(self.strong_edges@[u] == old(self).strong_edges@[u]);
                } else {
                    if j < old(self).strong_edges@[u]@.len() {
                        assert(old(self).strong_edges@[u]@[j].0 < self.nodes@.len());
                    }
                }
            }
        }
        let n = self.nodes.len();
        match topo_order(n, &self.strong_edges) {
            Some(ord) => {
                proof {
                    self.order@ = ord@.map_values(|x: usize| x as int);
                    assert(acyclic(adj_of(self.strong_edges@))) by {
                        assert(numbering_ok(
                            ord@.map_values(|x: usize| x as int),
                            adj_of(self.strong_edges@),
                        ));
                    }
                }
                Ok(())
            },
            None => {
                proof {
                    assert(!acyclic(
                        adj_of(old(self).strong_edges@).update(
                            parent.0 as int,
                            adj_of(old(self).strong_edges@)[parent.0 as int].push(
                                (child.0, weight),
                            ),
                        ),
                    )) by {
                        assert(adj_of(self.strong_edges@) =~= adj_of(
                            old(self).strong_edges@,
                        ).update(
                            parent.0 as int,
                            adj_of(old(self).strong_edges@)[parent.0 as int].push(
                                (child.0, weight),
                            ),
                        ));
                    }
                }
                let ghost mid = self.strong_edges@;
                let mut row = self.strong_edges.remove(parent.0);
                row.pop();
                self.strong_edges.insert(parent.0, row);
                proof {
                    assert(row@ =~= old(self).strong_edges@[parent.0 as int]@);
                    assert(adj_of(self.strong_edges@) =~= adj_of(old(self).strong_edges@));
                }
                Err(CycleDetected)
            },
        }
    }

    /// Add a weak edge; weak edges may close cycles and always succeed.
    pub fn connect_weak(&mut self, from: StoryNodeId, to: StoryNodeId) -> (r: Result<
        (),
        CycleDetected,
    >)
        requires
            old(self).wf(),
            from.0 < old(self).nodes@.len(),
            to.0 < old(self).nodes@.len(),
        ensures
            final(self).wf(),
            r is Ok,
            final(self).nodes == old(self).nodes,
            final(self).aliases == old(self).aliases,
            final(self).start_id == old(self).start_id,
            final(self).start_set == old(self).start_set,
            final(self).strong_edges == old(self).strong_edges,
            final(self).weak_edges@ == old(self).weak_edges@.update(
                from.0 as int,
                final(self).weak_edges@[from.0 as int],
            ),
            final(self).weak_edges@[from.0 as int]@ == old(self).weak_edges@[from.0 as int]@.push(
                to.0,
            ),
    {
        let mut row = self.weak_edges.remove(from.0);
        row.push(to.0);
        self.weak_edges.insert(from.0, row);
        proof {
            assert(self.weak_edges@ =~= old(self).weak_edges@.update(
                from.0 as int,
                self.weak_edges@[from.0 as int],
            ));
        }
        Ok(())
    }

    /// One beat by identifier.
    pub fn get(&self, node_id: StoryNodeId) -> (r: &StoryNode)
        requires
            node_id.0 < self.nodes@.len(),
        ensures
            *r == self.nodes@[node_id.0 as int],
    {
        &self.nodes[node_id.0]
    }
}

/// What `connect` and `connect_weight` leave behind: on success the one new
/// strong edge, on failure the graph exactly as it was; success comes
/// precisely when the added edge leaves the strong subgraph acyclic.
pub open spec fn connect_post(
    pre: StoryGraph,
    post: StoryGraph,
    parent: int,
    child: int,
    weight: u64,
    r: Result<(), CycleDetected>,
) -> bool {
    &&& post.nodes == pre.nodes
    &&& post.aliases == pre.aliases
    &&& post.start_id == pre.start_id
    &&& post.start_set == pre.start_set
    &&& post.weak_edges == pre.weak_edges
    &&& match r {
        Ok(_) => {
            &&& adj_of(post.strong_edges@) == adj_of(pre.strong_edges@).update(
                parent,
                adj_of(pre.strong_edges@)[parent].push((child as usize, weight)),
            )
            &&& acyclic(adj_of(post.strong_edges@))
        },
        Err(_) => {
            &&& adj_of(post.strong_edges@) == adj_of(pre.strong_edges@)
            &&& !acyclic(adj_of(pre.strong_edges@).update(
                parent,
                adj_of(pre.strong_edges@)[parent].push((child as usize, weight)),
            ))
        },
    }
}

} // verus!

verus! {

/// How many entries of a boolean sequence are set.
pub open spec fn count_true(s: Seq<bool>) -> nat
    decreases s.len(),
{
    if s.len() == 0 {
        0
    } else {
        (count_true(s.skip(1)) + if s[0] {
            1 as nat
        } else {
            0 as nat
        }) as nat
    }
}

proof fn lemma_count_le(s: Seq<bool>)
    ensures
        count_true(s) <= s.len(),
    decreases s.len(),
{
    if s.len() > 0 {
        lemma_count_le(s.skip(1));
    }
}

proof fn lemma_count_update(s: Seq<bool>, i: int)
    requires
        0 <= i < s.len(),
        !s[i],
    ensures
        count_true(s.update(i, true)) == count_true(s) + 1,
    decreases s.len(),
{
    if i == 0 {
        assert(s.update(0, true).skip(1) =~= s.skip(1));
    } else {
        lemma_count_update(s.skip(1), i - 1);
        assert(s.update(i, true).skip(1) =~= s.skip(1).update(i - 1, true));
        assert(s.update(i, true)[0] == s[0]);
    }
}

proof fn lemma_count_all(s: Seq<bool>)
    requires
        count_true(s) == s.len(),
    ensures
        forall|i: int| 0 <= i < s.len() ==> s[i],
    decreases s.len(),
{
    if s.len() > 0 {
        lemma_count_le(s.skip(1));
        assert(s[0]);
        lemma_count_all(s.skip(1));
        assert forall|i: int| 0 <= i < s.len() implies s[i] by {
            if i > 0 {
                assert(s.skip(1)[i - 1]);
            }
        }
    }
}

proof fn lemma_count_some_false(s: Seq<bool>)
    requires
        count_true(s) < s.len(),
    ensures
        exists|i: int| 0 <= i < s.len() && !s[i],
    decreases s.len(),
{
    if s.len() > 0 {
        if s[0] {
            lemma_count_some_false(s.skip(1));
            let i = choose|i: int| 0 <= i < s.skip(1).len() && !s.skip(1)[i];
            assert(!s[i + 1]);
        } else {
            assert(!s[0]);
        }
    }
}

/// The least value of a numbering.
spec fn seq_min(s: Seq<int>) -> int
    decreases s.len(),
{
    if s.len() <= 1 {
        if s.len() == 1 {
            s[0]
        } else {
            0
        }
    } else {
        let rest = seq_min(s.skip(1));
        if s[0] <= rest {
            s[0]
        } else {
            rest
        }
    }
}

proof fn lemma_seq_min_le(s: Seq<int>, i: int)
    requires
        0 <= i < s.len(),
    ensures
        seq_min(s) <= s[i],
    decreases s.len(),
{
    if s.len() > 1 && i > 0 {
        lemma_seq_min_le(s.skip(1), i - 1);
    }
}

/// Along a numbering that respects every edge, an unplaced node whose every
/// unplaced fellow has an unplaced predecessor leads to an infinite strict
/// descent, which a finite numbering cannot carry.
proof fn lemma_descend(adj: Seq<Seq<(usize, u64)>>, placed: Seq<bool>, ord: Seq<int>, u: int, fuel:
    nat)
    requires
        placed.len() == adj.len(),
        0 <= u < placed.len(),
        !placed[u],
        forall|w: int|
            0 <= w < placed.len() && !placed[w] ==> exists|p: int|
                0 <= p < placed.len() && !placed[p] && edge_to(adj, p, #[trigger] (w + 0)),
        ord.len() == adj.len() ==> ord[u] - seq_min(ord) <= fuel,
    ensures
        !numbering_ok(ord, adj),
    decreases fuel,
{
    if numbering_ok(ord, adj) {
        assert(exists|p: int| 0 <= p < placed.len() && !placed[p] && edge_to(adj, p, u + 0));
        let p = choose|p: int| 0 <= p < placed.len() && !placed[p] && edge_to(adj, p, u + 0);
        assert(edge_to(adj, p, u));
        assert(ord[p] < ord[u]);
        lemma_seq_min_le(ord, p);
        lemma_descend(adj, placed, ord, p, (fuel - 1) as nat);
        assert(false);
    }
}

/// A graph stuck mid-sort has no topological numbering at all.
proof fn lemma_stuck(adj: Seq<Seq<(usize, u64)>>, placed: Seq<bool>)
    requires
        placed.len() == adj.len(),
        exists|i: int| 0 <= i < placed.len() && !placed[i],
        forall|w: int|
            0 <= w < placed.len() && !placed[w] ==> exists|p: int|
                0 <= p < placed.len() && !placed[p] && edge_to(adj, p, #[trigger] (w + 0)),
    ensures
        !acyclic(adj),
{
    if acyclic(adj) {
        let ord = choose|ord: Seq<int>| numbering_ok(ord, adj);
        let u = choose|i: int| 0 <= i < placed.len() && !placed[i];
        lemma_seq_min_le(ord, u);
        lemma_descend(adj, placed, ord, u, (ord[u] - seq_min(ord)) as nat);
        assert(false);
    }
}

/// Does `p` have a strong edge to `u`?
fn has_edge_to(adj: &Vec<Vec<(usize, u64)>>, p: usize, u: usize) -> (r: bool)
    requires
        p < adj@.len(),
    ensures
        r == edge_to(adj_of(adj@), p as int, u as int),
{
    let row = &adj[p];
    let n = row.len();
    let mut j: usize = 0;
    while j < n
        invariant
            j <= n == row@.len(),
            row@ == adj@[p as int]@,
            p < adj@.len(),
            forall|j2: int| 0 <= j2 < j ==> (#[trigger] row@[j2]).0 != u,
        decreases n - j,
    {
        if row[j].0 == u {
            proof {
                assert((adj_of(adj@)[p as int][j as int]).0 == u);
            }
            return true;
        }
        j = j + 1;
    }
    false
}

/// Find an unplaced node with no unplaced predecessor.
fn find_ready(adj: &Vec<Vec<(usize, u64)>>, placed: &Vec<bool>) -> (r: Option<usize>)
    requires
        adj@.len() == placed@.len(),
    ensures
        match r {
            Some(u) => u < placed@.len() && !placed@[u as int] && forall|p: int|
                0 <= p < placed@.len() && !placed@[p] ==> !edge_to(adj_of(adj@), p, u as int),
            None => forall|w: int|
                0 <= w < placed@.len() && !placed@[w] ==> exists|p: int|
                    0 <= p < placed@.len() && !placed@[p] && edge_to(
                        adj_of(adj@),
                        p,
                        #[trigger] (w + 0),
                    ),
        },
{
    let n = placed.len();
    let mut u: usize = 0;
    while u < n
        invariant
            u <= n == placed@.len() == adj@.len(),
            forall|w: int|
                0 <= w < u && !placed@[w] ==> exists|p: int|
                    0 <= p < placed@.len() && !placed@[p] && edge_to(
                        adj_of(adj@),
                        p,
                        #[trigger] (w + 0),
                    ),
        decreases n - u,
    {
        if !placed[u] {
            let mut p: usize = 0;
            let mut blocked = false;
            while p < n && !blocked
                invariant
                    p <= n == placed@.len() == adj@.len(),
                    u < n,
                    blocked ==> exists|q: int|
                        0 <= q < placed@.len() && !placed@[q] && edge_to(
                            adj_of(adj@),
                            q,
                            u as int,
                        ),
                    !blocked ==> forall|q: int|
                        0 <= q < p && !placed@[q] ==> !edge_to(adj_of(adj@), q, u as int),
                decreases n - p,
            {
                if !placed[p] && has_edge_to(adj, p, u) {
                    blocked = true;
                }
                p = p + 1;
            }
            if !blocked {
                return Some(u);
            }
        }
        u = u + 1;
    }
    None
}

/// A topological numbering of the strong subgraph, or nothing when no such
/// numbering exists.
fn topo_order(n: usize, adj: &Vec<Vec<(usize, u64)>>) -> (r: Option<Vec<usize>>)
    requires
        adj@.len() == n,
        forall|u: int, j: int|
            0 <= u < n && 0 <= j < adj@[u]@.len() ==> (#[trigger] adj@[u]@[j]).0 < n,
    ensures
        match r {
            Some(ord) => ord@.len() == n && numbering_ok(
                ord@.map_values(|x: usize| x as int),
                adj_of(adj@),
            ) && forall|i: int| 0 <= i < ord@.len() ==> (#[trigger] ord@[i]) < n,
            None => !acyclic(adj_of(adj@)),
        },
{
    let mut placed: Vec<bool> = Vec::new();
    let mut number: Vec<usize> = Vec::new();
    let mut i: usize = 0;
    while i < n
        invariant
            i <= n,
            placed@.len() == i,
            number@.len() == i,
            forall|j: int| 0 <= j < i ==> !placed@[j],
        decreases n - i,
    {
        placed.push(false);
        number.push(0);
        i = i + 1;
    }
    proof {
        lemma_count_none(placed@);
    }
    let mut c: usize = 0;
    while c < n
        invariant
            c <= n == placed@.len() == number@.len() == adj@.len(),
            c == count_true(placed@),
            forall|u: int| 0 <= u < n && placed@[u] ==> number@[u] < c,
            forall|u: int, v: int|
                edge_to(adj_of(adj@), u, v) && 0 <= v < n && placed@[v] ==> placed@[u],
            forall|u: int, v: int|
                edge_to(adj_of(adj@), u, v) && 0 <= v < n && placed@[u] && placed@[v]
                    ==> number@[u] < number@[v],
        decreases n - c,
    {
        match find_ready(adj, &placed) {
            Some(u) => {
                let ghost pre_placed = placed@;
                let ghost pre_number = number@;
                number.set(u, c);
                placed.set(u, true);
                proof {
                    lemma_count_update(pre_placed, u as int);
                    assert forall|x: int, v: int|
                        edge_to(adj_of(adj@), x, v) && 0 <= v < n && placed@[v]
                            implies placed@[x] by {
                        if v != u as int {
                            assert(pre_placed[v]);
                        } else {
                            assert(!pre_placed[x] ==> !edge_to(adj_of(adj@), x, u as int));
                        }
                    }
                    assert forall|x: int, v: int|
                        edge_to(adj_of(adj@), x, v) && 0 <= v < n && placed@[x] && placed@[v]
                            implies number@[x] < number@[v] by {
                        if v == u as int {
                            if x != u as int {
                                assert(pre_placed[x]);
                                assert(number@[x] == pre_number[x]);
                                assert(number@[x] < c);
                            } else {
                                assert(!pre_placed[u as int] ==> !edge_to(
                                    adj_of(adj@),
                                    u as int,
                                    u as int,
                                ));
                            }
                        } else {
                            assert(pre_placed[v]);
                            assert(pre_placed[x]);
                        }
                    }
                }
                c = c + 1;
            },
            None => {
                proof {
                    lemma_count_some_false(placed@);
                    lemma_stuck(adj_of(adj@), placed@);
                }
                return None;
            },
        }
    }
    proof {
        lemma_count_all(placed@);
        assert forall|i: int| 0 <= i < number@.len() implies (#[trigger] number@[i]) < n by {
            assert(placed@[i]);
        }
        let ordv = number@.map_values(|x: usize| x as int);
        assert forall|u: int, v: int| edge_to(adj_of(adj@), u, v) implies ordv[u] < ordv[v] by {
            assert(0 <= u < n);
            assert(exists|j: int|
                0 <= j < adj_of(adj@)[u].len() && (#[trigger] adj_of(adj@)[u][j]).0 == v);
            let j = choose|j: int|
                0 <= j < adj_of(adj@)[u].len() && (#[trigger] adj_of(adj@)[u][j]).0 == v;
            assert(0 <= v < n) by {
                assert(adj_of(adj@)[u][j].0 == v);
                assert(adj@[u]@[j].0 < n);
            }
            assert(placed@[u] && placed@[v]);
        }
    }
    Some(number)
}

proof fn lemma_count_none(s: Seq<bool>)
    requires
        forall|i: int| 0 <= i < s.len() ==> !s[i],
    ensures
        count_true(s) == 0,
    decreases s.len(),
{
    if s.len() > 0 {
        assert forall|i: int| 0 <= i < s.skip(1).len() implies !s.skip(1)[i] by {
            assert(s.skip(1)[i] == s[i + 1]);
        }
        lemma_count_none(s.skip(1));
    }
}

} // verus!

verus! {

/// A directive failed to render; the message names the offending token.
#[derive(Debug, Clone)]
pub struct AliasError {
    pub msg: String,
}

impl AliasError {
    /// An error carrying a diagnostic message.
    pub fn new(message: &str) -> (r: AliasError)
        ensures
            r.msg@ == message@,
    {
        AliasError { msg: message.to_owned() }
    }

    /// The diagnostic message.
    pub fn message(&self) -> (r: &str)
        ensures
            r@ == self.msg@,
    {
        self.msg.as_str()
    }
}

} // verus!

verus! {

/// Law: after any successful sequence of graph operations, a topological
/// numbering of the strong subgraph exists: the graph is acyclic.
pub proof fn law_acyclic(g: StoryGraph)
    requires
        g.wf(),
    ensures
        acyclic(adj_of(g.strong_edges@)),
{
    assert(numbering_ok(g.order@, adj_of(g.strong_edges@)));
}

} // verus!

verus! {

impl Default for StoryGraph {
    /// Same as `StoryGraph::new`.
    fn default() -> (r: StoryGraph)
        ensures
            r.wf(),
            r.aliases@.len() == 0,
            r.nodes@.len() == 0,
            r.start_id.0 == 0,
            !r.start_set,
    {
        StoryGraph::new()
    }
}

} // verus!
