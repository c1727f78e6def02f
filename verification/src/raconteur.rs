//! The registry of story graphs, and queries across all of them.

use vstd::prelude::*;

use crate::alias_map::AliasMap;
use crate::matching::{offers_list, offers_none};
use crate::story_graph::StoryGraph;
use crate::story_world::StoryWorld;
use crate::StoryId;

verus! {

/// A story graph that can play now, with every valid alias binding.
pub struct StoryCandidate {
    pub id: StoryId,
    pub alias_candidates: Vec<AliasMap>,
}

/// When a graph takes part in a query's result: it is not excluded by the
/// snapshot, and it does not report its constraints unsatisfied.
pub open spec fn graph_offers(g: StoryGraph, w: StoryWorld, id: StoryId) -> bool {
    !w.excluded@.contains(id) && !offers_none(g, w)
}

/// What `query` returns: one candidate per offering graph, in story order,
/// each carrying exactly that graph's valid bindings.
pub open spec fn query_post(
    graphs: Seq<StoryGraph>,
    w: StoryWorld,
    r: Seq<StoryCandidate>,
) -> bool {
    &&& forall|x: int|
        0 <= x < r.len() ==> (#[trigger] r[x]).id < graphs.len() && graph_offers(
            graphs[r[x].id as int],
            w,
            r[x].id,
        ) && offers_list(graphs[r[x].id as int], w, r[x].alias_candidates@)
    &&& forall|x: int, y: int| 0 <= x < y < r.len() ==> (#[trigger] r[x]).id < (#[trigger] r[y]).id
    &&& forall|id: StoryId|
        id < graphs.len() && #[trigger] graph_offers(graphs[id as int], w, id) ==> exists|x: int|
            0 <= x < r.len() && (#[trigger] r[x]).id == id
}

/// The registry: story graphs in insertion order; the position of a graph
/// is its stable identity.
pub struct Raconteur {
    pub stories: Vec<StoryGraph>,
}

impl Raconteur {
    /// Well-formedness of every held graph.
    pub open spec fn wf(&self) -> bool {
        forall|i: int| 0 <= i < self.stories@.len() ==> (#[trigger] self.stories@[i]).wf()
    }

    /// An empty registry.
    pub fn new() -> (r: Raconteur)
        ensures
            r.wf(),
            r.stories@.len() == 0,
    {
        Raconteur { stories: Vec::new() }
    }

    /// Add a graph; its position is its story identifier.
    pub fn insert(&mut self, story_graph: StoryGraph) -> (r: StoryId)
        requires
            old(self).wf(),
            story_graph.wf(),
        ensures
            final(self).wf(),
            r == old(self).stories@.len(),
            final(self).stories@ == old(self).stories@.push(story_graph),
    {
        let id = self.stories.len();
        self.stories.push(story_graph);
        id
    }

    /// One graph by identifier.
    pub fn get(&self, story_id: StoryId) -> (r: &StoryGraph)
        requires
            story_id < self.stories@.len(),
        ensures
            *r == self.stories@[story_id as int],
    {
        &self.stories[story_id]
    }

    /// Run every graph the snapshot does not exclude, keeping those whose
    /// constraints can be satisfied, each with all its valid bindings.
    pub fn query(&self, world: &StoryWorld) -> (r: Vec<StoryCandidate>)
        requires
            self.wf(),
        ensures
            query_post(self.stories@, *world, r@),
    {
        let n = self.stories.len();
        let mut r: Vec<StoryCandidate> = Vec::new();
        let mut i: usize = 0;
        while i < n
            invariant
                self.wf(),
                i <= n == self.stories@.len(),
                forall|x: int|
                    0 <= x < r@.len() ==> (#[trigger] r@[x]).id < i && graph_offers(
                        self.stories@[r@[x].id as int],
                        *world,
                        r@[x].id,
                    ) && offers_list(
                        self.stories@[r@[x].id as int],
                        *world,
                        r@[x].alias_candidates@,
                    ),
                forall|x: int, y: int|
                    0 <= x < y < r@.len() ==> (#[trigger] r@[x]).id < (#[trigger] r@[y]).id,
                forall|id: StoryId|
                    id < i && #[trigger] graph_offers(self.stories@[id as int], *world, id)
                        ==> exists|x: int| 0 <= x < r@.len() && (#[trigger] r@[x]).id == id,
            decreases n - i,
        {
            let ghost pre = r@;
            if world.is_included(i) {
                match self.stories[i].alias_candidates(world) {
                    Ok(list) => {
                        let ghost lg = list@;
                        r.push(StoryCandidate { id: i, alias_candidates: list });
                        proof {
                            let g = self.stories@[i as int];
                            assert(!offers_none(g, *world)) by {
                                if g.nodes@.len() > 0 && g.aliases@.len() > 0 && g.start_id.0
                                    < g.nodes@.len() && crate::matching::distinct_alias_names(
                                    g.aliases@,
                                ) {
                                    assert(crate::matching::valid_binding(g, *world, lg[0]@));
                                }
                            }
                            assert forall|id: StoryId|
                                id < i + 1 && #[trigger] graph_offers(
                                    self.stories@[id as int],
                                    *world,
                                    id,
                                ) implies exists|x: int|
                                0 <= x < r@.len() && (#[trigger] r@[x]).id == id by {
                                if id < i {
                                    let x = choose|x: int|
                                        0 <= x < pre.len() && (#[trigger] pre[x]).id == id;
                                    assert(r@[x].id == id);
                                } else {
                                    assert(r@[r@.len() - 1].id == id);
                                }
                            }
                        }
                    },
                    Err(_) => {
                        proof {
                            assert(!graph_offers(self.stories@[i as int], *world, i));
                        }
                    },
                }
            } else {
                proof {
                    assert(!graph_offers(self.stories@[i as int], *world, i));
                }
            }
            i = i + 1;
        }
        r
    }
}

} // verus!

verus! {

impl Default for Raconteur {
    /// Same as `Raconteur::new`.
    fn default() -> (r: Raconteur)
        ensures
            r.wf(),
            r.stories@.len() == 0,
    {
        Raconteur::new()
    }
}

} // verus!
