//! Alias matching: the three stages of a query against one story graph.
//!
//! Stage A filters, for each declared alias, the entities that may play
//! it.  Stage B forms every assignment of pairwise-distinct entities to
//! the aliases.  Stage C keeps an assignment only when at least one
//! root-to-leaf path of strong edges has every beat satisfied under it.

use vstd::prelude::*;

use crate::alias_map::AliasMap;
use crate::entity::EntityId;
use crate::property::str_eq;
use crate::story_graph::{
    adj_of, edge_to, ConstraintsNotSatisfied, StoryGraph, StoryNodeId,
};
use crate::story_node::{alias_sat, node_sat, ConstrainedAlias};
use crate::story_world::{ent_get, ent_has, StoryWorld};

verus! {

/// Stage A: may this entity play this alias in this world?
pub open spec fn is_candidate(w: StoryWorld, ca: ConstrainedAlias, id: EntityId) -> bool {
    ent_has(w.entities@, id) && alias_sat(ca, ent_get(w.entities@, id))
}

/// Are the declared alias names pairwise distinct?
pub open spec fn distinct_alias_names(aliases: Seq<ConstrainedAlias>) -> bool {
    forall|i: int, j: int|
        0 <= i < j < aliases.len() ==> (#[trigger] aliases[i]).alias@ != (
        #[trigger] aliases[j]).alias@
}

/// A partial selection: the first `k` aliases assigned pairwise-distinct
/// candidate entities, in declaration order.
pub open spec fn partial_ok(
    w: StoryWorld,
    aliases: Seq<ConstrainedAlias>,
    sel: Seq<EntityId>,
    k: int,
) -> bool {
    &&& sel.len() == k
    &&& 0 <= k <= aliases.len()
    &&& forall|i: int| 0 <= i < k ==> is_candidate(w, aliases[i], #[trigger] sel[i])
    &&& forall|i: int, j: int| 0 <= i < j < k ==> #[trigger] sel[i] != #[trigger] sel[j]
}

/// A beat with no successor of either kind: a leaf of the combined graph.
pub open spec fn is_leaf(g: StoryGraph, u: int) -> bool {
    g.strong_edges@[u]@.len() == 0 && g.weak_edges@[u]@.len() == 0
}

/// A strong path from `u` to a combined-graph leaf, every beat of which is
/// satisfied under the binding.
pub open spec fn path_from(
    g: StoryGraph,
    w: StoryWorld,
    b: Map<Seq<char>, EntityId>,
    u: int,
    path: Seq<int>,
) -> bool {
    &&& path.len() >= 1
    &&& path[0] == u
    &&& forall|i: int| 0 <= i < path.len() ==> 0 <= #[trigger] path[i] < g.nodes@.len()
    &&& forall|i: int|
        0 <= i < path.len() - 1 ==> edge_to(adj_of(g.strong_edges@), #[trigger] path[i], path[i
            + 1])
    &&& is_leaf(g, path.last())
    &&& forall|i: int| 0 <= i < path.len() ==> node_sat(g.nodes@[#[trigger] path[i]], w, b)
}

/// Stage C: some satisfied strong path leads from the start to a leaf.
pub open spec fn survives(g: StoryGraph, w: StoryWorld, b: Map<Seq<char>, EntityId>) -> bool {
    exists|path: Seq<int>| path_from(g, w, b, g.start_id.0 as int, path)
}

/// The index of the alias carrying a name.
pub open spec fn alias_index(aliases: Seq<ConstrainedAlias>, k: Seq<char>) -> int {
    choose|i: int| 0 <= i < aliases.len() && (#[trigger] aliases[i]).alias@ == k
}

/// The binding map a selection denotes: each declared alias name to the
/// entity selected for it.
pub open spec fn binding_of(aliases: Seq<ConstrainedAlias>, sel: Seq<EntityId>) -> Map<
    Seq<char>,
    EntityId,
> {
    Map::new(
        |k: Seq<char>| exists|i: int| 0 <= i < aliases.len() && (#[trigger] aliases[i]).alias@ == k,
        |k: Seq<char>| sel[alias_index(aliases, k)],
    )
}

/// A full, valid binding: it assigns exactly the declared alias names,
/// each to a candidate entity of its alias, no entity twice, and at least
/// one satisfied strong path reaches a leaf under it.
pub open spec fn valid_binding(g: StoryGraph, w: StoryWorld, b: Map<Seq<char>, EntityId>) -> bool {
    &&& forall|k: Seq<char>|
        #[trigger] b.contains_key(k) <==> exists|i: int|
            0 <= i < g.aliases@.len() && (#[trigger] g.aliases@[i]).alias@ == k
    &&& forall|i: int|
        0 <= i < g.aliases@.len() ==> is_candidate(w, #[trigger] g.aliases@[i], b[g.aliases@[
            i
        ].alias@])
    &&& forall|k1: Seq<char>, k2: Seq<char>|
        b.contains_key(k1) && b.contains_key(k2) && k1 != k2 ==> #[trigger] b[k1] != #[trigger] b[
            k2
        ]
    &&& survives(g, w, b)
}

/// What `alias_candidates` returns.
///
/// A graph without beats offers nothing; one without aliases offers the
/// single empty binding; a start mark outside the graph, duplicated alias
/// names, or an empty set of valid bindings leave the constraints
/// unsatisfied; otherwise the returned bindings are exactly the valid
/// ones.
/// Is the start mark usable: set, and naming a beat of the graph?
pub open spec fn start_ok(g: StoryGraph) -> bool {
    g.start_set && g.start_id.0 < g.nodes@.len()
}

/// What a returned binding list must hold, graph by graph.  A graph with
/// neither aliases nor beats has nothing to offer; any other graph needs a
/// usable start mark; one without aliases then offers the single empty
/// binding; duplicated alias names can never fill a full binding; and
/// otherwise the list is exactly the valid bindings, each once.
pub open spec fn offers_list(g: StoryGraph, w: StoryWorld, list: Seq<AliasMap>) -> bool {
    if g.aliases@.len() == 0 && g.nodes@.len() == 0 {
        list.len() == 0
    } else if !start_ok(g) {
        false
    } else if g.aliases@.len() == 0 {
        list.len() == 1 && list[0]@ == Map::<Seq<char>, EntityId>::empty()
    } else if !distinct_alias_names(g.aliases@) {
        false
    } else {
        &&& list.len() >= 1
        &&& forall|x: int| 0 <= x < list.len() ==> valid_binding(g, w, (#[trigger] list[x])@)
        &&& forall|b: Map<Seq<char>, EntityId>|
            #[trigger] valid_binding(g, w, b) ==> exists|x: int|
                0 <= x < list.len() && (#[trigger] list[x])@ == b
        &&& forall|x: int, y: int|
            0 <= x < y < list.len() ==> (#[trigger] list[x])@ != (#[trigger] list[y])@
    }
}

/// When a query on a graph reports its constraints unsatisfied.
pub open spec fn offers_none(g: StoryGraph, w: StoryWorld) -> bool {
    if g.aliases@.len() == 0 && g.nodes@.len() == 0 {
        false
    } else if !start_ok(g) {
        true
    } else if g.aliases@.len() == 0 {
        false
    } else if !distinct_alias_names(g.aliases@) {
        true
    } else {
        forall|b: Map<Seq<char>, EntityId>| !valid_binding(g, w, b)
    }
}

pub open spec fn candidates_post(
    g: StoryGraph,
    w: StoryWorld,
    r: Result<Vec<AliasMap>, ConstraintsNotSatisfied>,
) -> bool {
    match r {
        Ok(list) => offers_list(g, w, list@),
        Err(_) => offers_none(g, w),
    }
}

proof fn lemma_path_extend(
    g: StoryGraph,
    w: StoryWorld,
    b: Map<Seq<char>, EntityId>,
    u: int,
    v: int,
    path: Seq<int>,
)
    requires
        path_from(g, w, b, v, path),
        edge_to(adj_of(g.strong_edges@), u, v),
        0 <= u < g.nodes@.len(),
        node_sat(g.nodes@[u], w, b),
    ensures
        path_from(g, w, b, u, seq![u] + path),
{
    let p2 = seq![u] + path;
    assert(p2.last() == path.last());
    assert forall|i: int| 0 <= i < p2.len() - 1 implies edge_to(
        adj_of(g.strong_edges@),
        #[trigger] p2[i],
        p2[i + 1],
    ) by {
        if i > 0 {
            assert(p2[i] == path[i - 1]);
            assert(p2[i + 1] == path[i]);
        }
    }
}

proof fn lemma_path_suffix(
    g: StoryGraph,
    w: StoryWorld,
    b: Map<Seq<char>, EntityId>,
    u: int,
    path: Seq<int>,
)
    requires
        path_from(g, w, b, u, path),
        path.len() > 1,
    ensures
        edge_to(adj_of(g.strong_edges@), u, path[1]),
        path_from(g, w, b, path[1], path.skip(1)),
{
    let p2 = path.skip(1);
    assert(p2.last() == path.last());
    assert forall|i: int| 0 <= i < p2.len() - 1 implies edge_to(
        adj_of(g.strong_edges@),
        #[trigger] p2[i],
        p2[i + 1],
    ) by {
        assert(p2[i] == path[i + 1]);
        assert(p2[i + 1] == path[i + 2]);
        assert(edge_to(adj_of(g.strong_edges@), path[i + 1], path[i + 2]));
    }
    assert forall|i: int| 0 <= i < p2.len() implies node_sat(g.nodes@[#[trigger] p2[i]], w, b) by {
        assert(p2[i] == path[i + 1]);
    }
}

impl StoryGraph {
    /// Can the binding still reach a leaf from this beat, every beat on
    /// the way satisfied?
    fn survives_from(&self, world: &StoryWorld, binding: &AliasMap, u: usize) -> (r: bool)
        requires
            self.wf(),
            u < self.nodes@.len(),
        ensures
            r == exists|path: Seq<int>| path_from(*self, *world, binding@, u as int, path),
        decreases self.nodes@.len() - self.order@[u as int],
    {
        let sat = self.nodes[u].are_world_constraints_satisfied(world)
            && self.nodes[u].are_relation_constraints_satisfied(world, binding);
        if !sat {
            proof {
                if exists|path: Seq<int>| path_from(*self, *world, binding@, u as int, path) {
                    let path = choose|path: Seq<int>|
                        path_from(*self, *world, binding@, u as int, path);
                    assert(node_sat(self.nodes@[path[0]], *world, binding@));
                    assert(false);
                }
            }
            return false;
        }
        let strong_n = self.strong_edges[u].len();
        let weak_n = self.weak_edges[u].len();
        if strong_n == 0 && weak_n == 0 {
            proof {
                let path = seq![u as int];
                assert(path.last() == u as int);
                assert(path_from(*self, *world, binding@, u as int, path));
            }
            return true;
        }
        let mut j: usize = 0;
        while j < strong_n
            invariant
                self.wf(),
                u < self.nodes@.len(),
                strong_n == self.strong_edges@[u as int]@.len(),
                j <= strong_n,
                node_sat(self.nodes@[u as int], *world, binding@),
                forall|j2: int|
                    0 <= j2 < j ==> !exists|path: Seq<int>|
                        path_from(
                            *self,
                            *world,
                            binding@,
                            (#[trigger] self.strong_edges@[u as int]@[j2]).0 as int,
                            path,
                        ),
            decreases strong_n - j,
        {
            let v = self.strong_edges[u][j].0;
            proof {
                assert((adj_of(self.strong_edges@)[u as int][j as int]).0 == v);
                assert(edge_to(adj_of(self.strong_edges@), u as int, v as int));
            }
            if self.survives_from(world, binding, v) {
                proof {
                    let path = choose|path: Seq<int>|
                        path_from(*self, *world, binding@, v as int, path);
                    lemma_path_extend(*self, *world, binding@, u as int, v as int, path);
                }
                return true;
            }
            j = j + 1;
        }
        proof {
            if exists|path: Seq<int>| path_from(*self, *world, binding@, u as int, path) {
                let path = choose|path: Seq<int>|
                    path_from(*self, *world, binding@, u as int, path);
                if path.len() == 1 {
                    assert(is_leaf(*self, u as int));
                    assert(false);
                } else {
                    lemma_path_suffix(*self, *world, binding@, u as int, path);
                    let v = path[1];
                    let j2 = choose|j2: int|
                        0 <= j2 < adj_of(self.strong_edges@)[u as int].len() && (
                        #[trigger] adj_of(self.strong_edges@)[u as int][j2]).0 == v;
                    assert(self.strong_edges@[u as int]@[j2].0 == v);
                    assert(false);
                }
            }
        }
        false
    }
}

} // verus!

use itertools::Itertools;

verus! {

/// Relies on itertools' `cartesian_product`: every pair of a selection and
/// a candidate, in row-major order.
#[verifier::external_body]
fn pair_product(sels: &Vec<Vec<EntityId>>, cands: &Vec<EntityId>) -> (r: Vec<
    (Vec<EntityId>, EntityId),
>)
    ensures
        r@.len() == sels@.len() * cands@.len(),
        forall|x: int, y: int|
            0 <= x < sels@.len() && 0 <= y < cands@.len() ==> (#[trigger] r@[x * cands@.len()
                + y]).0@ == sels@[x]@ && r@[x * cands@.len() + y].1 == cands@[y],
{
    sels.iter().cloned().cartesian_product(cands.iter().cloned()).collect()
}

/// An equal copy of a selection.
fn copy_ids(v: &Vec<EntityId>) -> (r: Vec<EntityId>)
    ensures
        r@ == v@,
{
    let n = v.len();
    let mut r: Vec<EntityId> = Vec::new();
    let mut i: usize = 0;
    while i < n
        invariant
            i <= n == v@.len(),
            r@ == v@.take(i as int),
        decreases n - i,
    {
        r.push(v[i]);
        proof {
            assert(r@ =~= v@.take(i as int + 1));
        }
        i = i + 1;
    }
    proof {
        assert(v@.take(n as int) =~= v@);
    }
    r
}

/// Does a selection already use this entity?
fn contains_id(v: &Vec<EntityId>, id: EntityId) -> (r: bool)
    ensures
        r == v@.contains(id),
{
    let n = v.len();
    let mut i: usize = 0;
    while i < n
        invariant
            i <= n == v@.len(),
            forall|j: int| 0 <= j < i ==> v@[j] != id,
        decreases n - i,
    {
        if v[i] == id {
            return true;
        }
        i = i + 1;
    }
    proof {
        assert(!v@.contains(id));
    }
    false
}

/// Are the declared alias names pairwise distinct?
fn distinct_names(aliases: &Vec<ConstrainedAlias>) -> (r: bool)
    ensures
        r == distinct_alias_names(aliases@),
{
    let n = aliases.len();
    let mut i: usize = 0;
    while i < n
        invariant
            i <= n == aliases@.len(),
            forall|a: int, b: int|
                0 <= a < i && a < b < n ==> (#[trigger] aliases@[a]).alias@ != (
                #[trigger] aliases@[b]).alias@,
        decreases n - i,
    {
        let mut j: usize = i + 1;
        while j < n
            invariant
                i < j <= n == aliases@.len(),
                forall|b: int|
                    i < b < j ==> (#[trigger] aliases@[b]).alias@ != aliases@[i as int].alias@,
            decreases n - j,
        {
            if str_eq(aliases[i].alias.as_str(), aliases[j].alias.as_str()) {
                return false;
            }
            j = j + 1;
        }
        i = i + 1;
    }
    true
}

/// Stage A for one alias: the identifiers of the entities that may play it.
fn candidates_for(world: &StoryWorld, ca: &ConstrainedAlias) -> (r: Vec<EntityId>)
    ensures
        forall|x: int| 0 <= x < r@.len() ==> is_candidate(*world, *ca, #[trigger] r@[x]),
        forall|id: EntityId| is_candidate(*world, *ca, id) ==> r@.contains(id),
        forall|x: int, y: int| 0 <= x < y < r@.len() ==> #[trigger] r@[x] != #[trigger] r@[y],
{
    let n = world.entities.len();
    let mut r: Vec<EntityId> = Vec::new();
    let mut e: usize = 0;
    proof {
        assert forall|id: EntityId|
            is_candidate(*world, *ca, id) && crate::story_world::ent_index(world.entities@, id)
                < 0 implies r@.contains(id) by {
            crate::story_world::lemma_ent_index(world.entities@, id);
        }
    }
    while e < n
        invariant
            e <= n == world.entities@.len(),
            forall|x: int| 0 <= x < r@.len() ==> is_candidate(*world, *ca, #[trigger] r@[x]),
            forall|id: EntityId|
                is_candidate(*world, *ca, id) && crate::story_world::ent_index(
                    world.entities@,
                    id,
                ) < e ==> r@.contains(id),
            forall|x: int|
                0 <= x < r@.len() ==> crate::story_world::ent_index(
                    world.entities@,
                    #[trigger] r@[x],
                ) < e,
            forall|x: int, y: int| 0 <= x < y < r@.len() ==> #[trigger] r@[x] != #[trigger] r@[y],
        decreases n - e,
    {
        let ghost pre = r@;
        let id_e = world.entities[e].id();
        let mut first = true;
        let mut j: usize = 0;
        while j < e
            invariant
                j <= e < n == world.entities@.len(),
                id_e == world.entities@[e as int].id,
                first <==> forall|j2: int|
                    0 <= j2 < j ==> (#[trigger] world.entities@[j2]).id != id_e,
            decreases e - j,
        {
            if world.entities[j].id() == id_e {
                first = false;
            }
            j = j + 1;
        }
        if first {
            proof {
                crate::story_world::lemma_ent_index_at(world.entities@, e as int);
                crate::story_world::lemma_ent_index(world.entities@, id_e);
            }
            if ca.is_satisfied_by(&world.entities[e]) {
                r.push(id_e);
                proof {
                    assert(ent_get(world.entities@, id_e) == world.entities@[e as int]);
                    assert(is_candidate(*world, *ca, id_e));
                    assert(crate::story_world::ent_index(world.entities@, id_e) == e);
                    assert forall|x: int, y: int|
                        0 <= x < y < r@.len() implies #[trigger] r@[x] != #[trigger] r@[y] by {
                        if y == r@.len() - 1 {
                            assert(r@[x] == pre[x]);
                            assert(crate::story_world::ent_index(world.entities@, pre[x]) < e);
                        }
                    }
                    assert forall|id: EntityId|
                        is_candidate(*world, *ca, id) && crate::story_world::ent_index(
                            world.entities@,
                            id,
                        ) < e + 1 implies r@.contains(id) by {
                        if crate::story_world::ent_index(world.entities@, id) < e {
                            assert(pre.contains(id));
                            let x = choose|x: int| 0 <= x < pre.len() && pre[x] == id;
                            assert(r@[x] == id);
                        } else {
                            crate::story_world::lemma_ent_index(world.entities@, id);
                            assert(id == id_e);
                            assert(r@[r@.len() - 1] == id);
                        }
                    }
                }
            } else {
                proof {
                    assert forall|id: EntityId|
                        is_candidate(*world, *ca, id) && crate::story_world::ent_index(
                            world.entities@,
                            id,
                        ) < e + 1 implies r@.contains(id) by {
                        if crate::story_world::ent_index(world.entities@, id) >= e {
                            crate::story_world::lemma_ent_index(world.entities@, id);
                            assert(id == id_e);
                            assert(ent_get(world.entities@, id_e) == world.entities@[e as int]);
                            assert(false);
                        }
                    }
                }
            }
        } else {
            proof {
                assert forall|id: EntityId|
                    is_candidate(*world, *ca, id) && crate::story_world::ent_index(
                        world.entities@,
                        id,
                    ) < e + 1 implies r@.contains(id) by {
                    if crate::story_world::ent_index(world.entities@, id) >= e {
                        crate::story_world::lemma_ent_index(world.entities@, id);
                        assert(id == id_e);
                        let j2 = choose|j2: int|
                            0 <= j2 < e && (#[trigger] world.entities@[j2]).id == id_e;
                        assert(false);
                    }
                }
            }
        }
        e = e + 1;
    }
    proof {
        assert forall|id: EntityId| is_candidate(*world, *ca, id) implies r@.contains(id) by {
            crate::story_world::lemma_ent_index(world.entities@, id);
        }
    }
    r
}

} // verus!

use vstd::arithmetic::div_mod::{lemma_fundamental_div_mod, lemma_fundamental_div_mod_converse};

verus! {

/// The selection a binding denotes, in alias declaration order.
pub open spec fn sel_of(aliases: Seq<ConstrainedAlias>, b: Map<Seq<char>, EntityId>) -> Seq<
    EntityId,
> {
    Seq::new(aliases.len(), |i: int| b[aliases[i].alias@])
}

proof fn lemma_valid_to_selection(g: StoryGraph, w: StoryWorld, b: Map<Seq<char>, EntityId>)
    requires
        valid_binding(g, w, b),
        distinct_alias_names(g.aliases@),
    ensures
        partial_ok(w, g.aliases@, sel_of(g.aliases@, b), g.aliases@.len() as int),
        b == binding_of(g.aliases@, sel_of(g.aliases@, b)),
{
    let sel = sel_of(g.aliases@, b);
    let n = g.aliases@.len() as int;
    assert forall|i: int, j: int| 0 <= i < j < n implies #[trigger] sel[i] != #[trigger] sel[j] by {
        let ki = g.aliases@[i].alias@;
        let kj = g.aliases@[j].alias@;
        assert(b.contains_key(ki));
        assert(b.contains_key(kj));
        assert(ki != kj);
        assert(b[ki] != b[kj]);
    }
    assert(b =~= binding_of(g.aliases@, sel)) by {
        assert forall|k: Seq<char>|
            b.contains_key(k) == binding_of(g.aliases@, sel).contains_key(k) by {
            assert(b.contains_key(k) <==> exists|i: int|
                0 <= i < g.aliases@.len() && (#[trigger] g.aliases@[i]).alias@ == k);
        }
        assert forall|k: Seq<char>| b.contains_key(k) implies b[k] == binding_of(
            g.aliases@,
            sel,
        )[k] by {
            let i0 = alias_index(g.aliases@, k);
            assert(exists|i: int| 0 <= i < g.aliases@.len() && (#[trigger] g.aliases@[i]).alias@
                == k);
            assert(0 <= i0 < g.aliases@.len() && g.aliases@[i0].alias@ == k);
            assert(sel[i0] == b[k]);
        }
    }
}

proof fn lemma_push_neq(a: Seq<EntityId>, b: Seq<EntityId>, u: EntityId, v: EntityId)
    requires
        a.len() == b.len(),
        a != b || u != v,
    ensures
        a.push(u) != b.push(v),
{
    if u != v {
        assert(a.push(u).last() == u);
        assert(b.push(v).last() == v);
    } else {
        if forall|i: int| 0 <= i < a.len() ==> a[i] == b[i] {
            assert(a =~= b);
            assert(false);
        }
        let i = choose|i: int| 0 <= i < a.len() && a[i] != b[i];
        assert(a.push(u)[i] == a[i]);
        assert(b.push(v)[i] == b[i]);
    }
}

proof fn lemma_binding_of_injective(
    aliases: Seq<ConstrainedAlias>,
    s1: Seq<EntityId>,
    s2: Seq<EntityId>,
)
    requires
        distinct_alias_names(aliases),
        s1.len() == aliases.len(),
        s2.len() == aliases.len(),
        s1 != s2,
    ensures
        binding_of(aliases, s1) != binding_of(aliases, s2),
{
    if forall|i: int| 0 <= i < s1.len() ==> s1[i] == s2[i] {
        assert(s1 =~= s2);
        assert(false);
    }
    let i = choose|i: int| 0 <= i < s1.len() && s1[i] != s2[i];
    let k = aliases[i].alias@;
    assert(exists|j: int| 0 <= j < aliases.len() && (#[trigger] aliases[j]).alias@ == k);
    let i0 = alias_index(aliases, k);
    assert(0 <= i0 < aliases.len() && aliases[i0].alias@ == k);
    assert(i0 == i);
    assert(binding_of(aliases, s1).contains_key(k));
    assert(binding_of(aliases, s1)[k] == s1[i]);
    assert(binding_of(aliases, s2)[k] == s2[i]);
    if binding_of(aliases, s1) == binding_of(aliases, s2) {
        assert(false);
    }
}

/// Turn a full selection into a binding of alias names.
fn to_alias_map(aliases: &Vec<ConstrainedAlias>, sel: &Vec<EntityId>) -> (m: AliasMap)
    requires
        sel@.len() == aliases@.len(),
        distinct_alias_names(aliases@),
    ensures
        m@ == binding_of(aliases@, sel@),
{
    let n = aliases.len();
    let mut m = AliasMap::new();
    let mut i: usize = 0;
    while i < n
        invariant
            i <= n == aliases@.len() == sel@.len(),
            distinct_alias_names(aliases@),
            forall|k: Seq<char>|
                #[trigger] m@.contains_key(k) <==> exists|j: int|
                    0 <= j < i && (#[trigger] aliases@[j]).alias@ == k,
            forall|j: int| 0 <= j < i ==> m@[(#[trigger] aliases@[j]).alias@] == sel@[j],
        decreases n - i,
    {
        let ghost pre = m@;
        m.associate(aliases[i].alias.as_str(), sel[i]);
        proof {
            assert forall|k: Seq<char>| #[trigger] m@.contains_key(k) <==> exists|j: int|
                0 <= j < i + 1 && (#[trigger] aliases@[j]).alias@ == k by {
                if m@.contains_key(k) {
                    if k == aliases@[i as int].alias@ {
                        assert(aliases@[i as int].alias@ == k);
                    } else {
                        assert(pre.contains_key(k));
                    }
                } else {
                    if exists|j: int| 0 <= j < i + 1 && (#[trigger] aliases@[j]).alias@ == k {
                        let j = choose|j: int|
                            0 <= j < i + 1 && (#[trigger] aliases@[j]).alias@ == k;
                        if j < i {
                            assert(pre.contains_key(k));
                            assert(false);
                        } else {
                            assert(false);
                        }
                    }
                }
            }
            assert forall|j: int| 0 <= j < i + 1 implies m@[(#[trigger] aliases@[j]).alias@]
                == sel@[j] by {
                if j < i {
                    assert(aliases@[j].alias@ != aliases@[i as int].alias@);
                    assert(pre[aliases@[j].alias@] == sel@[j]);
                }
            }
        }
        i = i + 1;
    }
    proof {
        assert(m@ =~= binding_of(aliases@, sel@)) by {
            assert forall|k: Seq<char>| m@.contains_key(k) implies m@[k] == binding_of(
                aliases@,
                sel@,
            )[k] by {
                let j = choose|j: int| 0 <= j < n && (#[trigger] aliases@[j]).alias@ == k;
                let i0 = alias_index(aliases@, k);
                assert(0 <= i0 < aliases@.len() && aliases@[i0].alias@ == k);
                assert(i0 == j);
                assert(m@[k] == sel@[j]);
            }
        }
    }
    m
}

} // verus!

verus! {

impl StoryGraph {
    /// Every valid binding of this graph's aliases in the given world, or
    /// `ConstraintsNotSatisfied` when none survives all three stages.
    #[verifier::rlimit(100)]
    pub fn alias_candidates(&self, world: &StoryWorld) -> (r: Result<
        Vec<AliasMap>,
        ConstraintsNotSatisfied,
    >)
        requires
            self.wf(),
        ensures
            candidates_post(*self, *world, r),
    {
        if self.aliases.len() == 0 && self.nodes.len() == 0 {
            return Ok(Vec::new());
        }
        if !self.start_set || self.start_id.0 >= self.nodes.len() {
            return Err(ConstraintsNotSatisfied);
        }
        if self.aliases.len() == 0 {
            let mut list: Vec<AliasMap> = Vec::new();
            list.push(AliasMap::new());
            return Ok(list);
        }
        if !distinct_names(&self.aliases) {
            return Err(ConstraintsNotSatisfied);
        }
        let alias_n = self.aliases.len();
        let mut cands: Vec<Vec<EntityId>> = Vec::new();
        let mut a: usize = 0;
        while a < alias_n
            invariant
                self.wf(),
                start_ok(*self),
                distinct_alias_names(self.aliases@),
                1 <= alias_n,
                a <= alias_n == self.aliases@.len(),
                cands@.len() == a,
                forall|i: int, x: int|
                    0 <= i < a && 0 <= x < cands@[i]@.len() ==> is_candidate(
                        *world,
                        self.aliases@[i],
                        #[trigger] cands@[i]@[x],
                    ),
                forall|i: int, id: EntityId|
                    0 <= i < a && #[trigger] is_candidate(*world, self.aliases@[i], id) ==> (
                    #[trigger] cands@[i])@.contains(id),
                forall|i: int| 0 <= i < a ==> (#[trigger] cands@[i])@.len() >= 1,
                forall|i: int, x: int, y: int|
                    0 <= i < a && 0 <= x < y < cands@[i]@.len() ==> (#[trigger] cands@[i]@[x])
                        != (#[trigger] cands@[i]@[y]),
            decreases alias_n - a,
        {
            let c = candidates_for(world, &self.aliases[a]);
            if c.len() == 0 {
                proof {
                    assert forall|b: Map<Seq<char>, EntityId>|
                        !valid_binding(*self, *world, b) by {
                        if valid_binding(*self, *world, b) {
                            assert(is_candidate(
                                *world,
                                self.aliases@[a as int],
                                b[self.aliases@[a as int].alias@],
                            ));
                            assert(c@.contains(b[self.aliases@[a as int].alias@]));
                            assert(false);
                        }
                    }
                }
                return Err(ConstraintsNotSatisfied);
            }
            cands.push(c);
            a = a + 1;
        }
        let mut sels: Vec<Vec<EntityId>> = Vec::new();
        let m0 = cands[0].len();
        let mut y: usize = 0;
        while y < m0
            invariant
                1 <= alias_n,
                cands@.len() == alias_n == self.aliases@.len(),
                y <= m0 == cands@[0]@.len(),
                sels@.len() == y,
                forall|i: int, x: int|
                    0 <= i < alias_n && 0 <= x < cands@[i]@.len() ==> is_candidate(
                        *world,
                        self.aliases@[i],
                        #[trigger] cands@[i]@[x],
                    ),
                forall|i: int, x2: int, y2: int|
                    0 <= i < alias_n && 0 <= x2 < y2 < cands@[i]@.len() ==> (
                    #[trigger] cands@[i]@[x2]) != (#[trigger] cands@[i]@[y2]),
                forall|x: int| 0 <= x < y ==> (#[trigger] sels@[x])@ == seq![cands@[0]@[x]],
            decreases m0 - y,
        {
            let mut s: Vec<EntityId> = Vec::new();
            s.push(cands[0][y]);
            sels.push(s);
            proof {
                assert((sels@[y as int])@ =~= seq![cands@[0]@[y as int]]);
            }
            y = y + 1;
        }
        proof {
            assert forall|x: int|
                0 <= x < sels@.len() implies partial_ok(
                *world,
                self.aliases@,
                (#[trigger] sels@[x])@,
                1,
            ) by {
                assert(sels@[x]@ == seq![cands@[0]@[x]]);
                assert(sels@[x]@[0] == cands@[0]@[x]);
            }
            assert forall|sel: Seq<EntityId>|
                #[trigger] partial_ok(*world, self.aliases@, sel, 1) implies exists|x: int|
                0 <= x < sels@.len() && (#[trigger] sels@[x])@ == sel by {
                assert(is_candidate(*world, self.aliases@[0], sel[0]));
                assert(cands@[0]@.contains(sel[0]));
                let x = choose|x: int| 0 <= x < cands@[0]@.len() && cands@[0]@[x] == sel[0];
                assert(sels@[x]@ == seq![cands@[0]@[x]]);
                assert(sels@[x]@ =~= sel);
            }
            assert forall|x: int, y2: int|
                0 <= x < y2 < sels@.len() implies (#[trigger] sels@[x])@ != (
            #[trigger] sels@[y2])@ by {
                assert(sels@[x]@ == seq![cands@[0]@[x]]);
                assert(sels@[y2]@ == seq![cands@[0]@[y2]]);
                assert(sels@[x]@[0] != sels@[y2]@[0]);
            }
        }
        let mut a: usize = 1;
        while a < alias_n
            invariant
                1 <= a <= alias_n == self.aliases@.len(),
                cands@.len() == alias_n,
                forall|i: int, x: int|
                    0 <= i < alias_n && 0 <= x < cands@[i]@.len() ==> is_candidate(
                        *world,
                        self.aliases@[i],
                        #[trigger] cands@[i]@[x],
                    ),
                forall|i: int, id: EntityId|
                    0 <= i < alias_n && #[trigger] is_candidate(*world, self.aliases@[i], id)
                        ==> (#[trigger] cands@[i])@.contains(id),
                forall|i: int, x2: int, y2: int|
                    0 <= i < alias_n && 0 <= x2 < y2 < cands@[i]@.len() ==> (
                    #[trigger] cands@[i]@[x2]) != (#[trigger] cands@[i]@[y2]),
                forall|x: int, y2: int|
                    0 <= x < y2 < sels@.len() ==> (#[trigger] sels@[x])@ != (
                    #[trigger] sels@[y2])@,
                forall|x: int|
                    0 <= x < sels@.len() ==> partial_ok(
                        *world,
                        self.aliases@,
                        (#[trigger] sels@[x])@,
                        a as int,
                    ),
                forall|sel: Seq<EntityId>|
                    #[trigger] partial_ok(*world, self.aliases@, sel, a as int) ==> exists|x: int|
                        0 <= x < sels@.len() && (#[trigger] sels@[x])@ == sel,
            decreases alias_n - a,
        {
            let m = cands[a].len();
            let pairs = pair_product(&sels, &cands[a]);
            let ghost old_sels = sels@;
            let ghost cm = cands@[a as int]@;
            let mut next: Vec<Vec<EntityId>> = Vec::new();
            let ghost mut prov: Seq<(int, int)> = Seq::empty();
            let total = pairs.len();
            let mut p: usize = 0;
            while p < total
                invariant
                    p <= total == pairs@.len(),
                    1 <= a < alias_n == self.aliases@.len(),
                    cands@.len() == alias_n,
                    m == cm.len(),
                    cm == cands@[a as int]@,
                    total == old_sels.len() * m,
                    forall|x: int, y2: int|
                        0 <= x < old_sels.len() && 0 <= y2 < m ==> (#[trigger] pairs@[x * (
                        m as int) + y2]).0@ == (old_sels[x])@ && pairs@[x * (m as int) + y2].1
                            == cm[y2],
                    forall|x: int|
                        0 <= x < old_sels.len() ==> partial_ok(
                            *world,
                            self.aliases@,
                            (#[trigger] old_sels[x])@,
                            a as int,
                        ),
                    forall|y2: int|
                        0 <= y2 < m ==> is_candidate(
                            *world,
                            self.aliases@[a as int],
                            #[trigger] cm[y2],
                        ),
                    forall|x: int, y2: int|
                        0 <= x < y2 < old_sels.len() ==> (#[trigger] old_sels[x])@ != (
                        #[trigger] old_sels[y2])@,
                    forall|y1: int, y2: int| 0 <= y1 < y2 < m ==> #[trigger] cm[y1] != #[trigger] cm[y2],
                    forall|z: int|
                        0 <= z < next@.len() ==> partial_ok(
                            *world,
                            self.aliases@,
                            (#[trigger] next@[z])@,
                            a as int + 1,
                        ),
                    prov.len() == next@.len(),
                    forall|z: int|
                        0 <= z < next@.len() ==> 0 <= (#[trigger] prov[z]).0 < old_sels.len() && 0
                            <= prov[z].1 < m && prov[z].0 * (m as int) + prov[z].1 < p && (
                        next@[z])@ == (old_sels[prov[z].0])@.push(cm[prov[z].1]),
                    forall|z1: int, z2: int|
                        0 <= z1 < z2 < next@.len() ==> (#[trigger] next@[z1])@ != (
                        #[trigger] next@[z2])@,
                    forall|x: int, y2: int|
                        0 <= x < old_sels.len() && 0 <= y2 < m && x * (m as int) + y2 < p && !(
                        old_sels[x])@.contains(cm[y2]) ==> exists|z: int|
                            0 <= z < next@.len() && (#[trigger] next@[z])@ == (old_sels[x])@.push(
                                cm[y2],
                            ),
                decreases total - p,
            {
                let ghost x0 = p as int / (m as int);
                let ghost y0 = p as int % (m as int);
                proof {
                    assert(m >= 1) by {
                        if m == 0 {
                            assert(total == old_sels.len() * 0);
                            assert(old_sels.len() * 0 == 0) by (nonlinear_arith);
                            assert(false);
                        }
                    }
                    lemma_fundamental_div_mod(p as int, m as int);
                    assert(0 <= y0 < m);
                    assert(x0 < old_sels.len()) by (nonlinear_arith)
                        requires
                            p as int == (m as int) * x0 + y0,
                            0 <= y0 < m,
                            (p as int) < old_sels.len() * (m as int),
                            m >= 1,
                            x0 >= 0,
                    ;
                    assert(x0 * (m as int) + y0 == p as int);
                    assert((pairs@[p as int]).0@ == (old_sels[x0])@);
                    assert(pairs@[p as int].1 == cm[y0]);
                }
                let ghost pre_next = next@;
                let keep = !contains_id(&pairs[p].0, pairs[p].1);
                if keep {
                    let mut s2 = copy_ids(&pairs[p].0);
                    s2.push(pairs[p].1);
                    next.push(s2);
                    proof {
                        prov = prov.push((x0, y0));
                        assert((next@.last())@ == (old_sels[x0])@.push(cm[y0]));
                        assert forall|z1: int, z2: int|
                            0 <= z1 < z2 < next@.len() implies (#[trigger] next@[z1])@ != (
                        #[trigger] next@[z2])@ by {
                            if z2 == next@.len() - 1 {
                                assert(next@[z1] == pre_next[z1]);
                                let x = prov[z1].0;
                                let y2 = prov[z1].1;
                                assert(x * (m as int) + y2 < p);
                                assert((x, y2) != (x0, y0));
                                assert((old_sels[x])@.len() == a);
                                assert((old_sels[x0])@.len() == a);
                                if x != x0 {
                                    assert((old_sels[x])@ != (old_sels[x0])@);
                                    lemma_push_neq((old_sels[x])@, (old_sels[x0])@, cm[y2], cm[y0]);
                                } else {
                                    assert(cm[y2] != cm[y0]);
                                    lemma_push_neq((old_sels[x])@, (old_sels[x0])@, cm[y2], cm[y0]);
                                }
                            } else {
                                assert(next@[z1] == pre_next[z1]);
                                assert(next@[z2] == pre_next[z2]);
                            }
                        }
                        assert(partial_ok(
                            *world,
                            self.aliases@,
                            (old_sels[x0])@.push(cm[y0]),
                            a as int + 1,
                        )) by {
                            let s3 = (old_sels[x0])@.push(cm[y0]);
                            assert forall|i: int|
                                0 <= i < a + 1 implies is_candidate(
                                *world,
                                self.aliases@[i],
                                #[trigger] s3[i],
                            ) by {
                                if i < a {
                                    assert(s3[i] == (old_sels[x0])@[i]);
                                } else {
                                    assert(s3[i] == cm[y0]);
                                }
                            }
                            assert forall|i: int, j: int|
                                0 <= i < j < a + 1 implies #[trigger] s3[i] != #[trigger] s3[j] by {
                                if j < a {
                                    assert(s3[i] == (old_sels[x0])@[i]);
                                    assert(s3[j] == (old_sels[x0])@[j]);
                                } else {
                                    assert(s3[j] == cm[y0]);
                                    assert(s3[i] == (old_sels[x0])@[i]);
                                    assert(!(old_sels[x0])@.contains(cm[y0]));
                                }
                            }
                        }
                    }
                }
                proof {
                    assert forall|x: int, y2: int|
                        0 <= x < old_sels.len() && 0 <= y2 < m && x * (m as int) + y2 < p + 1 && !(
                        old_sels[x])@.contains(cm[y2]) implies exists|z: int|
                        0 <= z < next@.len() && (#[trigger] next@[z])@ == (old_sels[x])@.push(
                            cm[y2],
                        ) by {
                        if x * (m as int) + y2 == p as int {
                            lemma_fundamental_div_mod_converse(p as int, m as int, x, y2);
                            assert(x == x0 && y2 == y0);
                            assert(keep);
                            assert(next@[next@.len() - 1]@ == (old_sels[x])@.push(cm[y2]));
                        } else {
                            assert(x * (m as int) + y2 < p);
                            let z = choose|z: int|
                                0 <= z < pre_next.len() && (#[trigger] pre_next[z])@ == (
                                old_sels[x])@.push(cm[y2]);
                            assert(next@[z] == pre_next[z]);
                        }
                    }
                }
                p = p + 1;
            }
            sels = next;
            proof {
                assert forall|sel: Seq<EntityId>|
                    #[trigger] partial_ok(*world, self.aliases@, sel, a as int + 1) implies exists|
                    x: int|
                    0 <= x < sels@.len() && (#[trigger] sels@[x])@ == sel by {
                    let prefix = sel.take(a as int);
                    assert(partial_ok(*world, self.aliases@, prefix, a as int)) by {
                        assert forall|i: int|
                            0 <= i < a implies is_candidate(
                            *world,
                            self.aliases@[i],
                            #[trigger] prefix[i],
                        ) by {
                            assert(prefix[i] == sel[i]);
                        }
                    }
                    let x = choose|x: int|
                        0 <= x < old_sels.len() && (#[trigger] old_sels[x])@ == prefix;
                    let e = sel[a as int];
                    assert(is_candidate(*world, self.aliases@[a as int], e));
                    assert(cm.contains(e));
                    let y2 = choose|y2: int| 0 <= y2 < cm.len() && cm[y2] == e;
                    assert(x * (m as int) + y2 < total) by (nonlinear_arith)
                        requires
                            0 <= x < old_sels.len(),
                            0 <= y2 < m,
                            total == old_sels.len() * (m as int),
                    ;
                    assert(!prefix.contains(e)) by {
                        if prefix.contains(e) {
                            let i = choose|i: int| 0 <= i < prefix.len() && prefix[i] == e;
                            assert(sel[i] == e);
                            assert(sel[i] != sel[a as int]);
                            assert(false);
                        }
                    }
                    let z = choose|z: int|
                        0 <= z < sels@.len() && (#[trigger] sels@[z])@ == (old_sels[x])@.push(
                            cm[y2],
                        );
                    assert((sels@[z])@ =~= sel);
                }
            }
            a = a + 1;
        }
        let mut out: Vec<AliasMap> = Vec::new();
        let ghost mut prov_out: Seq<int> = Seq::empty();
        let total = sels.len();
        let mut p: usize = 0;
        while p < total
            invariant
                p <= total == sels@.len(),
                self.wf(),
                start_ok(*self),
                distinct_alias_names(self.aliases@),
                alias_n == self.aliases@.len(),
                forall|x: int|
                    0 <= x < sels@.len() ==> partial_ok(
                        *world,
                        self.aliases@,
                        (#[trigger] sels@[x])@,
                        alias_n as int,
                    ),
                forall|sel: Seq<EntityId>|
                    #[trigger] partial_ok(*world, self.aliases@, sel, alias_n as int) ==> exists|
                    x: int|
                        0 <= x < sels@.len() && (#[trigger] sels@[x])@ == sel,
                forall|x: int, y2: int|
                    0 <= x < y2 < sels@.len() ==> (#[trigger] sels@[x])@ != (
                    #[trigger] sels@[y2])@,
                forall|x: int|
                    0 <= x < out@.len() ==> valid_binding(*self, *world, (#[trigger] out@[x])@),
                forall|q: int|
                    0 <= q < p && survives(
                        *self,
                        *world,
                        binding_of(self.aliases@, (#[trigger] sels@[q])@),
                    ) ==> exists|x: int|
                        0 <= x < out@.len() && (#[trigger] out@[x])@ == binding_of(
                            self.aliases@,
                            sels@[q]@,
                        ),
                prov_out.len() == out@.len(),
                forall|z: int|
                    0 <= z < out@.len() ==> 0 <= #[trigger] prov_out[z] < p && (out@[z])@
                        == binding_of(self.aliases@, (sels@[prov_out[z]])@),
                forall|z1: int, z2: int|
                    0 <= z1 < z2 < out@.len() ==> (#[trigger] out@[z1])@ != (
                    #[trigger] out@[z2])@,
            decreases total - p,
        {
            let m = to_alias_map(&self.aliases, &sels[p]);
            let ghost bm = binding_of(self.aliases@, sels@[p as int]@);
            let ghost pre_out = out@;
            if self.survives_from(world, &m, self.start_id.0) {
                out.push(m);
                proof {
                    prov_out = prov_out.push(p as int);
                    assert forall|z1: int, z2: int|
                        0 <= z1 < z2 < out@.len() implies (#[trigger] out@[z1])@ != (
                    #[trigger] out@[z2])@ by {
                        if z2 == out@.len() - 1 {
                            assert(out@[z1] == pre_out[z1]);
                            let q = prov_out[z1];
                            assert(0 <= q < p);
                            assert((sels@[q])@ != (sels@[p as int])@);
                            assert((sels@[q])@.len() == alias_n);
                            assert((sels@[p as int])@.len() == alias_n);
                            lemma_binding_of_injective(
                                self.aliases@,
                                (sels@[q])@,
                                (sels@[p as int])@,
                            );
                        } else {
                            assert(out@[z1] == pre_out[z1]);
                            assert(out@[z2] == pre_out[z2]);
                        }
                    }
                    assert forall|q: int|
                        0 <= q < p + 1 && survives(
                            *self,
                            *world,
                            binding_of(self.aliases@, (#[trigger] sels@[q])@),
                        ) implies exists|x: int|
                        0 <= x < out@.len() && (#[trigger] out@[x])@ == binding_of(
                            self.aliases@,
                            sels@[q]@,
                        ) by {
                        if q < p {
                            let z = choose|z: int|
                                0 <= z < pre_out.len() && (#[trigger] pre_out[z])@ == binding_of(
                                    self.aliases@,
                                    sels@[q]@,
                                );
                            assert(out@[z] == pre_out[z]);
                        } else {
                            assert(out@[out@.len() - 1]@ == binding_of(
                                self.aliases@,
                                sels@[q]@,
                            ));
                        }
                    }
                    let b = binding_of(self.aliases@, sels@[p as int]@);
                    assert(valid_binding(*self, *world, b)) by {
                        assert forall|i: int|
                            0 <= i < self.aliases@.len() implies is_candidate(
                            *world,
                            #[trigger] self.aliases@[i],
                            b[self.aliases@[i].alias@],
                        ) by {
                            let k = self.aliases@[i].alias@;
                            let i0 = alias_index(self.aliases@, k);
                            assert(0 <= i0 < self.aliases@.len() && self.aliases@[i0].alias@
                                == k);
                            assert(i0 == i);
                            assert(b[k] == sels@[p as int]@[i]);
                        }
                        assert forall|k1: Seq<char>, k2: Seq<char>|
                            b.contains_key(k1) && b.contains_key(k2) && k1 != k2 implies #[trigger] b[
                            k1
                        ] != #[trigger] b[k2] by {
                            let i1 = alias_index(self.aliases@, k1);
                            let i2 = alias_index(self.aliases@, k2);
                            assert(exists|i: int|
                                0 <= i < self.aliases@.len() && (#[trigger] self.aliases@[
                                i]).alias@ == k1);
                            assert(exists|i: int|
                                0 <= i < self.aliases@.len() && (#[trigger] self.aliases@[
                                i]).alias@ == k2);
                            assert(self.aliases@[i1].alias@ == k1);
                            assert(self.aliases@[i2].alias@ == k2);
                            assert(i1 != i2);
                            assert(b[k1] == sels@[p as int]@[i1]);
                            assert(b[k2] == sels@[p as int]@[i2]);
                        }
                    }
                }
            } else {
                proof {
                    assert(!survives(*self, *world, bm));
                }
            }
            p = p + 1;
        }
        if out.len() == 0 {
            proof {
                assert forall|b: Map<Seq<char>, EntityId>|
                    !valid_binding(*self, *world, b) by {
                    if valid_binding(*self, *world, b) {
                        lemma_valid_to_selection(*self, *world, b);
                        let sel = sel_of(self.aliases@, b);
                        let q = choose|q: int|
                            0 <= q < sels@.len() && (#[trigger] sels@[q])@ == sel;
                        assert(survives(*self, *world, binding_of(self.aliases@, sels@[q]@)));
                        assert(false);
                    }
                }
            }
            return Err(ConstraintsNotSatisfied);
        }
        proof {
            assert forall|b: Map<Seq<char>, EntityId>|
                #[trigger] valid_binding(*self, *world, b) implies exists|x: int|
                0 <= x < out@.len() && (#[trigger] out@[x])@ == b by {
                lemma_valid_to_selection(*self, *world, b);
                let sel = sel_of(self.aliases@, b);
                let q = choose|q: int| 0 <= q < sels@.len() && (#[trigger] sels@[q])@ == sel;
                assert(survives(*self, *world, binding_of(self.aliases@, sels@[q]@)));
            }
        }
        Ok(out)
    }
}

} // verus!

verus! {

/// The combined successors of a beat: strong first, weak after, as indices.
pub open spec fn combined_succs(g: StoryGraph, u: int) -> Seq<int> {
    g.strong_edges@[u]@.map_values(|e: (usize, u64)| e.0 as int) + g.weak_edges@[u]@.map_values(
        |v: usize| v as int,
    )
}

impl StoryGraph {
    /// The strong and weak successors of a beat whose world and relation
    /// constraints hold under the binding: what can play next.
    pub fn next(&self, node_id: StoryNodeId, world: &StoryWorld, alias_map: &AliasMap) -> (r: Vec<
        StoryNodeId,
    >)
        requires
            self.wf(),
            node_id.0 < self.nodes@.len(),
        ensures
            r@.map_values(|id: crate::story_graph::StoryNodeId| id.0 as int) == combined_succs(
                *self,
                node_id.0 as int,
            ).filter(|v: int| node_sat(self.nodes@[v], *world, alias_map@)),
    {
        let ghost cs = combined_succs(*self, node_id.0 as int);
        let ghost pred = |v: int| node_sat(self.nodes@[v], *world, alias_map@);
        let succs = self.all_connections(node_id);
        proof {
            assert(succs@.map_values(|id: crate::story_graph::StoryNodeId| id.0 as int) =~= cs);
            assert(cs.take(0) =~= Seq::<int>::empty());
            reveal(Seq::filter);
        }
        let n = succs.len();
        let mut r: Vec<StoryNodeId> = Vec::new();
        let mut i: usize = 0;
        while i < n
            invariant
                self.wf(),
                node_id.0 < self.nodes@.len(),
                i <= n == succs@.len(),
                cs == combined_succs(*self, node_id.0 as int),
                pred == (|v: int| node_sat(self.nodes@[v], *world, alias_map@)),
                succs@.map_values(|id: crate::story_graph::StoryNodeId| id.0 as int) == cs,
                forall|x: int| 0 <= x < n ==> (#[trigger] succs@[x]).0 < self.nodes@.len(),
                r@.map_values(|id: crate::story_graph::StoryNodeId| id.0 as int) == cs.take(
                    i as int,
                ).filter(pred),
            decreases n - i,
        {
            let v = succs[i];
            proof {
                assert(cs[i as int] == succs@[i as int].0 as int);
            }
            let sat = self.nodes[v.0].are_world_constraints_satisfied(world)
                && self.nodes[v.0].are_relation_constraints_satisfied(world, alias_map);
            let ghost pre = r@;
            if sat {
                r.push(v);
            }
            proof {
                reveal(Seq::filter);
                assert(cs.take(i as int + 1).drop_last() =~= cs.take(i as int));
                assert(cs.take(i as int + 1).last() == cs[i as int]);
                assert(pred(cs[i as int]) == sat);
                if sat {
                    assert(r@.map_values(|id: crate::story_graph::StoryNodeId| id.0 as int) =~=
                        pre.map_values(|id: crate::story_graph::StoryNodeId| id.0 as int).push(
                        v.0 as int,
                    ));
                } else {
                }
            }
            i = i + 1;
        }
        proof {
            assert(cs.take(n as int) =~= cs);
        }
        r
    }
}

} // verus!

verus! {

/// Law: every returned binding assigns distinct entities to distinct
/// aliases.
pub proof fn law_binding_unique(
    g: StoryGraph,
    w: StoryWorld,
    b: Map<Seq<char>, EntityId>,
    k1: Seq<char>,
    k2: Seq<char>,
)
    requires
        valid_binding(g, w, b),
        b.contains_key(k1),
        b.contains_key(k2),
        k1 != k2,
    ensures
        b[k1] != b[k2],
{
}

/// Is a binding among the views of a returned list?
pub open spec fn binding_in(list: Seq<AliasMap>, b: Map<Seq<char>, EntityId>) -> bool {
    exists|x: int| 0 <= x < list.len() && (#[trigger] list[x])@ == b
}

/// Law: two query results on equal inputs agree: they succeed together,
/// and on success they hold the same set of bindings.
pub proof fn law_query_deterministic(
    g: StoryGraph,
    w: StoryWorld,
    r1: Result<Vec<AliasMap>, ConstraintsNotSatisfied>,
    r2: Result<Vec<AliasMap>, ConstraintsNotSatisfied>,
)
    requires
        candidates_post(g, w, r1),
        candidates_post(g, w, r2),
    ensures
        r1 is Ok <==> r2 is Ok,
        r1 matches Ok(l1) ==> r2 matches Ok(l2) ==> forall|b: Map<Seq<char>, EntityId>|
            #[trigger] binding_in(l1@, b) <==> binding_in(l2@, b),
{
    match (r1, r2) {
        (Ok(_), Err(_)) => {
            lemma_offers_exclusive(g, w, r1);
        },
        (Err(_), Ok(_)) => {
            lemma_offers_exclusive(g, w, r2);
        },
        (Ok(l1), Ok(l2)) => {
            assert forall|b: Map<Seq<char>, EntityId>|
                #[trigger] binding_in(l1@, b) <==> binding_in(l2@, b) by {
                if g.nodes@.len() == 0 {
                } else if g.aliases@.len() == 0 {
                    if exists|x: int| 0 <= x < l1@.len() && (#[trigger] l1@[x])@ == b {
                        let x = choose|x: int| 0 <= x < l1@.len() && (#[trigger] l1@[x])@ == b;
                        assert(x == 0);
                        assert(l2@[0]@ == b);
                    }
                    if exists|y: int| 0 <= y < l2@.len() && (#[trigger] l2@[y])@ == b {
                        let y = choose|y: int| 0 <= y < l2@.len() && (#[trigger] l2@[y])@ == b;
                        assert(y == 0);
                        assert(l1@[0]@ == b);
                    }
                } else {
                    if exists|x: int| 0 <= x < l1@.len() && (#[trigger] l1@[x])@ == b {
                        let x = choose|x: int| 0 <= x < l1@.len() && (#[trigger] l1@[x])@ == b;
                        assert(valid_binding(g, w, b));
                    }
                    if exists|y: int| 0 <= y < l2@.len() && (#[trigger] l2@[y])@ == b {
                        let y = choose|y: int| 0 <= y < l2@.len() && (#[trigger] l2@[y])@ == b;
                        assert(valid_binding(g, w, b));
                    }
                }
            }
        },
        (Err(_), Err(_)) => {
        },
    }
}

proof fn lemma_offers_exclusive(
    g: StoryGraph,
    w: StoryWorld,
    r: Result<Vec<AliasMap>, ConstraintsNotSatisfied>,
)
    requires
        candidates_post(g, w, r),
        r is Ok,
    ensures
        !offers_none(g, w),
{
    match r {
        Ok(list) => {
            if g.nodes@.len() > 0 && g.aliases@.len() > 0 && g.start_id.0 < g.nodes@.len()
                && distinct_alias_names(g.aliases@) {
                assert(valid_binding(g, w, list@[0]@));
            }
        },
        Err(_) => {
        },
    }
}

} // verus!
