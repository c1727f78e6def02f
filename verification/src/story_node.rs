//! Narrative beats and the roles they constrain.

use vstd::prelude::*;

use crate::alias_map::AliasMap;
use crate::constraint::{constraint_sat, constraints_sat, AliasRelation, Constraint};
use crate::entity::{Entity, EntityId};
use crate::property::{prop_eq, prop_in_int_range, prop_in_real_range, str_eq, Property};
use crate::story_world::StoryWorld;

verus! {

/// A role name within a story graph.
pub type Alias = String;

/// A role name paired with the constraints an entity must meet to play it.
#[derive(Debug, Clone)]
pub struct ConstrainedAlias {
    pub alias: Alias,
    pub constraints: Vec<Constraint>,
}

/// Does one constraint mention an exclusory property by name, with a
/// predicate that holds on the exclusory value?  `HasNot` never guards.
pub open spec fn guards_exclusory(c: Constraint, name: Seq<char>, value: Property) -> bool {
    match c {
        Constraint::Has(n) => n@ == name,
        Constraint::HasNot(_) => false,
        Constraint::Equals(n, p) => n@ == name && prop_eq(p, value),
        Constraint::IsInRange(n, lo, hi) => n@ == name && prop_in_int_range(value, lo, hi),
        Constraint::IsInRangeFloat(n, lo, hi) => n@ == name && prop_in_real_range(value, lo, hi),
    }
}

/// An alias is satisfied by an entity when every exclusory property of the
/// entity is guarded by some constraint of the alias, and every constraint
/// of the alias holds on the positive or on the exclusory bag.
pub open spec fn alias_sat(ca: ConstrainedAlias, e: Entity) -> bool {
    &&& forall|k: Seq<char>|
        #[trigger] e.exclusory_properties@.contains_key(k) ==> exists|i: int|
            0 <= i < ca.constraints@.len() && guards_exclusory(
                #[trigger] ca.constraints@[i],
                k,
                e.exclusory_properties@[k],
            )
    &&& forall|i: int|
        0 <= i < ca.constraints@.len() ==> (constraint_sat(
            #[trigger] ca.constraints@[i],
            e.properties@,
        ) || constraint_sat(ca.constraints@[i], e.exclusory_properties@))
}

/// Does one constraint guard this exclusory name and value?
fn guards(c: &Constraint, name: &str, value: &Property) -> (r: bool)
    ensures
        r == guards_exclusory(*c, name@, *value),
{
    match c {
        Constraint::Has(n) => str_eq(n.as_str(), name),
        Constraint::HasNot(_) => false,
        Constraint::Equals(n, p) => str_eq(n.as_str(), name) && p.same_value(value),
        Constraint::IsInRange(n, lo, hi) => str_eq(n.as_str(), name) && value.is_in_range(
            *lo,
            *hi,
        ),
        Constraint::IsInRangeFloat(n, lo, hi) => str_eq(n.as_str(), name)
            && value.is_in_range_float(*lo, *hi),
    }
}

impl ConstrainedAlias {
    /// A role under the given constraints.
    pub fn new(alias: &str, constraints: Vec<Constraint>) -> (r: ConstrainedAlias)
        ensures
            r.alias@ == alias@,
            r.constraints == constraints,
    {
        ConstrainedAlias { alias: alias.to_owned(), constraints }
    }

    /// May this entity play the role?
    pub fn is_satisfied_by(&self, entity: &Entity) -> (r: bool)
        ensures
            r == alias_sat(*self, *entity),
    {
        let ex = &entity.exclusory_properties;
        let n = ex.entries.len();
        let mut i: usize = 0;
        while i < n
            invariant
                i <= n == ex.entries@.len(),
                ex == entity.exclusory_properties,
                forall|j: int|
                    0 <= j < i ==> exists|ci: int|
                        0 <= ci < self.constraints@.len() && guards_exclusory(
                            #[trigger] self.constraints@[ci],
                            (#[trigger] ex.entries@[j]).0@,
                            ex@[ex.entries@[j].0@],
                        ),
            decreases n - i,
        {
            let name: &str = ex.entries[i].0.as_str();
            let value: &Property = match ex.get(name) {
                Some(v) => v,
                None => {
                    proof {
                        crate::property::lemma_map_has_exists(ex.entries@, name@);
                        assert(ex.entries@[i as int].0@ == name@);
                        assert(false);
                    }
                    return false;
                },
            };
            let m = self.constraints.len();
            let mut ci: usize = 0;
            let mut found = false;
            while ci < m && !found
                invariant
                    ci <= m == self.constraints@.len(),
                    found ==> ci >= 1 && guards_exclusory(
                        self.constraints@[ci - 1],
                        name@,
                        *value,
                    ),
                    !found ==> forall|j: int|
                        0 <= j < ci ==> !guards_exclusory(
                            #[trigger] self.constraints@[j],
                            name@,
                            *value,
                        ),
                decreases m - ci,
            {
                if guards(&self.constraints[ci], name, value) {
                    found = true;
                }
                ci = ci + 1;
            }
            if !found {
                proof {
                    assert(ex@.contains_key(name@));
                }
                return false;
            }
            i = i + 1;
        }
        proof {
            assert forall|k: Seq<char>| #[trigger]
                ex@.contains_key(k) implies exists|ci: int|
                0 <= ci < self.constraints@.len() && guards_exclusory(
                    #[trigger] self.constraints@[ci],
                    k,
                    ex@[k],
                ) by {
                crate::property::lemma_map_has_exists(ex.entries@, k);
                let j = choose|j: int| 0 <= j < ex.entries@.len() && (#[trigger] ex.entries@[j]).0@
                    == k;
                assert(ex.entries@[j].0@ == k);
            }
        }
        let m = self.constraints.len();
        let mut ci: usize = 0;
        while ci < m
            invariant
                ci <= m == self.constraints@.len(),
                ex == entity.exclusory_properties,
                forall|k: Seq<char>| #[trigger]
                    ex@.contains_key(k) ==> exists|ci2: int|
                        0 <= ci2 < self.constraints@.len() && guards_exclusory(
                            #[trigger] self.constraints@[ci2],
                            k,
                            ex@[k],
                        ),
                forall|j: int|
                    0 <= j < ci ==> (constraint_sat(#[trigger] self.constraints@[j], entity.properties@)
                        || constraint_sat(self.constraints@[j], entity.exclusory_properties@)),
            decreases m - ci,
        {
            if !self.constraints[ci].is_satisfied_by(&entity.properties)
                && !self.constraints[ci].is_satisfied_by(&entity.exclusory_properties) {
                return false;
            }
            ci = ci + 1;
        }
        true
    }
}

/// One narrative beat: a description, the constraints under which it can
/// play, and a directive template.
#[derive(Debug, Clone)]
pub struct StoryNode {
    pub description: String,
    pub relation_constraints: Vec<AliasRelation>,
    pub world_constraints: Vec<Constraint>,
    pub directive: String,
}

/// Do the node's world constraints hold on the world's global properties?
pub open spec fn node_world_sat(n: StoryNode, w: StoryWorld) -> bool {
    constraints_sat(n.world_constraints@, w.properties@)
}

/// Does one relation constraint hold under a binding?  Both aliases must be
/// bound; an absent relation pair contributes an empty property map.
pub open spec fn relation_holds(
    rel: AliasRelation,
    w: StoryWorld,
    b: Map<Seq<char>, EntityId>,
) -> bool {
    &&& b.contains_key(rel.me@)
    &&& b.contains_key(rel.other@)
    &&& constraints_sat(rel.constraints@, w.rel_props(b[rel.me@], b[rel.other@]))
}

/// Do all the node's relation constraints hold under a binding?
pub open spec fn node_relations_sat(
    n: StoryNode,
    w: StoryWorld,
    b: Map<Seq<char>, EntityId>,
) -> bool {
    forall|i: int|
        0 <= i < n.relation_constraints@.len() ==> relation_holds(
            #[trigger] n.relation_constraints@[i],
            w,
            b,
        )
}

/// A node is satisfied under a binding when its world constraints and all
/// its relation constraints hold.
pub open spec fn node_sat(n: StoryNode, w: StoryWorld, b: Map<Seq<char>, EntityId>) -> bool {
    node_world_sat(n, w) && node_relations_sat(n, w, b)
}

impl StoryNode {
    /// An empty beat.
    pub fn new() -> (r: StoryNode)
        ensures
            r.description@ == Seq::<char>::empty(),
            r.relation_constraints@.len() == 0,
            r.world_constraints@.len() == 0,
            r.directive@ == Seq::<char>::empty(),
    {
        StoryNode {
            description: String::new(),
            relation_constraints: Vec::new(),
            world_constraints: Vec::new(),
            directive: String::new(),
        }
    }

    /// This beat with a description.
    pub fn with_description(self, description: &str) -> (r: StoryNode)
        ensures
            r.description@ == description@,
            r.relation_constraints == self.relation_constraints,
            r.world_constraints == self.world_constraints,
            r.directive == self.directive,
    {
        let mut n = self;
        n.description = description.to_owned();
        n
    }

    /// This beat with one more relation constraint between two aliases.
    pub fn with_relation_constraints(self, me: &str, other: &str, constraints: Vec<
        Constraint,
    >) -> (r: StoryNode)
        ensures
            r.description == self.description,
            r.world_constraints == self.world_constraints,
            r.directive == self.directive,
            r.relation_constraints@.len() == self.relation_constraints@.len() + 1,
            r.relation_constraints@.take(self.relation_constraints@.len() as int)
                == self.relation_constraints@,
            r.relation_constraints@.last().me@ == me@,
            r.relation_constraints@.last().other@ == other@,
            r.relation_constraints@.last().constraints == constraints,
    {
        let mut n = self;
        let ghost pre = n.relation_constraints@;
        n.relation_constraints.push(AliasRelation::new(me, other, constraints));
        proof {
            assert(n.relation_constraints@.take(pre.len() as int) =~= pre);
        }
        n
    }

    /// This beat with one more world constraint.
    pub fn with_world_constraint(self, constraint: Constraint) -> (r: StoryNode)
        ensures
            r.description == self.description,
            r.relation_constraints == self.relation_constraints,
            r.directive == self.directive,
            r.world_constraints@ == self.world_constraints@.push(constraint),
    {
        let mut n = self;
        n.world_constraints.push(constraint);
        n
    }

    /// This beat with a directive template.
    pub fn with_directive(self, directive: &str) -> (r: StoryNode)
        ensures
            r.description == self.description,
            r.relation_constraints == self.relation_constraints,
            r.world_constraints == self.world_constraints,
            r.directive@ == directive@,
    {
        let mut n = self;
        n.directive = directive.to_owned();
        n
    }

    /// Do this beat's world constraints hold on the world?
    pub fn are_world_constraints_satisfied(&self, world: &StoryWorld) -> (r: bool)
        ensures
            r == node_world_sat(*self, *world),
    {
        let n = self.world_constraints.len();
        let mut i: usize = 0;
        while i < n
            invariant
                i <= n == self.world_constraints@.len(),
                forall|j: int|
                    0 <= j < i ==> constraint_sat(
                        #[trigger] self.world_constraints@[j],
                        world.properties@,
                    ),
            decreases n - i,
        {
            if !self.world_constraints[i].is_satisfied_by(&world.properties) {
                return false;
            }
            i = i + 1;
        }
        true
    }

    /// Do this beat's relation constraints hold under a binding?
    pub fn are_relation_constraints_satisfied(&self, world: &StoryWorld, alias_map: &AliasMap) -> (r:
        bool)
        ensures
            r == node_relations_sat(*self, *world, alias_map@),
    {
        let n = self.relation_constraints.len();
        let mut i: usize = 0;
        while i < n
            invariant
                i <= n == self.relation_constraints@.len(),
                forall|j: int|
                    0 <= j < i ==> relation_holds(
                        #[trigger] self.relation_constraints@[j],
                        *world,
                        alias_map@,
                    ),
            decreases n - i,
        {
            let rel = &self.relation_constraints[i];
            let me_id = match alias_map.get(rel.me.as_str()) {
                Some(id) => id,
                None => {
                    return false;
                },
            };
            let other_id = match alias_map.get(rel.other.as_str()) {
                Some(id) => id,
                None => {
                    return false;
                },
            };
            let holds = match world.relation_map(me_id, other_id) {
                Some(m) => rel.is_satisfied_by(m),
                None => {
                    let empty = crate::property::PropertyMap::new();
                    rel.is_satisfied_by(&empty)
                },
            };
            if !holds {
                return false;
            }
            i = i + 1;
        }
        true
    }
}

} // verus!

verus! {

/// A beat's constraints were not satisfied.
#[derive(Debug, Clone, Copy, PartialEq, Eq, Structural)]
pub struct NotSatisfied;

} // verus!

verus! {

impl Default for StoryNode {
    /// Same as `StoryNode::new`.
    fn default() -> (r: StoryNode)
        ensures
            r.description@ == Seq::<char>::empty(),
            r.relation_constraints@.len() == 0,
            r.world_constraints@.len() == 0,
            r.directive@ == Seq::<char>::empty(),
    {
        StoryNode::new()
    }
}

} // verus!
