//! The world snapshot a query runs against.
//!
//! A snapshot holds entities, directed relation property maps keyed by a
//! pair of entity identifiers, global world properties, and the story
//! identifiers the caller wants left out of a query.  It is read-only
//! during a query.
//!
//! Entities and relation maps are stored newest-first and read with
//! first-match semantics, so adding an entity or relation property under an
//! existing key acts as replacement.

use vstd::prelude::*;

use crate::entity::{Entity, EntityId};
use crate::property::{Property, PropertyMap};
use crate::StoryId;

verus! {

/// First-match test for an entity identifier.
pub open spec fn ent_has(s: Seq<Entity>, id: EntityId) -> bool
    decreases s.len(),
{
    if s.len() == 0 {
        false
    } else {
        s[0].id == id || ent_has(s.skip(1), id)
    }
}

/// The first entity with a given identifier.
pub open spec fn ent_get(s: Seq<Entity>, id: EntityId) -> Entity
    decreases s.len(),
{
    if s.len() == 0 {
        vstd::pervasive::arbitrary()
    } else if s[0].id == id {
        s[0]
    } else {
        ent_get(s.skip(1), id)
    }
}

pub proof fn lemma_ent_has_exists(s: Seq<Entity>, id: EntityId)
    ensures
        ent_has(s, id) <==> exists|i: int| 0 <= i < s.len() && (#[trigger] s[i]).id == id,
    decreases s.len(),
{
    if s.len() > 0 {
        lemma_ent_has_exists(s.skip(1), id);
        if s[0].id == id {
        } else if ent_has(s.skip(1), id) {
            let i = choose|i: int| 0 <= i < s.skip(1).len() && (#[trigger] s.skip(1)[i]).id == id;
            assert(s[i + 1].id == id);
        } else {
            assert forall|i: int| 0 <= i < s.len() implies (#[trigger] s[i]).id != id by {
                if i > 0 {
                    assert(s.skip(1)[i - 1] == s[i]);
                }
            }
        }
    }
}

pub proof fn lemma_ent_get_at(s: Seq<Entity>, i: int)
    requires
        0 <= i < s.len(),
        forall|j: int| 0 <= j < i ==> (#[trigger] s[j]).id != s[i].id,
    ensures
        ent_has(s, s[i].id),
        ent_get(s, s[i].id) == s[i],
    decreases i,
{
    if i > 0 {
        assert forall|j: int| 0 <= j < i - 1 implies (#[trigger] s.skip(1)[j]).id != s.skip(1)[i
            - 1].id by {
            assert(s.skip(1)[j] == s[j + 1]);
        }
        assert(s.skip(1)[i - 1] == s[i]);
        lemma_ent_get_at(s.skip(1), i - 1);
    }
}

/// First-match test for a directed relation key.
pub open spec fn rel_has(
    s: Seq<((EntityId, EntityId), PropertyMap)>,
    me: EntityId,
    other: EntityId,
) -> bool
    decreases s.len(),
{
    if s.len() == 0 {
        false
    } else {
        s[0].0 == (me, other) || rel_has(s.skip(1), me, other)
    }
}

/// The first relation map under a directed key.
pub open spec fn rel_get(
    s: Seq<((EntityId, EntityId), PropertyMap)>,
    me: EntityId,
    other: EntityId,
) -> PropertyMap
    decreases s.len(),
{
    if s.len() == 0 {
        vstd::pervasive::arbitrary()
    } else if s[0].0 == (me, other) {
        s[0].1
    } else {
        rel_get(s.skip(1), me, other)
    }
}

/// The read-only world snapshot.
#[derive(Debug)]
pub struct StoryWorld {
    pub entities: Vec<Entity>,
    pub relations: Vec<((EntityId, EntityId), PropertyMap)>,
    pub properties: PropertyMap,
    pub excluded: Vec<StoryId>,
}

impl StoryWorld {
    /// The property map of the directed relation pair, an empty map when
    /// the pair is absent.
    pub open spec fn rel_props(&self, me: EntityId, other: EntityId) -> Map<Seq<char>, Property> {
        if rel_has(self.relations@, me, other) {
            rel_get(self.relations@, me, other)@
        } else {
            Map::empty()
        }
    }

    /// An empty snapshot.
    pub fn new() -> (r: StoryWorld)
        ensures
            r.entities@.len() == 0,
            r.relations@.len() == 0,
            r.properties@ == Map::<Seq<char>, Property>::empty(),
            r.excluded@.len() == 0,
    {
        StoryWorld {
            entities: Vec::new(),
            relations: Vec::new(),
            properties: PropertyMap::new(),
            excluded: Vec::new(),
        }
    }

    /// This snapshot with one more entity; an entity already under the same
    /// identifier is superseded.
    pub fn with_entity(self, entity: Entity) -> (r: StoryWorld)
        ensures
            r.entities@ == seq![entity] + self.entities@,
            r.relations == self.relations,
            r.properties == self.properties,
            r.excluded == self.excluded,
            forall|id: EntityId|
                #[trigger] ent_has(r.entities@, id) == (id == entity.id || ent_has(
                    self.entities@,
                    id,
                )),
            ent_get(r.entities@, entity.id) == entity,
            forall|id: EntityId|
                id != entity.id ==> #[trigger] ent_get(r.entities@, id) == ent_get(
                    self.entities@,
                    id,
                ),
    {
        let ghost orig = self;
        let mut w = self;
        w.entities.insert(0, entity);
        proof {
            assert(w.entities@ =~= seq![w.entities@[0]] + orig.entities@);
            assert(w.entities@.skip(1) =~= orig.entities@);
        }
        w
    }

    /// This snapshot with all the given entities, in order.
    pub fn with_entities(self, entities: Vec<Entity>) -> (r: StoryWorld)
        ensures
            r.entities@ == entities@.reverse() + self.entities@,
            r.relations == self.relations,
            r.properties == self.properties,
            r.excluded == self.excluded,
    {
        let ghost orig = self;
        let ghost orig_ents = entities@;
        let mut w = self;
        let mut rest = entities;
        while rest.len() > 0
            invariant
                rest@.len() <= orig_ents.len(),
                rest@ == orig_ents.skip(orig_ents.len() - rest@.len()),
                w.entities@ == orig_ents.take(orig_ents.len() - rest@.len()).reverse()
                    + orig.entities@,
                w.relations == orig.relations,
                w.properties == orig.properties,
                w.excluded == orig.excluded,
            decreases rest@.len(),
        {
            let ghost k = orig_ents.len() - rest@.len();
            let ghost pre_rest = rest@;
            let e = rest.remove(0);
            w.entities.insert(0, e);
            proof {
                assert(pre_rest[0] == orig_ents[k]);
                assert(rest@ =~= orig_ents.skip(k + 1));
                assert(w.entities@ =~= orig_ents.take(k + 1).reverse() + orig.entities@);
            }
        }
        proof {
            assert(orig_ents.take(orig_ents.len() as int) =~= orig_ents);
        }
        w
    }

    /// This snapshot with one more property on the directed relation from
    /// `me` to `other`.
    pub fn with_relation(
        self,
        me: EntityId,
        other: EntityId,
        property_name: &str,
        property: Property,
    ) -> (r: StoryWorld)
        ensures
            r.entities == self.entities,
            r.properties == self.properties,
            r.excluded == self.excluded,
            r.relations@.len() == self.relations@.len() + 1,
            r.relations@.skip(1) == self.relations@,
            r.relations@[0].0 == (me, other),
            r.relations@[0].1@ == self.rel_props(me, other).insert(property_name@, property),
            r.rel_props(me, other) == self.rel_props(me, other).insert(property_name@, property),
            forall|a: EntityId, b: EntityId|
                (a, b) != (me, other) ==> #[trigger] r.rel_props(a, b) == self.rel_props(a, b),
    {
        let ghost orig = self;
        let mut w = self;
        let mut props: PropertyMap = match w.relation_map(me, other) {
            Some(m) => m.duplicate(),
            None => PropertyMap::new(),
        };
        proof {
            assert(props@ == orig.rel_props(me, other));
        }
        props.insert(property_name, property);
        let ghost pre = w.relations@;
        w.relations.insert(0, ((me, other), props));
        proof {
            assert(w.relations@.skip(1) =~= pre);
            assert forall|a: EntityId, b: EntityId|
                (a, b) != (me, other) implies #[trigger] w.rel_props(a, b) == orig.rel_props(
                a,
                b,
            ) by {
                assert(w.relations@[0].0 != (a, b));
                assert(rel_has(w.relations@, a, b) == rel_has(orig.relations@, a, b));
                if rel_has(orig.relations@, a, b) {
                    assert(rel_get(w.relations@, a, b) == rel_get(orig.relations@, a, b));
                }
            }
        }
        w
    }

    /// This snapshot with one more global world property.
    pub fn with_world_property(self, property_name: &str, property: Property) -> (r: StoryWorld)
        ensures
            r.entities == self.entities,
            r.relations == self.relations,
            r.excluded == self.excluded,
            r.properties@ == self.properties@.insert(property_name@, property),
    {
        let mut w = self;
        w.properties.insert(property_name, property);
        w
    }

    /// Mark story identifiers to be left out of queries on this snapshot.
    pub fn exclude(&mut self, story_ids: &[StoryId])
        ensures
            final(self).entities == old(self).entities,
            final(self).relations == old(self).relations,
            final(self).properties == old(self).properties,
            final(self).excluded@ == old(self).excluded@ + story_ids@,
    {
        let n = story_ids.len();
        let mut i: usize = 0;
        while i < n
            invariant
                i <= n == story_ids@.len(),
                self.entities == old(self).entities,
                self.relations == old(self).relations,
                self.properties == old(self).properties,
                self.excluded@ == old(self).excluded@ + story_ids@.take(i as int),
            decreases n - i,
        {
            self.excluded.push(story_ids[i]);
            proof {
                assert(self.excluded@ =~= old(self).excluded@ + story_ids@.take(i as int + 1));
            }
            i = i + 1;
        }
        proof {
            assert(story_ids@.take(n as int) =~= story_ids@);
        }
    }

    /// Is a story identifier left in for queries on this snapshot?
    pub fn is_included(&self, story_id: StoryId) -> (r: bool)
        ensures
            r == !self.excluded@.contains(story_id),
    {
        let n = self.excluded.len();
        let mut i: usize = 0;
        while i < n
            invariant
                i <= n == self.excluded@.len(),
                forall|j: int| 0 <= j < i ==> self.excluded@[j] != story_id,
            decreases n - i,
        {
            if self.excluded[i] == story_id {
                return false;
            }
            i = i + 1;
        }
        proof {
            assert(!self.excluded@.contains(story_id));
        }
        true
    }

    /// The first entity under an identifier.
    pub fn entity(&self, id: EntityId) -> (r: Option<&Entity>)
        ensures
            match r {
                Some(e) => ent_has(self.entities@, id) && *e == ent_get(self.entities@, id),
                None => !ent_has(self.entities@, id),
            },
    {
        let n = self.entities.len();
        let mut i: usize = 0;
        while i < n
            invariant
                i <= n == self.entities@.len(),
                forall|j: int| 0 <= j < i ==> (#[trigger] self.entities@[j]).id != id,
            decreases n - i,
        {
            if self.entities[i].id() == id {
                proof {
                    lemma_ent_get_at(self.entities@, i as int);
                }
                return Some(&self.entities[i]);
            }
            i = i + 1;
        }
        proof {
            lemma_ent_has_exists(self.entities@, id);
        }
        None
    }

    /// The first relation map under a directed pair of identifiers.
    pub fn relation_map(&self, me: EntityId, other: EntityId) -> (r: Option<&PropertyMap>)
        ensures
            match r {
                Some(m) => rel_has(self.relations@, me, other) && *m == rel_get(
                    self.relations@,
                    me,
                    other,
                ) && m@ == self.rel_props(me, other),
                None => !rel_has(self.relations@, me, other) && self.rel_props(me, other)
                    == Map::<Seq<char>, Property>::empty(),
            },
    {
        let n = self.relations.len();
        let mut i: usize = 0;
        while i < n
            invariant
                i <= n == self.relations@.len(),
                forall|j: int| 0 <= j < i ==> (#[trigger] self.relations@[j]).0 != (me, other),
            decreases n - i,
        {
            if self.relations[i].0.0 == me && self.relations[i].0.1 == other {
                proof {
                    lemma_rel_get_at(self.relations@, i as int);
                }
                return Some(&self.relations[i].1);
            }
            i = i + 1;
        }
        proof {
            lemma_rel_has_exists(self.relations@, me, other);
        }
        None
    }

    /// A global world property by name.
    pub fn world_property(&self, property_name: &str) -> (r: Option<&Property>)
        ensures
            match r {
                Some(p) => self.properties@.contains_key(property_name@) && *p
                    == self.properties@[property_name@],
                None => !self.properties@.contains_key(property_name@),
            },
    {
        self.properties.get(property_name)
    }
}

pub proof fn lemma_rel_has_exists(
    s: Seq<((EntityId, EntityId), PropertyMap)>,
    me: EntityId,
    other: EntityId,
)
    ensures
        rel_has(s, me, other) <==> exists|i: int|
            0 <= i < s.len() && (#[trigger] s[i]).0 == (me, other),
    decreases s.len(),
{
    if s.len() > 0 {
        lemma_rel_has_exists(s.skip(1), me, other);
        if s[0].0 == (me, other) {
        } else if rel_has(s.skip(1), me, other) {
            let i = choose|i: int|
                0 <= i < s.skip(1).len() && (#[trigger] s.skip(1)[i]).0 == (me, other);
            assert(s[i + 1].0 == (me, other));
        } else {
            assert forall|i: int| 0 <= i < s.len() implies (#[trigger] s[i]).0 != (me, other) by {
                if i > 0 {
                    assert(s.skip(1)[i - 1] == s[i]);
                }
            }
        }
    }
}

pub proof fn lemma_rel_get_at(s: Seq<((EntityId, EntityId), PropertyMap)>, i: int)
    requires
        0 <= i < s.len(),
        forall|j: int| 0 <= j < i ==> (#[trigger] s[j]).0 != s[i].0,
    ensures
        rel_has(s, s[i].0.0, s[i].0.1),
        rel_get(s, s[i].0.0, s[i].0.1) == s[i].1,
    decreases i,
{
    if i > 0 {
        assert forall|j: int| 0 <= j < i - 1 implies (#[trigger] s.skip(1)[j]).0 != s.skip(1)[i
            - 1].0 by {
            assert(s.skip(1)[j] == s[j + 1]);
        }
        assert(s.skip(1)[i - 1] == s[i]);
        lemma_rel_get_at(s.skip(1), i - 1);
    }
}

} // verus!

verus! {

/// The first index holding an entity with this identifier.
pub open spec fn ent_index(s: Seq<Entity>, id: EntityId) -> int
    decreases s.len(),
{
    if s.len() == 0 {
        0
    } else if s[0].id == id {
        0
    } else {
        1 + ent_index(s.skip(1), id)
    }
}

pub proof fn lemma_ent_index(s: Seq<Entity>, id: EntityId)
    requires
        ent_has(s, id),
    ensures
        0 <= ent_index(s, id) < s.len(),
        s[ent_index(s, id)].id == id,
        forall|j: int| 0 <= j < ent_index(s, id) ==> (#[trigger] s[j]).id != id,
        ent_get(s, id) == s[ent_index(s, id)],
    decreases s.len(),
{
    if s.len() > 0 && s[0].id != id {
        lemma_ent_index(s.skip(1), id);
        assert forall|j: int| 0 <= j < ent_index(s, id) implies (#[trigger] s[j]).id != id by {
            if j > 0 {
                assert(s.skip(1)[j - 1] == s[j]);
            }
        }
    }
}

pub proof fn lemma_ent_index_at(s: Seq<Entity>, i: int)
    requires
        0 <= i < s.len(),
        forall|j: int| 0 <= j < i ==> (#[trigger] s[j]).id != s[i].id,
    ensures
        ent_has(s, s[i].id),
        ent_index(s, s[i].id) == i,
    decreases i,
{
    if i == 0 {
    } else {
        assert forall|j: int| 0 <= j < i - 1 implies (#[trigger] s.skip(1)[j]).id != s.skip(1)[i
            - 1].id by {
            assert(s.skip(1)[j] == s[j + 1]);
        }
        assert(s.skip(1)[i - 1] == s[i]);
        lemma_ent_index_at(s.skip(1), i - 1);
    }
}

} // verus!

verus! {

impl Default for StoryWorld {
    /// Same as `StoryWorld::new`.
    fn default() -> (r: StoryWorld)
        ensures
            r.entities@.len() == 0,
            r.relations@.len() == 0,
            r.properties@ == Map::<Seq<char>, Property>::empty(),
            r.excluded@.len() == 0,
    {
        StoryWorld::new()
    }
}

} // verus!
