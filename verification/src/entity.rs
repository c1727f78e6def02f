//! Entities: identified property bags.

use vstd::prelude::*;

use crate::property::{Property, PropertyMap};

verus! {

/// Caller-assigned identifier of an entity; unique within a world snapshot.
/// The engine never generates identifiers of its own.
pub type EntityId = usize;

/// An identified property bag with an optional second, exclusory bag.
///
/// The positive bag describes the entity; the exclusory bag marks it as
/// specialized: such an entity only matches an alias whose constraints
/// explicitly mention every one of its exclusory property names with a
/// predicate that holds on the exclusory value.
#[derive(Debug, Clone)]
pub struct Entity {
    pub id: EntityId,
    pub properties: PropertyMap,
    pub exclusory_properties: PropertyMap,
}

impl Entity {
    /// A fresh entity with no properties.
    pub fn new(id: EntityId) -> (r: Entity)
        ensures
            r.id == id,
            r.properties@ == Map::<Seq<char>, Property>::empty(),
            r.exclusory_properties@ == Map::<Seq<char>, Property>::empty(),
    {
        Entity { id, properties: PropertyMap::new(), exclusory_properties: PropertyMap::new() }
    }

    /// This entity with one more positive property.
    pub fn with(self, property_name: &str, property: Property) -> (r: Entity)
        ensures
            r.id == self.id,
            r.properties@ == self.properties@.insert(property_name@, property),
            r.exclusory_properties == self.exclusory_properties,
    {
        let mut e = self;
        e.properties.insert(property_name, property);
        e
    }

    /// This entity with one more exclusory property.
    pub fn with_exclusory(self, property_name: &str, property: Property) -> (r: Entity)
        ensures
            r.id == self.id,
            r.properties == self.properties,
            r.exclusory_properties@ == self.exclusory_properties@.insert(property_name@, property),
    {
        let mut e = self;
        e.exclusory_properties.insert(property_name, property);
        e
    }

    /// The entity's identifier.
    pub fn id(&self) -> (r: EntityId)
        ensures
            r == self.id,
    {
        self.id
    }

    /// A positive property by name.
    pub fn get(&self, property: &str) -> (r: Option<&Property>)
        ensures
            match r {
                Some(p) => self.properties@.contains_key(property@) && *p
                    == self.properties@[property@],
                None => !self.properties@.contains_key(property@),
            },
    {
        self.properties.get(property)
    }

    /// An exclusory property by name.
    pub fn get_exclusory(&self, property: &str) -> (r: Option<&Property>)
        ensures
            match r {
                Some(p) => self.exclusory_properties@.contains_key(property@) && *p
                    == self.exclusory_properties@[property@],
                None => !self.exclusory_properties@.contains_key(property@),
            },
    {
        self.exclusory_properties.get(property)
    }
}

} // verus!
