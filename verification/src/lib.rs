//! An interactive narrative selection engine.
//!
//! A library of authored story graphs (directed acyclic graphs of narrative
//! beats) is matched against a world snapshot of entities, relations and
//! global properties.  Each graph whose constraints are satisfiable is
//! returned together with every valid binding of its symbolic roles
//! (aliases) to concrete entities.

use vstd::prelude::*;

mod alias_map;
mod constraint;
mod directive;
mod entity;
mod matching;
mod property;
mod raconteur;
mod story_graph;
mod story_node;
mod story_world;
mod text;

pub use alias_map::AliasMap;
pub use constraint::{AliasRelation, Constraint};
pub use entity::{Entity, EntityId};
pub use property::{Property, PropertyMap};
pub use raconteur::{Raconteur, StoryCandidate};
pub use story_graph::{AliasError, ConstraintsNotSatisfied, CycleDetected, StoryGraph, StoryNodeId};
pub use story_node::{Alias, ConstrainedAlias, NotSatisfied, StoryNode};
pub use story_world::StoryWorld;

verus! {

/// Position of a story graph in the registry: its stable identity.
pub type StoryId = usize;

} // verus!
