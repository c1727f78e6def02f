use raconteur::{Constraint, Entity, Property, StoryGraph, StoryNode, StoryWorld};

fn player_meets_citizen_with_two_outcomes() -> StoryGraph {
    let mut graph = StoryGraph::new();

    graph.add_alias("player", vec![Constraint::has("protagonist")]);
    graph.add_alias("citizen", vec![]);

    let start = graph.add(
        StoryNode::new()
            .with_description("player talks to a new citizen")
            .with_relation_constraints("player", "citizen", vec![Constraint::has_not(
                "previously_met",
            )])
            .with_directive("add relation player citizen previously_met"),
    );

    graph.set_start_node(start);

    let citizen_greeting = graph.add(
        StoryNode::new()
            .with_description("citizen greets player")
            .with_directive(r#"citizen says "Long days and pleasant nights.""#),
    );

    let _ = graph.connect(start, citizen_greeting);

    let ask_for_directions = graph.add(
        StoryNode::new()
            .with_description("player asks for directions")
            .with_directive(r#"player says "Could you tell me where I could find...""#),
    );

    let _ = graph.connect(citizen_greeting, ask_for_directions);

    let goodbye = graph.add(
        StoryNode::new()
            .with_description("player quits dialogue")
            .with_directive(r#"player says "Goodbye, sai.""#),
    );

    let _ = graph.connect(citizen_greeting, goodbye);

    graph
}

#[test]
fn story_graph_graph_cycle() {
    let mut graph = StoryGraph::new();

    let a = graph.add(StoryNode::new());
    let b = graph.add(StoryNode::new());
    let c = graph.add(StoryNode::new());

    let result = graph.connect(a, b);
    assert!(result.is_ok());
    let result = graph.connect(b, c);
    assert!(result.is_ok());
    let result = graph.connect(c, a);
    assert!(result.is_err());
}

#[test]
fn story_graph_graph_cycle_weak() {
    let mut graph = StoryGraph::new();

    let a = graph.add(StoryNode::new());
    let b = graph.add(StoryNode::new());
    let c = graph.add(StoryNode::new());

    let result = graph.connect(a, b);
    assert!(result.is_ok());
    let result = graph.connect(b, c);
    assert!(result.is_ok());
    let result = graph.connect_weak(c, a);
    assert!(result.is_ok());
}

#[test]
fn story_graph_traversing_a_graph_of_depth_2() {
    let graph = player_meets_citizen_with_two_outcomes();

    let mut node_index = graph.start();
    let mut nodes_traversed = 0;
    loop {
        node_index = graph.connections(node_index)[0];
        nodes_traversed += 1;
        if graph.connections(node_index).is_empty() {
            break;
        }
    }

    assert_eq!(nodes_traversed, 2);
}

#[test]
fn story_graph_a_graph_with_no_leaf_node_is_err() {
    let mut graph = StoryGraph::new();
    graph.add_alias("person", vec![]);
    let a = graph.add(StoryNode::new());
    let b = graph.add(StoryNode::new());
    graph.set_start_node(a);
    let _ = graph.connect(a, b);
    let _ = graph.connect_weak(b, a);

    let world = StoryWorld::new().with_entity(Entity::new(0));
    let result = graph.alias_candidates(&world);

    assert!(result.is_err());
}

#[test]
fn story_graph_a_graph_with_no_aliases_is_ok() {
    let mut graph = StoryGraph::new();
    let a = graph.add(StoryNode::new());
    graph.set_start_node(a);

    let world = StoryWorld::new().with_entity(Entity::new(0));
    let result = graph.alias_candidates(&world);

    assert!(result.is_ok());
}

#[test]
fn story_graph_a_graph_needs_at_least_one_reachable_leaf_node() {
    let mut graph: StoryGraph = StoryGraph::new();
    graph.add_alias("person", vec![]);

    let a = graph.add(StoryNode::new());
    let b = graph.add(StoryNode::new());
    graph.set_start_node(a);
    let _ = graph.connect(a, b);

    let world = StoryWorld::new().with_entity(Entity::new(0));
    let result = graph.alias_candidates(&world);

    assert!(result.is_ok());
    let alias_permutations = result.unwrap();
    assert_eq!(alias_permutations.len(), 1);
}

#[test]
fn story_graph_a_graph_with_no_reachable_leaf_node_is_err() {
    let mut graph: StoryGraph = StoryGraph::new();
    graph.add_alias("person", vec![]);

    let a = graph.add(StoryNode::new());
    let b = graph.add(StoryNode::new().with_world_constraint(Constraint::has("some constraint")));
    graph.set_start_node(a);
    let _ = graph.connect(a, b);

    let world = StoryWorld::new().with_entity(Entity::new(0));
    let result = graph.alias_candidates(&world);

    assert!(result.is_err());
}

#[test]
fn story_graph_single_alias_candidate_permutation_possible() {
    const PROTAGONIST: usize = 0;
    const NEW_CITIZEN: usize = 1;
    const KNOWN_CITIZEN: usize = 2;
    let world = StoryWorld::new()
        .with_entities(vec![
            Entity::new(PROTAGONIST).with("protagonist", Property::text("")),
            Entity::new(NEW_CITIZEN),
            Entity::new(KNOWN_CITIZEN),
        ])
        .with_relation(PROTAGONIST, KNOWN_CITIZEN, "previously_met", Property::text(""));

    let graph = player_meets_citizen_with_two_outcomes();

    let result = graph.alias_candidates(&world);
    assert!(result.is_ok());
    let permutations = result.unwrap();
    assert_eq!(permutations.len(), 1);
    let aliases = &permutations[0];
    assert_eq!(aliases.get("player").unwrap(), PROTAGONIST);
    assert_eq!(aliases.get("citizen").unwrap(), NEW_CITIZEN);
}

#[test]
fn an_alias_with_exclusionary_properties_is_only_bound_to_entities_with_these_properties() {
    const EXCLUSIONARY: usize = 1;
    const NON_EXCLUSIONARY: usize = 2;
    const EMPTY: usize = 3;

    let world = StoryWorld::new().with_entities(vec![
        Entity::new(EXCLUSIONARY).with_exclusory("exclusionary", Property::text("")),
        Entity::new(NON_EXCLUSIONARY)
            .with("exclusionary", Property::text(""))
            .with("some property", Property::text("")),
        Entity::new(EMPTY),
    ]);

    let mut graph = StoryGraph::new();
    graph.add_alias("precise character", vec![Constraint::has("exclusionary")]);

    let start = graph.add(StoryNode::new());
    graph.set_start_node(start);

    let result = graph.alias_candidates(&world);
    let candidates = result.unwrap();
    assert!(!candidates.is_empty());

    let ok = candidates
        .iter()
        .any(|alias_map| alias_map.get("precise character").unwrap() == EXCLUSIONARY)
        && candidates
            .iter()
            .any(|alias_map| alias_map.get("precise character").unwrap() == NON_EXCLUSIONARY);
    assert!(ok);

    let mut graph = StoryGraph::new();
    graph.add_alias("some character", vec![Constraint::has("some property")]);

    let start = graph.add(StoryNode::new());
    graph.set_start_node(start);

    let candidates = graph.alias_candidates(&world).unwrap();
    assert!(!candidates
        .iter()
        .any(|alias_map| alias_map.get("some character").unwrap() == EXCLUSIONARY));
}

#[test]
fn weak_successors_are_offered_at_runtime() {
    let mut graph = StoryGraph::new();
    let a = graph.add(StoryNode::new());
    let b = graph.add(StoryNode::new());
    graph.set_start_node(a);
    graph.connect(a, b).unwrap();
    graph.connect_weak(b, a).unwrap();

    let world = StoryWorld::new();
    let binding = raconteur::AliasMap::new();

    let from_a = graph.next(a, &world, &binding);
    assert_eq!(from_a.len(), 1);
    assert_eq!(from_a[0], b);

    // the weak back-edge is reachable in-session even though it closes a cycle
    let from_b = graph.next(b, &world, &binding);
    assert_eq!(from_b.len(), 1);
    assert_eq!(from_b[0], a);
}

#[test]
fn a_refused_edge_is_rolled_back() {
    let mut graph = StoryGraph::new();
    let a = graph.add(StoryNode::new());
    let b = graph.add(StoryNode::new());
    let c = graph.add(StoryNode::new());
    graph.set_start_node(a);

    graph.connect(a, b).unwrap();
    graph.connect(b, c).unwrap();
    assert!(graph.connect(c, a).is_err());

    // the failed edge left nothing behind; the graph still works
    assert!(graph.connections(c).is_empty());
    assert!(graph.connect(a, c).is_ok());

    let world = StoryWorld::new();
    let result = graph.alias_candidates(&world);
    assert!(result.is_ok());
}

#[test]
fn a_graph_with_aliases_but_no_beats_is_err() {
    let mut graph = StoryGraph::new();
    graph.add_alias("person", vec![]);

    let world = StoryWorld::new().with_entity(Entity::new(0));
    let result = graph.alias_candidates(&world);

    assert!(result.is_err());
}

#[test]
fn a_graph_without_a_start_mark_yields_no_candidates() {
    let mut graph = StoryGraph::new();
    graph.add_alias("person", vec![]);
    let _ = graph.add(StoryNode::new());

    let world = StoryWorld::new().with_entity(Entity::new(0));
    let result = graph.alias_candidates(&world);

    assert!(result.is_err());
}

#[test]
fn duplicate_alias_names_never_bind() {
    let mut graph = StoryGraph::new();
    graph.add_alias("person", vec![]);
    graph.add_alias("person", vec![]);
    let a = graph.add(StoryNode::new());
    graph.set_start_node(a);

    let world = StoryWorld::new()
        .with_entity(Entity::new(0))
        .with_entity(Entity::new(1));
    assert!(graph.alias_candidates(&world).is_err());
}
