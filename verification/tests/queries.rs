use raconteur::{Constraint, Entity, Property, Raconteur, StoryGraph, StoryNode, StoryWorld};

const GUY_ID: usize = 0;
const GIRL_ID: usize = 1;

fn query() -> StoryWorld {
    StoryWorld::new()
        .with_entities(vec![
            Entity::new(GUY_ID)
                .with("name", Property::text("Bertrand"))
                .with("age", Property::integer(30)),
            Entity::new(GIRL_ID)
                .with("name", Property::text("Juliette"))
                .with("age", Property::integer(32)),
        ])
        .with_relation(GUY_ID, GIRL_ID, "opinion", Property::integer(2))
}

fn guy_no_like_girl() -> Raconteur {
    let mut raconteur = Raconteur::new();
    let mut graph = StoryGraph::new();
    graph.add_alias("guy", vec![]);
    graph.add_alias("girl", vec![]);
    let idx = graph.add(
        StoryNode::new()
            .with_description("low_opinion")
            .with_relation_constraints("guy", "girl", vec![Constraint::is_in_range(
                "opinion",
                0,
                1,
            )]),
    );
    graph.set_start_node(idx);
    raconteur.insert(graph);
    raconteur
}

fn guy_like_girl() -> Raconteur {
    let mut raconteur = Raconteur::new();
    let mut graph = StoryGraph::new();
    graph.add_alias("guy", vec![]);
    graph.add_alias("girl", vec![]);
    let idx = graph.add(
        StoryNode::new()
            .with_description("guy_like_girl")
            .with_relation_constraints("guy", "girl", vec![Constraint::is_in_range(
                "opinion",
                1,
                4,
            )]),
    );
    graph.set_start_node(idx);
    raconteur.insert(graph);
    raconteur
}

fn wealth_registry() -> Raconteur {
    let max_money: f64 = 100000.0;
    let mut raconteur = Raconteur::new();

    let mut graph = StoryGraph::new();
    graph.add_alias("baking_man", vec![
        Constraint::has("important"),
        Constraint::equals("job", Property::text("baker")),
    ]);
    graph.add_alias("player", vec![
        Constraint::has("player"),
        Constraint::is_in_range_float("money", (10.0f64).to_bits(), max_money.to_bits()),
    ]);
    let node_idx = graph.add(
        StoryNode::new().with_world_constraint(Constraint::equals(
            "location",
            Property::text("bakery"),
        )),
    );
    graph.set_start_node(node_idx);
    raconteur.insert(graph);

    let mut graph = StoryGraph::new();
    graph.add_alias("baking_man", vec![
        Constraint::has("important"),
        Constraint::equals("job", Property::text("baker")),
    ]);
    graph.add_alias("player", vec![
        Constraint::has("player"),
        Constraint::is_in_range_float("money", (0.0f64).to_bits(), (20.0f64).to_bits()),
    ]);
    let node_idx = graph.add(
        StoryNode::new().with_world_constraint(Constraint::equals(
            "location",
            Property::text("bakery"),
        )),
    );
    graph.set_start_node(node_idx);
    raconteur.insert(graph);

    raconteur
}

fn bakery_world(money: f64) -> StoryWorld {
    const PLAYER_ID: usize = 1;
    const BAKER_ID: usize = 2;
    const CUSTOMER_ID: usize = 3;
    StoryWorld::new()
        .with_entities(vec![
            Entity::new(PLAYER_ID)
                .with("player", Property::text(""))
                .with("money", Property::real_bits(money.to_bits())),
            Entity::new(BAKER_ID)
                .with("important", Property::text(""))
                .with("job", Property::text("baker")),
            Entity::new(CUSTOMER_ID),
        ])
        .with_world_property("location", Property::text("bakery"))
}

#[test]
fn basics_no_match() {
    let raconteur = guy_no_like_girl();
    let story_candidates = raconteur.query(&query());
    assert!(story_candidates.is_empty());
}

#[test]
fn basics_a_match() {
    let raconteur: Raconteur = guy_like_girl();
    let story_candidates = raconteur.query(&query());
    let candidate = &story_candidates[0];
    let story_graph = raconteur.get(candidate.id);
    let start_node = story_graph.get(story_graph.start());
    assert_eq!(start_node.description, "guy_like_girl");
}

#[test]
fn basics_many_matches() {
    const PLAYER_ID: usize = 1;
    const BAKER_ID: usize = 2;

    let raconteur = wealth_registry();

    let stories = raconteur.query(&bakery_world(50.0));
    assert_eq!(stories.len(), 1);
    let candidate = &stories[0];
    assert_eq!(candidate.alias_candidates.len(), 1);
    let aliases = &candidate.alias_candidates[0];
    assert_eq!(aliases.get("player").unwrap(), PLAYER_ID);
    assert_eq!(aliases.get("baking_man").unwrap(), BAKER_ID);

    let stories = raconteur.query(&bakery_world(0.0));
    assert_eq!(stories.len(), 1);
    let candidate = &stories[0];
    assert_eq!(candidate.alias_candidates.len(), 1);
    let aliases = &candidate.alias_candidates[0];
    assert_eq!(aliases.get("player").unwrap(), PLAYER_ID);
    assert_eq!(aliases.get("baking_man").unwrap(), BAKER_ID);

    let stories = raconteur.query(&bakery_world(15.0));
    assert_eq!(stories.len(), 2);
}

#[test]
fn queries_no_match() {
    let raconteur = guy_no_like_girl();
    let story_candidates = raconteur.query(&query());
    assert!(story_candidates.is_empty());
}

#[test]
fn queries_a_match() {
    let raconteur: Raconteur = guy_like_girl();
    let story_candidates = raconteur.query(&query());
    let first_story = &story_candidates[0];
    let story_graph = raconteur.get(first_story.id);
    let start_node = story_graph.get(story_graph.start());
    assert_eq!(start_node.description, "guy_like_girl");
}

#[test]
fn queries_many_matches() {
    let raconteur = wealth_registry();
    let stories = raconteur.query(&bakery_world(15.0));
    assert_eq!(stories.len(), 2);
}

#[test]
fn raconteur_no_match() {
    let raconteur = guy_no_like_girl();
    let story_candidates = raconteur.query(&query());
    assert!(story_candidates.is_empty());
}

#[test]
fn raconteur_a_match() {
    let raconteur: Raconteur = guy_like_girl();
    let story_candidates = raconteur.query(&query());
    let first_story = &story_candidates[0];
    let story_graph = raconteur.get(first_story.id);
    let start_node = story_graph.get(story_graph.start());
    assert_eq!(start_node.description, "guy_like_girl");
}

#[test]
fn raconteur_many_matches() {
    let mut raconteur = Raconteur::new();
    let mut graph = StoryGraph::new();
    graph.add_alias("baker", vec![
        Constraint::has("important"),
        Constraint::equals("job", Property::text("baker")),
    ]);
    let node_idx = graph.add(StoryNode::new());
    graph.set_start_node(node_idx);
    raconteur.insert(graph);
}

#[test]
fn story_beat_no_match() {
    let mut raconteur = Raconteur::new();
    let mut graph = StoryGraph::new();
    graph.add_alias("guy", vec![]);
    graph.add_alias("girl", vec![]);
    let idx = graph.add(
        StoryNode::new()
            .with_description("low_opinion")
            .with_relation_constraints("guy", "girl", vec![Constraint::is_in_range(
                "opinion",
                0,
                2,
            )]),
    );
    graph.set_start_node(idx);
    raconteur.insert(graph);

    let beat_candidates = raconteur.query(&query());
    assert!(beat_candidates.is_empty());
}

#[test]
fn story_beat_a_match() {
    let mut raconteur = Raconteur::new();
    let mut graph = StoryGraph::new();
    graph.add_alias("guy", vec![]);
    graph.add_alias("girl", vec![]);
    let idx = graph.add(
        StoryNode::new()
            .with_description("guy_like_girl")
            .with_relation_constraints("guy", "girl", vec![Constraint::is_in_range(
                "opinion",
                1,
                4,
            )]),
    );
    graph.set_start_node(idx);
    raconteur.insert(graph);

    let beat_candidates = raconteur.query(&query());
    let candidate = &beat_candidates[0];
    let graph = raconteur.get(candidate.id);
    assert_eq!(graph.get(graph.start()).description, "guy_like_girl");
}

#[test]
fn a_story_can_be_excluded_from_the_query_result() {
    let mut raconteur = Raconteur::new();
    let mut graph = StoryGraph::new();
    let a = graph.add(StoryNode::new());
    graph.set_start_node(a);
    raconteur.insert(graph);

    let mut world = StoryWorld::new();

    let stories = raconteur.query(&world);
    assert!(!stories.is_empty());
    world.exclude(&[stories[0].id]);
    let stories = raconteur.query(&world);
    assert!(stories.is_empty());
}

#[test]
fn match_opinion_binding() {
    let raconteur = guy_like_girl();
    let story_candidates = raconteur.query(&query());
    assert_eq!(story_candidates.len(), 1);
    let candidate = &story_candidates[0];
    assert_eq!(candidate.alias_candidates.len(), 1);
    let binding = &candidate.alias_candidates[0];
    assert_eq!(binding.get("guy").unwrap(), GUY_ID);
    assert_eq!(binding.get("girl").unwrap(), GIRL_ID);
}

#[test]
fn equal_queries_return_equal_bindings() {
    let raconteur = guy_like_girl();
    let world = query();

    let first = raconteur.query(&world);
    let second = raconteur.query(&world);

    assert_eq!(first.len(), second.len());
    for (a, b) in first.iter().zip(second.iter()) {
        assert_eq!(a.id, b.id);
        assert_eq!(a.alias_candidates.len(), b.alias_candidates.len());
        for binding in &a.alias_candidates {
            assert!(b
                .alias_candidates
                .iter()
                .any(|other| other.get("guy") == binding.get("guy")
                    && other.get("girl") == binding.get("girl")));
        }
    }
}
