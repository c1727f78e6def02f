use raconteur::{Constraint, Entity, Property, Raconteur, StoryGraph, StoryNode, StoryWorld};

#[test]
fn complex_graph() {
    let mut raconteur = Raconteur::new();
    let mut graph = StoryGraph::new();
    graph.add_alias("rich citizen", vec![
        Constraint::has("city dweller"),
        Constraint::is_in_range_float("wealth", (70.0f64).to_bits(), (100.0f64).to_bits()),
        Constraint::has("job"),
    ]);
    graph.add_alias("poor man", vec![
        Constraint::equals("gender", Property::text("male")),
        Constraint::is_in_range_float("wealth", (0.0f64).to_bits(), (5.0f64).to_bits()),
    ]);
    graph.add_alias("little girl", vec![
        Constraint::equals("gender", Property::text("female")),
        Constraint::is_in_range_float("age", (5.0f64).to_bits(), (12.0f64).to_bits()),
    ]);

    let start = graph.add(
        StoryNode::new()
            .with_description("rich citizen passes poor man")
            .with_world_constraint(Constraint::equals("location type", Property::text("city"))),
    );

    let beg_stranger = graph.add(
        StoryNode::new()
            .with_description("poor man begs rich citizen")
            .with_relation_constraints("poor man", "rich citizen", vec![Constraint::has_not(
                "knows",
            )]),
    );

    let rich_citizen_donates = graph.add(StoryNode::new().with_description("rich citizen donates"));

    let rich_citizen_passes_by =
        graph.add(StoryNode::new().with_description("rich citizen passes by"));

    let beggar_knows_rich_man = graph.add(
        StoryNode::new()
            .with_description("poor man recognizes rich citizen")
            .with_relation_constraints("poor man", "rich citizen", vec![Constraint::has("knows")]),
    );

    let beggar_talks_about_rich_citizen_daughter = graph.add(
        StoryNode::new()
            .with_description("poor man talks about rich citizen daughter")
            .with_relation_constraints("rich citizen", "little girl", vec![Constraint::has(
                "parent",
            )]),
    );

    let beggar_talks_about_his_daughter = graph.add(
        StoryNode::new()
            .with_description("poor man talks about rich citizen daughter")
            .with_relation_constraints("rich citizen", "little girl", vec![Constraint::has(
                "parent",
            )]),
    );

    let err_msg = "Failed to connect node";
    graph.set_start_node(start);
    graph.connect(start, beg_stranger).expect(err_msg);
    graph.connect(beg_stranger, rich_citizen_donates).expect(err_msg);
    graph.connect(beg_stranger, rich_citizen_passes_by).expect(err_msg);
    graph.connect(start, beggar_knows_rich_man).expect(err_msg);
    graph
        .connect(beggar_knows_rich_man, beggar_talks_about_rich_citizen_daughter)
        .expect(err_msg);
    graph
        .connect(beggar_knows_rich_man, beggar_talks_about_his_daughter)
        .expect(err_msg);
    graph
        .connect_weak(beggar_talks_about_his_daughter, rich_citizen_passes_by)
        .expect(err_msg);
    graph
        .connect_weak(beggar_talks_about_rich_citizen_daughter, rich_citizen_donates)
        .expect(err_msg);

    raconteur.insert(graph);

    let story_world = StoryWorld::new()
        .with_world_property("location type", Property::text("city"))
        .with_entities(vec![
            Entity::new(0)
                .with("city dweller", Property::text(""))
                .with("wealth", Property::real_bits((80.0f64).to_bits()))
                .with("gender", Property::text("female"))
                .with("job", Property::text("stock broker")),
            Entity::new(1)
                .with("city dweller", Property::text(""))
                .with("wealth", Property::real_bits((74.0f64).to_bits()))
                .with("gender", Property::text("male"))
                .with("job", Property::text("real estate agent")),
            Entity::new(2)
                .with("city dweller", Property::text(""))
                .with("wealth", Property::real_bits((64.0f64).to_bits()))
                .with("gender", Property::text("male"))
                .with("job", Property::text("manager")),
            Entity::new(3)
                .with("land dweller", Property::text(""))
                .with("wealth", Property::real_bits((90.0f64).to_bits()))
                .with("gender", Property::text("female")),
            Entity::new(4)
                .with("royalty", Property::text(""))
                .with("wealth", Property::real_bits((100.0f64).to_bits())),
            Entity::new(5)
                .with("gender", Property::text("male"))
                .with("wealth", Property::real_bits((1.0f64).to_bits())),
            Entity::new(6)
                .with("gender", Property::text("male"))
                .with("wealth", Property::real_bits((3.0f64).to_bits())),
            Entity::new(7)
                .with("name", Property::text("Emily"))
                .with("gender", Property::text("female"))
                .with("age", Property::real_bits((6.0f64).to_bits())),
            Entity::new(8)
                .with("gender", Property::text("female"))
                .with("age", Property::real_bits((11.0f64).to_bits())),
            Entity::new(9)
                .with("gender", Property::text("male"))
                .with("age", Property::real_bits((10.0f64).to_bits())),
        ])
        .with_relation(0, 8, "parent", Property::text(""))
        .with_relation(0, 9, "parent", Property::text(""))
        .with_relation(1, 8, "parent", Property::text(""))
        .with_relation(1, 9, "parent", Property::text(""))
        .with_relation(3, 5, "knows", Property::text(""))
        .with_relation(0, 4, "knows", Property::text(""))
        .with_relation(4, 7, "parent", Property::text(""));

    let result = raconteur.query(&story_world);

    assert!(!result.is_empty());
    let candidate = &result[0];
    assert_eq!(candidate.alias_candidates.len(), 8);

    let story_graph = raconteur.get(candidate.id);
    for alias_map in &candidate.alias_candidates {
        let mut node_id = story_graph.start();
        while !story_graph.next(node_id, &story_world, alias_map).is_empty() {
            node_id = story_graph.next(node_id, &story_world, alias_map)[0];
        }
    }
}
