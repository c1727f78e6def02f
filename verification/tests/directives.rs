use raconteur::{AliasMap, Entity, Property, StoryNode, StoryWorld};

#[test]
fn unalias_directive() {
    const PLAYER: usize = 0;
    let node = StoryNode::new().with_directive("{player.name}");
    let mut alias_map = AliasMap::new();
    let world = StoryWorld::new();

    let directive = node.directive(&alias_map, &world);
    assert!(directive.is_err());

    alias_map.associate("player", PLAYER);
    let directive = node.directive(&alias_map, &world);
    assert!(directive.is_err());

    let world = StoryWorld::new().with_entity(Entity::new(PLAYER));
    let directive = node.directive(&alias_map, &world);
    assert!(directive.is_err());

    let world = StoryWorld::new()
        .with_entity(Entity::new(PLAYER).with("name", Property::text("My Name")));
    let directive = node.directive(&alias_map, &world).unwrap();
    assert_eq!(directive, "My Name");
}

#[test]
fn multiple_entity_properties() {
    const PLAYER: usize = 0;
    let mut alias_map = AliasMap::new();
    alias_map.associate("player", PLAYER);
    let world = StoryWorld::new().with_entity(
        Entity::new(PLAYER)
            .with("name", Property::text("Umberto"))
            .with("level", Property::integer(1))
            .with("class", Property::text("explorer")),
    );

    let node = StoryNode::new().with_directive(
        "Hello, I am {player.name} and I am a level {player.level} {player.class}.",
    );

    let directive = node.directive(&alias_map, &world).unwrap();
    assert_eq!(directive, "Hello, I am Umberto and I am a level 1 explorer.");
}

#[test]
fn multiple_aliases() {
    const PLAYER: usize = 0;
    const SHOPKEEP: usize = 1;
    let mut alias_map = AliasMap::new();
    alias_map.associate("player", PLAYER);
    alias_map.associate("vendor", SHOPKEEP);
    let world = StoryWorld::new()
        .with_entity(
            Entity::new(PLAYER)
                .with("name", Property::text("Umberto"))
                .with("level", Property::integer(1))
                .with("class", Property::text("explorer")),
        )
        .with_entity(
            Entity::new(SHOPKEEP)
                .with("name", Property::text("Hialda"))
                .with("age", Property::real_bits((18.0f64).to_bits())),
        )
        .with_world_property("location", Property::text("Calvinton"));

    let node = StoryNode::new().with_directive(
        r#"speak {<a>vendor} {<a>player} "Hello {player.name} the {player.class}! Although I am only {vendor.age} years old, I am the namesake of this {location} shop: {vendor.name}'s Goods!""#,
    );

    let directive = node.directive(&alias_map, &world).unwrap();
    assert_eq!(
        directive,
        r#"speak 1 0 "Hello Umberto the explorer! Although I am only 18 years old, I am the namesake of this Calvinton shop: Hialda's Goods!""#
    );
}

#[test]
fn malformed_token_is_reported() {
    let node = StoryNode::new().with_directive("so {...} it goes");
    let alias_map = AliasMap::new();
    let world = StoryWorld::new();

    let directive = node.directive(&alias_map, &world);
    assert!(directive.is_err());
    let err = directive.unwrap_err();
    assert_eq!(err.message(), r#"Malformed property path "...""#);
}

#[test]
fn missing_world_property_is_reported() {
    let node = StoryNode::new().with_directive("welcome to {location}");
    let alias_map = AliasMap::new();
    let world = StoryWorld::new();

    let err = node.directive(&alias_map, &world).unwrap_err();
    assert_eq!(err.message(), r#"Missing world property "location""#);
}

#[test]
fn braces_without_token_are_copied() {
    let node = StoryNode::new().with_directive("a {} b { c } d {x");
    let alias_map = AliasMap::new();
    let world = StoryWorld::new()
        .with_world_property("x", Property::text("unused"));

    let directive = node.directive(&alias_map, &world).unwrap();
    assert_eq!(directive, "a {} b { c } d {x");
}

#[test]
fn directive_rendering_is_repeatable() {
    const PLAYER: usize = 3;
    let mut alias_map = AliasMap::new();
    alias_map.associate("player", PLAYER);
    let world = StoryWorld::new()
        .with_entity(Entity::new(PLAYER).with("name", Property::text("Roland")))
        .with_world_property("place", Property::text("Gilead"));

    let node = StoryNode::new().with_directive("{<a>player}: {player.name} of {place}");

    let once = node.directive(&alias_map, &world).unwrap();
    let twice = node.directive(&alias_map, &world).unwrap();
    assert_eq!(once, "3: Roland of Gilead");
    assert_eq!(once, twice);
}
