use blockdelete::service::{
    validate_player_name, validate_block_id, resolve_y_limits, build_vertical_segments,
    chunk_origin, build_chunk_context, fill_commands, build_tell_command, build_pos_query,
    build_pos_index_query, build_dimension_query, build_entity_query, delete_result,
};
use blockdelete::parse::{
    parse_pos_from_response, parse_pos_from_nbt_response, parse_first_floor,
    parse_dimension_from_response, parse_dimension_from_nbt, parse_triplet,
};

#[test]
fn valid_identifiers_pass_through_unchanged() {
    assert_eq!(validate_block_id("minecraft:dirt"), Ok("minecraft:dirt".to_string()));
    assert_eq!(
        validate_block_id("minecraft:deepslate_iron_ore"),
        Ok("minecraft:deepslate_iron_ore".to_string())
    );
    assert_eq!(validate_player_name("Steve_42"), Ok("Steve_42".to_string()));
}

#[test]
fn validation_is_an_idempotent_passthrough() {
    let once = validate_block_id("minecraft:oak_log").unwrap();
    let twice = validate_block_id(&once).unwrap();
    assert_eq!(once, "minecraft:oak_log");
    assert_eq!(once, twice);
    let p_once = validate_player_name("Alex").unwrap();
    let p_twice = validate_player_name(&p_once).unwrap();
    assert_eq!(p_once, p_twice);
}

#[test]
fn invalid_identifiers_are_always_rejected() {
    assert!(validate_block_id("Minecraft:Dirt").is_err());
    assert!(validate_block_id("dirt").is_err());
    assert!(validate_block_id("a b:c").is_err());
    assert!(validate_block_id("minecraft:").is_err());
    assert!(validate_player_name("").is_err());
    assert!(validate_player_name("name with spaces").is_err());
    assert!(validate_player_name("seventeen_letters_").is_err());
}

#[test]
fn y_limit_resolution_with_fallbacks() {
    let limits = vec![
        ("minecraft:overworld".to_string(), (-64, 319)),
        ("minecraft:the_nether".to_string(), (0, 127)),
    ];
    assert_eq!(resolve_y_limits(&limits, "minecraft:the_nether"), (0, 127));
    // an unknown dimension falls back to the overworld entry
    assert_eq!(resolve_y_limits(&limits, "minecraft:the_end"), (-64, 319));
    // with no overworld entry either, the built-in bounds apply
    assert_eq!(resolve_y_limits(&Vec::new(), "minecraft:custom"), (-64, 319));
}

#[test]
fn segmentation_covers_range_without_gaps() {
    // 32768 blocks per command over a 16 x 16 column: 128-block segments
    let segs = build_vertical_segments(-64, 319, 32768);
    assert_eq!(segs, vec![(-64, 63), (64, 191), (192, 319)]);
    // the budget floor: at most one block tall still covers everything
    let small = build_vertical_segments(0, 2, 1);
    assert_eq!(small, vec![(0, 0), (1, 1), (2, 2)]);
    // an inverted range yields no segments
    assert!(build_vertical_segments(5, 4, 32768).is_empty());
    // a range not divisible by the height leaves a short last segment
    let uneven = build_vertical_segments(0, 299, 32768);
    assert_eq!(uneven, vec![(0, 127), (128, 255), (256, 299)]);
}

#[test]
fn chunk_origin_is_floor_to_sixteen() {
    assert_eq!(chunk_origin(10), 0);
    assert_eq!(chunk_origin(-6), -16);
    assert_eq!(chunk_origin(16), 16);
    assert_eq!(chunk_origin(-16), -16);
    assert_eq!(chunk_origin(-17), -32);
    assert_eq!(chunk_origin(0), 0);
}

#[test]
fn end_to_end_chunk_context() {
    // player at (10.2, 70, -5.9) in the overworld
    let response = "Steve has the following entity data: [10.2d, 70.0d, -5.9d]";
    let (x, _y, z) = parse_pos_from_response(response).unwrap();
    assert_eq!((x, z), (10, -6));
    let limits = vec![("minecraft:overworld".to_string(), (-64, 319))];
    let ctx = build_chunk_context(
        "Steve".to_string(),
        x,
        z,
        "minecraft:overworld".to_string(),
        &limits,
        32768,
    );
    assert_eq!((ctx.x1, ctx.x2), (0, 15));
    assert_eq!((ctx.z1, ctx.z2), (-16, -1));
    assert_eq!((ctx.chunk_x, ctx.chunk_z), (0, -1));
    assert_eq!(ctx.segments, vec![(-64, 63), (64, 191), (192, 319)]);
    let cmds = fill_commands(&ctx, "minecraft:stone").unwrap();
    assert_eq!(cmds.len(), 3);
    assert_eq!(
        cmds[0],
        "execute in minecraft:overworld run fill 0 -64 -16 15 63 -1 air replace minecraft:stone"
    );
    assert_eq!(
        cmds[2],
        "execute in minecraft:overworld run fill 0 192 -16 15 319 -1 air replace minecraft:stone"
    );
    let result = delete_result(&ctx, "minecraft:stone".to_string(), cmds.len());
    assert_eq!(result.commands_sent, 3);
    assert_eq!(result.player_name, "Steve");
}

#[test]
fn fill_commands_reject_invalid_block() {
    let limits = vec![("minecraft:overworld".to_string(), (-64, 319))];
    let ctx = build_chunk_context(
        "Steve".to_string(),
        0,
        0,
        "minecraft:overworld".to_string(),
        &limits,
        32768,
    );
    assert!(fill_commands(&ctx, "Dirt").is_err());
}

#[test]
fn position_parsing_variants() {
    assert_eq!(parse_triplet(&"1.5, -2.5, 3".chars().collect()), Some((1, -3, 3)));
    assert_eq!(parse_triplet(&"only 1 and 2".chars().collect()), None);
    assert_eq!(parse_triplet(&"no numbers".chars().collect()), None);
    assert_eq!(
        parse_pos_from_nbt_response("stuff Pos: [1.0d, 2.0d, 3.0d] more"),
        Some((1, 2, 3))
    );
    assert_eq!(parse_pos_from_nbt_response("Pos missing"), None);
    assert_eq!(parse_first_floor("x is -7.25 here"), Some(-8));
    assert_eq!(parse_first_floor("x is 7.25 here"), Some(7));
    assert_eq!(parse_first_floor("nothing"), None);
    // whole numbers floor to themselves, even negative ones
    assert_eq!(parse_first_floor("-5.0"), Some(-5));
}

#[test]
fn dimension_parsing_variants() {
    assert_eq!(
        parse_dimension_from_response("Steve is in minecraft:the_nether today"),
        Some("minecraft:the_nether".to_string())
    );
    assert_eq!(parse_dimension_from_response("nowhere"), None);
    assert_eq!(
        parse_dimension_from_nbt("{Dimension: \"minecraft:overworld\", Health: 20}"),
        Some("minecraft:overworld".to_string())
    );
    assert_eq!(parse_dimension_from_nbt("{Dimension: minecraft:overworld}"), None);
}

#[test]
fn command_builders() {
    assert_eq!(build_pos_query("Steve"), "data get entity Steve Pos");
    assert_eq!(build_pos_index_query("Steve", 1), "data get entity Steve Pos[1]");
    assert_eq!(build_dimension_query("Steve"), "data get entity Steve Dimension");
    assert_eq!(build_entity_query("Steve"), "data get entity Steve");
    assert_eq!(
        build_tell_command("Steve", "line one\nline two"),
        Ok("tell Steve line one line two".to_string())
    );
    assert!(build_tell_command("bad name", "hi").is_err());
}
