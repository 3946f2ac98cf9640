use blockdelete::catalog::BlockCatalog;

fn row(key: &str, names: &[&str]) -> (String, Vec<String>) {
    (key.to_string(), names.iter().map(|s| s.to_string()).collect())
}

fn sample_catalog() -> BlockCatalog {
    let source = vec![
        row("block.minecraft.stone", &["stone"]),
        row("block.minecraft.dirt", &["dirt"]),
        row("block.minecraft.cobblestone", &["cobble stone", "cobblestone"]),
        row("block.minecraft.iron_ore", &["iron ore"]),
        row("block.minecraft.gold_ore", &["gold ore"]),
        row("item.minecraft.stick", &["stick"]),
    ];
    let extra = vec![row("dirt", &["earth block"])];
    let shared = vec![row("ores", &["minecraft:*_ore"])];
    BlockCatalog::build(&source, &extra, &shared)
}

#[test]
fn exact_match_resolves_identifier() {
    let cat = sample_catalog();
    let r = cat.match_blocks("please break the stone now", 0);
    assert_eq!(r, vec!["minecraft:stone".to_string()]);
}

#[test]
fn exact_match_is_token_bounded() {
    let cat = sample_catalog();
    // "stones" does not contain the token "stone"
    let r = cat.match_blocks("stones", 0);
    assert!(r.is_empty());
    // an invalid language key contributes nothing
    let r2 = cat.match_blocks("stick", 0);
    assert!(r2.is_empty());
}

#[test]
fn extra_alias_and_shared_glob_resolve() {
    let cat = sample_catalog();
    assert_eq!(cat.match_blocks("earth block", 0), vec!["minecraft:dirt".to_string()]);
    let ores = cat.match_blocks("ores", 0);
    assert_eq!(
        ores,
        vec!["minecraft:gold_ore".to_string(), "minecraft:iron_ore".to_string()]
    );
}

#[test]
fn specificity_order_prefers_longer_aliases() {
    let cat = sample_catalog();
    // "cobble stone" contains both the two-word alias and the token "stone";
    // the more specific alias's identifier comes first
    let r = cat.match_blocks("cobble stone", 0);
    assert_eq!(
        r,
        vec!["minecraft:cobblestone".to_string(), "minecraft:stone".to_string()]
    );
}

#[test]
fn matching_is_deterministic_across_builds() {
    let a = sample_catalog();
    let b = sample_catalog();
    for text in ["stone", "cobble stone", "ores nonsense dirt", ""] {
        assert_eq!(a.match_blocks(text, 700), b.match_blocks(text, 700));
        assert_eq!(a.match_blocks(text, 700), a.match_blocks(text, 700));
    }
    assert_eq!(a.alias_count(), b.alias_count());
    assert_eq!(a.aliases(), b.aliases());
}

#[test]
fn fuzzy_matches_at_threshold_not_below() {
    let cat = sample_catalog();
    // "stonx" vs "stone": distance 1 over length 5 gives similarity 800/1000
    assert_eq!(cat.match_blocks("stonx", 800), vec!["minecraft:stone".to_string()]);
    assert!(cat.match_blocks("stonx", 801).is_empty());
}

#[test]
fn fuzzy_disabled_at_zero_threshold() {
    let cat = sample_catalog();
    assert!(cat.match_blocks("stonx", 0).is_empty());
}

#[test]
fn short_alias_never_fuzzy_matched() {
    let cat = sample_catalog();
    // "dirt" has four characters: "dirx" is 750/1000 similar but cannot match
    assert!(cat.match_blocks("dirx", 500).is_empty());
    // the exact token still matches of course
    assert_eq!(cat.match_blocks("dirt", 500), vec!["minecraft:dirt".to_string()]);
}

#[test]
fn fuzzy_first_character_gate() {
    let cat = sample_catalog();
    // "atone" is as similar to "stone" as "stonx", but starts differently
    assert!(cat.match_blocks("atone", 800).is_empty());
}

#[test]
fn fuzzy_run_together_compound() {
    let cat = sample_catalog();
    // single-word alias "cobblestone" against the words "cobblestone like"
    let r = cat.match_blocks("cobblestonx like", 800);
    assert_eq!(r, vec!["minecraft:cobblestone".to_string()]);
}

#[test]
fn identifiers_deduplicated_across_aliases() {
    let source = vec![row("block.minecraft.stone", &["stone", "rock"])];
    let extra = vec![row("minecraft:stone", &["rock stone"])];
    let cat = BlockCatalog::build(&source, &extra, &Vec::new());
    let r = cat.match_blocks("rock stone", 0);
    assert_eq!(r, vec!["minecraft:stone".to_string()]);
}

#[test]
fn empty_text_matches_nothing() {
    let cat = sample_catalog();
    assert!(cat.match_blocks("", 700).is_empty());
    assert!(cat.match_blocks("   !!!   ", 700).is_empty());
}

#[test]
fn exact_alias_listing_is_ordered() {
    let cat = sample_catalog();
    let found = cat.exact_match_aliases("cobble stone and iron ore");
    assert_eq!(
        found,
        vec![
            "cobble stone".to_string(),
            "iron ore".to_string(),
            "stone".to_string(),
        ]
    );
    assert!(cat.exact_match_aliases("nothing here").is_empty());
}

#[test]
fn russian_aliases_match_after_folding() {
    // the localized name is capitalized; the spoken text is lowercase
    let source = vec![row(
        "block.minecraft.stone",
        &["\u{041a}\u{0430}\u{043c}\u{0435}\u{043d}\u{044c}"],
    )];
    let cat = BlockCatalog::build(&source, &Vec::new(), &Vec::new());
    let r = cat.match_blocks(
        "\u{043a}\u{0430}\u{043c}\u{0435}\u{043d}\u{044c}",
        0,
    );
    assert_eq!(r, vec!["minecraft:stone".to_string()]);
}

#[test]
fn ngrams_and_length_gate() {
    let words: Vec<String> = vec!["a".to_string(), "b".to_string(), "c".to_string()];
    assert_eq!(
        BlockCatalog::make_ngrams(&words, 2),
        vec!["a b".to_string(), "b c".to_string()]
    );
    assert_eq!(BlockCatalog::make_ngrams(&words, 4), Vec::<String>::new());
    assert!(BlockCatalog::is_plausible_length("stone", "stones"));
    assert!(BlockCatalog::is_plausible_length("stone", "sto"));
    assert!(!BlockCatalog::is_plausible_length("stone", "st"));
}
