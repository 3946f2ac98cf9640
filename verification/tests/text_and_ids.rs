use blockdelete::text::normalize_text;
use blockdelete::catalog::{block_id_from_language_key, normalize_block_target};

#[test]
fn normalize_lowercases_and_collapses() {
    assert_eq!(normalize_text("  Hello,   WORLD!! "), "hello world");
    assert_eq!(normalize_text("a_b-c"), "a_b c");
    assert_eq!(normalize_text(""), "");
    assert_eq!(normalize_text("...!!!"), "");
    assert_eq!(normalize_text("one\ttwo\nthree"), "one two three");
}

#[test]
fn normalize_folds_lookalike_letters() {
    // Ё and э both fold to е after lowercasing
    assert_eq!(
        normalize_text("\u{0401}\u{043b}\u{043a}\u{0430}"),
        "\u{0435}\u{043b}\u{043a}\u{0430}"
    );
    assert_eq!(normalize_text("\u{044d}\u{0445}\u{043e}"), "\u{0435}\u{0445}\u{043e}");
    assert_eq!(
        normalize_text("\u{041a}\u{0410}\u{041c}\u{0415}\u{041d}\u{042c}"),
        "\u{043a}\u{0430}\u{043c}\u{0435}\u{043d}\u{044c}"
    );
}

#[test]
fn normalize_is_idempotent_on_samples() {
    for s in ["  MossY CobbleStone  ", "a  b   c", "\u{0401}\u{043b}\u{043a}\u{0430}!"] {
        let once = normalize_text(s);
        let twice = normalize_text(&once);
        assert_eq!(once, twice);
    }
}

#[test]
fn language_key_to_block_id() {
    assert_eq!(
        block_id_from_language_key("block.minecraft.stone"),
        Some("minecraft:stone".to_string())
    );
    assert_eq!(
        block_id_from_language_key("block.minecraft.oak_log"),
        Some("minecraft:oak_log".to_string())
    );
    assert_eq!(block_id_from_language_key("block.minecraft."), None);
    assert_eq!(block_id_from_language_key("block.minecraft.stone.slab"), None);
    assert_eq!(block_id_from_language_key("item.minecraft.stick"), None);
    assert_eq!(block_id_from_language_key("block.minecraft.Stone"), None);
}

#[test]
fn target_normalization() {
    assert_eq!(normalize_block_target("dirt"), "minecraft:dirt");
    assert_eq!(normalize_block_target("  dirt  "), "minecraft:dirt");
    assert_eq!(normalize_block_target("minecraft:dirt"), "minecraft:dirt");
    assert_eq!(normalize_block_target("block.minecraft.dirt"), "minecraft:dirt");
    assert_eq!(normalize_block_target("*_ore"), "*_ore");
    assert_eq!(normalize_block_target("other:thing"), "other:thing");
    // a malformed language key passes through trimmed
    assert_eq!(normalize_block_target("block.minecraft.Bad"), "block.minecraft.Bad");
}
