use blockdelete::audio::{to_mono_i8, to_mono_u8, to_mono_i16, to_mono_u16, to_mono_i32,
    to_mono_u32};
use blockdelete::lev::{levenshtein, similar_enough};
use blockdelete::config::{OneOrManyStrings, BlocksConfig, nonempty_or, clean_alias_map,
    resolve_path, validate_runtime_config, settings_restart_required};
use blockdelete::ui::UiMode;

#[test]
fn mono_conversion_single_channel() {
    assert_eq!(to_mono_i8(&[1, -2], 1), vec![256, -512]);
    assert_eq!(to_mono_u8(&[128, 0, 255], 1), vec![0, -32768, 32512]);
    assert_eq!(to_mono_i16(&[5, -7], 1), vec![5, -7]);
    assert_eq!(to_mono_u16(&[32768, 0, 65535], 1), vec![0, -32768, 32767]);
    assert_eq!(to_mono_i32(&[65536, -65536, -1], 1), vec![1, -1, -1]);
    assert_eq!(to_mono_u32(&[2147483648, 0], 1), vec![0, -32768]);
}

#[test]
fn mono_conversion_averages_channels() {
    // stereo frames are averaged, truncating toward zero
    assert_eq!(to_mono_i16(&[10, 20, -3, -4], 2), vec![15, -3]);
    assert_eq!(to_mono_i8(&[10, 20], 2), vec![15 * 256]);
    // a trailing short frame is averaged over what is there
    assert_eq!(to_mono_i16(&[10, 20, 7], 2), vec![15, 7]);
    assert_eq!(to_mono_i32(&[131072, 262144], 2), vec![3]);
}

#[test]
fn edit_distance_and_similarity_gate() {
    let a: Vec<char> = "stone".chars().collect();
    let b: Vec<char> = "stonx".chars().collect();
    assert_eq!(levenshtein(&a, &b), 1);
    assert_eq!(levenshtein(&a, &a), 0);
    let empty: Vec<char> = Vec::new();
    assert_eq!(levenshtein(&a, &empty), 5);
    // similarity 0.8: inclusive at the threshold, exclusive just above
    assert!(similar_enough(&a, &b, 800));
    assert!(!similar_enough(&a, &b, 801));
    assert!(similar_enough(&a, &a, 1000));
}

#[test]
fn edit_distance_agrees_with_reference_implementation() {
    let samples = [
        ("kitten", "sitting"),
        ("stone", "stonx"),
        ("", "abc"),
        ("cobble stone", "cobblestone"),
        ("gravel", "travel"),
    ];
    for (x, y) in samples {
        let xv: Vec<char> = x.chars().collect();
        let yv: Vec<char> = y.chars().collect();
        let d = levenshtein(&xv, &yv) as f64;
        let m = xv.len().max(yv.len()) as f64;
        let expected = strsim::normalized_levenshtein(x, y);
        let ours = if m == 0.0 { 1.0 } else { 1.0 - d / m };
        assert!((expected - ours).abs() < 1e-9);
    }
}

#[test]
fn one_or_many_flattens() {
    assert_eq!(OneOrManyStrings::One("x".to_string()).into_vec(), vec!["x".to_string()]);
    assert_eq!(
        OneOrManyStrings::Many(vec!["a".to_string(), "b".to_string()]).into_vec(),
        vec!["a".to_string(), "b".to_string()]
    );
}

#[test]
fn custom_phrases_collects_values_then_keys() {
    let cfg = BlocksConfig {
        file: "blocks.json".to_string(),
        extra_aliases: vec![(
            "minecraft:dirt".to_string(),
            vec!["earth".to_string(), "soil".to_string()],
        )],
        shared_aliases: vec![("ores".to_string(), vec!["minecraft:*_ore".to_string()])],
    };
    assert_eq!(
        cfg.custom_alias_phrases(),
        vec!["earth".to_string(), "soil".to_string(), "ores".to_string()]
    );
}

#[test]
fn nonempty_or_trims_and_defaults() {
    assert_eq!(nonempty_or(Some("  x  ".to_string()), "d"), "x");
    assert_eq!(nonempty_or(Some("   ".to_string()), "d"), "d");
    assert_eq!(nonempty_or(None, " d "), "d");
}

#[test]
fn alias_map_cleaning() {
    let input = vec![
        ("  dirt ".to_string(), OneOrManyStrings::One(" earth ".to_string())),
        ("".to_string(), OneOrManyStrings::One("dropped".to_string())),
        ("stone".to_string(), OneOrManyStrings::Many(vec!["  ".to_string()])),
        (
            "ore".to_string(),
            OneOrManyStrings::Many(vec![" a ".to_string(), "".to_string(), "b".to_string()]),
        ),
    ];
    let cleaned = clean_alias_map(input);
    assert_eq!(
        cleaned,
        vec![
            ("dirt".to_string(), vec!["earth".to_string()]),
            ("ore".to_string(), vec!["a".to_string(), "b".to_string()]),
        ]
    );
}

#[test]
fn path_resolution() {
    assert_eq!(resolve_path("/etc/app", "blocks.json"), "/etc/app/blocks.json");
    assert_eq!(resolve_path("/etc/app", "/abs/blocks.json"), "/abs/blocks.json");
}

#[test]
fn runtime_config_checks() {
    assert!(validate_runtime_config("pw", true, 48000, 48000, "Steve").is_ok());
    assert!(validate_runtime_config("", true, 48000, 48000, "Steve").is_err());
    assert!(validate_runtime_config("pw", false, 48000, 48000, "Steve").is_err());
    assert!(validate_runtime_config("pw", true, 44100, 48000, "Steve").is_err());
    assert!(validate_runtime_config("pw", true, 48000, 48000, "   ").is_err());
}

#[test]
fn settings_restart_detection() {
    assert!(!settings_restart_required("Steve", " Steve ", UiMode::Tui, UiMode::Tui, "pw", "pw"));
    assert!(settings_restart_required("Steve", "Alex", UiMode::Tui, UiMode::Tui, "pw", "pw"));
    assert!(settings_restart_required("Steve", "Steve", UiMode::Tui, UiMode::Qt, "pw", "pw"));
    assert!(settings_restart_required("Steve", "Steve", UiMode::Tui, UiMode::Tui, "pw", "pw2"));
}
