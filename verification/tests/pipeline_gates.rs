use blockdelete::pipeline::{EventPipeline, presence_step, LookupOutcome, phrase_long_enough,
    is_mic_speaker};
use blockdelete::service::PlayerChunkContext;

#[test]
fn partial_diffing_emits_each_word_once() {
    let mut p = EventPipeline::new();
    let speaker = "mic".to_string();
    // growing partial: only newly committed words come out, never twice
    let c1 = p.partial_candidates(&speaker, &"aa".to_string(), true);
    assert_eq!(c1, Vec::<String>::new());
    let c2 = p.partial_candidates(&speaker, &"aa bb".to_string(), true);
    assert_eq!(c2, vec!["aa".to_string()]);
    let c3 = p.partial_candidates(&speaker, &"aa bb cc".to_string(), true);
    assert_eq!(c3, vec!["bb".to_string()]);
}

#[test]
fn partial_diffing_resets_on_revision() {
    let mut p = EventPipeline::new();
    let speaker = "mic".to_string();
    let _ = p.partial_candidates(&speaker, &"aa bb".to_string(), true);
    // the hypothesis was revised: the counter starts over
    let c = p.partial_candidates(&speaker, &"xx yy".to_string(), true);
    assert_eq!(c, vec!["xx".to_string()]);
}

#[test]
fn partial_diffing_filters_single_character_words() {
    let mut p = EventPipeline::new();
    let speaker = "mic".to_string();
    let _ = p.partial_candidates(&speaker, &"a".to_string(), true);
    let c = p.partial_candidates(&speaker, &"a bb".to_string(), true);
    // the committed word "a" is shorter than two characters
    assert_eq!(c, Vec::<String>::new());
}

#[test]
fn final_transcript_is_one_candidate_and_clears_state() {
    let mut p = EventPipeline::new();
    let speaker = "mic".to_string();
    let _ = p.partial_candidates(&speaker, &"aa bb".to_string(), true);
    let f = p.partial_candidates(&speaker, &"aa bb cc".to_string(), false);
    assert_eq!(f, vec!["aa bb cc".to_string()]);
    // progress was cleared: the next partial starts from scratch
    let c = p.partial_candidates(&speaker, &"aa bb".to_string(), true);
    assert_eq!(c, vec!["aa".to_string()]);
}

#[test]
fn repeat_gate_allows_two_of_sixteen() {
    let mut p = EventPipeline::new();
    let speaker = "mic".to_string();
    let cand = "stone".to_string();
    let mut allowed = 0;
    for i in 0..16u64 {
        if p.repeat_gate_allow(&speaker, &cand, 1000 + i, 1000) {
            allowed += 1;
        }
    }
    assert_eq!(allowed, 2);
}

#[test]
fn repeat_gate_resets_after_window() {
    let mut p = EventPipeline::new();
    let speaker = "mic".to_string();
    let cand = "stone".to_string();
    assert!(p.repeat_gate_allow(&speaker, &cand, 1000, 1000));
    assert!(!p.repeat_gate_allow(&speaker, &cand, 1100, 1000));
    // a gap beyond the window starts the count over
    assert!(p.repeat_gate_allow(&speaker, &cand, 3000, 1000));
}

#[test]
fn cooldown_suppresses_within_window() {
    let mut p = EventPipeline::new();
    let player = "Alice".to_string();
    let block = "minecraft:stone".to_string();
    assert!(p.cooldown_allow(&player, &block, 10_000, 2000));
    assert!(!p.cooldown_allow(&player, &block, 11_000, 2000));
    // beyond the window both execute
    assert!(p.cooldown_allow(&player, &block, 12_100, 2000));
    // a different identifier has its own ledger entry
    let other = "minecraft:dirt".to_string();
    assert!(p.cooldown_allow(&player, &other, 12_200, 2000));
}

fn ctx(player: &str) -> PlayerChunkContext {
    PlayerChunkContext {
        player_name: player.to_string(),
        dimension: "minecraft:overworld".to_string(),
        chunk_x: 0,
        chunk_z: 0,
        x1: 0,
        x2: 15,
        z1: 0,
        z2: 15,
        segments: vec![(-64, 63)],
    }
}

#[test]
fn chunk_cache_honors_player_and_ttl() {
    let mut p = EventPipeline::new();
    assert!(!p.cache_fresh("Alice", 1000, 700));
    p.store_context(1000, ctx("Alice"));
    assert!(p.cache_fresh("Alice", 1500, 700));
    assert!(!p.cache_fresh("Bob", 1500, 700));
    assert!(!p.cache_fresh("Alice", 1701, 700));
    p.clear_cache();
    assert!(!p.cache_fresh("Alice", 1500, 700));
}

#[test]
fn presence_transitions() {
    let up = presence_step(false, &LookupOutcome::Found);
    assert!(up.online && up.greet && !up.log_departure);
    let still_up = presence_step(true, &LookupOutcome::Found);
    assert!(still_up.online && !still_up.greet);
    let down = presence_step(true, &LookupOutcome::PlayerMissing);
    assert!(!down.online && !down.greet && down.log_departure);
    let still_down = presence_step(false, &LookupOutcome::PlayerMissing);
    assert!(!still_down.online && !still_down.log_departure);
    let ambiguous = presence_step(true, &LookupOutcome::OtherError);
    assert!(!ambiguous.online && !ambiguous.greet && !ambiguous.log_departure);
}

#[test]
fn phrase_length_and_speaker_checks() {
    assert!(phrase_long_enough("ab", 2));
    assert!(!phrase_long_enough("a", 2));
    assert!(is_mic_speaker("mic"));
    assert!(!is_mic_speaker("other"));
}
