use beggar::checkpoint::{
    load_checkpoint, parse_usize, save_checkpoint, seed_hash, split_tokens, usize_to_chars,
    CheckpointMode, CheckpointState,
};
use beggar::stats::RunStatistics;

const SEED: &str = "------------------------------------JJJJQQQQKKKKAAAA";

fn chars(s: &str) -> Vec<char> {
    s.chars().collect()
}

fn text(v: &[char]) -> String {
    v.iter().collect()
}

fn sample_state() -> CheckpointState {
    CheckpointState {
        stats: RunStatistics {
            most_turns: 712,
            least_turns: 31,
            suspicious_games: 2,
            most_hash: chars("------------------------------------JJJJQQQQKKKAKAAA"),
            least_hash: chars("------------------------------------JJJJQQQQKKKAAKAA"),
        },
        cursor: chars(SEED),
    }
}

#[test]
fn parse_usize_accepts_digits() {
    assert_eq!(parse_usize(&chars("0")), Some(0));
    assert_eq!(parse_usize(&chars("123")), Some(123));
    assert_eq!(parse_usize(&chars("18446744073709551615")), Some(usize::MAX));
}

#[test]
fn parse_usize_rejects_junk_and_overflow() {
    assert_eq!(parse_usize(&chars("")), None);
    assert_eq!(parse_usize(&chars("12a")), None);
    assert_eq!(parse_usize(&chars("-3")), None);
    assert_eq!(parse_usize(&chars("18446744073709551616")), None);
}

#[test]
fn numbers_round_trip_through_text() {
    for n in [0usize, 7, 10, 9999, usize::MAX] {
        let written = usize_to_chars(n);
        assert_eq!(parse_usize(&written), Some(n));
    }
    assert_eq!(text(&usize_to_chars(10000)), "10000");
}

#[test]
fn tokens_split_on_whitespace() {
    let toks = split_tokens(&chars("  12 34\n\tabc  "));
    assert_eq!(toks.len(), 3);
    assert_eq!(text(&toks[0]), "12");
    assert_eq!(text(&toks[1]), "34");
    assert_eq!(text(&toks[2]), "abc");
    assert!(split_tokens(&chars("   ")).is_empty());
}

#[test]
fn load_of_saved_state_reproduces_it() {
    let state = sample_state();
    for mode in [CheckpointMode::Combined, CheckpointMode::GenerateOnly] {
        let written = save_checkpoint(&state, mode);
        let loaded = load_checkpoint(&written, mode);
        if mode == CheckpointMode::GenerateOnly {
            // The generate-only record has no suspicious-count field.
            assert_eq!(loaded.stats.suspicious_games, 0);
            assert_eq!(loaded.stats.most_turns, state.stats.most_turns);
            assert_eq!(loaded.stats.least_turns, state.stats.least_turns);
            assert_eq!(loaded.stats.most_hash, state.stats.most_hash);
            assert_eq!(loaded.stats.least_hash, state.stats.least_hash);
            assert_eq!(loaded.cursor, state.cursor);
        } else {
            assert_eq!(loaded, state);
        }
    }
}

#[test]
fn test_only_mode_defaults_the_cursor() {
    let state = sample_state();
    let written = save_checkpoint(&state, CheckpointMode::TestOnly);
    let loaded = load_checkpoint(&written, CheckpointMode::TestOnly);
    assert_eq!(loaded.stats, state.stats);
    assert_eq!(loaded.cursor, seed_hash());
}

#[test]
fn save_after_load_is_idempotent() {
    let state = sample_state();
    let mode = CheckpointMode::Combined;
    let once = save_checkpoint(&load_checkpoint(&save_checkpoint(&state, mode), mode), mode);
    let twice = save_checkpoint(&load_checkpoint(&once, mode), mode);
    assert_eq!(once, twice);
}

#[test]
fn combined_record_has_the_fixed_field_order() {
    let written = save_checkpoint(&sample_state(), CheckpointMode::Combined);
    assert_eq!(
        text(&written),
        format!(
            "712 31 2 {} {} {}",
            "------------------------------------JJJJQQQQKKKAKAAA",
            "------------------------------------JJJJQQQQKKKAAKAA",
            SEED
        )
    );
}

#[test]
fn missing_fields_fall_back_to_defaults() {
    let loaded = load_checkpoint(&Vec::new(), CheckpointMode::Combined);
    assert_eq!(loaded.stats.most_turns, 0);
    assert_eq!(loaded.stats.least_turns, usize::MAX);
    assert_eq!(loaded.stats.suspicious_games, 0);
    assert!(loaded.stats.most_hash.is_empty());
    assert!(loaded.stats.least_hash.is_empty());
    assert_eq!(text(&loaded.cursor), SEED);
}

#[test]
fn unparsable_leading_field_falls_back_but_is_consumed() {
    let loaded = load_checkpoint(&chars("what 55"), CheckpointMode::Combined);
    assert_eq!(loaded.stats.most_turns, 0);
    assert_eq!(loaded.stats.least_turns, 55);
}
