use akius::game_state::{AppState, VisualEffectsMode};
use akius::hud::{
    colorblind_button_text, effects_button_text, final_score_text, high_score_text, in_game_over_or_win_state,
    score_text, tier_text, toggle_text, toggle_visual_effects,
};
use akius::visuals::tier_index;

#[test]
fn test_in_game_over_or_win_state() {
    assert!(!in_game_over_or_win_state(AppState::MainMenu));
    assert!(!in_game_over_or_win_state(AppState::InGame));
    assert!(in_game_over_or_win_state(AppState::GameOver));
    assert!(in_game_over_or_win_state(AppState::Win));
    assert_eq!(AppState::default(), AppState::MainMenu);
}

#[test]
fn score_lines_are_zero_padded_to_six_digits() {
    assert_eq!(score_text(0), "Score: 000000");
    assert_eq!(score_text(2000), "Score: 002000");
    assert_eq!(score_text(1234567), "Score: 1234567");
    assert_eq!(high_score_text(42), "HI: 000042");
    assert_eq!(final_score_text(999999), "final.score = 999999");
    assert_eq!(score_text(u32::MAX), format!("Score: {:06}", u32::MAX));
    for n in [0u32, 7, 10, 99, 100, 123456, 1000000, 4000000000] {
        assert_eq!(score_text(n), format!("Score: {:06}", n));
    }
}

#[test]
fn tier_and_toggle_labels() {
    assert_eq!(tier_text(6), "6");
    assert_eq!(tier_text(255), "255");
    assert_eq!(toggle_text("FX", true), "FX: ON");
    assert_eq!(effects_button_text(VisualEffectsMode::Off), "FX: OFF");
    assert_eq!(colorblind_button_text(true, true), "Num: ON");
    assert_eq!(colorblind_button_text(false, false), "Numbers: OFF");
}

#[test]
fn effects_toggle_flips_only_when_asked() {
    let mut mode = VisualEffectsMode::default();
    toggle_visual_effects(&mut mode, false);
    assert_eq!(mode, VisualEffectsMode::On);
    toggle_visual_effects(&mut mode, true);
    assert_eq!(mode, VisualEffectsMode::Off);
    toggle_visual_effects(&mut mode, true);
    assert_eq!(mode, VisualEffectsMode::On);
}

#[test]
fn tier_index_clamps_into_the_tables() {
    assert_eq!(tier_index(0), 0);
    assert_eq!(tier_index(1), 0);
    assert_eq!(tier_index(5), 4);
    assert_eq!(tier_index(9), 8);
    assert_eq!(tier_index(200), 8);
}
