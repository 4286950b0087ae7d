use whisper_gtk::overlay::{LevelHistory, IDLE_LEVEL};

fn bar_heights(history: &LevelHistory, bar_count: usize) -> Vec<f64> {
    history
        .newest(bar_count)
        .into_iter()
        .map(|level| (0.16 + (f32::from_bits(level) as f64) * 0.74).clamp(0.08, 1.0))
        .collect()
}

#[test]
fn waveform_state_reflects_level_and_motion() {
    let quiet = bar_heights(&LevelHistory::default(), 6);
    let mut loud_state = LevelHistory::default();
    loud_state.set_level(1.0f32.to_bits());
    let loud = bar_heights(&loud_state, 6);
    assert_eq!(quiet.len(), 6);
    assert_eq!(loud.len(), 6);
    assert!(loud.iter().sum::<f64>() > quiet.iter().sum::<f64>());

    let mut animated = LevelHistory::default();
    let before = bar_heights(&animated, 6);
    animated.advance();
    let after = bar_heights(&animated, 6);
    assert_ne!(before, after);
}

#[test]
fn levels_move_through_the_bars() {
    let half = 0.5f32.to_bits();
    let full = 1.0f32.to_bits();
    let mut history = LevelHistory::default();
    assert_eq!(history.newest(11), vec![0; 11]);
    history.set_level(half);
    assert_eq!(history.newest(2), vec![0, half]);
    history.advance();
    assert_eq!(history.newest(3), vec![0, 0, half]);
    history.set_level(7.0f32.to_bits());
    assert_eq!(history.newest(3), vec![0, 0, full]);
    history.advance();
    assert_eq!(history.levels.len(), 11);
    assert_eq!(history.newest(3), vec![0, half, full]);
    assert_eq!(history.newest(0), Vec::<u32>::new());
    let mut short = LevelHistory { levels: vec![1], level: 2 };
    short.advance();
    assert_eq!(short.newest(4), vec![0, 0, 1, 2]);
}

#[test]
fn lower_level_waits_for_the_next_step() {
    let half = 0.5f32.to_bits();
    let low = 0.1f32.to_bits();
    let mut history = LevelHistory::default();
    history.set_level(half);
    history.advance();
    history.set_level(low);
    assert_eq!(history.newest(2), vec![0, half]);
    history.advance();
    assert_eq!(history.newest(2), vec![half, low]);
}

#[test]
fn bars_move_in_silence() {
    assert_eq!(IDLE_LEVEL, 0.05f32.to_bits());
    let mut history = LevelHistory::default();
    let mut last = history.newest(11);
    for _ in 0..30 {
        history.advance();
        let now = history.newest(11);
        assert_ne!(now, last);
        last = now;
    }
}

#[test]
fn idle_level_waits_for_flat_bars() {
    let mut history = LevelHistory::default();
    history.advance();
    assert_eq!(history.newest(2), vec![0, IDLE_LEVEL]);
    for _ in 0..11 {
        history.advance();
        assert_eq!(history.newest(1), vec![0]);
    }
    assert_eq!(history.newest(11), vec![0; 11]);
    history.advance();
    assert_eq!(history.newest(2), vec![0, IDLE_LEVEL]);
}

#[test]
fn silence_behind_sound_adds_nothing() {
    let half = 0.5f32.to_bits();
    let mut history = LevelHistory::default();
    history.set_level(half);
    history.advance();
    history.set_level(0);
    history.advance();
    assert_eq!(history.newest(3), vec![0, half, 0]);
    history.advance();
    assert_eq!(history.newest(3), vec![half, 0, 0]);
}

#[test]
fn negative_zero_is_silence() {
    let mut history = LevelHistory::default();
    history.set_level((-0.0f32).to_bits());
    assert_eq!(history.newest(1), vec![0]);
    history.advance();
    assert_eq!(history.newest(1), vec![IDLE_LEVEL]);
}
