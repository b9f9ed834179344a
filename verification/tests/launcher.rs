use akius::game_state::{DispenserQueue, NextSphereId};
use akius::launcher::{
    gather_fire_request, handle_launch_input, preview_visible, LaunchPlan, LauncherState, TouchFrame, LAUNCH_COOLDOWN_NANOS,
    PREVIEW_HIDE_NANOS,
};
use akius::timer::OnceTimer;
use akius::rng::GameRng;

fn no_touches() -> TouchFrame {
    TouchFrame { just_pressed: vec![], just_released: vec![], pressed: vec![] }
}

#[test]
fn test_launch_spawn_and_impulse() {
    let mut state = LauncherState::default();
    let mut queue = Some(DispenserQueue { current: 3, next: 4 });
    let mut next_id = NextSphereId::default();
    let mut rng = GameRng::default();
    let mut fire = false;

    // Left click pressed
    for _ in 0..2 {
        gather_fire_request(&mut state, &no_touches(), false, true, false, &mut fire);
        let plan = handle_launch_input(&mut state, &mut queue, &mut next_id, &mut fire, false, 0, &mut rng.rng);
        if let Some(p) = plan {
            assert_eq!(p, LaunchPlan { id: 0, tier: 3 });
        }
    }

    let queue = queue.unwrap();
    assert_eq!(queue.current, 4);
    assert!(queue.next >= 1 && queue.next <= 5);
    assert_eq!(next_id, NextSphereId(1));
}

#[test]
fn test_launch_cooldown_blocking() {
    let mut state = LauncherState::default();
    let mut queue = Some(DispenserQueue { current: 1, next: 2 });
    let mut next_id = NextSphereId::default();
    let mut rng = GameRng::default();
    let mut fire = false;

    for _ in 0..2 {
        gather_fire_request(&mut state, &no_touches(), false, true, false, &mut fire);
        handle_launch_input(&mut state, &mut queue, &mut next_id, &mut fire, false, 0, &mut rng.rng);
    }
    assert_eq!(queue.unwrap().current, 2);

    for _ in 0..2 {
        gather_fire_request(&mut state, &no_touches(), false, true, false, &mut fire);
        handle_launch_input(&mut state, &mut queue, &mut next_id, &mut fire, false, 0, &mut rng.rng);
    }
    assert_eq!(queue.unwrap().current, 2);
}

#[test]
fn test_merge_cooldown_blocking() {
    let mut state = LauncherState::default();
    let mut queue = Some(DispenserQueue { current: 1, next: 2 });
    let mut next_id = NextSphereId::default();
    let mut rng = GameRng::default();
    let mut fire = false;

    for _ in 0..2 {
        gather_fire_request(&mut state, &no_touches(), false, true, false, &mut fire);
        handle_launch_input(&mut state, &mut queue, &mut next_id, &mut fire, true, 0, &mut rng.rng);
    }
    assert_eq!(queue.unwrap().current, 1);
}

#[test]
fn test_touch_start_origin_filter() {
    let mut state = LauncherState::default();
    let mut queue = Some(DispenserQueue { current: 1, next: 2 });
    let mut next_id = NextSphereId::default();
    let mut rng = GameRng::default();
    let mut fire = false;

    // Touch 42 starts on the main menu, where the launcher does not run.
    // In game, it ends: it was never tracked, so nothing fires.
    let frame = TouchFrame { just_pressed: vec![], just_released: vec![42], pressed: vec![] };
    gather_fire_request(&mut state, &frame, false, false, false, &mut fire);
    handle_launch_input(&mut state, &mut queue, &mut next_id, &mut fire, false, 0, &mut rng.rng);
    assert_eq!(queue.unwrap().current, 1);

    // Touch 43 starts and ends in game: it fires.
    let frame = TouchFrame { just_pressed: vec![43], just_released: vec![], pressed: vec![43] };
    gather_fire_request(&mut state, &frame, false, false, false, &mut fire);
    handle_launch_input(&mut state, &mut queue, &mut next_id, &mut fire, false, 0, &mut rng.rng);
    let frame = TouchFrame { just_pressed: vec![], just_released: vec![43], pressed: vec![] };
    gather_fire_request(&mut state, &frame, false, false, false, &mut fire);
    handle_launch_input(&mut state, &mut queue, &mut next_id, &mut fire, false, 0, &mut rng.rng);
    assert_eq!(queue.unwrap().current, 2);
}

#[test]
fn cooldown_allows_the_next_shot_after_its_duration() {
    let mut state = LauncherState::default();
    let mut queue = Some(DispenserQueue { current: 1, next: 1 });
    let mut next_id = NextSphereId(10);
    let mut rng = GameRng::new(11);
    let mut fire = true;
    let first = handle_launch_input(&mut state, &mut queue, &mut next_id, &mut fire, false, 0, &mut rng.rng);
    assert_eq!(first, Some(LaunchPlan { id: 10, tier: 1 }));
    assert!(!fire);
    fire = true;
    assert_eq!(handle_launch_input(&mut state, &mut queue, &mut next_id, &mut fire, false, LAUNCH_COOLDOWN_NANOS - 1, &mut rng.rng), None);
    // The request was consumed even though nothing launched
    assert!(!fire);
    fire = true;
    let second = handle_launch_input(&mut state, &mut queue, &mut next_id, &mut fire, false, 1, &mut rng.rng);
    assert_eq!(second, Some(LaunchPlan { id: 11, tier: 1 }));
}

#[test]
fn launch_without_queue_uses_tier_one() {
    let mut state = LauncherState::default();
    let mut queue: Option<DispenserQueue> = None;
    let mut next_id = NextSphereId(0);
    let mut rng = GameRng::new(0);
    let mut fire = true;
    let plan = handle_launch_input(&mut state, &mut queue, &mut next_id, &mut fire, false, 0, &mut rng.rng);
    assert_eq!(plan, Some(LaunchPlan { id: 0, tier: 1 }));
    assert!(queue.is_none());
}

#[test]
fn touches_that_end_twice_fire_once_and_are_not_duplicated() {
    let mut state = LauncherState::default();
    let mut fire = false;
    let frame = TouchFrame { just_pressed: vec![7, 7, 8], just_released: vec![], pressed: vec![7, 8] };
    assert!(!gather_fire_request(&mut state, &frame, false, false, false, &mut fire));
    assert_eq!(state.active_touch_ids, vec![7, 8]);
    let frame = TouchFrame { just_pressed: vec![], just_released: vec![7], pressed: vec![8] };
    assert!(gather_fire_request(&mut state, &frame, false, false, false, &mut fire));
    assert_eq!(state.active_touch_ids, vec![8]);
    assert!(fire);
    // A touch ending over the UI does not fire
    let mut fire2 = false;
    let frame = TouchFrame { just_pressed: vec![], just_released: vec![8], pressed: vec![] };
    assert!(!gather_fire_request(&mut state, &frame, true, false, false, &mut fire2));
    assert!(!fire2);
    assert!(state.active_touch_ids.is_empty());
}

#[test]
fn space_fires_even_over_ui_but_clicks_do_not() {
    let mut state = LauncherState::default();
    let mut fire = false;
    assert!(!gather_fire_request(&mut state, &no_touches(), true, true, false, &mut fire));
    assert!(gather_fire_request(&mut state, &no_touches(), true, false, true, &mut fire));
    assert!(fire);
}

#[test]
fn preview_hidden_early_in_the_cooldown() {
    // A finished cooldown shows the preview
    assert!(preview_visible(&LauncherState::default().cooldown_timer));
    let mut cooldown = OnceTimer::new(LAUNCH_COOLDOWN_NANOS);
    assert!(!preview_visible(&cooldown));
    cooldown.tick(PREVIEW_HIDE_NANOS - 1);
    assert!(!preview_visible(&cooldown));
    cooldown.tick(1);
    assert!(preview_visible(&cooldown));
    // The engine reads this many nanoseconds as 0.2 s
    let secs = std::time::Duration::from_nanos(PREVIEW_HIDE_NANOS).as_secs_f32();
    assert!(!(secs < 0.2));
    let before = std::time::Duration::from_nanos(PREVIEW_HIDE_NANOS - 1).as_secs_f32();
    assert!(before < 0.2);
}
