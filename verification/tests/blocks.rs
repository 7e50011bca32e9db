use nannou_sorting::blocks::{
    brick_index, brick_is_light, count_lifes, next_screen, prompt_is_on, BrickField, BrickState,
    GameScreen, BLINK_FRAMES, BRICKS_LINES, BRICKS_PER_LINE, FIELD_SIZE, LOGO_FRAMES, PLAYER_LIFES,
};

#[test]
fn logo_is_shown_for_three_seconds() {
    let mut screen = GameScreen::LOGO;
    let mut frames = 0u64;
    let mut shown = 0;
    while screen == GameScreen::LOGO {
        let step = next_screen(screen, frames, false);
        assert!(!step.start_sound);
        screen = step.screen;
        frames = step.frames_counter;
        shown += 1;
    }
    assert_eq!(LOGO_FRAMES, 180);
    assert_eq!(shown, 181);
    assert_eq!(screen, GameScreen::TITLE);
    assert_eq!(frames, 0);
}

#[test]
fn logo_does_not_listen_to_enter() {
    let step = next_screen(GameScreen::LOGO, 5, true);
    assert_eq!(step.screen, GameScreen::LOGO);
    assert_eq!(step.frames_counter, 6);
    assert!(!step.start_sound);
}

#[test]
fn title_waits_for_enter() {
    let waiting = next_screen(GameScreen::TITLE, 41, false);
    assert_eq!(waiting.screen, GameScreen::TITLE);
    assert_eq!(waiting.frames_counter, 42);
    assert!(!waiting.start_sound);

    let started = next_screen(GameScreen::TITLE, 41, true);
    assert_eq!(started.screen, GameScreen::GAMEPLAY);
    assert_eq!(started.frames_counter, 42);
    assert!(started.start_sound);
}

#[test]
fn ending_leads_back_to_the_title() {
    let waiting = next_screen(GameScreen::ENDING, 0, false);
    assert_eq!(waiting.screen, GameScreen::ENDING);
    assert_eq!(waiting.frames_counter, 1);

    let again = next_screen(GameScreen::ENDING, 7, true);
    assert_eq!(again.screen, GameScreen::TITLE);
    assert_eq!(again.frames_counter, 8);
    assert!(!again.start_sound);
}

#[test]
fn play_keeps_screen_and_count() {
    let step = next_screen(GameScreen::GAMEPLAY, 99, true);
    assert_eq!(step.screen, GameScreen::GAMEPLAY);
    assert_eq!(step.frames_counter, 99);
    assert!(!step.start_sound);
}

#[test]
fn a_lost_ball_costs_a_life() {
    let count = count_lifes(PLAYER_LIFES, true);
    assert_eq!(count.lifes, 4);
    assert!(!count.game_over);
    let kept = count_lifes(3, false);
    assert_eq!(kept.lifes, 3);
    assert!(!kept.game_over);
}

#[test]
fn the_game_ends_when_a_ball_is_lost_with_no_life_left() {
    let last = count_lifes(1, true);
    assert_eq!(last.lifes, 0);
    assert!(!last.game_over);
    let over = count_lifes(0, true);
    assert_eq!(PLAYER_LIFES, 5);
    assert_eq!(over.lifes, 5);
    assert!(over.game_over);
}

#[test]
fn a_game_takes_six_lost_balls() {
    let mut lifes = PLAYER_LIFES;
    let mut lost = 0;
    loop {
        let count = count_lifes(lifes, true);
        lost += 1;
        lifes = count.lifes;
        if count.game_over {
            break;
        }
    }
    assert_eq!(lost, 6);
    assert_eq!(lifes, PLAYER_LIFES);
}

#[test]
fn prompt_blinks_every_thirty_frames() {
    assert_eq!(BLINK_FRAMES, 30);
    assert!(prompt_is_on(0));
    assert!(prompt_is_on(29));
    assert!(!prompt_is_on(30));
    assert!(!prompt_is_on(59));
    assert!(prompt_is_on(60));
    assert!(prompt_is_on(u64::MAX));
}

#[test]
fn bricks_lie_row_within_place() {
    assert_eq!(brick_index(0, 0), Ok(0));
    assert_eq!(brick_index(4, 0), Ok(4));
    assert_eq!(brick_index(0, 1), Ok(5));
    assert_eq!(brick_index(2, 7), Ok(37));
    assert_eq!(brick_index(4, 19), Ok(99));
}

#[test]
fn every_brick_has_a_place_of_its_own() {
    let mut seen = vec![false; (BRICKS_LINES * BRICKS_PER_LINE) as usize];
    for x in 0..BRICKS_LINES {
        for y in 0..BRICKS_PER_LINE {
            let index = brick_index(x, y).unwrap();
            assert!(!seen[index]);
            seen[index] = true;
        }
    }
    assert!(seen.iter().all(|s| *s));
}

#[test]
fn bricks_beyond_the_field_are_refused() {
    assert_eq!(brick_index(5, 0), Err("Out bounds access to BrickField"));
    assert_eq!(brick_index(0, 20), Err("Out bounds access to BrickField"));
    assert_eq!(brick_index(i32::MAX, i32::MAX), Err("Out bounds access to BrickField"));
}

#[test]
fn bricks_alternate_like_a_chessboard() {
    assert!(brick_is_light(0, 0));
    assert!(!brick_is_light(1, 0));
    assert!(!brick_is_light(0, 1));
    assert!(brick_is_light(1, 1));
    assert!(!brick_is_light(19, 4));
}

#[test]
fn a_new_field_has_no_brick_standing() {
    assert_eq!(FIELD_SIZE, (BRICKS_LINES * BRICKS_PER_LINE) as usize);
    let field = BrickField::new();
    for x in 0..BRICKS_LINES {
        for y in 0..BRICKS_PER_LINE {
            assert_eq!(field.get(x, y), Ok(&BrickState { resistance: 0, active: false }));
        }
    }
    assert_eq!(BrickState::default(), BrickState { resistance: 0, active: false });
}

#[test]
fn a_brick_is_changed_in_its_own_place() {
    let mut field = BrickField::new();
    {
        let brick = field.get_mut(2, 7).unwrap();
        brick.active = true;
        brick.resistance = 3;
    }
    for x in 0..BRICKS_LINES {
        for y in 0..BRICKS_PER_LINE {
            let expected = if (x, y) == (2, 7) {
                BrickState { resistance: 3, active: true }
            } else {
                BrickState { resistance: 0, active: false }
            };
            assert_eq!(field.get(x, y), Ok(&expected));
        }
    }
}

#[test]
fn the_field_refuses_bricks_beyond_it() {
    let mut field = BrickField::new();
    assert_eq!(field.get(5, 0), Err("Out bounds access to BrickField"));
    assert_eq!(field.get(0, 20), Err("Out bounds access to BrickField"));
    assert_eq!(field.get_mut(5, 19).err(), Some("Out bounds access to BrickField"));
    assert_eq!(field.get_mut(4, 20).err(), Some("Out bounds access to BrickField"));
}

#[test]
fn play_and_kept_balls_count_nothing_at_the_limits() {
    let step = next_screen(GameScreen::GAMEPLAY, u64::MAX, false);
    assert_eq!(step.screen, GameScreen::GAMEPLAY);
    assert_eq!(step.frames_counter, u64::MAX);
    let kept = count_lifes(i32::MIN, false);
    assert_eq!(kept.lifes, PLAYER_LIFES);
    assert!(kept.game_over);
}
