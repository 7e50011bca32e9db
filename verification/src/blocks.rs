//! The rules of the blocks game that do not depend on where anything is
//! drawn: which screen follows which, how lives are counted, and where a
//! brick lies in the field.

use vstd::prelude::*;

verus! {

/// The lives a player starts a game with.
pub const PLAYER_LIFES: i32 = 5;

/// The rows of bricks.
pub const BRICKS_LINES: i32 = 5;

/// The bricks in a row.
pub const BRICKS_PER_LINE: i32 = 20;

/// The frames for which the logo is shown: three seconds.
pub const LOGO_FRAMES: u64 = 180;

/// The frames for which a blinking prompt stays on, and then off.
pub const BLINK_FRAMES: u64 = 30;

/// The screens of the game.
#[derive(Clone, Copy, Debug, PartialEq, Eq, Structural)]
pub enum GameScreen {
    LOGO,
    TITLE,
    GAMEPLAY,
    ENDING,
}

/// The screen and the frame count after a frame outside of play, and whether
/// the start sound is due.
pub struct ScreenStep {
    pub screen: GameScreen,
    pub frames_counter: u64,
    pub start_sound: bool,
}

/// What a frame outside of play leads to. The logo gives way to the title
/// once it has been counted for more than [`LOGO_FRAMES`] frames; Enter
/// leads from the title into play and from the ending back to the title.
/// A frame of play changes neither the screen nor the count.
pub open spec fn screen_after(screen: GameScreen, frames_counter: u64, enter_pressed: bool) -> ScreenStep {
    match screen {
        GameScreen::LOGO => if frames_counter + 1 > LOGO_FRAMES {
            ScreenStep { screen: GameScreen::TITLE, frames_counter: 0, start_sound: false }
        } else {
            ScreenStep { screen, frames_counter: (frames_counter + 1) as u64, start_sound: false }
        },
        GameScreen::TITLE => ScreenStep {
            screen: if enter_pressed { GameScreen::GAMEPLAY } else { screen },
            frames_counter: (frames_counter + 1) as u64,
            start_sound: enter_pressed,
        },
        GameScreen::GAMEPLAY => ScreenStep { screen, frames_counter, start_sound: false },
        GameScreen::ENDING => ScreenStep {
            screen: if enter_pressed { GameScreen::TITLE } else { screen },
            frames_counter: (frames_counter + 1) as u64,
            start_sound: false,
        },
    }
}

/// Counts a frame outside of play and follows the player's Enter key.
pub fn next_screen(screen: GameScreen, frames_counter: u64, enter_pressed: bool) -> (step: ScreenStep)
    requires
        screen != GameScreen::GAMEPLAY ==> frames_counter < u64::MAX,
    ensures
        step == screen_after(screen, frames_counter, enter_pressed),
{
    match screen {
        GameScreen::LOGO => {
            let counted = frames_counter + 1;
            if counted > LOGO_FRAMES {
                // Change to the title screen after three seconds.
                ScreenStep { screen: GameScreen::TITLE, frames_counter: 0, start_sound: false }
            } else {
                ScreenStep { screen, frames_counter: counted, start_sound: false }
            }
        },
        GameScreen::TITLE => {
            if enter_pressed {
                ScreenStep {
                    screen: GameScreen::GAMEPLAY,
                    frames_counter: frames_counter + 1,
                    start_sound: true,
                }
            } else {
                ScreenStep { screen, frames_counter: frames_counter + 1, start_sound: false }
            }
        },
        GameScreen::GAMEPLAY => ScreenStep { screen, frames_counter, start_sound: false },
        GameScreen::ENDING => {
            if enter_pressed {
                ScreenStep {
                    screen: GameScreen::TITLE,
                    frames_counter: frames_counter + 1,
                    start_sound: false,
                }
            } else {
                ScreenStep { screen, frames_counter: frames_counter + 1, start_sound: false }
            }
        },
    }
}

/// The lives left after a frame in which the ball was in play, and whether
/// the game is over.
pub struct LifeCount {
    pub lifes: i32,
    pub game_over: bool,
}

/// A lost ball costs a life. Once no life is left to lose the game is over,
/// and the lives are set up for the next game.
pub open spec fn lifes_after(lifes: i32, ball_lost: bool) -> LifeCount {
    let left = if ball_lost { lifes - 1 } else { lifes as int };
    if left < 0 {
        LifeCount { lifes: PLAYER_LIFES, game_over: true }
    } else {
        LifeCount { lifes: left as i32, game_over: false }
    }
}

/// Counts the lives after a frame in which the ball was in play.
pub fn count_lifes(lifes: i32, ball_lost: bool) -> (count: LifeCount)
    requires
        ball_lost ==> lifes > i32::MIN,
    ensures
        count == lifes_after(lifes, ball_lost),
{
    let left = if ball_lost { lifes - 1 } else { lifes };
    if left < 0 {
        LifeCount { lifes: PLAYER_LIFES, game_over: true }
    } else {
        LifeCount { lifes: left, game_over: false }
    }
}

/// Whether a blinking prompt is on in this frame: it is on for
/// [`BLINK_FRAMES`] frames and off for as many.
pub fn prompt_is_on(frames_counter: u64) -> (on: bool)
    ensures
        on == ((frames_counter / BLINK_FRAMES) % 2 == 0),
{
    (frames_counter / BLINK_FRAMES) % 2 == 0
}

/// Where the brick at row `x`, place `y` lies in the field, or why there is
/// none. Rows and places are counted from zero.
pub fn brick_index(x: i32, y: i32) -> (r: Result<usize, &'static str>)
    requires
        0 <= x,
        0 <= y,
    ensures
        r is Ok <==> x < BRICKS_LINES && y < BRICKS_PER_LINE,
        match r {
            Ok(index) => index == y * BRICKS_LINES + x,
            Err(msg) => msg@ == "Out bounds access to BrickField"@,
        },
{
    if x >= BRICKS_LINES || y >= BRICKS_PER_LINE {
        return Err("Out bounds access to BrickField");
    }
    Ok(((y * BRICKS_LINES) + x) as usize)
}

/// The number of bricks in the field: [`BRICKS_LINES`] rows of
/// [`BRICKS_PER_LINE`] bricks.
pub const FIELD_SIZE: usize = 100;

/// What the game keeps of a brick apart from where it is drawn.
#[derive(Clone, Copy, Debug, PartialEq, Eq, Structural)]
pub struct BrickState {
    /// The hits that the brick still takes before it breaks.
    pub resistance: i32,
    /// Whether the brick is still standing.
    pub active: bool,
}

impl BrickState {
    /// A brick that is not standing.
    pub fn default() -> (brick: BrickState)
        ensures
            brick == (BrickState { resistance: 0, active: false }),
    {
        BrickState { resistance: 0, active: false }
    }
}

/// `array_init::array_init` calls its initializer once for each place of
/// the array, in order, and puts what it returns at that place. Here the
/// initializer returns the brick that is not standing, whatever the place.
#[verifier::external_body]
fn fallen_bricks() -> (bricks: [BrickState; FIELD_SIZE])
    ensures
        forall|i: int|
            0 <= i < FIELD_SIZE ==> #[trigger] bricks[i] == (BrickState {
                resistance: 0,
                active: false,
            }),
{
    array_init::array_init(|_| BrickState::default())
}

/// The bricks of a game, row by row within place.
#[derive(Debug)]
pub struct BrickField {
    bricks: [BrickState; FIELD_SIZE],
}

impl BrickField {
    /// The bricks in the order in which the field keeps them.
    pub closed spec fn states(&self) -> Seq<BrickState> {
        self.bricks@
    }

    /// A field in which no brick is standing yet.
    pub fn new() -> (field: BrickField)
        ensures
            field.states().len() == FIELD_SIZE,
            forall|i: int|
                0 <= i < FIELD_SIZE ==> #[trigger] field.states()[i] == (BrickState {
                    resistance: 0,
                    active: false,
                }),
    {
        BrickField { bricks: fallen_bricks() }
    }

    /// The brick at row `x`, place `y`, to change it.
    pub fn get_mut(&mut self, x: i32, y: i32) -> (r: Result<&mut BrickState, &'static str>)
        requires
            0 <= x,
            0 <= y,
        ensures
            r is Ok <==> x < BRICKS_LINES && y < BRICKS_PER_LINE,
            match r {
                Ok(brick) => {
                    &&& *brick == old(self).states()[y * BRICKS_LINES + x]
                    &&& final(self).states() == old(self).states().update(
                        y * BRICKS_LINES + x,
                        *final(brick),
                    )
                },
                Err(msg) => {
                    &&& msg@ == "Out bounds access to BrickField"@
                    &&& final(self).states() == old(self).states()
                },
            },
    {
        match brick_index(x, y) {
            Ok(index) => Ok(&mut self.bricks[index]),
            Err(msg) => Err(msg),
        }
    }

    /// The brick at row `x`, place `y`, to look at it.
    pub fn get(&self, x: i32, y: i32) -> (r: Result<&BrickState, &'static str>)
        requires
            0 <= x,
            0 <= y,
        ensures
            r is Ok <==> x < BRICKS_LINES && y < BRICKS_PER_LINE,
            match r {
                Ok(brick) => *brick == self.states()[y * BRICKS_LINES + x],
                Err(msg) => msg@ == "Out bounds access to BrickField"@,
            },
    {
        match brick_index(x, y) {
            Ok(index) => Ok(&self.bricks[index]),
            Err(msg) => Err(msg),
        }
    }
}

/// Whether the brick at row `j`, place `i` is drawn in the lighter of the
/// two shades: the shades alternate like the fields of a chessboard.
pub fn brick_is_light(i: i32, j: i32) -> (light: bool)
    requires
        0 <= i,
        0 <= j,
        i + j <= i32::MAX,
    ensures
        light == ((i + j) % 2 == 0),
{
    (i + j) % 2 == 0
}

} // verus!
