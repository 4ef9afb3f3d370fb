use vstd::prelude::*;
use crate::text::{decimal, format_decimal, space_text};
use crate::node::Transform;
use crate::hierarchy::HasTypeId;
use crate::random::{Rng, rand_i32_in_range, pcg32_bounded};
use crate::fixed_math::{fixed_mul, fixed_product, fixed_div_int, fixed_from_int, div_toward_zero, sin_cos, cordic_sin_cos, text_contains, contains_text};

verus! {

/// The buttons held down in a frame.
#[derive(Clone, Copy, Debug, PartialEq, Eq, Structural)]
pub struct Keys {
    pub a: bool,
    pub start: bool,
    pub up: bool,
    pub down: bool,
    pub left: bool,
    pub right: bool,
}

/// How long, in frames, the start message stays up.
pub const DISPLAY_START_MESSAGE_TIME: u32 = 120;

/// A script that counts the frames since it started, from four.
pub struct Obj1 {
    pub cntr: u32,
}

impl Obj1 {
    pub fn start(&mut self)
        ensures
            final(self).cntr == 4,
    {
        self.cntr = 4;
    }

    pub fn update(&mut self)
        requires
            old(self).cntr < u32::MAX,
        ensures
            final(self).cntr == old(self).cntr + 1,
    {
        self.cntr = self.cntr + 1;
    }
}

/// A script that counts down from six and carries a short text.
pub struct Obj2 {
    pub cntr: i32,
    pub strog: String,
}

impl Obj2 {
    pub fn new() -> (r: Self)
        ensures
            r.cntr == 0,
            r.strog@ == Seq::<char>::empty(),
    {
        Obj2 { cntr: 0, strog: String::new() }
    }

    pub fn start(&mut self)
        ensures
            final(self).cntr == 6,
            final(self).strog@ == "flagg;"@,
    {
        self.cntr = 6;
        self.strog = String::from_str("flagg;");
    }

    pub fn update(&mut self)
        requires
            old(self).cntr > i32::MIN,
        ensures
            final(self).cntr == old(self).cntr - 1,
            final(self).strog == old(self).strog,
    {
        self.cntr = self.cntr - 1;
    }
}

impl HasTypeId for Obj2 {
    fn type_id() -> (r: u32)
        ensures
            r == 2,
    {
        2
    }
}

/// Where a game of the shooter demo stands.
#[derive(Clone, Copy, Debug, PartialEq, Eq, Structural)]
pub enum GameState {
    Start,
    Playing,
    GameOver,
}

/// What the game manager asks to be done on screen after an update.
#[derive(Clone, Copy, Debug, PartialEq, Eq, Structural)]
pub enum GameManagerAction {
    Nothing,
    /// The start message is over: clear it.
    ClearStartMessage,
    /// Start was pressed after the game was over: clear the message and load
    /// the game scene again.
    Restart,
}

/// The score and state of a game of the shooter demo.
pub struct GameManagerScript {
    pub score: u32,
    pub state: GameState,
    pub start_timer: u32,
}

/// The text that shows a score: "Score: " and the number, padded with
/// spaces on the right to four characters.
pub open spec fn score_text(score: nat) -> Seq<char> {
    let d = decimal(score);
    seq!['S', 'c', 'o', 'r', 'e', ':', ' '] + d + Seq::new(if d.len() < 4 { (4 - d.len()) as nat } else { 0 }, |i: int| ' ')
}

/// The score text is "Score: " followed by the score in decimal, and then
/// by as many spaces as bring the score to four characters, none for a
/// longer one.
pub proof fn lemma_score_text_layout(score: nat)
    ensures
        score_text(score).subrange(0, 7) == seq!['S', 'c', 'o', 'r', 'e', ':', ' '],
        score_text(score).subrange(7, 7 + decimal(score).len() as int) == decimal(score),
        score_text(score).len() == 7 + (if decimal(score).len() < 4 { 4 } else { decimal(score).len() }),
        forall|i: int| 7 + decimal(score).len() <= i < score_text(score).len() ==> #[trigger] score_text(score)[i] == ' ',
{
    let d = decimal(score);
    let t = score_text(score);
    assert(t.subrange(0, 7) =~= seq!['S', 'c', 'o', 'r', 'e', ':', ' ']);
    assert(t.subrange(7, 7 + d.len() as int) =~= d);
}

/// The score after "Score: ", padded with spaces on the right to four
/// characters, as `format!("Score: {: <4}", score)` writes it.
fn format_score(score: u32) -> (s: String)
    ensures
        s@ == score_text(score as nat),
{
    proof {
        reveal_strlit("Score: ");
        assert("Score: "@ =~= seq!['S', 'c', 'o', 'r', 'e', ':', ' ']);
    }
    let d = format_decimal(score as u64);
    let len = d.as_str().unicode_len();
    let pad = if len < 4 {
        space_text(4 - len)
    } else {
        space_text(0)
    };
    let r = String::from_str("Score: ").concat(d.as_str()).concat(pad.as_str());
    assert(r@ =~= score_text(score as nat));
    r
}

impl GameManagerScript {
    /// A manager for a game that has not started.
    pub fn new() -> (r: Self)
        ensures
            r.score == 0,
            r.state == GameState::Start,
            r.start_timer == 0,
    {
        GameManagerScript { score: 0, state: GameState::Start, start_timer: 0 }
    }

    /// Starts the start message's countdown; gives the score text to show.
    pub fn start(&mut self) -> (r: String)
        ensures
            final(self).start_timer == DISPLAY_START_MESSAGE_TIME,
            final(self).score == old(self).score,
            final(self).state == old(self).state,
            r@ == score_text(old(self).score as nat),
    {
        self.start_timer = DISPLAY_START_MESSAGE_TIME;
        self.draw_score()
    }

    /// One frame: the start message counts down, and once the game is over
    /// a press of start restarts it.
    pub fn update(&mut self, start_pressed: bool) -> (r: GameManagerAction)
        requires
            old(self).state == GameState::Start ==> old(self).start_timer > 0,
        ensures
            final(self).score == old(self).score,
            old(self).state == GameState::Start ==> {
                &&& final(self).start_timer == old(self).start_timer - 1
                &&& final(self).state == (if old(self).start_timer == 1 { GameState::Playing } else { GameState::Start })
                &&& r == (if old(self).start_timer == 1 { GameManagerAction::ClearStartMessage } else { GameManagerAction::Nothing })
            },
            old(self).state == GameState::Playing ==> *final(self) == *old(self) && r == GameManagerAction::Nothing,
            old(self).state == GameState::GameOver ==> *final(self) == *old(self)
                && r == (if start_pressed { GameManagerAction::Restart } else { GameManagerAction::Nothing }),
    {
        let mut action = GameManagerAction::Nothing;
        if self.state == GameState::Start {
            self.start_timer = self.start_timer - 1;
            if self.start_timer == 0 {
                self.state = GameState::Playing;
                action = GameManagerAction::ClearStartMessage;
            }
        }
        if self.state == GameState::GameOver {
            if start_pressed {
                action = GameManagerAction::Restart;
            }
        }
        action
    }

    /// Ends the game; gives whether it just ended, for the message to show.
    pub fn game_over(&mut self) -> (r: bool)
        ensures
            final(self).state == GameState::GameOver,
            final(self).score == old(self).score,
            final(self).start_timer == old(self).start_timer,
            r == (old(self).state != GameState::GameOver),
    {
        if self.state != GameState::GameOver {
            self.state = GameState::GameOver;
            true
        } else {
            false
        }
    }

    /// Adds to the score unless the game is over; gives the score text to
    /// show then.
    pub fn add_score(&mut self, amount: u32) -> (r: Option<String>)
        requires
            old(self).state != GameState::GameOver ==> old(self).score + amount <= u32::MAX,
        ensures
            final(self).state == old(self).state,
            final(self).start_timer == old(self).start_timer,
            old(self).state != GameState::GameOver ==> final(self).score == old(self).score + amount
                && r is Some && r->0@ == score_text(final(self).score as nat),
            old(self).state == GameState::GameOver ==> final(self).score == old(self).score && r is None,
    {
        if self.state != GameState::GameOver {
            self.score = self.score + amount;
            Some(self.draw_score())
        } else {
            None
        }
    }

    /// The text that shows the current score.
    fn draw_score(&self) -> (r: String)
        ensures
            r@ == score_text(self.score as nat),
    {
        format_score(self.score)
    }
}


/// How far the player's ship moves per frame: three pixels, as raw
/// fixed-point bits.
pub const MOVEMENT_SPEED: i32 = 12288;

/// How far the ship moves per frame while its gun reloads: one and a half
/// pixels.
pub const MOVEMENT_SPEED_WHILE_SHOOTING: i32 = 6144;

/// Frames between two shots.
pub const SHOOT_COOLDOWN_RELOAD: u32 = 15;

/// How far a bullet flies up per frame: five pixels.
pub const BULLET_SPEED: i32 = 20480;

/// Above this height a bullet has left the screen: y -64.
pub const BULLET_TOP: i32 = -262144;

/// How far an enemy moves per frame, times its velocity: three pixels.
pub const ENEMY_SPEED: i32 = 12288;

/// Below this height an enemy got past: y 384, the bottom of the lower
/// screen.
pub const ENEMY_BOTTOM: i32 = 1572864;

/// Frames before the first enemy comes.
pub const FIRST_SPAWN_DELAY: u32 = 20;

/// Frames between two enemies.
pub const SPAWN_INTERVAL: u32 = 60;

/// Where a new enemy appears: y -32.
pub const ENEMY_START_Y: i32 = -131072;

/// Where a bullet leaves the ship: twelve pixels right of its position.
pub const GUN_OFFSET: i32 = 49152;

/// The player's ship of the shooter demo, with the frames left before it
/// can shoot again.
pub struct PlayerScript {
    pub shoot_cooldown: u32,
}

/// The speed of the ship in a frame: slower while the gun reloads.
pub open spec fn ship_speed(cooldown: u32) -> int {
    if cooldown > 0 {
        MOVEMENT_SPEED_WHILE_SHOOTING as int
    } else {
        MOVEMENT_SPEED as int
    }
}

/// The position after holding the arrows: up, down, left, right in turn,
/// each a step of `speed`; and each intermediate value.
pub open spec fn ship_moved(t: Transform, keys: Keys, speed: int) -> (int, int, int, int) {
    let y1 = if keys.up { t.y - speed } else { t.y as int };
    let y2 = if keys.down { y1 + speed } else { y1 };
    let x1 = if keys.left { t.x - speed } else { t.x as int };
    let x2 = if keys.right { x1 + speed } else { x1 };
    (y1, y2, x1, x2)
}

/// No step of the ship's movement overflows.
pub open spec fn ship_move_fits(t: Transform, keys: Keys, speed: int) -> bool {
    let (y1, y2, x1, x2) = ship_moved(t, keys, speed);
    &&& i32::MIN <= y1 <= i32::MAX
    &&& i32::MIN <= y2 <= i32::MAX
    &&& i32::MIN <= x1 <= i32::MAX
    &&& i32::MIN <= x2 <= i32::MAX
}

impl PlayerScript {
    /// A ship that can shoot at once.
    pub fn new() -> (r: Self)
        ensures
            r.shoot_cooldown == 0,
    {
        PlayerScript { shoot_cooldown: 0 }
    }

    /// One frame: the gun reloads, the arrows move the ship (slower while
    /// reloading), and A shoots when the gun is ready. Gives where the new
    /// bullet starts when the ship shot: twelve pixels right of the moved
    /// ship.
    pub fn update(&mut self, ship: &mut Transform, keys: Keys) -> (r: Option<Transform>)
        requires
            ship_move_fits(*old(ship), keys, ship_speed(old(self).shoot_cooldown)),
            keys.a && old(self).shoot_cooldown <= 1
                ==> ship_moved(*old(ship), keys, ship_speed(old(self).shoot_cooldown)).3 + GUN_OFFSET <= i32::MAX,
        ensures
            ({
                let cd = if old(self).shoot_cooldown > 0 { old(self).shoot_cooldown - 1 } else { 0 };
                let (y1, y2, x1, x2) = ship_moved(*old(ship), keys, ship_speed(old(self).shoot_cooldown));
                &&& *final(ship) == (Transform { x: x2 as i32, y: y2 as i32 })
                &&& if keys.a && cd == 0 {
                    &&& r == Some((Transform { x: (x2 + GUN_OFFSET) as i32, y: y2 as i32 }))
                    &&& final(self).shoot_cooldown == SHOOT_COOLDOWN_RELOAD
                } else {
                    &&& r is None
                    &&& final(self).shoot_cooldown == cd
                }
            }),
    {
        let mut speed = MOVEMENT_SPEED;
        if self.shoot_cooldown > 0 {
            self.shoot_cooldown = self.shoot_cooldown - 1;
            speed = MOVEMENT_SPEED_WHILE_SHOOTING;
        }
        if keys.up {
            ship.y = ship.y - speed;
        }
        if keys.down {
            ship.y = ship.y + speed;
        }
        if keys.left {
            ship.x = ship.x - speed;
        }
        if keys.right {
            ship.x = ship.x + speed;
        }
        if keys.a && self.shoot_cooldown == 0 {
            let bullet = Transform { x: ship.x + GUN_OFFSET, y: ship.y };
            self.shoot_cooldown = SHOOT_COOLDOWN_RELOAD;
            Some(bullet)
        } else {
            None
        }
    }
}

/// A bullet of the shooter demo: it flies up and destroys the enemy it
/// hits.
pub struct BulletScript {}

/// What a bullet's frame asks for.
#[derive(Clone, Copy, Debug, PartialEq, Eq, Structural)]
pub struct BulletOutcome {
    /// The bullet left the top of the screen: destroy it.
    pub gone: bool,
    /// The last of the touched nodes that is part of an enemy, by its place
    /// in the list: destroy the bullet and that node's parent, the enemy.
    pub hit: Option<usize>,
}

/// A node whose name holds "Enemy" is part of an enemy.
pub open spec fn is_enemy_part(name: Seq<char>) -> bool {
    contains_text(name, "Enemy"@)
}

/// The place of the last name that marks an enemy, if any.
pub open spec fn last_enemy(names: Seq<Seq<char>>) -> Option<usize>
    decreases names.len(),
{
    if names.len() == 0 {
        None
    } else if is_enemy_part(names.last()) {
        Some((names.len() - 1) as usize)
    } else {
        last_enemy(names.drop_last())
    }
}

impl BulletScript {
    pub fn new() -> (r: Self) {
        BulletScript {}
    }

    /// One frame, given the names of the nodes that the bullet's collider
    /// touches: the bullet flies up; it is gone once above the screen, and
    /// the last enemy part it touches is hit.
    pub fn update(&self, bullet: &mut Transform, touching: &Vec<String>) -> (r: BulletOutcome)
        requires
            old(bullet).y - BULLET_SPEED >= i32::MIN,
        ensures
            *final(bullet) == (Transform { x: old(bullet).x, y: (old(bullet).y - BULLET_SPEED) as i32 }),
            r.gone == (final(bullet).y < BULLET_TOP),
            r.hit == last_enemy(touching@.map_values(|s: String| s@)),
    {
        let ghost names = touching@.map_values(|s: String| s@);
        bullet.y = bullet.y - BULLET_SPEED;
        let gone = bullet.y < BULLET_TOP;
        let mut hit: Option<usize> = None;
        let mut k: usize = 0;
        while k < touching.len()
            invariant
                k <= touching.len(),
                names == touching@.map_values(|s: String| s@),
                hit == last_enemy(names.take(k as int)),
            decreases touching.len() - k,
        {
            proof {
                assert(names.take(k + 1).drop_last() =~= names.take(k as int));
                assert(names.take(k + 1).last() == touching@[k as int]@);
            }
            if text_contains(touching[k].as_str(), "Enemy") {
                hit = Some(k);
            }
            k = k + 1;
        }
        proof {
            assert(names.take(k as int) =~= names);
        }
        BulletOutcome { gone, hit }
    }
}

/// An enemy of the shooter demo: it flies along its velocity, in units of
/// its speed.
pub struct EnemyScript {
    pub x_velocity: i32,
    pub y_velocity: i32,
}

impl EnemyScript {
    /// An enemy at rest.
    pub fn new() -> (r: Self)
        ensures
            r.x_velocity == 0,
            r.y_velocity == 0,
    {
        EnemyScript { x_velocity: 0, y_velocity: 0 }
    }

    /// One frame: the enemy moves by its velocity times its speed; gives
    /// whether it got past the bottom of the screen, which destroys it and
    /// ends the game.
    pub fn update(&self, enemy: &mut Transform) -> (got_past: bool)
        requires
            i32::MIN <= fixed_product(self.y_velocity, ENEMY_SPEED) <= i32::MAX,
            i32::MIN <= fixed_product(self.x_velocity, ENEMY_SPEED) <= i32::MAX,
            i32::MIN <= old(enemy).y + fixed_product(self.y_velocity, ENEMY_SPEED) <= i32::MAX,
            i32::MIN <= old(enemy).x + fixed_product(self.x_velocity, ENEMY_SPEED) <= i32::MAX,
        ensures
            final(enemy).y == old(enemy).y + fixed_product(self.y_velocity, ENEMY_SPEED),
            final(enemy).x == old(enemy).x + fixed_product(self.x_velocity, ENEMY_SPEED),
            got_past == (final(enemy).y > ENEMY_BOTTOM),
    {
        let dy = fixed_mul(self.y_velocity, ENEMY_SPEED);
        enemy.y = enemy.y + dy;
        let dx = fixed_mul(self.x_velocity, ENEMY_SPEED);
        enemy.x = enemy.x + dx;
        enemy.y > ENEMY_BOTTOM
    }
}

/// Sends enemies at intervals.
pub struct EnemySpawnerScript {
    pub enemy_spawn_countdown: u32,
}

/// Where and how a new enemy sets off.
#[derive(Clone, Copy, Debug)]
pub struct EnemySpawn {
    /// Its position, as raw fixed-point bits.
    pub transform: Transform,
    /// Its heading in radians, as raw fixed-point bits; also the rotation
    /// of its sprite.
    pub angle: i32,
    pub x_velocity: i32,
    pub y_velocity: i32,
}

/// The heading for a number drawn from -128 up to 128: the number over 128,
/// over 3, each division rounding towards zero; from about -1/3 to 1/3.
pub open spec fn spawn_angle(drawn: int) -> int {
    div_toward_zero(div_toward_zero(drawn * 4096, 128), 3)
}

/// The enemy for the two numbers drawn: `x` from 0 up to 256 and `a` from
/// -128 up to 128. It flies along the sine and cosine of minus its angle.
pub open spec fn enemy_for(x: int, a: int) -> EnemySpawn {
    let angle = spawn_angle(a);
    let (s, c) = cordic_sin_cos((-angle) as i32);
    EnemySpawn {
        transform: Transform { x: (x * 4096) as i32, y: ENEMY_START_Y },
        angle: angle as i32,
        x_velocity: s,
        y_velocity: c,
    }
}

/// Draws the place and heading of a new enemy from the generator.
pub fn enemy_spawn(rng: &mut Rng) -> (r: EnemySpawn)
    requires
        old(rng).inc % 2 == 1,
    ensures
        ({
            let (s1, x) = pcg32_bounded(old(rng).state, old(rng).inc, 256);
            let (s2, a) = pcg32_bounded(s1, old(rng).inc, 256);
            &&& x < 256 && a < 256
            &&& r == enemy_for(x as int, a - 128)
            &&& *final(rng) == (Rng { state: s2, inc: old(rng).inc })
        }),
{
    let new_enemy_x = rand_i32_in_range(rng, 0, 256);
    let drawn = rand_i32_in_range(rng, -128, 128);
    let a = fixed_from_int(drawn);
    let a1 = fixed_div_int(a, 128);
    let angle = fixed_div_int(a1, 3);
    proof {
        assert(-524288 <= angle <= 524288);
    }
    let (s, c) = sin_cos(-angle);
    let x = fixed_from_int(new_enemy_x);
    EnemySpawn {
        transform: Transform { x, y: ENEMY_START_Y },
        angle,
        x_velocity: s,
        y_velocity: c,
    }
}

impl EnemySpawnerScript {
    /// A spawner that has not started.
    pub fn new() -> (r: Self)
        ensures
            r.enemy_spawn_countdown == 0,
    {
        EnemySpawnerScript { enemy_spawn_countdown: 0 }
    }

    /// The first enemy comes after a short delay.
    pub fn start(&mut self)
        ensures
            final(self).enemy_spawn_countdown == FIRST_SPAWN_DELAY,
    {
        self.enemy_spawn_countdown = FIRST_SPAWN_DELAY;
    }

    /// One frame of the countdown; gives whether an enemy comes now, when
    /// the countdown starts again.
    pub fn update(&mut self) -> (spawn: bool)
        requires
            old(self).enemy_spawn_countdown > 0,
        ensures
            spawn == (old(self).enemy_spawn_countdown == 1),
            final(self).enemy_spawn_countdown == if spawn { SPAWN_INTERVAL } else { (old(self).enemy_spawn_countdown - 1) as u32 },
    {
        self.enemy_spawn_countdown = self.enemy_spawn_countdown - 1;
        if self.enemy_spawn_countdown == 0 {
            self.enemy_spawn_countdown = SPAWN_INTERVAL;
            true
        } else {
            false
        }
    }
}

} // verus!
