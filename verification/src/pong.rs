use vstd::prelude::*;
use crate::node::{Node, Transform};
use crate::pool::Handle;
use crate::hierarchy::Hierarchy;
use crate::text::{decimal, format_decimal, space_text};
use crate::scripts::Keys;
use crate::fixed_math::{fixed_mul, fixed_product, text_contains, contains_text};
use crate::tree::witness_ok;

verus! {

// Positions and speeds are raw fixed-point bits with 12 fractional bits.

/// How far the ball moves per frame along each axis: three pixels.
pub const BALL_SPEED: i32 = 12288;

/// How far the player's paddle moves per frame: three pixels.
pub const PLAYER_PADDLE_SPEED: i32 = 12288;

/// How far the computer's paddle moves per frame: one and a half pixels.
pub const AI_PADDLE_SPEED: i32 = 6144;

/// Where the ball starts a rally: x 128.
pub const BALL_START_X: i32 = 524288;

/// Where the ball starts a rally: y 192, where the screens meet.
pub const BALL_START_Y: i32 = 786432;

/// Where the two screens meet: y 192.
pub const SCREEN_SPLIT: i32 = 786432;

/// The bottom of the lower screen: y 384.
pub const BOTTOM_EDGE: i32 = 1572864;

/// The ball of the pong demo: its velocity in units of the speed, whether
/// a rally is on, and the score.
#[derive(Clone, Copy, Debug, PartialEq, Eq, Structural)]
pub struct BallScript {
    pub x_vel: i32,
    pub y_vel: i32,
    pub moving: bool,
    pub player_score: u32,
    pub opponent_score: u32,
}

/// The score as the console shows it: the player's at the left, the
/// opponent's right-aligned in the last two columns.
pub struct ScoreTexts {
    pub player: String,
    pub opponent: String,
}

/// `s` padded with spaces on the left to `w` characters.
pub open spec fn right_aligned(s: Seq<char>, w: nat) -> Seq<char> {
    if s.len() < w {
        Seq::new((w - s.len()) as nat, |i: int| ' ') + s
    } else {
        s
    }
}

/// Right alignment puts spaces before the text until it is `w` wide, and
/// leaves a text that wide or wider as it is: the text ends the result.
pub proof fn lemma_right_aligned_layout(t: Seq<char>, w: nat)
    ensures
        right_aligned(t, w).len() == (if t.len() < w { w } else { t.len() }),
        right_aligned(t, w).subrange(right_aligned(t, w).len() - t.len(), right_aligned(t, w).len() as int) == t,
        forall|i: int| 0 <= i < right_aligned(t, w).len() - t.len() ==> #[trigger] right_aligned(t, w)[i] == ' ',
{
    let r = right_aligned(t, w);
    assert(r.subrange(r.len() - t.len(), r.len() as int) =~= t);
}

/// The number in decimal, right-aligned in two columns, as
/// `format!("{: >2}", n)` writes it.
fn format_number_right2(n: u32) -> (s: String)
    ensures
        s@ == right_aligned(decimal(n as nat), 2),
{
    let d = format_decimal(n as u64);
    let len = d.as_str().unicode_len();
    if len < 2 {
        let pad = space_text(2 - len);
        let r = pad.concat(d.as_str());
        assert(r@ =~= right_aligned(decimal(n as nat), 2));
        r
    } else {
        d
    }
}

/// The score texts for a ball's score.
pub open spec fn score_texts_ok(b: BallScript, r: ScoreTexts) -> bool {
    &&& r.player@ == decimal(b.player_score as nat)
    &&& r.opponent@ == right_aligned(decimal(b.opponent_score as nat), 2)
}

/// A node whose name holds "Wall" is a wall; any other node the ball hits
/// is a paddle.
pub open spec fn is_wall(name: Seq<char>) -> bool {
    contains_text(name, "Wall"@)
}

/// The horizontal velocity after bouncing off each wall of the list in
/// turn.
pub open spec fn bounced_x(xv: int, names: Seq<Seq<char>>) -> int
    decreases names.len(),
{
    if names.len() == 0 {
        xv
    } else {
        let v = bounced_x(xv, names.drop_last());
        if is_wall(names.last()) {
            -v
        } else {
            v
        }
    }
}

/// Some node of the list is a paddle.
pub open spec fn hits_paddle(names: Seq<Seq<char>>) -> bool {
    exists|i: int| 0 <= i < names.len() && !is_wall(#[trigger] names[i])
}

/// A new rally: the ball stops at its start.
pub open spec fn restarted(b: BallScript) -> BallScript {
    BallScript { moving: false, ..b }
}

/// The start position of the ball.
pub open spec fn start_position() -> Transform {
    Transform { x: BALL_START_X, y: BALL_START_Y }
}

/// The ball and its position after a point is scored, if one is: above
/// the top the player scores, below the bottom the opponent does.
pub open spec fn after_scoring(b: BallScript, t: Transform) -> (BallScript, Transform) {
    let (b1, t1) = if t.y < 0 {
        (restarted(BallScript { player_score: (b.player_score + 1) as u32, ..b }), start_position())
    } else {
        (b, t)
    };
    if t1.y > BOTTOM_EDGE {
        (restarted(BallScript { opponent_score: (b1.opponent_score + 1) as u32, ..b1 }), start_position())
    } else {
        (b1, t1)
    }
}

/// The velocities after bouncing off what the ball's collider touches: a
/// wall turns it round horizontally; a paddle sends it up on the lower
/// screen and down on the upper one.
pub open spec fn bounced(b: BallScript, t: Transform, names: Seq<Seq<char>>) -> (int, int) {
    let xv = bounced_x(b.x_vel as int, names);
    let yv = if hits_paddle(names) {
        if t.y > SCREEN_SPLIT {
            -4096
        } else {
            4096
        }
    } else {
        b.y_vel as int
    };
    (xv, yv)
}

/// One frame of the ball: while a rally is on, scoring, bouncing and
/// moving by the velocity times the speed; otherwise a press of A starts a
/// rally going right and down.
pub open spec fn ball_update(b: BallScript, t: Transform, names: Seq<Seq<char>>, a_pressed: bool) -> (BallScript, Transform) {
    if b.moving {
        let (b1, t1) = after_scoring(b, t);
        let (xv, yv) = bounced(b1, t1, names);
        (
            BallScript { x_vel: xv as i32, y_vel: yv as i32, ..b1 },
            Transform {
                x: (t1.x + fixed_product(xv as i32, BALL_SPEED)) as i32,
                y: (t1.y + fixed_product(yv as i32, BALL_SPEED)) as i32,
            },
        )
    } else if a_pressed {
        (BallScript { moving: true, x_vel: 4096, y_vel: 4096, ..b }, t)
    } else {
        (b, t)
    }
}

/// No step of a frame of the ball overflows.
pub open spec fn ball_update_fits(b: BallScript, t: Transform, names: Seq<Seq<char>>) -> bool {
    b.moving ==> {
        let (b1, t1) = after_scoring(b, t);
        let (xv, yv) = bounced(b1, t1, names);
        &&& t.y < 0 ==> b.player_score < u32::MAX
        &&& t.y > BOTTOM_EDGE ==> b.opponent_score < u32::MAX
        &&& b.x_vel != i32::MIN
        &&& i32::MIN <= fixed_product(xv as i32, BALL_SPEED) <= i32::MAX
        &&& i32::MIN <= fixed_product(yv as i32, BALL_SPEED) <= i32::MAX
        &&& i32::MIN <= t1.x + fixed_product(xv as i32, BALL_SPEED) <= i32::MAX
        &&& i32::MIN <= t1.y + fixed_product(yv as i32, BALL_SPEED) <= i32::MAX
    }
}

/// What one frame of the ball does. A ball at rest stays put; a press of
/// A sets it going right and down at one unit a frame. A moving ball
/// scores a point for the player when it is above the top and for the
/// opponent when it is below the bottom, and then starts again, at rest,
/// from the start position; each score grows by at most one. Its
/// horizontal speed keeps its size and can only turn round, and with
/// nothing touched neither velocity changes. A moving ball that scores no
/// point moves by its new velocity times the ball speed.
pub proof fn lemma_ball_frame(b: BallScript, t: Transform, names: Seq<Seq<char>>, a_pressed: bool)
    requires
        ball_update_fits(b, t, names),
    ensures
        ({
            let (b2, t2) = ball_update(b, t, names, a_pressed);
            &&& !b.moving && !a_pressed ==> b2 == b && t2 == t
            &&& !b.moving && a_pressed ==> t2 == t && b2.moving && b2.x_vel == 4096 && b2.y_vel == 4096
                && b2.player_score == b.player_score && b2.opponent_score == b.opponent_score
            &&& b.moving ==> b2.player_score as int == b.player_score + (if t.y < 0 { 1int } else { 0int })
            &&& b.moving ==> b2.opponent_score as int == b.opponent_score + (if t.y > BOTTOM_EDGE { 1int } else { 0int })
            &&& b.moving ==> (b2.moving <==> !(t.y < 0 || t.y > BOTTOM_EDGE))
            &&& b.moving ==> (b2.x_vel == b.x_vel || b2.x_vel as int == -(b.x_vel as int))
            &&& b.moving && names.len() == 0 ==> b2.x_vel == b.x_vel && b2.y_vel == b.y_vel
            &&& b.moving && 0 <= t.y <= BOTTOM_EDGE ==> t2.x == t.x + fixed_product(b2.x_vel, BALL_SPEED)
                && t2.y == t.y + fixed_product(b2.y_vel, BALL_SPEED)
            &&& b.moving && (t.y < 0 || t.y > BOTTOM_EDGE) ==> t2.x == BALL_START_X + fixed_product(b2.x_vel, BALL_SPEED)
                && t2.y == BALL_START_Y + fixed_product(b2.y_vel, BALL_SPEED)
        }),
{
    if b.moving {
        lemma_bounced_x(b.x_vel as int, names);
    }
}

/// Bouncing only ever turns the velocity round.
proof fn lemma_bounced_x(xv: int, names: Seq<Seq<char>>)
    ensures
        bounced_x(xv, names) == xv || bounced_x(xv, names) == -xv,
    decreases names.len(),
{
    if names.len() > 0 {
        lemma_bounced_x(xv, names.drop_last());
    }
}

impl BallScript {
    /// A ball at rest with no score.
    pub fn new() -> (r: Self)
        ensures
            r == (BallScript { x_vel: 0, y_vel: 0, moving: false, player_score: 0, opponent_score: 0 }),
    {
        BallScript { x_vel: 0, y_vel: 0, moving: false, player_score: 0, opponent_score: 0 }
    }

    /// The texts that show the score.
    fn print_scores(&self) -> (r: ScoreTexts)
        ensures
            score_texts_ok(*self, r),
    {
        ScoreTexts { player: format_decimal(self.player_score as u64), opponent: format_number_right2(self.opponent_score) }
    }

    /// Puts the ball at its start and stops it; gives the score to show.
    pub fn start(&mut self, transform: &mut Transform) -> (r: ScoreTexts)
        ensures
            *final(self) == restarted(*old(self)),
            *final(transform) == start_position(),
            score_texts_ok(*final(self), r),
    {
        self.moving = false;
        *transform = Transform { x: BALL_START_X, y: BALL_START_Y };
        self.print_scores()
    }

    /// One frame, given the names of the nodes that the ball's collider
    /// touches and whether A is held. Gives the score to show when a point
    /// was scored.
    pub fn update(&mut self, transform: &mut Transform, touching: &Vec<String>, a_pressed: bool) -> (r: Option<ScoreTexts>)
        requires
            ball_update_fits(*old(self), *old(transform), touching@.map_values(|s: String| s@)),
        ensures
            (*final(self), *final(transform)) == ball_update(*old(self), *old(transform), touching@.map_values(|s: String| s@), a_pressed),
            r is Some <==> old(self).moving && (old(transform).y < 0 || old(transform).y > BOTTOM_EDGE),
            r matches Some(texts) ==> score_texts_ok(*final(self), texts),
    {
        let ghost names = touching@.map_values(|s: String| s@);
        if !self.moving {
            if a_pressed {
                self.moving = true;
                self.x_vel = 4096;
                self.y_vel = 4096;
            }
            return None;
        }
        let ghost b0 = *self;
        let ghost t0 = *transform;
        let mut texts: Option<ScoreTexts> = None;
        if transform.y < 0 {
            self.player_score = self.player_score + 1;
            texts = Some(self.print_scores());
            self.moving = false;
            *transform = Transform { x: BALL_START_X, y: BALL_START_Y };
        }
        if transform.y > BOTTOM_EDGE {
            self.opponent_score = self.opponent_score + 1;
            texts = Some(self.print_scores());
            self.moving = false;
            *transform = Transform { x: BALL_START_X, y: BALL_START_Y };
        }
        proof {
            assert((*self, *transform) == after_scoring(b0, t0));
        }
        let ghost b1 = *self;
        let mut k: usize = 0;
        while k < touching.len()
            invariant
                k <= touching.len(),
                names == touching@.map_values(|s: String| s@),
                b1.x_vel != i32::MIN,
                self.x_vel as int == bounced_x(b1.x_vel as int, names.take(k as int)),
                self.y_vel as int == bounced(b1, *transform, names.take(k as int)).1,
                *self == (BallScript { x_vel: self.x_vel, y_vel: self.y_vel, ..b1 }),
            decreases touching.len() - k,
        {
            proof {
                lemma_bounced_x(b1.x_vel as int, names.take(k as int));
                assert(names.take(k + 1).drop_last() =~= names.take(k as int));
                assert(names.take(k + 1).last() == touching@[k as int]@);
            }
            if text_contains(touching[k].as_str(), "Wall") {
                self.x_vel = -self.x_vel;
            } else {
                self.y_vel = if transform.y > SCREEN_SPLIT { -4096 } else { 4096 };
            }
            proof {
                let n0 = names.take(k as int);
                let n1 = names.take(k + 1);
                if hits_paddle(n1) {
                    let i = choose|i: int| 0 <= i < n1.len() && !is_wall(#[trigger] n1[i]);
                    if i < k {
                        assert(n0[i] == n1[i]);
                    }
                }
                if hits_paddle(n0) {
                    let i = choose|i: int| 0 <= i < n0.len() && !is_wall(#[trigger] n0[i]);
                    assert(n1[i] == n0[i]);
                }
                if !is_wall(n1[k as int]) {
                    assert(hits_paddle(n1));
                }
            }
            k = k + 1;
        }
        proof {
            assert(names.take(k as int) =~= names);
            lemma_bounced_x(b1.x_vel as int, names);
        }
        let dx = fixed_mul(self.x_vel, BALL_SPEED);
        let dy = fixed_mul(self.y_vel, BALL_SPEED);
        transform.x = transform.x + dx;
        transform.y = transform.y + dy;
        texts
    }
}

/// The computer's paddle: it follows the ball.
pub struct AIPaddleScript {
    pub ball_handle: Option<Handle<Node>>,
}

impl AIPaddleScript {
    /// A paddle that has not found the ball yet.
    pub fn new() -> (r: Self)
        ensures
            r.ball_handle is None,
    {
        AIPaddleScript { ball_handle: None }
    }

    /// Finds the ball: the first node named "Ball" among the children of
    /// the paddle's parent.
    pub fn start(&mut self, hierarchy: &mut Hierarchy, handle: Handle<Node>)
        requires
            old(hierarchy).wf(),
            old(hierarchy).live@.contains(handle@),
            old(hierarchy).node(handle@).parent_handle is Some,
        ensures
            *final(hierarchy) == *old(hierarchy),
            ({
                let p = old(hierarchy).node(handle@).parent_handle->0@;
                let cs = old(hierarchy).children(p);
                match final(self).ball_handle {
                    Some(b) => cs.contains(b@) && old(hierarchy).node(b@).name@ == "Ball"@
                        && forall|j: int| 0 <= j < cs.index_of(b@) ==> #[trigger] old(hierarchy).node(cs[j]).name@ != "Ball"@,
                    None => forall|j: int| 0 <= j < cs.len() ==> #[trigger] old(hierarchy).node(cs[j]).name@ != "Ball"@,
                }
            }),
    {
        let parent = hierarchy.object_pool.borrow(handle).parent_handle;
        let parent = match parent {
            Some(p) => p,
            None => {
                return;
            },
        };
        proof {
            let m = hierarchy.live_links();
            let (c, d) = choose|c: spec_fn((usize, u32)) -> Seq<(usize, u32)>, d: spec_fn((usize, u32)) -> nat|
                witness_ok(m, hierarchy.root@, c, d);
            assert(m.dom() =~= hierarchy.live@);
            assert(m.dom().contains(handle@));
            assert(m[handle@].parent == Some(parent@));
            if handle@ == hierarchy.root@ {
                assert(m[hierarchy.root@].parent is None);
            }
        }
        self.ball_handle = hierarchy.find_by_name(parent, "Ball");
    }

    /// One frame: a step towards the ball's horizontal position, right
    /// when the ball is to the right and left otherwise.
    pub fn update(&self, paddle: &mut Transform, ball_x: i32)
        requires
            self.ball_handle is Some,
            old(paddle).x < ball_x ==> old(paddle).x + AI_PADDLE_SPEED <= i32::MAX,
            old(paddle).x >= ball_x ==> old(paddle).x - AI_PADDLE_SPEED >= i32::MIN,
        ensures
            final(paddle).y == old(paddle).y,
            final(paddle).x == if old(paddle).x < ball_x {
                old(paddle).x + AI_PADDLE_SPEED
            } else {
                old(paddle).x - AI_PADDLE_SPEED
            },
    {
        if paddle.x < ball_x {
            paddle.x = paddle.x + AI_PADDLE_SPEED;
        } else {
            paddle.x = paddle.x - AI_PADDLE_SPEED;
        }
    }
}

/// The player's paddle: left and right move it.
pub struct PlayerPaddleScript {}

/// The horizontal position after holding left, then right: each moves the
/// paddle by its speed.
pub open spec fn paddle_moved(x: int, keys: Keys) -> (int, int) {
    let x1 = if keys.left { x - PLAYER_PADDLE_SPEED } else { x };
    let x2 = if keys.right { x1 + PLAYER_PADDLE_SPEED } else { x1 };
    (x1, x2)
}

impl PlayerPaddleScript {
    pub fn new() -> (r: Self) {
        PlayerPaddleScript {}
    }

    /// One frame: left moves the paddle left, right moves it right.
    pub fn update(&self, paddle: &mut Transform, keys: Keys)
        requires
            paddle_moved(old(paddle).x as int, keys).0 >= i32::MIN,
            paddle_moved(old(paddle).x as int, keys).1 <= i32::MAX,
        ensures
            final(paddle).y == old(paddle).y,
            final(paddle).x == paddle_moved(old(paddle).x as int, keys).1,
    {
        if keys.left {
            paddle.x = paddle.x - PLAYER_PADDLE_SPEED;
        }
        if keys.right {
            paddle.x = paddle.x + PLAYER_PADDLE_SPEED;
        }
    }
}

} // verus!
