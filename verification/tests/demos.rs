use sandstone::node::{Node, NodeExtensionHandle, Transform};
use sandstone::pool::Pool;
use sandstone::pong::{AIPaddleScript, BallScript, PlayerPaddleScript, BALL_START_X, BALL_START_Y};
use sandstone::random::Rng;
use sandstone::scripts::{
    enemy_spawn, BulletScript, EnemyScript, EnemySpawnerScript, Keys, Obj2, PlayerScript, ENEMY_START_Y,
};

const NO_KEYS: Keys = Keys { a: false, start: false, up: false, down: false, left: false, right: false };

fn names(list: &[&str]) -> Vec<String> {
    list.iter().map(|s| s.to_string()).collect()
}

#[test]
fn ball_waits_for_a_then_moves_right_and_down() {
    let mut ball = BallScript::new();
    let mut t = Transform { x: 0, y: 0 };
    let texts = ball.start(&mut t);
    assert_eq!((texts.player.as_str(), texts.opponent.as_str()), ("0", " 0"));
    assert_eq!(t, Transform { x: 128 * 4096, y: 192 * 4096 });
    assert!(ball.update(&mut t, &Vec::new(), false).is_none());
    assert!(!ball.moving);
    assert!(ball.update(&mut t, &Vec::new(), true).is_none());
    assert!(ball.moving);
    assert_eq!((ball.x_vel, ball.y_vel), (4096, 4096));
    // the press only starts the ball; it moves from the next frame on
    assert_eq!(t, Transform { x: 128 * 4096, y: 192 * 4096 });
    ball.update(&mut t, &Vec::new(), false);
    assert_eq!(t, Transform { x: 131 * 4096, y: 195 * 4096 });
}

#[test]
fn ball_above_the_top_scores_for_the_player() {
    let mut ball = BallScript { x_vel: 4096, y_vel: -4096, moving: true, player_score: 9, opponent_score: 3 };
    let mut t = Transform { x: 10 * 4096, y: -1 };
    let texts = ball.update(&mut t, &Vec::new(), false).unwrap();
    assert_eq!(ball.player_score, 10);
    assert_eq!((texts.player.as_str(), texts.opponent.as_str()), ("10", " 3"));
    assert!(!ball.moving);
    // back at the start, then the velocity still moves it this frame
    assert_eq!(t, Transform { x: BALL_START_X + 12288, y: BALL_START_Y - 12288 });
}

#[test]
fn ball_below_the_bottom_scores_for_the_opponent() {
    let mut ball = BallScript { x_vel: 4096, y_vel: 4096, moving: true, player_score: 0, opponent_score: 12 };
    let mut t = Transform { x: 0, y: 384 * 4096 + 1 };
    let texts = ball.update(&mut t, &Vec::new(), false).unwrap();
    assert_eq!((texts.player.as_str(), texts.opponent.as_str()), ("0", "13"));
}

#[test]
fn ball_bounces_off_walls_and_paddles() {
    let mut ball = BallScript { x_vel: 4096, y_vel: 4096, moving: true, player_score: 0, opponent_score: 0 };
    let mut t = Transform { x: 50 * 4096, y: 300 * 4096 };
    assert!(ball.update(&mut t, &names(&["Right Wall"]), false).is_none());
    assert_eq!(ball.x_vel, -4096);
    assert_eq!(t, Transform { x: 47 * 4096, y: 303 * 4096 });
    // a paddle on the lower screen sends the ball up
    ball.update(&mut t, &names(&["Player Paddle"]), false);
    assert_eq!(ball.y_vel, -4096);
    // two walls at once turn it round twice
    ball.update(&mut t, &names(&["Wall A", "Wall B"]), false);
    assert_eq!(ball.x_vel, -4096);
    // a paddle on the upper screen sends the ball down
    let mut t2 = Transform { x: 0, y: 100 * 4096 };
    ball.update(&mut t2, &names(&["Opponent"]), false);
    assert_eq!(ball.y_vel, 4096);
}

fn some_node() -> Node {
    Node {
        child_handle: None,
        parent_handle: None,
        sibling_handle: None,
        name: "Ball".to_string(),
        transform: Transform { x: 0, y: 0 },
        node_extension: NodeExtensionHandle::Nothing,
        script_data: None,
        enabled: true,
        global_transform: Transform { x: 0, y: 0 },
        global_enabled: true,
    }
}

#[test]
fn computer_paddle_follows_the_ball() {
    let mut pool: Pool<Node> = Pool::new();
    let ball = pool.add(some_node());
    let ai = AIPaddleScript { ball_handle: Some(ball) };
    let mut t = Transform { x: 100, y: 7 };
    ai.update(&mut t, 101);
    assert_eq!(t, Transform { x: 100 + 6144, y: 7 });
    ai.update(&mut t, 0);
    assert_eq!(t, Transform { x: 100, y: 7 });
    ai.update(&mut t, 100);
    assert_eq!(t, Transform { x: 100 - 6144, y: 7 });
}

#[test]
fn player_paddle_follows_the_arrows() {
    let mut t = Transform { x: 100, y: 7 };
    let player = PlayerPaddleScript::new();
    player.update(&mut t, Keys { left: true, ..NO_KEYS });
    assert_eq!(t, Transform { x: 100 - 12288, y: 7 });
    player.update(&mut t, Keys { left: true, right: true, ..NO_KEYS });
    assert_eq!(t, Transform { x: 100 - 12288, y: 7 });
}

#[test]
fn ship_moves_and_shoots_with_a_cooldown() {
    let mut ship = PlayerScript::new();
    let mut t = Transform { x: 0, y: 0 };
    let shot = ship.update(&mut t, Keys { a: true, right: true, ..NO_KEYS });
    assert_eq!(t, Transform { x: 12288, y: 0 });
    assert_eq!(shot, Some(Transform { x: 12288 + 12 * 4096, y: 0 }));
    assert_eq!(ship.shoot_cooldown, 15);
    // while reloading it moves at half speed and cannot shoot
    let shot = ship.update(&mut t, Keys { a: true, up: true, ..NO_KEYS });
    assert_eq!(shot, None);
    assert_eq!(t, Transform { x: 12288, y: -6144 });
    assert_eq!(ship.shoot_cooldown, 14);
    // on the frame the gun is reloaded it moves slowly but may shoot
    ship.shoot_cooldown = 1;
    let shot = ship.update(&mut t, Keys { a: true, ..NO_KEYS });
    assert!(shot.is_some());
}

#[test]
fn bullets_fly_up_and_hit_the_last_enemy_touched() {
    let bullet = BulletScript::new();
    let mut t = Transform { x: 0, y: 0 };
    let outcome = bullet.update(&mut t, &names(&["Enemy Body", "Wall", "Enemy Wing", "Star"]));
    assert_eq!(t.y, -20480);
    assert!(!outcome.gone);
    assert_eq!(outcome.hit, Some(2));
    let mut t = Transform { x: 0, y: -60 * 4096 };
    let outcome = bullet.update(&mut t, &Vec::new());
    assert!(outcome.gone);
    assert_eq!(outcome.hit, None);
}

#[test]
fn enemies_move_by_their_velocity() {
    let enemy = EnemyScript { x_velocity: 2048, y_velocity: 4096 };
    let mut t = Transform { x: 0, y: 380 * 4096 };
    assert!(!enemy.update(&mut t));
    assert_eq!(t, Transform { x: 6144, y: 383 * 4096 });
    assert!(enemy.update(&mut t));
}

#[test]
fn spawner_counts_down() {
    let mut spawner = EnemySpawnerScript::new();
    spawner.start();
    for _ in 0..19 {
        assert!(!spawner.update());
    }
    assert!(spawner.update());
    assert_eq!(spawner.enemy_spawn_countdown, 60);
}

#[test]
fn enemies_spawn_above_the_screen_at_a_slight_angle() {
    let mut rng = Rng::new();
    let mut same = Rng::new();
    for _ in 0..20 {
        let e = enemy_spawn(&mut rng);
        let f = enemy_spawn(&mut same);
        assert_eq!((e.transform, e.angle, e.x_velocity, e.y_velocity), (f.transform, f.angle, f.x_velocity, f.y_velocity));
        assert_eq!(e.transform.y, ENEMY_START_Y);
        assert_eq!(e.transform.x % 4096, 0);
        assert!(0 <= e.transform.x && e.transform.x < 256 * 4096);
        // the number drawn over 128, then over 3, rounding towards zero
        assert!((-128..128).any(|a: i32| (a * 32) / 3 == e.angle));
        // heading almost straight down
        assert!(e.y_velocity > 3800);
    }
}

#[test]
fn test_script_counts_down() {
    let mut o = Obj2::new();
    o.start();
    assert_eq!((o.cntr, o.strog.as_str()), (6, "flagg;"));
    o.update();
    assert_eq!(o.cntr, 5);
}
