use dreamer::envs::maze::{Maze, MazeEnv};
use rand::SeedableRng;

const GOAL: (u8, u8, u8) = (0, 255, 0);

fn pixel(frame: &[u8], side: usize, x: usize, y: usize) -> (u8, u8, u8) {
    let n = side * side;
    let p = y * side + x;
    (frame[p], frame[n + p], frame[2 * n + p])
}

#[test]
fn maze_reports_its_shape() {
    let env = MazeEnv::new(11, 9, 100, 64, 7);
    assert_eq!(env.obs_shape(), [3, 64, 64]);
    assert_eq!(env.action_dim(), 1);
    assert_eq!(env.max_steps(), 100);
    assert_eq!(env.step_count(), 0);
}

#[test]
fn frame_has_three_planes_and_a_red_diamond() {
    let env = MazeEnv::new(11, 11, 100, 70, 3);
    let frame = env.render();
    assert_eq!(frame.len(), 3 * 70 * 70);
    assert_eq!(pixel(&frame, 70, 35, 35), (255, 0, 0));
    assert_eq!(pixel(&frame, 70, 35, 32), (255, 0, 0));
    assert_ne!(pixel(&frame, 70, 33, 33), (255, 0, 0));
    assert_ne!(pixel(&frame, 70, 35, 39), (255, 0, 0));
}

#[test]
fn diamond_lies_in_the_centre_cell() {
    for seed in 0..5 {
        let frame = MazeEnv::new(11, 11, 100, 64, seed).render();
        let red: Vec<(usize, usize)> = (0..64)
            .flat_map(|y| (0..64).map(move |x| (x, y)))
            .filter(|&(x, y)| pixel(&frame, 64, x, y) == (255, 0, 0))
            .collect();
        assert_eq!(red.len(), 25);
        assert!(red.contains(&(31, 31)));
        assert!(red.iter().all(|&(x, y)| x / 9 == 3 && y / 9 == 3));
    }
}

#[test]
fn agent_stands_on_floor() {
    for seed in 0..20 {
        let env = MazeEnv::new(9, 9, 100, 70, seed);
        let frame = env.render();
        assert_eq!(pixel(&frame, 70, 65, 65), (50, 50, 50));
    }
}

#[test]
fn left_and_right_turns_cancel() {
    let mut env = MazeEnv::new(11, 11, 100, 63, 5);
    let start = env.render();
    let left = env.step(0).frame;
    assert_ne!(left, start);
    assert_eq!(env.step(1).frame, start);
    env.step(1);
    assert_eq!(env.step(0).frame, start);
    for _ in 0..4 {
        env.step(0);
    }
    assert_eq!(env.render(), start);
    assert_eq!(env.step_count(), 8);
}

#[test]
fn unknown_actions_only_pass_time() {
    let mut env = MazeEnv::new(11, 11, 100, 63, 5);
    let start = env.render();
    for act in [3, -1, i32::MAX, i32::MIN] {
        assert_eq!(env.step(act).frame, start);
    }
    assert_eq!(env.step_count(), 4);
}

#[test]
fn steps_run_out() {
    let mut env = MazeEnv::new(11, 11, 3, 21, 5);
    assert!(!env.step(0).done);
    assert!(!env.step(0).done);
    let last = env.step(0);
    assert!(last.done);
    assert!(!last.reached);
    env.reset();
    assert_eq!(env.step_count(), 0);
    assert!(!env.step(0).done);
}

#[test]
fn walls_stop_the_agent() {
    for seed in 0..10 {
        let mut env = MazeEnv::new(7, 7, 1000, 70, seed);
        for _ in 0..40 {
            let before = env.render();
            let ahead = pixel(&before, 70, 65, 55);
            let step = env.step(2);
            if ahead == (100, 100, 100) {
                assert_eq!(step.frame, before);
            } else {
                assert!(ahead == (50, 50, 50) || ahead == GOAL);
                assert_eq!(step.reached, ahead == GOAL);
            }
            env.step(1);
        }
    }
}

#[test]
fn right_hand_rule_finds_the_goal() {
    for seed in 0..10 {
        let mut env = MazeEnv::new(9, 9, usize::MAX, 70, seed);
        let mut found = false;
        for _ in 0..400 {
            env.step(1);
            for _ in 0..4 {
                let before = env.render();
                if pixel(&before, 70, 65, 55) == (100, 100, 100) {
                    env.step(0);
                } else {
                    break;
                }
            }
            if env.step(2).reached {
                found = true;
                break;
            }
        }
        assert!(found, "seed {}", seed);
    }
}

#[test]
fn tiny_pictures_hold_the_diamond_only() {
    let env = MazeEnv::new(11, 11, 10, 3, 1);
    let frame = env.render();
    assert_eq!(pixel(&frame, 3, 0, 0), (255, 0, 0));
    assert_eq!(frame.iter().filter(|&&v| v != 0).count(), 1);
    assert_eq!(MazeEnv::new(11, 11, 10, 0, 1).render(), Vec::<u8>::new());
}

#[test]
fn passages_join_all_rooms_without_loops() {
    for (w, h, rooms) in [(11, 9, 20), (3, 3, 1), (8, 6, 6)] {
        let mut rng = rand::rngs::StdRng::seed_from_u64(4);
        let maze = Maze::gen_maze(w, h, &mut rng);
        let mut floor = 0;
        for y in 0..h {
            for x in 0..w {
                let border = x == 0 || y == 0 || x == w - 1 || y == h - 1;
                let room = x % 2 == 1 && y % 2 == 1 && !border;
                let pillar = x % 2 == 0 && y % 2 == 0;
                let open = maze.is_floor(x, y);
                assert!(!open || !(border || pillar));
                assert!(open || !room);
                floor += open as usize;
            }
        }
        assert_eq!(floor, 2 * rooms - 1);
        assert!(maze.unvisited(1, 1).is_empty());
    }
}
