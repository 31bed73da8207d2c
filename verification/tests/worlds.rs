use dreamer::envs::bodies::{bounce_each, collide_all, move_each, move_first, push_trails};
use dreamer::envs::bouncing_ball::{
    arrow_scale, background, ball_radius, ball_spots, blend_spots, cloud_layout, draw_line,
    trail_radius, Cloud,
};
use dreamer::envs::object3d_world::{
    is_ball, object_color, physics_step, shown_radius, GridPoint, ScreenDisc, Solid,
};
use dreamer::envs::object_world::{
    all_pairs, ball_color, ObjectWorld, ShadedSpot, Spot, WallBox,
};
use dreamer::envs::paddle_hitting::{
    box_faces, face_indices, index_bytes, padded_bytes_per_row, sphere_indices, sphere_lattice,
    unpack_rows, Rally,
};
use dreamer::envs::visual_navigation::{generate_obstacles, Sight};
use dreamer::envs::{bouncing_ball, object3d_world, object_world, pendulum, visual_navigation};
use dreamer::episode::{push_trail, Clock};

// ---- Pendulum ----

#[test]
fn pendulum_is_painted_back_to_front() {
    let frame = pendulum::render(32, 16, 8, 16, 18);
    let n = 32 * 32;
    let at = |x: usize, y: usize| {
        let p = y * 32 + x;
        (frame[p], frame[n + p], frame[2 * n + p])
    };
    assert_eq!(frame.len(), 3 * n);
    assert_eq!(at(16, 8), (200, 200, 200));
    assert_eq!(at(16, 12), (255, 255, 255));
    assert_eq!(at(15, 12), (255, 255, 255));
    assert_eq!(at(14, 12), (0, 0, 0));
    assert_eq!(at(16, 18), (255, 100, 100));
    assert_eq!(at(16, 14), (255, 100, 100));
    assert_eq!(at(20, 18), (255, 100, 100));
    assert_eq!(at(21, 18), (0, 0, 0));
}

// ---- Bouncing ball ----

#[test]
fn arrow_is_drawn_in_three_planes() {
    let mut pixels = vec![0i32; 3 * 64];
    draw_line(&mut pixels, 1, 1, 5, 3, 8, 64, (1, 2, 3));
    let lit: Vec<usize> = (0..64).filter(|&p| pixels[p] == 1).collect();
    assert_eq!(lit, vec![9, 10, 19, 20, 29]);
    assert_eq!(pixels[64 + 9], 2);
    assert_eq!(pixels[128 + 29], 3);
    assert_eq!(pixels.iter().filter(|&&v| v != 0).count(), 15);
}

#[test]
fn arrow_may_start_on_the_edge() {
    let mut pixels = vec![0u8; 3 * 16];
    draw_line(&mut pixels, 4, 4, 2, 2, 4, 16, (1, 1, 1));
    let lit: Vec<usize> = (0..16).filter(|&p| pixels[p] == 1).collect();
    assert_eq!(lit, vec![10, 15]);
}

#[test]
fn arrow_stops_after_a_hundred_pixels() {
    let mut pixels = vec![0u8; 3 * 200 * 200];
    draw_line(&mut pixels, 0, 0, 150, 0, 200, 40000, (1, 1, 1));
    assert_eq!(pixels[..200].iter().filter(|&&v| v == 1).count(), 100);
    assert_eq!(pixels[99], 1);
    assert_eq!(pixels[100], 0);
}

#[test]
fn ball_spots_fold_onto_the_edge() {
    assert_eq!(ball_spots(2, 2, 1, 5), vec![(7, 1), (11, 1), (12, 0), (13, 1), (17, 1)]);
    assert_eq!(ball_spots(0, 0, 1, 5), vec![(0, 1), (0, 1), (0, 0), (1, 1), (5, 1)]);
    assert_eq!(ball_spots(5, 5, 0, 5), vec![(24, 0)]);
}

#[test]
fn blending_repeats_on_repeated_spots() {
    let mut pixels = vec![0i64; 12];
    let blend = |disc: usize, v: i64, c: usize, d: usize| {
        v * 10 + (disc * 1000 + c * 100 + d) as i64
    };
    blend_spots(&mut pixels, 4, 0, &[(1, 2), (1, 3)], &blend);
    assert_eq!(pixels[1], 23);
    assert_eq!(pixels[5], 1020 + 103);
    assert_eq!(pixels[9], 2020 + 203);
    assert_eq!(pixels[0], 0);
    blend_spots(&mut pixels, 4, 7, &[(0, 4)], &blend);
    assert_eq!((pixels[0], pixels[4], pixels[8]), (7004, 7104, 7204));
}

#[test]
fn background_ends_in_ground() {
    let pixels = background(2, 4, &[(1, 2, 3), (4, 5, 6)], (7, 8, 9), 0);
    assert_eq!(pixels, vec![1, 1, 7, 7, 2, 2, 8, 8, 3, 3, 9, 9, 0, 0, 0, 0]);
}

#[test]
fn clouds_of_seed_five_step_three() {
    let cloud = |cx, cy, rw, rh| Cloud { cx, cy, rw, rh };
    assert_eq!(
        cloud_layout(5, 3, 64),
        vec![cloud(41, 19, 9, 5), cloud(25, 2, 8, 4), cloud(45, 17, 6, 2)]
    );
    for c in cloud_layout(u64::MAX, 2, 48) {
        assert!(c.cx < 48 && c.cy < 16 && (4..=13).contains(&c.rw) && (2..=5).contains(&c.rh));
    }
}

#[test]
fn radii_have_a_floor() {
    assert_eq!((trail_radius(64), trail_radius(24), trail_radius(96)), (2, 2, 4));
    assert_eq!((ball_radius(64), ball_radius(16), ball_radius(8)), (8, 4, 4));
    assert_eq!((arrow_scale(64), arrow_scale(72), arrow_scale(600)), (10, 12, 12));
}

#[test]
fn ball_is_painted_over_its_trail() {
    let sky = vec![(1, 1, 1); 16];
    let frame = bouncing_ball::render(
        16,
        3,
        &sky,
        (2, 2, 2),
        0,
        &[(2, 2), (3, 2)],
        (10, 10),
        Some((-5, 10)),
        (90, 91, 92),
        |disc, v: i64, _, _| v * 10 + 3 + disc as i64,
    );
    let at = |x: usize, y: usize| frame[y * 16 + x];
    assert_eq!(frame.len(), 3 * 256);
    assert_eq!(at(15, 0), 1);
    assert_eq!(at(0, 15), 2);
    assert_eq!(at(2, 2), (10 + 3) * 10 + 4);
    assert_eq!(at(0, 2), 13);
    assert_eq!(at(5, 2), 14);
    assert_eq!(at(10, 9), 15);
    assert_eq!(at(10, 6), 15);
    assert_eq!(at(0, 10), 90);
    assert_eq!(at(10, 10), 90);
    assert_eq!(at(11, 10), 15);
    assert_eq!(frame[256 + 16 * 10 + 4], 91);
    let still = bouncing_ball::render(16, 3, &sky, (2, 2, 2), 0, &[], (10, 10), None, (0, 0, 0), |d, _, c, q| {
        (d * 1000 + c * 100 + q) as i64
    });
    assert_eq!((still[170], still[256 + 171], still[512 + 172]), (0, 101, 204));
}

// ---- Episodes ----

#[test]
fn clock_counts_to_its_limit() {
    let mut clock = Clock::new(2);
    assert!(!clock.tick(false));
    assert!(clock.tick(false));
    clock.reset();
    assert_eq!(clock, Clock { step_count: 0, max_steps: 2 });
    assert!(clock.tick(true));
}

#[test]
fn trails_hold_the_latest() {
    let mut trail = Vec::new();
    for i in 0..10 {
        push_trail(&mut trail, i, 3);
        assert!(trail.len() <= 3);
    }
    assert_eq!(trail, vec![7, 8, 9]);
    let mut none = Vec::new();
    push_trail(&mut none, 1, 0);
    assert_eq!(none, Vec::<i32>::new());
}

// ---- Bodies ----

#[test]
fn bodies_move_and_bounce() {
    let mut bodies = vec![1, 2, 3];
    move_first(&mut bodies, |b| b + 100);
    move_each(&mut bodies, |b| b * 2);
    assert_eq!(bodies, vec![202, 4, 6]);
    bounce_each(&mut bodies, &[10, 1], |b, w| b * 10 + w);
    assert_eq!(bodies, vec![20301, 501, 701]);
    let mut none: Vec<i32> = Vec::new();
    move_first(&mut none, |b| b + 1);
    assert_eq!(none, vec![]);
}

#[test]
fn pairs_are_looked_at_in_order() {
    assert_eq!(all_pairs(4), vec![(0, 1), (0, 2), (0, 3), (1, 2), (1, 3), (2, 3)]);
    assert_eq!(all_pairs(1), vec![]);
    assert_eq!(all_pairs(0), vec![]);
}

#[test]
fn later_pairs_see_earlier_collisions() {
    let mut bodies = vec![1, 2, 3];
    let events = collide_all(&mut bodies, 7, |a, b| {
        if (a + b) % 2 == 1 {
            Some((a + 10, b + 20))
        } else {
            None
        }
    });
    assert_eq!(events, vec![(7, 0, 1), (7, 1, 2)]);
    assert_eq!(bodies, vec![11, 32, 23]);
}

#[test]
fn collisions_come_in_increasing_order() {
    let mut bodies = vec![3, 1, 4, 1, 5];
    let events = collide_all(&mut bodies, 2, |a, b| if a != b { Some((*a, *b)) } else { None });
    assert_eq!(events.len(), 9);
    assert!(events.windows(2).all(|pair| pair[0] < pair[1]));
    assert!(events.iter().all(|&(step, i, j)| step == 2 && i < j && j < 5));
}

#[test]
fn every_body_has_its_trail() {
    let mut trails = vec![vec![1, 2], vec![]];
    push_trails(&mut trails, vec![3, 4], 2);
    assert_eq!(trails, vec![vec![2, 3], vec![4]]);
}

// ---- Object world ----

#[test]
fn object_world_takes_a_step() {
    let mut world: ObjectWorld<i32, i32, i32> = ObjectWorld::new(vec![1, 5], vec![2], 2, 3);
    assert_eq!(world.num_balls(), 2);
    let done = world.physics_step(
        |b| b + 1,
        |b| b * 2,
        |b| if *b > 8 { 8 } else { *b },
        |b, w| b - w,
        |a, b| if a < b { Some((*b, *a)) } else { None },
        |b| b * 100,
    );
    assert!(!done);
    assert_eq!(world.balls, vec![6, 2]);
    assert_eq!(world.collision_events, vec![(0, 0, 1)]);
    assert_eq!(world.trails, vec![vec![600], vec![200]]);
    assert!(world.physics_step(|b| *b, |b| *b, |b| *b, |b, _| *b, |_, _| None, |b| *b));
    assert_eq!(world.trails, vec![vec![600, 6], vec![200, 2]]);
    world.clear();
    assert_eq!(world.clock.step_count, 0);
    assert_eq!(world.collision_events, vec![]);
    assert_eq!(world.trails, vec![vec![], vec![]]);
    assert_eq!(world.balls, vec![6, 2]);
}

#[test]
fn ball_colors_take_turns() {
    assert_eq!(ball_color(0), (60, 220, 220));
    assert_eq!(ball_color(1), (80, 180, 255));
    assert_eq!(ball_color(5), (255, 140, 40));
    assert_eq!(ball_color(6), (255, 80, 80));
    assert_eq!(object_color(6), (60, 220, 220));
    assert_eq!(object_color(7), (255, 80, 80));
}

#[test]
fn object_world_is_painted_back_to_front() {
    let shades: Vec<u8> = (40..50).collect();
    let picture = object_world::render(
        10,
        &shades,
        &[WallBox { x0: 0, y0: 0, x1: 3, y1: 0 }, WallBox { x0: 8, y0: 9, x1: 20, y1: 12 }],
        Spot { x: 2, y: 1, r: 1 },
        &[(Spot { x: 2, y: 1, r: 1 }, (200, 10, 10)), (Spot { x: 5, y: 5, r: 0 }, (60, 20, 90))],
        vec![ShadedSpot { spot: Spot { x: 2, y: 2, r: 1 }, shades: vec![(9, 9, 9), (8, 8, 8)] }],
    );
    assert_eq!(picture.get(0, 0), (120, 120, 120));
    assert_eq!(picture.get(9, 9), (120, 120, 120));
    assert_eq!(picture.get(4, 0), (40, 40, 40));
    assert_eq!(picture.get(2, 0), (200, 180, 60));
    assert_eq!(picture.get(5, 5), (60, 45, 90));
    assert_eq!(picture.get(2, 2), (9, 9, 9));
    assert_eq!(picture.get(2, 1), (8, 8, 8));
    assert_eq!(picture.get(7, 7), (47, 47, 47));
}

// ---- World of solids ----

#[test]
fn solids_cast_shadows_after_themselves() {
    let sky = vec![(60, 70, 90); 8];
    let dark: Vec<u8> = (0..256).map(|v| (v as f32 * 0.85) as u8).collect();
    let solids = vec![Solid {
        depth: 0,
        disc: ScreenDisc { x: 2, y: 2, r: 1 },
        shades: vec![(100, 50, 25), (80, 40, 20)],
        shadow: Some((ScreenDisc { x: 2, y: 3, r: 0 }, dark)),
    }];
    let point = |guard_x, guard_y, x, y| GridPoint { guard_x, guard_y, x, y };
    let picture = object3d_world::render(
        8,
        &sky,
        &[point(7, 7, 7, 7), point(-1, 6, 6, 6), point(0, 0, 5, 5)],
        solids,
    );
    assert_eq!(picture.get(7, 7), (60, 65, 70));
    assert_eq!(picture.get(6, 6), (60, 70, 90));
    assert_eq!(picture.get(5, 5), (60, 65, 70));
    assert_eq!(picture.get(2, 2), (100, 50, 25));
    assert_eq!(picture.get(1, 2), (80, 40, 20));
    assert_eq!(picture.get(2, 3), (68, 68, 20));
}

#[test]
fn near_solids_hide_far_ones() {
    let solid = |depth, x, shade| Solid {
        depth,
        disc: ScreenDisc { x, y: 2, r: 1 },
        shades: vec![(shade, shade, shade); 2],
        shadow: None,
    };
    let sky = vec![(0, 0, 0); 5];
    let row = |solids: Vec<Solid>| -> Vec<u8> {
        let picture = object3d_world::render(5, &sky, &[], solids);
        (0..5).map(|x| picture.get(x, 2).0).collect()
    };
    let shown = vec![30, 30, 20, 10, 0];
    assert_eq!(row(vec![solid(9, 2, 10), solid(5, 1, 20), solid(-3, 0, 30)]), shown);
    assert_eq!(row(vec![solid(-3, 0, 30), solid(5, 1, 20), solid(9, 2, 10)]), shown);
    assert_eq!(row(vec![solid(5, 1, 20), solid(9, 2, 10), solid(-3, 0, 30)]), shown);
    assert_eq!(row(vec![solid(4, 2, 10), solid(4, 1, 20)]), vec![20, 20, 20, 10, 0]);
}

#[test]
fn solids_take_a_step() {
    let mut objects = vec![1, 2];
    let mut clock = Clock::new(1);
    let done = physics_step(
        &mut objects,
        &mut clock,
        |o| o + 5,
        |o| o - 1,
        |o| *o,
        |a, b| if a > b { Some((*b, *a)) } else { None },
    );
    assert!(done);
    assert_eq!(objects, vec![1, 5]);
}

#[test]
fn solids_follow_their_rules() {
    assert!(is_ball(0, false) && is_ball(3, true) && !is_ball(3, false));
    assert_eq!((shown_radius(-4), shown_radius(2), shown_radius(9)), (2, 2, 9));
}

// ---- Navigation ----

#[test]
fn nearer_things_hide_farther_ones() {
    let sight = |agent, target, obstacle| Sight { agent, target, obstacle };
    let picture = visual_navigation::render(
        2,
        &[
            sight(true, true, true),
            sight(false, true, true),
            sight(false, false, true),
            sight(false, false, false),
        ],
    );
    assert_eq!(picture.get(0, 0), (255, 255, 255));
    assert_eq!(picture.get(1, 0), (0, 255, 0));
    assert_eq!(picture.get(0, 1), (128, 128, 128));
    assert_eq!(picture.get(1, 1), (0, 0, 0));
}

#[test]
fn obstacles_come_in_order() {
    assert_eq!(generate_obstacles(0), vec![]);
    assert_eq!(generate_obstacles(2), vec![(20, 20, 15, 5), (70, 30, 5, 20)]);
    assert_eq!(generate_obstacles(9).len(), 5);
    assert_eq!(generate_obstacles(9)[4], (10, 60, 5, 15));
}

// ---- Paddle game ----

#[test]
fn sphere_mesh_uses_its_lattice() {
    assert_eq!(sphere_lattice(1, 2), vec![(0, 0), (0, 1), (0, 2), (1, 0), (1, 1), (1, 2)]);
    assert_eq!(sphere_indices(1, 2), vec![0, 3, 1, 3, 4, 1, 1, 4, 2, 4, 5, 2]);
    let indices = sphere_indices(16, 16);
    assert_eq!(indices.len(), 6 * 256);
    let points = sphere_lattice(16, 16).len() as u32;
    assert!(indices.iter().all(|&i| i < points));
}

#[test]
fn box_and_ground_meshes() {
    assert_eq!(face_indices(1), vec![0, 1, 2, 0, 2, 3]);
    let indices = face_indices(6);
    assert_eq!(&indices[30..], &[20, 21, 22, 20, 22, 23]);
    assert!(indices.iter().all(|&i| i < 24));
    let faces = box_faces();
    assert_eq!(faces[0].0, (0, 1, 0));
    assert_eq!(faces[5].1[3], (1, 1, -1));
}

#[test]
fn index_bytes_are_those_of_the_machine() {
    let mut expected = Vec::new();
    for v in [1u32, 0x01020304] {
        expected.extend_from_slice(&v.to_ne_bytes());
    }
    assert_eq!(index_bytes(&[1, 0x01020304]), expected);
}

#[test]
fn rows_are_padded_to_256() {
    assert_eq!(padded_bytes_per_row(0), 0);
    assert_eq!(padded_bytes_per_row(1), 256);
    assert_eq!(padded_bytes_per_row(64), 256);
    assert_eq!(padded_bytes_per_row(65), 512);
}

#[test]
fn padding_and_alpha_are_dropped() {
    let raw = [1, 2, 3, 255, 4, 5, 6, 255, 0, 0, 7, 8, 9, 255, 10, 11, 12, 255, 0, 0];
    assert_eq!(unpack_rows(&raw, 2, 10), vec![1, 4, 7, 10, 2, 5, 8, 11, 3, 6, 9, 12]);
}

#[test]
fn rally_counts_hits() {
    let mut rally = Rally::new(3);
    assert!(!rally.step(true, false));
    assert!(rally.step(false, true));
    assert!(rally.step(true, false));
    assert_eq!((rally.hits, rally.clock.step_count), (2, 3));
    rally.reset();
    assert_eq!(rally, Rally::new(3));
}
