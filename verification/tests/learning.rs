use dreamer::diagnostics::{
    ball_mask, fit_weights, learning_rate, reports, sample_path, scripted_action, Rate, Reel, Shot,
    N_FRAMES,
};
use dreamer::eval_object::{
    compute_collision_metrics, compute_tracking_metrics, CollisionMetrics, Ratio,
};
use dreamer::replay::{Episode, ReplayBuffer, Window};
use dreamer::train::{
    can_decorrelate, probe_due, slot_losses, slot_terms, state_terms, step_divisor, train_window,
    walk_window, weighted_total, Command, Mode, Outcome, Plan, Recorder, Term, Trainer,
};
use dreamer::video::{
    checkpoint_path, frame_dir, frame_path, frames_to_mp4_args, make_comparison_frame,
    stored_checkpoint_path, video_length, video_path,
};

// ---- Replay ----

fn episode(first: i32, steps: i32) -> Episode<i32> {
    Episode {
        obs: (first..=first + steps).collect(),
        action: (0..steps).map(|t| 1000 + first + t).collect(),
        reward: (0..steps).map(|t| 2000 + first + t).collect(),
        done: (0..steps).map(|t| 3000 + first + t).collect(),
    }
}

#[test]
fn oldest_episode_leaves() {
    let mut buffer = ReplayBuffer::new(2);
    for i in 0..5 {
        buffer.push(episode(100 * i, 3));
        assert_eq!(buffer.len(), (i as usize + 1).min(2));
    }
    let batch = buffer.cut(
        &[Window { episode: 0, start: 0 }, Window { episode: 1, start: 1 }],
        2,
    );
    assert_eq!(batch.obs, vec![&[300, 301][..], &[401, 402][..]]);
    assert_eq!(batch.action, vec![&[1300, 1301][..], &[1401, 1402][..]]);
    assert_eq!(batch.reward, vec![&[2300, 2301][..], &[2401, 2402][..]]);
    assert_eq!(batch.done, vec![&[3300, 3301][..], &[3401, 3402][..]]);
}

#[test]
fn only_long_episodes_are_sampled() {
    let mut buffer = ReplayBuffer::new(10);
    buffer.push(episode(0, 2));
    buffer.push(episode(100, 6));
    buffer.push(episode(200, 3));
    assert_eq!(buffer.valid_episodes(3), vec![1, 2]);
    assert_eq!(buffer.valid_episodes(7), Vec::<usize>::new());
    let batch = buffer.sample(200, 5).unwrap();
    assert_eq!(batch.obs.len(), 200);
    let mut starts = Vec::new();
    for i in 0..200 {
        let first = batch.obs[i][0];
        assert!(first == 100 || first == 101);
        starts.push(first);
        let expected: Vec<i32> = (first..first + 5).collect();
        assert_eq!(batch.obs[i], &expected[..]);
        assert_eq!(batch.action[i][0], 1000 + first);
        assert_eq!(batch.reward[i][4], 2000 + first + 4);
        assert_eq!(batch.done[i][2], 3000 + first + 2);
    }
    assert!(starts.contains(&100) && starts.contains(&101));
}

#[test]
fn nothing_is_sampled_from_short_episodes() {
    let mut buffer = ReplayBuffer::new(10);
    assert!(buffer.sample(3, 1).is_none());
    buffer.push(episode(0, 2));
    assert!(buffer.sample(3, 3).is_none());
    assert!(buffer.sample(3, 2).is_some());
    assert_eq!(buffer.sample(0, 2).unwrap().obs.len(), 0);
}

// ---- Collisions and tracks ----

fn value(r: Ratio) -> f64 {
    r.num as f64 / r.den as f64
}

#[test]
fn test_collision_metrics() {
    let pred = vec![(5, 0, 1)];
    let gt = vec![(4, 0, 1)];
    let m = compute_collision_metrics(&pred, &gt, 2);
    assert!(value(m.accuracy) > 0.9);
    assert!((value(m.time_error) - 1.0).abs() < 1e-6);
}

#[test]
fn collisions_match_in_either_order() {
    let m = compute_collision_metrics(&[(5, 1, 0), (9, 0, 1), (9, 0, 2)], &[(4, 0, 1), (7, 0, 1)], 2);
    let ratio = |num, den| Ratio { num, den };
    assert_eq!(
        m,
        CollisionMetrics {
            accuracy: ratio(2, 2),
            time_error: ratio(3, 2),
            recall: ratio(2, 2),
            precision: ratio(2, 3),
        }
    );
}

#[test]
fn one_collision_may_be_predicted_twice() {
    let m = compute_collision_metrics(&[(4, 0, 1), (4, 0, 1), (5, 0, 1)], &[(4, 0, 1), (20, 0, 1)], 1);
    assert_eq!(m.accuracy, Ratio { num: 3, den: 2 });
    assert_eq!(m.recall, Ratio { num: 1, den: 2 });
    assert_eq!(m.precision, Ratio { num: 3, den: 3 });
    assert_eq!(m.time_error, Ratio { num: 1, den: 3 });
}

#[test]
fn empty_sides_have_fixed_scores() {
    let one = Ratio { num: 1, den: 1 };
    let zero = Ratio { num: 0, den: 1 };
    let none = compute_collision_metrics(&[], &[], 3);
    assert_eq!((none.accuracy, none.recall, none.precision, none.time_error), (one, one, zero, zero));
    let noise = compute_collision_metrics(&[(1, 0, 1)], &[], 3);
    assert_eq!((noise.accuracy, noise.recall), (zero, one));
    assert_eq!(value(noise.precision), 0.0);
    let missed = compute_collision_metrics(&[], &[(1, 0, 1)], 3);
    assert_eq!(value(missed.accuracy), 0.0);
    assert_eq!(value(missed.recall), 0.0);
}

#[test]
fn perfect_predictions_get_full_marks() {
    let events = vec![(1, 0, 1), (3, 1, 2), (3, 0, 2)];
    let m = compute_collision_metrics(&events, &events, 0);
    assert_eq!((value(m.accuracy), value(m.precision), value(m.time_error)), (1.0, 1.0, 0.0));
    assert_eq!(value(m.recall), 1.0);
    let close = vec![(5, 0, 1), (6, 0, 1)];
    let m = compute_collision_metrics(&close, &close, 2);
    assert_eq!((value(m.accuracy), value(m.precision), value(m.recall)), (1.0, 1.0, 1.0));
    assert_eq!(m.time_error, Ratio { num: 1, den: 2 });
}

#[test]
fn one_prediction_may_recall_several_collisions() {
    let m = compute_collision_metrics(&[(5, 0, 1)], &[(4, 0, 1), (6, 1, 0), (9, 0, 1)], 1);
    assert_eq!(m.recall, Ratio { num: 2, den: 3 });
    assert_eq!(m.accuracy, Ratio { num: 1, den: 3 });
    assert_eq!(m.precision, Ratio { num: 1, den: 1 });
}

fn tracking(pred: &[Vec<(f32, f32)>], gt: &[Vec<(f32, f32)>]) -> Vec<(f32, f32)> {
    compute_tracking_metrics(
        pred,
        gt,
        |p, g| (p.0 - g.0).powi(2) + (p.1 - g.1).powi(2),
        |p0, p1, g0, g1| {
            ((p1.0 - p0.0) - (g1.0 - g0.0)).powi(2) + ((p1.1 - p0.1) - (g1.1 - g0.1)).powi(2)
        },
        |errors, drifts| {
            let mean = |v: &Vec<f32>| if v.is_empty() { 0.0 } else { v.iter().sum::<f32>() / v.len() as f32 };
            let last = errors.last().map(|e| e.sqrt()).unwrap_or(0.0);
            (mean(errors) + mean(drifts), last)
        },
    )
}

#[test]
fn test_tracking_metrics_perfect() {
    let balls = vec![(0.5, 0.5)];
    let pred = vec![balls.clone(), balls.clone()];
    let gt = vec![balls.clone(), balls.clone()];
    let m = tracking(&pred, &gt);
    assert!(m[0].0 < 1e-6);
    assert!(m[0].1 < 1e-6);
}

#[test]
fn tracks_are_measured_ball_by_ball() {
    let errors = compute_tracking_metrics(
        &[vec![1, 10], vec![3, 20], vec![6, 30]],
        &[vec![1, 11], vec![1, 21]],
        |p, g| p - g,
        |p0, p1, g0, g1| (p1 - p0) - (g1 - g0),
        |errors, drifts| (errors.clone(), drifts.clone()),
    );
    assert_eq!(errors, vec![(vec![0, 2], vec![2]), (vec![-1, -1], vec![0])]);
    let short = compute_tracking_metrics(
        &[vec![1, 10]],
        &[vec![1, 11], vec![1, 21]],
        |p, g| p - g,
        |_, _, _, _| 0,
        |errors, drifts| (errors.len(), drifts.len()),
    );
    assert_eq!(short, vec![(0, 0), (0, 0)]);
    let ragged = compute_tracking_metrics(
        &[vec![1, 10], vec![3, 20], vec![]],
        &[vec![1, 11], vec![1, 21]],
        |p, g| p - g,
        |p0, p1, g0, g1| (p1 - p0) - (g1 - g0),
        |errors, drifts| (errors.clone(), drifts.clone()),
    );
    assert_eq!(ragged, errors);
}

// ---- Training ----

fn plan(mode: Mode, max_episodes: usize) -> Plan {
    Plan {
        mode,
        num_envs: 2,
        max_episodes,
        batch_size: 0,
        batch_length: 8,
        imag_horizon: 20,
        imag_batch: 16,
        save_interval: 4,
        video_interval: 6,
        overfit: false,
        probe_interval: 5,
    }
}

fn drive(plan: Plan, done_after: usize, max_steps: usize) -> Vec<Command> {
    let mut trainer = Trainer::new(plan);
    let mut log = Vec::new();
    let mut taken = 0;
    let mut replay = 0;
    loop {
        let command = trainer.command();
        log.push(command);
        match command {
            Command::Reset { .. } => {
                taken = 0;
                trainer.started(max_steps);
            }
            Command::Act { .. } => {
                taken += 1;
                trainer.stepped(taken == done_after);
            }
            Command::Store { .. } => {
                replay += 1;
                trainer.stored(replay);
            }
            Command::Stop => return log,
            _ => trainer.finished(),
        }
    }
}

#[test]
fn first_round_of_one_state_training() {
    let log = drive(plan(Mode::Monolithic, 3), 2, 5);
    assert_eq!(
        log,
        vec![
            Command::Reset { env: 0 },
            Command::Act { env: 0 },
            Command::Act { env: 0 },
            Command::Store { episode: 0, steps: 2, announce: true },
            Command::Reset { env: 1 },
            Command::Act { env: 1 },
            Command::Act { env: 1 },
            Command::Store { episode: 1, steps: 2, announce: false },
            Command::Film { episode: 1 },
            Command::Report { round: 0, episode: 1, warmup: true },
            Command::Stop,
        ]
    );
}

#[test]
fn world_model_learns_once_memory_is_filled() {
    let log = drive(plan(Mode::Monolithic, 6), 9, 3);
    let updates: Vec<&Command> =
        log.iter().filter(|c| matches!(c, Command::UpdateModel { .. })).collect();
    assert_eq!(updates.len(), 20);
    assert_eq!(
        *updates[0],
        Command::UpdateModel { batch: 1, length: 3, fresh: true, probe: false }
    );
    let saves: Vec<&Command> = log.iter().filter(|c| matches!(c, Command::Save { .. })).collect();
    assert_eq!(saves, vec![&Command::Save { episode: 3 }, &Command::Save { episode: 5 }]);
    let films: Vec<&Command> = log.iter().filter(|c| matches!(c, Command::Film { .. })).collect();
    assert_eq!(films, vec![&Command::Film { episode: 1 }, &Command::Film { episode: 5 }]);
    assert_eq!(log.iter().filter(|c| matches!(c, Command::Act { .. })).count(), 18);
    assert_eq!(
        log[log.len() - 2],
        Command::Report { round: 2, episode: 5, warmup: true }
    );
}

fn batches(log: &[Command]) -> Vec<(bool, bool)> {
    log.iter()
        .filter_map(|c| match c {
            Command::UpdateModel { fresh, probe, .. } => Some((*fresh, *probe)),
            _ => None,
        })
        .collect()
}

#[test]
fn one_batch_serves_all_updates_if_asked() {
    for mode in [Mode::Monolithic, Mode::ObjectCentric] {
        let mut fixed = plan(mode, 10);
        assert!(batches(&drive(fixed, 9, 3)).iter().all(|b| b.0));
        fixed.overfit = true;
        let drawn = batches(&drive(fixed, 9, 3));
        assert!(drawn.len() > 10);
        assert!(drawn[0].0);
        assert!(drawn[1..].iter().all(|b| !b.0));
    }
}

#[test]
fn probe_learns_at_every_fifth_update() {
    let mut probed = plan(Mode::ObjectCentric, 10);
    let drawn = batches(&drive(probed, 9, 3));
    for (i, (_, probe)) in drawn.iter().enumerate() {
        assert_eq!(*probe, (i + 1) % 5 == 0);
    }
    probed.probe_interval = 0;
    assert!(batches(&drive(probed, 9, 3)).iter().all(|b| !b.1));
    assert!(probe_due(10, 5) && !probe_due(11, 5) && probe_due(1, 1) && !probe_due(1, 0));
}

#[test]
fn environments_take_turns() {
    let log = drive(plan(Mode::ObjectCentric, 7), 2, 5);
    let resets: Vec<usize> = log
        .iter()
        .filter_map(|c| match c {
            Command::Reset { env } => Some(*env),
            _ => None,
        })
        .collect();
    assert_eq!(resets, vec![0, 1, 0, 1, 0, 1]);
    for (i, command) in log.iter().enumerate() {
        if let Command::Reset { env } = command {
            assert_eq!(log[i + 1], Command::Act { env: *env });
            assert_eq!(log[i + 2], Command::Act { env: *env });
            assert!(matches!(log[i + 3], Command::Store { steps: 2, .. }));
        }
    }
}

#[test]
fn empty_runs_need_no_interval() {
    let mut empty = plan(Mode::Monolithic, 1);
    empty.save_interval = 0;
    assert_eq!(drive(empty, 1, 1), vec![Command::Stop]);
}

#[test]
fn policy_learns_after_warmup() {
    for mode in [Mode::Monolithic, Mode::ObjectCentric] {
        let log = drive(plan(mode, 106), 1, 1);
        let policy: Vec<usize> = log
            .iter()
            .enumerate()
            .filter(|(_, c)| matches!(c, Command::UpdatePolicy { .. }))
            .map(|(i, _)| i)
            .collect();
        assert_eq!(policy.len(), 3);
        assert_eq!(log[policy[0]], Command::UpdatePolicy { batch: 16, horizon: 15 });
        let before = &log[..policy[0]];
        let stored = before.iter().filter(|c| matches!(c, Command::Store { .. })).count();
        assert_eq!(stored, 102);
        let stored: usize = log.iter().filter(|c| matches!(c, Command::Store { .. })).count();
        assert_eq!(stored, 106);
    }
}

#[test]
fn updates_with_slots_depend_on_environments() {
    let log = drive(plan(Mode::ObjectCentric, 104), 1, 1);
    let mut rounds = Vec::new();
    let mut count = 0;
    for c in &log {
        match c {
            Command::UpdateModel { .. } => count += 1,
            Command::Report { .. } => {
                rounds.push(count);
                count = 0;
            }
            _ => {}
        }
    }
    assert_eq!(&rounds[..3], &[0, 0, 6]);
    assert_eq!(rounds[49], 6);
    assert_eq!(rounds[50], 4);
    assert_eq!(rounds.len(), 52);
}

#[test]
fn slots_save_on_their_own_beat() {
    let mut odd = plan(Mode::ObjectCentric, 151);
    odd.num_envs = 1;
    let log = drive(odd, 1, 1);
    let saves: Vec<&Command> = log.iter().filter(|c| matches!(c, Command::Save { .. })).collect();
    assert_eq!(saves, vec![&Command::Save { episode: 100 }, &Command::Save { episode: 150 }]);
    let report = log.iter().position(|c| matches!(c, Command::Report { episode: 100, .. })).unwrap();
    assert_eq!(log[report + 1], Command::Save { episode: 100 });
}

#[test]
fn slots_film_by_the_number_of_the_last_episode() {
    let mut odd = plan(Mode::ObjectCentric, 14);
    odd.num_envs = 1;
    let log = drive(odd, 1, 1);
    let films: Vec<&Command> = log.iter().filter(|c| matches!(c, Command::Film { .. })).collect();
    assert_eq!(
        films,
        vec![
            &Command::Film { episode: 0 },
            &Command::Film { episode: 6 },
            &Command::Film { episode: 12 },
            &Command::Film { episode: 13 },
        ]
    );
    odd.video_interval = 0;
    assert!(!drive(odd, 1, 1).iter().any(|c| matches!(c, Command::Film { .. })));
}

#[test]
fn empty_runs_stop_at_once() {
    assert_eq!(drive(plan(Mode::Monolithic, 1), 1, 1), vec![Command::Stop]);
}

#[test]
fn environments_without_steps_store_at_once() {
    let log = drive(plan(Mode::Monolithic, 2), 1, 0);
    assert_eq!(log[1], Command::Store { episode: 0, steps: 0, announce: true });
}

#[test]
fn recorder_keeps_the_last_observation() {
    let mut recorder = Recorder::begin(0, 2);
    let mut given: Vec<Vec<i32>> = Vec::new();
    for t in 0..2 {
        let over = recorder.act(
            &[5, t],
            |values: &[i32]| values[0] * 2 + values[1],
            |values: &[i32]| {
                given.push(values.to_vec());
                Outcome { next: t + 1, reward: 20 + t, done: 30 + t, over: t == 1 }
            },
        );
        assert_eq!(over, t == 1);
    }
    assert_eq!(given, vec![vec![5, 0], vec![5, 1]]);
    let episode = recorder.finish();
    assert_eq!(episode.obs, vec![0, 1, 2]);
    assert_eq!(episode.action, vec![10, 11]);
    assert_eq!(episode.reward, vec![20, 21]);
    assert_eq!(episode.done, vec![30, 31]);
}

#[test]
fn windows_are_walked_from_the_second_step() {
    let walk = |actions: &[i32], rewards: &[i32]| {
        walk_window(7, &[100, 101, 102], actions, rewards, |s: &i32, now, before, a, r| {
            (s * 10 + now - 100, (*s, *now, *before, *a, *r))
        })
    };
    let (last, losses) = walk(&[10, 11, 12], &[20, 21, 22]);
    assert_eq!(last, 712);
    assert_eq!(losses, vec![(7, 101, 100, 10, 20), (71, 102, 101, 11, 21)]);
    assert_eq!(walk(&[10, 11, 99], &[20, 21, 99]), (last, losses.clone()));
    assert_eq!(walk(&[10, 11], &[20, 21]), (last, losses));
    let none: &[i32] = &[];
    for obs in [none, &[5]] {
        let (still, costs) = walk_window(7, obs, none, none, |_, _, _, _, _| (0, 0));
        assert_eq!((still, costs), (7, vec![]));
    }
    assert!(can_decorrelate(4) && !can_decorrelate(3));
    assert_eq!((step_divisor(1), step_divisor(2), step_divisor(8)), (1, 1, 7));
}

#[test]
fn updates_start_from_the_first_observation() {
    let update = |actions: &[i32], rewards: &[i32]| {
        train_window(
            &[100, 101, 102],
            actions,
            rewards,
            &0,
            |obs, blank| obs * 10 + blank,
            |s: &i32, now, _before, a, r| (s + now, (*a, *r)),
            |last, costs, n| (*last, costs.clone(), n),
        )
    };
    let total = update(&[10, 11, 12], &[20, 21, 22]);
    assert_eq!(total, (1000 + 101 + 102, vec![(10, 20), (11, 21)], 2));
    assert_eq!(update(&[10, 11, -1], &[20, 21, -1]), total);
    let keep = |s: &i32, _: &i32, _: &i32, _: &i32, _: &i32| (*s, 0);
    let short = train_window(&[7], &[], &[], &3, |o, b| o + b, keep, |s, l, n| {
        (*s, l.len(), n)
    });
    assert_eq!(short, (10, 0, 1));
}

#[test]
fn totals_add_weighted_terms_in_order() {
    let weigh = |term: Term| match term {
        Term::Reconstruction => "obs".to_string(),
        Term::Reward => "0.5*reward".to_string(),
        Term::Divergence => "0.8*kl".to_string(),
        Term::Prediction => "pred".to_string(),
        Term::Redundancy => "0.1*bt".to_string(),
        Term::Ensemble => "ens".to_string(),
    };
    let plus = |a: String, b: String| format!("({a}+{b})");
    assert_eq!(weighted_total(&state_terms(), weigh, plus), "((obs+0.5*reward)+0.8*kl)");
    let terms = slot_terms(slot_losses(false, false, true, true, 8));
    assert_eq!(weighted_total(&terms, weigh, plus), "(((0.5*reward+0.8*kl)+obs)+ens)");
    let terms = slot_terms(slot_losses(true, false, true, false, 8));
    assert_eq!(weighted_total(&terms, weigh, plus), "(((0.5*reward+0.8*kl)+pred)+0.1*bt)");
    let terms = slot_terms(slot_losses(true, true, true, false, 8));
    assert_eq!(terms.last(), Some(&Term::Reconstruction));
}

#[test]
fn slot_losses_follow_the_objective() {
    let plain = slot_losses(false, false, true, true, 8);
    assert!(plain.reconstruct && plain.through_states && plain.weigh_motion && plain.ensemble);
    assert!(!plain.predict && !plain.decorrelate);
    let latent = slot_losses(true, false, true, false, 8);
    assert!(!latent.reconstruct && !latent.through_states && !latent.weigh_motion);
    assert!(latent.predict && latent.decorrelate && !latent.ensemble);
    assert!(slot_losses(true, true, true, false, 8).reconstruct);
    assert!(!slot_losses(true, true, true, false, 1).decorrelate);
}

// ---- Videos ----

#[test]
fn comparison_shows_both_sides() {
    let seen: Vec<u8> = (0..12).collect();
    let imagined: Vec<u8> = (100..112).collect();
    let picture = make_comparison_frame(&seen, &imagined, 2, 2);
    assert_eq!((picture.width(), picture.height()), (4, 2));
    assert_eq!(picture.get(1, 1), (3, 7, 11));
    assert_eq!(picture.get(2, 0), (100, 104, 108));
    assert_eq!(picture.get(3, 1), (103, 107, 111));
}

#[test]
fn files_have_fixed_names() {
    assert_eq!(frame_dir(false, 7), "frames/ep_0007");
    assert_eq!(frame_dir(true, 12345), "frames/oc_ep_12345");
    assert_eq!(video_path(false, 49), "output/comparison_ep_0049.mp4");
    assert_eq!(video_path(true, 0), "output/oc_comparison_ep_0000.mp4");
    assert_eq!(frame_path("frames/ep_0007", 99), "frames/ep_0007/frame_0099.png");
    assert_eq!(checkpoint_path("checkpoints", "actor", 149), "checkpoints/actor_ep_149");
    assert_eq!(stored_checkpoint_path("c", "critic", "ep_9"), "c/critic_ep_9");
    assert_eq!(sample_path("slot_ae_test", 16), "output/slot_ae_test_16.png");
}

#[test]
fn encoder_arguments() {
    assert_eq!(
        frames_to_mp4_args("frames/ep_0000", "output/a.mp4", 20),
        vec![
            "-y", "-framerate", "20", "-i", "frames/ep_0000/frame_%04d.png", "-c:v", "libx264",
            "-pix_fmt", "yuv420p", "output/a.mp4",
        ]
    );
}

#[test]
fn videos_are_cut_at_a_hundred_frames() {
    assert_eq!((video_length(0), video_length(99), video_length(201)), (0, 99, 100));
}

// ---- Fit tests ----

#[test]
fn ball_mask_covers_every_channel() {
    let mask = ball_mask(&[(0, 0), (63, 63)], 64, 3);
    assert_eq!(mask.len(), 2 * 3 * 4096);
    for c in 0..3 {
        assert!(mask[c * 4096]);
        assert!(mask[c * 4096 + 10]);
        assert!(!mask[c * 4096 + 11]);
        assert!(mask[c * 4096 + 6 * 64 + 8]);
        assert!(!mask[c * 4096 + 7 * 64 + 8]);
        assert!(mask[3 * 4096 + c * 4096 + 4095]);
        assert!(!mask[3 * 4096 + c * 4096]);
    }
    assert_eq!(ball_mask(&[(1, 1)], 0, 3), Vec::<bool>::new());
}

#[test]
fn weights_favour_the_ball() {
    assert_eq!(fit_weights(&[true, false], true), vec![50, 1]);
    assert_eq!(fit_weights(&[true, false], false), vec![1, 1]);
}

#[test]
fn fit_tests_follow_their_script() {
    let actions: Vec<i32> = (1..7).map(scripted_action).collect();
    assert_eq!(actions, vec![-1, 0, 1, 2, -2, -1]);
    assert_eq!(learning_rate(1499), Rate::Coarse);
    assert_eq!(learning_rate(1500), Rate::Fine);
    assert_eq!(learning_rate(2499), Rate::Fine);
    assert_eq!(learning_rate(2500), Rate::Finest);
    assert!(reports(0) && reports(300) && !reports(150));
}

#[test]
fn reel_starts_over_after_an_episode() {
    let mut reel = Reel::new();
    let mut shots = Vec::new();
    loop {
        let shot = reel.shot();
        if shot == Shot::Done {
            break;
        }
        shots.push(shot);
        reel.kept(shots.len() == 4);
    }
    assert_eq!(shots.len(), N_FRAMES);
    assert_eq!(shots[0], Shot::Reset);
    assert_eq!(shots[1], Shot::Step { halves: -1 });
    assert_eq!(shots[4], Shot::Reset);
    assert_eq!(shots[5], Shot::Step { halves: -2 });
    assert_eq!(shots[31], Shot::Step { halves: -1 });
}
