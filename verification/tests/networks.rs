use dreamer::agent::actor_critic::{
    imagination_losses, lambda_returns_list, Actor, Critic, Rollout,
};
use dreamer::agent::discrete_actor::DiscreteActor;
use dreamer::agent::oc_world_model::{
    broadcast_decoder, gaussian_decoder, hybrid_decoder, spatial_decoder, DecoderType,
    OCWorldModel, DECODER_LATENT, DECODER_PROJ,
};
use dreamer::agent::world_model::{decoded_part, WorldModel};
use dreamer::config::Config;
use dreamer::networks::attention::AttentionEncoder;
use dreamer::networks::broadcast_decoder::BroadcastDecoder;
use dreamer::networks::decoder::Decoder;
use dreamer::networks::encoder::Encoder;
use dreamer::networks::gaussian_decoder::GaussianDecoder;
use dreamer::networks::hybrid_decoder::HybridDecoder;
use dreamer::networks::layers::{coord_grid, GridCoord, LinearPlan};
use dreamer::networks::mlp::{Mlp, MlpConfig};
use dreamer::networks::rssm::{
    img_step, obs_step, prior_posterior_step, Latent, RSSMState, RSSM,
};
use dreamer::networks::slot_attention::{SlotAttention, SlotAttentionConfig};
use dreamer::networks::slot_rssm;
use dreamer::networks::slot_rssm::{
    broadcast_action, img_step_all, obs_step_all, place_entries, SlotBatch, SlotRSSM,
};
use dreamer::networks::spatial_broadcast_decoder::SpatialBroadcastDecoder;
use std::rc::Rc;

fn linear(input: usize, output: usize) -> LinearPlan {
    LinearPlan { input, output }
}

fn centred(c: GridCoord) -> f32 {
    if c.last > 0 {
        2.0 * c.at as f32 / c.last as f32 - 1.0
    } else {
        0.0
    }
}

#[test]
fn test_coord_grid() {
    let decoder = SpatialBroadcastDecoder::init(
        64,  // latent_dim
        256, // hidden_dim
        3,   // image_channels
        4,   // image_size (small for testing)
    );

    let coords = decoder.coord_grid();
    let dims = [1, 2, 4, coords.len() / 4];

    assert_eq!(dims, [1, 2, 4, 4]);

    let mut values: Vec<f32> = coords.iter().map(|c| centred(c.0)).collect();
    values.extend(coords.iter().map(|c| centred(c.1)));
    assert_eq!(values.len(), 2 * 4 * 4);

    for &v in &values {
        assert!(v >= -1.0 && v <= 1.0, "Coordinate {} out of range [-1, 1]", v);
    }
}

#[test]
fn test_forward_shape() {
    let batch_size = 4;
    let num_slots = 3;
    let latent_dim = 64;
    let image_size = 64;
    let image_channels = 3;

    let decoder = SpatialBroadcastDecoder::init(latent_dim, 256, image_channels, image_size);

    let n = batch_size * num_slots;
    let dims = decoder.forward(n);

    assert_eq!(dims, (n, image_channels + 1, image_size, image_size));
}

#[test]
fn test_ball_reconstruction() {
    let latent_dim = 64;
    let image_size = 64;
    let image_channels = 3;

    let decoder = SpatialBroadcastDecoder::init(latent_dim, 256, image_channels, image_size);
    let output = decoder.forward(1);

    let rgb = (output.0, image_channels, output.2, output.3);
    let mask = (output.0, output.1 - image_channels, output.2, output.3);

    assert_eq!(rgb, (1, image_channels, image_size, image_size));
    assert_eq!(mask, (1, 1, image_size, image_size));
}

#[test]
fn grids_run_row_after_row() {
    let place = |at, last| GridCoord { at, last };
    assert_eq!(
        coord_grid(2, 3),
        vec![
            (place(0, 2), place(0, 1)),
            (place(1, 2), place(0, 1)),
            (place(2, 2), place(0, 1)),
            (place(0, 2), place(1, 1)),
            (place(1, 2), place(1, 1)),
            (place(2, 2), place(1, 1)),
        ]
    );
    assert_eq!(coord_grid(0, 3), vec![]);
}

#[test]
fn encoder_sizes() {
    let encoder = Encoder::init(128, 3, 64);
    assert_eq!(encoder.flat_dim, 4096);
    assert_eq!(encoder.proj, linear(4096, 128));
    assert_eq!(encoder.forward_features((5, 3, 64, 64)), (5, 256, 4, 4));
    assert_eq!(encoder.forward_features_8x8((5, 3, 64, 64)), (5, 128, 8, 8));
    assert_eq!(encoder.forward_features_16x16((5, 3, 64, 64)), (5, 64, 16, 16));
    assert_eq!(encoder.forward((5, 3, 64, 64)), (5, 128));
}

#[test]
fn decoder_sizes() {
    let decoder = Decoder::init(80, 3, 64);
    assert_eq!(decoder.proj, linear(80, 4096));
    assert_eq!(decoder.forward(2), (2, 3, 64, 64));
    assert_eq!(decoder.split_channels(3), (3, 0));
    let masked = Decoder::init_with_out(80, 3, 64, 4);
    assert_eq!(masked.forward(2), (2, 4, 64, 64));
    assert_eq!(masked.split_channels(4), (3, 1));
}

#[test]
fn slot_decoder_sizes() {
    let broadcast = BroadcastDecoder::init(66, 3, 64);
    assert_eq!((broadcast.base_size, broadcast.conv1.input), (8, 68));
    assert_eq!(broadcast.forward(6), (6, 4, 64, 64));
    let gaussian = GaussianDecoder::init(66, 3, 64);
    assert_eq!(gaussian.blob_mlp.output, 12 * 9);
    assert_eq!(gaussian.forward(6), (6, 4, 64, 64));
    let hybrid = HybridDecoder::init(66, 3, 64);
    assert_eq!(hybrid.forward(6), (6, 4, 64, 64));
    assert_eq!(
        (hybrid.out_channels(), broadcast.out_channels(), gaussian.out_channels()),
        (4, 4, 4)
    );
}

#[test]
fn slot_attention_sizes() {
    let config = SlotAttentionConfig::default();
    assert_eq!(
        (config.num_slots, config.slot_dim, config.num_iterations, config.feature_dim),
        (4, 64, 3, 64)
    );
    let attention = SlotAttention::init(&config);
    assert_eq!(attention.slot_init, linear(1, 256));
    assert_eq!(attention.pos_proj, linear(4, 64));
    assert_eq!(attention.forward((2, 64, 16, 16)), (2, 4, 64));
    assert_eq!(attention.centroid_range(), (62, 2));
    assert_eq!(attention.refinement_layers(), vec![linear(64, 64); 2]);
    let deep = SlotAttention::init_with_layers(&config, 3);
    assert_eq!(deep.refinement_layers(), vec![linear(64, 64); 4]);
    assert_eq!((attention.num_slots(), attention.slot_dim()), (4, 64));
    assert_eq!(attention.position_grid(16, 16).len(), 256);
}

#[test]
fn dynamics_sizes() {
    let rssm = RSSM::init(64, 16, 1, 128);
    assert_eq!(rssm.gru, linear(17, 64));
    assert_eq!(rssm.post_h, linear(192, 128));
    assert_eq!(rssm.prior, linear(128, 32));
    assert_eq!(rssm.transition_input(1), 17);
    assert_eq!(RSSM::init_with_ctx(64, 16, 1, 128, 32).transition_input(1), 49);
    assert_eq!(rssm.init_state(3), RSSMState { batch: 3, deter: 64, stoch: 16 });
}

#[test]
fn actions_go_to_every_slot_of_their_element() {
    assert_eq!(broadcast_action(2, 3), vec![0, 0, 0, 1, 1, 1]);
    let rssm = SlotRSSM::init(64, 16, 1, 64, 3, 0, 3);
    let states = rssm.init_state(2);
    assert_eq!(states.get_slot(1), vec![1, 4]);
    assert_eq!(states.joined(), RSSMState { batch: 2, deter: 192, stoch: 48 });
    let elements = broadcast_action(2, 3);
    for slot in 0..3 {
        let rows = states.get_slot(slot);
        assert_eq!((elements[rows[0]], elements[rows[1]]), (0, 1));
    }
}

#[test]
fn slots_interact_only_with_context() {
    let alone = SlotRSSM::init(64, 16, 1, 64, 3, 0, 1);
    assert_eq!(alone.inter_q, linear(1, 1));
    assert_eq!(alone.interaction_context(&alone.init_state(2)), (6, 0));
    assert!(!alone.interacts());
    assert!(!alone.can_disagree());
    let together = SlotRSSM::init(64, 16, 1, 64, 3, 32, 2);
    assert_eq!(together.inter_q, linear(80, 32));
    assert_eq!(together.interaction_context(&together.init_state(2)), (6, 32));
    assert!(together.interacts());
    assert!(together.can_disagree());
    assert_eq!(together.stoch_size(), 16);
}

#[test]
fn stack_layers_fit() {
    let config = MlpConfig { input_dim: 4, hidden_dim: 8, output_dim: 2, num_layers: 2 };
    assert_eq!(config.init(), vec![linear(4, 8), linear(8, 8), linear(8, 2)]);
    let flat = MlpConfig { input_dim: 4, hidden_dim: 8, output_dim: 2, num_layers: 0 };
    assert_eq!(flat.init(), vec![linear(4, 2)]);
    assert!(config.is_activated(0) && config.is_activated(1) && !config.is_activated(2));
}

#[test]
fn last_layer_is_not_activated() {
    let mlp = Mlp { layers: vec![1, -10, -20] };
    let out = mlp.forward(5, |l, x| x + l, |x: i32| if x > 0 { x } else { 0 });
    assert_eq!(out, -20);
}

#[test]
fn attention_sizes() {
    let encoder = AttentionEncoder::init(64, 2, 128);
    assert_eq!(encoder.qkv, linear(64, 192));
    assert_eq!(encoder.head_dim(), 32);
    assert_eq!(encoder.chunk_starts(), (0, 64, 128));
    assert_eq!(encoder.forward(7), (7, 128));
}

#[test]
fn agents_sizes() {
    let actor = Actor::init(64, 16, 2);
    assert_eq!((actor.hidden, actor.mean, actor.log_std), (linear(80, 256), linear(256, 2), linear(256, 2)));
    let critic = Critic::init(64, 16);
    assert_eq!((critic.hidden, critic.value), (linear(80, 256), linear(256, 1)));
    let chooser = DiscreteActor::init(64, 16, 3);
    assert_eq!(chooser.logits, linear(256, 3));
    assert_eq!(chooser.chosen(&[-1, 1, 9]), vec![0, 1, 2]);
}

#[test]
fn world_model_sizes() {
    let model = WorldModel::init(64, 16, 1, 128, 3, 64);
    assert_eq!(model.reward, linear(80, 1));
    assert_eq!(model.decoder.proj, linear(80, 4096));
    assert_eq!(model.encode(2), (2, 3, 64, 64));
    assert_eq!(model.encoder.forward(model.encode(2)), (2, model.rssm.norm_obs));
}

#[test]
fn slot_world_model_follows_settings() {
    let mut config = Config::default();
    let model = OCWorldModel::init(&config, 1);
    assert_eq!(model.decoder, DecoderType::Hybrid(HybridDecoder::init(66, 3, 64)));
    assert_eq!(model.slot_attn.mlp.num_layers, 1);
    assert_eq!(model.slot_attn.config.num_slots, 3);
    assert_eq!((model.slot_rssm.ctx_dim, model.slot_rssm.ensemble_size), (0, 3));
    assert_eq!(model.reward_hidden, linear(240, 128));
    assert_eq!(model.slot_proj, linear(80, 64));
    assert_eq!(DECODER_LATENT, DECODER_PROJ + 2);
    config.use_slot_interaction = true;
    config.use_ensemble_exploration = false;
    config.decoder_type = "sbd".to_string();
    let model = OCWorldModel::init(&config, 1);
    let spatial = SpatialBroadcastDecoder::init(66, 256, 3, 64);
    assert_eq!(spatial.hidden_dim, 256);
    assert_eq!(spatial_decoder(&config), spatial);
    assert_eq!(model.decoder, DecoderType::SpatialBroadcast(spatial));
    assert_eq!((model.slot_rssm.ctx_dim, model.slot_rssm.ensemble_size), (32, 0));
    config.decoder_type = "gaussian".to_string();
    config.slot_mlp_layers = 2;
    let model = OCWorldModel::init(&config, 1);
    assert_eq!(model.decoder, DecoderType::Gaussian(gaussian_decoder(&config)));
    assert_eq!(model.slot_attn.refinement_layers().len(), 3);
    config.decoder_type = "broadcast".to_string();
    let model = OCWorldModel::init(&config, 1);
    assert_eq!(model.decoder, DecoderType::Broadcast(broadcast_decoder(&config)));
    assert_eq!(hybrid_decoder(&config).fg, gaussian_decoder(&config));
}

#[test]
fn images_are_decoded_from_sample_or_mean() {
    assert_eq!(decoded_part(false, "sample", "mean"), "sample");
    assert_eq!(decoded_part(true, "sample", "mean"), "mean");
}

#[test]
fn returns_are_built_from_the_end() {
    let totals = lambda_returns_list(&[1, 2, 3], &[10, 20, 30, 40], |r, v, next| {
        r * 1000 + v * 10 + next
    });
    let third = 3000 + 400 + 40;
    let second = 2000 + 300 + third;
    let first = 1000 + 200 + second;
    assert_eq!(totals, vec![first, second, third]);
    let none: Vec<i32> = lambda_returns_list(&[], &[5], |_, _, _| 0);
    assert_eq!(none, vec![]);
}

#[test]
fn rollouts_have_one_more_state() {
    let mut rollout = Rollout::begin("a");
    rollout.advance(1, 10, "b");
    rollout.advance(2, 20, "c");
    assert_eq!(rollout.states(), &["a", "b", "c"]);
    assert_eq!(rollout.actions(), &[1, 2]);
    assert_eq!(rollout.rewards(), &[10, 20]);
}

#[test]
fn imagined_steps_follow_each_other() {
    let rollout = Rollout::imagine(1, 3, |s: &i32| (s * 10, s * 100, s + 1));
    assert_eq!(rollout.states(), &[1, 2, 3, 4]);
    assert_eq!(rollout.actions(), &[10, 20, 30]);
    assert_eq!(rollout.rewards(), &[100, 200, 300]);
    let none: Rollout<i32, i32, i32> = Rollout::imagine(1, 0, |_| (0, 0, 0));
    assert_eq!(none.states(), &[1]);
}

#[test]
fn slots_are_refined_as_often_as_asked() {
    let mut config = SlotAttentionConfig::default();
    let attention = SlotAttention::init(&config);
    assert_eq!(attention.refine(1, |s: &i32| (s * 2, s + 100)), (8, Some(104)));
    config.num_iterations = 0;
    let (slots, last): (i32, Option<i32>) = SlotAttention::init(&config).refine(1, |s| (*s, 0));
    assert_eq!((slots, last), (1, None));
}

#[test]
fn blobs_are_painted_in_order() {
    let decoder = GaussianDecoder::init(8, 3, 16);
    let order = decoder.composite_over(Vec::new(), |mut seen: Vec<usize>, i| {
        seen.push(i);
        seen
    });
    assert_eq!(order, (0..12).collect::<Vec<usize>>());
}

#[test]
fn prior_and_posterior_share_the_transition() {
    let deter = |s: &i32, a: i32| s * 10 + a;
    let next = img_step(&1, 2, deter, |h| h + 1000);
    assert_eq!((*next.deter, next.stoch), (12, 1012));
    let next = obs_step(&1, &5, 2, deter, |h, o| h * 100 + o);
    assert_eq!((*next.deter, next.stoch), (12, 1205));
    let (prior, post) =
        prior_posterior_step(&1, &5, 2, deter, |h| h + 1000, |h, o| h * 100 + o);
    assert_eq!((prior.stoch, post.stoch), (1012, 1205));
    assert_eq!((*prior.deter, *post.deter), (12, 12));
    assert!(Rc::ptr_eq(&prior.deter, &post.deter));
}

#[test]
fn places_are_the_last_entries_of_slots() {
    assert_eq!(place_entries(2, 2, 3), vec![1, 2, 4, 5, 7, 8, 10, 11]);
    assert_eq!(place_entries(0, 3, 2), Vec::<usize>::new());
}

#[test]
fn slots_share_the_transition() {
    let states = SlotBatch {
        latent: Latent { deter: Rc::new(1), stoch: "start" },
        pos: vec![0.5],
        batch: 1,
        num_slots: 2,
    };
    let slots = vec![9.0, 0.1, 0.2, 9.0, 0.3, 0.4];
    let deter = |s: &SlotBatch<i32, &'static str, Vec<f32>>, a: i32| *s.latent.deter * 10 + a;
    let prior = |_: &i32| "prior";
    let moved = |h: &i32, pos: &Vec<f32>| vec![*h as f32 + pos[0]];
    let post = |_: &i32, _: &Vec<f32>| "posterior";
    let pick = |all: &Vec<f32>, at: &Vec<usize>| at.iter().map(|&i| all[i]).collect::<Vec<f32>>();
    let places = vec![0.1, 0.2, 0.3, 0.4];
    let imagined = img_step_all(&states, 2, deter, prior, moved);
    assert_eq!((imagined.latent.stoch, &imagined.pos), ("prior", &vec![12.5]));
    let observed = obs_step_all(&states, &slots, 3, 2, deter, post, pick);
    assert_eq!((observed.latent.stoch, &observed.pos), ("posterior", &places));
    let (p, q) =
        slot_rssm::prior_posterior_step(&states, &slots, 3, 2, deter, prior, moved, post, pick);
    assert_eq!((p.latent.stoch, &p.pos), ("prior", &vec![12.5]));
    assert_eq!((q.latent.stoch, &q.pos), ("posterior", &places));
    for next in [&imagined, &observed, &p, &q] {
        assert_eq!((*next.latent.deter, next.batch, next.num_slots), (12, 1, 2));
    }
}

#[test]
fn losses_see_what_belongs_to_their_step() {
    let rollout = Rollout::imagine(1, 2, |s: &i32| (s * 10, s * 100, s + 1));
    let losses = imagination_losses(
        &rollout,
        |s| s + 1000,
        |v| -v,
        |r, v, next| r * 100000 + v + next,
        |s, a, v, total| (*s, *a, *v, *total),
    );
    let second = 200 * 100000 - 1003 - 1003;
    let first = 100 * 100000 - 1002 + second;
    assert_eq!(losses, vec![(1, 10, 1001, first), (2, 20, 1002, second)]);
}
