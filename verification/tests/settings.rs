use dreamer::config::{
    apply_env_overrides, select_decoder, select_env, select_fit_test, weighted_flag, Config,
    DecoderKind, EnvKind, FitTest,
};
use dreamer::text::{
    has_suffix, number_text, padded_number_text, parse_signed, parse_unsigned, same_text,
    spells_real,
};

fn vars(list: &[(&str, &str)]) -> Vec<(String, String)> {
    list.iter().map(|(k, v)| (k.to_string(), v.to_string())).collect()
}

#[test]
fn defaults() {
    let config = Config::default();
    assert_eq!(config.max_episodes, 500);
    assert_eq!(config.stoch_size, 16);
    assert_eq!(config.discount.parse::<f32>().unwrap(), 0.99);
    assert_eq!(config.model_lr.parse::<f64>().unwrap(), 3e-4);
    assert_eq!(config.bt_beta.parse::<f32>().unwrap(), 5e-3);
    assert_eq!(config.env_type, "bouncing_ball");
    assert_eq!(config.decoder_type, "hybrid");
    assert!(config.load_checkpoint.is_none());
    assert!(config.use_slot_attention && config.use_motion_loss && !config.use_slot_interaction);
}

#[test]
fn variables_change_settings() {
    let mut config = Config::default();
    apply_env_overrides(
        &mut config,
        &vars(&[
            ("DREAMER_EPISODES", "200"),
            ("DREAMER_SEED", "+18446744073709551615"),
            ("DREAMER_SLOTS", "2"),
            ("DREAMER_VIDEO_INTERVAL", "999"),
            ("DREAMER_ENV", "paddle_hitting"),
            ("DREAMER_MONOLITHIC", "1"),
            ("DREAMER_MOTION", "0"),
            ("DREAMER_OVERFIT", "-1"),
            ("DREAMER_MOTION_WMAX", "1e2"),
            ("DREAMER_KL_SCALE", "0"),
            ("DREAMER_FREE_NATS", ".25"),
            ("DREAMER_STOCH", "8"),
            ("DREAMER_DECODE_MEAN", "1"),
            ("DREAMER_LR", "1E-3"),
            ("DREAMER_INTERACTION", "1"),
            ("DREAMER_LATENT", "1"),
            ("DREAMER_ENSEMBLE", "0"),
            ("DREAMER_DECODER", "gaussian"),
        ]),
    );
    assert_eq!(config.max_episodes, 200);
    assert_eq!(config.seed, u64::MAX);
    assert_eq!(config.num_slots, 2);
    assert_eq!(config.video_interval, 999);
    assert_eq!(config.env_type, "paddle_hitting");
    assert!(!config.use_slot_attention);
    assert!(!config.use_motion_loss);
    assert!(config.overfit_batch);
    assert_eq!(config.motion_wmax, "1e2");
    assert_eq!(config.kl_scale, "0");
    assert_eq!(config.free_nats, ".25");
    assert_eq!(config.stoch_size, 8);
    assert!(config.decode_from_mean);
    assert_eq!(config.model_lr, "1E-3");
    assert!(config.use_slot_interaction);
    assert!(config.use_latent_objective);
    assert!(!config.use_ensemble_exploration);
    assert_eq!(config.decoder_type, "gaussian");
    assert_eq!(config.num_envs, 4);
}

#[test]
fn senseless_variables_change_nothing() {
    let mut config = Config::default();
    apply_env_overrides(
        &mut config,
        &vars(&[
            ("DREAMER_EPISODES", "-3"),
            ("DREAMER_SEED", "18446744073709551616"),
            ("DREAMER_SLOTS", ""),
            ("DREAMER_MONOLITHIC", "yes"),
            ("DREAMER_MOTION", "2147483648"),
            ("DREAMER_KL_SCALE", "1e"),
            ("DREAMER_SPATIAL_BROADCAST", "0"),
            ("OTHER", "7"),
        ]),
    );
    let usual = Config::default();
    assert_eq!(config.max_episodes, usual.max_episodes);
    assert_eq!(config.seed, usual.seed);
    assert_eq!(config.num_slots, usual.num_slots);
    assert!(config.use_slot_attention && config.use_motion_loss);
    assert_eq!(config.kl_scale, usual.kl_scale);
    assert_eq!(config.decoder_type, "hybrid");
}

#[test]
fn spatial_broadcast_wins_over_decoder() {
    let mut config = Config::default();
    apply_env_overrides(
        &mut config,
        &vars(&[("DREAMER_SPATIAL_BROADCAST", "1"), ("DREAMER_DECODER", "gaussian")]),
    );
    assert_eq!(config.decoder_type, "sbd");
    assert_eq!(select_decoder(&config.decoder_type), DecoderKind::SpatialBroadcast);
}

#[test]
fn first_of_two_variables_counts() {
    let mut config = Config::default();
    apply_env_overrides(&mut config, &vars(&[("DREAMER_SLOTS", "5"), ("DREAMER_SLOTS", "6")]));
    assert_eq!(config.num_slots, 5);
}

#[test]
fn names_select() {
    assert_eq!(select_env("bouncing_ball"), Some(EnvKind::BouncingBall));
    assert_eq!(select_env("paddle_hitting"), Some(EnvKind::PaddleHitting));
    assert_eq!(select_env("maze"), None);
    assert_eq!(select_decoder("gaussian"), DecoderKind::Gaussian);
    assert_eq!(select_decoder("hybrid"), DecoderKind::Hybrid);
    assert_eq!(select_decoder("anything"), DecoderKind::Broadcast);
    assert!(DecoderKind::Broadcast.is_raw() && DecoderKind::SpatialBroadcast.is_raw());
    assert!(!DecoderKind::Gaussian.is_raw() && !DecoderKind::Hybrid.is_raw());
    assert_eq!(select_fit_test("gaussian_weighted"), FitTest::Gaussian);
    assert_eq!(select_fit_test("hybrid"), FitTest::Hybrid);
    assert_eq!(select_fit_test("slot_ae_weighted"), FitTest::SlotAutoencoder);
    assert_eq!(select_fit_test("deconv"), FitTest::Deconv);
    assert_eq!(select_fit_test("1"), FitTest::Broadcast);
    assert!(weighted_flag("weighted") && weighted_flag("hybrid_weighted"));
    assert!(!weighted_flag("weighted_hybrid") && !weighted_flag("1"));
}

#[test]
fn integers_parse_like_the_standard_library() {
    let texts = [
        "0", "7", "+7", "-7", "007", "", "+", "-", "+-1", "--1", " 1", "1 ", "1_0", "2147483647",
        "2147483648", "-2147483648", "-2147483649", "18446744073709551615",
        "18446744073709551616", "99999999999999999999999", "+0", "-0", "1.0", "\u{0661}",
    ];
    for text in texts {
        assert_eq!(parse_unsigned(text, u64::MAX), text.parse::<u64>().ok(), "{:?}", text);
        assert_eq!(
            parse_unsigned(text, 255),
            text.parse::<u8>().ok().map(|v| v as u64),
            "{:?}",
            text
        );
        assert_eq!(parse_signed(text), text.parse::<i32>().ok(), "{:?}", text);
    }
}

#[test]
fn reals_are_spelled_like_the_standard_library_reads_them() {
    let texts = [
        "1", "1.", ".1", ".", "", "+", "-.5", "+5.", "1e3", "1E3", "1e+3", "1e-3", "1e", "1e+",
        "e3", ".e3", "1.e3", "1.2.3", "1e3.0", "inf", "-INF", "Infinity", "infinit", "infinityx",
        "nan", "+NaN", "nano", "0x1", "1_0", " 1", "1f", "--1", "1ee3", "i", "in",
    ];
    for text in texts {
        assert_eq!(spells_real(text), text.parse::<f32>().is_ok(), "{:?}", text);
        assert_eq!(spells_real(text), text.parse::<f64>().is_ok(), "{:?}", text);
    }
}

#[test]
fn numbers_are_written_and_read_back() {
    for n in [0, 7, 10, 99, 1000, 12345, u64::MAX] {
        assert_eq!(number_text(n), format!("{}", n));
        assert_eq!(padded_number_text(n, 4), format!("{:04}", n));
        assert_eq!(parse_unsigned(&number_text(n), u64::MAX), Some(n));
    }
}

#[test]
fn texts_are_compared_whole() {
    assert!(same_text("abc", "abc") && same_text("", ""));
    assert!(!same_text("abc", "abd") && !same_text("abc", "ab"));
    assert!(has_suffix("abc", "bc") && has_suffix("abc", "") && has_suffix("abc", "abc"));
    assert!(!has_suffix("abc", "ab") && !has_suffix("c", "bc"));
}
