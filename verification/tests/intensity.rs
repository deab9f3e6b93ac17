use haptic_sync::funscript::{
    actions_are_binary, calculate_thrust_intensity_by_scaled_speed, calculate_window_intensity,
    condense_identical_positions, generate_intensity_funscript, interpolate_position, Action,
    FunscriptData, IntensityError,
};

fn act(at: u64, pos: u64) -> Action {
    Action { at, pos }
}

#[test]
fn derive_is_deterministic() {
    let input = vec![act(0, 0), act(250, 100_000), act(500, 0), act(900, 100_000)];
    let mut a = input.clone();
    let mut b = input.clone();
    let out_a = calculate_thrust_intensity_by_scaled_speed(&mut a, 50, 200);
    let out_b = calculate_thrust_intensity_by_scaled_speed(&mut b, 50, 200);
    assert_eq!(out_a, out_b);
    assert_eq!(a, b);
}

#[test]
fn derive_with_fewer_than_two_actions_is_empty() {
    let mut none: Vec<Action> = Vec::new();
    assert_eq!(
        calculate_thrust_intensity_by_scaled_speed(&mut none, 50, 200),
        Vec::new()
    );
    let mut one = vec![act(100, 50_000)];
    assert_eq!(
        calculate_thrust_intensity_by_scaled_speed(&mut one, 50, 200),
        Vec::new()
    );
    // The input is left untouched in that case.
    assert_eq!(one, vec![act(100, 50_000)]);
}

#[test]
fn derive_ramp_scenario() {
    // A half traversal of the full range over 500 ms, sampled every 50 ms
    // with a 200 ms window radius: the output starts low and rises by
    // exactly the rate cap (40 units/s = 2000 milli-units per 50 ms
    // sample) toward the plateau implied by the motion speed.
    let mut actions = vec![act(0, 0), act(500, 100_000)];
    let out = calculate_thrust_intensity_by_scaled_speed(&mut actions, 50, 200);
    assert_eq!(out.len(), 11);
    for (i, sample) in out.iter().enumerate() {
        assert_eq!(sample.at, 50 * i as u64);
        assert_eq!(sample.pos, 2000 * (i as u64 + 1));
    }
}

#[test]
fn derive_respects_rate_limit() {
    let mut actions = vec![
        act(0, 0),
        act(100, 100_000),
        act(200, 0),
        act(300, 100_000),
        act(400, 0),
        act(1000, 100_000),
    ];
    let out = calculate_thrust_intensity_by_scaled_speed(&mut actions, 50, 200);
    for w in out.windows(2) {
        assert!(w[1].pos <= w[0].pos + 40 * 50);
    }
}

#[test]
fn derive_starts_at_time_zero_with_one_entry_per_sample_time() {
    // Motion starts at 300 ms, yet sampling starts at time zero: the
    // first entry is the time-zero sample (value zero here, rate-limited
    // up from zero), and every sample time occurs exactly once.
    let mut actions = vec![act(300, 0), act(800, 100_000)];
    let out = calculate_thrust_intensity_by_scaled_speed(&mut actions, 100, 200);
    assert_eq!(out[0], act(0, 0));
    for (i, sample) in out.iter().enumerate() {
        assert_eq!(sample.at, 100 * i as u64);
    }
    for w in out.windows(2) {
        assert!(w[0].at < w[1].at);
    }
}

#[test]
fn derive_with_zero_sample_rate_yields_one_sample() {
    let mut actions = vec![act(0, 0), act(400, 100_000)];
    let out = calculate_thrust_intensity_by_scaled_speed(&mut actions, 0, 200);
    assert_eq!(out.len(), 1);
    assert_eq!(out[0].at, 0);
    // A track starting after time zero yields one sample just the same.
    let mut late = vec![act(300, 0), act(700, 100_000)];
    let out = calculate_thrust_intensity_by_scaled_speed(&mut late, 0, 200);
    assert_eq!(out.len(), 1);
    assert_eq!(out[0].at, 0);
}

#[test]
fn derive_sorts_its_input() {
    let mut actions = vec![act(500, 100_000), act(0, 0)];
    calculate_thrust_intensity_by_scaled_speed(&mut actions, 50, 200);
    assert_eq!(actions, vec![act(0, 0), act(500, 100_000)]);
}

#[test]
fn interpolate_boundary_law() {
    let a0 = act(100, 20_000);
    let a1 = act(300, 80_000);
    // At or before the earlier waypoint.
    assert_eq!(interpolate_position(Some(&a0), Some(&a1), 50), 20_000);
    assert_eq!(interpolate_position(Some(&a0), Some(&a1), 100), 20_000);
    // At or after the later waypoint.
    assert_eq!(interpolate_position(Some(&a0), Some(&a1), 300), 80_000);
    assert_eq!(interpolate_position(Some(&a0), Some(&a1), 999), 80_000);
    // Strictly between: linear.
    assert_eq!(interpolate_position(Some(&a0), Some(&a1), 200), 50_000);
}

#[test]
fn interpolate_degenerate_cases() {
    let a = act(100, 30_000);
    let b = act(100, 70_000);
    // Same timestamp: the earlier action's position, no division by zero.
    assert_eq!(interpolate_position(Some(&a), Some(&b), 100), 30_000);
    assert_eq!(interpolate_position(None, None, 5), 0);
    assert_eq!(interpolate_position(None, Some(&b), 5), 70_000);
    assert_eq!(interpolate_position(Some(&a), None, 5), 30_000);
}

#[test]
fn condense_merges_runs_and_keeps_endpoint_positions() {
    // The middle run of identical positions within the 200 ms gap merges
    // to its mean timestamp; the unmergeable endpoints stay unchanged.
    let mut actions = vec![
        act(0, 0),
        act(300, 50_000),
        act(400, 50_000),
        act(500, 50_000),
        act(900, 100_000),
    ];
    condense_identical_positions(&mut actions, 200);
    assert_eq!(
        actions,
        vec![act(0, 0), act(400, 50_000), act(900, 100_000)]
    );
}

#[test]
fn condense_alters_no_endpoint_position() {
    // Even when the first run merges (its timestamp moves to the mean),
    // the first and last positions are preserved.
    let mut actions = vec![act(0, 0), act(100, 0), act(1000, 100_000)];
    condense_identical_positions(&mut actions, 200);
    assert_eq!(actions, vec![act(50, 0), act(1000, 100_000)]);
}

#[test]
fn condense_leaves_distinct_positions_alone() {
    let mut actions = vec![act(0, 0), act(100, 100_000), act(200, 0)];
    let expected = actions.clone();
    condense_identical_positions(&mut actions, 200);
    assert_eq!(actions, expected);
}

#[test]
fn condense_ignores_wide_gaps() {
    let mut actions = vec![act(0, 50_000), act(500, 50_000)];
    let expected = actions.clone();
    condense_identical_positions(&mut actions, 200);
    assert_eq!(actions, expected);
}

#[test]
fn window_intensity_full_swing() {
    // One full-range swing (0 to 100) across a 200 ms window:
    // 100_000 milli-units of motion * 125 / 200 ms = 62_500.
    let actions = vec![act(0, 0), act(200, 100_000)];
    assert_eq!(calculate_window_intensity(&actions, 0, 200, 200), 62_500);
}

#[test]
fn window_intensity_counts_both_directions() {
    let actions = vec![act(0, 0), act(100, 100_000), act(200, 0)];
    // 200_000 milli-units of |delta| over 200 ms, scaled by 125.
    assert_eq!(calculate_window_intensity(&actions, 0, 200, 200), 125_000);
}

#[test]
fn generate_intensity_requires_two_actions() {
    let data = FunscriptData {
        actions: vec![act(0, 0)],
    };
    let r = generate_intensity_funscript(&data);
    match r {
        Err(e) => {
            assert_eq!(e, IntensityError::TooFewActions);
            assert_eq!(
                e.message(),
                "Cannot generate intensity: requires at least 2 actions."
            );
        }
        Ok(_) => panic!("expected an error for a single waypoint"),
    }
}

#[test]
fn generate_intensity_succeeds_on_two_actions() {
    let data = FunscriptData {
        actions: vec![act(0, 0), act(500, 100_000)],
    };
    let r = generate_intensity_funscript(&data).expect("two waypoints suffice");
    assert!(!r.actions.is_empty());
    assert_eq!(r.actions[0].at, 0);
}

#[test]
fn binary_position_check() {
    assert!(actions_are_binary(&vec![act(0, 0), act(100, 100_000)]));
    assert!(!actions_are_binary(&vec![act(0, 0), act(100, 50_000)]));
    assert!(actions_are_binary(&Vec::new()));
}
