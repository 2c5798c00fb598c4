use matrix_factorization::fixed::{SCALE, HALF_SCALE};
use matrix_factorization::post::{post_value, post_process, round_all, normalize, PostProcessMode};

fn fx(units: i64) -> i64 {
    units * SCALE
}

#[test]
fn round_goes_to_nearest_whole_rating() {
    assert_eq!(post_value(2 * SCALE + 400_000, PostProcessMode::Round), fx(2));
    assert_eq!(post_value(2 * SCALE + 600_000, PostProcessMode::Round), fx(3));
    assert_eq!(post_value(-2 * SCALE - 600_000, PostProcessMode::Round), fx(-3));
}

#[test]
fn round_takes_halves_away_from_zero() {
    assert_eq!(post_value(2 * SCALE + HALF_SCALE, PostProcessMode::Round), fx(3));
    assert_eq!(post_value(-(2 * SCALE + HALF_SCALE), PostProcessMode::Round), fx(-3));
}

#[test]
fn bucket_ladder_exact_boundaries() {
    assert_eq!(post_value(4 * SCALE + HALF_SCALE + 1, PostProcessMode::Bucket), fx(5));
    assert_eq!(post_value(4 * SCALE + HALF_SCALE, PostProcessMode::Bucket), fx(4));
    assert_eq!(post_value(3 * SCALE, PostProcessMode::Bucket), fx(3));
    assert_eq!(post_value(2 * SCALE, PostProcessMode::Bucket), fx(2));
    assert_eq!(post_value(fx(1), PostProcessMode::Bucket), fx(1));
    assert_eq!(post_value(fx(-7), PostProcessMode::Bucket), fx(1));
}

#[test]
fn clip_caps_only_above_the_maximum_rating() {
    assert_eq!(post_value(7 * SCALE + 200_000, PostProcessMode::Clip), fx(5));
    assert_eq!(post_value(3 * SCALE + 123, PostProcessMode::Clip), 3 * SCALE + 123);
    assert_eq!(post_value(fx(-1), PostProcessMode::Clip), fx(-1));
}

#[test]
fn post_processor_is_idempotent() {
    let y = vec![
        vec![4 * SCALE + 700_000, -2 * SCALE - HALF_SCALE, 123_456],
        vec![7 * SCALE, fx(1), 2 * SCALE + HALF_SCALE],
    ];
    for mode in [PostProcessMode::Round, PostProcessMode::Bucket, PostProcessMode::Clip] {
        let once = post_process(&y, 2, 3, mode);
        let twice = post_process(&once, 2, 3, mode);
        assert_eq!(once, twice);
    }
}

#[test]
fn round_all_rounds_every_cell() {
    let y = vec![vec![fx(2) + 700_000, fx(4) - 100_000]];
    assert_eq!(round_all(&y, 1, 2), vec![vec![fx(3), fx(4)]]);
}

#[test]
fn normalize_buckets_every_cell() {
    let y = vec![vec![fx(4) + 600_000, fx(0)]];
    assert_eq!(normalize(&y, 1, 2), vec![vec![fx(5), fx(1)]]);
}
