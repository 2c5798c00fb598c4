use matrix_factorization::fixed::SCALE;
use matrix_factorization::config::{Config, CountMode, MfError};
use matrix_factorization::matrix_factorization::MatrixFactorization;
use matrix_factorization::mf::MF;
use matrix_factorization::post::PostProcessMode;

fn fx(units: i64) -> i64 {
    units * SCALE
}

fn rank_one_config(post: PostProcessMode) -> Config {
    Config {
        k_latent: 2,
        alpha: SCALE / 100,     // 0.01
        max_steps: 5000,
        threshold: SCALE / 100, // 0.01
        init_value: fx(1),
        post_process: post,
        count_mode: CountMode::Observed,
    }
}

#[test]
fn batch_training_converges_on_rank_consistent_matrix() {
    // A fully observed rank-one matrix: with threshold zero the run uses its
    // whole step budget, and the error has fallen far below any ordinary
    // tolerance by then.
    let y = vec![vec![fx(1), fx(2)], vec![fx(2), fx(4)]];
    let trainer = MatrixFactorization::from_config(Config {
        k_latent: 1,
        alpha: SCALE / 20, // 0.05
        max_steps: 2000,
        threshold: 0,
        init_value: fx(1) + SCALE / 2,
        post_process: PostProcessMode::Clip,
        count_mode: CountMode::Observed,
    });
    let out = trainer.train(&y, 2, 2).unwrap();
    assert!(out.error < 10_000); // below 0.01
    assert_eq!(out.iterations, 2000);
    assert!(!out.converged);
}

#[test]
fn batch_and_stochastic_converge_comparably() {
    // Same dense matrix, same hyperparameters: both variants reach the
    // threshold, with final errors of the same magnitude.
    let y = vec![vec![fx(1), fx(2)], vec![fx(2), fx(4)]];
    let batch = MatrixFactorization::from_config(rank_one_config(PostProcessMode::Clip));
    let stochastic = MF::from_config(rank_one_config(PostProcessMode::Clip));
    let out_b = batch.train(&y, 2, 2).unwrap();
    let out_s = stochastic.train(&y, 2, 2).unwrap();
    assert!(out_b.converged);
    assert!(out_s.converged);
    assert!(out_b.error < 10_000);
    assert!(out_s.error < 10_000);
}

#[test]
fn prediction_shape_always_equals_input_shape() {
    let y = vec![vec![fx(5), 0, fx(1)], vec![fx(2), fx(3), 0]];
    let trainer = MatrixFactorization::new(2, SCALE, SCALE / 100, 50);
    let out = trainer.train(&y, 2, 3).unwrap();
    assert_eq!(out.prediction.len(), 2);
    for row in &out.prediction {
        assert_eq!(row.len(), 3);
    }
    let stochastic = MF::new(SCALE / 100, 50, 2, SCALE, 0);
    let out_s = stochastic.train(&y, 2, 3).unwrap();
    assert_eq!(out_s.prediction.len(), 2);
    for row in &out_s.prediction {
        assert_eq!(row.len(), 3);
    }
}

#[test]
fn batch_converged_at_entry_reports_zero_iterations() {
    // With a generous threshold the very first error test passes and no
    // update is ever applied.
    let y = vec![vec![fx(5)]];
    let trainer = MatrixFactorization::new(1, fx(1000), SCALE / 100, 10);
    let out = trainer.train(&y, 1, 1).unwrap();
    assert!(out.converged);
    assert_eq!(out.iterations, 0);
}

#[test]
fn training_rejects_matrix_without_observed_entries() {
    let y = vec![vec![0i64, 0], vec![0, 0]];
    let trainer = MatrixFactorization::new(1, 0, SCALE / 100, 10);
    assert!(matches!(trainer.train(&y, 2, 2), Err(MfError::EmptyDataset)));
    let stochastic = MF::new(SCALE / 100, 10, 1, 0, 0);
    assert!(matches!(stochastic.train(&y, 2, 2), Err(MfError::EmptyDataset)));
}

#[test]
fn diverging_run_reports_numeric_overflow() {
    // A learning rate of a thousand blows the factors out of the
    // representable range on the first update.
    let y = vec![vec![fx(5)]];
    let trainer = MatrixFactorization::new(1, 0, fx(1000), 10);
    assert!(matches!(trainer.train(&y, 1, 1), Err(MfError::NumericOverflow)));
}

#[test]
fn batch_prediction_is_bucketed_by_default() {
    // The classic batch constructor post-processes with the bucket ladder,
    // so every predicted cell is a whole rating between one and five.
    let y = vec![vec![fx(2), fx(4)], vec![fx(4), fx(5)]];
    let trainer = MatrixFactorization::new(2, SCALE / 100, SCALE / 100, 3000);
    let out = trainer.train(&y, 2, 2).unwrap();
    for row in &out.prediction {
        for &cell in row {
            assert!(cell % SCALE == 0);
            assert!(fx(1) <= cell && cell <= fx(5));
        }
    }
}

#[test]
fn stochastic_prediction_is_rounded_by_default() {
    // The classic stochastic constructor rounds each predicted cell to the
    // nearest whole rating.
    let y = vec![vec![fx(2), fx(4)], vec![fx(4), fx(5)]];
    let stochastic = MF::new(SCALE / 100, 2000, 2, SCALE / 100, 0);
    let out = stochastic.train(&y, 2, 2).unwrap();
    for row in &out.prediction {
        for &cell in row {
            assert!(cell % SCALE == 0);
        }
    }
}

#[test]
fn batch_gradient_step_has_the_documented_scale() {
    // One hand-computed batch step on a single cell pins down the gradient
    // convention: U <- U + (GRADIENT_SCALE * alpha / count) * D * V with the
    // scale constant fixed at one.  Starting from factors of 3.5 on a rating
    // of 5 with alpha 0.02, the reconstruction after one step is 8.955056
    // and the error 15.642467.
    let y = vec![vec![fx(5)]];
    let trainer = MatrixFactorization::from_config(Config {
        k_latent: 1,
        alpha: SCALE / 50, // 0.02
        max_steps: 1,
        threshold: 0,
        init_value: fx(3) + SCALE / 2,
        post_process: PostProcessMode::Clip,
        count_mode: CountMode::Observed,
    });
    let out = trainer.train(&y, 1, 1).unwrap();
    assert_eq!(out.error, 15_642_467);
    assert_eq!(out.iterations, 1);
    assert!(!out.converged);
    assert_eq!(out.prediction, vec![vec![fx(5)]]); // 8.955 clipped to the maximum
}

#[test]
fn stochastic_update_uses_pre_update_rows() {
    // One hand-computed epoch on a single cell: both factor rows move by
    // alpha * e times the other row as it stood before either write, so from
    // factors of 3.0 on a rating of 5 with alpha 0.02 the reconstruction
    // becomes 7.6176 and the error 6.851829.
    let y = vec![vec![fx(5)]];
    let stochastic = MF::new(SCALE / 50, 1, 1, 0, 0);
    let out = stochastic.train(&y, 1, 1).unwrap();
    assert_eq!(out.error, 6_851_829);
    assert_eq!(out.iterations, 1);
    assert!(!out.converged);
}

#[test]
fn stochastic_counts_epochs_from_one() {
    // The stochastic trainer always runs at least one full epoch before it
    // tests for convergence.
    let y = vec![vec![fx(3)]];
    let stochastic = MF::new(SCALE / 100, 10, 1, fx(1000), 0);
    let out = stochastic.train(&y, 1, 1).unwrap();
    assert!(out.converged);
    assert_eq!(out.iterations, 1);
}
