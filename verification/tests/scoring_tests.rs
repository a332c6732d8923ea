//! Tests for the four scoring strategies.
//!
//! Scores are fixed-point ten-thousandths (a raw score of `10000` stands
//! for `1.0`); weights and conviction multipliers are fixed-point
//! hundredths (`100` stands for `1.0`).

use rust_matcher::EuclideanDistanceScorer;
use rust_matcher::PolarizationScorer;
use rust_matcher::ScoringStrategy;
use rust_matcher::SimpleDifferenceScorer;
use rust_matcher::User;
use rust_matcher::WeightedScorer;

// ============================================================================
// Simple difference
// ============================================================================

#[test]
fn test_simple_difference_identical_users() {
    let user1 = User::new("user1".to_string(), vec![1, 2, 3, 4, 5]).unwrap();
    let user2 = User::new("user2".to_string(), vec![1, 2, 3, 4, 5]).unwrap();

    let scorer = SimpleDifferenceScorer;
    let score = scorer.calculate_score(&user1, &user2);

    assert_eq!(score, 0, "Identical users should have 0 opposition");
}

#[test]
fn test_simple_difference_maximum_opposition() {
    // User1 answers all 1s (strongly disagree with everything)
    let user1 = User::new("user1".to_string(), vec![1, 1, 1, 1, 1]).unwrap();
    // User2 answers all 7s (strongly agree with everything)
    let user2 = User::new("user2".to_string(), vec![7, 7, 7, 7, 7]).unwrap();

    let scorer = SimpleDifferenceScorer;
    let score = scorer.calculate_score(&user1, &user2);

    // Each question: |1-7| = 6, five questions = 30
    assert_eq!(score as f64 / 10000.0, 30.0, "Maximum opposition should be 6 * num_questions");
    assert_eq!(score, 300000);
}

#[test]
fn test_simple_difference_mixed() {
    let user1 = User::new("user1".to_string(), vec![1, 7, 3, 5]).unwrap();
    let user2 = User::new("user2".to_string(), vec![7, 1, 5, 4]).unwrap();

    let scorer = SimpleDifferenceScorer;
    let score = scorer.calculate_score(&user1, &user2);

    // |1-7| + |7-1| + |3-5| + |5-4| = 6 + 6 + 2 + 1 = 15
    assert_eq!(score as f64 / 10000.0, 15.0);
}

#[test]
fn test_simple_difference_is_symmetric() {
    let user1 = User::new("user1".to_string(), vec![2, 4, 6]).unwrap();
    let user2 = User::new("user2".to_string(), vec![5, 1, 7]).unwrap();

    let scorer = SimpleDifferenceScorer;
    let score1 = scorer.calculate_score(&user1, &user2);
    let score2 = scorer.calculate_score(&user2, &user1);

    assert_eq!(score1, score2, "Score should be symmetric (order doesn't matter)");
}

#[test]
fn test_simple_difference_name() {
    assert_eq!(SimpleDifferenceScorer.name(), "Simple Difference");
}

// ============================================================================
// Euclidean distance
// ============================================================================

#[test]
fn test_euclidean_identical_users() {
    let user1 = User::new("user1".to_string(), vec![3, 5, 2]).unwrap();
    let user2 = User::new("user2".to_string(), vec![3, 5, 2]).unwrap();

    let scorer = EuclideanDistanceScorer;
    let score = scorer.calculate_score(&user1, &user2);

    assert_eq!(score, 0, "Identical users should have 0 distance");
}

#[test]
fn test_euclidean_maximum_opposition() {
    let user1 = User::new("user1".to_string(), vec![1, 1, 1]).unwrap();
    let user2 = User::new("user2".to_string(), vec![7, 7, 7]).unwrap();

    let scorer = EuclideanDistanceScorer;
    let score = scorer.calculate_score(&user1, &user2);

    // sqrt((6)^2 + (6)^2 + (6)^2) = sqrt(108) ≈ 10.39
    let value = score as f64 / 10000.0;
    assert!((value - 10.392).abs() < 0.01, "Expected ~10.39, got {}", value);
    // the distance is reported in ten-thousandths, rounded down
    assert_eq!(score, 103923);
}

#[test]
fn test_euclidean_vs_simple_difference() {
    // Case 1: One large difference
    let user1 = User::new("user1".to_string(), vec![1, 4, 4]).unwrap();
    let user2 = User::new("user2".to_string(), vec![4, 4, 4]).unwrap();

    let euclidean = EuclideanDistanceScorer;
    let simple = SimpleDifferenceScorer;

    let euclidean_score = euclidean.calculate_score(&user1, &user2);
    let simple_score = simple.calculate_score(&user1, &user2);

    // sqrt(9) = 3, simple = 3 (same in this case)
    assert_eq!(euclidean_score as f64 / 10000.0, 3.0);
    assert_eq!(simple_score as f64 / 10000.0, 3.0);

    // Case 2: Multiple large differences (Euclidean emphasizes more)
    let user3 = User::new("user3".to_string(), vec![1, 7, 1]).unwrap();
    let user4 = User::new("user4".to_string(), vec![4, 4, 4]).unwrap();

    let euclidean_score2 = euclidean.calculate_score(&user3, &user4);
    let simple_score2 = simple.calculate_score(&user3, &user4);

    // Euclidean: sqrt(9 + 9 + 9) = sqrt(27) ≈ 5.196
    // Simple: 3 + 3 + 3 = 9
    assert!((euclidean_score2 as f64 / 10000.0 - 5.196).abs() < 0.01);
    assert_eq!(simple_score2 as f64 / 10000.0, 9.0);

    // Euclidean score is lower because it de-emphasizes multiple moderate differences
    assert!(euclidean_score2 < simple_score2);
}

#[test]
fn test_euclidean_is_symmetric() {
    let user1 = User::new("user1".to_string(), vec![2, 5, 1, 7]).unwrap();
    let user2 = User::new("user2".to_string(), vec![6, 3, 4, 2]).unwrap();

    let scorer = EuclideanDistanceScorer;
    let score1 = scorer.calculate_score(&user1, &user2);
    let score2 = scorer.calculate_score(&user2, &user1);

    assert_eq!(score1, score2, "Euclidean distance should be symmetric");
}

#[test]
fn test_euclidean_name() {
    assert_eq!(EuclideanDistanceScorer.name(), "Euclidean Distance");
}

// ============================================================================
// Weighted
// ============================================================================

#[test]
fn test_weighted_creation_valid() {
    // weights 1.0, 2.0, 1.5, 0.5 in hundredths
    let weights: Vec<i64> = vec![100, 200, 150, 50];
    let scorer = WeightedScorer::new(weights.clone());

    assert!(scorer.is_ok());
    let scorer = scorer.unwrap();
    assert_eq!(scorer.num_questions(), 4);
    assert_eq!(scorer.weights(), &[100i64, 200, 150, 50]);
}

#[test]
fn test_weighted_creation_invalid_empty() {
    let weights: Vec<i64> = vec![];
    let scorer = WeightedScorer::new(weights);

    assert!(scorer.is_err());
    assert_eq!(scorer.unwrap_err(), "Weights vector cannot be empty");
}

#[test]
fn test_weighted_creation_invalid_negative() {
    // weights 1.0, -2.0, 1.5 in hundredths
    let weights: Vec<i64> = vec![100, -200, 150];
    let scorer = WeightedScorer::new(weights);

    assert!(scorer.is_err());
    assert_eq!(scorer.unwrap_err(), "All weights must be positive");
}

#[test]
fn test_weighted_creation_invalid_zero() {
    let weights: Vec<i64> = vec![100, 0, 150];
    let scorer = WeightedScorer::new(weights);

    assert!(scorer.is_err());
    assert_eq!(scorer.unwrap_err(), "All weights must be positive");
}

#[test]
fn test_weighted_equal_weights() {
    let scorer = WeightedScorer::equal_weights(5);

    assert_eq!(scorer.num_questions(), 5);
    assert_eq!(scorer.weights(), &[100i64, 100, 100, 100, 100]);
}

#[test]
fn test_weighted_basic_calculation() {
    // Weights: 2.0, 1.0, 3.0 in hundredths
    let weights: Vec<i64> = vec![200, 100, 300];
    let scorer = WeightedScorer::new(weights).unwrap();

    let user1 = User::new("user1".to_string(), vec![1, 4, 7]).unwrap();
    let user2 = User::new("user2".to_string(), vec![7, 2, 1]).unwrap();

    let score = scorer.calculate_score(&user1, &user2);

    // |1-7|×2.0 + |4-2|×1.0 + |7-1|×3.0 = 6×2 + 2×1 + 6×3 = 12 + 2 + 18 = 32
    assert_eq!(score as f64 / 10000.0, 32.0);
}

#[test]
fn test_weighted_emphasizes_important_questions() {
    let user1 = User::new("user1".to_string(), vec![1, 4]).unwrap();
    let user2 = User::new("user2".to_string(), vec![7, 5]).unwrap();

    // Equal weights: both questions matter equally
    let equal_scorer = WeightedScorer::equal_weights(2);
    let equal_score = equal_scorer.calculate_score(&user1, &user2);
    // |1-7|×1 + |4-5|×1 = 6 + 1 = 7
    assert_eq!(equal_score as f64 / 10000.0, 7.0);

    // Heavy weight (10.0) on first question
    let weighted_scorer = WeightedScorer::new(vec![1000, 100]).unwrap();
    let weighted_score = weighted_scorer.calculate_score(&user1, &user2);
    // |1-7|×10 + |4-5|×1 = 60 + 1 = 61
    assert_eq!(weighted_score as f64 / 10000.0, 61.0);
}

#[test]
fn test_weighted_vs_simple_difference() {
    let user1 = User::new("user1".to_string(), vec![1, 3, 5]).unwrap();
    let user2 = User::new("user2".to_string(), vec![4, 6, 2]).unwrap();

    // Equal weights should match SimpleDifferenceScorer
    let weighted = WeightedScorer::equal_weights(3);
    let simple = SimpleDifferenceScorer;

    let weighted_score = weighted.calculate_score(&user1, &user2);
    let simple_score = simple.calculate_score(&user1, &user2);

    assert_eq!(weighted_score, simple_score);
}

#[test]
fn test_weighted_name() {
    assert_eq!(WeightedScorer::equal_weights(1).name(), "Weighted");
}

// ============================================================================
// Polarization
// ============================================================================

#[test]
fn test_polarization_creation() {
    // multipliers 2.0, 1.5, 1.0 in hundredths
    let scorer = PolarizationScorer::new(200, 150, 100);

    // Verify creation (can't directly access private fields, but check it works)
    assert_eq!(scorer.name(), "Polarization");
}

#[test]
fn test_polarization_default() {
    let scorer = PolarizationScorer::default();

    assert_eq!(scorer.name(), "Polarization");
}

#[test]
fn test_polarization_extreme_vs_extreme() {
    // Both users have extreme positions (1 vs 7)
    let user1 = User::new("user1".to_string(), vec![1]).unwrap();
    let user2 = User::new("user2".to_string(), vec![7]).unwrap();

    let scorer = PolarizationScorer::default(); // 1.5x for extremes

    let score = scorer.calculate_score(&user1, &user2);

    // |1-7| × 1.5 × 1.5 = 6 × 2.25 = 13.5
    assert_eq!(score as f64 / 10000.0, 13.5);
    assert_eq!(score, 135000);
}

#[test]
fn test_polarization_moderate_vs_moderate() {
    // Both users have moderate positions (3 vs 5)
    let user1 = User::new("user1".to_string(), vec![3]).unwrap();
    let user2 = User::new("user2".to_string(), vec![5]).unwrap();

    let scorer = PolarizationScorer::default(); // 1.0x for moderates

    let score = scorer.calculate_score(&user1, &user2);

    // |3-5| × 1.0 × 1.0 = 2.0
    assert_eq!(score as f64 / 10000.0, 2.0);
}

#[test]
fn test_polarization_extreme_vs_moderate() {
    // One extreme, one moderate
    let user1 = User::new("user1".to_string(), vec![1]).unwrap();
    let user2 = User::new("user2".to_string(), vec![4]).unwrap();

    let scorer = PolarizationScorer::default(); // 1.5x for extreme, 1.0x for moderate

    let score = scorer.calculate_score(&user1, &user2);

    // |1-4| × 1.5 × 1.0 = 3 × 1.5 = 4.5
    assert_eq!(score as f64 / 10000.0, 4.5);
}

#[test]
fn test_polarization_lean_positions() {
    // Both lean positions (2 vs 6)
    let user1 = User::new("user1".to_string(), vec![2]).unwrap();
    let user2 = User::new("user2".to_string(), vec![6]).unwrap();

    let scorer = PolarizationScorer::default(); // 1.2x for lean

    let score = scorer.calculate_score(&user1, &user2);

    // |2-6| × 1.2 × 1.2 = 4 × 1.44 = 5.76
    assert_eq!(score as f64 / 10000.0, 5.76);
}

#[test]
fn test_polarization_emphasizes_passion() {
    // Scenario A: Large difference but both moderate (3 vs 5)
    let user_a1 = User::new("a1".to_string(), vec![3]).unwrap();
    let user_a2 = User::new("a2".to_string(), vec![5]).unwrap();

    // Scenario B: Same numeric difference but one extreme (1 vs 3)
    let user_b1 = User::new("b1".to_string(), vec![1]).unwrap();
    let user_b2 = User::new("b2".to_string(), vec![3]).unwrap();

    let scorer = PolarizationScorer::default();

    let score_a = scorer.calculate_score(&user_a1, &user_a2);
    let score_b = scorer.calculate_score(&user_b1, &user_b2);

    // Scenario A: |3-5| × 1.0 × 1.0 = 2.0
    // Scenario B: |1-3| × 1.5 × 1.0 = 3.0
    assert_eq!(score_a as f64 / 10000.0, 2.0);
    assert_eq!(score_b as f64 / 10000.0, 3.0);
    assert!(score_b > score_a, "Extreme position should score higher");
}

#[test]
fn test_polarization_vs_simple_difference() {
    // Compare on same data
    let user1 = User::new("user1".to_string(), vec![1, 7, 4]).unwrap();
    let user2 = User::new("user2".to_string(), vec![7, 1, 4]).unwrap();

    let polar = PolarizationScorer::default();
    let simple = SimpleDifferenceScorer;

    let polar_score = polar.calculate_score(&user1, &user2);
    let simple_score = simple.calculate_score(&user1, &user2);

    // Q1: |1-7| = 6 → Simple: 6, Polar: 6×1.5×1.5 = 13.5
    // Q2: |7-1| = 6 → Simple: 6, Polar: 6×1.5×1.5 = 13.5
    // Q3: |4-4| = 0 → Simple: 0, Polar: 0
    // Simple total: 12
    // Polar total: 27.0
    assert_eq!(simple_score as f64 / 10000.0, 12.0);
    assert_eq!(polar_score as f64 / 10000.0, 27.0);
    assert!(polar_score > simple_score, "Polarization should emphasize extreme disagreements");
}

#[test]
fn test_polarization_custom_multipliers() {
    // Create scorer with heavy extreme emphasis (3.0, 1.5, 1.0)
    let scorer = PolarizationScorer::new(300, 150, 100);

    let user1 = User::new("user1".to_string(), vec![1]).unwrap();
    let user2 = User::new("user2".to_string(), vec![7]).unwrap();

    let score = scorer.calculate_score(&user1, &user2);

    // |1-7| × 3.0 × 3.0 = 6 × 9 = 54
    assert_eq!(score as f64 / 10000.0, 54.0);
}

#[test]
fn test_polarization_pattern_matching_coverage() {
    // Test all answer ranges
    let scorer = PolarizationScorer::default();

    // Test answer 1 (extreme)
    let u1 = User::new("1".to_string(), vec![1]).unwrap();
    let u7 = User::new("7".to_string(), vec![7]).unwrap();
    assert_eq!(scorer.calculate_score(&u1, &u7), 135000); // 6×1.5×1.5 = 13.5

    // Test answer 2 (lean)
    let u2 = User::new("2".to_string(), vec![2]).unwrap();
    let u6 = User::new("6".to_string(), vec![6]).unwrap();
    assert_eq!(scorer.calculate_score(&u2, &u6), 57600); // 4×1.2×1.2 = 5.76

    // Test answer 3,4,5 (moderate)
    let u3 = User::new("3".to_string(), vec![3]).unwrap();
    let u4 = User::new("4".to_string(), vec![4]).unwrap();
    let u5 = User::new("5".to_string(), vec![5]).unwrap();

    assert_eq!(scorer.calculate_score(&u3, &u5), 20000); // 2×1.0×1.0 = 2.0
    assert_eq!(scorer.calculate_score(&u4, &u4), 0); // 0 (identical)
}

// ============================================================================
// Comprehensive strategy comparison
// ============================================================================

#[test]
fn test_all_strategies_comparison() {
    // Create test scenarios that highlight strategy differences

    println!("\n=== Scoring Strategy Comparison ===\n");

    // Scenario 1: Strong disagreement on everything
    println!("Scenario 1: Maximum opposition (user answers all 1s vs all 7s)");
    let user_max_1 = User::new("max1".to_string(), vec![1, 1, 1, 1, 1]).unwrap();
    let user_max_2 = User::new("max2".to_string(), vec![7, 7, 7, 7, 7]).unwrap();

    let simple = SimpleDifferenceScorer;
    let euclidean = EuclideanDistanceScorer;
    let weighted = WeightedScorer::equal_weights(5);
    let polar = PolarizationScorer::default();

    println!("  Simple:      {}", simple.calculate_score(&user_max_1, &user_max_2) as f64 / 10000.0);
    println!(
        "  Euclidean:   {:.2}",
        euclidean.calculate_score(&user_max_1, &user_max_2) as f64 / 10000.0
    );
    println!("  Weighted:    {}", weighted.calculate_score(&user_max_1, &user_max_2) as f64 / 10000.0);
    println!(
        "  Polarization: {:.2}",
        polar.calculate_score(&user_max_1, &user_max_2) as f64 / 10000.0
    );

    // Scenario 2: Moderate disagreement across the board
    println!("\nScenario 2: Moderate opposition (consistent difference of 2 points)");
    let user_mod_1 = User::new("mod1".to_string(), vec![2, 2, 2, 2, 2]).unwrap();
    let user_mod_2 = User::new("mod2".to_string(), vec![4, 4, 4, 4, 4]).unwrap();

    println!("  Simple:       {}", simple.calculate_score(&user_mod_1, &user_mod_2) as f64 / 10000.0);
    println!(
        "  Euclidean:    {:.2}",
        euclidean.calculate_score(&user_mod_1, &user_mod_2) as f64 / 10000.0
    );
    println!("  Weighted:     {}", weighted.calculate_score(&user_mod_1, &user_mod_2) as f64 / 10000.0);
    println!(
        "  Polarization: {:.2}",
        polar.calculate_score(&user_mod_1, &user_mod_2) as f64 / 10000.0
    );

    // Scenario 3: One big disagreement vs many small ones
    println!("\nScenario 3A: ONE large disagreement + 4 agreements");
    let user_one_big_1 = User::new("big1".to_string(), vec![1, 4, 4, 4, 4]).unwrap();
    let user_one_big_2 = User::new("big2".to_string(), vec![7, 4, 4, 4, 4]).unwrap();

    println!(
        "  Simple:       {}",
        simple.calculate_score(&user_one_big_1, &user_one_big_2) as f64 / 10000.0
    );
    println!(
        "  Euclidean:    {:.2}",
        euclidean.calculate_score(&user_one_big_1, &user_one_big_2) as f64 / 10000.0
    );
    println!(
        "  Weighted:     {}",
        weighted.calculate_score(&user_one_big_1, &user_one_big_2) as f64 / 10000.0
    );
    println!(
        "  Polarization: {:.2}",
        polar.calculate_score(&user_one_big_1, &user_one_big_2) as f64 / 10000.0
    );

    println!("\nScenario 3B: MANY small disagreements (diff=2 on all 5)");
    let user_many_small_1 = User::new("small1".to_string(), vec![3, 3, 3, 3, 3]).unwrap();
    let user_many_small_2 = User::new("small2".to_string(), vec![5, 5, 5, 5, 5]).unwrap();

    println!(
        "  Simple:       {}",
        simple.calculate_score(&user_many_small_1, &user_many_small_2) as f64 / 10000.0
    );
    println!(
        "  Euclidean:    {:.2}",
        euclidean.calculate_score(&user_many_small_1, &user_many_small_2) as f64 / 10000.0
    );
    println!(
        "  Weighted:     {}",
        weighted.calculate_score(&user_many_small_1, &user_many_small_2) as f64 / 10000.0
    );
    println!(
        "  Polarization: {:.2}",
        polar.calculate_score(&user_many_small_1, &user_many_small_2) as f64 / 10000.0
    );

    // Scenario 4: Extreme vs moderate (passion asymmetry)
    println!("\nScenario 4: Passionate person vs indifferent person");
    let user_passionate = User::new("passion".to_string(), vec![1, 1, 7, 7, 1]).unwrap();
    let user_moderate = User::new("moderate".to_string(), vec![4, 4, 4, 4, 4]).unwrap();

    println!(
        "  Simple:       {}",
        simple.calculate_score(&user_passionate, &user_moderate) as f64 / 10000.0
    );
    println!(
        "  Euclidean:    {:.2}",
        euclidean.calculate_score(&user_passionate, &user_moderate) as f64 / 10000.0
    );
    println!(
        "  Weighted:     {}",
        weighted.calculate_score(&user_passionate, &user_moderate) as f64 / 10000.0
    );
    println!(
        "  Polarization: {:.2}",
        polar.calculate_score(&user_passionate, &user_moderate) as f64 / 10000.0
    );

    println!("\n=== Key Insights ===");
    println!("Simple:       Treats all differences equally");
    println!("Euclidean:    Emphasizes large differences over many small ones");
    println!("Weighted:     Allows custom importance per question");
    println!("Polarization: Rewards passionate disagreement, penalizes apathy");
    println!();

    // Assertions to verify behavior
    let max_simple = simple.calculate_score(&user_max_1, &user_max_2);
    let max_polar = polar.calculate_score(&user_max_1, &user_max_2);
    assert!(max_polar > max_simple, "Polarization should amplify extreme disagreements");

    // For truly moderate disagreements, use 3-5 range
    let truly_mod_1 = User::new("m1".to_string(), vec![3, 3, 3, 3, 3]).unwrap();
    let truly_mod_2 = User::new("m2".to_string(), vec![5, 5, 5, 5, 5]).unwrap();
    let truly_mod_simple = simple.calculate_score(&truly_mod_1, &truly_mod_2);
    let truly_mod_polar = polar.calculate_score(&truly_mod_1, &truly_mod_2);
    assert_eq!(
        truly_mod_polar, truly_mod_simple,
        "Polarization should equal simple for moderate-only disagreements (1.0x multiplier)"
    );
}

// ============================================================================
// Cross-strategy properties on concrete values
// ============================================================================

#[test]
fn test_all_strategies_symmetric() {
    let user1 = User::new("user1".to_string(), vec![1, 4, 6, 2]).unwrap();
    let user2 = User::new("user2".to_string(), vec![7, 3, 1, 5]).unwrap();

    let simple = SimpleDifferenceScorer;
    let euclidean = EuclideanDistanceScorer;
    let weighted = WeightedScorer::new(vec![50, 300, 100, 200]).unwrap();
    let polar = PolarizationScorer::default();

    assert_eq!(simple.calculate_score(&user1, &user2), simple.calculate_score(&user2, &user1));
    assert_eq!(
        euclidean.calculate_score(&user1, &user2),
        euclidean.calculate_score(&user2, &user1)
    );
    assert_eq!(weighted.calculate_score(&user1, &user2), weighted.calculate_score(&user2, &user1));
    assert_eq!(polar.calculate_score(&user1, &user2), polar.calculate_score(&user2, &user1));
}

#[test]
fn test_all_strategies_identical_users_score_zero() {
    let user1 = User::new("user1".to_string(), vec![2, 7, 4, 1, 5]).unwrap();
    let user2 = User::new("user2".to_string(), vec![2, 7, 4, 1, 5]).unwrap();

    let simple = SimpleDifferenceScorer;
    let euclidean = EuclideanDistanceScorer;
    let weighted = WeightedScorer::new(vec![150, 50, 100, 300, 200]).unwrap();
    let polar = PolarizationScorer::default();

    assert_eq!(simple.calculate_score(&user1, &user2), 0);
    assert_eq!(euclidean.calculate_score(&user1, &user2), 0);
    assert_eq!(weighted.calculate_score(&user1, &user2), 0);
    assert_eq!(polar.calculate_score(&user1, &user2), 0);
}
