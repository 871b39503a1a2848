use anime_rec::data_processing::RatingStore;
use anime_rec::similarity::calculate_similarity;

fn to_f64(nanos: i64) -> f64 {
    nanos as f64 / 1e9
}

#[test]
fn test_cosine_similarity_identical_ratings() {
    // Two users with identical ratings for the same two anime
    let mut user_ratings = RatingStore::new();
    user_ratings.insert_rating(0, 1, 10);
    user_ratings.insert_rating(0, 2, 9);
    user_ratings.insert_rating(1, 1, 10);
    user_ratings.insert_rating(1, 2, 9);

    let similarities = calculate_similarity(&user_ratings, 0);
    // User 1 should have a similarity of 1.0 with User 0
    let sim = to_f64(similarities.get(1).unwrap_or(0));
    assert!((sim - 1.0).abs() < 1e-6, "Expected similarity of 1.0, got {}", sim);
}

#[test]
fn test_cosine_similarity_no_overlap() {
    // Two users with no common anime
    let mut user_ratings = RatingStore::new();
    user_ratings.insert_rating(0, 1, 8);
    user_ratings.insert_rating(1, 2, 9);

    let similarities = calculate_similarity(&user_ratings, 0);
    // No overlap, user 1 should not appear in similarities
    assert!(similarities.get(1).is_none(), "Expected no similarity since no overlap");
}

#[test]
fn test_cosine_similarity_partial_overlap() {
    // Two users have partial overlap
    let mut user_ratings = RatingStore::new();
    user_ratings.insert_rating(0, 1, 10);
    user_ratings.insert_rating(0, 2, 5);
    user_ratings.insert_rating(1, 1, 10);
    user_ratings.insert_rating(1, 3, 5); // No overlap

    let similarities = calculate_similarity(&user_ratings, 0);
    let sim = to_f64(similarities.get(1).unwrap_or(0));
    assert!((sim - 1.0).abs() < 1e-6, "Expected similarity of 1.0 for single identical rating");
}

#[test]
fn test_cosine_similarity_different_ratings() {
    // Users have 2 anime in common, but different ratings
    let mut user_ratings = RatingStore::new();
    user_ratings.insert_rating(0, 1, 10);
    user_ratings.insert_rating(0, 2, 5);
    user_ratings.insert_rating(1, 1, 5); // different rating
    user_ratings.insert_rating(1, 2, 10); // swapped

    let similarities = calculate_similarity(&user_ratings, 0);
    // Target vector: [10, 5]; other vector: [5, 10]
    // Dot product = 100; norms are sqrt(125) each; similarity = 100 / 125 = 0.8
    let sim = to_f64(similarities.get(1).unwrap_or(0));
    assert!((sim - 0.8).abs() < 1e-6, "Expected similarity ~0.8, got {}", sim);
}

#[test]
fn test_identical_and_disjoint_neighbors() {
    // Target rates A=10, B=9; one identical neighbor, one fully disjoint.
    let mut store = RatingStore::new();
    store.insert_rating(0, 1, 10);
    store.insert_rating(0, 2, 9);
    store.insert_rating(1, 1, 10);
    store.insert_rating(1, 2, 9);
    store.insert_rating(2, 3, 5);

    let sims = calculate_similarity(&store, 0);
    // The identical neighbor sits at exactly one similarity unit.
    assert_eq!(sims.get(1), Some(1_000_000_000));
    // The disjoint neighbor is absent, not zero.
    assert!(sims.get(2).is_none());
    assert_eq!(sims.len(), 1);
}

#[test]
fn test_swapped_ratings_give_exact_four_fifths() {
    // dot = 100 over norms sqrt(125) * sqrt(125): exactly 0.8.
    let mut store = RatingStore::new();
    store.insert_rating(0, 1, 10);
    store.insert_rating(0, 2, 5);
    store.insert_rating(1, 1, 5);
    store.insert_rating(1, 2, 10);

    let sims = calculate_similarity(&store, 0);
    assert_eq!(sims.get(1), Some(800_000_000));
}

#[test]
fn test_similarity_symmetric_between_users() {
    // Computing similarity in either direction yields the same scalar.
    let mut store = RatingStore::new();
    store.insert_rating(7, 1, 10);
    store.insert_rating(7, 2, 5);
    store.insert_rating(7, 4, 3);
    store.insert_rating(9, 1, 4);
    store.insert_rating(9, 2, 8);
    store.insert_rating(9, 5, 2);

    let from_seven = calculate_similarity(&store, 7);
    let from_nine = calculate_similarity(&store, 9);
    assert_eq!(from_seven.get(9), from_nine.get(7));
    assert!(from_seven.get(9).is_some());
}

#[test]
fn test_target_user_never_in_result() {
    let mut store = RatingStore::new();
    store.insert_rating(0, 1, 10);
    store.insert_rating(1, 1, 10);
    store.insert_rating(2, 1, 2);

    let sims = calculate_similarity(&store, 0);
    assert!(sims.get(0).is_none());
    assert_eq!(sims.len(), 2);
}
