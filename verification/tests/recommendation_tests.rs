use anime_rec::data_processing::{ItemMembers, ItemNames, RatingStore};
use anime_rec::recommendation::{recommend_anime, RecommendConfig};
use anime_rec::similarity::{calculate_similarity, SimilarityMap};
use rand::rngs::StdRng;
use rand::SeedableRng;

fn plain_names(pairs: &[(u32, &str)]) -> ItemNames {
    let mut names = ItemNames::new();
    for (id, name) in pairs {
        names.insert(*id, name);
    }
    names
}

fn members_table(pairs: &[(u32, u32)]) -> ItemMembers {
    let mut members = ItemMembers::new();
    for (id, m) in pairs {
        members.insert(*id, *m);
    }
    members
}

#[test]
fn test_empty_similarity_map_gives_empty_result() {
    let mut store = RatingStore::new();
    store.insert_rating(0, 1, 10);
    let names = plain_names(&[(1, "One")]);
    let members = members_table(&[(1, 10000)]);
    let sims = SimilarityMap::new();
    let config = RecommendConfig::default();
    let mut rng = StdRng::seed_from_u64(7);

    let recs = recommend_anime(&store, &sims, 0, &names, &members, &config, &mut rng);
    assert!(recs.is_empty());
}

#[test]
fn test_never_recommends_already_rated_items() {
    let mut store = RatingStore::new();
    store.insert_rating(0, 1, 10);
    store.insert_rating(1, 1, 10);
    store.insert_rating(1, 2, 9);
    let names = plain_names(&[(1, "One"), (2, "Two")]);
    let members = members_table(&[(1, 10000), (2, 10000)]);
    let sims = calculate_similarity(&store, 0);
    let config = RecommendConfig::default();
    let mut rng = StdRng::seed_from_u64(7);

    let recs = recommend_anime(&store, &sims, 0, &names, &members, &config, &mut rng);
    assert_eq!(recs, vec!["Two".to_string()]);
}

#[test]
fn test_popularity_threshold_is_strict() {
    // Item 3 sits exactly at the threshold and must be excluded; an item with
    // no recorded popularity is excluded as well.
    let mut store = RatingStore::new();
    store.insert_rating(0, 1, 10);
    store.insert_rating(1, 1, 10);
    store.insert_rating(1, 2, 9);
    store.insert_rating(1, 3, 9);
    store.insert_rating(1, 9, 9);
    let names = plain_names(&[(1, "One"), (2, "Two"), (3, "Three"), (9, "Nine")]);
    let members = members_table(&[(1, 10000), (2, 5001), (3, 5000)]);
    let sims = calculate_similarity(&store, 0);
    let config = RecommendConfig::default();
    let mut rng = StdRng::seed_from_u64(7);

    let recs = recommend_anime(&store, &sims, 0, &names, &members, &config, &mut rng);
    assert_eq!(recs, vec!["Two".to_string()]);
}

#[test]
fn test_small_candidate_set_keeps_score_order() {
    // Two neighbors push three unseen items with different averages; with few
    // candidates the output follows descending predicted score exactly.
    let mut store = RatingStore::new();
    store.insert_rating(0, 1, 10);
    store.insert_rating(1, 1, 10);
    store.insert_rating(1, 2, 9);
    store.insert_rating(1, 3, 4);
    store.insert_rating(2, 1, 10);
    store.insert_rating(2, 2, 7);
    store.insert_rating(2, 4, 6);
    let names = plain_names(&[(2, "Two"), (3, "Three"), (4, "Four")]);
    let members = members_table(&[(2, 6000), (3, 6000), (4, 6000)]);
    let sims = calculate_similarity(&store, 0);
    let config = RecommendConfig::default();
    let mut rng = StdRng::seed_from_u64(7);

    // Predicted scores: item 2 -> (9 + 7) / 2 = 8, item 4 -> 6, item 3 -> 4.
    let recs = recommend_anime(&store, &sims, 0, &names, &members, &config, &mut rng);
    assert_eq!(
        recs,
        vec!["Two".to_string(), "Four".to_string(), "Three".to_string()]
    );
}

#[test]
fn test_ties_break_by_ascending_item_id() {
    let mut store = RatingStore::new();
    store.insert_rating(0, 1, 10);
    store.insert_rating(1, 1, 10);
    store.insert_rating(1, 5, 7);
    store.insert_rating(1, 2, 7);
    let names = plain_names(&[(2, "Two"), (5, "Five")]);
    let members = members_table(&[(2, 6000), (5, 6000)]);
    let sims = calculate_similarity(&store, 0);
    let config = RecommendConfig::default();
    let mut rng = StdRng::seed_from_u64(7);

    let recs = recommend_anime(&store, &sims, 0, &names, &members, &config, &mut rng);
    assert_eq!(recs, vec!["Two".to_string(), "Five".to_string()]);
}

#[test]
fn test_missing_name_is_dropped() {
    let mut store = RatingStore::new();
    store.insert_rating(0, 1, 10);
    store.insert_rating(1, 1, 10);
    store.insert_rating(1, 2, 9);
    store.insert_rating(1, 3, 8);
    let names = plain_names(&[(3, "Three")]);
    let members = members_table(&[(2, 6000), (3, 6000)]);
    let sims = calculate_similarity(&store, 0);
    let config = RecommendConfig::default();
    let mut rng = StdRng::seed_from_u64(7);

    let recs = recommend_anime(&store, &sims, 0, &names, &members, &config, &mut rng);
    assert_eq!(recs, vec!["Three".to_string()]);
}

#[test]
fn test_large_pool_draws_from_top_thirty_deterministically() {
    // 40 eligible candidates: items 1..=30 score 9, items 31..=40 score 2.
    // The draw must return exactly pick_count items, all from the top 30, and
    // be reproducible for a fixed seed.
    let mut store = RatingStore::new();
    store.insert_rating(0, 1000, 10);
    store.insert_rating(1, 1000, 10);
    let mut name_pairs: Vec<(u32, String)> = Vec::new();
    let mut member_pairs: Vec<(u32, u32)> = Vec::new();
    for i in 1u32..=40 {
        let rating = if i <= 30 { 9 } else { 2 };
        store.insert_rating(1, i, rating);
        name_pairs.push((i, format!("Item {:02}", i)));
        member_pairs.push((i, 6000));
    }
    let mut names = ItemNames::new();
    for (id, name) in &name_pairs {
        names.insert(*id, name);
    }
    let members = members_table(&member_pairs);
    let sims = calculate_similarity(&store, 0);
    let config = RecommendConfig::default();

    let mut rng1 = StdRng::seed_from_u64(42);
    let recs1 = recommend_anime(&store, &sims, 0, &names, &members, &config, &mut rng1);
    assert_eq!(recs1.len(), 10);
    for name in &recs1 {
        let id: u32 = name[5..].trim().parse().unwrap();
        assert!(id <= 30, "recommendation {} is outside the top pool", name);
    }
    // No item appears twice.
    let mut sorted = recs1.clone();
    sorted.sort();
    sorted.dedup();
    assert_eq!(sorted.len(), 10);

    // Deterministic for a fixed seed.
    let mut rng2 = StdRng::seed_from_u64(42);
    let recs2 = recommend_anime(&store, &sims, 0, &names, &members, &config, &mut rng2);
    assert_eq!(recs1, recs2);

    // The selection is genuinely shuffled: it does not simply hand back the
    // ten best in rank order.
    let in_rank_order: Vec<String> = (1u32..=10).map(|i| format!("Item {:02}", i)).collect();
    assert_ne!(recs1, in_rank_order);
}
