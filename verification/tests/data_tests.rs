use anime_rec::data_processing::{store_from_records, ItemMembers, ItemNames, RatingRecord};
use anime_rec::titles::normalize_title;

#[test]
fn test_store_from_records_skips_unrated_sentinel() {
    let records = vec![
        RatingRecord { user_id: 1, anime_id: 10, rating: 8 },
        RatingRecord { user_id: 1, anime_id: 11, rating: -1 },
        RatingRecord { user_id: 2, anime_id: 10, rating: -1 },
    ];
    let store = store_from_records(&records);
    assert!(store.has_user(1));
    assert!(!store.has_user(2));
    assert_eq!(store.get_rating(1, 10), Some(8));
    assert_eq!(store.get_rating(1, 11), None);
    assert_eq!(store.rating_count(1), 1);
}

#[test]
fn test_store_from_records_last_rating_wins() {
    let records = vec![
        RatingRecord { user_id: 1, anime_id: 10, rating: 3 },
        RatingRecord { user_id: 1, anime_id: 10, rating: 9 },
    ];
    let store = store_from_records(&records);
    assert_eq!(store.get_rating(1, 10), Some(9));
    assert_eq!(store.rating_count(1), 1);
}

#[test]
fn test_insert_rating_overwrites_in_place() {
    let mut store = anime_rec::data_processing::RatingStore::new();
    store.insert_rating(5, 1, 4);
    store.insert_rating(5, 2, 6);
    store.insert_rating(5, 1, 10);
    assert_eq!(store.get_rating(5, 1), Some(10));
    assert_eq!(store.get_rating(5, 2), Some(6));
    assert_eq!(store.rating_count(5), 2);
    assert_eq!(store.get_rating(6, 1), None);
}

#[test]
fn test_item_members_defaults_and_overwrites() {
    let mut members = ItemMembers::new();
    assert_eq!(members.get(4), 0);
    members.insert(4, 1200);
    members.insert(4, 9800);
    members.insert(5, 10);
    assert_eq!(members.get(4), 9800);
    assert_eq!(members.get(5), 10);
    assert_eq!(members.get(6), 0);
}

#[test]
fn test_item_names_decode_html_entities() {
    let mut names = ItemNames::new();
    names.insert(1, "Steins;Gate &amp; Friends");
    names.insert(2, "K-On!");
    let decoded = names.get_name(1).unwrap();
    assert_eq!(decoded, "Steins;Gate & Friends");
    assert_eq!(names.get_name(2).unwrap(), "K-On!");
    assert!(names.get_name(3).is_none());
}

#[test]
fn test_normalize_title_lowercases_and_filters() {
    assert_eq!(normalize_title("AbC; Gate!! 42"), "abc gate 42");
    assert_eq!(normalize_title("Cowboy Bebop"), "cowboy bebop");
    assert_eq!(normalize_title("!!!"), "");
}
