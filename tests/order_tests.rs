use opvm::order::{records_matching, sort_vers, CatalogOrder, SortBy};

fn recs(items: &[(&str, &str)]) -> Vec<(String, String)> {
    items.iter().map(|(a, b)| (a.to_string(), b.to_string())).collect()
}

fn names(v: &[(String, String)]) -> Vec<&str> {
    v.iter().map(|(a, _)| a.as_str()).collect()
}

fn catalog(items: &[&str]) -> CatalogOrder {
    CatalogOrder::new(items.iter().map(|s| s.to_string()).collect())
}

#[test]
fn unknown_ranks_keep_input_order() {
    let order = catalog(&[]);
    let out = sort_vers(recs(&[("b", ""), ("a", ""), ("c", "")]), &order, SortBy::NameNew);
    assert_eq!(names(&out), vec!["b", "a", "c"]);
    let out = sort_vers(recs(&[("b", ""), ("a", ""), ("c", "")]), &order, SortBy::NameOld);
    assert_eq!(names(&out), vec!["b", "a", "c"]);
}

#[test]
fn name_orders_follow_catalog_rank() {
    // ranks: b -> 0, c -> 1, a -> 2
    let order = catalog(&["b", "c", "a"]);
    let input = recs(&[("a", ""), ("b", ""), ("c", "")]);
    assert_eq!(names(&sort_vers(input.clone(), &order, SortBy::NameNew)), vec!["b", "c", "a"]);
    assert_eq!(names(&sort_vers(input, &order, SortBy::NameOld)), vec!["a", "c", "b"]);
}

#[test]
fn unranked_records_come_last_either_way() {
    let order = catalog(&["b", "a"]);
    let input = recs(&[("z", ""), ("a", ""), ("y", ""), ("b", "")]);
    assert_eq!(
        names(&sort_vers(input.clone(), &order, SortBy::NameNew)),
        vec!["b", "a", "z", "y"]
    );
    assert_eq!(names(&sort_vers(input, &order, SortBy::NameOld)), vec!["a", "b", "z", "y"]);
}

#[test]
fn timestamps_order_both_ways_with_unparsable_last() {
    let order = catalog(&[]);
    let input = recs(&[
        ("x", "2024-01-02 00:00:00"),
        ("y", "2024-01-01 00:00:00"),
        ("z", "not-a-date"),
    ]);
    assert_eq!(names(&sort_vers(input.clone(), &order, SortBy::TimeNew)), vec!["x", "y", "z"]);
    assert_eq!(names(&sort_vers(input, &order, SortBy::TimeOld)), vec!["y", "x", "z"]);
}

#[test]
fn timestamps_compare_by_date_and_time() {
    let order = catalog(&[]);
    let input = recs(&[
        ("p", "bad"),
        ("q", "2023-12-31 23:59:59"),
        ("r", "2024-01-01 00:00:01"),
        ("s", "2024-01-01 00:00:00"),
        ("t", "also bad"),
    ]);
    assert_eq!(
        names(&sort_vers(input.clone(), &order, SortBy::TimeOld)),
        vec!["q", "s", "r", "p", "t"]
    );
    assert_eq!(
        names(&sort_vers(input, &order, SortBy::TimeNew)),
        vec!["r", "s", "q", "p", "t"]
    );
}

#[test]
fn sort_keeps_timestamps_with_records() {
    let order = catalog(&["b", "a"]);
    let out = sort_vers(recs(&[("a", "t1"), ("b", "t2")]), &order, SortBy::NameNew);
    assert_eq!(out, recs(&[("b", "t2"), ("a", "t1")]));
    assert!(sort_vers(vec![], &order, SortBy::TimeNew).is_empty());
}

#[test]
fn rank_is_first_position() {
    let order = catalog(&["x", "y", "x"]);
    assert_eq!(order.rank_of(&"x".to_string()), Some(0));
    assert_eq!(order.rank_of(&"y".to_string()), Some(1));
    assert_eq!(order.rank_of(&"w".to_string()), None);
}

#[test]
fn catalog_cache_round_trip() {
    let order = catalog(&["1.20.4_HD_U_I7", "1.16.5_HD_U_G8"]);
    let bytes = order.to_cache().expect("encodes");
    assert!(!bytes.is_empty());
    let back = CatalogOrder::from_cache(&bytes);
    assert_eq!(back.names, order.names);
    assert_eq!(back.rank_of(&"1.16.5_HD_U_G8".to_string()), Some(1));
}

#[test]
fn unreadable_cache_gives_empty_order() {
    assert!(CatalogOrder::from_cache(&vec![]).names.is_empty());
    assert!(CatalogOrder::from_cache(&vec![1, 2, 3]).names.is_empty());
}

#[test]
fn records_matching_a_pattern() {
    let input = recs(&[("1.16.5_G8", "t1"), ("1.20.4_I7", "t2"), ("1.16.5_G7", "t3")]);
    assert_eq!(
        records_matching(input.clone(), "1.16"),
        recs(&[("1.16.5_G8", "t1"), ("1.16.5_G7", "t3")])
    );
    assert_eq!(records_matching(input.clone(), ""), input);
    assert!(records_matching(input, "t1").is_empty());
}
