use frece::{sort_fields, stable_order, Field, FieldSlice, SortMode, Timestamp};

fn sample() -> Vec<Field> {
    vec![
        Field::new(2, Timestamp::from_micros(30), "delta"),
        Field::new(5, Timestamp::from_micros(10), "alpha"),
        Field::new(2, Timestamp::from_micros(20), "charlie"),
        Field::new(5, Timestamp::from_micros(30), "bravo"),
    ]
}

fn data(v: &[Field]) -> Vec<&str> {
    v.iter().map(|f| f.data.as_str()).collect()
}

#[test]
fn sort_by_data_is_alphabetical() {
    let mut v = sample();
    v.sort_by_data();
    assert_eq!(data(&v), vec!["alpha", "bravo", "charlie", "delta"]);
}

#[test]
fn sort_by_data_orders_by_character_codes() {
    let mut v = vec![
        Field::new(0, Timestamp::epoch(), "b"),
        Field::new(0, Timestamp::epoch(), "B"),
        Field::new(0, Timestamp::epoch(), "ab"),
        Field::new(0, Timestamp::epoch(), "a"),
        Field::new(0, Timestamp::epoch(), "\u{e9}"),
    ];
    v.sort_by_data();
    assert_eq!(data(&v), vec!["B", "a", "ab", "b", "\u{e9}"]);
}

#[test]
fn sort_by_frequency_is_stable() {
    let mut v = sample();
    v.sort_by_frequency();
    assert_eq!(data(&v), vec!["alpha", "bravo", "delta", "charlie"]);
}

#[test]
fn sort_by_recency_is_stable() {
    let mut v = sample();
    v.sort_by_recency();
    assert_eq!(data(&v), vec!["delta", "bravo", "charlie", "alpha"]);
}

#[test]
fn sort_by_frecency_uses_the_ranks() {
    let mut v = sample();
    v.sort_by_frecency(&vec![7, 9, 7, 1]);
    assert_eq!(data(&v), vec!["alpha", "delta", "charlie", "bravo"]);
}

#[test]
fn unsorted_keeps_store_order() {
    let mut v = sample();
    sort_fields(&mut v, SortMode::Unsorted, &Vec::new());
    assert_eq!(data(&v), vec!["delta", "alpha", "charlie", "bravo"]);
}

#[test]
fn sorting_twice_gives_the_same_order() {
    for mode in [SortMode::Alphabetical, SortMode::Frequency, SortMode::Recency] {
        let mut once = sample();
        sort_fields(&mut once, mode, &Vec::new());
        let mut twice = sample();
        sort_fields(&mut twice, mode, &Vec::new());
        sort_fields(&mut twice, mode, &Vec::new());
        assert_eq!(data(&once), data(&twice));
    }
}

#[test]
fn stable_order_lists_positions() {
    let v = sample();
    assert_eq!(stable_order(&v, &Vec::new(), SortMode::Frequency), vec![1, 3, 0, 2]);
    assert_eq!(stable_order(&v, &Vec::new(), SortMode::Unsorted), vec![0, 1, 2, 3]);
    assert_eq!(stable_order(&Vec::new(), &Vec::new(), SortMode::Recency), Vec::<usize>::new());
}

#[test]
fn modes_by_name() {
    assert_eq!(SortMode::from_name("none"), Some(SortMode::Unsorted));
    assert_eq!(SortMode::from_name("alphabetical"), Some(SortMode::Alphabetical));
    assert_eq!(SortMode::from_name("frecency"), Some(SortMode::Frecency));
    assert_eq!(SortMode::from_name("frequency"), Some(SortMode::Frequency));
    assert_eq!(SortMode::from_name("recency"), Some(SortMode::Recency));
    assert_eq!(SortMode::from_name("Recency"), None);
    assert_eq!(SortMode::from_name(""), None);
}
