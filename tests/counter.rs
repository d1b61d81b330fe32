use nessie::counter::Counter;

fn entries(c: &Counter) -> Vec<(String, usize)> {
    let mut v = Vec::new();
    let mut r = 1;
    while let Some(e) = c.most_frequent(r) {
        v.push(e.clone());
        r += 1;
    }
    v
}

#[test]
fn add_add_add_then_remove() {
    let mut c = Counter::new();
    c.add("a");
    c.add("b");
    c.add("a");
    assert_eq!(c.most_frequent(1), Some(&("a".to_string(), 2)));
    assert_eq!(c.most_frequent(2), Some(&("b".to_string(), 1)));
    c.remove("a");
    let top = c.most_frequent(1).unwrap();
    assert!(top == &("a".to_string(), 1) || top == &("b".to_string(), 1));
    assert_eq!(c.total_count(), 2);
    assert_eq!(c.num_items(), 2);
}

#[test]
fn new_key_goes_last() {
    let mut c = Counter::new();
    c.add("x");
    c.add("x");
    c.add("y");
    assert_eq!(entries(&c), vec![("x".to_string(), 2), ("y".to_string(), 1)]);
}

#[test]
fn rising_entry_swaps_with_first_of_its_old_count() {
    let mut c = Counter::new();
    c.add("a");
    c.add("b");
    c.add("c");
    c.add("c");
    // c rose to 2 and traded places with a, the first entry counting 1.
    assert_eq!(
        entries(&c),
        vec![("c".to_string(), 2), ("b".to_string(), 1), ("a".to_string(), 1)]
    );
}

#[test]
fn falling_entry_swaps_with_last_of_its_old_count() {
    let mut c = Counter::new();
    for k in ["a", "a", "b", "b", "c", "c", "d"] {
        c.add(k);
    }
    c.remove("a");
    // a fell to 1 and traded places with c, the last entry counting 2.
    assert_eq!(
        entries(&c),
        vec![
            ("c".to_string(), 2),
            ("b".to_string(), 2),
            ("a".to_string(), 1),
            ("d".to_string(), 1)
        ]
    );
}

#[test]
fn removing_to_zero_moves_last_entry_in() {
    let mut c = Counter::new();
    for k in ["a", "a", "b", "c", "d"] {
        c.add(k);
    }
    c.remove("b");
    assert_eq!(
        entries(&c),
        vec![("a".to_string(), 2), ("d".to_string(), 1), ("c".to_string(), 1)]
    );
    assert!(!c.contains_key("b"));
    assert_eq!(c.total_count(), 4);
}

#[test]
fn rank_past_the_end_or_zero_is_absent() {
    let mut c = Counter::new();
    c.add("a");
    assert_eq!(c.most_frequent(0), None);
    assert_eq!(c.most_frequent(2), None);
}

#[test]
fn counts_stay_sorted_and_sum_to_total() {
    let mut c = Counter::new();
    let keys = ["q", "w", "e", "q", "r", "w", "q", "t", "e", "e", "e"];
    for k in keys {
        c.add(k);
    }
    c.remove("q");
    c.remove("t");
    let v = entries(&c);
    for w in v.windows(2) {
        assert!(w[0].1 >= w[1].1);
    }
    let sum: usize = v.iter().map(|e| e.1).sum();
    assert_eq!(sum, c.total_count());
    assert_eq!(c.num_items(), v.len());
    assert!(v.iter().all(|e| e.1 > 0));
}
