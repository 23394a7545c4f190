use metrics_exporter_csv::order::{compare_text, same_text, Order};
use metrics_exporter_csv::sorted_map::SortedMap;
use metrics_exporter_csv::text::{
    concat3, decimal_text, list_text, push_decimal, signed_decimal_text,
};

#[test]
fn unsigned_integers_are_written_in_decimal() {
    for n in [0, 1, 9, 10, 99, 100, 4000, 18446744073709551615_u64] {
        assert_eq!(decimal_text(n), n.to_string());
    }
    let mut text = String::from("n=");
    push_decimal(&mut text, 120);
    assert_eq!(text, "n=120");
}

#[test]
fn signed_integers_are_written_in_decimal() {
    for n in [0, 7, -7, 2147483647, -2147483648, i64::MAX, i64::MIN] {
        assert_eq!(signed_decimal_text(n), n.to_string());
    }
}

#[test]
fn lists_of_integers_are_written_in_brackets() {
    for numbers in [vec![], vec![0], vec![1, -2], vec![i64::MIN, 10, i64::MAX]] {
        assert_eq!(list_text(&numbers), format!("{numbers:?}"));
    }
    assert_eq!(list_text(&vec![3, -4, 5]), "[3, -4, 5]");
}

#[test]
fn texts_are_concatenated() {
    assert_eq!(concat3("a", "|", "b"), "a|b");
}

#[test]
fn texts_are_ordered_by_code_point() {
    let texts = ["", "a", "ab", "b", "\u{e4}", "\u{ff5e}", "\u{10000}"];
    for a in texts {
        for b in texts {
            let expected = match a.cmp(b) {
                std::cmp::Ordering::Less => matches!(compare_text(a, b), Order::Less),
                std::cmp::Ordering::Equal => matches!(compare_text(a, b), Order::Equal),
                std::cmp::Ordering::Greater => matches!(compare_text(a, b), Order::Greater),
            };
            assert!(expected, "{a:?} {b:?}");
            assert_eq!(same_text(a, b), a == b);
        }
    }
}

#[test]
fn sorted_map_keeps_the_first_value_and_lists_keys_in_order() {
    let mut map: SortedMap<u8> = SortedMap::new();
    assert!(map.insert_new("b".to_string(), 1));
    assert!(map.insert_new("a".to_string(), 2));
    assert!(!map.insert_new("b".to_string(), 3));
    assert!(map.insert_new("c".to_string(), 4));
    assert!(map.contains_key("a"));
    assert!(!map.contains_key("d"));
    assert_eq!(map.get("b"), Some(&1));
    assert_eq!(map.get("d"), None);
    assert_eq!(map.into_keys(), vec!["a", "b", "c"]);

    let mut map: SortedMap<u8> = SortedMap::new();
    map.insert_new("b".to_string(), 1);
    map.insert_new("a".to_string(), 2);
    assert_eq!(map.into_values(), vec![2, 1]);

    let mut map: SortedMap<u8> = SortedMap::new();
    map.insert_new("b".to_string(), 1);
    map.clear();
    assert!(!map.contains_key("b"));
}
