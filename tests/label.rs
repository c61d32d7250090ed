use automata_regex::label::{decimal_string, join_label_list, label_lt, label_of_ids};

#[test]
fn labels_join_ids_in_decimal() {
    assert_eq!(label_of_ids(&vec![1, 2, 5]), "1,2,5".to_string());
    assert_eq!(label_of_ids(&vec![10, 3]), "10,3".to_string());
    assert_eq!(label_of_ids(&vec![]), "".to_string());
    assert_eq!(decimal_string(0), "0".to_string());
    assert_eq!(decimal_string(4096), "4096".to_string());
}

#[test]
fn labels_join_labels() {
    assert_eq!(join_label_list(&vec!["1".to_string(), "3".to_string()]), "1,3".to_string());
}

#[test]
fn labels_order_like_strings() {
    assert!(label_lt(&"10".to_string(), &"2".to_string()));
    assert!(label_lt(&"1".to_string(), &"1,3".to_string()));
    assert!(!label_lt(&"2".to_string(), &"2".to_string()));
}
