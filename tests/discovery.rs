use kvs::discovery::{names_in_order, sort_names};

fn s(x: &str) -> String {
    x.to_string()
}

#[test]
fn names_compare_by_bytes() {
    assert!(names_in_order(&s("a"), &s("b")));
    assert!(!names_in_order(&s("b"), &s("a")));
    assert!(names_in_order(&s("ab"), &s("abc")));
    assert!(!names_in_order(&s("abc"), &s("ab")));
    assert!(names_in_order(&s("same"), &s("same")));
    assert!(names_in_order(&s(""), &s("x")));
    assert!(names_in_order(&s("Z"), &s("a")));
}

#[test]
fn sort_names_orders_segments() {
    let names = vec![s("3.log"), s("10.log"), s("1.log"), s("2.log")];
    let sorted = sort_names(names);
    assert_eq!(sorted, vec![s("1.log"), s("10.log"), s("2.log"), s("3.log")]);
}

#[test]
fn sort_names_timestamps_in_creation_order() {
    let names = vec![
        s("2024-05-01 10:00:00.5 UTC.txt"),
        s("2023-12-31 23:59:59.9 UTC.txt"),
        s("2024-05-01 09:59:59.9 UTC.txt"),
    ];
    let sorted = sort_names(names);
    assert_eq!(
        sorted,
        vec![
            s("2023-12-31 23:59:59.9 UTC.txt"),
            s("2024-05-01 09:59:59.9 UTC.txt"),
            s("2024-05-01 10:00:00.5 UTC.txt"),
        ]
    );
}

#[test]
fn sort_names_empty_and_duplicates() {
    assert!(sort_names(Vec::new()).is_empty());
    let sorted = sort_names(vec![s("b"), s("a"), s("b")]);
    assert_eq!(sorted, vec![s("a"), s("b"), s("b")]);
}
