use crawlee_storage::order::{arrange, stable_order, str_lt, Descending};

#[test]
fn sorting_is_stable() {
    let keys: Vec<u64> = vec![3, 1, 2, 1, 3, 0];
    assert_eq!(stable_order(&keys), [5, 1, 3, 2, 0, 4]);
    let down: Vec<Descending> = [3, 1, 2, 1, 3].iter().map(|n| Descending(*n)).collect();
    assert_eq!(stable_order(&down), [0, 4, 2, 1, 3]);
    let texts: Vec<String> = ["b", "", "ab", "a"].iter().map(|s| s.to_string()).collect();
    let order = stable_order(&texts);
    assert_eq!(arrange(texts, &order), ["", "a", "ab", "b"]);
    let none: Vec<i64> = Vec::new();
    assert!(stable_order(&none).is_empty());
}

#[test]
fn text_is_ordered_as_std_orders_it() {
    let words = ["", "a", "ab", "b", "é", "z", "日", "\u{1F600}", "a\u{0}"];
    for a in words {
        for b in words {
            assert_eq!(str_lt(a, b), a < b, "{a:?} {b:?}");
        }
    }
}
