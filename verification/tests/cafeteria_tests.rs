use puzzles::cafeteria::classify;
use puzzles::cafeteria::serve_orders;
use puzzles::cafeteria::str_contains;
use puzzles::cafeteria::Category;

fn orders(texts: &[&str]) -> Vec<String> {
    texts.iter().map(|t| t.to_string()).collect()
}

#[test]
fn classify_each_keyword() {
    assert_eq!(classify("caesar salad"), Category::Salad);
    assert_eq!(classify("reuben sandwich"), Category::Sandwich);
    assert_eq!(classify("bacon burger"), Category::Burger);
    assert_eq!(classify("polish dog"), Category::Miscellaneous);
    assert_eq!(classify("onion soup"), Category::Miscellaneous);
}

#[test]
fn classify_priority_order() {
    // salad wins over sandwich and burger, sandwich over burger
    assert_eq!(classify("burger and a side salad"), Category::Salad);
    assert_eq!(classify("burger in a sandwich"), Category::Sandwich);
}

#[test]
fn classify_is_case_sensitive() {
    assert_eq!(classify("Caesar Salad"), Category::Miscellaneous);
}

#[test]
fn containment_edges() {
    assert!(str_contains("abc", ""));
    assert!(str_contains("", ""));
    assert!(!str_contains("", "abc"));
    assert!(str_contains("abcd", "bc"));
    assert!(str_contains("abcd", "abcd"));
    assert!(!str_contains("abcd", "bd"));
    assert!(!str_contains("ab", "abc"));
}

#[test]
fn cafeteria_scenario() {
    let menu = orders(&["polish dog", "caesar salad", "onion soup", "reuben sandwich"]);
    let report = serve_orders(menu, 2, &vec![]);
    assert_eq!(report.results.len(), 4);
    assert_eq!(report.failures, 0);
    assert!(report.leftover.is_empty());
    let count = |c: Category| report.results.iter().filter(|r| **r == c).count();
    assert_eq!(count(Category::Miscellaneous), 2);
    assert_eq!(count(Category::Salad), 1);
    assert_eq!(count(Category::Sandwich), 1);
    assert_eq!(count(Category::Burger), 0);
}

#[test]
fn competing_workers_reorder_results() {
    let menu = orders(&["polish dog", "caesar salad", "onion soup", "reuben sandwich"]);
    // worker 0 pulls the dog, worker 1 pulls the salad and serves it first
    let report = serve_orders(menu, 2, &vec![0, 1, 1, 0]);
    assert_eq!(
        report.results,
        vec![
            Category::Salad,
            Category::Miscellaneous,
            Category::Miscellaneous,
            Category::Sandwich,
        ]
    );
}

#[test]
fn zero_orders_drain_immediately() {
    let report = serve_orders(Vec::new(), 3, &vec![]);
    assert!(report.results.is_empty());
    assert_eq!(report.failures, 0);
    assert!(report.leftover.is_empty());
}
