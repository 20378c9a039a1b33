use feet::line_injector::{Injection, LineInjector};

fn owned(lines: Vec<&str>) -> Vec<String> {
    lines.into_iter().map(String::from).collect()
}

fn numbered(lines: Vec<(usize, &str)>) -> Vec<(usize, String)> {
    lines.into_iter().map(|(n, l)| (n, l.to_string())).collect()
}

#[test]
fn test_line_injector() {
    let base_lines = vec![
        "the first line",
        "the second line",
        "the third line",
        "the fourth line",
        "the fifth line",
    ];

    let inject_lines = vec![(3, "NEW 3"), (4, "NEW 4"), (10, "NEW 10")];

    let expected_lines = vec![
        "the first line",
        "the second line",
        "the third line",
        "NEW 3",
        "NEW 4",
        "",
        "",
        "",
        "",
        "",
        "NEW 10",
    ];

    let injection = Injection::new(numbered(inject_lines));
    let injector = LineInjector::new(owned(base_lines), injection);

    let collected_lines = injector.collect_lines();

    assert_eq!(collected_lines, expected_lines)
}

#[test]
fn injection_orders_lines_by_number() {
    let mut injection = Injection::new(numbered(vec![(7, "seven"), (2, "two"), (5, "five")]));
    assert_eq!(injection.next_line_num(), Some(2));
    assert_eq!(injection.pop_next_line(), Some("two".to_string()));
    assert_eq!(injection.next_line_num(), Some(5));
    assert_eq!(injection.pop_next_line(), Some("five".to_string()));
    assert_eq!(injection.pop_next_line(), Some("seven".to_string()));
    assert_eq!(injection.next_line_num(), None);
    assert_eq!(injection.pop_next_line(), None);
}

#[test]
fn injection_later_entry_wins_on_equal_numbers() {
    let injection = Injection::new(numbered(vec![(1, "first"), (1, "second")]));
    let out = LineInjector::new(owned(vec!["a", "b", "c"]), injection).collect_lines();
    assert_eq!(out, vec!["a", "second", "c"]);
}

#[test]
fn injector_without_injection_copies_base() {
    let out = LineInjector::new(owned(vec!["a", "b"]), Injection::new(vec![])).collect_lines();
    assert_eq!(out, vec!["a", "b"]);
}

#[test]
fn injector_on_empty_base_pads_from_start() {
    let out = LineInjector::new(vec![], Injection::new(numbered(vec![(2, "x")]))).collect_lines();
    assert_eq!(out, vec!["", "", "x"]);
}

#[test]
fn injector_yields_lines_one_at_a_time() {
    let mut it = LineInjector::new(owned(vec!["a"]), Injection::new(numbered(vec![(0, "z")])));
    assert_eq!(it.next_line(), Some("z".to_string()));
    assert_eq!(it.next_line(), None);
    assert_eq!(it.next_line(), None);
}
