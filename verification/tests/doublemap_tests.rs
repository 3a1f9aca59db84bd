use elizadb::doublemap::DoubleMap;

#[test]
fn forward_and_backward_lookups_agree() {
    let mut map = DoubleMap::new();
    assert_eq!(map.len(), 0);
    map.insert("alpha".to_string(), 1);
    map.insert("beta".to_string(), 2);
    assert_eq!(map.len(), 2);

    assert_eq!(map.get_forward("alpha"), Some(1));
    assert_eq!(map.get_forward("beta"), Some(2));
    assert_eq!(map.get_forward("gamma"), None);

    assert_eq!(map.get_backward(1).map(|s| s.as_str()), Some("alpha"));
    assert_eq!(map.get_backward(2).map(|s| s.as_str()), Some("beta"));
    assert!(map.get_backward(3).is_none());

    assert_eq!(
        map.lefts(),
        vec!["alpha".to_string(), "beta".to_string()]
    );
}

#[test]
fn adopting_entries_checks_both_directions() {
    let ok = DoubleMap::from_entries(vec![
        ("a".to_string(), 1),
        ("b".to_string(), 2),
    ]);
    let map = ok.unwrap();
    assert_eq!(map.get_forward("b"), Some(2));

    // Two ids for one term.
    assert!(DoubleMap::from_entries(vec![
        ("a".to_string(), 1),
        ("a".to_string(), 2),
    ])
    .is_err());
    // Two terms for one id.
    assert!(DoubleMap::from_entries(vec![
        ("a".to_string(), 1),
        ("b".to_string(), 1),
    ])
    .is_err());
}
