use rastd::order::less;

#[test]
fn less_is_strict() {
    assert!(less(&1, &2));
    assert!(!less(&2, &1));
    assert!(!less(&2, &2));
    assert!(less(&"a", &"b"));
    assert!(less(&(1, 2), &(1, 3)));
}
