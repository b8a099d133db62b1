use tool::type_of;

#[test]
fn test_type_of_primitives() {
    assert_eq!(type_of(&3i64), "i64");
    assert_eq!(type_of(&3usize), "usize");
    assert_eq!(type_of(&true), "bool");
}
