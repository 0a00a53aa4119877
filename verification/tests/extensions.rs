use mdlint::VecExt;

#[test]
fn empty_list_becomes_none() {
    assert_eq!(Vec::<u32>::new().to_option(), None);
}

#[test]
fn filled_list_is_kept() {
    assert_eq!(vec![3, 1, 2].to_option(), Some(vec![3, 1, 2]));
    assert_eq!(vec!["finding".to_string()].to_option(), Some(vec!["finding".to_string()]));
}
