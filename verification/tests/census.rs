use nationstates::census::Census;

#[test]
fn census_is_one_value() {
    assert_eq!(Census, Census);
    let copy = Census;
    assert_eq!(format!("{:?}", copy), "Census");
}
