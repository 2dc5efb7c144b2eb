use knipsa::offset::{EndType, JoinType};

#[test]
fn style_codes_round_trip() {
    for join in [JoinType::Square, JoinType::Bevel, JoinType::Round, JoinType::Miter] {
        assert_eq!(JoinType::from_code(join.code()), Some(join));
    }
    for end in [EndType::Polygon, EndType::Joined, EndType::Butt, EndType::Square, EndType::Round] {
        assert_eq!(EndType::from_code(end.code()), Some(end));
    }
    assert_eq!(JoinType::from_code(4), None);
    assert_eq!(EndType::from_code(5), None);
}
