use cluster_node::{EntityId, ParseError};

#[test]
fn format_parse_round_trip() {
    let samples = vec![
        EntityId::Client(0),
        EntityId::Client(1),
        EntityId::Client(42),
        EntityId::Node(0),
        EntityId::Node(7),
        EntityId::Node(usize::MAX),
    ];
    for id in samples {
        let text = id.format();
        assert_eq!(EntityId::parse(&text), Ok(id));
    }
}

#[test]
fn format_is_canonical() {
    assert_eq!(EntityId::Client(42).format(), "c42");
    assert_eq!(EntityId::Node(0).format(), "n0");
    assert_eq!(EntityId::Node(107).format(), "n107");
}

#[test]
fn parse_rejects_bad_identifiers() {
    assert_eq!(EntityId::parse(""), Err(ParseError::TooShort));
    assert_eq!(EntityId::parse("c"), Err(ParseError::TooShort));
    assert_eq!(EntityId::parse("x1"), Err(ParseError::UnknownPrefix));
    assert_eq!(EntityId::parse("c-1"), Err(ParseError::InvalidIndex));
    assert_eq!(EntityId::parse("c+1"), Err(ParseError::InvalidIndex));
    assert_eq!(EntityId::parse("n1x"), Err(ParseError::InvalidIndex));
    assert_eq!(
        EntityId::parse("c99999999999999999999999999999999"),
        Err(ParseError::InvalidIndex)
    );
}

#[test]
fn parse_accepts_leading_zeroes() {
    assert_eq!(EntityId::parse("n007"), Ok(EntityId::Node(7)));
}

#[test]
fn ordering_follows_variant_then_index() {
    assert!(EntityId::Client(1) < EntityId::Client(2));
    assert!(EntityId::Client(9) < EntityId::Node(0));
    assert!(EntityId::Node(3) > EntityId::Node(2));
    assert!(EntityId::Node(4) >= EntityId::Node(4));
    assert_eq!(
        EntityId::Client(5).partial_cmp(&EntityId::Client(5)),
        Some(std::cmp::Ordering::Equal)
    );
}

#[test]
fn numeric_index_conversion() {
    assert_eq!(u64::from(EntityId::Client(9)), 9);
    assert_eq!(u64::from(EntityId::Node(3)), 3);
}
