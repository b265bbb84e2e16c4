use common_cache::narrow::Narrow;

#[test]
fn keyword_makes_a_search() {
    let narrow = Narrow::keyword("discrimination tree".to_string());
    assert_eq!(
        narrow,
        Narrow {
            operator: "search".to_string(),
            operand: "discrimination tree".to_string(),
            negated: false
        },
    );
}

#[test]
fn parse_filter() {
    assert_eq!(
        Narrow::parse("stream:lean4"),
        Narrow { operator: "stream".to_string(), operand: "lean4".to_string(), negated: false },
    );
}

#[test]
fn parse_negated_filter() {
    assert_eq!(
        Narrow::parse("-is:read"),
        Narrow { operator: "is".to_string(), operand: "read".to_string(), negated: true },
    );
}

#[test]
fn parse_keyword() {
    assert_eq!(
        Narrow::parse("keyword"),
        Narrow { operator: "search".to_string(), operand: "keyword".to_string(), negated: false },
    );
}

#[test]
fn parse_splits_at_the_first_colon() {
    assert_eq!(
        Narrow::parse("topic:a:b"),
        Narrow { operator: "topic".to_string(), operand: "a:b".to_string(), negated: false },
    );
}

#[test]
fn parse_edge_cases() {
    assert_eq!(
        Narrow::parse(":"),
        Narrow { operator: "".to_string(), operand: "".to_string(), negated: false },
    );
    assert_eq!(
        Narrow::parse("-:x"),
        Narrow { operator: "".to_string(), operand: "x".to_string(), negated: true },
    );
    assert_eq!(
        Narrow::parse(""),
        Narrow { operator: "search".to_string(), operand: "".to_string(), negated: false },
    );
    assert_eq!(
        Narrow::parse("-dash"),
        Narrow { operator: "search".to_string(), operand: "-dash".to_string(), negated: false },
    );
    assert_eq!(
        Narrow::parse("né:ß-ü"),
        Narrow { operator: "né".to_string(), operand: "ß-ü".to_string(), negated: false },
    );
}
