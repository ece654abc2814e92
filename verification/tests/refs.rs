use host_lifecycle::refs::{parse_reference, RefKind};

#[test]
fn parses_the_reference_shapes() {
    assert_eq!(parse_reference("plan/0074").unwrap().number, "0074");
    assert_eq!(parse_reference("call/0045").unwrap().room, "call");
    assert_eq!(parse_reference("plan/0074#write-spec").unwrap().anchor.unwrap(), "write-spec");
    assert_eq!(parse_reference("#17").unwrap().kind, RefKind::Issue);
    assert!(parse_reference("plan/074").is_none(), "three digits is not the register's shape");
    assert!(parse_reference("plan/00741").is_none(), "nor is five");
    assert!(parse_reference("notaroom/0074").is_none());
    assert!(parse_reference("#abc").is_none());
}
