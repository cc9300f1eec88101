use std::cmp::Ordering;

use sbbarch::{Ident, IdentBuf, ParseIdentError, Robot, RobotName};

#[test]
fn ident_normalises_prefix() {
    let id = Ident::new(1, 2, "Tea Bot!").unwrap();
    assert_eq!(id.decode(), (1, 2, "teabot"));
    assert_eq!(id.name(), "teabot");
    assert_eq!(id.season(), 1);
    assert_eq!(id.num(), 2);
}

#[test]
fn ident_round_trip_gives_normalised_name() {
    let id = Ident::new(3, -7, "\u{c9}COLE").unwrap();
    assert_eq!(id.decode(), (3, -7, "\u{e9}cole"));
}

#[test]
fn ident_composes_before_filtering() {
    let id = Ident::new(0, 0, "e\u{301}").unwrap();
    assert_eq!(id.name(), "\u{e9}");
}

#[test]
fn ident_rejects_empty_names() {
    assert!(Ident::new(0, 0, "").is_err());
    assert!(Ident::new(0, 0, "!!! ...").is_err());
    assert_eq!(Ident::new(0, 0, "-").unwrap_err().message(), "invalid robot id");
}

#[test]
fn ident_truncates_at_whole_characters() {
    let id = Ident::new(0, 0, &"\u{e9}".repeat(9)).unwrap();
    assert_eq!(id.name(), "\u{e9}".repeat(8));
    assert_eq!(id.name().len(), 16);

    let id = Ident::new(0, 0, &format!("{}\u{e9}", "a".repeat(15))).unwrap();
    assert_eq!(id.name(), "a".repeat(15));

    let id = Ident::new(0, 0, &"\u{1f600}a".repeat(10)).unwrap();
    assert_eq!(id.name(), "a".repeat(10));

    let id = Ident::new(0, 0, &"\u{65e5}".repeat(6)).unwrap();
    assert_eq!(id.name(), "\u{65e5}".repeat(5));
    assert_eq!(id.name().len(), 15);

    let id = Ident::new(0, 0, &"x".repeat(40)).unwrap();
    assert_eq!(id.name(), "x".repeat(16));
}

#[test]
fn ident_order_goes_by_decoded_fields() {
    let a = Ident::new(1, 5, "b").unwrap();
    let b = Ident::new(1, 5, "ba").unwrap();
    let c = Ident::new(2, -100, "a").unwrap();
    let d = Ident::new(1, -3, "z").unwrap();
    assert_eq!(a.cmp(&b), Ordering::Less);
    assert_eq!(b.cmp(&a), Ordering::Greater);
    assert_eq!(a.cmp(&c), Ordering::Less);
    assert_eq!(d.cmp(&a), Ordering::Less);
    assert!(a < b);
    assert!(c > b);
    assert_eq!(a.partial_cmp(&a.clone()), Some(Ordering::Equal));
}

#[test]
fn ident_equality_goes_by_decoded_fields() {
    let long = Ident::new(1, 1, "abcdefgh").unwrap();
    let short = Ident::new(1, 1, "Tea!").unwrap();
    assert_eq!(short, Ident::new(1, 1, "tea").unwrap());
    assert_ne!(short, long);
    assert_ne!(short, Ident::new(2, 1, "tea").unwrap());
    assert_ne!(short, Ident::new(1, 2, "tea").unwrap());
}

#[test]
fn ident_buf_text_round_trip() {
    let id = IdentBuf::new(-42, "tea/pot".to_string());
    let text = id.to_text();
    assert_eq!(text, "-42/tea/pot");
    let back = IdentBuf::from_str(&text).unwrap();
    assert_eq!(back, id);
    assert_eq!(IdentBuf::new(i32::MIN, "x".into()).to_text(), "-2147483648/x");
    assert_eq!(IdentBuf::new(0, String::new()).to_text(), "0/");
}

#[test]
fn ident_buf_parse_cases() {
    let id = IdentBuf::from_str("12/teabot").unwrap();
    assert_eq!((id.number, id.name.as_str()), (12, "teabot"));
    let id = IdentBuf::from_str("+7/").unwrap();
    assert_eq!((id.number, id.name.as_str()), (7, ""));
    assert!(matches!(IdentBuf::from_str("teabot"), Err(ParseIdentError::MissingSlash)));
    assert!(matches!(IdentBuf::from_str("x/teabot"), Err(ParseIdentError::InvalidNumber(_))));
    assert!(matches!(IdentBuf::from_str("/teabot"), Err(ParseIdentError::InvalidNumber(_))));
    assert!(matches!(IdentBuf::from_str("2147483648/a"), Err(ParseIdentError::InvalidNumber(_))));
}

#[test]
fn robot_ident_transliterates_prefix() {
    let robot = Robot {
        number: 5,
        name: RobotName { prefix: "Caf\u{e9}-Cr\u{e8}me".into(), suffix: "bot".into(), plural: None },
    };
    let id = robot.ident();
    assert_eq!(id.number, 5);
    assert_eq!(id.name, "cafecreme");
}

#[test]
fn robot_full_name_joins_parts() {
    let name = RobotName { prefix: "Mischief".into(), suffix: "bot".into(), plural: Some("s".into()) };
    assert_eq!(name.full_name(), "Mischiefbots");
    let name = RobotName { prefix: "R.O.".into(), suffix: "B.O.T".into(), plural: None };
    assert_eq!(name.full_name(), "R.O.B.O.T");
}

#[test]
fn ident_parse_error_messages() {
    assert_eq!(IdentBuf::from_str("abc").unwrap_err().message(), "missing slash separator");
    assert_eq!(
        IdentBuf::from_str("x/abc").unwrap_err().message(),
        "invalid digit found in string"
    );
}
