use sbbarch::{parse_group, parse_names, parse_numbers, ParseOut, ParsedGroup, Robot, RobotName};

#[test]
fn test_parse_numbers() {
    assert_eq!(parse_numbers("123)"), Some(ParseOut::new("", 123..=123)));
    assert_eq!(
        parse_numbers("123) Teabot"),
        Some(ParseOut::new("Teabot", 123..=123))
    );
    assert_eq!(
        parse_numbers("  123  )  Teabot  "),
        Some(ParseOut::new("Teabot  ", 123..=123))
    );
    assert_eq!(parse_numbers("-1)"), Some(ParseOut::new("", -1..=-1)));
    assert_eq!(parse_numbers("1, 2, 3)"), Some(ParseOut::new("", 1..=3)));
    assert_eq!(
        parse_numbers("123-124)"),
        Some(ParseOut::new("", 123..=124))
    );
    assert_eq!(
        parse_numbers("123 - 124)"),
        Some(ParseOut::new("", 123..=124))
    );
    assert_eq!(
        parse_numbers("123 & 4)"),
        Some(ParseOut::new("", 123..=124))
    );
    assert_eq!(
        parse_numbers("123 & 24)"),
        Some(ParseOut::new("", 123..=124))
    );
    assert_eq!(
        parse_numbers("124 & 3)"),
        Some(ParseOut::new("", 123..=124))
    );
    assert_eq!(parse_numbers("8, 7)"), Some(ParseOut::new("", 7..=8)));
    assert_eq!(
        parse_numbers("124-123)"),
        Some(ParseOut::new("", 123..=124))
    );
    assert_eq!(
        parse_numbers("1024 - 1048)"),
        Some(ParseOut::new("", 1024..=1048))
    );
    assert_eq!(
        parse_numbers("1024, 5 & 6)"),
        Some(ParseOut::new("", 1024..=1026))
    );
    assert_eq!(
        parse_numbers("1039, 8 & 40)"),
        Some(ParseOut::new("", 1038..=1040))
    );
    assert_eq!(parse_numbers("123"), None);
    assert_eq!(parse_numbers("Foo baa"), None);
    assert_eq!(
        parse_numbers("2147483646)"),
        Some(ParseOut::new("", 2147483646..=2147483646))
    );
    assert_eq!(
        parse_numbers("2147483647)"),
        Some(ParseOut::new("", 2147483647..=2147483647))
    );
    assert_eq!(parse_numbers("2147483648)"), None);
    assert_eq!(
        parse_numbers("2147483646 - 2147483647)"),
        Some(ParseOut::new("", 2147483646..=2147483647))
    );
    assert_eq!(parse_numbers("2147483646 - 2147483648)"), None);
    assert_eq!(parse_numbers("Hello)"), None);
    assert_eq!(parse_numbers("@foo 123)"), None);
    assert_eq!(parse_numbers("@foo123)"), None);
}

#[test]
fn test_parse_names() {
    assert_eq!(
        parse_names("Teabot. Brings you tea", 1),
        Some(ParseOut::new(
            ". Brings you tea",
            (
                vec![RobotName {
                    prefix: "Tea".into(),
                    suffix: "bot".into(),
                    plural: None
                }],
                false
            )
        ))
    );

    assert_eq!(
        parse_names("Mischiefbots. Oh no!!", 1),
        Some(ParseOut::new(
            ". Oh no!!",
            (
                vec![RobotName {
                    prefix: "Mischief".into(),
                    suffix: "bot".into(),
                    plural: Some("s".into())
                }],
                false
            )
        ))
    );

    assert_eq!(
        parse_names("R.O.B.O.T.S.", 1),
        Some(ParseOut::new(
            ".",
            (
                vec![RobotName {
                    prefix: "R.O.".into(),
                    suffix: "B.O.T".into(),
                    plural: Some(".S".into())
                }],
                false
            )
        ))
    );

    assert_eq!(
        parse_names("Saltbot and pepperbot.", 1),
        Some(ParseOut::new(
            " and pepperbot.",
            (
                vec![RobotName {
                    prefix: "Salt".into(),
                    suffix: "bot".into(),
                    plural: None
                }],
                false
            )
        ))
    );

    assert_eq!(
        parse_names("Saltbot and pepperbot.", 2),
        Some(ParseOut::new(
            ".",
            (
                vec![
                    RobotName {
                        prefix: "Salt".into(),
                        suffix: "bot".into(),
                        plural: None
                    },
                    RobotName {
                        prefix: "pepper".into(),
                        suffix: "bot".into(),
                        plural: None
                    }
                ],
                false
            )
        ))
    );

    assert_eq!(
        parse_names("Saltbot and pepperbot.", 3),
        Some(ParseOut::new(
            ".",
            (
                vec![
                    RobotName {
                        prefix: "Salt".into(),
                        suffix: "bot".into(),
                        plural: None
                    },
                    RobotName {
                        prefix: "pepper".into(),
                        suffix: "bot".into(),
                        plural: None
                    }
                ],
                false
            )
        ))
    );

    assert_eq!(
        parse_names("Salt- and pepperbots.", 2),
        Some(ParseOut::new(
            ".",
            (
                vec![
                    RobotName {
                        prefix: "Salt".into(),
                        suffix: "bot".into(),
                        plural: Some("s".into())
                    },
                    RobotName {
                        prefix: "pepper".into(),
                        suffix: "bot".into(),
                        plural: Some("s".into())
                    }
                ],
                true
            )
        ))
    );
}

#[test]
fn test_parse_group() {
    assert_eq!(
        parse_group("1207) Transrightsbot. Is just here to let all its trans pals know that they are valid and they are loved! \u{1f3f3}\u{fe0f}\u{200d}\u{26a7}\u{fe0f}\u{2764}\u{fe0f}\u{1f916}"),
        Some(ParsedGroup { robots: vec![Robot { number: 1207, name: RobotName { prefix: "Transrights".into(), suffix: "bot".into(), plural: None } }], body: "Is just here to let all its trans pals know that they are valid and they are loved! \u{1f3f3}\u{fe0f}\u{200d}\u{26a7}\u{fe0f}\u{2764}\u{fe0f}\u{1f916}".into(), cw: None })
    );

    assert_eq!(
        parse_group("558/9) Salt- and Pepperbots. Bring you salt and pepper."),
        Some(ParsedGroup {
            robots: vec![
                Robot {
                    number: 558,
                    name: RobotName {
                        prefix: "Salt".into(),
                        suffix: "bot".into(),
                        plural: None
                    }
                },
                Robot {
                    number: 559,
                    name: RobotName {
                        prefix: "Pepper".into(),
                        suffix: "bot".into(),
                        plural: None
                    }
                }
            ],
            body: "Bring you salt and pepper.".into(),
            cw: None
        })
    );

    assert_eq!(
        parse_group("690 - 692) Marybot, Josephbot and Donkeybot. For complicated tax reasons, Marybot and Josephbot are forced to temporarily relocate to Bethlehem, just as Marybot recieves a mysterious package from Gabrielbot on behalf of Godbot Labs."),
        Some(ParsedGroup { robots: vec![Robot { number: 690, name: RobotName { prefix: "Mary".into(), suffix: "bot".into(), plural: None } }, Robot { number: 691, name: RobotName { prefix: "Joseph".into(), suffix: "bot".into(), plural: None } }, Robot { number: 692, name: RobotName { prefix: "Donkey".into(), suffix: "bot".into(), plural: None } }], body: "For complicated tax reasons, Marybot and Josephbot are forced to temporarily relocate to Bethlehem, just as Marybot recieves a mysterious package from Gabrielbot on behalf of Godbot Labs.".into(), cw: None })
    );

    assert_eq!(
        parse_group("[CN: sexual assault] 651) Believeherbot. Reminds you to believe the testimony of women survivors of sexual assault; reminds you to look at the gendered power structures in place before you dismiss them as unreliable; reminds you that this is the fucking turning point."),
        Some(ParsedGroup { robots: vec![Robot { number: 651, name: RobotName { prefix: "Believeher".into(), suffix: "bot".into(), plural: None } }], body: "Reminds you to believe the testimony of women survivors of sexual assault; reminds you to look at the gendered power structures in place before you dismiss them as unreliable; reminds you that this is the fucking turning point.".into(), cw: Some("sexual assault".into()) })
    );
}
