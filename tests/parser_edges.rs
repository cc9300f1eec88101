use regex::Regex;

use sbbarch::{numbers_range, parse_cw, parse_group, parse_names, parse_numbers, ParseOut};

#[test]
fn content_warning_forms() {
    let out = parse_cw("[CW: spiders] 12) Foobot");
    assert_eq!(out.output.as_deref(), Some("spiders"));
    assert_eq!(out.remainder, "12) Foobot");

    let out = parse_cw("  (flashing lights)   3) Foobot");
    assert_eq!(out.output.as_deref(), Some("flashing lights"));
    assert_eq!(out.remainder, "3) Foobot");

    let out = parse_cw("[CW:: - spiders] x");
    assert_eq!(out.output.as_deref(), Some("spiders"));
    assert_eq!(out.remainder, "x");
}

#[test]
fn content_warning_absent() {
    for s in ["12) Foobot", "Hello [x]", "(no close", "[x]", ""] {
        let out = parse_cw(s);
        assert_eq!(out.output, None, "{s:?}");
        assert_eq!(out.remainder, s);
    }
}

#[test]
fn numbers_signs_and_separators() {
    assert_eq!(parse_numbers("--5)"), Some(ParseOut::new("", -5..=-5)));
    assert_eq!(parse_numbers("5, -3)"), Some(ParseOut::new("", -3..=5)));
    assert_eq!(parse_numbers("-2147483648)"), None);
    assert_eq!(parse_numbers(")"), None);
    assert_eq!(parse_numbers("-)"), None);
    assert_eq!(parse_numbers("12)) x"), Some(ParseOut::new(") x", 12..=12)));
}

#[test]
fn numbers_range_reads_abbreviations() {
    assert_eq!(numbers_range(&[558, 9]), Some((558, 559)));
    assert_eq!(numbers_range(&[-558, 9]), Some((-559, -558)));
    assert_eq!(numbers_range(&[1039, 8, 40]), Some((1038, 1040)));
    assert_eq!(numbers_range(&[7]), Some((7, 7)));
    assert_eq!(numbers_range(&[]), None);
    assert_eq!(numbers_range(&[2147483647, 99999999]), None);
}

#[test]
fn group_needs_closing_parenthesis() {
    assert_eq!(parse_group("Foo baa"), None);
}

#[test]
fn group_number_overflow_gives_nothing() {
    assert_eq!(parse_group("2147483648)"), None);
    assert_eq!(parse_group("2147483647) Maxbot. Big."), parse_group(" 2147483647)Maxbot. Big."));
    assert_eq!(parse_group("2147483647) Maxbot. Big.").unwrap().robots[0].number, i32::MAX);
}

#[test]
fn group_needs_a_name() {
    assert_eq!(parse_group("12) no names here"), None);
}

#[test]
fn group_is_capped_at_five() {
    let g = parse_group("1-100) Abot Bbot Cbot Dbot Ebot Fbot Gbot. Body").unwrap();
    assert_eq!(g.robots.len(), 5);
    assert_eq!(g.robots[4].number, 5);
    assert_eq!(g.robots[4].name.prefix, "E");
    assert_eq!(g.body, "Fbot Gbot. Body");
}

#[test]
fn group_body_may_be_empty() {
    let g = parse_group("7) Teabot!!!").unwrap();
    assert_eq!(g.body, "");
    assert_eq!(g.robots[0].number, 7);
}

fn regex_names(s: &str, n: usize) -> Vec<(String, String, Option<String>, usize)> {
    let re = Regex::new(r"(\S+)([Bb][^\w\s]*[Oo][^\w\s]*[Tt])([^\w\s]*[Ss])?").unwrap();
    re.captures_iter(s)
        .take(n)
        .map(|c| {
            (
                c[1].to_string(),
                c[2].to_string(),
                c.get(3).map(|m| m.as_str().to_string()),
                c.get(0).unwrap().end(),
            )
        })
        .collect()
}

#[test]
fn names_agree_with_the_bot_pattern() {
    let samples = [
        "Teabot. Brings you tea",
        "R.O.B.O.T.S. and b-o-t-s",
        "xBOTbot yb.o.t",
        "robotbots abbot",
        "B.o.T.s",
        "one two three",
        "Tea\u{e9}bot caf\u{e9}BoTs!",
        "bbot bobot botbot",
        "a-b-o-t-s-s",
    ];
    for s in samples {
        for n in 1..4 {
            let expected = regex_names(s, n);
            let got = parse_names(s, n);
            if expected.is_empty() {
                assert!(got.is_none(), "{s:?}");
                continue;
            }
            if expected.len() < n && !s.starts_with(&expected[0].0) {
                continue;
            }
            let out = got.unwrap();
            let names: Vec<_> = out
                .output
                .0
                .iter()
                .map(|r| (r.prefix.clone(), r.suffix.clone(), r.plural.clone()))
                .collect();
            let want: Vec<_> = expected.iter().map(|e| (e.0.clone(), e.1.clone(), e.2.clone())).collect();
            assert_eq!(names, want, "{s:?} {n}");
            assert_eq!(out.remainder, &s[expected.last().unwrap().3..], "{s:?} {n}");
        }
    }
}

#[test]
fn content_warning_agrees_with_its_pattern() {
    let re = Regex::new(r"^\s*[\[\(](.+:)?\W*(\S[^\]\)]+)[\]\)]").unwrap();
    let samples = [
        "[CW: spiders] 1) x",
        "[CN: sexual assault] 651) Believeherbot.",
        "(a:b:c) rest",
        "[]] x",
        "[: ] x",
        "[x:\ny] z",
        "( - -- ok) 5)",
        "[ab]",
        "[a]",
        "[CW:]x]",
        "(\u{e9}t\u{e9}: chaud) 1)",
    ];
    for s in samples {
        let out = parse_cw(s);
        match re.captures(s) {
            Some(c) => {
                assert_eq!(out.output.as_deref(), Some(c[2].trim()), "{s:?}");
                assert_eq!(out.remainder, s[c.get(0).unwrap().end()..].trim_start(), "{s:?}");
            }
            None => {
                assert_eq!(out.output, None, "{s:?}");
                assert_eq!(out.remainder, s, "{s:?}");
            }
        }
    }
}
