use negotiation::{
    parse_mime, parse_quality_str, parse_sort_header, ContentTypeNegotiation, Error, HeaderEntry,
    MaybeWildcard, MediaRange, MediaType, Negotiator, Quality,
};

fn media(main: &str, sub: &str, params: &[(&str, &str)]) -> MediaType {
    MediaType {
        main: main.to_owned(),
        sub: sub.to_owned(),
        params: params.iter().map(|(k, v)| (k.to_string(), v.to_string())).collect(),
    }
}

fn token(t: &str) -> MaybeWildcard<String> {
    MaybeWildcard::from_str(t.to_owned())
}

fn q(text: &str) -> Quality {
    parse_quality_str(text).unwrap()
}

fn entry(main: &str, sub: &str, params: &[(&str, &str)], quality: &str) -> HeaderEntry<MediaRange> {
    HeaderEntry {
        key: MediaRange {
            main: token(main),
            sub: token(sub),
            params: params.iter().map(|(k, v)| (k.to_string(), v.to_string())).collect(),
        },
        quality: q(quality),
    }
}

fn negotiate<'a>(supported: Vec<&'a str>, header: &str) -> Result<Option<&'a str>, Error> {
    let negotiator = Negotiator::<ContentTypeNegotiation, _>::new(supported).unwrap();
    negotiator.negotiate(header).map(|v| v.copied())
}

#[test]
fn content_type_new() {
    let negotiator = Negotiator::<ContentTypeNegotiation, _>::new(vec!["text/plain"]).unwrap();
    assert_eq!(negotiator.supported(), &vec![media("text", "plain", &[])]);
    assert_eq!(negotiator.unwrap_first(), &"text/plain");

    assert_eq!(
        Negotiator::<ContentTypeNegotiation, _>::new(vec!["text/plain;q=1"]).unwrap_err(),
        Error::QualityNotAllowed
    )
}

#[test]
fn accept_new() {
    let negotiator = Negotiator::<ContentTypeNegotiation, _>::new(vec!["text/plain"]).unwrap();
    assert_eq!(negotiator.supported(), &vec![media("text", "plain", &[])]);
    assert_eq!(negotiator.unwrap_first(), &"text/plain");
    assert_eq!(negotiator.len(), 1);

    assert_eq!(
        Negotiator::<ContentTypeNegotiation, _>::new(vec!["text/plain;q=1"]).unwrap_err(),
        Error::QualityNotAllowed
    )
}

#[test]
fn content_type_parse() {
    // Basic.
    assert_eq!(parse_mime("text/plain", false).unwrap(), media("text", "plain", &[]));

    // With one param.
    assert_eq!(
        parse_mime("text/html;level=1", false).unwrap(),
        media("text", "html", &[("level", "1")])
    );

    // Param with space.
    assert_eq!(
        parse_mime("text/html; level=1", false).unwrap(),
        media("text", "html", &[("level", "1")])
    );

    // Multiple params.
    assert_eq!(
        parse_mime("text/html;level=1;origin=EU", false).unwrap(),
        media("text", "html", &[("level", "1"), ("origin", "EU")])
    );

    assert_eq!(parse_mime("text/plain;q=1", false).unwrap_err(), Error::QualityNotAllowed);
    assert_eq!(parse_mime("*/plain", true).unwrap_err(), Error::InvalidWildcard);
    assert_eq!(parse_mime("text/*", false).unwrap_err(), Error::InvalidWildcard);
    assert!(parse_mime("text/*", true).is_ok());
    assert_eq!(parse_mime("text/plain/extra", true).unwrap_err(), Error::TooManyParts);
}

#[test]
fn mod_parse() {
    // Basic.
    assert_eq!(parse_mime("text/plain", true).unwrap(), media("text", "plain", &[]));

    // With one param.
    assert_eq!(
        parse_mime("text/html;level=1", true).unwrap(),
        media("text", "html", &[("level", "1")])
    );

    // Param with space.
    assert_eq!(
        parse_mime("text/html; level=1", true).unwrap(),
        media("text", "html", &[("level", "1")])
    );

    // Multiple params.
    assert_eq!(
        parse_mime("text/html;level=1;origin=EU", true).unwrap(),
        media("text", "html", &[("level", "1"), ("origin", "EU")])
    );
}

fn check_parse_sort() {
    let expected = vec![
        entry("text", "plain", &[("format", "flowed")], "1"),
        entry("text", "plain", &[], "1"),
        entry("text", "*", &[], "1"),
        entry("*", "*", &[], "1"),
    ];
    assert_eq!(
        parse_sort_header::<ContentTypeNegotiation>(
            "text/*, text/plain, text/plain;format=flowed, */*"
        )
        .unwrap(),
        expected
    );
    assert_eq!(
        parse_sort_header::<ContentTypeNegotiation>(
            "text/*, text/plain, text/plain;format=flowed, */*"
        )
        .unwrap(),
        expected
    );
    assert_eq!(
        parse_sort_header::<ContentTypeNegotiation>(
            "text/plain;q=0.2,text/not-plain;q=0.4,text/hybrid"
        )
        .unwrap(),
        vec![
            entry("text", "hybrid", &[], "1"),
            entry("text", "not-plain", &[], "0.4"),
            entry("text", "plain", &[], "0.2"),
        ]
    );
}

#[test]
fn content_type_parse_sort() {
    check_parse_sort();
}

#[test]
fn accept_parse_sort() {
    check_parse_sort();
}

fn check_negotiate() {
    assert!(negotiate(vec!["application/json"], "text/html").unwrap().is_none());
    assert_eq!(
        negotiate(vec!["application/json"], "application/json").unwrap(),
        Some("application/json")
    );
    assert_eq!(
        negotiate(vec!["text/plain", "application/json"], "application/json").unwrap(),
        Some("application/json")
    );
    assert_eq!(
        negotiate(vec!["text/plain", "application/json"], "audio/mp3, application/json").unwrap(),
        Some("application/json")
    );
    assert_eq!(
        negotiate(vec!["application/json", "text/plain"], "text/plain, application/json").unwrap(),
        Some("text/plain")
    );
    assert_eq!(
        negotiate(
            vec![
                "text/html;level=3",
                "text/html;level=2",
                "image/jpeg",
                "text/plain",
                "text/html",
                "text/html;level=1"
            ],
            "text/*;q=0.3, text/html;q=0.7, text/html;level=1, text/html;level=2;q=0.4, */*;q=0.5"
        )
        .unwrap(),
        Some("text/html;level=1")
    );
    assert_eq!(
        negotiate(
            vec!["text/plain", "application/json"],
            "text/html,application/xhtml+xml,application/xml;q=0.9,*/*;q=0.8"
        )
        .unwrap(),
        Some("text/plain")
    );
    assert_eq!(
        negotiate(vec!["application/json", "text/plain"], "text/plain;q=0.9, */*").unwrap(),
        Some("application/json")
    );
}

#[test]
fn content_type_negotiate() {
    check_negotiate();
}

#[test]
fn accept_negotiate() {
    check_negotiate();
}

#[test]
fn negotiate_owned() {
    let it = "text/html".to_owned();
    let negotiator = Negotiator::<ContentTypeNegotiation, _>::new(vec![it.as_str()]).unwrap();
    assert_eq!(negotiator.negotiate("text/html"), Ok(Some(&"text/html")));
}

#[test]
fn parameters_sort_before_fewer_parameters() {
    assert_eq!(
        parse_sort_header::<ContentTypeNegotiation>("text/html, text/html;a=1;b=2, text/html;a=1")
            .unwrap(),
        vec![
            entry("text", "html", &[("a", "1"), ("b", "2")], "1"),
            entry("text", "html", &[("a", "1")], "1"),
            entry("text", "html", &[], "1"),
        ]
    );
}

#[test]
fn quality_order() {
    let sorted = parse_sort_header::<ContentTypeNegotiation>(
        "a/b;q=0.5, c/d;q=1.000, e/f;q=0.123, g/h;q=0, i/j;q=0.05",
    )
    .unwrap();
    let qualities: Vec<Quality> = sorted.iter().map(|e| e.quality.clone()).collect();
    assert_eq!(qualities, vec![q("1"), q("0.5"), q("0.123"), q("0.05"), q("0")]);
}

#[test]
fn quality_values_beyond_the_unit_range_are_ordered() {
    let sorted = parse_sort_header::<ContentTypeNegotiation>(
        "a/a;q=0.5, b/b;q=2, c/c;q=-0.5, d/d;q=inf, e/e;q=NaN, f/f;q=-inf, g/g;q=-0, h/h;q=0, i/i;q=1e-1, j/j;q=-nan",
    )
    .unwrap();
    let order: Vec<String> = sorted.iter().map(|e| match &e.key.main {
        MaybeWildcard::Specific(s) => s.clone(),
        MaybeWildcard::Wildcard => "*".to_owned(),
    }).collect();
    assert_eq!(order, vec!["e", "d", "b", "a", "i", "h", "g", "c", "f", "j"]);
}

#[test]
fn every_float_text_is_a_quality() {
    for text in [
        "2", "1.5", "0.1234", "-0.5", ".5", "5.", "1e-1", "1E3", "+1", "inf", "-INF", "Infinity",
        "nan", "NaN", "-nan", "1e39", "0.000", "007", "1e99999999999999999999",
    ] {
        let header = format!("text/html;q={}", text);
        assert!(
            parse_sort_header::<ContentTypeNegotiation>(&header).is_ok(),
            "q={}",
            text
        );
    }
}

#[test]
fn text_that_is_no_float_is_refused() {
    for text in [
        "abc", "", " 0.5", ".", "e5", "1e", "1e+", "--1", "0x1", "1_0", "infinit", "1.2.3", "+",
        "nan1",
    ] {
        let header = format!("text/html;q={}", text);
        assert_eq!(
            parse_sort_header::<ContentTypeNegotiation>(&header).unwrap_err(),
            Error::InvalidQuality,
            "q={}",
            text
        );
    }
}

#[test]
fn qualities_agree_with_f32() {
    let texts = [
        "0", "-0", "0.5", "2", "-3", "1e-1", "0.1", "1e2", "99", "inf", "-inf", "nan", "-nan",
        "0.25", ".75", "1.5e1", "-2.5e-3", "abc", "", "1e", ".", "+.5",
    ];
    for a in texts {
        assert_eq!(parse_quality_str(a).is_some(), a.parse::<f32>().is_ok(), "{}", a);
    }
    let parsed: Vec<(&str, f32)> = texts
        .iter()
        .filter_map(|t| t.parse::<f32>().ok().map(|f| (*t, f)))
        .collect();
    for (ta, fa) in &parsed {
        for (tb, fb) in &parsed {
            if fa.total_cmp(fb) != std::cmp::Ordering::Equal {
                let header = format!("x/a;q={}, x/b;q={}", ta, tb);
                let sorted = parse_sort_header::<ContentTypeNegotiation>(&header).unwrap();
                let a_first = sorted[0].quality == q(ta);
                assert_eq!(a_first, fa.total_cmp(fb) == std::cmp::Ordering::Greater, "{} {}", ta, tb);
            }
        }
    }
}

#[test]
fn equal_values_read_alike() {
    assert_eq!(q("0.50"), q(".5"));
    assert_eq!(q("5e-1"), q("0.5"));
    assert_eq!(q("1"), q("1.000"));
    assert_eq!(q("00.0"), q("0"));
}

#[test]
fn later_parameter_replaces_earlier() {
    assert_eq!(
        parse_mime("text/html;a=1;a=2", false).unwrap(),
        media("text", "html", &[("a", "2")])
    );
    assert_eq!(
        negotiate(vec!["text/html;a=2"], "text/html;a=1;a=2").unwrap(),
        Some("text/html;a=2")
    );
}

#[test]
fn parameter_order_does_not_matter() {
    assert_eq!(
        negotiate(vec!["text/html;a=1;b=2"], "text/html;b=2;a=1").unwrap(),
        Some("text/html;a=1;b=2")
    );
}

#[test]
fn header_q_is_not_a_matching_parameter() {
    assert_eq!(
        negotiate(vec!["text/html;level=1"], "text/html;q=0.5;level=1").unwrap(),
        Some("text/html;level=1")
    );
}

#[test]
fn malformed_parameter_is_invalid_header() {
    assert_eq!(negotiate(vec!["text/html"], "text/html;level").unwrap_err(), Error::InvalidHeader);
    assert_eq!(
        Negotiator::<ContentTypeNegotiation, _>::new(vec!["text/html;level"]).unwrap_err(),
        Error::InvalidHeader
    );
}

#[test]
fn empty_entry_is_invalid_header() {
    assert_eq!(negotiate(vec!["text/html"], "").unwrap_err(), Error::InvalidHeader);
    assert_eq!(negotiate(vec!["text/html"], "text/html, ,").unwrap_err(), Error::InvalidHeader);
    assert_eq!(negotiate(vec!["text/html"], ";q=1").unwrap_err(), Error::InvalidHeader);
}

#[test]
fn wildcard_main_type_needs_wildcard_subtype() {
    assert_eq!(negotiate(vec!["text/html"], "*/html").unwrap_err(), Error::InvalidWildcard);
    assert_eq!(
        Negotiator::<ContentTypeNegotiation, _>::new(vec!["text/*"]).unwrap_err(),
        Error::InvalidWildcard
    );
}

#[test]
fn error_anywhere_fails_the_whole_header() {
    assert_eq!(
        negotiate(vec!["text/html"], "text/html, text/plain/x").unwrap_err(),
        Error::TooManyParts
    );
}

#[test]
fn first_invalid_supported_value_fails_construction() {
    assert_eq!(
        Negotiator::<ContentTypeNegotiation, _>::new(vec!["text/html", "text", "a/b/c"])
            .unwrap_err(),
        Error::MissingSeparator('/')
    );
}

#[test]
fn empty_supported_list_never_matches() {
    let negotiator = Negotiator::<ContentTypeNegotiation, &str>::new(vec![]).unwrap();
    assert!(negotiator.is_empty());
    assert_eq!(negotiator.negotiate("*/*"), Ok(None));
}

#[test]
fn owned_strings_can_be_supported() {
    let negotiator = Negotiator::<ContentTypeNegotiation, String>::new(vec![
        "text/html".to_owned(),
        "application/json".to_owned(),
    ])
    .unwrap();
    assert_eq!(
        negotiator.negotiate("application/*").unwrap(),
        Some(&"application/json".to_owned())
    );
}

#[test]
fn wildcard_tokens() {
    assert_eq!(token("*"), MaybeWildcard::Wildcard);
    assert_eq!(token("html"), MaybeWildcard::Specific("html".to_owned()));
    assert!(MaybeWildcard::Wildcard.matches(&"anything".to_owned()));
    assert!(token("html").matches(&"html".to_owned()));
    assert!(!token("html").matches(&"plain".to_owned()));
}

#[test]
fn parameter_order_does_not_change_the_value() {
    assert_eq!(
        parse_mime("text/html;b=2;a=1", false).unwrap(),
        parse_mime("text/html;a=1;b=2", false).unwrap()
    );
    assert_eq!(
        parse_mime("text/html;b=2;a=1;c=3", false).unwrap(),
        media("text", "html", &[("a", "1"), ("b", "2"), ("c", "3")])
    );
}
