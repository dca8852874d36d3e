use negotiation::{Error, NegotiatorOwned, NegotiatorRef};

fn negotiate<'a>(header: &str, supported: Vec<&'a str>) -> Result<Option<&'a str>, Error> {
    NegotiatorRef::new(supported).unwrap().negotiate(header)
}

#[test]
fn negotiator_negotiation() {
    // No match.
    assert_eq!(negotiate("text/html", vec!["application/json"]), Ok(None));
    // One to one match.
    assert_eq!(negotiate("text/html", vec!["text/html"]), Ok(Some("text/html")));
    // Multiple to one match.
    assert_eq!(negotiate("application/json, text/html", vec!["text/html"]), Ok(Some("text/html")));
    // One to multiple.
    assert_eq!(
        negotiate("text/html", vec!["application/json", "text/html"]),
        Ok(Some("text/html"))
    );
    // Subtype wildcard.
    assert_eq!(negotiate("text/*", vec!["application/json", "text/html"]), Ok(Some("text/html")));
    // Full wildcard.
    assert_eq!(
        negotiate("*/*", vec!["application/json", "text/html"]),
        Ok(Some("application/json"))
    );
    // Weighted header.
    assert_eq!(
        negotiate("text/html, application/json, application/xml;q=0.9", vec!["application/xml"]),
        Ok(Some("application/xml"))
    );
    // Full wildcard + weighted header.
    assert_eq!(
        negotiate(
            "text/html, application/xhtml+xml, application/xml;q=0.9, */*;q=0.8",
            vec!["application/json"]
        ),
        Ok(Some("application/json")),
    );
    // Un-ordered weighted header.
    assert_eq!(
        negotiate("text/html;q=0.8, application/json;q=0.9", vec!["text/html", "application/json"]),
        Ok(Some("application/json")),
    );
}

#[test]
fn accept_negotiation() {
    // No match.
    assert_eq!(negotiate("text/html", vec!["application/json"]), Ok(None));
    // One to one match.
    assert_eq!(negotiate("text/html", vec!["text/html"]), Ok(Some("text/html")));
    // Multiple to one match.
    assert_eq!(negotiate("application/json, text/html", vec!["text/html"]), Ok(Some("text/html")));
    // One to multiple.
    assert_eq!(
        negotiate("text/html", vec!["application/json", "text/html"]),
        Ok(Some("text/html"))
    );
    // Same quality.
    assert_eq!(
        negotiate("text/html, application/json", vec!["text/html", "application/json"]),
        Ok(Some("text/html"))
    );
    // Subtype wildcard.
    assert_eq!(negotiate("text/*", vec!["application/json", "text/html"]), Ok(Some("text/html")));
    // Full wildcard.
    assert_eq!(
        negotiate("*/*", vec!["application/json", "text/html"]),
        Ok(Some("application/json"))
    );
    // Weighted header.
    assert_eq!(
        negotiate("text/html, application/json, application/xml;q=0.9", vec!["application/xml"]),
        Ok(Some("application/xml"))
    );
    // Full wildcard + weighted header.
    assert_eq!(
        negotiate(
            "text/html, application/xhtml+xml, application/xml;q=0.9, */*;q=0.8",
            vec!["application/json"]
        ),
        Ok(Some("application/json")),
    );
    // Un-ordered weighted header.
    assert_eq!(
        negotiate("text/html;q=0.8, application/json;q=0.9", vec!["text/html", "application/json"]),
        Ok(Some("application/json")),
    );
}

#[test]
fn owned() {
    assert_eq!(
        NegotiatorOwned::new(vec!["text/html"]).unwrap().negotiate("text/html"),
        Ok(Some("text/html"))
    );
}

#[test]
fn negotiator_owned_errors() {
    assert_eq!(NegotiatorOwned::new(vec!["text"]).unwrap_err(), Error::MissingSeparator('/'));
    assert_eq!(
        NegotiatorOwned::new(vec!["text/html/whatever"]).unwrap_err(),
        Error::TooManyParts
    );
    assert_eq!(NegotiatorOwned::new(vec!["*/html"]).unwrap_err(), Error::InvalidWildcard);
}

#[test]
fn referenced() {
    assert_eq!(
        NegotiatorRef::new(vec!["text/html"]).unwrap().negotiate("text/html"),
        Ok(Some("text/html"))
    );
}

#[test]
fn negotiator_ref_errors() {
    assert_eq!(NegotiatorRef::new(vec!["text"]).unwrap_err(), Error::MissingSeparator('/'));
    assert_eq!(NegotiatorRef::new(vec!["text/html/whatever"]).unwrap_err(), Error::TooManyParts);
    assert_eq!(NegotiatorRef::new(vec!["*/html"]).unwrap_err(), Error::InvalidWildcard);
}
