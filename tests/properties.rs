use negotiation::{ContentTypeNegotiation, EncodingNegotiation, Error, Negotiator};

fn media<'a>(supported: &[&'a str], header: &str) -> Result<Option<&'a str>, Error> {
    let negotiator = Negotiator::<ContentTypeNegotiation, _>::new(supported.to_vec()).unwrap();
    negotiator.negotiate(header).map(|v| v.copied())
}

#[test]
fn verbatim_entry_is_chosen() {
    let supported = ["text/html", "application/json;charset=utf-8", "image/png"];
    for s in supported {
        assert_eq!(media(&supported, s), Ok(Some(s)));
    }
}

#[test]
fn full_wildcard_takes_first_registered() {
    assert_eq!(media(&["image/png", "text/html"], "*/*"), Ok(Some("image/png")));
    let negotiator = Negotiator::<EncodingNegotiation, _>::new(vec!["br", "gzip"]).unwrap();
    assert_eq!(negotiator.negotiate("*"), Ok(Some(&"br")));
}

#[test]
fn full_wildcard_skips_parameterised_types() {
    assert_eq!(
        media(&["text/html;level=1", "text/plain"], "*/*"),
        Ok(Some("text/plain"))
    );
    assert_eq!(media(&["text/html;level=1"], "*/*"), Ok(None));
}

#[test]
fn higher_quality_wins() {
    assert_eq!(
        media(&["text/html", "application/json"], "text/html;q=0.8, application/json;q=0.9"),
        Ok(Some("application/json"))
    );
}

#[test]
fn exact_match_beats_wildcards() {
    assert_eq!(
        media(&["text/html;level=1"], "text/html;level=1, text/*;q=0.3, */*;q=0.5"),
        Ok(Some("text/html;level=1"))
    );
}

#[test]
fn specific_subtype_beats_subtype_wildcard_of_equal_quality() {
    assert_eq!(
        media(&["text/plain", "text/html"], "text/*, text/html"),
        Ok(Some("text/html"))
    );
}

#[test]
fn parameters_must_be_equal() {
    assert_eq!(media(&["text/plain"], "text/plain;charset=utf-8"), Ok(None));
    assert_eq!(media(&["text/plain;charset=utf-8"], "text/plain"), Ok(None));
}

#[test]
fn no_match_gives_none() {
    assert_eq!(media(&["application/json"], "text/html"), Ok(None));
}

#[test]
fn header_order_then_registration_order() {
    assert_eq!(
        media(&["application/json", "text/plain"], "text/plain, application/json"),
        Ok(Some("text/plain"))
    );
    assert_eq!(media(&["application/json", "text/plain"], "*/*"), Ok(Some("application/json")));
}

#[test]
fn negotiation_is_repeatable() {
    let supported = vec!["text/html", "application/json", "text/plain;format=flowed"];
    let header = "text/*;q=0.5, application/json;q=0.5, text/plain;format=flowed;q=0.5";
    let first = Negotiator::<ContentTypeNegotiation, _>::new(supported.clone()).unwrap();
    let second = Negotiator::<ContentTypeNegotiation, _>::new(supported).unwrap();
    assert_eq!(first.negotiate(header), second.negotiate(header));
    assert_eq!(first.negotiate(header), first.negotiate(header));
    assert_eq!(first.negotiate(header), Ok(Some(&"text/plain;format=flowed")));
}

#[test]
fn malformed_header_gives_its_error() {
    assert_eq!(media(&["text/html"], "text"), Err(Error::MissingSeparator('/')));
    assert_eq!(media(&[], "text"), Err(Error::MissingSeparator('/')));
    assert_eq!(media(&["text/html"], "text/html;q=abc"), Err(Error::InvalidQuality));
}

#[test]
fn verbatim_encoding_and_language_are_chosen() {
    let encodings = Negotiator::<EncodingNegotiation, _>::new(vec!["gzip", "br", "identity"]).unwrap();
    for e in ["gzip", "br", "identity"] {
        assert_eq!(encodings.negotiate(e), Ok(Some(&e)));
    }
    let languages =
        Negotiator::<negotiation::LanguageNegotiation, _>::new(vec!["en-US", "en-GB", "fr-FR"])
            .unwrap();
    for l in ["en-US", "en-GB", "fr-FR"] {
        assert_eq!(languages.negotiate(l), Ok(Some(&l)));
    }
}

#[test]
fn equal_keys_give_the_first_registered() {
    assert_eq!(media(&["text/html; a=1", "text/html;a=1"], "text/html;a=1"), Ok(Some("text/html; a=1")));
}

#[test]
fn verbatim_entry_among_unmatched_entries_is_chosen() {
    let supported = ["text/html", "application/json;charset=utf-8", "image/png"];
    assert_eq!(
        media(&supported, "audio/ogg;q=1, application/json;charset=utf-8, video/*"),
        Ok(Some("application/json;charset=utf-8"))
    );
}
