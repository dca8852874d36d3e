use negotiation::{EncodingNegotiation, Error, Negotiator};

fn negotiate<'a>(supported: Vec<&'a str>, header: &str) -> Result<Option<&'a str>, Error> {
    let negotiator = Negotiator::<EncodingNegotiation, _>::new(supported).unwrap();
    negotiator.negotiate(header).map(|v| v.copied())
}

#[test]
fn encoding_new() {
    assert_eq!(
        Negotiator::<EncodingNegotiation, _>::new(vec!["gzip"]).unwrap().supported(),
        &vec!["gzip".to_owned()]
    );
    assert_eq!(
        Negotiator::<EncodingNegotiation, _>::new(vec!["gzip;q=1"]).unwrap_err(),
        Error::QualityNotAllowed
    );
    assert_eq!(
        Negotiator::<EncodingNegotiation, _>::new(vec!["gzip;type=2"]).unwrap_err(),
        Error::ParamsNotAllowed
    );
    assert_eq!(
        Negotiator::<EncodingNegotiation, _>::new(vec!["gzip;q=1;type=2"]).unwrap_err(),
        Error::ParamsNotAllowed
    );
    assert_eq!(
        Negotiator::<EncodingNegotiation, _>::new(vec!["*"]).unwrap_err(),
        Error::InvalidWildcard
    );
}

#[test]
fn encoding_negotiate() {
    assert!(negotiate(vec!["gzip"], "compress").unwrap().is_none());
    assert_eq!(negotiate(vec!["gzip"], "compress, gzip").unwrap(), Some("gzip"));
    assert_eq!(negotiate(vec!["gzip", "compress"], "compress, gzip").unwrap(), Some("compress"));
    assert_eq!(
        negotiate(vec!["gzip", "compress"], "compress; q=1, gzip").unwrap(),
        Some("compress")
    );
    assert_eq!(negotiate(vec!["gzip", "compress"], "compress; q=0.9, gzip").unwrap(), Some("gzip"));
    assert_eq!(
        negotiate(vec!["gzip", "compress"], "compress; q=0.8, gzip; q=0.9").unwrap(),
        Some("gzip")
    );
}

#[test]
fn encoding_wildcard_matches_first_supported() {
    assert_eq!(negotiate(vec!["br", "gzip"], "*").unwrap(), Some("br"));
    assert_eq!(negotiate(vec!["br", "gzip"], "gzip;q=0.5, *;q=0.4").unwrap(), Some("gzip"));
}

#[test]
fn encoding_entry_takes_only_q() {
    assert_eq!(negotiate(vec!["gzip"], "gzip;level=1").unwrap_err(), Error::ParamsNotAllowed);
    assert_eq!(negotiate(vec!["gzip"], "gzip;q=0.5;x=1").unwrap_err(), Error::ParamsNotAllowed);
    assert_eq!(negotiate(vec!["gzip"], "gzip;q").unwrap_err(), Error::InvalidHeader);
    assert_eq!(negotiate(vec!["gzip"], "gzip;q=high").unwrap_err(), Error::InvalidQuality);
    assert_eq!(negotiate(vec!["gzip"], "gzip, ").unwrap_err(), Error::InvalidHeader);
}

#[test]
fn supported_encoding_with_quality_is_refused_as_quality() {
    for raw in ["gzip;q=1", "gzip; q=0.5", "gzip;q =1"] {
        assert_eq!(
            Negotiator::<EncodingNegotiation, _>::new(vec![raw]).unwrap_err(),
            Error::QualityNotAllowed,
            "{}",
            raw
        );
    }
    for raw in ["gzip;", "gzip;q", "gzip;qq=1", "gzip;q=1;", "gzip;x=1;q=1"] {
        assert_eq!(
            Negotiator::<EncodingNegotiation, _>::new(vec![raw]).unwrap_err(),
            Error::ParamsNotAllowed,
            "{}",
            raw
        );
    }
}
