use negotiation::{Error, LanguageNegotiation, LanguageTag, Negotiator};

fn negotiate<'a>(supported: Vec<&'a str>, header: &str) -> Result<Option<&'a str>, Error> {
    let negotiator = Negotiator::<LanguageNegotiation, _>::new(supported).unwrap();
    negotiator.negotiate(header).map(|v| v.copied())
}

#[test]
fn language_new() {
    assert_eq!(
        Negotiator::<LanguageNegotiation, _>::new(vec!["en-US"]).unwrap().supported(),
        &vec![LanguageTag { primary: "en".to_owned(), region: "US".to_owned() }]
    );
    assert_eq!(
        Negotiator::<LanguageNegotiation, _>::new(vec!["en"]).unwrap_err(),
        Error::MissingSeparator('-')
    );
    assert_eq!(
        Negotiator::<LanguageNegotiation, _>::new(vec!["en-US;q=1"]).unwrap_err(),
        Error::QualityNotAllowed
    );
    assert_eq!(
        Negotiator::<LanguageNegotiation, _>::new(vec!["en-US;type=2"]).unwrap_err(),
        Error::ParamsNotAllowed
    );
}

#[test]
fn language_negotiate() {
    assert!(negotiate(vec!["en-US"], "fr-FR").unwrap().is_none());
    assert_eq!(negotiate(vec!["en-US"], "en-US, fr-FR").unwrap(), Some("en-US"));
    assert_eq!(negotiate(vec!["en-US"], "fr-FR, en-US").unwrap(), Some("en-US"));
    assert_eq!(negotiate(vec!["en-US"], "en, fr").unwrap(), Some("en-US"));
    assert_eq!(negotiate(vec!["en-US"], "fr, en").unwrap(), Some("en-US"));
    assert_eq!(negotiate(vec!["en-US", "fr-FR"], "fr, en").unwrap(), Some("fr-FR"));
    assert_eq!(negotiate(vec!["en-US", "fr-FR"], "en-US; q=1, fr-FR").unwrap(), Some("en-US"));
    assert_eq!(negotiate(vec!["en-US", "fr-FR"], "en-US; q=0.9, fr-FR").unwrap(), Some("fr-FR"));
    assert_eq!(negotiate(vec!["en-US", "fr-FR"], "en; q=0.8, fr; q=0.9").unwrap(), Some("fr-FR"));
    assert_eq!(negotiate(vec!["en-US", "fr-FR"], "en, fr-FR").unwrap(), Some("fr-FR"));
    assert_eq!(negotiate(vec!["en-US", "fr-FR"], "en;q=1, fr-FR;q=0.9").unwrap(), Some("en-US"));
}

#[test]
fn language_region_is_kept_whole() {
    assert_eq!(
        Negotiator::<LanguageNegotiation, _>::new(vec!["zh-Hant-TW"]).unwrap().supported(),
        &vec![LanguageTag { primary: "zh".to_owned(), region: "Hant-TW".to_owned() }]
    );
    assert_eq!(negotiate(vec!["zh-Hant-TW"], "zh-Hant-TW").unwrap(), Some("zh-Hant-TW"));
}

#[test]
fn language_entry_takes_only_q() {
    assert_eq!(negotiate(vec!["en-US"], "en;x=1").unwrap_err(), Error::ParamsNotAllowed);
    assert_eq!(negotiate(vec!["en-US"], "en;q=0.5;x=1").unwrap_err(), Error::ParamsNotAllowed);
    assert_eq!(negotiate(vec!["en-US"], "en;q=five").unwrap_err(), Error::InvalidQuality);
}
