use geolocate::country::{Country, CountryCode};
use geolocate::decimal::{decimal_string, parse_u16};

#[test]
fn short_code_parse_policy() {
    assert_eq!(CountryCode::from_str("US"), Ok(CountryCode::Alpha2(['U', 'S'])));
    assert_eq!(CountryCode::from_str("XX1"), Ok(CountryCode::Unassigned));
    let err = CountryCode::from_str("ABCDE").unwrap_err();
    assert_eq!(err.code(), "ABCDE");
    assert_eq!(err.message(), "invalid country code: ABCDE");
}

#[test]
fn short_code_lengths() {
    assert_eq!(CountryCode::from_str("GBR"), Ok(CountryCode::Alpha3(['G', 'B', 'R'])));
    assert_eq!(CountryCode::from_str("ABCD"), Ok(CountryCode::Alpha4(['A', 'B', 'C', 'D'])));
    assert_eq!(CountryCode::from_str("us"), Ok(CountryCode::Unassigned));
    assert_eq!(CountryCode::from_str("??"), Ok(CountryCode::Unassigned));
    assert!(CountryCode::from_str("").is_err());
    assert!(CountryCode::from_str("U").is_err());
    assert_eq!(CountryCode::from_str("ÄB"), Ok(CountryCode::Unassigned));
}

#[test]
fn code_text_and_comparison() {
    assert_eq!(CountryCode::Alpha2(['U', 'S']).to_code_string(), "US");
    assert_eq!(CountryCode::Unassigned.to_code_string(), "??");
    assert!(CountryCode::Alpha2(['U', 'S']).same_as(&CountryCode::Alpha2(['U', 'S'])));
    assert!(!CountryCode::Alpha2(['U', 'S']).same_as(&CountryCode::Alpha2(['G', 'B'])));
    assert!(!CountryCode::Alpha2(['U', 'S']).same_as(&CountryCode::Unassigned));
}

#[test]
fn country_equality_and_copy() {
    let us = Country::new("United States", CountryCode::Alpha2(['U', 'S']), 840);
    let copy = us.cloned();
    assert_eq!(copy, us);
    assert_eq!(copy.name, "United States");
    let other = Country::new("United States", CountryCode::Alpha2(['U', 'S']), 841);
    assert_ne!(other, us);
}

#[test]
fn numeric_parse() {
    assert_eq!(parse_u16(&['4', '2']), Some(42));
    assert_eq!(parse_u16(&['+', '7']), Some(7));
    assert_eq!(parse_u16(&['0', '0', '9']), Some(9));
    assert_eq!(parse_u16(&['6', '5', '5', '3', '5']), Some(65535));
    assert_eq!(parse_u16(&['6', '5', '5', '3', '6']), None);
    assert_eq!(parse_u16(&[]), None);
    assert_eq!(parse_u16(&['+']), None);
    assert_eq!(parse_u16(&['-', '1']), None);
    assert_eq!(parse_u16(&['1', 'x']), None);
    for s in ["0", "840", "65535", "65536", "+12", "1 ", "99999999999"] {
        let chars: Vec<char> = s.chars().collect();
        assert_eq!(parse_u16(&chars), s.parse::<u16>().ok(), "{s}");
    }
}

#[test]
fn decimal_text() {
    assert_eq!(decimal_string(0), "0");
    assert_eq!(decimal_string(7), "7");
    assert_eq!(decimal_string(1200), "1200");
    assert_eq!(decimal_string(usize::MAX), usize::MAX.to_string());
}
