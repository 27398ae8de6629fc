use geolocate::country::{Country, CountryCode};
use geolocate::filter::{collect_blocks, count_blocks, find_country, Filter, MaybeCountry};
use geolocate::ip::{IpAddrBlock, IpAddrBlockMap};
use geolocate::tally::{group_by_country, is_same_country};
use geolocate::wiki::{
    countries_from_response, country_from_binding, wiki_query, RecordError, Response, ResponseBinding,
    ResponseBindingEntry, ResponseHead, ResponseResults, QUERY,
};

fn countries() -> Vec<Country> {
    vec![
        Country::new("United States", CountryCode::Alpha2(['U', 'S']), 840),
        Country::new("United Kingdom", CountryCode::Alpha2(['G', 'B']), 826),
    ]
}

#[test]
fn filters_from_text() {
    assert!(matches!(Filter::parse("840"), Filter::Numeric(840)));
    assert!(matches!(Filter::parse("US"), Filter::Code(CountryCode::Alpha2(['U', 'S']))));
    assert!(matches!(Filter::parse("xx1"), Filter::Code(CountryCode::Unassigned)));
    match Filter::parse("France") {
        Filter::Name(n) => assert_eq!(n, "France"),
        other => panic!("unexpected {other:?}"),
    }
    match Filter::parse("70000") {
        Filter::Name(n) => assert_eq!(n, "70000"),
        other => panic!("unexpected {other:?}"),
    }
}

#[test]
fn filter_tests_countries() {
    let cs = countries();
    assert!(Filter::Numeric(840).test(&cs[0]));
    assert!(!Filter::Numeric(840).test(&cs[1]));
    assert!(Filter::Name("United Kingdom".to_string()).test(&cs[1]));
    assert!(Filter::Code(CountryCode::Alpha2(['G', 'B'])).test(&cs[1]));
    assert!(Filter::Country(&cs[0]).test(&cs[0]));
    assert!(!Filter::Country(&cs[0]).test(&cs[1]));
    let missing = MaybeCountry::Missing(CountryCode::Alpha2(['Z', 'Z']));
    assert_eq!(Filter::Numeric(1).test_maybe(&missing), None);
    assert_eq!(Filter::Code(CountryCode::Alpha2(['Z', 'Z'])).test_maybe(&missing), Some(true));
    assert_eq!(Filter::Code(CountryCode::Alpha2(['U', 'S'])).test_maybe(&missing), Some(false));
    assert_eq!(Filter::Numeric(826).test_maybe(&MaybeCountry::Present(cs[1].clone())), Some(true));
}

#[test]
fn find_first_matching_country() {
    let cs = countries();
    assert_eq!(find_country(&Filter::Numeric(826), &cs), Some(&cs[1]));
    assert_eq!(find_country(&Filter::Numeric(1), &cs), None);
}

#[test]
fn count_and_collect_filtered_blocks() {
    let cs = countries();
    let mut map = IpAddrBlockMap::new();
    map.insert(IpAddrBlock::new(0u32, 9), MaybeCountry::Present(cs[0].clone()));
    map.insert(IpAddrBlock::new(10u32, 19), MaybeCountry::Present(cs[1].clone()));
    map.insert(IpAddrBlock::new(20u32, 29), MaybeCountry::Present(cs[0].clone()));
    map.insert(IpAddrBlock::new(30u32, 39), MaybeCountry::Missing(CountryCode::Alpha2(['Z', 'Z'])));
    let entries = map.iter();
    let us = Filter::Numeric(840);
    assert_eq!(count_blocks(&us, &entries), 2);
    assert_eq!(count_blocks(&Filter::Code(CountryCode::Alpha2(['Z', 'Z'])), &entries), 1);
    let kept: Vec<(u32, u32)> = collect_blocks(Some(&us), &entries).iter().map(|b| b.range()).collect();
    assert_eq!(kept, vec![(0, 9), (20, 29)]);
    assert_eq!(collect_blocks(None, &entries).len(), 4);
    assert_eq!(MaybeCountry::Present(cs[1].clone()).label(), "United Kingdom");
    assert_eq!(MaybeCountry::Missing(CountryCode::Alpha2(['Z', 'Z'])).label(), "ZZ");
}

fn entry(value: &str) -> ResponseBindingEntry {
    ResponseBindingEntry { kind: "literal".to_string(), value: value.to_string() }
}

#[test]
fn query_with_and_without_limit() {
    assert_eq!(wiki_query(0), QUERY);
    assert_eq!(wiki_query(25), format!("{QUERY}\nLIMIT 25"));
    assert!(QUERY.starts_with("SELECT ?nameLabel ?code ?numeric WHERE {"));
}

#[test]
fn records_become_countries() {
    let ok = ResponseBinding { name: entry("Chile"), code: entry("CL"), numeric: Some(entry("152")) };
    let c = country_from_binding(&ok).unwrap();
    assert_eq!((c.name.as_str(), c.code, c.numeric), ("Chile", CountryCode::Alpha2(['C', 'L']), 152));
    let none = ResponseBinding { name: entry("Nowhere"), code: entry("NW"), numeric: None };
    assert_eq!(country_from_binding(&none).unwrap().numeric, u16::MAX);
    let bad_code = ResponseBinding { name: entry("Bad"), code: entry("B"), numeric: None };
    assert!(matches!(country_from_binding(&bad_code), Err(RecordError::InvalidCode(_))));
    let bad_numeric = ResponseBinding { name: entry("Bad"), code: entry("BD"), numeric: Some(entry("x1")) };
    assert_eq!(country_from_binding(&bad_numeric), Err(RecordError::InvalidNumeric("x1".to_string())));
    let response = Response {
        head: ResponseHead { vars: vec!["nameLabel".to_string()] },
        results: ResponseResults { bindings: vec![ok.clone(), none.clone()] },
    };
    assert_eq!(countries_from_response(&response).unwrap().len(), 2);
    let failing = Response {
        head: ResponseHead { vars: vec![] },
        results: ResponseResults { bindings: vec![ok, bad_numeric] },
    };
    assert!(countries_from_response(&failing).is_err());
}

#[test]
fn blocks_grouped_by_country() {
    let cs = countries();
    let mut v4 = IpAddrBlockMap::new();
    v4.insert(IpAddrBlock::new(0u32, 9), MaybeCountry::Present(cs[0].clone()));
    v4.insert(IpAddrBlock::new(10u32, 19), MaybeCountry::Missing(CountryCode::Alpha2(['Z', 'Z'])));
    v4.insert(IpAddrBlock::new(20u32, 29), MaybeCountry::Present(cs[0].clone()));
    let mut v6 = IpAddrBlockMap::new();
    v6.insert(IpAddrBlock::new(5u128, 6), MaybeCountry::Present(cs[1].clone()));
    v6.insert(IpAddrBlock::new(7u128, 8), MaybeCountry::Present(cs[0].clone()));
    let groups = group_by_country(&v4.iter(), &v6.iter());
    assert_eq!(groups.len(), 3);
    assert_eq!(groups[0].country, MaybeCountry::Present(cs[0].clone()));
    assert_eq!(groups[0].ipv4.iter().map(|b| b.range()).collect::<Vec<_>>(), vec![(0, 9), (20, 29)]);
    assert_eq!(groups[0].ipv6.iter().map(|b| b.range()).collect::<Vec<_>>(), vec![(7, 8)]);
    assert_eq!(groups[1].country, MaybeCountry::Missing(CountryCode::Alpha2(['Z', 'Z'])));
    assert_eq!(groups[1].ipv4.len(), 1);
    assert!(groups[1].ipv6.is_empty());
    assert_eq!(groups[2].country, MaybeCountry::Present(cs[1].clone()));
    assert!(groups[2].ipv4.is_empty());
    assert_eq!(groups[2].ipv6.len(), 1);
    assert!(is_same_country(&groups[0].country, &MaybeCountry::Present(cs[0].clone())));
    assert!(!is_same_country(&groups[0].country, &groups[2].country));
    assert!(group_by_country(&[], &[]).is_empty());
}
