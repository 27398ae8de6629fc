use geolocate::addr::{format_ipv4, parse_ipv4};
use geolocate::ingest::{build_block_map, entry_from_record, resolve, EntryError};
use geolocate::country::{Country, CountryCode};
use geolocate::filter::MaybeCountry;
use geolocate::ip::IpAddrBlock;

#[test]
fn dotted_and_integer_forms_agree() {
    let dotted = parse_ipv4("1.2.3.4").unwrap();
    let integer: u32 = 16909060;
    assert_eq!(dotted, integer);
    assert_eq!(dotted, u32::from_be_bytes([1, 2, 3, 4]));
}

#[test]
fn dotted_form_edges() {
    assert_eq!(parse_ipv4("0.0.0.0"), Some(0));
    assert_eq!(parse_ipv4("255.255.255.255"), Some(u32::MAX));
    assert_eq!(parse_ipv4("256.0.0.0"), None);
    assert_eq!(parse_ipv4("1.2.3"), None);
    assert_eq!(parse_ipv4("1.2.3.4.5"), None);
    assert_eq!(parse_ipv4("01.2.3.4"), None);
    assert_eq!(parse_ipv4("1..3.4"), None);
    assert_eq!(parse_ipv4("1.2.3.4 "), None);
    assert_eq!(parse_ipv4("+1.2.3.4"), None);
    assert_eq!(parse_ipv4("1000.2.3.4"), None);
    assert_eq!(parse_ipv4(""), None);
}

#[test]
fn records_become_entries() {
    let (b, c) = entry_from_record(1u32, 5u32, "US").unwrap();
    assert_eq!(b.range(), (1, 5));
    assert_eq!(c, CountryCode::Alpha2(['U', 'S']));
    assert!(matches!(entry_from_record(5u32, 1u32, "US"), Err(EntryError::EmptyBlock(_))));
    match entry_from_record(1u32, 5u32, "USAXX") {
        Err(EntryError::InvalidCode(e)) => assert_eq!(e.code(), "USAXX"),
        other => panic!("unexpected {other:?}"),
    }
}

#[test]
fn codes_resolve_against_records() {
    let countries = vec![
        Country::new("United States", CountryCode::Alpha2(['U', 'S']), 840),
        Country::new("United Kingdom", CountryCode::Alpha2(['G', 'B']), 826),
    ];
    assert_eq!(resolve(&countries, CountryCode::Alpha2(['G', 'B'])), MaybeCountry::Present(countries[1].clone()));
    assert_eq!(
        resolve(&countries, CountryCode::Alpha2(['Z', 'Z'])),
        MaybeCountry::Missing(CountryCode::Alpha2(['Z', 'Z']))
    );
}

#[test]
fn duplicate_codes_resolve_to_last_record() {
    let countries = vec![
        Country::new("Old Name", CountryCode::Alpha2(['U', 'S']), 840),
        Country::new("United States", CountryCode::Alpha2(['U', 'S']), 840),
    ];
    assert_eq!(resolve(&countries, CountryCode::Alpha2(['U', 'S'])), MaybeCountry::Present(countries[1].clone()));
}

#[test]
fn block_map_from_records() {
    let countries = vec![Country::new("United States", CountryCode::Alpha2(['U', 'S']), 840)];
    let records = vec![
        (IpAddrBlock::new(100u32, 199), CountryCode::Alpha2(['Z', 'Z'])),
        (IpAddrBlock::new(0u32, 99), CountryCode::Alpha2(['U', 'S'])),
    ];
    let map = build_block_map(records, &countries);
    assert!(map.is_normalized());
    assert_eq!(map.get_from_address(50), Some(&MaybeCountry::Present(countries[0].clone())));
    assert_eq!(map.get_from_address(150), Some(&MaybeCountry::Missing(CountryCode::Alpha2(['Z', 'Z']))));
    assert_eq!(map.get_from_address(200), None);
}

#[test]
fn dotted_form_round_trip() {
    assert_eq!(format_ipv4(16909060), "1.2.3.4");
    assert_eq!(format_ipv4(0), "0.0.0.0");
    assert_eq!(format_ipv4(u32::MAX), "255.255.255.255");
    assert_eq!(format_ipv4(u32::from_be_bytes([10, 0, 100, 7])), "10.0.100.7");
    for bits in [0u32, 1, 255, 256, 65535, 16909060, 3232235777, u32::MAX] {
        assert_eq!(parse_ipv4(&format_ipv4(bits)), Some(bits));
    }
}
