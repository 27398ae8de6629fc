use std::cmp::Ordering;

use geolocate::addr::parse_ipv4;
use geolocate::ip::{EmptyBlockError, IpAddrBlock, IpAddrBlockMap, Ipv4AddrBlock, Ipv4AddrBlockMap, Ipv6AddrBlock};

fn v4(s: &str) -> u32 {
    parse_ipv4(s).expect("a dotted address")
}

fn block(a: u32, b: u32) -> Ipv4AddrBlock {
    IpAddrBlock::new(a, b)
}

#[test]
fn compare_to_point_three_ways() {
    let b = block(10, 20);
    assert_eq!(b.compare_to_point(9), Ordering::Less);
    assert_eq!(b.compare_to_point(10), Ordering::Equal);
    assert_eq!(b.compare_to_point(15), Ordering::Equal);
    assert_eq!(b.compare_to_point(20), Ordering::Equal);
    assert_eq!(b.compare_to_point(21), Ordering::Greater);
    assert_eq!(b.compare_to_point(0), Ordering::Less);
    assert_eq!(b.compare_to_point(u32::MAX), Ordering::Greater);
    let single = IpAddrBlock::from_address(7u32);
    assert_eq!(single.compare_to_point(7), Ordering::Equal);
    assert_eq!(single.compare_to_point(6), Ordering::Less);
    assert_eq!(single.compare_to_point(8), Ordering::Greater);
}

#[test]
fn block_order_by_start_then_end() {
    assert_eq!(block(1, 5).compare(&block(2, 3)), Ordering::Less);
    assert_eq!(block(1, 5).compare(&block(1, 6)), Ordering::Less);
    assert_eq!(block(1, 5).compare(&block(1, 5)), Ordering::Equal);
    assert_eq!(block(2, 2).compare(&block(1, 9)), Ordering::Greater);
}

#[test]
fn try_new_rejects_inverted_range() {
    assert_eq!(Ipv4AddrBlock::try_new(5, 4), Err(EmptyBlockError));
    let b = Ipv4AddrBlock::try_new(4, 5).unwrap();
    assert_eq!((b.start(), b.end()), (4, 5));
    assert_eq!(b.range(), (4, 5));
    assert!(Ipv4AddrBlock::try_new(4, 4).is_ok());
    assert_eq!(EmptyBlockError.message(), "the given range is empty or overlapping");
}

#[test]
fn block_contains_inclusive_ends() {
    let b = Ipv6AddrBlock::new(100, 200);
    assert!(b.contains(100));
    assert!(b.contains(200));
    assert!(!b.contains(99));
    assert!(!b.contains(201));
}

#[test]
fn scenario_two_ranges_point_lookup() {
    let mut map: Ipv4AddrBlockMap<&str> = IpAddrBlockMap::new();
    map.insert(block(v4("1.0.0.0"), v4("1.0.0.255")), "US");
    map.insert(block(v4("1.0.1.0"), v4("1.0.1.255")), "GB");
    assert_eq!(map.get_from_address(v4("1.0.0.128")), Some(&"US"));
    assert_eq!(map.get_from_address(v4("1.0.1.0")), Some(&"GB"));
    assert_eq!(map.get_from_address(v4("1.0.2.1")), None);
    assert!(map.contains_address(v4("1.0.0.0")));
    assert!(!map.contains_address(v4("0.255.255.255")));
}

#[test]
fn sorted_inserts_any_order_answer_lookups() {
    let ranges = [(50u32, 59u32, 5), (0, 9, 0), (30, 39, 3), (10, 19, 1), (70, 79, 7)];
    let mut map = IpAddrBlockMap::new();
    for (a, b, v) in ranges {
        assert_eq!(map.insert(block(a, b), v), None);
    }
    assert!(map.is_normalized());
    assert_eq!(map.len(), 5);
    for (a, b, v) in ranges {
        for c in a..=b {
            assert_eq!(map.get_from_address(c), Some(&v));
        }
    }
    for c in [20u32, 29, 40, 49, 60, 69, 80, 1000] {
        assert_eq!(map.get_from_address(c), None);
    }
    let starts: Vec<u32> = map.blocks().iter().map(|b| b.start()).collect();
    assert_eq!(starts, vec![0, 10, 30, 50, 70]);
}

#[test]
fn insert_replaces_same_span() {
    let mut map = IpAddrBlockMap::new();
    assert_eq!(map.insert(block(1, 2), 'a'), None);
    assert_eq!(map.insert(block(1, 2), 'b'), Some('a'));
    assert_eq!(map.len(), 1);
    assert_eq!(map.get_from_block(block(1, 2)), Some(&'b'));
    assert_eq!(map.get_from_block(block(1, 3)), None);
    assert!(map.contains_block(block(1, 2)));
    assert!(!map.contains_block(block(1, 3)));
}

#[test]
fn bulk_load_matches_sorted_inserts() {
    let ranges = [(50u32, 59u32, 5), (0, 9, 0), (30, 39, 3), (10, 19, 1), (70, 79, 7)];
    let mut sorted = IpAddrBlockMap::new();
    let mut bulk = IpAddrBlockMap::with_capacity(ranges.len());
    for (a, b, v) in ranges {
        sorted.insert(block(a, b), v);
        assert_eq!(bulk.insert_unstable(block(a, b), v), None);
    }
    assert!(!bulk.is_normalized());
    bulk.normalize();
    assert!(bulk.is_normalized());
    assert_eq!(bulk.into_entries(), sorted.into_entries());
}

#[test]
fn normalize_twice_is_normalize_once() {
    let mut map = IpAddrBlockMap::new();
    for (a, b) in [(9u32, 9u32), (3, 4), (3, 4), (1, 2), (3, 3)] {
        map.insert_unstable(block(a, b), a + b);
    }
    map.normalize();
    let once = map.clone().into_entries();
    map.normalize();
    assert_eq!(map.into_entries(), once);
}

#[test]
fn normalize_keeps_one_entry_per_span() {
    let mut map = IpAddrBlockMap::new();
    map.insert_unstable(block(5, 6), "first");
    map.insert_unstable(block(1, 2), "other");
    assert_eq!(map.insert_unstable(block(5, 6), "second"), None);
    map.normalize();
    assert_eq!(map.len(), 2);
    let blocks = map.blocks();
    assert_eq!(blocks.iter().filter(|b| b.range() == (5, 6)).count(), 1);
    let v = map.get_from_block(block(5, 6)).copied();
    assert!(v == Some("first") || v == Some("second"));
}

#[test]
fn insert_unstable_on_normalized_map_reports_previous() {
    let mut map = IpAddrBlockMap::new();
    map.insert(block(1, 1), 10);
    map.insert(block(2, 2), 20);
    assert_eq!(map.insert_unstable(block(1, 1), 11), Some(10));
    assert_eq!(map.len(), 2);
    map.normalize();
    assert_eq!(map.get_from_address(1), Some(&11));
}

#[test]
fn remove_keeps_order() {
    let mut map = IpAddrBlockMap::new();
    for a in [4u32, 1, 3, 2] {
        map.insert(block(a, a), a * 10);
    }
    assert_eq!(map.remove(block(2, 2)), Some(20));
    assert_eq!(map.remove(block(2, 2)), None);
    assert!(map.is_normalized());
    assert_eq!(map.get_from_address(1), Some(&10));
    assert_eq!(map.get_from_address(3), Some(&30));
    assert_eq!(map.get_from_address(4), Some(&40));
    assert_eq!(map.get_from_address(2), None);
}

#[test]
fn remove_unstable_leaves_map_pending_until_normalized() {
    let mut map = IpAddrBlockMap::new();
    for a in [1u32, 2, 3, 4, 5] {
        map.insert(block(a, a), a);
    }
    assert_eq!(map.remove_unstable(block(1, 1)), Some(1));
    // The last entry has been moved to the front, so the order is broken and
    // the map says so.
    assert!(!map.is_normalized());
    map.normalize();
    for a in [2u32, 3, 4, 5] {
        assert_eq!(map.get_from_address(a), Some(&a));
    }
    assert_eq!(map.get_from_address(1), None);
    assert_eq!(map.remove_unstable(block(9, 9)), None);
    assert!(map.is_normalized());
}

#[test]
fn pending_map_is_normalized_by_insert_and_remove() {
    let mut map = IpAddrBlockMap::new();
    map.insert_unstable(block(5, 5), 5);
    map.insert_unstable(block(1, 1), 1);
    map.insert_unstable(block(1, 1), 2);
    map.insert(block(3, 3), 3);
    assert!(map.is_normalized());
    assert_eq!(map.len(), 3);
    map.insert_unstable(block(7, 7), 7);
    assert_eq!(map.remove(block(5, 5)), Some(5));
    assert!(map.is_normalized());
    assert_eq!(map.blocks().iter().map(|b| b.start()).collect::<Vec<_>>(), vec![1, 3, 7]);
}

#[test]
fn mutable_lookups_change_the_value() {
    let mut map = IpAddrBlockMap::new();
    map.insert(block(10, 20), 1);
    *map.get_from_address_mut(15).unwrap() = 2;
    assert_eq!(map.get_from_address(10), Some(&2));
    *map.get_from_block_mut(block(10, 20)).unwrap() = 3;
    assert_eq!(map.get_from_block(block(10, 20)), Some(&3));
    assert!(map.get_from_address_mut(30).is_none());
    assert!(map.get_from_block_mut(block(10, 21)).is_none());
}

#[test]
fn clear_len_and_iteration() {
    let mut map = IpAddrBlockMap::from_entries(vec![(block(3, 4), 'b'), (block(1, 2), 'a')]);
    assert_eq!(map.len(), 2);
    assert!(!map.is_empty());
    assert_eq!(map.values(), vec![&'a', &'b']);
    let pairs: Vec<(u32, char)> = map.iter().into_iter().map(|(b, v)| (b.start(), *v)).collect();
    assert_eq!(pairs, vec![(1, 'a'), (3, 'b')]);
    map.extend(vec![(block(0, 0), 'z'), (block(3, 4), 'c')]);
    assert_eq!(map.len(), 3);
    assert_eq!(map.get_from_address(0), Some(&'z'));
    map.clear();
    assert!(map.is_empty());
    assert!(map.is_normalized());
    assert_eq!(map.get_from_address(1), None);
}

#[test]
fn largest_addresses() {
    let mut map = IpAddrBlockMap::new();
    map.insert(IpAddrBlock::new(u128::MAX - 1, u128::MAX), "top");
    map.insert(IpAddrBlock::new(0u128, 0), "bottom");
    assert_eq!(map.get_from_address(u128::MAX), Some(&"top"));
    assert_eq!(map.get_from_address(0), Some(&"bottom"));
    assert_eq!(map.get_from_address(1), None);
}

#[test]
fn default_map_is_empty_and_normalized() {
    let map: Ipv4AddrBlockMap<u8> = IpAddrBlockMap::default();
    assert!(map.is_empty());
    assert!(map.is_normalized());
    assert_eq!(map.get_from_address(0), None);
}

#[test]
fn value_at_mut_changes_one_value() {
    let mut map = IpAddrBlockMap::new();
    map.insert(block(5, 6), 'b');
    map.insert(block(1, 2), 'a');
    *map.value_at_mut(1) = 'z';
    assert_eq!(map.get_from_address(5), Some(&'z'));
    assert_eq!(map.get_from_address(1), Some(&'a'));
    assert!(map.is_normalized());
}
