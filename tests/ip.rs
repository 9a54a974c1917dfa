use secure_routing_stats::ip::{
    IpAddress, IpAddressFamily, IpPrefix, IpPrefixError, IpRange, IpRangeError, IPV4_IN_IPV6,
};
use secure_routing_stats::resource_set::IpResourceSet;

#[test]
fn test_make_ipv4_from_string() {
    assert_eq!(IPV4_IN_IPV6, IpAddress::from_str("0.0.0.0").unwrap().value);
    assert_eq!(IPV4_IN_IPV6 | 255, IpAddress::from_str("0.0.0.255").unwrap().value);
    assert_eq!(IPV4_IN_IPV6 | 256, IpAddress::from_str("0.0.1.0").unwrap().value);
    assert_eq!(IPV4_IN_IPV6 | 65535, IpAddress::from_str("0.0.255.255").unwrap().value);
    assert_eq!(IPV4_IN_IPV6 | 65536, IpAddress::from_str("0.1.0.0").unwrap().value);
    assert_eq!(IPV4_IN_IPV6 | 16_777_216, IpAddress::from_str("1.0.0.0").unwrap().value);

    assert!(IpAddress::from_str("yadiyada").is_err());
    assert!(IpAddress::from_str("").is_err());
    assert!(IpAddress::from_str("1.1").is_err());
}

#[test]
fn test_is_ipv4() {
    assert_eq!(IpAddressFamily::Ipv4, IpAddress::from_str("0.0.0.0").unwrap().ip_address_family());
    assert_eq!(IpAddressFamily::Ipv4, IpAddress::from_str("10.0.0.0").unwrap().ip_address_family());
    assert_eq!(
        IpAddressFamily::Ipv4,
        IpAddress::from_str("255.255.255.255").unwrap().ip_address_family()
    );
}

#[test]
fn test_range_invalid_if_min_bigger_than_max() {
    let min = IpAddress::new(128);
    let max = IpAddress::new(0);
    let range = IpRange::create(min, max);
    assert!(range.is_err());
}

#[test]
fn test_range_is_prefix() {
    assert!(IpRange::from_str("10.0.0.0-10.0.255.255").unwrap().is_prefix());
    assert!(IpRange::from_str("10.0.0.0-10.1.255.255").unwrap().is_prefix());
    assert!(IpRange::from_str("0.0.0.0-1.255.255.255").unwrap().is_prefix());
    assert!(IpRange::from_str("2.0.0.0-3.255.255.255").unwrap().is_prefix());
    assert!(IpRange::from_str("0.0.0.0-3.255.255.255").unwrap().is_prefix());
    assert!(IpRange::from_str("4.0.0.0-5.255.255.255").unwrap().is_prefix());
    assert!(IpRange::from_str("4.0.0.0-4.0.0.0").unwrap().is_prefix());
    assert!(!IpRange::from_str("0.0.0.255-0.0.1.255").unwrap().is_prefix());
    assert!(!IpRange::from_str("2.0.0.0-5.255.255.255").unwrap().is_prefix());
    assert!(!IpRange::from_str("0.0.0.0-2.255.255.255").unwrap().is_prefix());
    assert!(!IpRange::from_str("10.0.0.0-10.0.255.254").unwrap().is_prefix());
    assert!(!IpRange::from_str("10.0.0.0-10.0.254.255").unwrap().is_prefix());
    assert!(!IpRange::from_str("0.0.0.128-0.0.1.127").unwrap().is_prefix());
}

#[test]
fn test_range_from_start_and_number() {
    let range = IpRange::from_str("10.0.0.0-10.0.0.255").unwrap();
    let range_with_number =
        IpRange::from_min_and_number(IpAddress::from_str("10.0.0.0").unwrap(), 256).unwrap();

    assert_eq!(range, range_with_number);
}

#[test]
fn test_parse_prefix() {
    assert!(IpPrefix::from_str("10.0.0.0/8").is_ok());
    assert!(IpPrefix::from_str("0.0.0.0/0").is_ok());
    assert!(IpPrefix::from_str("0.0.0.0/-1").is_err());
    assert!(IpPrefix::from_str("10.0.0.0/6").is_err());
    assert!(IpPrefix::from_str("10.0.0.0/33").is_err());
}

#[test]
fn test_ip_range_intersects() {
    let range = IpRange::from_str("10.0.0.0-10.0.0.255").unwrap();
    let intersecting_start = IpRange::from_str("9.0.0.0-10.0.0.0").unwrap();
    let intersecting_end = IpRange::from_str("10.0.0.255-10.1.0.0").unwrap();
    let exact_overlap = IpRange::from_str("10.0.0.0-10.0.0.255").unwrap();
    let more_specific = IpRange::from_str("10.0.0.0-10.0.0.255").unwrap();

    assert!(range.intersects(intersecting_start));
    assert!(range.intersects(intersecting_end));
    assert!(range.intersects(exact_overlap));
    assert!(range.intersects(more_specific));

    let below = IpRange::from_str("1.0.0.0-9.255.255.255").unwrap();
    let above = IpRange::from_str("10.0.1.0-19.255.255.255").unwrap();

    assert!(!range.intersects(below));
    assert!(!range.intersects(above));
}

#[test]
fn test_ip_resource_set_functions() {
    let range = IpRange::from_str("10.0.0.0-10.0.0.255").unwrap();

    let mut set = IpResourceSet::empty();
    set.add_ip_range(range);

    assert_eq!(set.ranges(), &vec![range]);

    let intersecting_start = IpRange::from_str("9.0.0.0-10.0.0.0").unwrap();
    let expected_combined_range = IpRange::from_str("9.0.0.0-10.0.0.255").unwrap();
    set.add_ip_range(intersecting_start);
    assert_eq!(set.ranges(), &vec![expected_combined_range]);

    let other_range = IpRange::from_str("192.168.0.0-192.168.0.1").unwrap();
    set.add_ip_range(other_range);
    assert_eq!(set.ranges(), &vec![expected_combined_range, other_range]);
}

#[test]
fn test_ip_resource_set_remove() {
    let range = IpRange::from_str("10.0.0.0-10.0.0.255").unwrap();
    let mut set = IpResourceSet::empty();
    set.add_ip_range(range);

    let intersecting_start = IpRange::from_str("9.0.0.0-10.0.0.0").unwrap();
    set.remove_ip_range(intersecting_start);
    assert_eq!(set.ranges(), &vec![IpRange::from_str("10.0.0.1-10.0.0.255").unwrap()]);

    let start_left_hand = IpRange::from_str("10.0.0.1-10.0.0.2").unwrap();
    set.remove_ip_range(start_left_hand);
    assert_eq!(set.ranges(), &vec![IpRange::from_str("10.0.0.3-10.0.0.255").unwrap()]);

    let middle = IpRange::from_str("10.0.0.10-10.0.0.11").unwrap();
    set.remove_ip_range(middle);
    assert_eq!(
        set.ranges(),
        &vec![
            IpRange::from_str("10.0.0.12-10.0.0.255").unwrap(),
            IpRange::from_str("10.0.0.3-10.0.0.9").unwrap()
        ]
    );

    let exact_match = IpRange::from_str("10.0.0.3-10.0.0.9").unwrap();
    set.remove_ip_range(exact_match);
    assert_eq!(set.ranges(), &vec![IpRange::from_str("10.0.0.12-10.0.0.255").unwrap()]);

    let encompassing = IpRange::from_str("10.0.0.0-10.0.0.255").unwrap();
    set.remove_ip_range(encompassing);
    assert_eq!(set.ranges(), &Vec::<IpRange>::new());
}

#[test]
fn parse_prefix_errors_name_the_fault() {
    assert_eq!(IpPrefix::from_str("10.0.0.0").unwrap_err(), IpPrefixError::InvalidSyntax);
    assert_eq!(IpPrefix::from_str("10.0.0.0/6").unwrap_err(), IpPrefixError::InvalidPrefixLength);
    assert_eq!(IpPrefix::from_str("10.0.0.0/33").unwrap_err(), IpPrefixError::InvalidPrefixLength);
    assert!(matches!(
        IpPrefix::from_str("10.0.0/8").unwrap_err(),
        IpPrefixError::InvalidBaseAddress(_)
    ));
    assert_eq!(IpRange::from_str("10.0.0.1").unwrap_err(), IpRangeError::MustUseDashNotation);
    assert_eq!(
        IpRange::from_str("10.0.0.2-10.0.0.1").unwrap_err(),
        IpRangeError::MinExceedsMax
    );
}

#[test]
fn parsed_prefix_range_is_a_prefix() {
    for text in ["10.0.0.0/8", "0.0.0.0/0", "192.168.0.0/20", "2001:db8::/32", "::/0", "1.2.3.4/32"] {
        let p = IpPrefix::from_str(text).unwrap();
        assert!(p.range().is_prefix(), "{}", text);
    }
    let v6 = IpPrefix::from_str("::/0").unwrap();
    assert_eq!(v6.range().min().value, 0);
    assert_eq!(v6.range().max().value, u128::MAX);
    let p = IpPrefix::from_str("10.0.0.0/8").unwrap();
    assert_eq!(p.range(), IpRange::from_str("10.0.0.0-10.255.255.255").unwrap());
    assert_eq!(p.length(), 8);
}

#[test]
fn range_round_trips_through_create() {
    let r = IpRange::from_str("10.0.0.0-10.0.0.255").unwrap();
    assert_eq!(IpRange::create(r.min(), r.max()).unwrap(), r);
    assert_eq!(
        IpRange::create(r.max(), r.min()).unwrap_err(),
        IpRangeError::MinExceedsMax
    );
    assert!(IpRange::from_min_and_number(IpAddress::new(5), 0).is_err());
    assert!(IpRange::from_min_and_number(IpAddress::new(u128::MAX), 2).is_err());
}

#[test]
fn ipv6_addresses_parse() {
    let a = IpAddress::from_str("2001:db8::1").unwrap();
    assert_eq!(a.value, 0x2001_0db8_0000_0000_0000_0000_0000_0001);
    assert_eq!(a.ip_address_family(), IpAddressFamily::Ipv6);
}

#[test]
fn numeric_range_round_trip() {
    let r = IpRange::from_str("10.0.0.0-10.0.0.255").unwrap();
    assert_eq!(IpRange::from_range(&r.to_range()).unwrap(), r);
    let reversed = std::ops::Range { start: r.to_range().end, end: r.to_range().start };
    assert_eq!(IpRange::from_range(&reversed).unwrap_err(), IpRangeError::MinExceedsMax);
}
