use secure_routing_stats::asn::Asn;
use secure_routing_stats::ip::{IpPrefix, IpRange};
use secure_routing_stats::range_tree::IpRangeTreeBuilder;
use secure_routing_stats::vrps::ValidatedRoaPayload;

fn entry(asn: u32, prefix: &str, max_length: u8) -> ValidatedRoaPayload {
    ValidatedRoaPayload::new(Asn::new(asn), IpPrefix::from_str(prefix).unwrap(), max_length)
}

#[test]
fn test_ip_range_tree() {
    let vrps = vec![
        entry(0, "10.0.0.0/24", 24),
        entry(2, "10.0.0.0/24", 24),
        entry(0, "10.0.0.0/23", 24),
        entry(0, "10.0.2.0/23", 24),
    ];

    let mut builder = IpRangeTreeBuilder::empty();
    for vrp in vrps {
        builder.add(vrp);
    }
    let tree = builder.build();

    let search = IpRange::from_str("10.0.0.0-10.0.1.255").unwrap();

    let matches = tree.matching_or_more_specific(&search);
    assert_eq!(3, matches.len());

    let search = IpRange::from_str("10.0.0.0-10.0.0.255").unwrap();
    let matches = tree.matching_or_more_specific(&search);
    assert_eq!(2, matches.len());

    let search = IpRange::from_str("10.0.2.0-10.0.3.255").unwrap();
    let matches = tree.matching_or_more_specific(&search);
    assert_eq!(1, matches.len());

    let search = IpRange::from_str("10.0.0.0-10.0.0.2").unwrap();
    let matches = tree.matching_or_less_specific(&search);
    assert_eq!(3, matches.len());
}

#[test]
fn range_tree_keeps_group_order_and_single_addresses() {
    let mut builder = IpRangeTreeBuilder::empty();
    builder.add(entry(1, "10.0.0.0/24", 24));
    builder.add(entry(2, "10.0.0.5/32", 32));
    builder.add(entry(3, "10.0.0.0/24", 24));
    builder.add(entry(4, "::/0", 0));
    let tree = builder.build();

    let point = IpRange::from_str("10.0.0.5-10.0.0.5").unwrap();
    let around: Vec<u32> = tree
        .matching_or_less_specific(&point)
        .iter()
        .map(|v| v.asn().value())
        .collect();
    assert_eq!(around, vec![1, 3, 2, 4]);

    let inside: Vec<u32> = tree
        .matching_or_more_specific(&point)
        .iter()
        .map(|v| v.asn().value())
        .collect();
    assert_eq!(inside, vec![2]);

    let all: Vec<u32> = tree.all().iter().map(|v| v.asn().value()).collect();
    assert_eq!(all, vec![1, 3, 2, 4]);

    let elsewhere = IpRange::from_str("11.0.0.0-11.0.0.255").unwrap();
    assert!(tree.matching_or_more_specific(&elsewhere).is_empty());
    assert_eq!(tree.matching_or_less_specific(&elsewhere).len(), 1);
}
