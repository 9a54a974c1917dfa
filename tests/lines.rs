use secure_routing_stats::announcements::{Announcement, Error as AnnError};
use secure_routing_stats::delegations::{DelegationState, Error as DelError, IpDelegation, Registry};
use secure_routing_stats::ip::IpRange;

#[test]
fn ris_dump_lines() {
    let ann = Announcement::from_ris_line("13335\t1.0.0.0/24\t300").unwrap().unwrap();
    assert_eq!(ann.asn().value(), 13335);
    assert_eq!(ann.prefix().range(), IpRange::from_str("1.0.0.0-1.0.0.255").unwrap());

    assert_eq!(Announcement::from_ris_line("").unwrap(), None);
    assert_eq!(Announcement::from_ris_line("% comment").unwrap(), None);
    assert_eq!(Announcement::from_ris_line("13335 1.0.0.0/24 5").unwrap(), None);
    assert!(Announcement::from_ris_line("13335 1.0.0.0/24 6").unwrap().is_some());
    assert_eq!(Announcement::from_ris_line("{1,2} 1.0.0.0/24 300").unwrap(), None);
    assert_eq!(Announcement::from_ris_line("13335 1.0.0.0/24").unwrap_err(), AnnError::MissingColumn);
    assert_eq!(
        Announcement::from_ris_line("13335 1.0.0.0/24 many").unwrap_err(),
        AnnError::InvalidPeerCount
    );
}

#[test]
fn nro_delegation_lines() {
    let del = IpDelegation::from_nro_line("ripencc|NL|ipv4|193.0.0.0|2048|19930901|allocated|x")
        .unwrap()
        .unwrap();
    assert_eq!(del.cc(), "NL");
    assert_eq!(del.reg(), &Registry::RipeNcc);
    assert_eq!(del.state(), &DelegationState::ASSIGNED);
    assert_eq!(del.range(), &IpRange::from_str("193.0.0.0-193.0.7.255").unwrap());

    assert_eq!(IpDelegation::from_nro_line("2|nro|20190304|1|19821122|20190304|+0000").unwrap(), None);
    assert_eq!(IpDelegation::from_nro_line("apnic|JP|asn|173|1|20020801|allocated").unwrap(), None);
    assert_eq!(
        IpDelegation::from_nro_line("ripencc|NL|ipv5|193.0.0.0|2048|1|allocated").unwrap_err(),
        DelError::UnsupportedType
    );
    assert_eq!(
        IpDelegation::from_nro_line("nowhere|NL|ipv4|193.0.0.0|2048|1|allocated").unwrap_err(),
        DelError::UnknownRegistry
    );
    assert_eq!(
        IpDelegation::from_nro_line("ripencc|NL|ipv4|193.0.0.0|0|1|allocated").unwrap_err(),
        DelError::InvalidRange(secure_routing_stats::ip::IpRangeError::MinExceedsMax)
    );
    assert_eq!(
        IpDelegation::from_nro_line("ripencc|NL|ipv4|193.0.0.0|2048").unwrap_err(),
        DelError::MissingColumn
    );
}

#[test]
fn csv_delegation_lines() {
    let del = IpDelegation::from_csv_line("2001:db8::/32,apnic,20190101,JP,assigned")
        .unwrap()
        .unwrap();
    assert_eq!(del.cc(), "JP");
    assert_eq!(del.reg(), &Registry::Apnic);
    assert_eq!(del.range().min().value, 0x2001_0db8_0000_0000_0000_0000_0000_0000);
    assert_eq!(IpDelegation::from_csv_line("prefix,rir,date,cc,status").unwrap(), None);
    assert_eq!(
        IpDelegation::from_csv_line("10.0.0.0/8,arin,1,US,lost").unwrap_err(),
        DelError::UnknownState
    );
    assert!(matches!(
        IpDelegation::from_csv_line("10.0.0.1/8,arin,1,US,assigned"),
        Err(DelError::InvalidPrefix(_))
    ));
}
