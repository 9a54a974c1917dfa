use secure_routing_stats::announcements::{Announcement, Announcements};
use secure_routing_stats::asn::{Asn, AsnRange, AsnSet};
use secure_routing_stats::delegations::{DelegationState, IpDelegation, IpDelegations, Registry};
use secure_routing_stats::ip::{IpPrefix, IpRange};
use secure_routing_stats::range_tree::IpRangeTreeBuilder;
use secure_routing_stats::report::{
    CountryStat, CountryStats, ResourceReporter, ScopeLimits, WorldStatsReporter,
};
use secure_routing_stats::resource_set::IpResourceSet;
use secure_routing_stats::validation::ValidationState;
use secure_routing_stats::vrps::{ValidatedRoaPayload, Vrps};

#[test]
fn should_parse() {
    let set = ScopeLimits::from_str("").unwrap();
    assert_eq!(ScopeLimits::new(IpResourceSet::empty(), AsnSet::empty()), set);
}

fn announcements(lines: &[&str]) -> Announcements {
    let mut b = IpRangeTreeBuilder::empty();
    for l in lines {
        b.add(Announcement::from_str(l).unwrap());
    }
    Announcements::new(b.build())
}

fn vrps(lines: &[&str]) -> Vrps {
    let mut b = IpRangeTreeBuilder::empty();
    for l in lines {
        b.add(ValidatedRoaPayload::from_str(l).unwrap());
    }
    Vrps::new(b.build())
}

fn delegations() -> IpDelegations {
    let mut b = IpRangeTreeBuilder::empty();
    b.add(IpDelegation::new(
        Registry::RipeNcc,
        "NL".to_string(),
        IpPrefix::from_str("192.168.0.0/16").unwrap().range(),
        DelegationState::ASSIGNED,
    ));
    IpDelegations::new(b.build())
}

#[test]
fn scope_limits_parse_addresses_and_asns() {
    let scope = ScopeLimits::from_str("10.0.0.0-10.0.0.255, 10.0.0.9, AS1-AS3, 65000").unwrap();
    assert!(scope.limits_ips());
    assert!(scope.limits_asns());
    assert_eq!(scope.ips().ranges(), &vec![IpRange::from_str("10.0.0.0-10.0.0.255").unwrap()]);
    assert!(scope.asns().contains(&Asn::new(2)));
    assert!(scope.asns().contains(&Asn::new(65000)));
    assert!(!scope.asns().contains(&Asn::new(4)));
    assert!(ScopeLimits::from_str("10.0.0.5-10.0.0.1").is_err());
    assert!(ScopeLimits::from_str("1.2.3").is_err());
    assert!(ScopeLimits::from_str("ASX").is_err());
    assert!(!ScopeLimits::empty().limits_ips());
}

#[test]
fn asn_text() {
    assert_eq!(Asn::from_str("AS65000").unwrap().value(), 65000);
    assert_eq!(Asn::from_str("as65000").unwrap().value(), 65000);
    assert_eq!(Asn::from_str("65000").unwrap().value(), 65000);
    assert!(Asn::from_str("AS").is_err());
    assert!(Asn::from_str("AS4294967296").is_err());
    let r = AsnRange::from_str("AS1-AS3").unwrap();
    assert!(r.contains(&Asn::new(3)));
    assert!(!r.contains(&Asn::new(4)));
    assert!(AsnRange::from_str("AS3-AS1").is_err());
    assert!(AsnRange::from_str("AS1").is_err());
    // adjacent numbers share nothing, so AS1 and AS2 stay apart
    let set = AsnSet::from_str("AS1, AS5-AS9, AS2, AS7-AS12").unwrap();
    assert_eq!(set.ranges().len(), 3);
    assert!(set.contains(&Asn::new(12)));
    assert!(set.contains(&Asn::new(7)));
    assert!(!set.contains(&Asn::new(4)));
}

#[test]
fn resource_set_scenarios() {
    let mut set = IpResourceSet::empty();
    set.add_ip_range(IpRange::from_str("10.0.0.0-10.0.0.255").unwrap());
    set.add_ip_range(IpRange::from_str("9.0.0.0-10.0.0.0").unwrap());
    assert_eq!(set.ranges(), &vec![IpRange::from_str("9.0.0.0-10.0.0.255").unwrap()]);

    let mut set = IpResourceSet::empty();
    set.add_ip_range(IpRange::from_str("10.0.0.0-10.0.0.255").unwrap());
    set.remove_ip_range(IpRange::from_str("9.0.0.0-10.0.0.0").unwrap());
    assert_eq!(set.ranges(), &vec![IpRange::from_str("10.0.0.1-10.0.0.255").unwrap()]);
    set.remove_ip_range(IpRange::from_str("10.0.0.1-10.0.0.255").unwrap());
    assert!(set.is_empty());

    // adjacent ranges that share no address stay apart
    let mut set = IpResourceSet::empty();
    set.add_ip_range(IpRange::from_str("1.0.0.0-1.0.0.255").unwrap());
    set.add_ip_range(IpRange::from_str("1.0.1.0-1.0.1.255").unwrap());
    assert_eq!(set.ranges().len(), 2);

    let parsed = IpResourceSet::from_str("10.0.0.0/24, 10.0.0.128-10.0.1.5").unwrap();
    assert_eq!(parsed.ranges(), &vec![IpRange::from_str("10.0.0.0-10.0.1.5").unwrap()]);
    assert!(IpResourceSet::from_str("10.0.0.0/33").is_err());
    assert!(IpResourceSet::from_str("10.0.0.0").is_err());
}

#[test]
fn country_stat_counts() {
    let mut st = CountryStat::new();
    assert_eq!(st.adoption_basis_points(), None);
    let a = Announcement::from_str("AS1, 10.0.0.0/24").unwrap();
    let v = ValidatedRoaPayload::from_str("AS1, 10.0.0.0/24, 24").unwrap();
    let valid = secure_routing_stats::validation::ValidatedAnnouncement::create(&a, &[&v]);
    let none = secure_routing_stats::validation::ValidatedAnnouncement::create(&a, &[]);
    st.add_ann(&valid);
    st.add_ann(&none);
    st.add_ann(&none);
    assert_eq!(st.routes_valid, 1);
    assert_eq!(st.routes_not_f, 2);
    assert_eq!(st.adoption_basis_points(), Some(3333));
    assert_eq!(st.valid_basis_points(), Some(3333));
    assert_eq!(st.quality_basis_points(), Some(10000));
    assert_eq!(st.seen_basis_points(), None);
}

#[test]
fn resource_report_counts() {
    let anns = announcements(&[
        "AS65000, 192.168.0.0/20",
        "AS65001, 192.168.0.0/20",
        "AS65000, 192.168.16.0/24",
        "AS65002, 10.0.0.0/8",
    ]);
    let vs = vrps(&["AS65000, 192.168.0.0/16, 20", "AS65009, 172.16.0.0/12, 12"]);
    let reporter = ResourceReporter::new(&anns, &vs);

    let all = reporter.analyse(&ScopeLimits::empty());
    assert_eq!(all.announcements.valid, 1);
    assert_eq!(all.announcements.invalid_asn, 1);
    assert_eq!(all.announcements.invalid_length, 1);
    assert_eq!(all.announcements.not_found, 1);
    assert_eq!(all.announcements.invalids.len(), 2);
    let states: Vec<ValidationState> =
        all.announcements.invalids.iter().map(|v| *v.state()).collect();
    assert!(states.contains(&ValidationState::InvalidAsn));
    assert!(states.contains(&ValidationState::InvalidLength));
    let rerun = reporter.analyse(&ScopeLimits::empty());
    let rerun_states: Vec<ValidationState> =
        rerun.announcements.invalids.iter().map(|v| *v.state()).collect();
    assert_eq!(states, rerun_states);
    assert_eq!(all.vrps.total, 2);
    assert_eq!(all.vrps.unseen.len(), 1);
    assert_eq!(all.vrps.unseen[0].asn().value(), 65009);

    let scope = ScopeLimits::from_str("192.168.0.0-192.168.255.255, AS65000").unwrap();
    let scoped = reporter.analyse(&scope);
    assert_eq!(scoped.announcements.valid, 1);
    assert_eq!(scoped.announcements.invalid_length, 1);
    assert_eq!(scoped.announcements.invalid_asn, 0);
    assert_eq!(scoped.announcements.not_found, 0);
    assert_eq!(scoped.vrps.total, 1);

    // the same inputs give the same results
    let again = reporter.analyse(&scope);
    assert_eq!(again.announcements.valid, scoped.announcements.valid);
    assert_eq!(again.announcements.invalids, scoped.announcements.invalids);
    assert_eq!(again.vrps.unseen, scoped.vrps.unseen);
}

#[test]
fn world_report_counts_per_country() {
    let anns = announcements(&["AS65000, 192.168.0.0/20", "AS65002, 10.0.0.0/8"]);
    let vs = vrps(&["AS65000, 192.168.0.0/16, 20"]);
    let dels = delegations();
    assert_eq!(dels.find_cc(&IpRange::from_str("192.168.1.0-192.168.1.9").unwrap()), "NL");
    assert_eq!(dels.find_cc(&IpRange::from_str("10.0.0.0-10.0.0.9").unwrap()), "XX");

    let stats = WorldStatsReporter::new(&anns, &vs, &dels).analyse();
    let get = |cc: &str| stats.entries().iter().find(|e| e.0 == cc).map(|e| e.1).unwrap();
    assert_eq!(get("all").routes_valid, 1);
    assert_eq!(get("all").routes_not_f, 1);
    assert_eq!(get("all").vrps_seen, 1);
    assert_eq!(get("NL").routes_valid, 1);
    assert_eq!(get("NL").vrps_seen, 1);
    assert_eq!(get("XX").routes_not_f, 1);

    let mut cs = CountryStats::new();
    let a = Announcement::from_str("AS1, 10.0.0.0/24").unwrap();
    let none = secure_routing_stats::validation::ValidatedAnnouncement::create(&a, &[]);
    cs.add_ann(&none, "DE");
    cs.add_ann(&none, "DE");
    assert_eq!(cs.entries().len(), 2);
    assert_eq!(cs.entries()[1].1.routes_not_f, 2);
    assert_eq!(cs.entries()[0].1.routes_not_f, 2);
}

#[test]
fn asn_set_remove_splits() {
    let mut set = AsnSet::from_str("AS10-AS20").unwrap();
    set.remove_range(AsnRange::from_str("AS12-AS13").unwrap());
    assert_eq!(set.ranges().len(), 2);
    assert!(set.contains(&Asn::new(11)));
    assert!(!set.contains(&Asn::new(12)));
    assert!(!set.contains(&Asn::new(13)));
    assert!(set.contains(&Asn::new(14)));
    set.remove_range(AsnRange::from_str("AS0-AS100").unwrap());
    assert!(set.is_empty());
}
