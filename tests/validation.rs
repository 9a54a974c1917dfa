use secure_routing_stats::announcements::{Announcement, Error as AnnError};
use secure_routing_stats::validation::{
    ValidatedAnnouncement, ValidationState, VisibilityState, VrpImpact,
};
use secure_routing_stats::vrps::{Error as VrpError, ValidatedRoaPayload};

fn vrp(s: &str) -> ValidatedRoaPayload {
    ValidatedRoaPayload::from_str(s).unwrap()
}

fn ann(s: &str) -> Announcement {
    Announcement::from_str(s).unwrap()
}

#[test]
fn should_validate_announcement() {
    let ann = ann("65000, 192.168.0.0/20");

    let vrp_valid = vrp("AS65000, 192.168.0.0/20, 20");
    let vrp_inv_len = vrp("AS65000, 192.168.0.0/16, 16");
    let vrp_inv_asn = vrp("AS65001, 192.168.0.0/16, 20");
    let vrp_not_fnd = vrp("AS65000, 192.168.0.0/24, 24");

    {
        // not found
        let validated = ValidatedAnnouncement::create(&ann, &[&vrp_not_fnd]);
        assert_eq!(&ValidationState::NotFound, validated.state());
    }

    {
        // invalid_len
        let validated =
            ValidatedAnnouncement::create(&ann, &[&vrp_inv_len, &vrp_inv_asn, &vrp_not_fnd]);
        assert_eq!(&ValidationState::InvalidLength, validated.state());
    }

    {
        // invalid asn
        let validated = ValidatedAnnouncement::create(&ann, &[&vrp_inv_asn, &vrp_not_fnd]);
        assert_eq!(&ValidationState::InvalidAsn, validated.state());
    }

    {
        // valid
        let validated = ValidatedAnnouncement::create(
            &ann,
            &[&vrp_inv_len, &vrp_inv_asn, &vrp_not_fnd, &vrp_valid],
        );
        assert_eq!(&ValidationState::Valid, validated.state());
    }
}

#[test]
fn rov_single_payload_outcomes() {
    let a = ann("AS65000, 192.168.0.0/20");
    let check = |v: &str| *ValidatedAnnouncement::create(&a, &[&vrp(v)]).state();
    assert_eq!(check("AS65000, 192.168.0.0/20, 20"), ValidationState::Valid);
    assert_eq!(check("AS65000, 192.168.0.0/16, 16"), ValidationState::InvalidLength);
    assert_eq!(check("AS65001, 192.168.0.0/16, 20"), ValidationState::InvalidAsn);
    assert_eq!(check("AS65000, 192.168.0.0/24, 24"), ValidationState::NotFound);
    assert_eq!(*ValidatedAnnouncement::create(&a, &[]).state(), ValidationState::NotFound);
}

#[test]
fn rov_precedence_does_not_depend_on_order() {
    let a = ann("AS65000, 192.168.0.0/20");
    let inv_len = vrp("AS65000, 192.168.0.0/16, 16");
    let inv_asn = vrp("AS65001, 192.168.0.0/16, 20");
    let valid = vrp("AS65000, 192.168.0.0/20, 20");
    assert_eq!(
        *ValidatedAnnouncement::create(&a, &[&inv_asn, &inv_len]).state(),
        ValidationState::InvalidLength
    );
    assert_eq!(
        *ValidatedAnnouncement::create(&a, &[&inv_len, &inv_asn]).state(),
        ValidationState::InvalidLength
    );
    assert_eq!(
        *ValidatedAnnouncement::create(&a, &[&valid, &inv_len, &inv_asn]).state(),
        ValidationState::Valid
    );
    assert_eq!(ValidatedAnnouncement::create(&a, &[&valid]).announcement(), &a);
}

#[test]
fn visibility_of_payloads() {
    let v = vrp("AS65000, 192.168.0.0/16, 20");
    let seen = ann("AS65000, 192.168.0.0/20");
    let too_long = ann("AS65000, 192.168.0.0/24");
    let other = ann("AS65001, 192.168.0.0/20");
    assert_eq!(VrpImpact::evaluate(&v, &[&seen]).state(), VisibilityState::Seen);
    assert!(!VrpImpact::evaluate(&v, &[&other, &seen]).is_unseen());
    assert!(VrpImpact::evaluate(&v, &[&too_long, &other]).is_unseen());
    assert!(VrpImpact::evaluate(&v, &[]).is_unseen());
}

#[test]
fn announcement_and_payload_lines() {
    let a = ann("AS65000, 192.168.0.0/20");
    assert_eq!(a.asn().value(), 65000);
    assert_eq!(a.prefix().length(), 20);
    let v = vrp("\"AS65001\", \"10.0.0.0/8\", \"24\"");
    assert_eq!(v.asn().value(), 65001);
    assert_eq!(v.max_length(), 24);
    assert_eq!(v.prefix().length(), 8);

    assert_eq!(Announcement::from_str("AS65000").unwrap_err(), AnnError::MissingColumn);
    assert!(matches!(Announcement::from_str("ASX, 10.0.0.0/8"), Err(AnnError::InvalidAsn(_))));
    assert!(matches!(
        Announcement::from_str("AS1, 10.0.0.0/6"),
        Err(AnnError::InvalidPrefix(_))
    ));
    assert_eq!(ValidatedRoaPayload::from_str("AS1, 10.0.0.0/8").unwrap_err(), VrpError::MissingColumn);
    assert_eq!(
        ValidatedRoaPayload::from_str("AS1, 10.0.0.0/8, x").unwrap_err(),
        VrpError::InvalidMaxLength
    );
}

#[test]
fn payload_csv_header_is_passed_over() {
    assert_eq!(ValidatedRoaPayload::from_csv_line("\"ASN\",\"IP Prefix\",\"Max Length\"").unwrap(), None);
    let v = ValidatedRoaPayload::from_csv_line("\"AS13335\",\"1.0.0.0/24\",\"24\"").unwrap().unwrap();
    assert_eq!(v.asn().value(), 13335);
    assert!(ValidatedRoaPayload::from_csv_line("AS1,10.0.0.0/8").is_err());
}
