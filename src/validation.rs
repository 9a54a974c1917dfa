//! Route origin validation of announcements against validated ROA payloads,
//! and the converse check of whether a payload is seen in BGP.

use vstd::prelude::*;
use crate::announcements::Announcement;
use crate::range_tree::deref_seq;
use crate::vrps::ValidatedRoaPayload;

verus! {

//------------ Rules ----------------------------------------------------------

/// Whether the payload's prefix holds the announced prefix.
pub open spec fn covers(vrp: ValidatedRoaPayload, ann: Announcement) -> bool {
    vrp.spec_prefix().spec_range().covers(ann.spec_prefix().spec_range())
}

/// The payload authorises the announcement: it covers it, with the same
/// ASN, and the announced length is within the maximum length.
pub open spec fn authorises(vrp: ValidatedRoaPayload, ann: Announcement) -> bool {
    &&& covers(vrp, ann)
    &&& vrp.spec_asn() == ann.spec_asn()
    &&& ann.spec_prefix().spec_length() <= vrp.spec_max_length()
}

/// The payload covers the announcement with the same ASN, but the announced
/// prefix is longer than the maximum length.
pub open spec fn too_specific(vrp: ValidatedRoaPayload, ann: Announcement) -> bool {
    &&& covers(vrp, ann)
    &&& vrp.spec_asn() == ann.spec_asn()
    &&& ann.spec_prefix().spec_length() > vrp.spec_max_length()
}

/// The payload covers the announcement for another ASN.
pub open spec fn other_origin(vrp: ValidatedRoaPayload, ann: Announcement) -> bool {
    covers(vrp, ann) && vrp.spec_asn() != ann.spec_asn()
}

/// The validation state of an announcement against a list of payloads:
/// `Valid` where one authorises it, else `InvalidLength` where one covers it
/// for its ASN, else `InvalidAsn` where one covers it at all, else
/// `NotFound`.
pub open spec fn rov_state(ann: Announcement, vrps: Seq<ValidatedRoaPayload>) -> ValidationState {
    if exists|i: int| 0 <= i < vrps.len() && authorises(#[trigger] vrps[i], ann) {
        ValidationState::Valid
    } else if exists|i: int| 0 <= i < vrps.len() && too_specific(#[trigger] vrps[i], ann) {
        ValidationState::InvalidLength
    } else if exists|i: int| 0 <= i < vrps.len() && other_origin(#[trigger] vrps[i], ann) {
        ValidationState::InvalidAsn
    } else {
        ValidationState::NotFound
    }
}

/// Whether a payload is seen in BGP: some announcement in the list is
/// authorised by it.
pub open spec fn is_seen(vrp: ValidatedRoaPayload, anns: Seq<Announcement>) -> bool {
    exists|i: int| 0 <= i < anns.len() && authorises(vrp, #[trigger] anns[i])
}

//------------ ValidationState ------------------------------------------------

#[derive(Clone, Copy, Debug, PartialEq, Eq, Structural)]
pub enum ValidationState {
    Valid,
    InvalidAsn,
    InvalidLength,
    NotFound,
}

//------------ ValidatedAnnouncement ------------------------------------------

/// An announcement with its validation state.
#[derive(Clone, Copy, Debug, PartialEq, Eq, Structural)]
pub struct ValidatedAnnouncement {
    announcement: Announcement,
    state: ValidationState,
}

impl ValidatedAnnouncement {
    pub closed spec fn spec_announcement(self) -> Announcement {
        self.announcement
    }

    pub closed spec fn spec_state(self) -> ValidationState {
        self.state
    }

    pub fn state(&self) -> (r: &ValidationState)
        ensures
            *r == self.spec_state(),
    {
        &self.state
    }

    pub fn announcement(&self) -> (r: &Announcement)
        ensures
            *r == self.spec_announcement(),
    {
        &self.announcement
    }

    /// Goes through the payloads in order: one that authorises the
    /// announcement decides `Valid` at once; one for the ASN with too short
    /// a maximum length sets `InvalidLength`; one for another ASN sets
    /// `InvalidAsn` unless `InvalidLength` is set. Payloads that do not
    /// cover the announcement are passed over.
    fn derive_state(ann: &Announcement, vrps: &[&ValidatedRoaPayload]) -> (r: ValidationState)
        ensures
            r == rov_state(*ann, deref_seq(vrps@)),
    {
        let ghost vs = deref_seq(vrps@);
        let mut state = ValidationState::NotFound;
        let mut i: usize = 0;
        while i < vrps.len()
            invariant
                i <= vrps@.len(),
                vs == deref_seq(vrps@),
                vs.len() == vrps@.len(),
                forall|j: int| 0 <= j < i ==> !authorises(#[trigger] vs[j], *ann),
                (state == ValidationState::InvalidLength) == exists|j: int|
                    0 <= j < i && too_specific(#[trigger] vs[j], *ann),
                (state == ValidationState::InvalidAsn) == ((!exists|j: int|
                    0 <= j < i && too_specific(#[trigger] vs[j], *ann)) && (exists|j: int|
                    0 <= j < i && other_origin(#[trigger] vs[j], *ann))),
                state != ValidationState::Valid,
            decreases vrps@.len() - i,
        {
            let vrp = vrps[i];
            assert(vs[i as int] == *vrp);
            if vrp.contains(&ann.prefix().range()) {
                if vrp.asn() != ann.asn() {
                    if state != ValidationState::InvalidLength {
                        state = ValidationState::InvalidAsn;
                    }
                    i += 1;
                    continue;
                }
                if ann.prefix().length() > vrp.max_length() {
                    state = ValidationState::InvalidLength;
                    i += 1;
                    continue;
                }
                assert(authorises(vs[i as int], *ann));
                return ValidationState::Valid;
            }
            i += 1;
        }
        state
    }

    /// Validates `ann` against the payloads that were found for it.
    pub fn create(ann: &Announcement, vrps: &[&ValidatedRoaPayload]) -> (r: ValidatedAnnouncement)
        ensures
            r.spec_announcement() == *ann,
            r.spec_state() == rov_state(*ann, deref_seq(vrps@)),
    {
        let state = Self::derive_state(ann, vrps);
        ValidatedAnnouncement { announcement: *ann, state }
    }
}

//------------ VrpImpact ------------------------------------------------------

#[derive(Clone, Copy, Debug, PartialEq, Eq, Structural)]
pub enum VisibilityState {
    Seen,
    Unseen,
}

/// Whether a validated ROA payload is seen in BGP.
#[derive(Clone, Copy, Debug, PartialEq, Eq, Structural)]
pub struct VrpImpact {
    state: VisibilityState,
}

impl VrpImpact {
    pub closed spec fn spec_state(self) -> VisibilityState {
        self.state
    }

    pub fn state(&self) -> (r: VisibilityState)
        ensures
            r == self.spec_state(),
    {
        self.state
    }

    /// `Seen` where one of the announcements found for `vrp` is authorised
    /// by it, else `Unseen`.
    pub fn evaluate(vrp: &ValidatedRoaPayload, anns: &[&Announcement]) -> (r: VrpImpact)
        ensures
            r.spec_state() == if is_seen(*vrp, deref_seq(anns@)) {
                VisibilityState::Seen
            } else {
                VisibilityState::Unseen
            },
    {
        let ghost xs = deref_seq(anns@);
        let mut i: usize = 0;
        while i < anns.len()
            invariant
                i <= anns@.len(),
                xs == deref_seq(anns@),
                xs.len() == anns@.len(),
                forall|j: int| 0 <= j < i ==> !authorises(*vrp, #[trigger] xs[j]),
            decreases anns@.len() - i,
        {
            let ann = anns[i];
            assert(xs[i as int] == *ann);
            if vrp.contains(&ann.prefix().range()) && vrp.asn() == ann.asn()
                && ann.prefix().length() <= vrp.max_length() {
                return VrpImpact { state: VisibilityState::Seen };
            }
            i += 1;
        }
        VrpImpact { state: VisibilityState::Unseen }
    }

    pub fn is_unseen(&self) -> (r: bool)
        ensures
            r == (self.spec_state() == VisibilityState::Unseen),
    {
        match self.state {
            VisibilityState::Unseen => true,
            VisibilityState::Seen => false,
        }
    }
}

//------------ Laws -----------------------------------------------------------

/// The validation state depends on which payloads are in the list, not on
/// their order or on how often each appears.
pub proof fn lemma_rov_state_order_free(
    ann: Announcement,
    a: Seq<ValidatedRoaPayload>,
    b: Seq<ValidatedRoaPayload>,
)
    requires
        a.to_set() == b.to_set(),
    ensures
        rov_state(ann, a) == rov_state(ann, b),
{
    assert forall|s: Seq<ValidatedRoaPayload>, t: Seq<ValidatedRoaPayload>, v: ValidatedRoaPayload|
        s.to_set() == t.to_set() && s.contains(v) implies t.contains(v) by {
        assert(s.to_set().contains(v));
    }
    assert((exists|i: int| 0 <= i < a.len() && authorises(#[trigger] a[i], ann)) == (exists|
        i: int,
    | 0 <= i < b.len() && authorises(#[trigger] b[i], ann))) by {
        if exists|i: int| 0 <= i < a.len() && authorises(#[trigger] a[i], ann) {
            let i = choose|i: int| 0 <= i < a.len() && authorises(#[trigger] a[i], ann);
            assert(a.contains(a[i]));
        }
        if exists|i: int| 0 <= i < b.len() && authorises(#[trigger] b[i], ann) {
            let i = choose|i: int| 0 <= i < b.len() && authorises(#[trigger] b[i], ann);
            assert(b.contains(b[i]));
        }
    }
    assert((exists|i: int| 0 <= i < a.len() && too_specific(#[trigger] a[i], ann)) == (exists|
        i: int,
    | 0 <= i < b.len() && too_specific(#[trigger] b[i], ann))) by {
        if exists|i: int| 0 <= i < a.len() && too_specific(#[trigger] a[i], ann) {
            let i = choose|i: int| 0 <= i < a.len() && too_specific(#[trigger] a[i], ann);
            assert(a.contains(a[i]));
        }
        if exists|i: int| 0 <= i < b.len() && too_specific(#[trigger] b[i], ann) {
            let i = choose|i: int| 0 <= i < b.len() && too_specific(#[trigger] b[i], ann);
            assert(b.contains(b[i]));
        }
    }
    assert((exists|i: int| 0 <= i < a.len() && other_origin(#[trigger] a[i], ann)) == (exists|
        i: int,
    | 0 <= i < b.len() && other_origin(#[trigger] b[i], ann))) by {
        if exists|i: int| 0 <= i < a.len() && other_origin(#[trigger] a[i], ann) {
            let i = choose|i: int| 0 <= i < a.len() && other_origin(#[trigger] a[i], ann);
            assert(a.contains(a[i]));
        }
        if exists|i: int| 0 <= i < b.len() && other_origin(#[trigger] b[i], ann) {
            let i = choose|i: int| 0 <= i < b.len() && other_origin(#[trigger] b[i], ann);
            assert(b.contains(b[i]));
        }
    }
}

/// Whether a payload is seen depends on which announcements are in the
/// list, not on their order.
pub proof fn lemma_is_seen_order_free(
    vrp: ValidatedRoaPayload,
    a: Seq<Announcement>,
    b: Seq<Announcement>,
)
    requires
        a.to_set() == b.to_set(),
    ensures
        is_seen(vrp, a) == is_seen(vrp, b),
{
    if is_seen(vrp, a) {
        let i = choose|i: int| 0 <= i < a.len() && authorises(vrp, #[trigger] a[i]);
        assert(a.to_set().contains(a[i]));
        assert(b.contains(a[i]));
    }
    if is_seen(vrp, b) {
        let i = choose|i: int| 0 <= i < b.len() && authorises(vrp, #[trigger] b[i]);
        assert(b.to_set().contains(b[i]));
        assert(a.contains(b[i]));
    }
}

/// Adding payloads to the list never turns `Valid` into anything else, and
/// never turns `InvalidLength` into `InvalidAsn` or `NotFound`.
pub proof fn lemma_rov_precedence(
    ann: Announcement,
    a: Seq<ValidatedRoaPayload>,
    b: Seq<ValidatedRoaPayload>,
)
    ensures
        rov_state(ann, a) == ValidationState::Valid ==> rov_state(ann, a + b)
            == ValidationState::Valid,
        rov_state(ann, a) == ValidationState::InvalidLength ==> (rov_state(ann, a + b)
            == ValidationState::Valid || rov_state(ann, a + b) == ValidationState::InvalidLength),
{
    if exists|i: int| 0 <= i < a.len() && authorises(#[trigger] a[i], ann) {
        let i = choose|i: int| 0 <= i < a.len() && authorises(#[trigger] a[i], ann);
        assert((a + b)[i] == a[i]);
    }
    if exists|i: int| 0 <= i < a.len() && too_specific(#[trigger] a[i], ann) {
        let i = choose|i: int| 0 <= i < a.len() && too_specific(#[trigger] a[i], ann);
        assert((a + b)[i] == a[i]);
    }
}

} // verus!
