//! What the reports count: validation states and visibility per scope and
//! per country, and the scope that limits a report.

use vstd::prelude::*;
use vstd::string::StringExecFns;
use crate::asn::{
    asn_added, asn_entry_of_lowercase, lower_of, lowercase, AsnError, AsnRange, AsnSet,
};
use crate::ip::{address_of_text, range_of_text, IpAddress, IpAddressError, IpRangeError};
use crate::resource_set::{added, IpResourceSet};
use crate::text::{chars_of, split_bounds, split_spec, without_char};
use crate::announcements::{Announcement, Announcements};
use crate::delegations::{IpDelegations, UNKNOWN_COUNTRY};
use crate::ip::IpRange;
use crate::range_tree::deref_seq;
use crate::validation::{
    is_seen, rov_state, ValidatedAnnouncement, ValidationState, VisibilityState, VrpImpact,
};
use crate::vrps::Vrps;
use crate::vrps::ValidatedRoaPayload;

verus! {

//------------ ScopeLimits ----------------------------------------------------

/// The IP ranges and ASNs that a report is limited to; an empty set does
/// not limit.
#[derive(Clone, Debug, PartialEq, Eq)]
pub struct ScopeLimits {
    ips: IpResourceSet,
    asns: AsnSet,
}

impl ScopeLimits {
    pub closed spec fn spec_ips(self) -> IpResourceSet {
        self.ips
    }

    pub closed spec fn spec_asns(self) -> AsnSet {
        self.asns
    }

    pub fn empty() -> (r: ScopeLimits)
        ensures
            r.spec_ips()@ == Seq::<crate::ip::IpRange>::empty(),
            r.spec_asns()@ == Seq::<crate::asn::AsnRange>::empty(),
            r.spec_ips().wf(),
            r.spec_asns().wf(),
    {
        ScopeLimits { ips: IpResourceSet::empty(), asns: AsnSet::empty() }
    }

    pub fn new(ips: IpResourceSet, asns: AsnSet) -> (r: ScopeLimits)
        ensures
            r.spec_ips() == ips,
            r.spec_asns() == asns,
    {
        ScopeLimits { ips, asns }
    }

    pub fn limits_ips(&self) -> (r: bool)
        ensures
            r == (self.spec_ips()@.len() > 0),
    {
        !self.ips.is_empty()
    }

    pub fn limits_asns(&self) -> (r: bool)
        ensures
            r == (self.spec_asns()@.len() > 0),
    {
        !self.asns.is_empty()
    }

    pub fn ips(&self) -> (r: &IpResourceSet)
        ensures
            *r == self.spec_ips(),
    {
        &self.ips
    }

    pub fn asns(&self) -> (r: &AsnSet)
        ensures
            *r == self.spec_asns(),
    {
        &self.asns
    }
}

//------------ Counters -------------------------------------------------------

/// `c + 1` where the state is `s`, else `c`.
pub open spec fn bump(c: usize, hit: bool) -> usize {
    if hit {
        (c + 1) as usize
    } else {
        c
    }
}

//------------ CountryStat ----------------------------------------------------

/// Counts of announcements by validation state, and of payloads by
/// visibility.
#[derive(Clone, Copy, Debug, PartialEq, Eq, Structural)]
pub struct CountryStat {
    pub routes_valid: usize,
    pub routes_inv_l: usize,
    pub routes_inv_a: usize,
    pub routes_not_f: usize,
    pub vrps_seen: usize,
    pub vrps_unseen: usize,
}

/// `st` with one more announcement in state `s`.
pub open spec fn with_ann(st: CountryStat, s: ValidationState) -> CountryStat {
    CountryStat {
        routes_valid: bump(st.routes_valid, s == ValidationState::Valid),
        routes_inv_l: bump(st.routes_inv_l, s == ValidationState::InvalidLength),
        routes_inv_a: bump(st.routes_inv_a, s == ValidationState::InvalidAsn),
        routes_not_f: bump(st.routes_not_f, s == ValidationState::NotFound),
        ..st
    }
}

/// `st` with one more payload of visibility `v`.
pub open spec fn with_impact(st: CountryStat, v: VisibilityState) -> CountryStat {
    CountryStat {
        vrps_seen: bump(st.vrps_seen, v == VisibilityState::Seen),
        vrps_unseen: bump(st.vrps_unseen, v == VisibilityState::Unseen),
        ..st
    }
}

/// No counter is at its largest value.
pub open spec fn room_in(st: CountryStat) -> bool {
    &&& st.routes_valid < usize::MAX
    &&& st.routes_inv_l < usize::MAX
    &&& st.routes_inv_a < usize::MAX
    &&& st.routes_not_f < usize::MAX
    &&& st.vrps_seen < usize::MAX
    &&& st.vrps_unseen < usize::MAX
}

impl CountryStat {
    pub fn new() -> (r: CountryStat)
        ensures
            r == (CountryStat {
                routes_valid: 0,
                routes_inv_l: 0,
                routes_inv_a: 0,
                routes_not_f: 0,
                vrps_seen: 0,
                vrps_unseen: 0,
            }),
    {
        CountryStat {
            routes_valid: 0,
            routes_inv_l: 0,
            routes_inv_a: 0,
            routes_not_f: 0,
            vrps_seen: 0,
            vrps_unseen: 0,
        }
    }

    /// Counts one announcement under its state.
    pub fn add_ann(&mut self, ann: &ValidatedAnnouncement)
        requires
            room_in(*old(self)),
        ensures
            *final(self) == with_ann(*old(self), ann.spec_state()),
    {
        match ann.state() {
            ValidationState::Valid => self.routes_valid = self.routes_valid + 1,
            ValidationState::InvalidLength => self.routes_inv_l = self.routes_inv_l + 1,
            ValidationState::InvalidAsn => self.routes_inv_a = self.routes_inv_a + 1,
            ValidationState::NotFound => self.routes_not_f = self.routes_not_f + 1,
        }
    }

    /// Counts one payload as seen or unseen.
    pub fn add_impact(&mut self, impact: &VrpImpact)
        requires
            room_in(*old(self)),
        ensures
            *final(self) == with_impact(*old(self), impact.spec_state()),
    {
        if impact.is_unseen() {
            self.vrps_unseen = self.vrps_unseen + 1;
        } else {
            self.vrps_seen = self.vrps_seen + 1;
        }
    }

    /// All announcements counted.
    pub fn total(&self) -> (r: u128)
        ensures
            r == self.routes_valid + self.routes_inv_l + self.routes_inv_a + self.routes_not_f,
    {
        self.routes_valid as u128 + self.routes_inv_l as u128 + self.routes_inv_a as u128
            + self.routes_not_f as u128
    }

    /// The announcements that some payload covers.
    pub fn covered(&self) -> (r: u128)
        ensures
            r == self.routes_valid + self.routes_inv_a + self.routes_inv_l,
    {
        self.routes_valid as u128 + self.routes_inv_a as u128 + self.routes_inv_l as u128
    }

    /// Covered announcements per ten thousand announcements, rounded down;
    /// `None` where there are none.
    pub fn adoption_basis_points(&self) -> (r: Option<u128>)
        ensures
            r == (if self.routes_valid + self.routes_inv_l + self.routes_inv_a + self.routes_not_f
                == 0 {
                None
            } else {
                Some(
                    ((self.routes_valid + self.routes_inv_a + self.routes_inv_l) * 10000 / (
                    self.routes_valid + self.routes_inv_l + self.routes_inv_a
                        + self.routes_not_f)) as u128,
                )
            }),
    {
        let total = self.total();
        if total == 0 {
            None
        } else {
            Some(self.covered() * 10000 / total)
        }
    }

    /// Valid announcements per ten thousand announcements, rounded down;
    /// `None` where there are none.
    pub fn valid_basis_points(&self) -> (r: Option<u128>)
        ensures
            r == (if self.routes_valid + self.routes_inv_l + self.routes_inv_a + self.routes_not_f
                == 0 {
                None
            } else {
                Some(
                    (self.routes_valid * 10000 / (self.routes_valid + self.routes_inv_l
                        + self.routes_inv_a + self.routes_not_f)) as u128,
                )
            }),
    {
        let total = self.total();
        if total == 0 {
            None
        } else {
            Some(self.routes_valid as u128 * 10000 / total)
        }
    }

    /// Valid announcements per ten thousand covered ones, rounded down;
    /// `None` where none is covered.
    pub fn quality_basis_points(&self) -> (r: Option<u128>)
        ensures
            r == (if self.routes_valid + self.routes_inv_a + self.routes_inv_l == 0 {
                None
            } else {
                Some(
                    (self.routes_valid * 10000 / (self.routes_valid + self.routes_inv_a
                        + self.routes_inv_l)) as u128,
                )
            }),
    {
        let covered = self.covered();
        if covered == 0 {
            None
        } else {
            Some(self.routes_valid as u128 * 10000 / covered)
        }
    }

    /// Seen payloads per ten thousand payloads, rounded down; `None` where
    /// there are none.
    pub fn seen_basis_points(&self) -> (r: Option<u128>)
        ensures
            r == (if self.vrps_seen + self.vrps_unseen == 0 {
                None
            } else {
                Some((self.vrps_seen * 10000 / (self.vrps_seen + self.vrps_unseen)) as u128)
            }),
    {
        let total = self.vrps_seen as u128 + self.vrps_unseen as u128;
        if total == 0 {
            None
        } else {
            Some(self.vrps_seen as u128 * 10000 / total)
        }
    }
}

//------------ CountryStats ---------------------------------------------------

/// The key under which all countries together are counted.
pub const ALL_COUNTRIES: &'static str = "all";

/// Where `key` stands among the entries, or `-1`.
pub open spec fn key_index(entries: Seq<(Seq<char>, CountryStat)>, key: Seq<char>) -> int
    decreases entries.len(),
{
    if entries.len() == 0 {
        -1
    } else if entries.last().0 == key {
        entries.len() - 1
    } else {
        key_index(entries.drop_last(), key)
    }
}

/// The entries with the statistic under `key` changed by `f`; a key not
/// there yet starts from zero at the end.
pub open spec fn update_key(
    entries: Seq<(Seq<char>, CountryStat)>,
    key: Seq<char>,
    f: spec_fn(CountryStat) -> CountryStat,
) -> Seq<(Seq<char>, CountryStat)> {
    let i = key_index(entries, key);
    if i >= 0 {
        entries.update(i, (key, f(entries[i].1)))
    } else {
        entries.push(
            (
                key,
                f(
                    CountryStat {
                        routes_valid: 0,
                        routes_inv_l: 0,
                        routes_inv_a: 0,
                        routes_not_f: 0,
                        vrps_seen: 0,
                        vrps_unseen: 0,
                    },
                ),
            ),
        )
    }
}

proof fn lemma_key_index(entries: Seq<(Seq<char>, CountryStat)>, key: Seq<char>)
    ensures
        -1 <= key_index(entries, key) < entries.len(),
        key_index(entries, key) >= 0 ==> entries[key_index(entries, key)].0 == key,
        key_index(entries, key) < 0 ==> forall|i: int|
            0 <= i < entries.len() ==> (#[trigger] entries[i]).0 != key,
    decreases entries.len(),
{
    if entries.len() > 0 {
        lemma_key_index(entries.drop_last(), key);
        if entries.last().0 != key && key_index(entries, key) < 0 {
            assert forall|i: int| 0 <= i < entries.len() implies (#[trigger] entries[i]).0
                != key by {
                if i < entries.len() - 1 {
                    assert(entries.drop_last()[i] == entries[i]);
                }
            }
        }
    }
}

/// Statistics per country code, with the total under `all`.
#[derive(Clone, Debug)]
pub struct CountryStats {
    stats: Vec<(String, CountryStat)>,
}

impl View for CountryStats {
    type V = Seq<(Seq<char>, CountryStat)>;

    closed spec fn view(&self) -> Seq<(Seq<char>, CountryStat)> {
        self.stats@.map_values(|e: (String, CountryStat)| (e.0@, e.1))
    }
}

impl CountryStats {
    /// Every statistic has room for two more counts, so that one event can
    /// be counted under its country and under `all`.
    pub open spec fn has_room(&self) -> bool {
        forall|i: int|
            0 <= i < self@.len() ==> {
                let st = (#[trigger] self@[i]).1;
                &&& st.routes_valid < usize::MAX - 1
                &&& st.routes_inv_l < usize::MAX - 1
                &&& st.routes_inv_a < usize::MAX - 1
                &&& st.routes_not_f < usize::MAX - 1
                &&& st.vrps_seen < usize::MAX - 1
                &&& st.vrps_unseen < usize::MAX - 1
            }
    }

    /// Only `all`, with nothing counted.
    pub fn new() -> (r: CountryStats)
        ensures
            r@ == seq![(ALL_COUNTRIES@, CountryStat::new_spec())],
    {
        let mut stats: Vec<(String, CountryStat)> = Vec::new();
        stats.push((ALL_COUNTRIES.to_string(), CountryStat::new()));
        let r = CountryStats { stats };
        assert(r@ =~= seq![(ALL_COUNTRIES@, CountryStat::new_spec())]);
        r
    }

    pub fn entries(&self) -> (r: &Vec<(String, CountryStat)>)
        ensures
            r@.map_values(|e: (String, CountryStat)| (e.0@, e.1)) == self@,
    {
        &self.stats
    }

    /// Where `cc` stands, or `None`.
    fn find(&self, cc: &str) -> (r: Option<usize>)
        ensures
            r matches Some(i) ==> i as int == key_index(self@, cc@),
            r is None ==> key_index(self@, cc@) < 0,
    {
        proof {
            lemma_key_index(self@, cc@);
        }
        let key = String::from_str(cc);
        let mut i = self.stats.len();
        while i > 0
            invariant
                key@ == cc@,
                i <= self@.len(),
                forall|j: int| i <= j < self@.len() ==> (#[trigger] self@[j]).0 != cc@,
            decreases i,
        {
            i -= 1;
            assert(self@[i as int] == (self.stats@[i as int].0@, self.stats@[i as int].1));
            if self.stats[i].0 == key {
                proof {
                    lemma_key_index_last(self@, cc@, i as int);
                }
                return Some(i);
            }
        }
        proof {
            if key_index(self@, cc@) >= 0 {
                assert(self@[key_index(self@, cc@)].0 == cc@);
            }
        }
        None
    }
}

/// The last entry with `key` is the one that `key_index` names.
proof fn lemma_key_index_last(entries: Seq<(Seq<char>, CountryStat)>, key: Seq<char>, i: int)
    requires
        0 <= i < entries.len(),
        entries[i].0 == key,
        forall|j: int| i < j < entries.len() ==> (#[trigger] entries[j]).0 != key,
    ensures
        key_index(entries, key) == i,
    decreases entries.len(),
{
    if i < entries.len() - 1 {
        assert forall|j: int| i < j < entries.len() - 1 implies (#[trigger] entries.drop_last()[j]).0
            != key by {
            assert(entries.drop_last()[j] == entries[j]);
        }
        lemma_key_index_last(entries.drop_last(), key, i);
    }
}

impl CountryStat {
    pub open spec fn new_spec() -> CountryStat {
        CountryStat {
            routes_valid: 0,
            routes_inv_l: 0,
            routes_inv_a: 0,
            routes_not_f: 0,
            vrps_seen: 0,
            vrps_unseen: 0,
        }
    }
}

/// No counter of any entry exceeds `b`.
pub open spec fn counts_within(entries: Seq<(Seq<char>, CountryStat)>, b: int) -> bool {
    forall|i: int|
        0 <= i < entries.len() ==> {
            let st = (#[trigger] entries[i]).1;
            &&& st.routes_valid <= b
            &&& st.routes_inv_l <= b
            &&& st.routes_inv_a <= b
            &&& st.routes_not_f <= b
            &&& st.vrps_seen <= b
            &&& st.vrps_unseen <= b
        }
}

/// Counting one event raises no counter by more than one.
proof fn lemma_update_within(
    entries: Seq<(Seq<char>, CountryStat)>,
    key: Seq<char>,
    f: spec_fn(CountryStat) -> CountryStat,
    b: int,
)
    requires
        0 <= b,
        counts_within(entries, b),
        forall|st: CountryStat|
            #![trigger f(st)]
            {
                &&& f(st).routes_valid <= st.routes_valid + 1
                &&& f(st).routes_inv_l <= st.routes_inv_l + 1
                &&& f(st).routes_inv_a <= st.routes_inv_a + 1
                &&& f(st).routes_not_f <= st.routes_not_f + 1
                &&& f(st).vrps_seen <= st.vrps_seen + 1
                &&& f(st).vrps_unseen <= st.vrps_unseen + 1
            },
    ensures
        counts_within(update_key(entries, key, f), b + 1),
{
    lemma_key_index(entries, key);
    let r = update_key(entries, key, f);
    assert forall|i: int| 0 <= i < r.len() implies {
        let st = (#[trigger] r[i]).1;
        &&& st.routes_valid <= b + 1
        &&& st.routes_inv_l <= b + 1
        &&& st.routes_inv_a <= b + 1
        &&& st.routes_not_f <= b + 1
        &&& st.vrps_seen <= b + 1
        &&& st.vrps_unseen <= b + 1
    } by {
        if i < entries.len() {
            let st0 = entries[i].1;
            assert(st0.routes_valid <= b);
        } else {
            let z = CountryStat::new_spec();
            assert(f(z).routes_valid <= 1);
        }
    }
}

impl CountryStats {
    /// Counts `ann` under `cc`, starting a statistic for `cc` where it is new.
    fn update_ann(&mut self, cc: &str, ann: &ValidatedAnnouncement)
        requires
            counts_within(old(self)@, usize::MAX as int - 1),
        ensures
            final(self)@ == update_key(
                old(self)@,
                cc@,
                |st: CountryStat| with_ann(st, ann.spec_state()),
            ),
    {
        proof {
            lemma_key_index(self@, cc@);
        }
        let ghost before = self@;
        match self.find(cc) {
            Some(i) => {
                assert(before[i as int] == (self.stats@[i as int].0@, self.stats@[i as int].1));
                self.stats[i].1.add_ann(ann);
                assert(self@ =~= before.update(
                    i as int,
                    (cc@, with_ann(before[i as int].1, ann.spec_state())),
                ));
            },
            None => {
                let mut st = CountryStat::new();
                st.add_ann(ann);
                self.stats.push((String::from_str(cc), st));
                assert(self@ =~= before.push((cc@, with_ann(CountryStat::new_spec(), ann.spec_state()))));
            },
        }
    }

    /// Counts `impact` under `cc`, starting a statistic for `cc` where it is new.
    fn update_impact(&mut self, cc: &str, impact: &VrpImpact)
        requires
            counts_within(old(self)@, usize::MAX as int - 1),
        ensures
            final(self)@ == update_key(
                old(self)@,
                cc@,
                |st: CountryStat| with_impact(st, impact.spec_state()),
            ),
    {
        proof {
            lemma_key_index(self@, cc@);
        }
        let ghost before = self@;
        match self.find(cc) {
            Some(i) => {
                assert(before[i as int] == (self.stats@[i as int].0@, self.stats@[i as int].1));
                self.stats[i].1.add_impact(impact);
                assert(self@ =~= before.update(
                    i as int,
                    (cc@, with_impact(before[i as int].1, impact.spec_state())),
                ));
            },
            None => {
                let mut st = CountryStat::new();
                st.add_impact(impact);
                self.stats.push((String::from_str(cc), st));
                assert(self@ =~= before.push(
                    (cc@, with_impact(CountryStat::new_spec(), impact.spec_state())),
                ));
            },
        }
    }

    /// Counts an announcement under its country and under `all`.
    pub fn add_ann(&mut self, ann: &ValidatedAnnouncement, cc: &str)
        requires
            counts_within(old(self)@, usize::MAX as int - 2),
        ensures
            final(self)@ == update_key(
                update_key(old(self)@, cc@, |st: CountryStat| with_ann(st, ann.spec_state())),
                ALL_COUNTRIES@,
                |st: CountryStat| with_ann(st, ann.spec_state()),
            ),
            counts_within(final(self)@, usize::MAX as int),
    {
        proof {
            lemma_update_within(
                self@,
                cc@,
                |st: CountryStat| with_ann(st, ann.spec_state()),
                usize::MAX as int - 2,
            );
        }
        self.update_ann(cc, ann);
        proof {
            lemma_update_within(
                self@,
                ALL_COUNTRIES@,
                |st: CountryStat| with_ann(st, ann.spec_state()),
                usize::MAX as int - 1,
            );
        }
        self.update_ann(ALL_COUNTRIES, ann);
    }

    /// Counts a payload's visibility under its country and under `all`.
    pub fn add_impact(&mut self, imp: &VrpImpact, cc: &str)
        requires
            counts_within(old(self)@, usize::MAX as int - 2),
        ensures
            final(self)@ == update_key(
                update_key(old(self)@, cc@, |st: CountryStat| with_impact(st, imp.spec_state())),
                ALL_COUNTRIES@,
                |st: CountryStat| with_impact(st, imp.spec_state()),
            ),
            counts_within(final(self)@, usize::MAX as int),
    {
        proof {
            lemma_update_within(
                self@,
                cc@,
                |st: CountryStat| with_impact(st, imp.spec_state()),
                usize::MAX as int - 2,
            );
        }
        self.update_impact(cc, imp);
        proof {
            lemma_update_within(
                self@,
                ALL_COUNTRIES@,
                |st: CountryStat| with_impact(st, imp.spec_state()),
                usize::MAX as int - 1,
            );
        }
        self.update_impact(ALL_COUNTRIES, imp);
    }
}

//------------ AnnouncementsResult --------------------------------------------

/// Totals of announcements by validation state, and the invalid ones.
#[derive(Clone, Debug)]
pub struct AnnouncementsResult {
    pub valid: usize,
    pub invalid_asn: usize,
    pub invalid_length: usize,
    pub not_found: usize,
    pub invalids: Vec<ValidatedAnnouncement>,
}

impl AnnouncementsResult {
    pub fn new() -> (r: AnnouncementsResult)
        ensures
            r.valid == 0 && r.invalid_asn == 0 && r.invalid_length == 0 && r.not_found == 0,
            r.invalids@ == Seq::<ValidatedAnnouncement>::empty(),
    {
        AnnouncementsResult {
            valid: 0,
            invalid_asn: 0,
            invalid_length: 0,
            not_found: 0,
            invalids: Vec::new(),
        }
    }

    /// Counts `ann` under its state, and keeps it where it is invalid.
    pub fn add(&mut self, ann: ValidatedAnnouncement)
        requires
            old(self).valid < usize::MAX,
            old(self).invalid_asn < usize::MAX,
            old(self).invalid_length < usize::MAX,
            old(self).not_found < usize::MAX,
        ensures
            final(self).valid == bump(old(self).valid, ann.spec_state() == ValidationState::Valid),
            final(self).invalid_asn == bump(
                old(self).invalid_asn,
                ann.spec_state() == ValidationState::InvalidAsn,
            ),
            final(self).invalid_length == bump(
                old(self).invalid_length,
                ann.spec_state() == ValidationState::InvalidLength,
            ),
            final(self).not_found == bump(
                old(self).not_found,
                ann.spec_state() == ValidationState::NotFound,
            ),
            final(self).invalids@ == if ann.spec_state() == ValidationState::InvalidAsn
                || ann.spec_state() == ValidationState::InvalidLength {
                old(self).invalids@.push(ann)
            } else {
                old(self).invalids@
            },
    {
        match ann.state() {
            ValidationState::Valid => {
                self.valid = self.valid + 1;
            },
            ValidationState::InvalidLength => {
                self.invalid_length = self.invalid_length + 1;
                self.invalids.push(ann);
            },
            ValidationState::InvalidAsn => {
                self.invalid_asn = self.invalid_asn + 1;
                self.invalids.push(ann);
            },
            ValidationState::NotFound => {
                self.not_found = self.not_found + 1;
            },
        }
    }

    /// All announcements counted.
    pub fn total(&self) -> (r: u128)
        ensures
            r == self.valid + self.invalid_asn + self.invalid_length + self.not_found,
    {
        self.valid as u128 + self.invalid_asn as u128 + self.invalid_length as u128
            + self.not_found as u128
    }
}

//------------ VisibilityResult -----------------------------------------------

/// The number of payloads looked at, and the ones unseen in BGP.
#[derive(Clone, Debug)]
pub struct VisibilityResult {
    pub total: usize,
    pub unseen: Vec<ValidatedRoaPayload>,
}

impl VisibilityResult {
    pub fn new() -> (r: VisibilityResult)
        ensures
            r.total == 0,
            r.unseen@ == Seq::<ValidatedRoaPayload>::empty(),
    {
        VisibilityResult { total: 0, unseen: Vec::new() }
    }

    /// Counts `vrp`, and keeps it where it is unseen.
    pub fn add(&mut self, vrp: &ValidatedRoaPayload, impact: &VrpImpact)
        requires
            old(self).total < usize::MAX,
        ensures
            final(self).total == old(self).total + 1,
            final(self).unseen@ == if impact.spec_state() == VisibilityState::Unseen {
                old(self).unseen@.push(*vrp)
            } else {
                old(self).unseen@
            },
    {
        self.total = self.total + 1;
        if impact.is_unseen() {
            self.unseen.push(*vrp);
        }
    }
}

/// What a resource report finds: announcements by state, and payloads by
/// visibility.
#[derive(Clone, Debug)]
pub struct ResourceReportResult {
    pub announcements: AnnouncementsResult,
    pub vrps: VisibilityResult,
}

//------------ InvalidsResult -------------------------------------------------

/// Totals of announcements by validation state.
#[derive(Clone, Copy, Debug, PartialEq, Eq, Structural)]
pub struct InvalidsResultTotals {
    pub valid: usize,
    pub invalid_asn: usize,
    pub invalid_length: usize,
    pub not_found: usize,
}

impl InvalidsResultTotals {
    pub fn new() -> (r: InvalidsResultTotals)
        ensures
            r == (InvalidsResultTotals { valid: 0, invalid_asn: 0, invalid_length: 0, not_found: 0 }),
    {
        InvalidsResultTotals { valid: 0, invalid_asn: 0, invalid_length: 0, not_found: 0 }
    }

    /// Counts `ann` under its state.
    pub fn add(&mut self, ann: &ValidatedAnnouncement)
        requires
            old(self).valid < usize::MAX,
            old(self).invalid_asn < usize::MAX,
            old(self).invalid_length < usize::MAX,
            old(self).not_found < usize::MAX,
        ensures
            final(self).valid == bump(old(self).valid, ann.spec_state() == ValidationState::Valid),
            final(self).invalid_asn == bump(
                old(self).invalid_asn,
                ann.spec_state() == ValidationState::InvalidAsn,
            ),
            final(self).invalid_length == bump(
                old(self).invalid_length,
                ann.spec_state() == ValidationState::InvalidLength,
            ),
            final(self).not_found == bump(
                old(self).not_found,
                ann.spec_state() == ValidationState::NotFound,
            ),
    {
        match ann.state() {
            ValidationState::Valid => self.valid = self.valid + 1,
            ValidationState::InvalidLength => self.invalid_length = self.invalid_length + 1,
            ValidationState::InvalidAsn => self.invalid_asn = self.invalid_asn + 1,
            ValidationState::NotFound => self.not_found = self.not_found + 1,
        }
    }
}

/// Totals of announcements by state, and the invalid ones.
#[derive(Clone, Debug)]
pub struct InvalidsResult {
    pub totals: InvalidsResultTotals,
    pub invalids: Vec<ValidatedAnnouncement>,
}

impl InvalidsResult {
    pub fn new() -> (r: InvalidsResult)
        ensures
            r.totals == InvalidsResultTotals::new_spec(),
            r.invalids@ == Seq::<ValidatedAnnouncement>::empty(),
    {
        InvalidsResult { totals: InvalidsResultTotals::new(), invalids: Vec::new() }
    }

    /// Counts `ann`, and keeps it where it is invalid.
    pub fn add(&mut self, ann: ValidatedAnnouncement)
        requires
            old(self).totals.valid < usize::MAX,
            old(self).totals.invalid_asn < usize::MAX,
            old(self).totals.invalid_length < usize::MAX,
            old(self).totals.not_found < usize::MAX,
        ensures
            final(self).totals.valid == bump(
                old(self).totals.valid,
                ann.spec_state() == ValidationState::Valid,
            ),
            final(self).totals.invalid_asn == bump(
                old(self).totals.invalid_asn,
                ann.spec_state() == ValidationState::InvalidAsn,
            ),
            final(self).totals.invalid_length == bump(
                old(self).totals.invalid_length,
                ann.spec_state() == ValidationState::InvalidLength,
            ),
            final(self).totals.not_found == bump(
                old(self).totals.not_found,
                ann.spec_state() == ValidationState::NotFound,
            ),
            final(self).invalids@ == if ann.spec_state() == ValidationState::InvalidAsn
                || ann.spec_state() == ValidationState::InvalidLength {
                old(self).invalids@.push(ann)
            } else {
                old(self).invalids@
            },
    {
        self.totals.add(&ann);
        match ann.state() {
            ValidationState::InvalidLength => self.invalids.push(ann),
            ValidationState::InvalidAsn => self.invalids.push(ann),
            _ => {},
        }
    }
}

impl InvalidsResultTotals {
    pub open spec fn new_spec() -> InvalidsResultTotals {
        InvalidsResultTotals { valid: 0, invalid_asn: 0, invalid_length: 0, not_found: 0 }
    }
}

//------------ UnseenReportResult ---------------------------------------------

/// The number of payloads looked at, and the ones unseen in BGP.
#[derive(Clone, Debug)]
pub struct UnseenReportResult {
    pub total_vrps: usize,
    pub stale: Vec<ValidatedRoaPayload>,
}

impl UnseenReportResult {
    pub fn new() -> (r: UnseenReportResult)
        ensures
            r.total_vrps == 0,
            r.stale@ == Seq::<ValidatedRoaPayload>::empty(),
    {
        UnseenReportResult { total_vrps: 0, stale: Vec::new() }
    }

    /// Counts `vrp`, and keeps it where it is unseen.
    pub fn add(&mut self, vrp: &ValidatedRoaPayload, impact: &VrpImpact)
        requires
            old(self).total_vrps < usize::MAX,
        ensures
            final(self).total_vrps == old(self).total_vrps + 1,
            final(self).stale@ == if impact.spec_state() == VisibilityState::Unseen {
                old(self).stale@.push(*vrp)
            } else {
                old(self).stale@
            },
    {
        self.total_vrps = self.total_vrps + 1;
        if impact.is_unseen() {
            self.stale.push(*vrp);
        }
    }
}

/// The output formats of the resource report.
#[derive(Clone, Copy, Debug, PartialEq, Eq, Structural)]
pub enum ReportFormat {
    Json,
    Text,
}

/// The output formats of the world report.
#[derive(Clone, Copy, Debug, PartialEq, Eq, Structural)]
pub enum WorldStatsFormat {
    Json,
    Text,
}

//------------ Analysis -------------------------------------------------------

/// The validation state of `ann` against the payloads that cover it.
pub open spec fn state_of(ann: Announcement, vrps: Vrps) -> ValidationState {
    rov_state(ann, vrps.containing_spec(ann.spec_prefix().spec_range()))
}

/// How many of `anns` are in state `s`.
pub open spec fn count_state(anns: Seq<Announcement>, vrps: Vrps, s: ValidationState) -> nat
    decreases anns.len(),
{
    if anns.len() == 0 {
        0
    } else {
        count_state(anns.drop_last(), vrps, s) + if state_of(anns.last(), vrps) == s {
            1nat
        } else {
            0nat
        }
    }
}

/// The announcements among `anns` that are invalid, in order.
pub open spec fn invalid_anns(anns: Seq<Announcement>, vrps: Vrps) -> Seq<Announcement>
    decreases anns.len(),
{
    if anns.len() == 0 {
        anns
    } else {
        let p = invalid_anns(anns.drop_last(), vrps);
        let s = state_of(anns.last(), vrps);
        if s == ValidationState::InvalidAsn || s == ValidationState::InvalidLength {
            p.push(anns.last())
        } else {
            p
        }
    }
}

/// Whether `vrp` authorises one of the announcements inside its prefix.
pub open spec fn seen_of(vrp: ValidatedRoaPayload, anns: Announcements) -> bool {
    is_seen(vrp, anns.contained_by_spec(vrp.spec_prefix().spec_range()))
}

/// The payloads among `vrps` that are not seen, in order.
pub open spec fn unseen_vrps(vrps: Seq<ValidatedRoaPayload>, anns: Announcements) -> Seq<
    ValidatedRoaPayload,
>
    decreases vrps.len(),
{
    if vrps.len() == 0 {
        vrps
    } else {
        let p = unseen_vrps(vrps.drop_last(), anns);
        if seen_of(vrps.last(), anns) {
            p
        } else {
            p.push(vrps.last())
        }
    }
}

/// The announcements that validated announcements are about.
pub open spec fn announcements_of(vs: Seq<ValidatedAnnouncement>) -> Seq<Announcement> {
    vs.map_values(|v: ValidatedAnnouncement| v.spec_announcement())
}

/// Reports, for a scope, how announcements validate and which payloads are
/// seen.
pub struct ResourceReporter<'a> {
    announcements: &'a Announcements,
    vrps: &'a Vrps,
}

impl<'a> ResourceReporter<'a> {
    pub closed spec fn spec_announcements(&self) -> Announcements {
        *self.announcements
    }

    pub closed spec fn spec_vrps(&self) -> Vrps {
        *self.vrps
    }

    pub fn new(announcements: &'a Announcements, vrps: &'a Vrps) -> (r: ResourceReporter<'a>)
        ensures
            r.spec_announcements() == *announcements,
            r.spec_vrps() == *vrps,
    {
        ResourceReporter { announcements, vrps }
    }

    /// Validates every announcement in scope against the payloads that
    /// cover it, and checks every payload in scope against the announcements
    /// inside it.
    pub fn analyse(&self, scope: &ScopeLimits) -> (r: ResourceReportResult)
        ensures
            ({
                let anns = self.spec_announcements().in_scope_spec(*scope);
                let vrps = self.spec_vrps();
                &&& r.announcements.valid == count_state(anns, vrps, ValidationState::Valid)
                &&& r.announcements.invalid_asn == count_state(
                    anns,
                    vrps,
                    ValidationState::InvalidAsn,
                )
                &&& r.announcements.invalid_length == count_state(
                    anns,
                    vrps,
                    ValidationState::InvalidLength,
                )
                &&& r.announcements.not_found == count_state(
                    anns,
                    vrps,
                    ValidationState::NotFound,
                )
                &&& announcements_of(r.announcements.invalids@) == invalid_anns(anns, vrps)
                &&& forall|i: int|
                    0 <= i < r.announcements.invalids@.len() ==> (
                    #[trigger] r.announcements.invalids@[i]).spec_state() == state_of(
                        r.announcements.invalids@[i].spec_announcement(),
                        vrps,
                    )
            }),
            r.vrps.total == self.spec_vrps().in_scope_spec(*scope).len(),
            r.vrps.unseen@ == unseen_vrps(
                self.spec_vrps().in_scope_spec(*scope),
                self.spec_announcements(),
            ),
    {
        let ghost vrps_v = *self.vrps;
        let anns = self.announcements.in_scope(scope);
        let ghost av = deref_seq(anns@);
        let mut anns_res = AnnouncementsResult::new();
        let mut i: usize = 0;
        while i < anns.len()
            invariant
                i <= anns@.len(),
                av == deref_seq(anns@),
                av.len() == anns@.len(),
                vrps_v == *self.vrps,
                anns_res.valid == count_state(av.subrange(0, i as int), vrps_v, ValidationState::Valid),
                anns_res.invalid_asn == count_state(
                    av.subrange(0, i as int),
                    vrps_v,
                    ValidationState::InvalidAsn,
                ),
                anns_res.invalid_length == count_state(
                    av.subrange(0, i as int),
                    vrps_v,
                    ValidationState::InvalidLength,
                ),
                anns_res.not_found == count_state(
                    av.subrange(0, i as int),
                    vrps_v,
                    ValidationState::NotFound,
                ),
                anns_res.valid + anns_res.invalid_asn + anns_res.invalid_length + anns_res.not_found
                    == i,
                announcements_of(anns_res.invalids@) == invalid_anns(av.subrange(0, i as int), vrps_v),
                forall|k: int|
                    0 <= k < anns_res.invalids@.len() ==> (#[trigger] anns_res.invalids@[k]).spec_state()
                        == state_of(anns_res.invalids@[k].spec_announcement(), vrps_v),
            decreases anns@.len() - i,
        {
            let ann = anns[i];
            assert(av[i as int] == *ann);
            let ghost prefix = av.subrange(0, i as int + 1);
            assert(prefix.drop_last() =~= av.subrange(0, i as int));
            assert(prefix.last() == *ann);
            let range = ann.prefix().range();
            let matching = self.vrps.containing(&range);
            let validated = ValidatedAnnouncement::create(ann, matching.as_slice());
            let ghost before = anns_res.invalids@;
            anns_res.add(validated);
            assert(announcements_of(anns_res.invalids@) =~= invalid_anns(prefix, vrps_v)) by {
                if anns_res.invalids@.len() > before.len() {
                    assert(anns_res.invalids@ == before.push(validated));
                }
            }
            i += 1;
        }
        assert(av.subrange(0, i as int) =~= av);
        let vrps = self.vrps.in_scope(scope);
        let ghost vv = deref_seq(vrps@);
        let mut vrps_res = VisibilityResult::new();
        let mut j: usize = 0;
        while j < vrps.len()
            invariant
                j <= vrps@.len(),
                vv == deref_seq(vrps@),
                vv.len() == vrps@.len(),
                vrps_res.total == j,
                vrps_res.unseen@ == unseen_vrps(vv.subrange(0, j as int), *self.announcements),
            decreases vrps@.len() - j,
        {
            let vrp = vrps[j];
            assert(vv[j as int] == *vrp);
            let ghost prefix = vv.subrange(0, j as int + 1);
            assert(prefix.drop_last() =~= vv.subrange(0, j as int));
            let range = vrp.prefix().range();
            let matching = self.announcements.contained_by(&range);
            let impact = VrpImpact::evaluate(vrp, matching.as_slice());
            vrps_res.add(vrp, &impact);
            j += 1;
        }
        assert(vv.subrange(0, j as int) =~= vv);
        ResourceReportResult { announcements: anns_res, vrps: vrps_res }
    }
}


/// The country of the first delegation that covers `range`, or `XX`.
pub open spec fn cc_of(dels: IpDelegations, range: IpRange) -> Seq<char> {
    if dels.covering(range).len() > 0 {
        dels.covering(range)[0].spec_cc()
    } else {
        UNKNOWN_COUNTRY@
    }
}

/// The statistics after counting `anns` in order, each under its country
/// and under `all`.
pub open spec fn world_anns(
    entries: Seq<(Seq<char>, CountryStat)>,
    anns: Seq<Announcement>,
    vrps: Vrps,
    dels: IpDelegations,
) -> Seq<(Seq<char>, CountryStat)>
    decreases anns.len(),
{
    if anns.len() == 0 {
        entries
    } else {
        let e = world_anns(entries, anns.drop_last(), vrps, dels);
        let s = state_of(anns.last(), vrps);
        let cc = cc_of(dels, anns.last().spec_prefix().spec_range());
        update_key(
            update_key(e, cc, |st: CountryStat| with_ann(st, s)),
            ALL_COUNTRIES@,
            |st: CountryStat| with_ann(st, s),
        )
    }
}

/// The statistics after counting the visibility of `vrps` in order, each
/// under its country and under `all`.
pub open spec fn world_vrps(
    entries: Seq<(Seq<char>, CountryStat)>,
    vrps: Seq<ValidatedRoaPayload>,
    anns: Announcements,
    dels: IpDelegations,
) -> Seq<(Seq<char>, CountryStat)>
    decreases vrps.len(),
{
    if vrps.len() == 0 {
        entries
    } else {
        let e = world_vrps(entries, vrps.drop_last(), anns, dels);
        let v = if seen_of(vrps.last(), anns) {
            VisibilityState::Seen
        } else {
            VisibilityState::Unseen
        };
        let cc = cc_of(dels, vrps.last().spec_prefix().spec_range());
        update_key(
            update_key(e, cc, |st: CountryStat| with_impact(st, v)),
            ALL_COUNTRIES@,
            |st: CountryStat| with_impact(st, v),
        )
    }
}

/// Reports validation and visibility per country.
pub struct WorldStatsReporter<'a> {
    announcements: &'a Announcements,
    vrps: &'a Vrps,
    delegations: &'a IpDelegations,
}

impl<'a> WorldStatsReporter<'a> {
    pub closed spec fn spec_announcements(&self) -> Announcements {
        *self.announcements
    }

    pub closed spec fn spec_vrps(&self) -> Vrps {
        *self.vrps
    }

    pub closed spec fn spec_delegations(&self) -> IpDelegations {
        *self.delegations
    }

    pub fn new(
        announcements: &'a Announcements,
        vrps: &'a Vrps,
        delegations: &'a IpDelegations,
    ) -> (r: WorldStatsReporter<'a>)
        ensures
            r.spec_announcements() == *announcements,
            r.spec_vrps() == *vrps,
            r.spec_delegations() == *delegations,
    {
        WorldStatsReporter { announcements, vrps, delegations }
    }

    /// Counts every announcement by validation state, and every payload by
    /// visibility, under the country of the delegation that covers it.
    pub fn analyse(&self) -> (r: CountryStats)
        requires
            2 * (self.spec_announcements().all_spec().len() + self.spec_vrps().all_spec().len())
                <= usize::MAX,
        ensures
            r@ == world_vrps(
                world_anns(
                    seq![(ALL_COUNTRIES@, CountryStat::new_spec())],
                    self.spec_announcements().all_spec(),
                    self.spec_vrps(),
                    self.spec_delegations(),
                ),
                self.spec_vrps().all_spec(),
                self.spec_announcements(),
                self.spec_delegations(),
            ),
    {
        let mut stats = CountryStats::new();
        let ghost start = stats@;
        let anns = self.announcements.all();
        let ghost av = deref_seq(anns@);
        let ghost nv = self.spec_vrps().all_spec().len();
        let mut i: usize = 0;
        while i < anns.len()
            invariant
                i <= anns@.len(),
                av == deref_seq(anns@),
                av.len() == anns@.len(),
                2 * (av.len() + nv) <= usize::MAX,
                counts_within(stats@, 2 * i),
                stats@ == world_anns(start, av.subrange(0, i as int), *self.vrps, *self.delegations),
            decreases anns@.len() - i,
        {
            let ann = anns[i];
            assert(av[i as int] == *ann);
            let ghost prefix = av.subrange(0, i as int + 1);
            assert(prefix.drop_last() =~= av.subrange(0, i as int));
            let range = ann.prefix().range();
            let matching = self.vrps.containing(&range);
            let validated = ValidatedAnnouncement::create(ann, matching.as_slice());
            let cc = self.delegations.find_cc(&range);
            proof {
                let s = validated.spec_state();
                lemma_update_within(stats@, cc@, |st: CountryStat| with_ann(st, s), 2 * i);
                lemma_update_within(
                    update_key(stats@, cc@, |st: CountryStat| with_ann(st, s)),
                    ALL_COUNTRIES@,
                    |st: CountryStat| with_ann(st, s),
                    2 * i + 1,
                );
            }
            stats.add_ann(&validated, cc);
            i += 1;
        }
        assert(av.subrange(0, i as int) =~= av);
        let ghost middle = stats@;
        let vrps = self.vrps.all();
        let ghost vv = deref_seq(vrps@);
        let mut j: usize = 0;
        while j < vrps.len()
            invariant
                j <= vrps@.len(),
                vv == deref_seq(vrps@),
                vv.len() == vrps@.len(),
                2 * (av.len() + vv.len()) <= usize::MAX,
                counts_within(stats@, 2 * (av.len() + j)),
                stats@ == world_vrps(middle, vv.subrange(0, j as int), *self.announcements, *self.delegations),
            decreases vrps@.len() - j,
        {
            let vrp = vrps[j];
            assert(vv[j as int] == *vrp);
            let ghost prefix = vv.subrange(0, j as int + 1);
            assert(prefix.drop_last() =~= vv.subrange(0, j as int));
            let range = vrp.prefix().range();
            let matching = self.announcements.contained_by(&range);
            let impact = VrpImpact::evaluate(vrp, matching.as_slice());
            let cc = self.delegations.find_cc(&range);
            proof {
                let v = impact.spec_state();
                let b = 2 * (av.len() + j);
                lemma_update_within(stats@, cc@, |st: CountryStat| with_impact(st, v), b);
                lemma_update_within(
                    update_key(stats@, cc@, |st: CountryStat| with_impact(st, v)),
                    ALL_COUNTRIES@,
                    |st: CountryStat| with_impact(st, v),
                    b + 1,
                );
            }
            stats.add_impact(&impact, cc);
            j += 1;
        }
        assert(vv.subrange(0, j as int) =~= vv);
        stats
    }
}


//------------ Scope text -----------------------------------------------------

/// Why a scope could not be read.
#[derive(Clone, Copy, Debug, PartialEq, Eq, Structural)]
pub enum Error {
    IpRangeError(IpRangeError),
    IpAddressError(IpAddressError),
    AsnError(AsnError),
}

/// The scope after one more element: an address or address range where it
/// holds `.` or `:`, else an ASN or ASN range; empty elements are passed
/// over.
pub open spec fn scope_step(
    acc: (Seq<IpRange>, Seq<AsnRange>),
    el: Seq<char>,
) -> Result<(Seq<IpRange>, Seq<AsnRange>), Error> {
    if el.len() == 0 {
        Ok(acc)
    } else if el.contains('.') || el.contains(':') {
        if el.contains('-') {
            match range_of_text(el) {
                Ok((a, b)) => Ok((added(acc.0, IpRange::from_bounds(a, b)), acc.1)),
                Err(e) => Err(Error::IpRangeError(e)),
            }
        } else {
            match address_of_text(el) {
                Ok(a) => Ok((added(acc.0, IpRange::from_bounds(a, a)), acc.1)),
                Err(e) => Err(Error::IpAddressError(e)),
            }
        }
    } else {
        match asn_entry_of_lowercase(lower_of(el)) {
            Ok(x) => Ok((acc.0, asn_added(acc.1, x))),
            Err(e) => Err(Error::AsnError(e)),
        }
    }
}

/// The scope that the elements build, one by one; the first element that
/// does not read gives the error.
pub open spec fn scope_of_entries(parts: Seq<Seq<char>>) -> Result<
    (Seq<IpRange>, Seq<AsnRange>),
    Error,
>
    decreases parts.len(),
{
    if parts.len() == 0 {
        Ok((seq![], seq![]))
    } else {
        match scope_of_entries(parts.drop_last()) {
            Err(e) => Err(e),
            Ok(acc) => scope_step(acc, parts.last()),
        }
    }
}

/// What `ScopeLimits::from_str` reads: spaces dropped, then comma-separated
/// elements.
pub open spec fn scope_of_text(s: Seq<char>) -> Result<(Seq<IpRange>, Seq<AsnRange>), Error> {
    scope_of_entries(split_spec(s.filter(|c: char| c != ' '), ','))
}

proof fn lemma_scope_error_sticks(parts: Seq<Seq<char>>, k: int)
    requires
        0 <= k <= parts.len(),
        scope_of_entries(parts.subrange(0, k)) is Err,
    ensures
        scope_of_entries(parts) == scope_of_entries(parts.subrange(0, k)),
    decreases parts.len() - k,
{
    if k < parts.len() {
        assert(parts.subrange(0, k + 1).drop_last() =~= parts.subrange(0, k));
        lemma_scope_error_sticks(parts, k + 1);
    } else {
        assert(parts.subrange(0, k) =~= parts);
    }
}

/// Whether `s[lo..hi]` holds `c`.
fn has_char(s: &Vec<char>, lo: usize, hi: usize, c: char) -> (r: bool)
    requires
        lo <= hi <= s@.len(),
    ensures
        r == s@.subrange(lo as int, hi as int).contains(c),
{
    let mut i = lo;
    while i < hi
        invariant
            lo <= i <= hi <= s@.len(),
            forall|j: int| lo <= j < i ==> s@[j] != c,
        decreases hi - i,
    {
        if s[i] == c {
            assert(s@.subrange(lo as int, hi as int)[i - lo] == c);
            return true;
        }
        i += 1;
    }
    assert forall|j: int| 0 <= j < hi - lo implies s@.subrange(lo as int, hi as int)[j] != c by {
        assert(s@.subrange(lo as int, hi as int)[j] == s@[lo + j]);
    }
    false
}

impl ScopeLimits {
    /// Reads comma-separated IP addresses, IP ranges, ASNs and ASN ranges,
    /// such as `10.0.0.0-10.0.0.255, AS65000`. An empty text limits nothing.
    pub fn from_str(s: &str) -> (r: Result<ScopeLimits, Error>)
        ensures
            match scope_of_text(s@) {
                Ok((ips, asns)) => r matches Ok(scope) && scope.spec_ips()@ == ips
                    && scope.spec_asns()@ == asns && scope.spec_ips().wf()
                    && scope.spec_asns().wf(),
                Err(e) => r == Err::<ScopeLimits, Error>(e),
            },
    {
        let cs = chars_of(s);
        let t = without_char(&cs, ' ');
        assert(t@.subrange(0, t@.len() as int) =~= t@);
        let parts = split_bounds(&t, 0, t.len(), ',');
        let ghost pieces = split_spec(t@, ',');
        let mut ips = IpResourceSet::empty();
        let mut asns = AsnSet::empty();
        let mut k: usize = 0;
        while k < parts.len()
            invariant
                k <= parts@.len() == pieces.len(),
                pieces == split_spec(t@, ','),
                t@ == s@.filter(|c: char| c != ' '),
                forall|j: int|
                    0 <= j < parts@.len() ==> {
                        &&& 0 <= (#[trigger] parts@[j]).0 <= parts@[j].1 <= t@.len()
                        &&& t@.subrange(parts@[j].0 as int, parts@[j].1 as int) == pieces[j]
                    },
                scope_of_entries(pieces.subrange(0, k as int)) == Ok::<
                    (Seq<IpRange>, Seq<AsnRange>),
                    Error,
                >((ips@, asns@)),
                ips.wf(),
                asns.wf(),
            decreases parts@.len() - k,
        {
            let (a, b) = parts[k];
            let ghost el = pieces[k as int];
            assert(pieces.subrange(0, k as int + 1).drop_last() =~= pieces.subrange(0, k as int));
            let ghost next = scope_step((ips@, asns@), el);
            if a == b {
                assert(el.len() == 0);
            } else if has_char(&t, a, b, '.') || has_char(&t, a, b, ':') {
                if has_char(&t, a, b, '-') {
                    match IpRange::parse_chars(&t, a, b) {
                        Ok(range) => {
                            proof {
                                IpRange::lemma_bounds_round_trip(range);
                            }
                            ips.add_ip_range(range);
                        },
                        Err(e) => {
                            proof {
                                lemma_scope_error_sticks(pieces, k as int + 1);
                            }
                            return Err(Error::IpRangeError(e));
                        },
                    }
                } else {
                    match IpAddress::parse_chars(&t, a, b) {
                        Ok(address) => ips.add_ip_address(address),
                        Err(e) => {
                            proof {
                                lemma_scope_error_sticks(pieces, k as int + 1);
                            }
                            return Err(Error::IpAddressError(e));
                        },
                    }
                }
            } else {
                let lower = lowercase(&t, a, b);
                assert(lower@.subrange(0, lower@.len() as int) =~= lower@);
                match AsnSet::parse_entry(&lower, 0, lower.len()) {
                    Ok(x) => asns.add_range(x),
                    Err(e) => {
                        proof {
                            lemma_scope_error_sticks(pieces, k as int + 1);
                        }
                        return Err(Error::AsnError(e));
                    },
                }
            }
            k += 1;
        }
        assert(pieces.subrange(0, k as int) =~= pieces);
        Ok(ScopeLimits { ips, asns })
    }
}

} // verus!
