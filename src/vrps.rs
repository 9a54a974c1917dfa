//! Validated ROA payloads: an ASN that may originate a prefix, and more
//! specific prefixes inside it up to a maximum length.

use vstd::prelude::*;
use crate::asn::{lower_of, lowercase, asn_of_lowercase, Asn, AsnError};
use crate::ip::{prefix_of_text, IpPrefix, IpPrefixError, IpRange};
use crate::announcements::asn_in_set;
use crate::asn::AsnRange;
use crate::range_tree::{
    deref_seq, flatten, lemma_deref_push, select, select_each, HasRange, IpRangeTree,
};
use crate::report::ScopeLimits;
use crate::text::{
    bounded_value, chars_of, matches_text, parse_unsigned, split_bounds, split_spec, without_char,
};

verus! {

/// A validated ROA payload.
#[derive(Clone, Copy, Debug, PartialEq, Eq, Structural)]
pub struct ValidatedRoaPayload {
    asn: Asn,
    prefix: IpPrefix,
    max_length: u8,
}

/// What `ValidatedRoaPayload::from_str` reads from `ASN, prefix, max length`:
/// quotes and spaces dropped, then the first three comma-separated fields.
pub open spec fn vrp_of_text(s: Seq<char>) -> Result<(u32, (u128, u8, u128), u8), Error> {
    let t = s.filter(|c: char| c != '"').filter(|c: char| c != ' ');
    let parts = split_spec(t, ',');
    if parts.len() < 1 {
        Err(Error::MissingColumn)
    } else {
        match asn_of_lowercase(lower_of(parts[0])) {
            None => Err(Error::InvalidAsn(AsnError::InvalidAsn)),
            Some(a) => if parts.len() < 2 {
                Err(Error::MissingColumn)
            } else {
                match prefix_of_text(parts[1]) {
                    Err(e) => Err(Error::InvalidPrefix(e)),
                    Ok(p) => if parts.len() < 3 {
                        Err(Error::MissingColumn)
                    } else {
                        match bounded_value(parts[2], 255) {
                            None => Err(Error::InvalidMaxLength),
                            Some(m) => Ok((a, p, m as u8)),
                        }
                    },
                }
            },
        }
    }
}

impl ValidatedRoaPayload {
    pub closed spec fn spec_asn(self) -> Asn {
        self.asn
    }

    pub closed spec fn spec_prefix(self) -> IpPrefix {
        self.prefix
    }

    pub closed spec fn spec_max_length(self) -> u8 {
        self.max_length
    }

    pub open spec fn wf(self) -> bool {
        self.spec_prefix().wf()
    }

    /// Whether this payload is `asn` for the prefix that spans `p.0` to
    /// `p.2` with length `p.1`, up to length `max_length`.
    pub open spec fn is(self, asn: u32, p: (u128, u8, u128), max_length: u8) -> bool {
        &&& self.spec_asn().spec_value() == asn
        &&& self.spec_prefix().spec_range().lo() == p.0
        &&& self.spec_prefix().spec_length() == p.1
        &&& self.spec_prefix().spec_range().hi() == p.2
        &&& self.spec_max_length() == max_length
    }

    pub fn new(asn: Asn, prefix: IpPrefix, max_length: u8) -> (r: ValidatedRoaPayload)
        ensures
            r.spec_asn() == asn,
            r.spec_prefix() == prefix,
            r.spec_max_length() == max_length,
    {
        ValidatedRoaPayload { asn, prefix, max_length }
    }

    pub fn asn(&self) -> (r: Asn)
        ensures
            r == self.spec_asn(),
    {
        self.asn
    }

    pub fn prefix(&self) -> (r: &IpPrefix)
        ensures
            *r == self.spec_prefix(),
    {
        &self.prefix
    }

    pub fn max_length(&self) -> (r: u8)
        ensures
            r == self.spec_max_length(),
    {
        self.max_length
    }

    /// Whether the payload's prefix holds all of `range`.
    pub fn contains(&self, range: &IpRange) -> (r: bool)
        ensures
            r == self.spec_prefix().spec_range().covers(*range),
    {
        self.prefix.range().contains(&range.to_range())
    }

    /// Reads one line of a payload CSV export: the header line (starting
    /// with `ASN` once quotes and spaces are dropped) gives none, any other
    /// line is read as by `from_str`.
    pub fn from_csv_line(s: &str) -> (r: Result<Option<ValidatedRoaPayload>, Error>)
        ensures
            ({
                let t = s@.filter(|c: char| c != '"').filter(|c: char| c != ' ');
                if t.len() >= 3 && t.subrange(0, 3) == "ASN"@ {
                    r == Ok::<Option<ValidatedRoaPayload>, Error>(None)
                } else {
                    match vrp_of_text(s@) {
                        Ok((a, p, m)) => r matches Ok(Some(v)) && v.is(a, p, m) && v.wf(),
                        Err(e) => r == Err::<Option<ValidatedRoaPayload>, Error>(e),
                    }
                }
            }),
    {
        let cs = chars_of(s);
        let unquoted = without_char(&cs, '"');
        let t = without_char(&unquoted, ' ');
        if t.len() >= 3 && matches_text(&t, 0, 3, "ASN") {
            return Ok(None);
        }
        match ValidatedRoaPayload::from_str(s) {
            Ok(v) => Ok(Some(v)),
            Err(e) => Err(e),
        }
    }

    /// Reads `ASN, prefix, max length`, as in `AS65000, 192.168.0.0/16, 20`.
    pub fn from_str(s: &str) -> (r: Result<ValidatedRoaPayload, Error>)
        ensures
            match vrp_of_text(s@) {
                Ok((a, p, m)) => r matches Ok(v) && v.is(a, p, m) && v.wf(),
                Err(e) => r == Err::<ValidatedRoaPayload, Error>(e),
            },
    {
        let cs = chars_of(s);
        let unquoted = without_char(&cs, '"');
        let t = without_char(&unquoted, ' ');
        assert(t@.subrange(0, t@.len() as int) =~= t@);
        let parts = split_bounds(&t, 0, t.len(), ',');
        proof {
            crate::text::lemma_split_nonempty(t@, ',');
        }
        let (a0, a1) = parts[0];
        let lower = lowercase(&t, a0, a1);
        assert(lower@.subrange(0, lower@.len() as int) =~= lower@);
        let asn = match Asn::parse_lowercase_chars(&lower, 0, lower.len()) {
            Ok(a) => a,
            Err(e) => return Err(Error::InvalidAsn(e)),
        };
        if parts.len() < 2 {
            return Err(Error::MissingColumn);
        }
        let (b0, b1) = parts[1];
        let prefix = match IpPrefix::parse_chars(&t, b0, b1) {
            Ok(p) => p,
            Err(e) => return Err(Error::InvalidPrefix(e)),
        };
        if parts.len() < 3 {
            return Err(Error::MissingColumn);
        }
        let (c0, c1) = parts[2];
        let max_length = match parse_unsigned(&t, c0, c1, 255) {
            Some(v) => v as u8,
            None => return Err(Error::InvalidMaxLength),
        };
        Ok(ValidatedRoaPayload { asn, prefix, max_length })
    }
}

impl HasRange for ValidatedRoaPayload {
    open spec fn spec_ip_range(&self) -> IpRange {
        self.spec_prefix().spec_range()
    }

    fn ip_range(&self) -> (r: IpRange) {
        self.prefix.range()
    }
}

//------------ Vrps -----------------------------------------------------------

/// The payloads whose ASN lies in `set`, in order.
pub open spec fn vrps_in_asns(vrps: Seq<ValidatedRoaPayload>, set: Seq<AsnRange>) -> Seq<
    ValidatedRoaPayload,
>
    decreases vrps.len(),
{
    if vrps.len() == 0 {
        vrps
    } else if asn_in_set(set, vrps.last().spec_asn()) {
        vrps_in_asns(vrps.drop_last(), set).push(vrps.last())
    } else {
        vrps_in_asns(vrps.drop_last(), set)
    }
}

/// All validated ROA payloads, indexed by prefix.
pub struct Vrps {
    tree: IpRangeTree<ValidatedRoaPayload>,
}

impl Vrps {
    pub closed spec fn spec_tree(self) -> IpRangeTree<ValidatedRoaPayload> {
        self.tree
    }

    /// Every payload, group by group.
    pub open spec fn all_spec(self) -> Seq<ValidatedRoaPayload> {
        flatten(self.spec_tree().spec_values(), self.spec_tree().spec_values().len() as int)
    }

    /// The payloads whose prefix holds `range`, group by group.
    pub open spec fn containing_spec(self, range: IpRange) -> Seq<ValidatedRoaPayload> {
        select(
            self.spec_tree().spec_ranges(),
            self.spec_tree().spec_values(),
            self.spec_tree().spec_ranges().len() as int,
            |g: IpRange| g.covers(range),
        )
    }

    /// The payloads inside `range`, group by group.
    pub open spec fn contained_by_spec(self, range: IpRange) -> Seq<ValidatedRoaPayload> {
        select(
            self.spec_tree().spec_ranges(),
            self.spec_tree().spec_values(),
            self.spec_tree().spec_ranges().len() as int,
            |g: IpRange| range.covers(g),
        )
    }

    /// The payloads in scope: those inside each scope range in turn (or
    /// all, where the scope names no range), then only those whose ASN is in
    /// the scope's ASNs, where it names any.
    pub open spec fn in_scope_spec(self, scope: ScopeLimits) -> Seq<ValidatedRoaPayload> {
        let base = if scope.spec_ips()@.len() > 0 {
            select_each(
                self.spec_tree().spec_ranges(),
                self.spec_tree().spec_values(),
                scope.spec_ips()@,
                scope.spec_ips()@.len() as int,
            )
        } else {
            self.all_spec()
        };
        if scope.spec_asns()@.len() > 0 {
            vrps_in_asns(base, scope.spec_asns()@)
        } else {
            base
        }
    }

    pub fn new(tree: IpRangeTree<ValidatedRoaPayload>) -> (r: Vrps)
        ensures
            r.spec_tree() == tree,
    {
        Vrps { tree }
    }

    pub fn all(&self) -> (r: Vec<&ValidatedRoaPayload>)
        ensures
            deref_seq(r@) == self.all_spec(),
    {
        self.tree.all()
    }

    /// The payloads for `range` itself or for less specific prefixes.
    pub fn containing(&self, range: &IpRange) -> (r: Vec<&ValidatedRoaPayload>)
        ensures
            deref_seq(r@) == self.containing_spec(*range),
    {
        self.tree.matching_or_less_specific(range)
    }

    /// The payloads for `range` itself or for more specific prefixes.
    pub fn contained_by(&self, range: &IpRange) -> (r: Vec<&ValidatedRoaPayload>)
        ensures
            deref_seq(r@) == self.contained_by_spec(*range),
    {
        self.tree.matching_or_more_specific(range)
    }

    pub fn in_scope(&self, scope: &ScopeLimits) -> (r: Vec<&ValidatedRoaPayload>)
        ensures
            deref_seq(r@) == self.in_scope_spec(*scope),
    {
        let vrps = if scope.limits_ips() {
            self.tree.matching_or_more_specific_each(scope.ips().ranges())
        } else {
            self.tree.all()
        };
        if scope.limits_asns() {
            let set = scope.asns();
            let mut kept: Vec<&ValidatedRoaPayload> = Vec::new();
            let mut i: usize = 0;
            while i < vrps.len()
                invariant
                    i <= vrps@.len(),
                    *set == scope.spec_asns(),
                    deref_seq(kept@) == vrps_in_asns(deref_seq(vrps@).subrange(0, i as int), set@),
                decreases vrps@.len() - i,
            {
                let vrp = vrps[i];
                assert(deref_seq(vrps@).subrange(0, i as int + 1).drop_last() =~= deref_seq(
                    vrps@,
                ).subrange(0, i as int));
                assert(deref_seq(vrps@)[i as int] == *vrp);
                if set.contains(&vrp.asn()) {
                    let ghost before = kept@;
                    kept.push(vrp);
                    proof {
                        lemma_deref_push(before, vrp);
                    }
                }
                i += 1;
            }
            assert(deref_seq(vrps@).subrange(0, i as int) =~= deref_seq(vrps@));
            kept
        } else {
            vrps
        }
    }
}

/// Why a validated ROA payload could not be read.
#[derive(Clone, Copy, Debug, PartialEq, Eq, Structural)]
pub enum Error {
    MissingColumn,
    InvalidAsn(AsnError),
    InvalidPrefix(IpPrefixError),
    InvalidMaxLength,
}

} // verus!
