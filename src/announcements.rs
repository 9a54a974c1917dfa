//! BGP route announcements: an origin ASN and a prefix.

use vstd::prelude::*;
use crate::asn::{lower_of, lowercase, asn_of_lowercase, Asn, AsnError};
use crate::ip::{prefix_of_text, IpPrefix, IpPrefixError, IpRange};
use crate::asn::AsnRange;
use crate::range_tree::{
    deref_seq, flatten, lemma_deref_push, select, select_each, HasRange, IpRangeTree,
};
use crate::report::ScopeLimits;
use crate::text::{
    bounded_value, chars_of, field_bounds, fields_spec, parse_unsigned, split_bounds, split_spec,
    without_char,
};

verus! {

/// An announcement of a prefix by an origin ASN.
#[derive(Clone, Copy, Debug, PartialEq, Eq, Structural)]
pub struct Announcement {
    asn: Asn,
    prefix: IpPrefix,
}

/// What `Announcement::from_str` reads from `ASN, prefix`: spaces dropped,
/// then the first two comma-separated fields.
pub open spec fn announcement_of_text(s: Seq<char>) -> Result<(u32, (u128, u8, u128)), Error> {
    let parts = split_spec(s.filter(|c: char| c != ' '), ',');
    if parts.len() < 2 {
        Err(Error::MissingColumn)
    } else {
        match asn_of_lowercase(lower_of(parts[0])) {
            None => Err(Error::InvalidAsn(AsnError::InvalidAsn)),
            Some(a) => match prefix_of_text(parts[1]) {
                Err(e) => Err(Error::InvalidPrefix(e)),
                Ok(p) => Ok((a, p)),
            },
        }
    }
}

impl Announcement {
    pub closed spec fn spec_asn(self) -> Asn {
        self.asn
    }

    pub closed spec fn spec_prefix(self) -> IpPrefix {
        self.prefix
    }

    pub open spec fn wf(self) -> bool {
        self.spec_prefix().wf()
    }

    /// Whether this announcement is `asn` announcing the prefix that spans
    /// `p.0` to `p.2` with length `p.1`.
    pub open spec fn is(self, asn: u32, p: (u128, u8, u128)) -> bool {
        &&& self.spec_asn().spec_value() == asn
        &&& self.spec_prefix().spec_range().lo() == p.0
        &&& self.spec_prefix().spec_length() == p.1
        &&& self.spec_prefix().spec_range().hi() == p.2
    }

    pub fn new(prefix: IpPrefix, asn: Asn) -> (r: Announcement)
        ensures
            r.spec_asn() == asn,
            r.spec_prefix() == prefix,
    {
        Announcement { prefix, asn }
    }

    pub fn asn(&self) -> (r: Asn)
        ensures
            r == self.spec_asn(),
    {
        self.asn
    }

    pub fn prefix(&self) -> (r: &IpPrefix)
        ensures
            *r == self.spec_prefix(),
    {
        &self.prefix
    }

    /// Reads `ASN, prefix`, as in `AS65000, 192.168.0.0/20`.
    pub fn from_str(s: &str) -> (r: Result<Announcement, Error>)
        ensures
            match announcement_of_text(s@) {
                Ok((a, p)) => r matches Ok(ann) && ann.is(a, p) && ann.wf(),
                Err(e) => r == Err::<Announcement, Error>(e),
            },
    {
        let cs = chars_of(s);
        let t = without_char(&cs, ' ');
        assert(t@.subrange(0, t@.len() as int) =~= t@);
        let parts = split_bounds(&t, 0, t.len(), ',');
        if parts.len() < 2 {
            return Err(Error::MissingColumn);
        }
        let (a0, a1) = parts[0];
        let (b0, b1) = parts[1];
        let lower = lowercase(&t, a0, a1);
        assert(lower@.subrange(0, lower@.len() as int) =~= lower@);
        let asn = match Asn::parse_lowercase_chars(&lower, 0, lower.len()) {
            Ok(a) => a,
            Err(e) => return Err(Error::InvalidAsn(e)),
        };
        let prefix = match IpPrefix::parse_chars(&t, b0, b1) {
            Ok(p) => p,
            Err(e) => return Err(Error::InvalidPrefix(e)),
        };
        Ok(Announcement { asn, prefix })
    }
}

impl HasRange for Announcement {
    open spec fn spec_ip_range(&self) -> IpRange {
        self.spec_prefix().spec_range()
    }

    fn ip_range(&self) -> (r: IpRange) {
        self.prefix.range()
    }
}

//------------ RIS dump lines -------------------------------------------------

/// The fewest peers that must see a route for it to count.
pub const MIN_PEERS: u128 = 6;

/// What `Announcement::from_ris_line` reads from a line of a RIS dump: the
/// origin ASN, the prefix and the number of peers that see the route,
/// separated by whitespace. Empty lines, comments (`%`), routes seen by
/// fewer than `MIN_PEERS` peers, and AS sets (`{...}`) give no announcement.
pub open spec fn ris_line_of_text(s: Seq<char>) -> Result<Option<(u32, (u128, u8, u128))>, Error> {
    let f = fields_spec(s);
    if s.len() == 0 || s[0] == '%' {
        Ok(None)
    } else if f.len() < 3 {
        Err(Error::MissingColumn)
    } else {
        match bounded_value(f[2], u32::MAX as nat) {
            None => Err(Error::InvalidPeerCount),
            Some(peers) => if peers < MIN_PEERS {
                Ok(None)
            } else if f[0].contains('{') {
                Ok(None)
            } else {
                match asn_of_lowercase(lower_of(f[0])) {
                    None => Err(Error::InvalidAsn(AsnError::InvalidAsn)),
                    Some(a) => match prefix_of_text(f[1]) {
                        Err(e) => Err(Error::InvalidPrefix(e)),
                        Ok(p) => Ok(Some((a, p))),
                    },
                }
            },
        }
    }
}

fn holds_brace(s: &Vec<char>, lo: usize, hi: usize) -> (r: bool)
    requires
        lo <= hi <= s@.len(),
    ensures
        r == s@.subrange(lo as int, hi as int).contains('{'),
{
    let mut i = lo;
    while i < hi
        invariant
            lo <= i <= hi <= s@.len(),
            forall|j: int| lo <= j < i ==> s@[j] != '{',
        decreases hi - i,
    {
        if s[i] == '{' {
            assert(s@.subrange(lo as int, hi as int)[i - lo] == '{');
            return true;
        }
        i += 1;
    }
    assert forall|j: int| 0 <= j < hi - lo implies s@.subrange(lo as int, hi as int)[j] != '{' by {
        assert(s@.subrange(lo as int, hi as int)[j] == s@[lo + j]);
    }
    false
}

impl Announcement {
    /// Reads one line of a RIS dump; see `ris_line_of_text`.
    pub fn from_ris_line(s: &str) -> (r: Result<Option<Announcement>, Error>)
        ensures
            match ris_line_of_text(s@) {
                Ok(Some((a, p))) => r matches Ok(Some(ann)) && ann.is(a, p) && ann.wf(),
                Ok(None) => r == Ok::<Option<Announcement>, Error>(None),
                Err(e) => r == Err::<Option<Announcement>, Error>(e),
            },
    {
        let cs = chars_of(s);
        if cs.len() == 0 || cs[0] == '%' {
            return Ok(None);
        }
        let f = field_bounds(&cs);
        if f.len() < 3 {
            return Err(Error::MissingColumn);
        }
        let (a0, a1) = f[0];
        let (b0, b1) = f[1];
        let (c0, c1) = f[2];
        let peers = match parse_unsigned(&cs, c0, c1, 0xffff_ffff) {
            Some(p) => p,
            None => return Err(Error::InvalidPeerCount),
        };
        if peers < MIN_PEERS {
            return Ok(None);
        }
        if holds_brace(&cs, a0, a1) {
            return Ok(None);
        }
        let lower = lowercase(&cs, a0, a1);
        assert(lower@.subrange(0, lower@.len() as int) =~= lower@);
        let asn = match Asn::parse_lowercase_chars(&lower, 0, lower.len()) {
            Ok(a) => a,
            Err(e) => return Err(Error::InvalidAsn(e)),
        };
        let prefix = match IpPrefix::parse_chars(&cs, b0, b1) {
            Ok(p) => p,
            Err(e) => return Err(Error::InvalidPrefix(e)),
        };
        Ok(Some(Announcement { asn, prefix }))
    }
}

//------------ Announcements --------------------------------------------------

/// Whether some range of `set` holds `asn`.
pub open spec fn asn_in_set(set: Seq<AsnRange>, asn: Asn) -> bool {
    exists|i: int| 0 <= i < set.len() && (#[trigger] set[i]).lo() <= asn.spec_value() <= set[i].hi()
}

/// The announcements whose ASN lies in `set`, in order.
pub open spec fn anns_in_asns(anns: Seq<Announcement>, set: Seq<AsnRange>) -> Seq<Announcement>
    decreases anns.len(),
{
    if anns.len() == 0 {
        anns
    } else if asn_in_set(set, anns.last().spec_asn()) {
        anns_in_asns(anns.drop_last(), set).push(anns.last())
    } else {
        anns_in_asns(anns.drop_last(), set)
    }
}

/// All announcements, indexed by prefix.
pub struct Announcements {
    tree: IpRangeTree<Announcement>,
}

impl Announcements {
    pub closed spec fn spec_tree(self) -> IpRangeTree<Announcement> {
        self.tree
    }

    /// Every announcement, group by group.
    pub open spec fn all_spec(self) -> Seq<Announcement> {
        flatten(self.spec_tree().spec_values(), self.spec_tree().spec_values().len() as int)
    }

    /// The announcements inside `range`, group by group.
    pub open spec fn contained_by_spec(self, range: IpRange) -> Seq<Announcement> {
        select(
            self.spec_tree().spec_ranges(),
            self.spec_tree().spec_values(),
            self.spec_tree().spec_ranges().len() as int,
            |g: IpRange| range.covers(g),
        )
    }

    /// The announcements in scope: those inside each scope range in turn
    /// (or all, where the scope names no range), then only those whose ASN
    /// is in the scope's ASNs, where it names any.
    pub open spec fn in_scope_spec(self, scope: ScopeLimits) -> Seq<Announcement> {
        let base = if scope.spec_ips()@.len() > 0 {
            select_each(
                self.spec_tree().spec_ranges(),
                self.spec_tree().spec_values(),
                scope.spec_ips()@,
                scope.spec_ips()@.len() as int,
            )
        } else {
            self.all_spec()
        };
        if scope.spec_asns()@.len() > 0 {
            anns_in_asns(base, scope.spec_asns()@)
        } else {
            base
        }
    }

    pub fn new(tree: IpRangeTree<Announcement>) -> (r: Announcements)
        ensures
            r.spec_tree() == tree,
    {
        Announcements { tree }
    }

    pub fn all(&self) -> (r: Vec<&Announcement>)
        ensures
            deref_seq(r@) == self.all_spec(),
    {
        self.tree.all()
    }

    /// The announcements of `range` itself or of prefixes inside it.
    pub fn contained_by(&self, range: &IpRange) -> (r: Vec<&Announcement>)
        ensures
            deref_seq(r@) == self.contained_by_spec(*range),
    {
        self.tree.matching_or_more_specific(range)
    }

    pub fn in_scope(&self, scope: &ScopeLimits) -> (r: Vec<&Announcement>)
        ensures
            deref_seq(r@) == self.in_scope_spec(*scope),
    {
        let anns = if scope.limits_ips() {
            self.tree.matching_or_more_specific_each(scope.ips().ranges())
        } else {
            self.tree.all()
        };
        if scope.limits_asns() {
            let set = scope.asns();
            let mut kept: Vec<&Announcement> = Vec::new();
            let mut i: usize = 0;
            while i < anns.len()
                invariant
                    i <= anns@.len(),
                    *set == scope.spec_asns(),
                    deref_seq(kept@) == anns_in_asns(deref_seq(anns@).subrange(0, i as int), set@),
                decreases anns@.len() - i,
            {
                let ann = anns[i];
                assert(deref_seq(anns@).subrange(0, i as int + 1).drop_last() =~= deref_seq(
                    anns@,
                ).subrange(0, i as int));
                assert(deref_seq(anns@)[i as int] == *ann);
                if set.contains(&ann.asn()) {
                    let ghost before = kept@;
                    kept.push(ann);
                    proof {
                        lemma_deref_push(before, ann);
                    }
                }
                i += 1;
            }
            assert(deref_seq(anns@).subrange(0, i as int) =~= deref_seq(anns@));
            kept
        } else {
            anns
        }
    }
}

/// Why an announcement could not be read.
#[derive(Clone, Copy, Debug, PartialEq, Eq, Structural)]
pub enum Error {
    MissingColumn,
    InvalidPeerCount,
    InvalidAsn(AsnError),
    InvalidPrefix(IpPrefixError),
}

} // verus!
