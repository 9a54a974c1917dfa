//! Delegations of address space by the registries, with the country that
//! each went to.

use vstd::prelude::*;
use crate::ip::{
    address_of_text, prefix_of_text, IpAddress, IpAddressError, IpPrefix, IpPrefixError, IpRange,
    IpRangeError,
};
use crate::range_tree::{deref_seq, select, HasRange, IpRangeTree};
use crate::text::{
    bounded_value, chars_of, contains_text, has_infix, matches_text, parse_unsigned, split_bounds,
    split_spec,
};

verus! {

//------------ Registry -------------------------------------------------------

#[derive(Clone, Copy, Debug, PartialEq, Eq, Structural)]
pub enum Registry {
    Iana,
    Afrinic,
    Apnic,
    Arin,
    Lacnic,
    RipeNcc,
}

/// The registry that a name in delegation statistics stands for.
pub open spec fn registry_of_text(s: Seq<char>) -> Option<Registry> {
    if s == "iana"@ {
        Some(Registry::Iana)
    } else if s == "afrinic"@ {
        Some(Registry::Afrinic)
    } else if s == "apnic"@ {
        Some(Registry::Apnic)
    } else if s == "arin"@ {
        Some(Registry::Arin)
    } else if s == "lacnic"@ {
        Some(Registry::Lacnic)
    } else if s == "ripencc"@ {
        Some(Registry::RipeNcc)
    } else {
        None
    }
}

impl Registry {
    pub fn parse_chars(s: &Vec<char>, lo: usize, hi: usize) -> (r: Option<Registry>)
        requires
            lo <= hi <= s@.len(),
        ensures
            r == registry_of_text(s@.subrange(lo as int, hi as int)),
    {
        if matches_text(s, lo, hi, "iana") {
            Some(Registry::Iana)
        } else if matches_text(s, lo, hi, "afrinic") {
            Some(Registry::Afrinic)
        } else if matches_text(s, lo, hi, "apnic") {
            Some(Registry::Apnic)
        } else if matches_text(s, lo, hi, "arin") {
            Some(Registry::Arin)
        } else if matches_text(s, lo, hi, "lacnic") {
            Some(Registry::Lacnic)
        } else if matches_text(s, lo, hi, "ripencc") {
            Some(Registry::RipeNcc)
        } else {
            None
        }
    }
}

//------------ DelegationState ------------------------------------------------

#[derive(Clone, Copy, Debug, PartialEq, Eq, Structural)]
pub enum DelegationState {
    IANAPOOL,
    IETF,
    AVAILABLE,
    ASSIGNED,
    RESERVED,
}

/// The state that a word in delegation statistics stands for; `allocated`
/// counts as assigned.
pub open spec fn delegation_state_of_text(s: Seq<char>) -> Option<DelegationState> {
    if s == "ianapool"@ {
        Some(DelegationState::IANAPOOL)
    } else if s == "ietf"@ {
        Some(DelegationState::IETF)
    } else if s == "available"@ {
        Some(DelegationState::AVAILABLE)
    } else if s == "assigned"@ || s == "allocated"@ {
        Some(DelegationState::ASSIGNED)
    } else if s == "reserved"@ {
        Some(DelegationState::RESERVED)
    } else {
        None
    }
}

impl DelegationState {
    pub fn parse_chars(s: &Vec<char>, lo: usize, hi: usize) -> (r: Option<DelegationState>)
        requires
            lo <= hi <= s@.len(),
        ensures
            r == delegation_state_of_text(s@.subrange(lo as int, hi as int)),
    {
        if matches_text(s, lo, hi, "ianapool") {
            Some(DelegationState::IANAPOOL)
        } else if matches_text(s, lo, hi, "ietf") {
            Some(DelegationState::IETF)
        } else if matches_text(s, lo, hi, "available") {
            Some(DelegationState::AVAILABLE)
        } else if matches_text(s, lo, hi, "assigned") || matches_text(s, lo, hi, "allocated") {
            Some(DelegationState::ASSIGNED)
        } else if matches_text(s, lo, hi, "reserved") {
            Some(DelegationState::RESERVED)
        } else {
            None
        }
    }
}

//------------ IpDelegation ---------------------------------------------------

/// A block of addresses that a registry delegated to a country.
#[derive(Clone, Debug, PartialEq, Eq)]
pub struct IpDelegation {
    reg: Registry,
    cc: String,
    range: IpRange,
    state: DelegationState,
}

impl IpDelegation {
    pub closed spec fn spec_reg(self) -> Registry {
        self.reg
    }

    pub closed spec fn spec_cc(self) -> Seq<char> {
        self.cc@
    }

    pub closed spec fn spec_range(self) -> IpRange {
        self.range
    }

    pub closed spec fn spec_state(self) -> DelegationState {
        self.state
    }

    pub fn new(reg: Registry, cc: String, range: IpRange, state: DelegationState) -> (r: IpDelegation)
        ensures
            r.spec_reg() == reg,
            r.spec_cc() == cc@,
            r.spec_range() == range,
            r.spec_state() == state,
    {
        IpDelegation { reg, cc, range, state }
    }

    pub fn reg(&self) -> (r: &Registry)
        ensures
            *r == self.spec_reg(),
    {
        &self.reg
    }

    pub fn cc(&self) -> (r: &str)
        ensures
            r@ == self.spec_cc(),
    {
        self.cc.as_str()
    }

    pub fn range(&self) -> (r: &IpRange)
        ensures
            *r == self.spec_range(),
    {
        &self.range
    }

    pub fn state(&self) -> (r: &DelegationState)
        ensures
            *r == self.spec_state(),
    {
        &self.state
    }
}

impl HasRange for IpDelegation {
    open spec fn spec_ip_range(&self) -> IpRange {
        self.spec_range()
    }

    fn ip_range(&self) -> (r: IpRange) {
        proof {
            use_type_invariant(&self.range);
            IpRange::lemma_inv_wf(self.range);
        }
        self.range
    }
}

//------------ Delegation lines -----------------------------------------------

/// Why a line of delegation statistics could not be read.
#[derive(Clone, Copy, Debug, PartialEq, Eq, Structural)]
pub enum Error {
    MissingColumn,
    UnknownRegistry,
    UnknownState,
    UnsupportedType,
    InvalidPrefix(IpPrefixError),
    InvalidAddress(IpAddressError),
    InvalidNumber,
    InvalidRange(IpRangeError),
}

/// The fields of a delegation that a line gives: registry, country, first
/// and last address, state.
pub type DelegationFields = (Registry, Seq<char>, u128, u128, DelegationState);

/// What `IpDelegation::from_csv_line` reads from `prefix,rir,date,cc,state`;
/// the header line (starting with `prefix`) gives none.
pub open spec fn csv_line_of_text(s: Seq<char>) -> Result<Option<DelegationFields>, Error> {
    let parts = split_spec(s, ',');
    if s.len() >= 6 && s.subrange(0, 6) == "prefix"@ {
        Ok(None)
    } else if parts.len() < 5 {
        Err(Error::MissingColumn)
    } else {
        match registry_of_text(parts[1]) {
            None => Err(Error::UnknownRegistry),
            Some(reg) => match prefix_of_text(parts[0]) {
                Err(e) => Err(Error::InvalidPrefix(e)),
                Ok((a, len, m)) => match delegation_state_of_text(parts[4]) {
                    None => Err(Error::UnknownState),
                    Some(st) => Ok(Some((reg, parts[3], a, m, st))),
                },
            },
        }
    }
}

/// What `IpDelegation::from_nro_line` reads from
/// `rir|cc|type|start|count|date|state`; summary lines and ASN lines give
/// none.
pub open spec fn nro_line_of_text(s: Seq<char>) -> Result<Option<DelegationFields>, Error> {
    let parts = split_spec(s, '|');
    if has_infix(s, "nro|"@) || has_infix(s, "|asn|"@) {
        Ok(None)
    } else if parts.len() < 7 {
        Err(Error::MissingColumn)
    } else if parts[2] != "ipv4"@ && parts[2] != "ipv6"@ {
        Err(Error::UnsupportedType)
    } else {
        match registry_of_text(parts[0]) {
            None => Err(Error::UnknownRegistry),
            Some(reg) => match address_of_text(parts[3]) {
                Err(e) => Err(Error::InvalidAddress(e)),
                Ok(min) => match bounded_value(parts[4], u128::MAX as nat) {
                    None => Err(Error::InvalidNumber),
                    Some(n) => if n == 0 || min + n - 1 > u128::MAX {
                        Err(Error::InvalidRange(IpRangeError::MinExceedsMax))
                    } else {
                        match delegation_state_of_text(parts[6]) {
                            None => Err(Error::UnknownState),
                            Some(st) => Ok(Some((reg, parts[1], min, (min + n - 1) as u128, st))),
                        }
                    },
                },
            },
        }
    }
}

impl IpDelegation {
    /// Whether this delegation has the given fields.
    pub open spec fn is(self, f: DelegationFields) -> bool {
        &&& self.spec_reg() == f.0
        &&& self.spec_cc() == f.1
        &&& self.spec_range().lo() == f.2
        &&& self.spec_range().hi() == f.3
        &&& self.spec_state() == f.4
        &&& self.spec_range().wf()
    }

    /// Reads one line of NRO statistics in CSV form; see `csv_line_of_text`.
    pub fn from_csv_line(s: &str) -> (r: Result<Option<IpDelegation>, Error>)
        ensures
            match csv_line_of_text(s@) {
                Ok(Some(f)) => r matches Ok(Some(d)) && d.is(f),
                Ok(None) => r == Ok::<Option<IpDelegation>, Error>(None),
                Err(e) => r == Err::<Option<IpDelegation>, Error>(e),
            },
    {
        let cs = chars_of(s);
        if cs.len() >= 6 && matches_text(&cs, 0, 6, "prefix") {
            return Ok(None);
        }
        assert(cs@.subrange(0, cs@.len() as int) =~= s@);
        let parts = split_bounds(&cs, 0, cs.len(), ',');
        if parts.len() < 5 {
            return Err(Error::MissingColumn);
        }
        let (p0, p1) = parts[0];
        let (r0, r1) = parts[1];
        let (c0, c1) = parts[3];
        let (s0, s1) = parts[4];
        let reg = match Registry::parse_chars(&cs, r0, r1) {
            Some(r) => r,
            None => return Err(Error::UnknownRegistry),
        };
        let prefix = match IpPrefix::parse_chars(&cs, p0, p1) {
            Ok(p) => p,
            Err(e) => return Err(Error::InvalidPrefix(e)),
        };
        let state = match DelegationState::parse_chars(&cs, s0, s1) {
            Some(st) => st,
            None => return Err(Error::UnknownState),
        };
        let cc = chars_to_string(&cs, c0, c1);
        Ok(Some(IpDelegation { reg, cc, range: prefix.range(), state }))
    }

    /// Reads one line of NRO delegated-extended statistics; see
    /// `nro_line_of_text`.
    pub fn from_nro_line(s: &str) -> (r: Result<Option<IpDelegation>, Error>)
        ensures
            match nro_line_of_text(s@) {
                Ok(Some(f)) => r matches Ok(Some(d)) && d.is(f),
                Ok(None) => r == Ok::<Option<IpDelegation>, Error>(None),
                Err(e) => r == Err::<Option<IpDelegation>, Error>(e),
            },
    {
        let cs = chars_of(s);
        if contains_text(&cs, "nro|") || contains_text(&cs, "|asn|") {
            return Ok(None);
        }
        assert(cs@.subrange(0, cs@.len() as int) =~= s@);
        let parts = split_bounds(&cs, 0, cs.len(), '|');
        if parts.len() < 7 {
            return Err(Error::MissingColumn);
        }
        let (r0, r1) = parts[0];
        let (c0, c1) = parts[1];
        let (t0, t1) = parts[2];
        let (m0, m1) = parts[3];
        let (n0, n1) = parts[4];
        let (s0, s1) = parts[6];
        if !matches_text(&cs, t0, t1, "ipv4") && !matches_text(&cs, t0, t1, "ipv6") {
            return Err(Error::UnsupportedType);
        }
        let reg = match Registry::parse_chars(&cs, r0, r1) {
            Some(r) => r,
            None => return Err(Error::UnknownRegistry),
        };
        let min = match IpAddress::parse_chars(&cs, m0, m1) {
            Ok(a) => a,
            Err(e) => return Err(Error::InvalidAddress(e)),
        };
        let number = match parse_unsigned(&cs, n0, n1, u128::MAX) {
            Some(n) => n,
            None => return Err(Error::InvalidNumber),
        };
        let range = match IpRange::from_min_and_number(min, number) {
            Ok(r) => r,
            Err(e) => return Err(Error::InvalidRange(e)),
        };
        let state = match DelegationState::parse_chars(&cs, s0, s1) {
            Some(st) => st,
            None => return Err(Error::UnknownState),
        };
        let cc = chars_to_string(&cs, c0, c1);
        Ok(Some(IpDelegation { reg, cc, range, state }))
    }
}

/// Relies on std's `FromIterator<char>` for `String`: the string holds the
/// characters in order.
#[verifier::external_body]
fn chars_to_string(s: &Vec<char>, lo: usize, hi: usize) -> (r: String)
    requires
        lo <= hi <= s@.len(),
    ensures
        r@ == s@.subrange(lo as int, hi as int),
{
    s[lo..hi].iter().collect()
}

//------------ IpDelegations --------------------------------------------------

/// The country code for address space that no delegation covers.
pub const UNKNOWN_COUNTRY: &'static str = "XX";

/// The delegations, indexed by range.
pub struct IpDelegations {
    tree: IpRangeTree<IpDelegation>,
}

impl IpDelegations {
    pub closed spec fn spec_tree(self) -> IpRangeTree<IpDelegation> {
        self.tree
    }

    /// The delegations that cover `range`, group by group.
    pub open spec fn covering(self, range: IpRange) -> Seq<IpDelegation> {
        select(
            self.spec_tree().spec_ranges(),
            self.spec_tree().spec_values(),
            self.spec_tree().spec_ranges().len() as int,
            |g: IpRange| g.covers(range),
        )
    }

    pub fn new(tree: IpRangeTree<IpDelegation>) -> (r: IpDelegations)
        ensures
            r.spec_tree() == tree,
    {
        IpDelegations { tree }
    }

    /// The country of the first delegation that covers `range`, or `XX`
    /// where none does.
    pub fn find_cc(&self, range: &IpRange) -> (r: &str)
        ensures
            self.covering(*range).len() > 0 ==> r@ == self.covering(*range)[0].spec_cc(),
            self.covering(*range).len() == 0 ==> r@ == UNKNOWN_COUNTRY@,
    {
        let matching = self.tree.matching_or_less_specific(range);
        assert(deref_seq(matching@).len() == matching@.len());
        if matching.len() > 0 {
            assert(deref_seq(matching@)[0] == *matching@[0]);
            matching[0].cc()
        } else {
            UNKNOWN_COUNTRY
        }
    }
}

} // verus!
