//! IP addresses in one 128-bit space, inclusive ranges of them, and CIDR
//! prefixes.
//!
//! IPv4 addresses live in the IPv4-mapped block `::ffff:0:0/96`, so that a
//! single unsigned order covers both families.

use vstd::arithmetic::power2::{
    pow2,
    lemma2_to64,
    lemma2_to64_rest,
    lemma_pow2_adds,
    lemma_pow2_pos,
    lemma_pow2_strictly_increases,
    lemma_pow2_unfold,
};
use vstd::arithmetic::div_mod::lemma_small_mod;
use vstd::prelude::*;
pub use crate::asn::{Asn, AsnError, AsnRange, AsnSet};
pub use crate::range_tree::{IpRangeTree, IpRangeTreeBuilder};
pub use crate::resource_set::{IpResourceSet, IpRespourceSetError};
use crate::text::{
    bounded_value,
    chars_of,
    parse_unsigned,
    split_bounds,
    split_spec,
};

verus! {

/// The IPv4-mapped block: an IPv4 address `a` is stored as this value plus `a`.
pub const IPV4_IN_IPV6: u128 = 0xffff_0000_0000;

/// The largest IPv4 address, as a 32-bit number.
pub const IPV4_MAX: u128 = 0xffff_ffff;

//------------ Outside parsers ----------------------------------------------

/// What `core::net::Ipv4Addr`'s parser makes of a text, as the address's
/// 32-bit number.
pub uninterp spec fn ipv4_text_value(s: Seq<char>) -> Option<u32>;

/// What `core::net::Ipv6Addr`'s parser makes of a text, as the address's
/// 128-bit number.
pub uninterp spec fn ipv6_text_value(s: Seq<char>) -> Option<u128>;

/// Relies on `core::net::Ipv4Addr::from_str` (dotted-quad notation) and on
/// `u32::from(Ipv4Addr)` (the octets read big-endian).
#[verifier::external_body]
fn parse_ipv4_text(s: &Vec<char>, lo: usize, hi: usize) -> (r: Option<u32>)
    requires
        lo <= hi <= s@.len(),
    ensures
        r == ipv4_text_value(s@.subrange(lo as int, hi as int)),
{
    let text: String = s[lo..hi].iter().collect();
    text.parse::<core::net::Ipv4Addr>().ok().map(u32::from)
}

/// Relies on `core::net::Ipv6Addr::from_str` (RFC 4291 text notation) and on
/// `u128::from(Ipv6Addr)` (the octets read big-endian).
#[verifier::external_body]
fn parse_ipv6_text(s: &Vec<char>, lo: usize, hi: usize) -> (r: Option<u128>)
    requires
        lo <= hi <= s@.len(),
    ensures
        r == ipv6_text_value(s@.subrange(lo as int, hi as int)),
{
    let text: String = s[lo..hi].iter().collect();
    text.parse::<core::net::Ipv6Addr>().ok().map(u128::from)
}

//------------ Powers of two ------------------------------------------------

proof fn lemma_pow2_128()
    ensures
        pow2(128) == 0x1_0000_0000_0000_0000_0000_0000_0000_0000,
        pow2(127) == 0x8000_0000_0000_0000_0000_0000_0000_0000,
{
    lemma2_to64();
    lemma2_to64_rest();
    lemma_pow2_adds(64, 64);
    lemma_pow2_adds(63, 64);
    assert(pow2(64) == 0x1_0000_0000_0000_0000);
    assert(pow2(63) == 0x8000_0000_0000_0000);
    assert(pow2(128) == pow2(64) * pow2(64));
    assert(pow2(127) == pow2(63) * pow2(64));
    assert(0x1_0000_0000_0000_0000 * 0x1_0000_0000_0000_0000 == 0x1_0000_0000_0000_0000_0000_0000_0000_0000int) by (nonlinear_arith);
    assert(0x8000_0000_0000_0000 * 0x1_0000_0000_0000_0000 == 0x8000_0000_0000_0000_0000_0000_0000_0000int) by (nonlinear_arith);
}

/// `2^h` as a `u128`.
fn pow2_u128(h: u32) -> (r: u128)
    requires
        h < 128,
    ensures
        r as nat == pow2(h as nat),
{
    let mut r: u128 = 1;
    let mut i: u32 = 0;
    proof {
        lemma2_to64();
    }
    while i < h
        invariant
            i <= h < 128,
            r as nat == pow2(i as nat),
        decreases h - i,
    {
        proof {
            lemma_pow2_unfold((i + 1) as nat);
            lemma_pow2_strictly_increases((i + 1) as nat, 128);
            lemma_pow2_128();
        }
        r = r * 2;
        i += 1;
    }
    r
}

//------------ IpAddressFamily ----------------------------------------------

#[derive(Clone, Copy, Debug, PartialEq, Eq, Structural)]
pub enum IpAddressFamily {
    Ipv4,
    Ipv6,
}

//------------ IpAddress ----------------------------------------------------

/// Whether a 128-bit value lies in the IPv4-mapped block.
pub open spec fn is_ipv4_value(v: u128) -> bool {
    IPV4_IN_IPV6 <= v <= IPV4_IN_IPV6 + IPV4_MAX
}

/// One IPv4 or IPv6 address, as a 128-bit number.
#[derive(Clone, Copy, Debug, PartialEq, Eq, Structural)]
pub struct IpAddress {
    pub value: u128,
}

/// What `IpAddress::from_str` gives for a text: IPv4 where it holds a `.`,
/// IPv6 where it holds a `:`.
pub open spec fn address_of_text(s: Seq<char>) -> Result<u128, IpAddressError> {
    if s.contains('.') {
        match ipv4_text_value(s) {
            Some(v) => Ok((IPV4_IN_IPV6 + v) as u128),
            None => Err(IpAddressError::AddrParseError),
        }
    } else if s.contains(':') {
        match ipv6_text_value(s) {
            Some(v) => Ok(v),
            None => Err(IpAddressError::AddrParseError),
        }
    } else {
        Err(IpAddressError::NotAnIpAddress)
    }
}

/// Whether `s[lo..hi]` holds `c`.
fn contains_char(s: &Vec<char>, lo: usize, hi: usize, c: char) -> (r: bool)
    requires
        lo <= hi <= s@.len(),
    ensures
        r == s@.subrange(lo as int, hi as int).contains(c),
{
    let mut i = lo;
    while i < hi
        invariant
            lo <= i <= hi <= s@.len(),
            forall|j: int| lo <= j < i ==> s@[j] != c,
        decreases hi - i,
    {
        if s[i] == c {
            assert(s@.subrange(lo as int, hi as int)[i - lo] == c);
            return true;
        }
        i += 1;
    }
    assert forall|j: int| 0 <= j < hi - lo implies s@.subrange(lo as int, hi as int)[j] != c by {
        assert(s@.subrange(lo as int, hi as int)[j] == s@[lo + j]);
    }
    false
}

impl IpAddress {
    /// The address with the given 128-bit value. An IPv4 address is written
    /// `IPV4_IN_IPV6 | value`; see `from_ipv4`.
    pub fn new(value: u128) -> (r: IpAddress)
        ensures
            r.value == value,
    {
        IpAddress { value }
    }

    /// The IPv4 address with the given 32-bit number.
    pub fn from_ipv4(v: u32) -> (r: IpAddress)
        ensures
            r.value == IPV4_IN_IPV6 + v,
            is_ipv4_value(r.value),
    {
        IpAddress { value: IPV4_IN_IPV6 + v as u128 }
    }

    /// The IPv6 address with the given 128-bit number.
    pub fn from_ipv6(v: u128) -> (r: IpAddress)
        ensures
            r.value == v,
    {
        IpAddress { value: v }
    }

    pub fn value(&self) -> (r: u128)
        ensures
            r == self.value,
    {
        self.value
    }

    /// IPv4 exactly where the value lies in the IPv4-mapped block.
    pub fn ip_address_family(&self) -> (r: IpAddressFamily)
        ensures
            r == (if is_ipv4_value(self.value) {
                IpAddressFamily::Ipv4
            } else {
                IpAddressFamily::Ipv6
            }),
    {
        if IPV4_IN_IPV6 <= self.value && self.value <= IPV4_IN_IPV6 + IPV4_MAX {
            IpAddressFamily::Ipv4
        } else {
            IpAddressFamily::Ipv6
        }
    }

    pub fn parse_chars(s: &Vec<char>, lo: usize, hi: usize) -> (r: Result<IpAddress, IpAddressError>)
        requires
            lo <= hi <= s@.len(),
        ensures
            match address_of_text(s@.subrange(lo as int, hi as int)) {
                Ok(v) => r == Ok::<IpAddress, IpAddressError>(IpAddress { value: v }),
                Err(e) => r == Err::<IpAddress, IpAddressError>(e),
            },
    {
        if contains_char(s, lo, hi, '.') {
            match parse_ipv4_text(s, lo, hi) {
                Some(v) => Ok(IpAddress::from_ipv4(v)),
                None => Err(IpAddressError::AddrParseError),
            }
        } else if contains_char(s, lo, hi, ':') {
            match parse_ipv6_text(s, lo, hi) {
                Some(v) => Ok(IpAddress::from_ipv6(v)),
                None => Err(IpAddressError::AddrParseError),
            }
        } else {
            Err(IpAddressError::NotAnIpAddress)
        }
    }

    /// Parses an IPv4 address in dotted-quad notation or an IPv6 address in
    /// colon notation.
    pub fn from_str(s: &str) -> (r: Result<IpAddress, IpAddressError>)
        ensures
            match address_of_text(s@) {
                Ok(v) => r == Ok::<IpAddress, IpAddressError>(IpAddress { value: v }),
                Err(e) => r == Err::<IpAddress, IpAddressError>(e),
            },
    {
        let cs = chars_of(s);
        assert(cs@.subrange(0, cs@.len() as int) =~= s@);
        IpAddress::parse_chars(&cs, 0, cs.len())
    }
}

//------------ IpRange ------------------------------------------------------

/// Whether `[lo, hi]` is exactly the block of some prefix: `2^h` addresses
/// starting at a multiple of `2^h`.
pub open spec fn is_prefix_pair(lo: int, hi: int) -> bool {
    exists|h: nat| h <= 128 && #[trigger] (lo % pow2(h) as int) == 0 && hi == lo + pow2(h) - 1
}

/// What `IpRange::from_str` gives for a text: two addresses separated by the
/// one `-` in it, the first no larger than the second.
pub open spec fn range_of_text(s: Seq<char>) -> Result<(u128, u128), IpRangeError> {
    let parts = split_spec(s, '-');
    if parts.len() != 2 {
        Err(IpRangeError::MustUseDashNotation)
    } else {
        match address_of_text(parts[0]) {
            Err(e) => Err(IpRangeError::ContainsInvalidIpAddress(e)),
            Ok(a) => match address_of_text(parts[1]) {
                Err(e) => Err(IpRangeError::ContainsInvalidIpAddress(e)),
                Ok(b) => if a <= b {
                    Ok((a, b))
                } else {
                    Err(IpRangeError::MinExceedsMax)
                },
            },
        }
    }
}

/// An inclusive range of addresses.
#[derive(Clone, Copy, Debug, PartialEq, Eq, Structural)]
pub struct IpRange {
    min: IpAddress,
    max: IpAddress,
}

impl IpRange {
    /// The first address of the range, as a number.
    pub closed spec fn lo(self) -> u128 {
        self.min.value
    }

    /// The last address of the range, as a number.
    pub closed spec fn hi(self) -> u128 {
        self.max.value
    }

    /// Every range value has `lo() <= hi()`: the constructors check it.
    #[verifier::type_invariant]
    pub closed spec fn inv(self) -> bool {
        self.min.value <= self.max.value
    }

    /// What the type invariant says, for callers outside this module.
    pub proof fn lemma_inv_wf(r: IpRange)
        requires
            r.inv(),
        ensures
            r.wf(),
    {
    }

    /// The range with the given bounds.
    pub closed spec fn from_bounds(lo: u128, hi: u128) -> IpRange {
        IpRange { min: IpAddress { value: lo }, max: IpAddress { value: hi } }
    }

    /// The range built from two bounds has those bounds.
    pub broadcast proof fn lemma_from_bounds(lo: u128, hi: u128)
        ensures
            #[trigger] IpRange::from_bounds(lo, hi).lo() == lo,
            IpRange::from_bounds(lo, hi).hi() == hi,
    {
    }

    /// A range is determined by its bounds: rebuilding it from them gives
    /// it back.
    pub proof fn lemma_bounds_round_trip(r: IpRange)
        ensures
            IpRange::from_bounds(r.lo(), r.hi()) == r,
    {
    }

    /// The range with the given bounds, which the caller has checked.
    pub(crate) fn from_values(lo: u128, hi: u128) -> (r: IpRange)
        requires
            lo <= hi,
        ensures
            r == IpRange::from_bounds(lo, hi),
            r.lo() == lo,
            r.hi() == hi,
    {
        IpRange { min: IpAddress { value: lo }, max: IpAddress { value: hi } }
    }

    /// Every range that the library hands out has `lo() <= hi()`.
    pub open spec fn wf(self) -> bool {
        self.lo() <= self.hi()
    }

    /// Whether this range holds every address of `other`.
    pub open spec fn covers(self, other: IpRange) -> bool {
        self.lo() <= other.lo() && other.hi() <= self.hi()
    }

    /// Whether the two ranges share an address.
    pub open spec fn meets(self, other: IpRange) -> bool {
        (self.lo() <= other.lo() && self.hi() >= other.lo()) || (self.lo() > other.lo()
            && self.lo() <= other.hi())
    }

    /// The range from `min` to `max`; fails where `min` exceeds `max`.
    pub fn create(min: IpAddress, max: IpAddress) -> (r: Result<IpRange, IpRangeError>)
        ensures
            min.value <= max.value ==> r == Ok::<IpRange, IpRangeError>(
                IpRange::from_bounds(min.value, max.value),
            ),
            min.value <= max.value ==> (r matches Ok(x) && x.lo() == min.value && x.hi()
                == max.value),
            min.value > max.value ==> r == Err::<IpRange, IpRangeError>(
                IpRangeError::MinExceedsMax,
            ),
    {
        if min.value > max.value {
            Err(IpRangeError::MinExceedsMax)
        } else {
            Ok(IpRange { min, max })
        }
    }

    /// The `number` addresses that start at `min`. Fails with `MinExceedsMax`
    /// where `number` is zero or the last address would lie past the end of
    /// the address space.
    pub fn from_min_and_number(min: IpAddress, number: u128) -> (r: Result<IpRange, IpRangeError>)
        ensures
            1 <= number && min.value + number - 1 <= u128::MAX ==> (r matches Ok(x) && x.lo()
                == min.value && x.hi() == min.value + number - 1),
            !(1 <= number && min.value + number - 1 <= u128::MAX) ==> r == Err::<
                IpRange,
                IpRangeError,
            >(IpRangeError::MinExceedsMax),
    {
        if number == 0 || number - 1 > u128::MAX - min.value {
            Err(IpRangeError::MinExceedsMax)
        } else {
            let max = IpAddress::new(min.value + (number - 1));
            IpRange::create(min, max)
        }
    }

    pub fn min(&self) -> (r: IpAddress)
        ensures
            r.value == self.lo(),
    {
        self.min
    }

    pub fn max(&self) -> (r: IpAddress)
        ensures
            r.value == self.hi(),
    {
        self.max
    }

    /// Whether the range is exactly the block of one prefix.
    pub fn is_prefix(&self) -> (r: bool)
        ensures
            r == is_prefix_pair(self.lo() as int, self.hi() as int),
    {
        proof {
            use_type_invariant(self);
        }
        let lo = self.min.value;
        let hi = self.max.value;
        let d = hi - lo;
        if d == u128::MAX {
            proof {
                lemma_pow2_128();
                assert((lo as int) % (pow2(128) as int) == 0);
            }
            return true;
        }
        let size = d + 1;
        let mut p: u128 = 1;
        let mut h: u32 = 0;
        proof {
            lemma2_to64();
        }
        while p < size && h < 127
            invariant
                h <= 127,
                p as nat == pow2(h as nat),
                h > 0 ==> pow2((h - 1) as nat) < size,
                size == d + 1,
            decreases 127 - h,
        {
            proof {
                lemma_pow2_unfold((h + 1) as nat);
                lemma_pow2_strictly_increases((h + 1) as nat, 128);
                lemma_pow2_128();
            }
            p = p * 2;
            h += 1;
        }
        let r = p == size && lo % p == 0;
        proof {
            if r {
                assert((lo as int) % (pow2(h as nat) as int) == 0);
            } else {
                if is_prefix_pair(lo as int, hi as int) {
                    let k = choose|k: nat|
                        k <= 128 && #[trigger] ((lo as int) % pow2(k) as int) == 0 && hi == lo
                            + pow2(k) - 1;
                    lemma_pow2_128();
                    if k == 128 {
                        assert(false);
                    }
                    if k > h {
                        lemma_pow2_strictly_increases(h as nat, k);
                        if h < 127 {
                            assert(false);
                        } else {
                            lemma_pow2_strictly_increases(k, 128);
                            assert(false);
                        }
                    } else if k < h {
                        if k < h - 1 {
                            lemma_pow2_strictly_increases(k, (h - 1) as nat);
                        }
                        assert(false);
                    }
                }
            }
        }
        r
    }

    /// Whether the ranges share an address: `self` starts no later than
    /// `other` and reaches its start, or starts inside `other`.
    pub fn intersects(&self, other: IpRange) -> (r: bool)
        ensures
            r == self.meets(other),
    {
        (self.min.value <= other.min.value && self.max.value >= other.min.value) || (
        self.min.value > other.min.value && self.min.value <= other.max.value)
    }

    /// Whether this range holds the numeric range `other`.
    pub fn contains(&self, other: &core::ops::Range<u128>) -> (r: bool)
        ensures
            r == (self.lo() <= other.start && other.end <= self.hi()),
    {
        self.min.value <= other.start && self.max.value >= other.end
    }

    /// Whether the numeric range `other` holds this range.
    pub fn is_contained_by(&self, other: &core::ops::Range<u128>) -> (r: bool)
        ensures
            r == (other.start <= self.lo() && self.hi() <= other.end),
    {
        other.start <= self.min.value && other.end >= self.max.value
    }

    /// The range whose first and last addresses are `other.start` and
    /// `other.end`, the inverse of `to_range`; fails where the start exceeds
    /// the end.
    pub fn from_range(other: &core::ops::Range<u128>) -> (r: Result<IpRange, IpRangeError>)
        ensures
            other.start <= other.end ==> r == Ok::<IpRange, IpRangeError>(
                IpRange::from_bounds(other.start, other.end),
            ),
            other.start > other.end ==> r == Err::<IpRange, IpRangeError>(
                IpRangeError::MinExceedsMax,
            ),
    {
        IpRange::create(IpAddress::new(other.start), IpAddress::new(other.end))
    }

    /// The bounds as a numeric range; its `end` is the last address.
    pub fn to_range(&self) -> (r: core::ops::Range<u128>)
        ensures
            r.start == self.lo(),
            r.end == self.hi(),
    {
        core::ops::Range { start: self.min.value, end: self.max.value }
    }

    pub fn parse_chars(s: &Vec<char>, lo: usize, hi: usize) -> (r: Result<IpRange, IpRangeError>)
        requires
            lo <= hi <= s@.len(),
        ensures
            match range_of_text(s@.subrange(lo as int, hi as int)) {
                Ok((a, b)) => r matches Ok(x) && x.lo() == a && x.hi() == b,
                Err(e) => r == Err::<IpRange, IpRangeError>(e),
            },
    {
        let parts = split_bounds(s, lo, hi, '-');
        if parts.len() != 2 {
            return Err(IpRangeError::MustUseDashNotation);
        }
        let (a0, a1) = parts[0];
        let (b0, b1) = parts[1];
        let min = match IpAddress::parse_chars(s, a0, a1) {
            Ok(a) => a,
            Err(e) => return Err(IpRangeError::ContainsInvalidIpAddress(e)),
        };
        let max = match IpAddress::parse_chars(s, b0, b1) {
            Ok(a) => a,
            Err(e) => return Err(IpRangeError::ContainsInvalidIpAddress(e)),
        };
        IpRange::create(min, max)
    }

    /// Parses `min-max`: two addresses and one dash, no whitespace.
    pub fn from_str(s: &str) -> (r: Result<IpRange, IpRangeError>)
        ensures
            match range_of_text(s@) {
                Ok((a, b)) => r matches Ok(x) && x.lo() == a && x.hi() == b,
                Err(e) => r == Err::<IpRange, IpRangeError>(e),
            },
    {
        let cs = chars_of(s);
        assert(cs@.subrange(0, cs@.len() as int) =~= s@);
        IpRange::parse_chars(&cs, 0, cs.len())
    }
}

//------------ IpPrefix -----------------------------------------------------

/// The prefix length counted over all 128 bits: an IPv4 length plus 96.
pub open spec fn full_length(base: u128, length: nat) -> nat {
    if is_ipv4_value(base) {
        length + 96
    } else {
        length
    }
}

/// What `IpPrefix::from_str` gives for a text: the base address, the length
/// as written, and the last address of the block.
pub open spec fn prefix_of_text(s: Seq<char>) -> Result<(u128, u8, u128), IpPrefixError> {
    let parts = split_spec(s, '/');
    if parts.len() != 2 {
        Err(IpPrefixError::InvalidSyntax)
    } else {
        match address_of_text(parts[0]) {
            Err(e) => Err(IpPrefixError::InvalidBaseAddress(e)),
            Ok(a) => match bounded_value(parts[1], 255) {
                None => Err(IpPrefixError::InvalidPrefixLength),
                Some(len) => {
                    let full = full_length(a, len);
                    if full > 128 || (a as int) % (pow2((128 - full) as nat) as int) != 0 {
                        Err(IpPrefixError::InvalidPrefixLength)
                    } else {
                        Ok((a, len as u8, (a + pow2((128 - full) as nat) - 1) as u128))
                    }
                },
            },
        }
    }
}

/// A CIDR prefix: its block of addresses and its length as written.
#[derive(Clone, Copy, Debug, PartialEq, Eq, Structural)]
pub struct IpPrefix {
    range: IpRange,
    length: u8,
}

impl IpPrefix {
    pub closed spec fn spec_range(self) -> IpRange {
        self.range
    }

    pub closed spec fn spec_length(self) -> u8 {
        self.length
    }

    #[verifier::type_invariant]
    spec fn inv(self) -> bool {
        &&& self.range.min.value <= self.range.max.value
        &&& is_prefix_pair(self.range.min.value as int, self.range.max.value as int)
    }

    /// Every prefix that the library hands out spans a valid prefix block.
    pub open spec fn wf(self) -> bool {
        &&& self.spec_range().wf()
        &&& is_prefix_pair(self.spec_range().lo() as int, self.spec_range().hi() as int)
    }

    pub fn length(&self) -> (r: u8)
        ensures
            r == self.spec_length(),
    {
        self.length
    }

    /// The block of addresses.
    pub fn range(&self) -> (r: IpRange)
        ensures
            r == self.spec_range(),
            r.wf(),
            is_prefix_pair(r.lo() as int, r.hi() as int),
    {
        proof {
            use_type_invariant(self);
        }
        self.range
    }

    pub fn parse_chars(s: &Vec<char>, lo: usize, hi: usize) -> (r: Result<IpPrefix, IpPrefixError>)
        requires
            lo <= hi <= s@.len(),
        ensures
            match prefix_of_text(s@.subrange(lo as int, hi as int)) {
                Ok((a, len, m)) => r matches Ok(p) && p.spec_range().lo() == a
                    && p.spec_range().hi() == m && p.spec_length() == len,
                Err(e) => r == Err::<IpPrefix, IpPrefixError>(e),
            },
            r matches Ok(p) ==> p.wf(),
    {
        let ghost text = s@.subrange(lo as int, hi as int);
        let parts = split_bounds(s, lo, hi, '/');
        if parts.len() != 2 {
            return Err(IpPrefixError::InvalidSyntax);
        }
        let (a0, a1) = parts[0];
        let (b0, b1) = parts[1];
        assert(s@.subrange(a0 as int, a1 as int) == split_spec(text, '/')[0]);
        assert(s@.subrange(b0 as int, b1 as int) == split_spec(text, '/')[1]);
        let min = match IpAddress::parse_chars(s, a0, a1) {
            Ok(a) => a,
            Err(e) => return Err(IpPrefixError::InvalidBaseAddress(e)),
        };
        let length = match parse_unsigned(s, b0, b1, 255) {
            Some(v) => v as u8,
            None => return Err(IpPrefixError::InvalidPrefixLength),
        };
        let full: u32 = match min.ip_address_family() {
            IpAddressFamily::Ipv4 => length as u32 + 96,
            IpAddressFamily::Ipv6 => length as u32,
        };
        assert(full == full_length(min.value, length as nat));
        if full > 128 {
            return Err(IpPrefixError::InvalidPrefixLength);
        }
        let host = 128 - full;
        let max_val: u128;
        if host == 128 {
            proof {
                lemma_pow2_128();
            }
            proof {
                lemma_small_mod(min.value as nat, pow2(128));
            }
            if min.value != 0 {
                return Err(IpPrefixError::InvalidPrefixLength);
            }
            max_val = u128::MAX;
        } else {
            let size = pow2_u128(host);
            proof {
                lemma_pow2_pos(host as nat);
            }
            if min.value % size != 0 {
                return Err(IpPrefixError::InvalidPrefixLength);
            }
            proof {
                lemma_aligned_block_fits(min.value, host as nat);
            }
            max_val = min.value + (size - 1);
        }
        let max = IpAddress::new(max_val);
        let range = IpRange { min, max };
        proof {
            lemma_parsed_prefix_is_prefix(text);
        }
        Ok(IpPrefix { range, length })
    }

    /// Parses `address/length`. The length counts bits of the address's own
    /// family (at most 32 for IPv4, 128 for IPv6), and the base address has
    /// no bit set past it.
    pub fn from_str(s: &str) -> (r: Result<IpPrefix, IpPrefixError>)
        ensures
            match prefix_of_text(s@) {
                Ok((a, len, m)) => r matches Ok(p) && p.spec_range().lo() == a
                    && p.spec_range().hi() == m && p.spec_length() == len,
                Err(e) => r == Err::<IpPrefix, IpPrefixError>(e),
            },
            r matches Ok(p) ==> p.wf(),
    {
        let cs = chars_of(s);
        assert(cs@.subrange(0, cs@.len() as int) =~= s@);
        IpPrefix::parse_chars(&cs, 0, cs.len())
    }
}

/// A block of `2^h` addresses that starts at a multiple of `2^h` ends inside
/// the address space.
proof fn lemma_aligned_block_fits(base: u128, h: nat)
    requires
        h < 128,
        (base as int) % (pow2(h) as int) == 0,
    ensures
        base + pow2(h) - 1 <= u128::MAX,
{
    lemma_pow2_pos(h);
    lemma_pow2_128();
    lemma_pow2_adds(h, (128 - h) as nat);
    let size = pow2(h) as int;
    let rest = pow2((128 - h) as nat) as int;
    lemma_pow2_pos((128 - h) as nat);
    assert(h + (128 - h) as nat == 128);
    assert(size * rest == pow2(128));
    let q = (base as int) / size;
    assert(base as int == q * size) by (nonlinear_arith)
        requires
            (base as int) % size == 0,
            size > 0,
            q == (base as int) / size,
    {
    }
    assert(base + size - 1 <= size * rest - 1) by (nonlinear_arith)
        requires
            base as int == q * size,
            base < size * rest,
            size > 0,
            rest > 0,
    {
        assert(q * size < rest * size);
        assert(q < rest);
        assert(q * size <= (rest - 1) * size);
    }
}

/// A parsed prefix spans a valid prefix block.
pub proof fn lemma_parsed_prefix_is_prefix(s: Seq<char>)
    requires
        prefix_of_text(s) is Ok,
    ensures
        prefix_of_text(s)->Ok_0.0 <= prefix_of_text(s)->Ok_0.2,
        is_prefix_pair(prefix_of_text(s)->Ok_0.0 as int, prefix_of_text(s)->Ok_0.2 as int),
{
    let parts = split_spec(s, '/');
    let a = address_of_text(parts[0])->Ok_0;
    let len = bounded_value(parts[1], 255)->Some_0;
    let h = (128 - full_length(a, len)) as nat;
    lemma_pow2_pos(h);
    lemma_pow2_128();
    if h < 128 {
        lemma_aligned_block_fits(a, h);
    } else {
        lemma_small_mod(a as nat, pow2(128));
    }
    assert((a as int) % (pow2(h) as int) == 0);
}

#[derive(Clone, Copy, Debug, PartialEq, Eq, Structural)]
pub enum IpRangeError {
    MinExceedsMax,
    MustUseDashNotation,
    ContainsInvalidIpAddress(IpAddressError),
}

#[derive(Clone, Copy, Debug, PartialEq, Eq, Structural)]
pub enum IpPrefixError {
    InvalidSyntax,
    InvalidPrefixLength,
    InvalidBaseAddress(IpAddressError),
}

//------------ Errors -------------------------------------------------------

#[derive(Clone, Copy, Debug, PartialEq, Eq, Structural)]
pub enum IpAddressError {
    /// Neither notation's parser accepted the text.
    AddrParseError,
    /// The text holds neither `.` nor `:`.
    NotAnIpAddress,
}

impl IpAddressError {
    pub fn message(&self) -> (r: &'static str) {
        match self {
            IpAddressError::AddrParseError => "invalid IP address syntax",
            IpAddressError::NotAnIpAddress => "Pattern doesn't match IPv4 or IPv6",
        }
    }
}

} // verus!
