//! Autonomous system numbers, ranges of them, and sets of such ranges.

use vstd::prelude::*;
use crate::text::{
    bounded_value,
    chars_of,
    parse_unsigned,
    split_bounds,
    split_spec,
    without_char,
};

verus! {

//------------ Asn ----------------------------------------------------------

/// What `str::to_lowercase` makes of a text.
pub uninterp spec fn lower_of(s: Seq<char>) -> Seq<char>;

/// Relies on `str::to_lowercase`: the result depends on the characters alone.
#[verifier::external_body]
pub(crate) fn lowercase(s: &Vec<char>, lo: usize, hi: usize) -> (r: Vec<char>)
    requires
        lo <= hi <= s@.len(),
    ensures
        r@ == lower_of(s@.subrange(lo as int, hi as int)),
{
    let text: String = s[lo..hi].iter().collect();
    text.to_lowercase().chars().collect()
}

/// The lower-cased characters of a string.
fn lowercase_str(s: &str) -> (r: Vec<char>)
    ensures
        r@ == lower_of(s@),
{
    let cs = chars_of(s);
    assert(cs@.subrange(0, cs@.len() as int) =~= s@);
    lowercase(&cs, 0, cs.len())
}

/// `s` with every `as` taken out, left to right, as `str::replace("as", "")`
/// does it.
pub open spec fn without_as(s: Seq<char>) -> Seq<char>
    decreases s.len(),
{
    if s.len() == 0 {
        s
    } else if s.len() >= 2 && s[0] == 'a' && s[1] == 's' {
        without_as(s.subrange(2, s.len() as int))
    } else {
        seq![s[0]] + without_as(s.drop_first())
    }
}

/// The number that a lower-case ASN text denotes: `as` taken out, then an
/// unsigned 32-bit decimal number.
pub open spec fn asn_of_lowercase(s: Seq<char>) -> Option<u32> {
    match bounded_value(without_as(s), u32::MAX as nat) {
        Some(v) => Some(v as u32),
        None => None,
    }
}

fn strip_as(s: &Vec<char>, lo: usize, hi: usize) -> (r: Vec<char>)
    requires
        lo <= hi <= s@.len(),
    ensures
        r@ == without_as(s@.subrange(lo as int, hi as int)),
{
    let mut r: Vec<char> = Vec::new();
    let mut i = lo;
    while i < hi
        invariant
            lo <= i <= hi <= s@.len(),
            r@ + without_as(s@.subrange(i as int, hi as int)) == without_as(
                s@.subrange(lo as int, hi as int),
            ),
        decreases hi - i,
    {
        let ghost t = s@.subrange(i as int, hi as int);
        if i + 1 < hi && s[i] == 'a' && s[i + 1] == 's' {
            assert(t.subrange(2, t.len() as int) =~= s@.subrange(i + 2, hi as int));
            i += 2;
        } else {
            assert(t.drop_first() =~= s@.subrange(i + 1, hi as int));
            r.push(s[i]);
            i += 1;
            assert(r@ + without_as(s@.subrange(i as int, hi as int)) =~= without_as(
                s@.subrange(lo as int, hi as int),
            ));
        }
    }
    assert(s@.subrange(i as int, hi as int) =~= Seq::<char>::empty());
    assert(r@ + Seq::<char>::empty() =~= r@);
    r
}

/// An autonomous system number.
#[derive(Clone, Copy, Debug, PartialEq, Eq, Structural, PartialOrd, Ord, Hash)]
pub struct Asn {
    val: u32,
}

impl Asn {
    pub closed spec fn spec_value(self) -> u32 {
        self.val
    }

    pub fn new(val: u32) -> (r: Asn)
        ensures
            r.spec_value() == val,
    {
        Asn { val }
    }

    pub fn value(&self) -> (r: u32)
        ensures
            r == self.spec_value(),
    {
        self.val
    }

    pub fn parse_lowercase_chars(s: &Vec<char>, lo: usize, hi: usize) -> (r: Result<Asn, AsnError>)
        requires
            lo <= hi <= s@.len(),
        ensures
            match asn_of_lowercase(s@.subrange(lo as int, hi as int)) {
                Some(v) => r matches Ok(a) && a.spec_value() == v,
                None => r == Err::<Asn, AsnError>(AsnError::InvalidAsn),
            },
    {
        let t = strip_as(s, lo, hi);
        assert(t@.subrange(0, t@.len() as int) =~= t@);
        match parse_unsigned(&t, 0, t.len(), 0xffff_ffff) {
            Some(v) => Ok(Asn { val: v as u32 }),
            None => Err(AsnError::InvalidAsn),
        }
    }

    /// Reads a lower-case ASN text such as `as65000` or `65000`.
    pub fn from_lowercase(s: &str) -> (r: Result<Asn, AsnError>)
        ensures
            match asn_of_lowercase(s@) {
                Some(v) => r matches Ok(a) && a.spec_value() == v,
                None => r == Err::<Asn, AsnError>(AsnError::InvalidAsn),
            },
    {
        let cs = chars_of(s);
        assert(cs@.subrange(0, cs@.len() as int) =~= s@);
        Asn::parse_lowercase_chars(&cs, 0, cs.len())
    }

    /// Reads an ASN text such as `AS65000`, `as65000` or `65000`: the text
    /// is lower-cased first.
    pub fn from_str(s: &str) -> (r: Result<Asn, AsnError>)
        ensures
            match asn_of_lowercase(lower_of(s@)) {
                Some(v) => r matches Ok(a) && a.spec_value() == v,
                None => r == Err::<Asn, AsnError>(AsnError::InvalidAsn),
            },
    {
        let lower = lowercase_str(s);
        assert(lower@.subrange(0, lower@.len() as int) =~= lower@);
        Asn::parse_lowercase_chars(&lower, 0, lower.len())
    }
}

//------------ AsnRange -----------------------------------------------------

/// What `AsnRange::from_str` reads from a lower-cased text: two ASNs around
/// the one `-`, the first no larger than the second.
pub open spec fn asn_range_of_lowercase(s: Seq<char>) -> Result<(u32, u32), AsnError> {
    let parts = split_spec(s, '-');
    if parts.len() != 2 {
        Err(AsnError::InvalidRange)
    } else {
        match asn_of_lowercase(parts[0]) {
            None => Err(AsnError::InvalidAsn),
            Some(a) => match asn_of_lowercase(parts[1]) {
                None => Err(AsnError::InvalidAsn),
                Some(b) => if a <= b {
                    Ok((a, b))
                } else {
                    Err(AsnError::InvalidRange)
                },
            },
        }
    }
}

/// An inclusive range of ASNs.
#[derive(Clone, Copy, Debug, PartialEq, Eq, Structural)]
pub struct AsnRange {
    min: Asn,
    max: Asn,
}

impl AsnRange {
    pub closed spec fn lo(self) -> u32 {
        self.min.val
    }

    pub closed spec fn hi(self) -> u32 {
        self.max.val
    }

    /// Every range value has `lo() <= hi()`: the constructors check it.
    #[verifier::type_invariant]
    pub closed spec fn inv(self) -> bool {
        self.min.val <= self.max.val
    }

    pub closed spec fn from_bounds(lo: u32, hi: u32) -> AsnRange {
        AsnRange { min: Asn { val: lo }, max: Asn { val: hi } }
    }

    /// The range built from two bounds has those bounds.
    pub broadcast proof fn lemma_from_bounds(lo: u32, hi: u32)
        ensures
            #[trigger] AsnRange::from_bounds(lo, hi).lo() == lo,
            AsnRange::from_bounds(lo, hi).hi() == hi,
    {
    }

    pub open spec fn wf(self) -> bool {
        self.lo() <= self.hi()
    }

    /// Whether this range holds every number of `other`.
    pub open spec fn covers(self, other: AsnRange) -> bool {
        self.lo() <= other.lo() && other.hi() <= self.hi()
    }

    /// Whether the two ranges share a number.
    pub open spec fn meets(self, other: AsnRange) -> bool {
        (self.lo() <= other.lo() && self.hi() >= other.lo()) || (self.lo() > other.lo()
            && self.lo() <= other.hi())
    }

    /// The range from `min` to `max`, or `None` where `min` exceeds `max`.
    pub fn create(min: Asn, max: Asn) -> (r: Option<AsnRange>)
        ensures
            min.spec_value() <= max.spec_value() ==> r == Some(
                AsnRange::from_bounds(min.spec_value(), max.spec_value()),
            ),
            min.spec_value() > max.spec_value() ==> r is None,
    {
        if min.val <= max.val {
            Some(AsnRange { min, max })
        } else {
            None
        }
    }

    /// The range holding `asn` alone.
    pub fn single(asn: Asn) -> (r: AsnRange)
        ensures
            r == AsnRange::from_bounds(asn.spec_value(), asn.spec_value()),
    {
        AsnRange { min: asn, max: asn }
    }

    pub fn contains(&self, asn: &Asn) -> (r: bool)
        ensures
            r == (self.lo() <= asn.spec_value() <= self.hi()),
    {
        self.min.val <= asn.val && self.max.val >= asn.val
    }

    pub fn intersects(&self, other: &AsnRange) -> (r: bool)
        ensures
            r == self.meets(*other),
    {
        (self.min.val <= other.min.val && self.max.val >= other.min.val) || (self.min.val
            > other.min.val && self.min.val <= other.max.val)
    }

    pub fn parse_lowercase_chars(s: &Vec<char>, lo: usize, hi: usize) -> (r: Result<
        AsnRange,
        AsnError,
    >)
        requires
            lo <= hi <= s@.len(),
        ensures
            match asn_range_of_lowercase(s@.subrange(lo as int, hi as int)) {
                Ok((a, b)) => r == Ok::<AsnRange, AsnError>(AsnRange::from_bounds(a, b)),
                Err(e) => r == Err::<AsnRange, AsnError>(e),
            },
    {
        let ghost text = s@.subrange(lo as int, hi as int);
        let parts = split_bounds(s, lo, hi, '-');
        if parts.len() != 2 {
            return Err(AsnError::InvalidRange);
        }
        let (a0, a1) = parts[0];
        let (b0, b1) = parts[1];
        assert(s@.subrange(a0 as int, a1 as int) == split_spec(text, '-')[0]);
        assert(s@.subrange(b0 as int, b1 as int) == split_spec(text, '-')[1]);
        let min = Asn::parse_lowercase_chars(s, a0, a1)?;
        let max = Asn::parse_lowercase_chars(s, b0, b1)?;
        match AsnRange::create(min, max) {
            Some(r) => Ok(r),
            None => Err(AsnError::InvalidRange),
        }
    }

    /// Reads `min-max`, as in `AS1-AS3`; the text is lower-cased first.
    pub fn from_str(s: &str) -> (r: Result<AsnRange, AsnError>)
        ensures
            match asn_range_of_lowercase(lower_of(s@)) {
                Ok((a, b)) => r == Ok::<AsnRange, AsnError>(AsnRange::from_bounds(a, b)),
                Err(e) => r == Err::<AsnRange, AsnError>(e),
            },
    {
        let lower = lowercase_str(s);
        assert(lower@.subrange(0, lower@.len() as int) =~= lower@);
        AsnRange::parse_lowercase_chars(&lower, 0, lower.len())
    }
}

//------------ AsnSet -------------------------------------------------------

/// The members of `rs` that share no number with `x`, in order.
pub open spec fn asn_apart(rs: Seq<AsnRange>, x: AsnRange) -> Seq<AsnRange>
    decreases rs.len(),
{
    if rs.len() == 0 {
        rs
    } else {
        let p = asn_apart(rs.drop_last(), x);
        if rs.last().meets(x) {
            p
        } else {
            p.push(rs.last())
        }
    }
}

pub open spec fn asn_hull_lo(rs: Seq<AsnRange>, x: AsnRange, lo: u32) -> u32
    decreases rs.len(),
{
    if rs.len() == 0 {
        lo
    } else {
        let m = asn_hull_lo(rs.drop_last(), x, lo);
        if rs.last().meets(x) && rs.last().lo() < m {
            rs.last().lo()
        } else {
            m
        }
    }
}

pub open spec fn asn_hull_hi(rs: Seq<AsnRange>, x: AsnRange, hi: u32) -> u32
    decreases rs.len(),
{
    if rs.len() == 0 {
        hi
    } else {
        let m = asn_hull_hi(rs.drop_last(), x, hi);
        if rs.last().meets(x) && rs.last().hi() > m {
            rs.last().hi()
        } else {
            m
        }
    }
}

/// The members that stay after adding `x`, followed by `x` merged with every
/// member that it meets.
pub open spec fn asn_added(rs: Seq<AsnRange>, x: AsnRange) -> Seq<AsnRange> {
    asn_apart(rs, x).push(
        AsnRange::from_bounds(asn_hull_lo(rs, x, x.lo()), asn_hull_hi(rs, x, x.hi())),
    )
}

/// What one comma-separated element of a lower-cased ASN list denotes.
pub open spec fn asn_entry_of_lowercase(s: Seq<char>) -> Result<AsnRange, AsnError> {
    if s.contains('-') {
        match asn_range_of_lowercase(s) {
            Ok((a, b)) => Ok(AsnRange::from_bounds(a, b)),
            Err(e) => Err(e),
        }
    } else {
        match asn_of_lowercase(s) {
            Some(a) => Ok(AsnRange::from_bounds(a, a)),
            None => Err(AsnError::InvalidAsn),
        }
    }
}

/// The set that the elements build, added one by one; the first element that
/// does not read gives the error.
pub open spec fn asn_set_of_entries(parts: Seq<Seq<char>>) -> Result<Seq<AsnRange>, AsnError>
    decreases parts.len(),
{
    if parts.len() == 0 {
        Ok(seq![])
    } else {
        match asn_set_of_entries(parts.drop_last()) {
            Err(e) => Err(e),
            Ok(rs) => match asn_entry_of_lowercase(parts.last()) {
                Err(e) => Err(e),
                Ok(x) => Ok(asn_added(rs, x)),
            },
        }
    }
}

/// What `AsnSet::from_str` reads from a lower-cased text: spaces dropped,
/// then comma-separated ASNs and ASN ranges.
pub open spec fn asn_set_of_lowercase(s: Seq<char>) -> Result<Seq<AsnRange>, AsnError> {
    asn_set_of_entries(split_spec(s.filter(|c: char| c != ' '), ','))
}

/// Every member has `lo() <= hi()`, and no two members share a number.
pub open spec fn asn_disjoint(rs: Seq<AsnRange>) -> bool {
    &&& forall|i: int| 0 <= i < rs.len() ==> (#[trigger] rs[i]).wf()
    &&& forall|i: int, j: int|
        0 <= i < rs.len() && 0 <= j < rs.len() && i != j ==> !(#[trigger] rs[i]).meets(
            #[trigger] rs[j],
        )
}

/// Each member kept by `apart` is a member of `rs` that does not meet `x`.
proof fn lemma_asn_apart_members(rs: Seq<AsnRange>, x: AsnRange)
    ensures
        forall|i: int|
            0 <= i < asn_apart(rs, x).len() ==> exists|j: int|
                0 <= j < rs.len() && #[trigger] asn_apart(rs, x)[i] == rs[j] && !rs[j].meets(x),
    decreases rs.len(),
{
    if rs.len() > 0 {
        let p = rs.drop_last();
        lemma_asn_apart_members(p, x);
        assert forall|i: int| 0 <= i < asn_apart(rs, x).len() implies exists|j: int|
            0 <= j < rs.len() && #[trigger] asn_apart(rs, x)[i] == rs[j] && !rs[j].meets(x) by {
            if i < asn_apart(p, x).len() {
                let j = choose|j: int| 0 <= j < p.len() && asn_apart(p, x)[i] == p[j] && !p[j].meets(x);
                assert(asn_apart(rs, x)[i] == asn_apart(p, x)[i]);
                assert(rs[j] == p[j]);
            } else {
                assert(asn_apart(rs, x)[i] == rs[rs.len() - 1]);
            }
        }
    }
}

proof fn lemma_asn_apart_disjoint(rs: Seq<AsnRange>, x: AsnRange)
    requires
        asn_disjoint(rs),
    ensures
        asn_disjoint(asn_apart(rs, x)),
    decreases rs.len(),
{
    if rs.len() > 0 {
        let p = rs.drop_last();
        assert(asn_disjoint(p)) by {
            assert forall|i: int, j: int|
                0 <= i < p.len() && 0 <= j < p.len() && i != j implies !(#[trigger] p[i]).meets(
                #[trigger] p[j],
            ) by {
                assert(p[i] == rs[i] && p[j] == rs[j]);
            }
        }
        lemma_asn_apart_disjoint(p, x);
        lemma_asn_apart_members(p, x);
        lemma_asn_apart_members(rs, x);
        let a = asn_apart(rs, x);
        if !rs.last().meets(x) {
            let last = rs.len() - 1;
            assert forall|i: int, j: int|
                0 <= i < a.len() && 0 <= j < a.len() && i != j implies !(#[trigger] a[i]).meets(
                #[trigger] a[j],
            ) by {
                let ap = asn_apart(p, x);
                if i < ap.len() && j < ap.len() {
                    assert(a[i] == ap[i] && a[j] == ap[j]);
                } else if i < ap.len() {
                    let k = choose|k: int| 0 <= k < p.len() && ap[i] == p[k] && !p[k].meets(x);
                    assert(a[i] == rs[k] && a[j] == rs[last]);
                } else if j < ap.len() {
                    let k = choose|k: int| 0 <= k < p.len() && ap[j] == p[k] && !p[k].meets(x);
                    assert(a[j] == rs[k] && a[i] == rs[last]);
                }
            }
        }
    }
}

/// The merged range starts at `x`'s start or at the start of a member that
/// meets `x`, and no later than either.
proof fn lemma_asn_hull_lo(rs: Seq<AsnRange>, x: AsnRange, lo: u32)
    ensures
        asn_hull_lo(rs, x, lo) <= lo,
        forall|j: int| 0 <= j < rs.len() && rs[j].meets(x) ==> asn_hull_lo(rs, x, lo) <= (
        #[trigger] rs[j]).lo(),
        asn_hull_lo(rs, x, lo) == lo || exists|j: int|
            0 <= j < rs.len() && rs[j].meets(x) && (#[trigger] rs[j]).lo() == asn_hull_lo(rs, x, lo),
    decreases rs.len(),
{
    if rs.len() > 0 {
        let p = rs.drop_last();
        lemma_asn_hull_lo(p, x, lo);
        assert forall|j: int| 0 <= j < rs.len() && rs[j].meets(x) implies asn_hull_lo(rs, x, lo) <= (
        #[trigger] rs[j]).lo() by {
            if j < p.len() {
                assert(rs[j] == p[j]);
            }
        }
        if asn_hull_lo(rs, x, lo) != lo && asn_hull_lo(rs, x, lo) == asn_hull_lo(p, x, lo) {
            let j = choose|j: int|
                0 <= j < p.len() && p[j].meets(x) && (#[trigger] p[j]).lo() == asn_hull_lo(p, x, lo);
            assert(rs[j] == p[j]);
        }
    }
}

/// The merged range ends at `x`'s end or at the end of a member that meets
/// `x`, and no earlier than either.
proof fn lemma_asn_hull_hi(rs: Seq<AsnRange>, x: AsnRange, hi: u32)
    ensures
        asn_hull_hi(rs, x, hi) >= hi,
        forall|j: int| 0 <= j < rs.len() && rs[j].meets(x) ==> asn_hull_hi(rs, x, hi) >= (
        #[trigger] rs[j]).hi(),
        asn_hull_hi(rs, x, hi) == hi || exists|j: int|
            0 <= j < rs.len() && rs[j].meets(x) && (#[trigger] rs[j]).hi() == asn_hull_hi(rs, x, hi),
    decreases rs.len(),
{
    if rs.len() > 0 {
        let p = rs.drop_last();
        lemma_asn_hull_hi(p, x, hi);
        assert forall|j: int| 0 <= j < rs.len() && rs[j].meets(x) implies asn_hull_hi(rs, x, hi) >= (
        #[trigger] rs[j]).hi() by {
            if j < p.len() {
                assert(rs[j] == p[j]);
            }
        }
        if asn_hull_hi(rs, x, hi) != hi && asn_hull_hi(rs, x, hi) == asn_hull_hi(p, x, hi) {
            let j = choose|j: int|
                0 <= j < p.len() && p[j].meets(x) && (#[trigger] p[j]).hi() == asn_hull_hi(p, x, hi);
            assert(rs[j] == p[j]);
        }
    }
}

/// Adding a range to a set whose members share no number gives a set
/// whose members share no number.
pub proof fn lemma_asn_added_disjoint(rs: Seq<AsnRange>, x: AsnRange)
    requires
        asn_disjoint(rs),
        x.wf(),
    ensures
        asn_disjoint(asn_added(rs, x)),
{
    lemma_asn_apart_disjoint(rs, x);
    lemma_asn_apart_members(rs, x);
    lemma_asn_hull_lo(rs, x, x.lo());
    lemma_asn_hull_hi(rs, x, x.hi());
    let a = asn_apart(rs, x);
    let h = AsnRange::from_bounds(asn_hull_lo(rs, x, x.lo()), asn_hull_hi(rs, x, x.hi()));
    let r = asn_added(rs, x);
    assert forall|i: int| 0 <= i < a.len() implies !(#[trigger] a[i]).meets(h) && !h.meets(a[i]) by {
        let k = choose|k: int| 0 <= k < rs.len() && a[i] == rs[k] && !rs[k].meets(x);
        let y = rs[k];
        assert(y.wf());
        if y.meets(h) || h.meets(y) {
            if y.hi() < x.lo() {
                let j = choose|j: int|
                    0 <= j < rs.len() && rs[j].meets(x) && (#[trigger] rs[j]).lo() == h.lo();
                assert(rs[j].wf());
                assert(j != k);
                assert(rs[j].meets(y) || y.meets(rs[j]));
            } else {
                let j = choose|j: int|
                    0 <= j < rs.len() && rs[j].meets(x) && (#[trigger] rs[j]).hi() == h.hi();
                assert(rs[j].wf());
                assert(j != k);
                assert(rs[j].meets(y) || y.meets(rs[j]));
            }
        }
    }
    assert forall|i: int, j: int|
        0 <= i < r.len() && 0 <= j < r.len() && i != j implies !(#[trigger] r[i]).meets(
        #[trigger] r[j],
    ) by {
        if i < a.len() && j < a.len() {
            assert(r[i] == a[i] && r[j] == a[j]);
        } else if i < a.len() {
            assert(r[j] == h && r[i] == a[i]);
        } else {
            assert(r[i] == h && r[j] == a[j]);
        }
    }
    assert forall|i: int| 0 <= i < r.len() implies (#[trigger] r[i]).wf() by {
        if i < a.len() {
            let k = choose|k: int| 0 <= k < rs.len() && a[i] == rs[k] && !rs[k].meets(x);
            assert(r[i] == rs[k]);
        }
    }
}

/// Whether some member holds the number `a`.
pub open spec fn holds_number(rs: Seq<AsnRange>, a: u32) -> bool {
    exists|i: int| 0 <= i < rs.len() && (#[trigger] rs[i]).lo() <= a <= rs[i].hi()
}

/// `apart` keeps every member that does not meet `x`.
proof fn lemma_asn_apart_keeps(rs: Seq<AsnRange>, x: AsnRange)
    ensures
        forall|j: int|
            0 <= j < rs.len() && !(#[trigger] rs[j]).meets(x) ==> asn_apart(rs, x).contains(rs[j]),
    decreases rs.len(),
{
    if rs.len() > 0 {
        let p = rs.drop_last();
        lemma_asn_apart_keeps(p, x);
        assert forall|j: int| 0 <= j < rs.len() && !(#[trigger] rs[j]).meets(x) implies asn_apart(
            rs,
            x,
        ).contains(rs[j]) by {
            if j < p.len() {
                assert(rs[j] == p[j]);
                let i = choose|i: int| 0 <= i < asn_apart(p, x).len() && asn_apart(p, x)[i] == p[j];
                assert(asn_apart(rs, x)[i] == p[j]);
            } else {
                assert(asn_apart(rs, x)[asn_apart(rs, x).len() - 1] == rs[j]);
            }
        }
    }
}

/// Adding `x` to a set adds exactly the numbers of `x`.
pub proof fn lemma_asn_added_numbers(rs: Seq<AsnRange>, x: AsnRange, a: u32)
    requires
        forall|i: int| 0 <= i < rs.len() ==> (#[trigger] rs[i]).wf(),
        x.wf(),
    ensures
        holds_number(asn_added(rs, x), a) <==> (holds_number(rs, a) || x.lo() <= a <= x.hi()),
{
    lemma_asn_apart_members(rs, x);
    lemma_asn_apart_keeps(rs, x);
    lemma_asn_hull_lo(rs, x, x.lo());
    lemma_asn_hull_hi(rs, x, x.hi());
    let ap = asn_apart(rs, x);
    let r = asn_added(rs, x);
    let h = AsnRange::from_bounds(asn_hull_lo(rs, x, x.lo()), asn_hull_hi(rs, x, x.hi()));
    assert(r[ap.len() as int] == h);
    if holds_number(r, a) {
        let i = choose|i: int| 0 <= i < r.len() && (#[trigger] r[i]).lo() <= a <= r[i].hi();
        if i < ap.len() {
            assert(r[i] == ap[i]);
            let j = choose|j: int| 0 <= j < rs.len() && ap[i] == rs[j] && !rs[j].meets(x);
            assert(rs[j].lo() <= a <= rs[j].hi());
        } else if a < x.lo() {
            let j = choose|j: int|
                0 <= j < rs.len() && rs[j].meets(x) && (#[trigger] rs[j]).lo() == h.lo();
            assert(rs[j].wf());
            assert(rs[j].lo() <= a <= rs[j].hi());
        } else if a > x.hi() {
            let j = choose|j: int|
                0 <= j < rs.len() && rs[j].meets(x) && (#[trigger] rs[j]).hi() == h.hi();
            assert(rs[j].wf());
            assert(rs[j].lo() <= a <= rs[j].hi());
        }
    }
    if holds_number(rs, a) {
        let i = choose|i: int| 0 <= i < rs.len() && (#[trigger] rs[i]).lo() <= a <= rs[i].hi();
        if rs[i].meets(x) {
            assert(h.lo() <= a <= h.hi());
        } else {
            let k = choose|k: int| 0 <= k < ap.len() && ap[k] == rs[i];
            assert(r[k] == ap[k]);
        }
    }
    if x.lo() <= a <= x.hi() {
        assert(h.lo() <= a <= h.hi());
    }
}

/// What is left of member `m` to the right of `x`.
pub open spec fn asn_right_part(m: AsnRange, x: AsnRange) -> Seq<AsnRange> {
    if x.hi() < m.hi() {
        seq![AsnRange::from_bounds((x.hi() + 1) as u32, m.hi())]
    } else {
        seq![]
    }
}

/// What is left of member `m` to the left of `x`.
pub open spec fn asn_left_part(m: AsnRange, x: AsnRange) -> Seq<AsnRange> {
    if x.lo() > m.lo() {
        seq![AsnRange::from_bounds(m.lo(), (x.lo() - 1) as u32)]
    } else {
        seq![]
    }
}

/// The pieces of the members that meet `x` which lie outside it, member by
/// member: the right piece first.
pub open spec fn asn_remainders(rs: Seq<AsnRange>, x: AsnRange) -> Seq<AsnRange>
    decreases rs.len(),
{
    if rs.len() == 0 {
        seq![]
    } else {
        let p = asn_remainders(rs.drop_last(), x);
        if rs.last().meets(x) {
            p + asn_right_part(rs.last(), x) + asn_left_part(rs.last(), x)
        } else {
            p
        }
    }
}

/// The members that stay after removing `x`, followed by the remainders.
pub open spec fn asn_removed(rs: Seq<AsnRange>, x: AsnRange) -> Seq<AsnRange> {
    asn_apart(rs, x) + asn_remainders(rs, x)
}

/// Each remainder lies inside a member that meets `x`, and shares no
/// number with `x`.
proof fn lemma_asn_remainders_inside(rs: Seq<AsnRange>, x: AsnRange)
    requires
        forall|i: int| 0 <= i < rs.len() ==> (#[trigger] rs[i]).wf(),
        x.wf(),
    ensures
        forall|i: int|
            0 <= i < asn_remainders(rs, x).len() ==> {
                &&& (#[trigger] asn_remainders(rs, x)[i]).wf()
                &&& !asn_remainders(rs, x)[i].meets(x)
                &&& !x.meets(asn_remainders(rs, x)[i])
                &&& exists|j: int|
                    0 <= j < rs.len() && rs[j].meets(x) && (#[trigger] rs[j]).covers(
                        asn_remainders(rs, x)[i],
                    )
            },
    decreases rs.len(),
{
    if rs.len() > 0 {
        let p = rs.drop_last();
        assert(forall|i: int| 0 <= i < p.len() ==> (#[trigger] p[i]).wf());
        lemma_asn_remainders_inside(p, x);
        let m = rs.last();
        let q = asn_remainders(rs, x);
        let qp = asn_remainders(p, x);
        assert forall|i: int| 0 <= i < q.len() implies {
            &&& (#[trigger] q[i]).wf()
            &&& !q[i].meets(x)
            &&& !x.meets(q[i])
            &&& exists|j: int| 0 <= j < rs.len() && rs[j].meets(x) && (#[trigger] rs[j]).covers(q[i])
        } by {
            if i < qp.len() {
                assert(q[i] == qp[i]);
                let j = choose|j: int| 0 <= j < p.len() && p[j].meets(x) && (#[trigger] p[j]).covers(qp[i]);
                assert(rs[j] == p[j]);
            } else {
                assert(m.meets(x));
                assert(rs[rs.len() - 1] == m);
                assert(m.wf());
            }
        }
    }
}

proof fn lemma_asn_remainders_disjoint(rs: Seq<AsnRange>, x: AsnRange)
    requires
        asn_disjoint(rs),
        x.wf(),
    ensures
        asn_disjoint(asn_remainders(rs, x)),
    decreases rs.len(),
{
    if rs.len() > 0 {
        let p = rs.drop_last();
        assert(asn_disjoint(p)) by {
            assert forall|i: int, j: int|
                0 <= i < p.len() && 0 <= j < p.len() && i != j implies !(#[trigger] p[i]).meets(
                #[trigger] p[j],
            ) by {
                assert(p[i] == rs[i] && p[j] == rs[j]);
            }
        }
        lemma_asn_remainders_disjoint(p, x);
        lemma_asn_remainders_inside(p, x);
        lemma_asn_remainders_inside(rs, x);
        let m = rs.last();
        let last = rs.len() - 1;
        let q = asn_remainders(rs, x);
        let qp = asn_remainders(p, x);
        assert forall|i: int, j: int|
            0 <= i < q.len() && 0 <= j < q.len() && i != j implies !(#[trigger] q[i]).meets(
            #[trigger] q[j],
        ) by {
            if i < qp.len() && j < qp.len() {
                assert(q[i] == qp[i] && q[j] == qp[j]);
            } else if i < qp.len() {
                assert(q[i] == qp[i]);
                let k = choose|k: int| 0 <= k < p.len() && p[k].meets(x) && (#[trigger] p[k]).covers(qp[i]);
                assert(rs[k] == p[k]);
                assert(!rs[k].meets(rs[last]) && !rs[last].meets(rs[k]));
                assert(rs[k].wf() && m.wf());
            } else if j < qp.len() {
                assert(q[j] == qp[j]);
                let k = choose|k: int| 0 <= k < p.len() && p[k].meets(x) && (#[trigger] p[k]).covers(qp[j]);
                assert(rs[k] == p[k]);
                assert(!rs[k].meets(rs[last]) && !rs[last].meets(rs[k]));
                assert(rs[k].wf() && m.wf());
            }
        }
    }
}

/// Removing a range from a set whose members share no number gives a set
/// whose members share no number.
pub proof fn lemma_asn_removed_disjoint(rs: Seq<AsnRange>, x: AsnRange)
    requires
        asn_disjoint(rs),
        x.wf(),
    ensures
        asn_disjoint(asn_removed(rs, x)),
{
    lemma_asn_apart_disjoint(rs, x);
    lemma_asn_apart_members(rs, x);
    lemma_asn_remainders_disjoint(rs, x);
    lemma_asn_remainders_inside(rs, x);
    let a = asn_apart(rs, x);
    let q = asn_remainders(rs, x);
    let r = asn_removed(rs, x);
    assert forall|i: int, j: int|
        0 <= i < r.len() && 0 <= j < r.len() && i != j implies !(#[trigger] r[i]).meets(
        #[trigger] r[j],
    ) by {
        if i < a.len() && j < a.len() {
            assert(r[i] == a[i] && r[j] == a[j]);
        } else if i >= a.len() && j >= a.len() {
            assert(r[i] == q[i - a.len()] && r[j] == q[j - a.len()]);
        } else {
            let (ka, kq) = if i < a.len() {
                (i, j - a.len())
            } else {
                (j, i - a.len())
            };
            assert(r[if i < a.len() { i } else { j }] == a[ka]);
            let s = choose|s: int| 0 <= s < rs.len() && a[ka] == rs[s] && !rs[s].meets(x);
            let t = choose|t: int| 0 <= t < rs.len() && rs[t].meets(x) && (#[trigger] rs[t]).covers(q[kq]);
            assert(s != t);
            assert(rs[s].wf() && rs[t].wf());
            assert(!rs[s].meets(rs[t]) && !rs[t].meets(rs[s]));
            if i < a.len() {
                assert(r[j] == q[kq]);
            } else {
                assert(r[i] == q[kq]);
            }
        }
    }
    assert forall|i: int| 0 <= i < r.len() implies (#[trigger] r[i]).wf() by {
        if i < a.len() {
            let k = choose|k: int| 0 <= k < rs.len() && a[i] == rs[k] && !rs[k].meets(x);
            assert(r[i] == rs[k]);
        } else {
            assert(r[i] == q[i - a.len()]);
        }
    }
}

/// A set of ASN ranges.
#[derive(Clone, Debug, PartialEq, Eq)]
pub struct AsnSet {
    ranges: Vec<AsnRange>,
}

impl View for AsnSet {
    type V = Seq<AsnRange>;

    closed spec fn view(&self) -> Seq<AsnRange> {
        self.ranges@
    }
}

/// Whether `s[lo..hi]` holds `c`.
fn holds_char(s: &Vec<char>, lo: usize, hi: usize, c: char) -> (r: bool)
    requires
        lo <= hi <= s@.len(),
    ensures
        r == s@.subrange(lo as int, hi as int).contains(c),
{
    let mut i = lo;
    while i < hi
        invariant
            lo <= i <= hi <= s@.len(),
            forall|j: int| lo <= j < i ==> s@[j] != c,
        decreases hi - i,
    {
        if s[i] == c {
            assert(s@.subrange(lo as int, hi as int)[i - lo] == c);
            return true;
        }
        i += 1;
    }
    assert forall|j: int| 0 <= j < hi - lo implies s@.subrange(lo as int, hi as int)[j] != c by {
        assert(s@.subrange(lo as int, hi as int)[j] == s@[lo + j]);
    }
    false
}

impl AsnSet {
    pub open spec fn wf(&self) -> bool {
        asn_disjoint(self@)
    }

    pub fn empty() -> (r: AsnSet)
        ensures
            r@ == Seq::<AsnRange>::empty(),
            r.wf(),
    {
        AsnSet { ranges: Vec::new() }
    }

    pub fn is_empty(&self) -> (r: bool)
        ensures
            r == (self@.len() == 0),
    {
        self.ranges.len() == 0
    }

    pub fn ranges(&self) -> (r: &Vec<AsnRange>)
        ensures
            r@ == self@,
    {
        &self.ranges
    }

    /// Whether some member holds `asn`.
    pub fn contains(&self, asn: &Asn) -> (r: bool)
        ensures
            r == exists|i: int|
                0 <= i < self@.len() && (#[trigger] self@[i]).lo() <= asn.spec_value()
                    <= self@[i].hi(),
    {
        let mut i: usize = 0;
        while i < self.ranges.len()
            invariant
                i <= self@.len(),
                forall|k: int|
                    0 <= k < i ==> !((#[trigger] self@[k]).lo() <= asn.spec_value()
                        <= self@[k].hi()),
            decreases self@.len() - i,
        {
            if self.ranges[i].contains(asn) {
                return true;
            }
            i += 1;
        }
        false
    }

    /// Adds `range`: the members that it meets are merged with it into one
    /// range, which goes last; the others keep their order.
    pub fn add_range(&mut self, range: AsnRange)
        ensures
            final(self)@ == asn_added(old(self)@, range),
            old(self).wf() ==> final(self).wf(),
    {
        broadcast use AsnRange::lemma_from_bounds;

        proof {
            use_type_invariant(&range);
            if self.wf() {
                lemma_asn_added_disjoint(self@, range);
            }
        }
        let n = self.ranges.len();
        let mut keep: Vec<AsnRange> = Vec::new();
        let mut lo = range.min.val;
        let mut hi = range.max.val;
        let mut i: usize = 0;
        while i < n
            invariant
                n == self@.len(),
                i <= n,
                range.wf(),
                keep@ == asn_apart(self@.subrange(0, i as int), range),
                lo == asn_hull_lo(self@.subrange(0, i as int), range, range.lo()),
                hi == asn_hull_hi(self@.subrange(0, i as int), range, range.hi()),
                lo <= range.lo(),
                range.hi() <= hi,
            decreases n - i,
        {
            let r = self.ranges[i];
            assert(self@.subrange(0, i as int + 1).drop_last() =~= self@.subrange(0, i as int));
            if r.intersects(&range) {
                if r.min.val < lo {
                    lo = r.min.val;
                }
                if r.max.val > hi {
                    hi = r.max.val;
                }
            } else {
                keep.push(r);
            }
            i += 1;
        }
        assert(self@.subrange(0, n as int) =~= self@);
        keep.push(AsnRange { min: Asn { val: lo }, max: Asn { val: hi } });
        self.ranges = keep;
    }

    /// Removes `range`: the members that it meets are replaced by what is
    /// left of them on either side, after the members that it does not meet.
    pub fn remove_range(&mut self, range: AsnRange)
        ensures
            final(self)@ == asn_removed(old(self)@, range),
            old(self).wf() ==> final(self).wf(),
    {
        broadcast use AsnRange::lemma_from_bounds;

        proof {
            use_type_invariant(&range);
            if self.wf() {
                lemma_asn_removed_disjoint(self@, range);
            }
        }
        let x = range;
        let n = self.ranges.len();
        let mut keep: Vec<AsnRange> = Vec::new();
        let mut rest: Vec<AsnRange> = Vec::new();
        let mut i: usize = 0;
        while i < n
            invariant
                n == self@.len(),
                i <= n,
                x.wf(),
                forall|k: int| 0 <= k < i ==> (#[trigger] self@[k]).wf(),
                keep@ == asn_apart(self@.subrange(0, i as int), x),
                rest@ == asn_remainders(self@.subrange(0, i as int), x),
            decreases n - i,
        {
            let m = self.ranges[i];
            proof {
                use_type_invariant(&m);
            }
            assert(self@.subrange(0, i as int + 1).drop_last() =~= self@.subrange(0, i as int));
            if m.intersects(&x) {
                let ghost before = rest@;
                if x.max.val < m.max.val {
                    rest.push(AsnRange { min: Asn { val: x.max.val + 1 }, max: m.max });
                }
                assert(rest@ =~= before + asn_right_part(m, x));
                let ghost middle = rest@;
                if x.min.val > m.min.val {
                    rest.push(AsnRange { min: m.min, max: Asn { val: x.min.val - 1 } });
                }
                assert(rest@ =~= middle + asn_left_part(m, x));
            } else {
                keep.push(m);
            }
            i += 1;
        }
        assert(self@.subrange(0, n as int) =~= self@);
        let ghost kept = keep@;
        let mut j: usize = 0;
        while j < rest.len()
            invariant
                j <= rest@.len(),
                keep@ == kept + rest@.subrange(0, j as int),
            decreases rest@.len() - j,
        {
            keep.push(rest[j]);
            j += 1;
            assert(keep@ =~= kept + rest@.subrange(0, j as int));
        }
        assert(rest@.subrange(0, rest@.len() as int) =~= rest@);
        self.ranges = keep;
    }

    /// Adds the one number `asn`.
    pub fn add_asn(&mut self, asn: Asn)
        ensures
            final(self)@ == asn_added(
                old(self)@,
                AsnRange::from_bounds(asn.spec_value(), asn.spec_value()),
            ),
            old(self).wf() ==> final(self).wf(),
    {
        self.add_range(AsnRange::single(asn));
    }

    pub fn parse_entry(s: &Vec<char>, lo: usize, hi: usize) -> (r: Result<AsnRange, AsnError>)
        requires
            lo <= hi <= s@.len(),
        ensures
            r == asn_entry_of_lowercase(s@.subrange(lo as int, hi as int)),
    {
        if holds_char(s, lo, hi, '-') {
            AsnRange::parse_lowercase_chars(s, lo, hi)
        } else {
            let asn = Asn::parse_lowercase_chars(s, lo, hi)?;
            Ok(AsnRange::single(asn))
        }
    }

    /// Reads comma-separated ASNs and ASN ranges from a lower-cased text;
    /// spaces are dropped.
    pub fn from_lowercase(s: &str) -> (r: Result<AsnSet, AsnError>)
        ensures
            match asn_set_of_lowercase(s@) {
                Ok(rs) => r matches Ok(set) && set@ == rs && set.wf(),
                Err(e) => r == Err::<AsnSet, AsnError>(e),
            },
    {
        let cs = chars_of(s);
        AsnSet::parse_lowercase_chars(&cs)
    }

    fn parse_lowercase_chars(cs: &Vec<char>) -> (r: Result<AsnSet, AsnError>)
        ensures
            match asn_set_of_lowercase(cs@) {
                Ok(rs) => r matches Ok(set) && set@ == rs && set.wf(),
                Err(e) => r == Err::<AsnSet, AsnError>(e),
            },
    {
        let t = without_char(cs, ' ');
        assert(t@.subrange(0, t@.len() as int) =~= t@);
        let parts = split_bounds(&t, 0, t.len(), ',');
        let ghost pieces = split_spec(t@, ',');
        let mut set = AsnSet::empty();
        let mut k: usize = 0;
        while k < parts.len()
            invariant
                k <= parts@.len() == pieces.len(),
                pieces == split_spec(t@, ','),
                t@ == cs@.filter(|c: char| c != ' '),
                forall|j: int|
                    0 <= j < parts@.len() ==> {
                        &&& 0 <= (#[trigger] parts@[j]).0 <= parts@[j].1 <= t@.len()
                        &&& t@.subrange(parts@[j].0 as int, parts@[j].1 as int) == pieces[j]
                    },
                asn_set_of_entries(pieces.subrange(0, k as int)) == Ok::<
                    Seq<AsnRange>,
                    AsnError,
                >(set@),
                set.wf(),
            decreases parts@.len() - k,
        {
            let (a, b) = parts[k];
            assert(pieces.subrange(0, k as int + 1).drop_last() =~= pieces.subrange(0, k as int));
            let x = match AsnSet::parse_entry(&t, a, b) {
                Ok(x) => x,
                Err(e) => {
                    assert(asn_set_of_entries(pieces.subrange(0, k as int + 1)) == Err::<
                        Seq<AsnRange>,
                        AsnError,
                    >(e));
                    proof {
                        lemma_entries_error_sticks(pieces, k as int + 1);
                    }
                    return Err(e);
                },
            };
            set.add_range(x);
            k += 1;
        }
        assert(pieces.subrange(0, k as int) =~= pieces);
        Ok(set)
    }

    /// Reads comma-separated ASNs and ASN ranges, such as `AS1, AS5-AS9`; the
    /// text is lower-cased first and spaces are dropped.
    pub fn from_str(s: &str) -> (r: Result<AsnSet, AsnError>)
        ensures
            match asn_set_of_lowercase(lower_of(s@)) {
                Ok(rs) => r matches Ok(set) && set@ == rs && set.wf(),
                Err(e) => r == Err::<AsnSet, AsnError>(e),
            },
    {
        let lower = lowercase_str(s);
        AsnSet::parse_lowercase_chars(&lower)
    }
}

/// Once an element fails to read, the whole list fails with its error.
proof fn lemma_entries_error_sticks(parts: Seq<Seq<char>>, k: int)
    requires
        0 <= k <= parts.len(),
        asn_set_of_entries(parts.subrange(0, k)) is Err,
    ensures
        asn_set_of_entries(parts) == asn_set_of_entries(parts.subrange(0, k)),
    decreases parts.len() - k,
{
    if k < parts.len() {
        assert(parts.subrange(0, k + 1).drop_last() =~= parts.subrange(0, k));
        lemma_entries_error_sticks(parts, k + 1);
    } else {
        assert(parts.subrange(0, k) =~= parts);
    }
}

#[derive(Clone, Copy, Debug, PartialEq, Eq, Structural)]
pub enum AsnError {
    ExpectedCommaSeparated,
    InvalidRange,
    InvalidAsn,
}

impl AsnError {
    pub fn message(&self) -> &'static str {
        match self {
            AsnError::ExpectedCommaSeparated => "Expected comma separated ASNs or ASN ranges",
            AsnError::InvalidRange => "Invalid range. Expected something like: AS1-AS3",
            AsnError::InvalidAsn => "Invalid ASN. Expected something like: 1 or AS1",
        }
    }
}

} // verus!
