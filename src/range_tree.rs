//! An index of values by IP range: a builder groups values by their exact
//! range, and the built index answers which values lie inside a range, or
//! around it.
//!
//! The index keeps an `intervaltree::IntervalTree` over the groups. A range
//! `[lo, hi]` is stored there as the half-open key interval
//! `(lo, 0)..(hi, 1)` under the order of tuples, so that two such key
//! intervals overlap exactly where the ranges share an address.

use std::collections::HashMap;
use intervaltree::IntervalTree;
use vstd::prelude::*;
use crate::ip::IpRange;

verus! {

broadcast use vstd::std_specs::hash::group_hash_axioms;

//------------ HasRange -------------------------------------------------------

/// A value that covers a range of addresses.
pub trait HasRange {
    spec fn spec_ip_range(&self) -> IpRange;

    fn ip_range(&self) -> (r: IpRange)
        ensures
            r == self.spec_ip_range(),
            r.wf(),
    ;
}

//------------ The outside tree -----------------------------------------------

/// A key of the outside tree: an address, and 0 or 1 to place an end just
/// past it.
pub type TreeKey = (u128, u8);

/// An element of the outside tree: its key interval and its group index.
pub type TreeEntry = (TreeKey, TreeKey, usize);

#[verifier::external_type_specification]
#[verifier::external_body]
#[verifier::reject_recursive_types(K)]
#[verifier::reject_recursive_types(V)]
pub struct ExIntervalTree<K, V>(IntervalTree<K, V>);

/// The elements that an outside tree holds.
pub uninterp spec fn tree_entries(t: IntervalTree<TreeKey, usize>) -> Set<TreeEntry>;

/// `a < b` in the order of tuples: by the first field, then the second.
pub open spec fn key_lt(a: TreeKey, b: TreeKey) -> bool {
    a.0 < b.0 || (a.0 == b.0 && a.1 < b.1)
}

/// Whether an element's half-open key interval overlaps `start..end`, the
/// test that `IntervalTree::query` applies.
pub open spec fn entry_overlaps(e: TreeEntry, start: TreeKey, end: TreeKey) -> bool {
    key_lt(e.0, end) && key_lt(start, e.1)
}

/// Whether some element of `t` with group index `g` overlaps `start..end`.
pub open spec fn names_overlap(
    t: IntervalTree<TreeKey, usize>,
    g: usize,
    start: TreeKey,
    end: TreeKey,
) -> bool {
    exists|e: TreeEntry| #[trigger] tree_entries(t).contains(e) && e.2 == g && entry_overlaps(e, start, end)
}

/// Relies on `IntervalTree`'s `FromIterator`: the tree holds one element for
/// each item that it is built from.
#[verifier::external_body]
fn tree_from_entries(entries: Vec<TreeEntry>) -> (r: IntervalTree<TreeKey, usize>)
    ensures
        forall|e: TreeEntry| tree_entries(r).contains(e) <==> entries@.contains(e),
{
    entries.into_iter().map(|(start, end, group)| (start..end, group)).collect()
}

/// Relies on `IntervalTree::query`: it yields the elements whose key
/// interval overlaps `start..end`, and all of them.
#[verifier::external_body]
fn query_tree(t: &IntervalTree<TreeKey, usize>, start: TreeKey, end: TreeKey) -> (r: Vec<usize>)
    ensures
        forall|k: int| 0 <= k < r@.len() ==> names_overlap(*t, #[trigger] r@[k], start, end),
        forall|e: TreeEntry|
            #[trigger] tree_entries(*t).contains(e) && entry_overlaps(e, start, end)
                ==> r@.contains(e.2),
{
    t.query(start..end).map(|element| element.value).collect()
}

//------------ Groups ---------------------------------------------------------

/// The values that a sequence of references points to.
pub open spec fn deref_seq<V>(s: Seq<&V>) -> Seq<V> {
    s.map_values(|x: &V| *x)
}

/// Pushing a reference pushes the value that it points to.
pub proof fn lemma_deref_push<V>(s: Seq<&V>, x: &V)
    ensures
        deref_seq(s.push(x)) == deref_seq(s).push(*x),
{
    assert(deref_seq(s.push(x)) =~= deref_seq(s).push(*x));
}

/// The tree element of group `g` with range `r`.
pub open spec fn entry_of(r: IpRange, g: int) -> TreeEntry {
    ((r.lo(), 0u8), (r.hi(), 1u8), g as usize)
}

/// The values of the first `n` groups whose range satisfies `pred`, group
/// after group.
pub open spec fn select<V>(
    ranges: Seq<IpRange>,
    values: Seq<Seq<V>>,
    n: int,
    pred: spec_fn(IpRange) -> bool,
) -> Seq<V>
    decreases n,
{
    if n <= 0 {
        seq![]
    } else {
        select(ranges, values, n - 1, pred) + if pred(ranges[n - 1]) {
            values[n - 1]
        } else {
            seq![]
        }
    }
}

/// The values of the first `n` groups, group after group.
pub open spec fn flatten<V>(values: Seq<Seq<V>>, n: int) -> Seq<V>
    decreases n,
{
    if n <= 0 {
        seq![]
    } else {
        flatten(values, n - 1) + values[n - 1]
    }
}

proof fn lemma_select_skips<V>(
    ranges: Seq<IpRange>,
    values: Seq<Seq<V>>,
    a: int,
    b: int,
    pred: spec_fn(IpRange) -> bool,
)
    requires
        0 <= a <= b,
        forall|g: int| a <= g < b ==> !pred(#[trigger] ranges[g]),
    ensures
        select(ranges, values, b, pred) == select(ranges, values, a, pred),
    decreases b - a,
{
    if a < b {
        lemma_select_skips(ranges, values, a, b - 1, pred);
        assert(select(ranges, values, b, pred) =~= select(ranges, values, b - 1, pred));
    }
}

/// Every group's values cover the group's range, and the ranges are distinct.
pub open spec fn groups_wf<V: HasRange>(ranges: Seq<IpRange>, values: Seq<Seq<V>>) -> bool {
    &&& ranges.len() == values.len()
    &&& forall|g: int| 0 <= g < ranges.len() ==> (#[trigger] ranges[g]).wf()
    &&& forall|g: int, h: int|
        0 <= g < ranges.len() && 0 <= h < ranges.len() && g != h ==> #[trigger] ranges[g]
            != #[trigger] ranges[h]
    &&& forall|g: int, j: int|
        0 <= g < values.len() && 0 <= j < values[g].len() ==> (#[trigger] values[g][j]).spec_ip_range()
            == ranges[g]
}

/// Inserts `x` into a strictly increasing vector, unless it is there.
fn insert_sorted(v: &mut Vec<usize>, x: usize)
    requires
        forall|i: int, j: int| 0 <= i < j < old(v)@.len() ==> old(v)@[i] < old(v)@[j],
    ensures
        forall|i: int, j: int| 0 <= i < j < final(v)@.len() ==> final(v)@[i] < final(v)@[j],
        forall|y: usize| #[trigger] final(v)@.contains(y) <==> (old(v)@.contains(y) || y == x),
{
    let mut pos: usize = 0;
    let ghost orig = v@;
    while pos < v.len() && v[pos] < x
        invariant
            v@ == orig,
            orig == old(v)@,
            forall|i: int, j: int| 0 <= i < j < orig.len() ==> orig[i] < orig[j],
            pos <= v@.len(),
            forall|i: int| 0 <= i < pos ==> v@[i] < x,
        decreases v@.len() - pos,
    {
        pos += 1;
    }
    if pos < v.len() && v[pos] == x {
        assert(v@[pos as int] == x);
        return;
    }
    let ghost before = v@;
    assert(before == old(v)@);
    assert(pos < before.len() ==> before[pos as int] > x);
    v.insert(pos, x);
    assert forall|i: int, j: int| 0 <= i < j < v@.len() implies v@[i] < v@[j] by {
        if j < pos {
            assert(v@[i] == before[i] && v@[j] == before[j]);
        } else if j == pos {
            assert(v@[i] == before[i]);
        } else if i < pos {
            assert(v@[i] == before[i] && v@[j] == before[j - 1]);
            assert(before[i] < x);
            if pos < j - 1 {
                assert(before[pos as int] < before[j - 1]);
            }
        } else if i == pos {
            assert(v@[j] == before[j - 1]);
            if pos < j - 1 {
                assert(before[pos as int] < before[j - 1]);
            }
        } else {
            assert(v@[i] == before[i - 1] && v@[j] == before[j - 1]);
        }
    }
    assert forall|y: usize| #[trigger] v@.contains(y) <==> (before.contains(y) || y == x) by {
        if v@.contains(y) {
            let k = choose|k: int| 0 <= k < v@.len() && v@[k] == y;
            if k < pos {
                assert(before[k] == y);
            } else if k > pos {
                assert(before[k - 1] == y);
            }
        }
        if before.contains(y) {
            let k = choose|k: int| 0 <= k < before.len() && before[k] == y;
            if k < pos {
                assert(v@[k] == y);
            } else {
                assert(v@[k + 1] == y);
            }
        }
        if y == x {
            assert(v@[pos as int] == x);
        }
    }
}

//------------ IpRangeTree ----------------------------------------------------

/// A built, read-only index of values by range.
pub struct IpRangeTree<V: HasRange> {
    ranges: Vec<IpRange>,
    values: Vec<Vec<V>>,
    tree: IntervalTree<TreeKey, usize>,
}

impl<V: HasRange> IpRangeTree<V> {
    /// The distinct ranges of the values, one per group.
    pub closed spec fn spec_ranges(&self) -> Seq<IpRange> {
        self.ranges@
    }

    /// The values of each group, in the order in which they were added.
    pub closed spec fn spec_values(&self) -> Seq<Seq<V>> {
        self.values@.map_values(|vs: Vec<V>| vs@)
    }

    pub closed spec fn wf(&self) -> bool {
        &&& groups_wf(self.spec_ranges(), self.spec_values())
        &&& forall|e: TreeEntry|
            tree_entries(self.tree).contains(e) <==> exists|g: int|
                0 <= g < self.ranges@.len() && e == #[trigger] entry_of(self.ranges@[g], g)
    }

    /// Every index is well formed: `build` is the only way to make one.
    #[verifier::type_invariant]
    pub closed spec fn inv(self) -> bool {
        self.wf()
    }

    /// The values of the groups whose range satisfies `pred`, found through
    /// the tree: `start..end` is the key interval of `query`, which every such
    /// group overlaps.
    fn collect<'a>(
        &'a self,
        start: TreeKey,
        end: TreeKey,
        pred: Ghost<spec_fn(IpRange) -> bool>,
        query: &IpRange,
        less_specific: bool,
    ) -> (r: Vec<&'a V>)
        requires
            self.wf(),
            query.wf(),
            start == (query.lo(), 0u8),
            end == (query.hi(), 1u8),
            forall|g: IpRange|
                #[trigger] pred@(g) == if less_specific {
                    g.covers(*query)
                } else {
                    query.covers(g)
                },
        ensures
            deref_seq(r@) == select(
                self.spec_ranges(),
                self.spec_values(),
                self.spec_ranges().len() as int,
                pred@,
            ),
    {
        let ghost n = self.ranges@.len() as int;
        let ghost rs = self.spec_ranges();
        let ghost vs = self.spec_values();
        let found = query_tree(&self.tree, start, end);
        let mut idx: Vec<usize> = Vec::new();
        let mut k: usize = 0;
        while k < found.len()
            invariant
                k <= found@.len(),
                forall|i: int, j: int| 0 <= i < j < idx@.len() ==> idx@[i] < idx@[j],
                forall|y: usize| idx@.contains(y) <==> exists|i: int| 0 <= i < k && found@[i] == y,
            decreases found@.len() - k,
        {
            insert_sorted(&mut idx, found[k]);
            proof {
                assert forall|y: usize| idx@.contains(y) <==> exists|i: int|
                    0 <= i < k + 1 && found@[i] == y by {
                    if y == found@[k as int] {
                        assert(found@[k as int] == y);
                    }
                }
            }
            k += 1;
        }
        // Every group that satisfies `pred@` is among the indices, and every
        // index names a group.
        assert forall|g: int| 0 <= g < n && pred@(#[trigger] rs[g]) implies idx@.contains(
            g as usize,
        ) by {
            let e = entry_of(rs[g], g);
            assert(tree_entries(self.tree).contains(e));
            assert(entry_overlaps(e, start, end));
            let i = choose|i: int| 0 <= i < found@.len() && found@[i] == e.2;
            assert(found@[i] == g as usize);
        }
        assert forall|i: int| 0 <= i < idx@.len() implies (#[trigger] idx@[i]) < n by {
            assert(idx@.contains(idx@[i]));
            let j = choose|j: int| 0 <= j < found@.len() && found@[j] == idx@[i];
            assert(names_overlap(self.tree, found@[j], start, end));
            let e = choose|e: TreeEntry|
                #[trigger] tree_entries(self.tree).contains(e) && e.2 == found@[j]
                    && entry_overlaps(e, start, end);
            let g = choose|g: int| 0 <= g < n && e == #[trigger] entry_of(self.ranges@[g], g);
        }
        let mut res: Vec<&'a V> = Vec::new();
        let mut j: usize = 0;
        let mut pos: usize = 0;
        let total = self.ranges.len();
        while j < idx.len()
            invariant
                total == n,
                j <= idx@.len(),
                forall|a: int, b: int| 0 <= a < b < idx@.len() ==> idx@[a] < idx@[b],
                forall|i: int| 0 <= i < idx@.len() ==> (#[trigger] idx@[i]) < n,
                forall|g: int| 0 <= g < n && pred@(#[trigger] rs[g]) ==> idx@.contains(g as usize),
                j == 0 ==> pos == 0,
                j > 0 ==> pos == idx@[j - 1] + 1,
                pos <= n,
                n == self.ranges@.len(),
                rs == self.spec_ranges(),
                vs == self.spec_values(),
                self.wf(),
                forall|g: IpRange|
                    #[trigger] pred@(g) == if less_specific {
                        g.covers(*query)
                    } else {
                        query.covers(g)
                    },
                deref_seq(res@) == select(rs, vs, pos as int, pred@),
            decreases idx@.len() - j,
        {
            let g = idx[j];
            proof {
                assert forall|h: int| pos <= h < g implies !pred@(#[trigger] rs[h]) by {
                    if pred@(rs[h]) {
                        assert(idx@.contains(h as usize));
                        let t = choose|t: int| 0 <= t < idx@.len() && idx@[t] == h as usize;
                        if t < j {
                            if j > 0 && t < j - 1 {
                                assert(idx@[t] < idx@[j - 1]);
                            }
                        } else if t > j {
                            assert(idx@[j as int] < idx@[t]);
                        }
                    }
                }
                lemma_select_skips(rs, vs, pos as int, g as int, pred@);
            }
            let range = self.ranges[g];
            let take = if less_specific {
                range.contains(&query.to_range())
            } else {
                range.is_contained_by(&query.to_range())
            };
            assert(take == pred@(rs[g as int]));
            if take {
                let group = &self.values[g];
                let ghost base = deref_seq(res@);
                let mut m: usize = 0;
                while m < group.len()
                    invariant
                        m <= group@.len(),
                        group@ == vs[g as int],
                        deref_seq(res@) == base + group@.subrange(0, m as int),
                    decreases group@.len() - m,
                {
                    let ghost before = res@;
                    res.push(&group[m]);
                    proof {
                        lemma_deref_push(before, &group@[m as int]);
                    }
                    m += 1;
                    assert(deref_seq(res@) =~= base + group@.subrange(0, m as int));
                }
                assert(group@.subrange(0, m as int) =~= group@);
            }
            assert(select(rs, vs, g as int + 1, pred@) =~= select(rs, vs, g as int, pred@) + if pred@(
                rs[g as int],
            ) {
                vs[g as int]
            } else {
                seq![]
            });
            assert(deref_seq(res@) =~= select(rs, vs, g as int + 1, pred@));
            pos = g + 1;
            j += 1;
        }
        proof {
            assert forall|h: int| pos <= h < n implies !pred@(#[trigger] rs[h]) by {
                if pred@(rs[h]) {
                    assert(idx@.contains(h as usize));
                    let t = choose|t: int| 0 <= t < idx@.len() && idx@[t] == h as usize;
                    assert(t < j);
                    if t < j - 1 {
                        assert(idx@[t] < idx@[j - 1]);
                    }
                }
            }
            lemma_select_skips(rs, vs, pos as int, n, pred@);
        }
        res
    }

    /// Every value whose range holds `range`, group by group.
    pub fn matching_or_less_specific<'a>(&'a self, range: &IpRange) -> (r: Vec<&'a V>)
        ensures
            deref_seq(r@) == select(
                self.spec_ranges(),
                self.spec_values(),
                self.spec_ranges().len() as int,
                |g: IpRange| g.covers(*range),
            ),
    {
        proof {
            use_type_invariant(self);
            use_type_invariant(range);
            IpRange::lemma_inv_wf(*range);
        }
        let start = (range.min().value, 0u8);
        let end = (range.max().value, 1u8);
        self.collect(start, end, Ghost(|g: IpRange| g.covers(*range)), range, true)
    }

    /// Every value whose range lies inside `range`, group by group.
    pub fn matching_or_more_specific<'a>(&'a self, range: &IpRange) -> (r: Vec<&'a V>)
        ensures
            deref_seq(r@) == select(
                self.spec_ranges(),
                self.spec_values(),
                self.spec_ranges().len() as int,
                |g: IpRange| range.covers(g),
            ),
    {
        proof {
            use_type_invariant(self);
            use_type_invariant(range);
            IpRange::lemma_inv_wf(*range);
        }
        let start = (range.min().value, 0u8);
        let end = (range.max().value, 1u8);
        self.collect(start, end, Ghost(|g: IpRange| range.covers(g)), range, false)
    }

    /// Every value, group by group.
    pub fn all<'a>(&'a self) -> (r: Vec<&'a V>)
        ensures
            deref_seq(r@) == flatten(self.spec_values(), self.spec_values().len() as int),
    {
        proof {
            use_type_invariant(self);
        }
        let ghost rs = self.spec_ranges();
        let ghost vs = self.spec_values();
        let mut res: Vec<&'a V> = Vec::new();
        let mut g: usize = 0;
        while g < self.values.len()
            invariant
                g <= self.values@.len(),
                rs == self.spec_ranges(),
                vs == self.spec_values(),
                self.wf(),
                deref_seq(res@) == flatten(vs, g as int),
            decreases self.values@.len() - g,
        {
            let group = &self.values[g];
            let ghost base = deref_seq(res@);
            let mut m: usize = 0;
            while m < group.len()
                invariant
                    m <= group@.len(),
                    group@ == vs[g as int],
                    deref_seq(res@) == base + group@.subrange(0, m as int),
                decreases group@.len() - m,
            {
                let ghost before = res@;
                res.push(&group[m]);
                proof {
                    lemma_deref_push(before, &group@[m as int]);
                }
                m += 1;
                assert(deref_seq(res@) =~= base + group@.subrange(0, m as int));
            }
            assert(group@.subrange(0, m as int) =~= group@);
            assert(flatten(vs, g as int + 1) =~= flatten(vs, g as int) + vs[g as int]);
            g += 1;
        }
        res
    }
}

/// The values inside each of the first `k` query ranges, range after range.
pub open spec fn select_each<V>(
    ranges: Seq<IpRange>,
    values: Seq<Seq<V>>,
    queries: Seq<IpRange>,
    k: int,
) -> Seq<V>
    decreases k,
{
    if k <= 0 {
        seq![]
    } else {
        select_each(ranges, values, queries, k - 1) + select(
            ranges,
            values,
            ranges.len() as int,
            |g: IpRange| queries[k - 1].covers(g),
        )
    }
}

impl<V: HasRange> IpRangeTree<V> {
    /// For each of `queries` in turn, every value whose range lies inside it.
    pub fn matching_or_more_specific_each<'a>(&'a self, queries: &Vec<IpRange>) -> (r: Vec<&'a V>)
        ensures
            deref_seq(r@) == select_each(
                self.spec_ranges(),
                self.spec_values(),
                queries@,
                queries@.len() as int,
            ),
    {
        let mut res: Vec<&'a V> = Vec::new();
        let mut k: usize = 0;
        while k < queries.len()
            invariant
                k <= queries@.len(),
                deref_seq(res@) == select_each(
                    self.spec_ranges(),
                    self.spec_values(),
                    queries@,
                    k as int,
                ),
            decreases queries@.len() - k,
        {
            let q = queries[k];
            let found = self.matching_or_more_specific(&q);
            let ghost base = res@;
            let mut m: usize = 0;
            while m < found.len()
                invariant
                    m <= found@.len(),
                    deref_seq(res@) == deref_seq(base) + deref_seq(found@).subrange(0, m as int),
                decreases found@.len() - m,
            {
                let ghost before = res@;
                res.push(found[m]);
                proof {
                    lemma_deref_push(before, found@[m as int]);
                }
                m += 1;
                assert(deref_seq(res@) =~= deref_seq(base) + deref_seq(found@).subrange(0, m as int));
            }
            assert(deref_seq(found@).subrange(0, m as int) =~= deref_seq(found@));
            k += 1;
        }
        res
    }
}

//------------ IpRangeTreeBuilder ---------------------------------------------

/// The group whose range is `r`, where there is one.
pub open spec fn group_of(ranges: Seq<IpRange>, r: IpRange) -> int {
    choose|g: int| 0 <= g < ranges.len() && ranges[g] == r
}

/// Collects values, grouped by their exact range, for an `IpRangeTree`.
pub struct IpRangeTreeBuilder<V> {
    ranges: Vec<IpRange>,
    values: Vec<Vec<V>>,
    by_min: HashMap<u128, Vec<usize>>,
}

impl<V: HasRange> IpRangeTreeBuilder<V> {
    /// The distinct ranges of the values added, in the order of first use.
    pub closed spec fn spec_ranges(&self) -> Seq<IpRange> {
        self.ranges@
    }

    /// The values of each group, in the order in which they were added.
    pub closed spec fn spec_values(&self) -> Seq<Seq<V>> {
        self.values@.map_values(|vs: Vec<V>| vs@)
    }

    pub closed spec fn wf(&self) -> bool {
        &&& groups_wf(self.spec_ranges(), self.spec_values())
        &&& forall|g: int|
            0 <= g < self.ranges@.len() ==> {
                &&& self.by_min@.contains_key((#[trigger] self.ranges@[g]).lo())
                &&& self.by_min@[self.ranges@[g].lo()]@.contains(g as usize)
            }
        &&& forall|k: u128, j: int|
            self.by_min@.contains_key(k) && 0 <= j < self.by_min@[k]@.len() ==> {
                &&& (#[trigger] self.by_min@[k]@[j]) < self.ranges@.len()
                &&& self.ranges@[self.by_min@[k]@[j] as int].lo() == k
            }
    }

    pub fn empty() -> (r: IpRangeTreeBuilder<V>)
        ensures
            r.wf(),
            r.spec_ranges() == Seq::<IpRange>::empty(),
            r.spec_values() == Seq::<Seq<V>>::empty(),
            r.spec_ranges().len() == r.spec_values().len(),
    {
        let r = IpRangeTreeBuilder { ranges: Vec::new(), values: Vec::new(), by_min: HashMap::new() };
        assert(r.spec_values() =~= Seq::<Seq<V>>::empty());
        r
    }

    /// Adds `value` to the group of its range, after the values there; a
    /// range not seen before starts a new group at the end.
    pub fn add(&mut self, value: V)
        requires
            old(self).wf(),
        ensures
            final(self).wf(),
            final(self).spec_ranges().len() == final(self).spec_values().len(),
            old(self).spec_ranges().contains(value.spec_ip_range()) ==> {
                let g = group_of(old(self).spec_ranges(), value.spec_ip_range());
                &&& final(self).spec_ranges() == old(self).spec_ranges()
                &&& final(self).spec_values() == old(self).spec_values().update(
                    g,
                    old(self).spec_values()[g].push(value),
                )
            },
            !old(self).spec_ranges().contains(value.spec_ip_range()) ==> {
                &&& final(self).spec_ranges() == old(self).spec_ranges().push(value.spec_ip_range())
                &&& final(self).spec_values() == old(self).spec_values().push(seq![value])
            },
    {
        let r = value.ip_range();
        let lo = r.min().value;
        let ghost rs = self.ranges@;
        let ghost vs = self.spec_values();
        let mut found: Option<usize> = None;
        let count = self.ranges.len();
        match self.by_min.get(&lo) {
            Some(list) => {
                let mut j: usize = 0;
                while j < list.len() && found.is_none()
                    invariant
                        j <= list@.len(),
                        self.by_min@.contains_key(lo),
                        list@ == self.by_min@[lo]@,
                        rs == self.ranges@,
                        count == rs.len(),
                        self.wf(),
                        found is None ==> forall|t: int| 0 <= t < j ==> rs[list@[t] as int] != r,
                        found matches Some(g) ==> g < rs.len() && rs[g as int] == r,
                    decreases list@.len() - j,
                {
                    let g = list[j];
                    assert(list@[j as int] == self.by_min@[lo]@[j as int]);
                    if self.ranges[g] == r {
                        found = Some(g);
                    }
                    j += 1;
                }
                proof {
                    if found is None {
                        assert forall|g: int| 0 <= g < rs.len() implies rs[g] != r by {
                            if rs[g] == r {
                                assert(self.ranges@[g] == r);
                                assert(self.by_min@[lo]@.contains(g as usize));
                                let t = choose|t: int|
                                    0 <= t < list@.len() && list@[t] == g as usize;
                                assert(rs[list@[t] as int] != r);
                            }
                        }
                    }
                }
            },
            None => {
                proof {
                    assert forall|g: int| 0 <= g < rs.len() implies rs[g] != r by {
                        if rs[g] == r {
                            assert(self.ranges@[g] == r);
                            assert(self.by_min@.contains_key(lo));
                        }
                    }
                }
            },
        }
        match found {
            Some(g) => {
                assert(rs[g as int] == r);
                assert(group_of(rs, r) == g as int) by {
                    let h = group_of(rs, r);
                    assert(rs.contains(r));
                    assert(0 <= h < rs.len() && rs[h] == r);
                    if h != g as int {
                        assert(rs[h] != rs[g as int]);
                    }
                }
                let ghost old_group = self.values@[g as int]@;
                self.values[g].push(value);
                assert(self.spec_values() =~= vs.update(g as int, vs[g as int].push(value)));
            },
            None => {
                assert(!rs.contains(r));
                let n = self.ranges.len();
                self.ranges.push(r);
                let mut group: Vec<V> = Vec::new();
                group.push(value);
                self.values.push(group);
                assert(self.spec_values() =~= vs.push(seq![value]));
                let mut list = match self.by_min.remove(&lo) {
                    Some(l) => l,
                    None => Vec::new(),
                };
                let ghost old_list = list@;
                list.push(n);
                self.by_min.insert(lo, list);
                assert forall|g: int|
                    0 <= g < self.ranges@.len() implies {
                        &&& self.by_min@.contains_key((#[trigger] self.ranges@[g]).lo())
                        &&& self.by_min@[self.ranges@[g].lo()]@.contains(g as usize)
                    } by {
                    if g < n {
                        assert(rs[g] == self.ranges@[g]);
                        if rs[g].lo() == lo {
                            let t = choose|t: int| 0 <= t < old_list.len() && old_list[t] == g as usize;
                            assert(self.by_min@[lo]@[t] == g as usize);
                        }
                    } else {
                        assert(self.by_min@[lo]@[old_list.len() as int] == n);
                    }
                }
            },
        }
    }

    /// Freezes the groups into an index.
    pub fn build(self) -> (r: IpRangeTree<V>)
        requires
            self.wf(),
        ensures
            r.wf(),
            r.spec_ranges() == self.spec_ranges(),
            r.spec_values() == self.spec_values(),
            r.spec_ranges().len() == r.spec_values().len(),
    {
        let n = self.ranges.len();
        let mut entries: Vec<TreeEntry> = Vec::new();
        let mut g: usize = 0;
        while g < n
            invariant
                g <= n == self.ranges@.len(),
                entries@.len() == g,
                forall|i: int| 0 <= i < g ==> entries@[i] == entry_of(self.ranges@[i], i),
            decreases n - g,
        {
            let r = self.ranges[g];
            entries.push(((r.min().value, 0u8), (r.max().value, 1u8), g));
            g += 1;
        }
        let ghost es = entries@;
        let tree = tree_from_entries(entries);
        let ghost rs = self.ranges@;
        assert forall|e: TreeEntry|
            tree_entries(tree).contains(e) <==> exists|g: int|
                0 <= g < rs.len() && e == #[trigger] entry_of(rs[g], g) by {
            if tree_entries(tree).contains(e) {
                let i = choose|i: int| 0 <= i < es.len() && es[i] == e;
                assert(e == entry_of(rs[i], i));
            }
            if exists|g: int| 0 <= g < rs.len() && e == #[trigger] entry_of(rs[g], g) {
                let g = choose|g: int| 0 <= g < rs.len() && e == #[trigger] entry_of(rs[g], g);
                assert(es[g] == e);
            }
        }
        IpRangeTree { ranges: self.ranges, values: self.values, tree }
    }
}

} // verus!
