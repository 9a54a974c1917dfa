//! Sets of IP ranges that merge on insertion and split on removal.

use vstd::prelude::*;
use crate::ip::{
    prefix_of_text, range_of_text, IpAddress, IpPrefix, IpPrefixError, IpRange, IpRangeError,
};
use crate::text::{chars_of, split_bounds, split_spec, without_char};

verus! {

broadcast use IpRange::lemma_from_bounds;

/// The members of `rs` that share no address with `x`, in order.
pub open spec fn apart(rs: Seq<IpRange>, x: IpRange) -> Seq<IpRange>
    decreases rs.len(),
{
    if rs.len() == 0 {
        rs
    } else {
        let p = apart(rs.drop_last(), x);
        if rs.last().meets(x) {
            p
        } else {
            p.push(rs.last())
        }
    }
}

/// The smallest first address among `rs` and `lo`.
pub open spec fn hull_lo(rs: Seq<IpRange>, x: IpRange, lo: u128) -> u128
    decreases rs.len(),
{
    if rs.len() == 0 {
        lo
    } else {
        let m = hull_lo(rs.drop_last(), x, lo);
        if rs.last().meets(x) && rs.last().lo() < m {
            rs.last().lo()
        } else {
            m
        }
    }
}

/// The largest last address among the members of `rs` that meet `x`, and `hi`.
pub open spec fn hull_hi(rs: Seq<IpRange>, x: IpRange, hi: u128) -> u128
    decreases rs.len(),
{
    if rs.len() == 0 {
        hi
    } else {
        let m = hull_hi(rs.drop_last(), x, hi);
        if rs.last().meets(x) && rs.last().hi() > m {
            rs.last().hi()
        } else {
            m
        }
    }
}

/// The members that stay after adding `x`, followed by `x` merged with every
/// member that it meets.
pub open spec fn added(rs: Seq<IpRange>, x: IpRange) -> Seq<IpRange> {
    apart(rs, x).push(IpRange::from_bounds(hull_lo(rs, x, x.lo()), hull_hi(rs, x, x.hi())))
}

/// What is left of member `m` to the right of `x`.
pub open spec fn right_part(m: IpRange, x: IpRange) -> Seq<IpRange> {
    if x.hi() < m.hi() {
        seq![IpRange::from_bounds((x.hi() + 1) as u128, m.hi())]
    } else {
        seq![]
    }
}

/// What is left of member `m` to the left of `x`.
pub open spec fn left_part(m: IpRange, x: IpRange) -> Seq<IpRange> {
    if x.lo() > m.lo() {
        seq![IpRange::from_bounds(m.lo(), (x.lo() - 1) as u128)]
    } else {
        seq![]
    }
}

/// The pieces of the members that meet `x` which lie outside it, member by
/// member: the right piece first.
pub open spec fn remainders(rs: Seq<IpRange>, x: IpRange) -> Seq<IpRange>
    decreases rs.len(),
{
    if rs.len() == 0 {
        seq![]
    } else {
        let p = remainders(rs.drop_last(), x);
        if rs.last().meets(x) {
            p + right_part(rs.last(), x) + left_part(rs.last(), x)
        } else {
            p
        }
    }
}

/// The members that stay after removing `x`, followed by the remainders.
pub open spec fn removed(rs: Seq<IpRange>, x: IpRange) -> Seq<IpRange> {
    apart(rs, x) + remainders(rs, x)
}

/// Every member has `lo() <= hi()`.
pub open spec fn ranges_wf(rs: Seq<IpRange>) -> bool {
    forall|i: int| 0 <= i < rs.len() ==> (#[trigger] rs[i]).wf()
}

proof fn lemma_apart_wf(rs: Seq<IpRange>, x: IpRange)
    requires
        ranges_wf(rs),
    ensures
        ranges_wf(apart(rs, x)),
    decreases rs.len(),
{
    if rs.len() > 0 {
        assert(ranges_wf(rs.drop_last()));
        lemma_apart_wf(rs.drop_last(), x);
        assert(rs.last().wf());
    }
}

proof fn lemma_remainders_wf(rs: Seq<IpRange>, x: IpRange)
    requires
        ranges_wf(rs),
        x.wf(),
    ensures
        ranges_wf(remainders(rs, x)),
    decreases rs.len(),
{
    if rs.len() > 0 {
        assert(ranges_wf(rs.drop_last()));
        lemma_remainders_wf(rs.drop_last(), x);
        let m = rs.last();
        assert(m.wf());
        let p = remainders(rs.drop_last(), x);
        if m.meets(x) {
            let q = p + right_part(m, x) + left_part(m, x);
            assert forall|i: int| 0 <= i < q.len() implies (#[trigger] q[i]).wf() by {
                if i < p.len() {
                    assert(q[i] == p[i]);
                }
            }
        }
    }
}

/// Every member has `lo() <= hi()`, and no two members share an address.
pub open spec fn disjoint_ranges(rs: Seq<IpRange>) -> bool {
    &&& forall|i: int| 0 <= i < rs.len() ==> (#[trigger] rs[i]).wf()
    &&& forall|i: int, j: int|
        0 <= i < rs.len() && 0 <= j < rs.len() && i != j ==> !(#[trigger] rs[i]).meets(
            #[trigger] rs[j],
        )
}

//------------ Disjointness ---------------------------------------------------

/// Each member kept by `apart` is a member of `rs` that does not meet `x`.
proof fn lemma_apart_members(rs: Seq<IpRange>, x: IpRange)
    ensures
        forall|i: int|
            0 <= i < apart(rs, x).len() ==> exists|j: int|
                0 <= j < rs.len() && #[trigger] apart(rs, x)[i] == rs[j] && !rs[j].meets(x),
    decreases rs.len(),
{
    if rs.len() > 0 {
        let p = rs.drop_last();
        lemma_apart_members(p, x);
        assert forall|i: int| 0 <= i < apart(rs, x).len() implies exists|j: int|
            0 <= j < rs.len() && #[trigger] apart(rs, x)[i] == rs[j] && !rs[j].meets(x) by {
            if i < apart(p, x).len() {
                let j = choose|j: int| 0 <= j < p.len() && apart(p, x)[i] == p[j] && !p[j].meets(x);
                assert(apart(rs, x)[i] == apart(p, x)[i]);
                assert(rs[j] == p[j]);
            } else {
                assert(apart(rs, x)[i] == rs[rs.len() - 1]);
            }
        }
    }
}

proof fn lemma_apart_disjoint(rs: Seq<IpRange>, x: IpRange)
    requires
        disjoint_ranges(rs),
    ensures
        disjoint_ranges(apart(rs, x)),
    decreases rs.len(),
{
    if rs.len() > 0 {
        let p = rs.drop_last();
        assert(disjoint_ranges(p)) by {
            assert forall|i: int, j: int|
                0 <= i < p.len() && 0 <= j < p.len() && i != j implies !(#[trigger] p[i]).meets(
                #[trigger] p[j],
            ) by {
                assert(p[i] == rs[i] && p[j] == rs[j]);
            }
        }
        lemma_apart_disjoint(p, x);
        lemma_apart_members(p, x);
        lemma_apart_members(rs, x);
        let a = apart(rs, x);
        if !rs.last().meets(x) {
            let last = rs.len() - 1;
            assert forall|i: int, j: int|
                0 <= i < a.len() && 0 <= j < a.len() && i != j implies !(#[trigger] a[i]).meets(
                #[trigger] a[j],
            ) by {
                let ap = apart(p, x);
                if i < ap.len() && j < ap.len() {
                    assert(a[i] == ap[i] && a[j] == ap[j]);
                } else if i < ap.len() {
                    let k = choose|k: int| 0 <= k < p.len() && ap[i] == p[k] && !p[k].meets(x);
                    assert(a[i] == rs[k] && a[j] == rs[last]);
                } else if j < ap.len() {
                    let k = choose|k: int| 0 <= k < p.len() && ap[j] == p[k] && !p[k].meets(x);
                    assert(a[j] == rs[k] && a[i] == rs[last]);
                }
            }
        }
    }
}

/// The merged range starts at `x`'s start or at the start of a member that
/// meets `x`, and no later than either.
proof fn lemma_hull_lo(rs: Seq<IpRange>, x: IpRange, lo: u128)
    ensures
        hull_lo(rs, x, lo) <= lo,
        forall|j: int| 0 <= j < rs.len() && rs[j].meets(x) ==> hull_lo(rs, x, lo) <= (
        #[trigger] rs[j]).lo(),
        hull_lo(rs, x, lo) == lo || exists|j: int|
            0 <= j < rs.len() && rs[j].meets(x) && (#[trigger] rs[j]).lo() == hull_lo(rs, x, lo),
    decreases rs.len(),
{
    if rs.len() > 0 {
        let p = rs.drop_last();
        lemma_hull_lo(p, x, lo);
        assert forall|j: int| 0 <= j < rs.len() && rs[j].meets(x) implies hull_lo(rs, x, lo) <= (
        #[trigger] rs[j]).lo() by {
            if j < p.len() {
                assert(rs[j] == p[j]);
            }
        }
        if hull_lo(rs, x, lo) != lo && hull_lo(rs, x, lo) == hull_lo(p, x, lo) {
            let j = choose|j: int|
                0 <= j < p.len() && p[j].meets(x) && (#[trigger] p[j]).lo() == hull_lo(p, x, lo);
            assert(rs[j] == p[j]);
        }
    }
}

/// The merged range ends at `x`'s end or at the end of a member that meets
/// `x`, and no earlier than either.
proof fn lemma_hull_hi(rs: Seq<IpRange>, x: IpRange, hi: u128)
    ensures
        hull_hi(rs, x, hi) >= hi,
        forall|j: int| 0 <= j < rs.len() && rs[j].meets(x) ==> hull_hi(rs, x, hi) >= (
        #[trigger] rs[j]).hi(),
        hull_hi(rs, x, hi) == hi || exists|j: int|
            0 <= j < rs.len() && rs[j].meets(x) && (#[trigger] rs[j]).hi() == hull_hi(rs, x, hi),
    decreases rs.len(),
{
    if rs.len() > 0 {
        let p = rs.drop_last();
        lemma_hull_hi(p, x, hi);
        assert forall|j: int| 0 <= j < rs.len() && rs[j].meets(x) implies hull_hi(rs, x, hi) >= (
        #[trigger] rs[j]).hi() by {
            if j < p.len() {
                assert(rs[j] == p[j]);
            }
        }
        if hull_hi(rs, x, hi) != hi && hull_hi(rs, x, hi) == hull_hi(p, x, hi) {
            let j = choose|j: int|
                0 <= j < p.len() && p[j].meets(x) && (#[trigger] p[j]).hi() == hull_hi(p, x, hi);
            assert(rs[j] == p[j]);
        }
    }
}

/// Adding a range to a set whose members share no address gives a set
/// whose members share no address.
pub proof fn lemma_added_disjoint(rs: Seq<IpRange>, x: IpRange)
    requires
        disjoint_ranges(rs),
        x.wf(),
    ensures
        disjoint_ranges(added(rs, x)),
{
    lemma_apart_disjoint(rs, x);
    lemma_apart_members(rs, x);
    lemma_hull_lo(rs, x, x.lo());
    lemma_hull_hi(rs, x, x.hi());
    let a = apart(rs, x);
    let h = IpRange::from_bounds(hull_lo(rs, x, x.lo()), hull_hi(rs, x, x.hi()));
    let r = added(rs, x);
    assert forall|i: int| 0 <= i < a.len() implies !(#[trigger] a[i]).meets(h) && !h.meets(a[i]) by {
        let k = choose|k: int| 0 <= k < rs.len() && a[i] == rs[k] && !rs[k].meets(x);
        let y = rs[k];
        assert(y.wf());
        if y.meets(h) || h.meets(y) {
            if y.hi() < x.lo() {
                let j = choose|j: int|
                    0 <= j < rs.len() && rs[j].meets(x) && (#[trigger] rs[j]).lo() == h.lo();
                assert(rs[j].wf());
                assert(j != k);
                assert(rs[j].meets(y) || y.meets(rs[j]));
            } else {
                let j = choose|j: int|
                    0 <= j < rs.len() && rs[j].meets(x) && (#[trigger] rs[j]).hi() == h.hi();
                assert(rs[j].wf());
                assert(j != k);
                assert(rs[j].meets(y) || y.meets(rs[j]));
            }
        }
    }
    assert forall|i: int, j: int|
        0 <= i < r.len() && 0 <= j < r.len() && i != j implies !(#[trigger] r[i]).meets(
        #[trigger] r[j],
    ) by {
        if i < a.len() && j < a.len() {
            assert(r[i] == a[i] && r[j] == a[j]);
        } else if i < a.len() {
            assert(r[j] == h && r[i] == a[i]);
        } else {
            assert(r[i] == h && r[j] == a[j]);
        }
    }
    assert forall|i: int| 0 <= i < r.len() implies (#[trigger] r[i]).wf() by {
        if i < a.len() {
            let k = choose|k: int| 0 <= k < rs.len() && a[i] == rs[k] && !rs[k].meets(x);
            assert(r[i] == rs[k]);
        }
    }
}

/// Each remainder lies inside a member that meets `x`, and shares no
/// address with `x`.
proof fn lemma_remainders_inside(rs: Seq<IpRange>, x: IpRange)
    requires
        ranges_wf(rs),
        x.wf(),
    ensures
        forall|i: int|
            0 <= i < remainders(rs, x).len() ==> {
                &&& (#[trigger] remainders(rs, x)[i]).wf()
                &&& !remainders(rs, x)[i].meets(x)
                &&& !x.meets(remainders(rs, x)[i])
                &&& exists|j: int|
                    0 <= j < rs.len() && rs[j].meets(x) && (#[trigger] rs[j]).covers(
                        remainders(rs, x)[i],
                    )
            },
    decreases rs.len(),
{
    if rs.len() > 0 {
        let p = rs.drop_last();
        assert(ranges_wf(p));
        lemma_remainders_inside(p, x);
        let m = rs.last();
        let q = remainders(rs, x);
        let qp = remainders(p, x);
        assert forall|i: int| 0 <= i < q.len() implies {
            &&& (#[trigger] q[i]).wf()
            &&& !q[i].meets(x)
            &&& !x.meets(q[i])
            &&& exists|j: int| 0 <= j < rs.len() && rs[j].meets(x) && (#[trigger] rs[j]).covers(q[i])
        } by {
            if i < qp.len() {
                assert(q[i] == qp[i]);
                let j = choose|j: int| 0 <= j < p.len() && p[j].meets(x) && (#[trigger] p[j]).covers(qp[i]);
                assert(rs[j] == p[j]);
            } else {
                assert(m.meets(x));
                assert(rs[rs.len() - 1] == m);
                assert(m.wf());
            }
        }
    }
}

proof fn lemma_remainders_disjoint(rs: Seq<IpRange>, x: IpRange)
    requires
        disjoint_ranges(rs),
        x.wf(),
    ensures
        disjoint_ranges(remainders(rs, x)),
    decreases rs.len(),
{
    if rs.len() > 0 {
        let p = rs.drop_last();
        assert(disjoint_ranges(p)) by {
            assert forall|i: int, j: int|
                0 <= i < p.len() && 0 <= j < p.len() && i != j implies !(#[trigger] p[i]).meets(
                #[trigger] p[j],
            ) by {
                assert(p[i] == rs[i] && p[j] == rs[j]);
            }
        }
        lemma_remainders_disjoint(p, x);
        lemma_remainders_inside(p, x);
        lemma_remainders_inside(rs, x);
        let m = rs.last();
        let last = rs.len() - 1;
        let q = remainders(rs, x);
        let qp = remainders(p, x);
        assert forall|i: int, j: int|
            0 <= i < q.len() && 0 <= j < q.len() && i != j implies !(#[trigger] q[i]).meets(
            #[trigger] q[j],
        ) by {
            if i < qp.len() && j < qp.len() {
                assert(q[i] == qp[i] && q[j] == qp[j]);
            } else if i < qp.len() {
                assert(q[i] == qp[i]);
                let k = choose|k: int| 0 <= k < p.len() && p[k].meets(x) && (#[trigger] p[k]).covers(qp[i]);
                assert(rs[k] == p[k]);
                assert(!rs[k].meets(rs[last]) && !rs[last].meets(rs[k]));
                assert(rs[k].wf() && m.wf());
            } else if j < qp.len() {
                assert(q[j] == qp[j]);
                let k = choose|k: int| 0 <= k < p.len() && p[k].meets(x) && (#[trigger] p[k]).covers(qp[j]);
                assert(rs[k] == p[k]);
                assert(!rs[k].meets(rs[last]) && !rs[last].meets(rs[k]));
                assert(rs[k].wf() && m.wf());
            }
        }
    }
}

/// Removing a range from a set whose members share no address gives a set
/// whose members share no address.
pub proof fn lemma_removed_disjoint(rs: Seq<IpRange>, x: IpRange)
    requires
        disjoint_ranges(rs),
        x.wf(),
    ensures
        disjoint_ranges(removed(rs, x)),
{
    lemma_apart_disjoint(rs, x);
    lemma_apart_members(rs, x);
    lemma_remainders_disjoint(rs, x);
    lemma_remainders_inside(rs, x);
    let a = apart(rs, x);
    let q = remainders(rs, x);
    let r = removed(rs, x);
    assert forall|i: int, j: int|
        0 <= i < r.len() && 0 <= j < r.len() && i != j implies !(#[trigger] r[i]).meets(
        #[trigger] r[j],
    ) by {
        if i < a.len() && j < a.len() {
            assert(r[i] == a[i] && r[j] == a[j]);
        } else if i >= a.len() && j >= a.len() {
            assert(r[i] == q[i - a.len()] && r[j] == q[j - a.len()]);
        } else {
            let (ka, kq) = if i < a.len() {
                (i, j - a.len())
            } else {
                (j, i - a.len())
            };
            assert(r[if i < a.len() { i } else { j }] == a[ka]);
            let s = choose|s: int| 0 <= s < rs.len() && a[ka] == rs[s] && !rs[s].meets(x);
            let t = choose|t: int| 0 <= t < rs.len() && rs[t].meets(x) && (#[trigger] rs[t]).covers(q[kq]);
            assert(s != t);
            assert(rs[s].wf() && rs[t].wf());
            assert(!rs[s].meets(rs[t]) && !rs[t].meets(rs[s]));
            if i < a.len() {
                assert(r[j] == q[kq]);
            } else {
                assert(r[i] == q[kq]);
            }
        }
    }
    assert forall|i: int| 0 <= i < r.len() implies (#[trigger] r[i]).wf() by {
        if i < a.len() {
            let k = choose|k: int| 0 <= k < rs.len() && a[i] == rs[k] && !rs[k].meets(x);
            assert(r[i] == rs[k]);
        } else {
            assert(r[i] == q[i - a.len()]);
        }
    }
}

//------------ Addresses ------------------------------------------------------

/// Whether some member holds the address `a`.
pub open spec fn holds_address(rs: Seq<IpRange>, a: u128) -> bool {
    exists|i: int| 0 <= i < rs.len() && (#[trigger] rs[i]).lo() <= a <= rs[i].hi()
}

/// `apart` keeps every member that does not meet `x`.
proof fn lemma_apart_keeps(rs: Seq<IpRange>, x: IpRange)
    ensures
        forall|j: int|
            0 <= j < rs.len() && !(#[trigger] rs[j]).meets(x) ==> apart(rs, x).contains(rs[j]),
    decreases rs.len(),
{
    if rs.len() > 0 {
        let p = rs.drop_last();
        lemma_apart_keeps(p, x);
        assert forall|j: int| 0 <= j < rs.len() && !(#[trigger] rs[j]).meets(x) implies apart(
            rs,
            x,
        ).contains(rs[j]) by {
            if j < p.len() {
                assert(rs[j] == p[j]);
                let i = choose|i: int| 0 <= i < apart(p, x).len() && apart(p, x)[i] == p[j];
                assert(apart(rs, x)[i] == p[j]);
            } else {
                assert(apart(rs, x)[apart(rs, x).len() - 1] == rs[j]);
            }
        }
    }
}

/// The remainders hold every address of a member that meets `x` and lies
/// outside `x`.
proof fn lemma_remainders_keep(rs: Seq<IpRange>, x: IpRange, a: u128)
    requires
        x.wf(),
    ensures
        (exists|j: int|
            0 <= j < rs.len() && (#[trigger] rs[j]).meets(x) && rs[j].lo() <= a <= rs[j].hi())
            && !(x.lo() <= a <= x.hi()) ==> holds_address(remainders(rs, x), a),
    decreases rs.len(),
{
    if rs.len() > 0 {
        let p = rs.drop_last();
        lemma_remainders_keep(p, x, a);
        let q = remainders(rs, x);
        let qp = remainders(p, x);
        if (exists|j: int|
            0 <= j < rs.len() && (#[trigger] rs[j]).meets(x) && rs[j].lo() <= a <= rs[j].hi())
            && !(x.lo() <= a <= x.hi()) {
            let j = choose|j: int|
                0 <= j < rs.len() && (#[trigger] rs[j]).meets(x) && rs[j].lo() <= a <= rs[j].hi();
            if j < p.len() {
                assert(p[j] == rs[j]);
                let i = choose|i: int| 0 <= i < qp.len() && (#[trigger] qp[i]).lo() <= a <= qp[i].hi();
                assert(q[i] == qp[i]);
            } else {
                let m = rs.last();
                assert(m == rs[j]);
                if a > x.hi() {
                    assert(q[qp.len() as int] == right_part(m, x)[0]);
                } else {
                    let k = qp.len() + right_part(m, x).len() as int;
                    assert(q[k] == left_part(m, x)[0]);
                }
            }
        }
    }
}

/// Adding `x` to a set adds exactly the addresses of `x`.
pub proof fn lemma_added_addresses(rs: Seq<IpRange>, x: IpRange, a: u128)
    requires
        ranges_wf(rs),
        x.wf(),
    ensures
        holds_address(added(rs, x), a) <==> (holds_address(rs, a) || x.lo() <= a <= x.hi()),
{
    lemma_apart_members(rs, x);
    lemma_apart_keeps(rs, x);
    lemma_hull_lo(rs, x, x.lo());
    lemma_hull_hi(rs, x, x.hi());
    let ap = apart(rs, x);
    let r = added(rs, x);
    let h = IpRange::from_bounds(hull_lo(rs, x, x.lo()), hull_hi(rs, x, x.hi()));
    assert(r[ap.len() as int] == h);
    if holds_address(r, a) {
        let i = choose|i: int| 0 <= i < r.len() && (#[trigger] r[i]).lo() <= a <= r[i].hi();
        if i < ap.len() {
            assert(r[i] == ap[i]);
            let j = choose|j: int| 0 <= j < rs.len() && ap[i] == rs[j] && !rs[j].meets(x);
            assert(rs[j].lo() <= a <= rs[j].hi());
        } else if a < x.lo() {
            let j = choose|j: int|
                0 <= j < rs.len() && rs[j].meets(x) && (#[trigger] rs[j]).lo() == h.lo();
            assert(rs[j].wf());
            assert(rs[j].lo() <= a <= rs[j].hi());
        } else if a > x.hi() {
            let j = choose|j: int|
                0 <= j < rs.len() && rs[j].meets(x) && (#[trigger] rs[j]).hi() == h.hi();
            assert(rs[j].wf());
            assert(rs[j].lo() <= a <= rs[j].hi());
        }
    }
    if holds_address(rs, a) {
        let i = choose|i: int| 0 <= i < rs.len() && (#[trigger] rs[i]).lo() <= a <= rs[i].hi();
        if rs[i].meets(x) {
            assert(h.lo() <= a <= h.hi());
        } else {
            let k = choose|k: int| 0 <= k < ap.len() && ap[k] == rs[i];
            assert(r[k] == ap[k]);
        }
    }
    if x.lo() <= a <= x.hi() {
        assert(h.lo() <= a <= h.hi());
    }
}

/// Removing `x` from a set takes away exactly the addresses of `x`.
pub proof fn lemma_removed_addresses(rs: Seq<IpRange>, x: IpRange, a: u128)
    requires
        ranges_wf(rs),
        x.wf(),
    ensures
        holds_address(removed(rs, x), a) <==> (holds_address(rs, a) && !(x.lo() <= a <= x.hi())),
{
    lemma_apart_members(rs, x);
    lemma_apart_keeps(rs, x);
    lemma_remainders_inside(rs, x);
    lemma_remainders_keep(rs, x, a);
    let ap = apart(rs, x);
    let q = remainders(rs, x);
    let r = removed(rs, x);
    if holds_address(r, a) {
        let i = choose|i: int| 0 <= i < r.len() && (#[trigger] r[i]).lo() <= a <= r[i].hi();
        if i < ap.len() {
            assert(r[i] == ap[i]);
            let j = choose|j: int| 0 <= j < rs.len() && ap[i] == rs[j] && !rs[j].meets(x);
            assert(rs[j].lo() <= a <= rs[j].hi());
            assert(rs[j].wf());
        } else {
            assert(r[i] == q[i - ap.len()]);
            let j = choose|j: int|
                0 <= j < rs.len() && rs[j].meets(x) && (#[trigger] rs[j]).covers(q[i - ap.len()]);
            assert(rs[j].lo() <= a <= rs[j].hi());
        }
    }
    if holds_address(rs, a) && !(x.lo() <= a <= x.hi()) {
        let i = choose|i: int| 0 <= i < rs.len() && (#[trigger] rs[i]).lo() <= a <= rs[i].hi();
        if rs[i].meets(x) {
            let k = choose|k: int| 0 <= k < q.len() && (#[trigger] q[k]).lo() <= a <= q[k].hi();
            assert(r[ap.len() + k] == q[k]);
        } else {
            let k = choose|k: int| 0 <= k < ap.len() && ap[k] == rs[i];
            assert(r[k] == ap[k]);
        }
    }
}

/// A set of IP ranges.
#[derive(Clone, Debug, PartialEq, Eq)]
pub struct IpResourceSet {
    ranges: Vec<IpRange>,
}

impl View for IpResourceSet {
    type V = Seq<IpRange>;

    closed spec fn view(&self) -> Seq<IpRange> {
        self.ranges@
    }
}

impl IpResourceSet {
    pub open spec fn wf(&self) -> bool {
        disjoint_ranges(self@)
    }

    pub fn empty() -> (r: IpResourceSet)
        ensures
            r@ == Seq::<IpRange>::empty(),
            r.wf(),
    {
        IpResourceSet { ranges: Vec::new() }
    }

    pub fn is_empty(&self) -> (r: bool)
        ensures
            r == (self@.len() == 0),
    {
        self.ranges.len() == 0
    }

    pub fn ranges(&self) -> (r: &Vec<IpRange>)
        ensures
            r@ == self@,
    {
        &self.ranges
    }

    /// Adds `ip_range`: the members that it meets are merged with it into
    /// one range, which goes last; the others keep their order.
    pub fn add_ip_range(&mut self, ip_range: IpRange)
        ensures
            final(self)@ == added(old(self)@, ip_range),
            ranges_wf(final(self)@),
            old(self).wf() ==> final(self).wf(),
    {
        proof {
            use_type_invariant(&ip_range);
            IpRange::lemma_inv_wf(ip_range);
            if self.wf() {
                lemma_added_disjoint(self@, ip_range);
            }
        }
        let n = self.ranges.len();
        let mut keep: Vec<IpRange> = Vec::new();
        let mut lo = ip_range.min().value;
        let mut hi = ip_range.max().value;
        let mut i: usize = 0;
        while i < n
            invariant
                n == self@.len(),
                i <= n,
                ip_range.wf(),
                forall|k: int| 0 <= k < i ==> (#[trigger] self@[k]).wf(),
                keep@ == apart(self@.subrange(0, i as int), ip_range),
                lo == hull_lo(self@.subrange(0, i as int), ip_range, ip_range.lo()),
                hi == hull_hi(self@.subrange(0, i as int), ip_range, ip_range.hi()),
                lo <= ip_range.lo(),
                ip_range.hi() <= hi,
            decreases n - i,
        {
            let r = self.ranges[i];
            proof {
                use_type_invariant(&r);
                IpRange::lemma_inv_wf(r);
            }
            assert(self@.subrange(0, i as int + 1).drop_last() =~= self@.subrange(0, i as int));
            if r.intersects(ip_range) {
                if r.min().value < lo {
                    lo = r.min().value;
                }
                if r.max().value > hi {
                    hi = r.max().value;
                }
            } else {
                keep.push(r);
            }
            i += 1;
        }
        assert(self@.subrange(0, n as int) =~= self@);
        proof {
            lemma_apart_wf(self@, ip_range);
        }
        keep.push(IpRange::from_values(lo, hi));
        self.ranges = keep;
    }

    /// Adds the one address `address`.
    pub fn add_ip_address(&mut self, address: IpAddress)
        ensures
            final(self)@ == added(
                old(self)@,
                IpRange::from_bounds(address.value, address.value),
            ),
            ranges_wf(final(self)@),
            old(self).wf() ==> final(self).wf(),
    {
        self.add_ip_range(IpRange::from_values(address.value, address.value));
    }

    /// Removes `range_to_remove`: the members that it meets are replaced by
    /// what is left of them on either side, after the members that it does
    /// not meet.
    pub fn remove_ip_range(&mut self, range_to_remove: IpRange)
        ensures
            final(self)@ == removed(old(self)@, range_to_remove),
            ranges_wf(final(self)@),
            old(self).wf() ==> final(self).wf(),
    {
        proof {
            use_type_invariant(&range_to_remove);
            IpRange::lemma_inv_wf(range_to_remove);
            if self.wf() {
                lemma_removed_disjoint(self@, range_to_remove);
            }
        }
        let x = range_to_remove;
        let n = self.ranges.len();
        let mut keep: Vec<IpRange> = Vec::new();
        let mut rest: Vec<IpRange> = Vec::new();
        let mut i: usize = 0;
        while i < n
            invariant
                n == self@.len(),
                i <= n,
                x.wf(),
                forall|k: int| 0 <= k < i ==> (#[trigger] self@[k]).wf(),
                keep@ == apart(self@.subrange(0, i as int), x),
                rest@ == remainders(self@.subrange(0, i as int), x),
            decreases n - i,
        {
            let m = self.ranges[i];
            proof {
                use_type_invariant(&m);
                IpRange::lemma_inv_wf(m);
            }
            assert(self@.subrange(0, i as int + 1).drop_last() =~= self@.subrange(0, i as int));
            if m.intersects(x) {
                let ghost before = rest@;
                if x.max().value < m.max().value {
                    rest.push(IpRange::from_values(x.max().value + 1, m.max().value));
                }
                assert(rest@ =~= before + right_part(m, x));
                let ghost middle = rest@;
                if x.min().value > m.min().value {
                    rest.push(IpRange::from_values(m.min().value, x.min().value - 1));
                }
                assert(rest@ =~= middle + left_part(m, x));
            } else {
                keep.push(m);
            }
            i += 1;
        }
        assert(self@.subrange(0, n as int) =~= self@);
        let ghost kept = keep@;
        let mut j: usize = 0;
        while j < rest.len()
            invariant
                j <= rest@.len(),
                keep@ == kept + rest@.subrange(0, j as int),
            decreases rest@.len() - j,
        {
            keep.push(rest[j]);
            j += 1;
            assert(keep@ =~= kept + rest@.subrange(0, j as int));
        }
        assert(rest@.subrange(0, rest@.len() as int) =~= rest@);
        proof {
            lemma_apart_wf(self@, x);
            lemma_remainders_wf(self@, x);
            assert forall|i: int| 0 <= i < keep@.len() implies (#[trigger] keep@[i]).wf() by {
                if i < kept.len() {
                    assert(keep@[i] == kept[i]);
                } else {
                    assert(keep@[i] == rest@[i - kept.len()]);
                }
            }
        }
        self.ranges = keep;
    }
}


//------------ Text -----------------------------------------------------------

/// Why a resource set could not be read.
#[derive(Clone, Copy, Debug, PartialEq, Eq, Structural)]
pub enum IpRespourceSetError {
    InvalidSyntax,
    IpRangeError(IpRangeError),
    IpPrefixError(IpPrefixError),
}

/// The range that one comma-separated element denotes: a prefix where it
/// holds `/`, else a dash range.
pub open spec fn set_entry_of_text(el: Seq<char>) -> Result<IpRange, IpRespourceSetError> {
    if el.contains('/') {
        match prefix_of_text(el) {
            Ok((a, len, m)) => Ok(IpRange::from_bounds(a, m)),
            Err(e) => Err(IpRespourceSetError::IpPrefixError(e)),
        }
    } else {
        match range_of_text(el) {
            Ok((a, b)) => Ok(IpRange::from_bounds(a, b)),
            Err(e) => Err(IpRespourceSetError::IpRangeError(e)),
        }
    }
}

/// The set that the elements build, added one by one; the first element
/// that does not read gives the error.
pub open spec fn set_of_entries(parts: Seq<Seq<char>>) -> Result<Seq<IpRange>, IpRespourceSetError>
    decreases parts.len(),
{
    if parts.len() == 0 {
        Ok(seq![])
    } else {
        match set_of_entries(parts.drop_last()) {
            Err(e) => Err(e),
            Ok(rs) => match set_entry_of_text(parts.last()) {
                Err(e) => Err(e),
                Ok(x) => Ok(added(rs, x)),
            },
        }
    }
}

/// What `IpResourceSet::from_str` reads: spaces dropped, then
/// comma-separated prefixes and ranges.
pub open spec fn set_of_text(s: Seq<char>) -> Result<Seq<IpRange>, IpRespourceSetError> {
    set_of_entries(split_spec(s.filter(|c: char| c != ' '), ','))
}

proof fn lemma_set_error_sticks(parts: Seq<Seq<char>>, k: int)
    requires
        0 <= k <= parts.len(),
        set_of_entries(parts.subrange(0, k)) is Err,
    ensures
        set_of_entries(parts) == set_of_entries(parts.subrange(0, k)),
    decreases parts.len() - k,
{
    if k < parts.len() {
        assert(parts.subrange(0, k + 1).drop_last() =~= parts.subrange(0, k));
        lemma_set_error_sticks(parts, k + 1);
    } else {
        assert(parts.subrange(0, k) =~= parts);
    }
}

fn holds(s: &Vec<char>, lo: usize, hi: usize, c: char) -> (r: bool)
    requires
        lo <= hi <= s@.len(),
    ensures
        r == s@.subrange(lo as int, hi as int).contains(c),
{
    let mut i = lo;
    while i < hi
        invariant
            lo <= i <= hi <= s@.len(),
            forall|j: int| lo <= j < i ==> s@[j] != c,
        decreases hi - i,
    {
        if s[i] == c {
            assert(s@.subrange(lo as int, hi as int)[i - lo] == c);
            return true;
        }
        i += 1;
    }
    assert forall|j: int| 0 <= j < hi - lo implies s@.subrange(lo as int, hi as int)[j] != c by {
        assert(s@.subrange(lo as int, hi as int)[j] == s@[lo + j]);
    }
    false
}

impl IpResourceSet {
    /// Reads comma-separated prefixes and dash ranges, such as
    /// `10.0.0.0/8, 192.168.0.0-192.168.0.255`; spaces are dropped.
    pub fn from_str(s: &str) -> (r: Result<IpResourceSet, IpRespourceSetError>)
        ensures
            match set_of_text(s@) {
                Ok(rs) => r matches Ok(set) && set@ == rs && set.wf(),
                Err(e) => r == Err::<IpResourceSet, IpRespourceSetError>(e),
            },
    {
        let cs = chars_of(s);
        let t = without_char(&cs, ' ');
        assert(t@.subrange(0, t@.len() as int) =~= t@);
        let parts = split_bounds(&t, 0, t.len(), ',');
        let ghost pieces = split_spec(t@, ',');
        let mut set = IpResourceSet::empty();
        let mut k: usize = 0;
        while k < parts.len()
            invariant
                k <= parts@.len() == pieces.len(),
                pieces == split_spec(t@, ','),
                t@ == s@.filter(|c: char| c != ' '),
                forall|j: int|
                    0 <= j < parts@.len() ==> {
                        &&& 0 <= (#[trigger] parts@[j]).0 <= parts@[j].1 <= t@.len()
                        &&& t@.subrange(parts@[j].0 as int, parts@[j].1 as int) == pieces[j]
                    },
                set_of_entries(pieces.subrange(0, k as int)) == Ok::<
                    Seq<IpRange>,
                    IpRespourceSetError,
                >(set@),
                set.wf(),
            decreases parts@.len() - k,
        {
            let (a, b) = parts[k];
            assert(pieces.subrange(0, k as int + 1).drop_last() =~= pieces.subrange(0, k as int));
            let range = if holds(&t, a, b, '/') {
                match IpPrefix::parse_chars(&t, a, b) {
                    Ok(p) => p.range(),
                    Err(e) => {
                        proof {
                            lemma_set_error_sticks(pieces, k as int + 1);
                        }
                        return Err(IpRespourceSetError::IpPrefixError(e));
                    },
                }
            } else {
                match IpRange::parse_chars(&t, a, b) {
                    Ok(r) => {
                        proof {
                            IpRange::lemma_bounds_round_trip(r);
                        }
                        r
                    },
                    Err(e) => {
                        proof {
                            lemma_set_error_sticks(pieces, k as int + 1);
                        }
                        return Err(IpRespourceSetError::IpRangeError(e));
                    },
                }
            };
            proof {
                IpRange::lemma_bounds_round_trip(range);
            }
            set.add_ip_range(range);
            k += 1;
        }
        assert(pieces.subrange(0, k as int) =~= pieces);
        Ok(set)
    }
}

} // verus!
