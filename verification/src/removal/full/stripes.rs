//! A one-dimensional cover by half-open stripes, arranged for fast
//! point-membership queries.

use vstd::prelude::*;

use crate::edges::lemma_insert_to_multiset;

verus! {

/// A half-open interval.
pub type Interval = (u64, u64);

/// A vertical or horizontal stripe `((a, b), v)`: the set of points `(x, y)`
/// with `a <= x < b` and `v <= y`.
pub type Stripe = (Interval, u64);

/// Whether the stripe `s` covers the point `p`.
pub open spec fn stripe_covers(s: Stripe, p: (u64, u64)) -> bool {
    s.0.0 <= p.0 < s.0.1 && s.1 <= p.1
}

/// Whether some stripe of `stripes` covers the point `p`.
pub open spec fn covers(stripes: Seq<Stripe>, p: (u64, u64)) -> bool {
    exists|i: int| 0 <= i < stripes.len() && stripe_covers(#[trigger] stripes[i], p)
}

/// Whether `x` is an endpoint of one of the stripes.
pub open spec fn is_endpoint(stripes: Seq<Stripe>, x: u64) -> bool {
    exists|i: int|
        0 <= i < stripes.len() && ((#[trigger] stripes[i]).0.0 == x || stripes[i].0.1 == x)
}

/// Whether some stripe has an endpoint at or below `x`.
pub open spec fn has_endpoint_leq(stripes: Seq<Stripe>, x: u64) -> bool {
    exists|i: int|
        0 <= i < stripes.len() && ((#[trigger] stripes[i]).0.0 <= x || stripes[i].0.1 <= x)
}

/// Whether the stripe `s` is active at abscissa `x`: its interval contains
/// `x`.
pub open spec fn active_at(s: Stripe, x: u64) -> bool {
    s.0.0 <= x < s.0.1
}

/// Whether `m` is the least value of a stripe active at `x`, or `u64::MAX`
/// when no stripe is active there.
pub open spec fn min_active_ok(stripes: Seq<Stripe>, x: u64, m: u64) -> bool {
    &&& forall|i: int|
        0 <= i < stripes.len() && active_at(#[trigger] stripes[i], x) ==> stripes[i].1 >= m
    &&& (m == u64::MAX || exists|i: int|
        0 <= i < stripes.len() && active_at(#[trigger] stripes[i], x) && stripes[i].1 == m)
}

/// Sorts a vector of values in nondecreasing order.
fn sort_u64_vec(input: &Vec<u64>) -> (r: Vec<u64>)
    ensures
        forall|a: int, b: int| 0 <= a < b < r@.len() ==> r@[a] <= r@[b],
        r@.to_multiset() == input@.to_multiset(),
{
    let mut r: Vec<u64> = Vec::new();
    proof {
        input@.to_multiset_ensures();
        r@.to_multiset_ensures();
        assert(input@.subrange(0, 0) =~= Seq::<u64>::empty());
        assert(r@.to_multiset() =~= input@.subrange(0, 0).to_multiset());
    }
    let n = input.len();
    for i in 0..n
        invariant
            n == input@.len(),
            forall|a: int, b: int| 0 <= a < b < r@.len() ==> r@[a] <= r@[b],
            r@.to_multiset() == input@.subrange(0, i as int).to_multiset(),
    {
        let x = input[i];
        let mut pos: usize = 0;
        while pos < r.len() && r[pos] <= x
            invariant
                0 <= pos <= r@.len(),
                forall|k: int| 0 <= k < pos ==> r@[k] <= x,
            decreases r@.len() - pos,
        {
            pos = pos + 1;
        }
        let ghost old_r = r@;
        r.insert(pos, x);
        proof {
            lemma_insert_to_multiset(old_r, pos as int, x);
            assert(input@.subrange(0, i + 1) =~= input@.subrange(0, i as int).push(x));
            input@.subrange(0, i as int).to_multiset_ensures();
            assert forall|a: int, b: int| 0 <= a < b < r@.len() implies r@[a] <= r@[b] by {
                if b < pos {
                    assert(old_r[a] <= old_r[b]);
                } else if a > pos {
                    assert(old_r[a - 1] <= old_r[b - 1]);
                } else if a < pos && b == pos {
                    assert(old_r[a] <= x);
                } else if a == pos && b > pos {
                    if pos < old_r.len() {
                        assert(x < old_r[pos as int]);
                        assert(old_r[pos as int] <= old_r[b - 1]);
                    }
                } else if a < pos && b > pos {
                    assert(old_r[a] <= old_r[b - 1]);
                }
            }
        }
    }
    proof {
        assert(input@.subrange(0, n as int) =~= input@);
    }
    r
}

/// The stripes of a non-domination region, arranged by endpoint: at each
/// distinct stripe endpoint, the least value of a stripe active there.
pub struct Stripes {
    arranged_stripes: Vec<(u64, u64)>,
    stripes: Ghost<Seq<Stripe>>,
}

impl View for Stripes {
    type V = Seq<Stripe>;

    closed spec fn view(&self) -> Seq<Stripe> {
        self.stripes@
    }
}

impl Stripes {
    /// The representation invariant: the arrangement holds exactly the
    /// stripes' endpoints, in increasing order, each with the least value
    /// active there.
    pub closed spec fn wf(self) -> bool {
        &&& forall|a: int, b: int|
            0 <= a < b < self.arranged_stripes@.len() ==> (#[trigger] self.arranged_stripes@[a]).0
                < (#[trigger] self.arranged_stripes@[b]).0
        &&& forall|t: int|
            0 <= t < self.arranged_stripes@.len() ==> is_endpoint(
                self.stripes@,
                (#[trigger] self.arranged_stripes@[t]).0,
            ) && min_active_ok(
                self.stripes@,
                self.arranged_stripes@[t].0,
                self.arranged_stripes@[t].1,
            )
        &&& forall|x: u64|
            #[trigger] is_endpoint(self.stripes@, x) ==> exists|t: int|
                0 <= t < self.arranged_stripes@.len() && (#[trigger] self.arranged_stripes@[t]).0
                    == x
    }

    /// Builds the arrangement of the given stripes: the sorted distinct
    /// endpoints, each with the least value of a stripe active there.
    #[verifier::loop_isolation(false)]
    pub fn new(stripes: Vec<Stripe>) -> (r: Stripes)
        ensures
            r.wf(),
            r@ == stripes@,
    {
        let n = stripes.len();
        let mut delimiters: Vec<u64> = Vec::new();
        for i in 0..n
            invariant
                delimiters@.len() == 2 * i,
                forall|k: int|
                    0 <= k < i ==> delimiters@[2 * k] == (#[trigger] stripes@[k]).0.0
                        && delimiters@[2 * k + 1] == stripes@[k].0.1,
        {
            let ((a, b), _) = stripes[i];
            delimiters.push(a);
            delimiters.push(b);
            proof {
                assert forall|k: int|
                    0 <= k < i + 1 implies delimiters@[2 * k] == (#[trigger] stripes@[k]).0.0
                    && delimiters@[2 * k + 1] == stripes@[k].0.1 by {}
            }
        }
        proof {
            delimiters@.to_multiset_ensures();
            assert forall|x: u64| delimiters@.contains(x) implies is_endpoint(stripes@, x) by {
                let t = choose|t: int| 0 <= t < delimiters@.len() && delimiters@[t] == x;
                let k = t / 2;
                assert(delimiters@[2 * k] == stripes@[k].0.0 && delimiters@[2 * k + 1]
                    == stripes@[k].0.1);
            }
            assert forall|x: u64| is_endpoint(stripes@, x) implies delimiters@.contains(x) by {
                let k = choose|k: int|
                    0 <= k < stripes@.len() && ((#[trigger] stripes@[k]).0.0 == x || stripes@[
                        k
                    ].0.1 == x);
                if stripes@[k].0.0 == x {
                    assert(delimiters@[2 * k] == x);
                } else {
                    assert(delimiters@[2 * k + 1] == x);
                }
            }
        }
        let sorted = sort_u64_vec(&delimiters);
        proof {
            assert forall|x: u64| sorted@.contains(x) <==> delimiters@.contains(x) by {
                sorted@.to_multiset_ensures();
                delimiters@.to_multiset_ensures();
                assert(sorted@.to_multiset().count(x) == delimiters@.to_multiset().count(x));
            }
        }
        let m = sorted.len();
        let mut xs: Vec<u64> = Vec::new();
        for i in 0..m
            invariant
                m == sorted@.len(),
                forall|a: int, b: int| 0 <= a < b < xs@.len() ==> xs@[a] < xs@[b],
                forall|t: int| 0 <= t < xs@.len() ==> sorted@.contains(#[trigger] xs@[t]),
                forall|k: int| 0 <= k < i ==> xs@.contains(#[trigger] sorted@[k]),
                i == 0 ==> xs@.len() == 0,
                i > 0 ==> xs@.len() > 0 && xs@[xs@.len() - 1] == sorted@[i - 1],
        {
            let v = sorted[i];
            let ghost xs_old = xs@;
            if xs.len() == 0 || xs[xs.len() - 1] < v {
                xs.push(v);
                proof {
                    assert(xs@[xs@.len() - 1] == v);
                    assert forall|k: int| 0 <= k < i + 1 implies xs@.contains(
                        #[trigger] sorted@[k],
                    ) by {
                        if k < i {
                            let t = choose|t: int| 0 <= t < xs_old.len() && xs_old[t] == sorted@[k];
                            assert(xs@[t] == sorted@[k]);
                        } else {
                            assert(xs@[xs@.len() - 1] == sorted@[k]);
                        }
                    }
                }
            } else {
                proof {
                    assert(sorted@[i - 1] <= sorted@[i as int]);
                    assert(xs@[xs@.len() - 1] == sorted@[i - 1]);
                    assert(v == xs@[xs@.len() - 1]);
                    assert(xs@.contains(xs@[xs@.len() - 1]));
                }
            }
        }
        proof {
            assert forall|x: u64| xs@.contains(x) <==> sorted@.contains(x) by {
                if sorted@.contains(x) {
                    let k = choose|k: int| 0 <= k < sorted@.len() && sorted@[k] == x;
                    assert(xs@.contains(sorted@[k]));
                }
            }
        }
        let ghost gs = stripes@;
        let nx = xs.len();
        let mut arranged_stripes: Vec<(u64, u64)> = Vec::new();
        for t in 0..nx
            invariant
                nx == xs@.len(),
                gs == stripes@,
                arranged_stripes@.len() == t,
                forall|k: int|
                    0 <= k < t ==> (#[trigger] arranged_stripes@[k]).0 == xs@[k]
                        && min_active_ok(gs, xs@[k], arranged_stripes@[k].1),
        {
            let x = xs[t];
            let mut min_value: u64 = u64::MAX;
            for k in 0..n
                invariant
                    n == gs.len(),
                    forall|q: int|
                        0 <= q < k && active_at(#[trigger] gs[q], x) ==> gs[q].1 >= min_value,
                    min_value == u64::MAX || exists|q: int|
                        0 <= q < k && active_at(#[trigger] gs[q], x) && gs[q].1 == min_value,
            {
                let ((a, b), v) = stripes[k];
                if a <= x && x < b && v < min_value {
                    min_value = v;
                }
            }
            arranged_stripes.push((x, min_value));
        }
        let r = Stripes { arranged_stripes, stripes: Ghost(stripes@) };
        proof {
            assert forall|x: u64| #[trigger] is_endpoint(gs, x) implies exists|t: int|
                0 <= t < r.arranged_stripes@.len() && (#[trigger] r.arranged_stripes@[t]).0
                    == x by {
                assert(delimiters@.contains(x));
                assert(xs@.contains(x));
                let t = choose|t: int| 0 <= t < xs@.len() && xs@[t] == x;
                assert(r.arranged_stripes@[t].0 == x);
            }
            assert forall|t: int| 0 <= t < r.arranged_stripes@.len() implies is_endpoint(
                gs,
                (#[trigger] r.arranged_stripes@[t]).0,
            ) && min_active_ok(gs, r.arranged_stripes@[t].0, r.arranged_stripes@[t].1) by {
                assert(sorted@.contains(xs@[t]));
            }
        }
        r
    }

    /// Answers whether the point `p` lies under one of the stripes, by
    /// binary search on the arrangement. The answer is exact, except that at
    /// `p.1 == u64::MAX` the arrangement also answers true wherever some
    /// endpoint lies at or below `p.0`.
    #[verifier::loop_isolation(false)]
    pub fn contains_point(&self, p: (u64, u64)) -> (r: bool)
        requires
            self.wf(),
        ensures
            r == (covers(self@, p) || (p.1 == u64::MAX && has_endpoint_leq(self@, p.0))),
    {
        let x = p.0;
        let y = p.1;
        let len = self.arranged_stripes.len();
        let mut lo: usize = 0;
        let mut hi: usize = len;
        while lo < hi
            invariant
                0 <= lo <= hi <= len,
                forall|t: int| 0 <= t < lo ==> (#[trigger] self.arranged_stripes@[t]).0 <= x,
                forall|t: int| hi <= t < len ==> (#[trigger] self.arranged_stripes@[t]).0 > x,
            decreases hi - lo,
        {
            let mid = lo + (hi - lo) / 2;
            if self.arranged_stripes[mid].0 <= x {
                lo = mid + 1;
            } else {
                hi = mid;
            }
        }
        if lo == 0 {
            proof {
                assert forall|i: int| 0 <= i < self@.len() implies !stripe_covers(
                    #[trigger] self@[i],
                    p,
                ) by {
                    if self@[i].0.0 <= p.0 {
                        assert(is_endpoint(self@, self@[i].0.0));
                        let t = choose|t: int|
                            0 <= t < self.arranged_stripes@.len() && (
                            #[trigger] self.arranged_stripes@[t]).0 == self@[i].0.0;
                        assert(self.arranged_stripes@[t].0 > x);
                    }
                }
                if p.1 == u64::MAX && has_endpoint_leq(self@, p.0) {
                    let i = choose|i: int|
                        0 <= i < self@.len() && ((#[trigger] self@[i]).0.0 <= p.0 || self@[
                            i
                        ].0.1 <= p.0);
                    if self@[i].0.0 <= p.0 {
                        assert(is_endpoint(self@, self@[i].0.0));
                        let t = choose|t: int|
                            0 <= t < self.arranged_stripes@.len() && (
                            #[trigger] self.arranged_stripes@[t]).0 == self@[i].0.0;
                        assert(false);
                    } else {
                        assert(is_endpoint(self@, self@[i].0.1));
                        let t = choose|t: int|
                            0 <= t < self.arranged_stripes@.len() && (
                            #[trigger] self.arranged_stripes@[t]).0 == self@[i].0.1;
                        assert(false);
                    }
                }
            }
            return false;
        }
        let pos = lo - 1;
        let (xstar, m) = self.arranged_stripes[pos];
        let r = m <= y;
        proof {
            let a = self.arranged_stripes@;
            assert(a[pos as int].0 <= x);
            // Any endpoint at or below x is at or below xstar.
            assert forall|e: u64| is_endpoint(self@, e) && e <= x implies e <= xstar by {
                let t = choose|t: int| 0 <= t < a.len() && (#[trigger] a[t]).0 == e;
                if t > pos {
                    assert(a[t].0 > x);
                } else if t < pos {
                    assert(a[t].0 < a[pos as int].0);
                }
            }
            if r {
                // The arrangement answers true: find a covering stripe, or
                // note the corner case.
                if m == u64::MAX {
                    assert(y == u64::MAX);
                    assert(is_endpoint(self@, xstar));
                    let i = choose|i: int|
                        0 <= i < self@.len() && ((#[trigger] self@[i]).0.0 == xstar || self@[
                            i
                        ].0.1 == xstar);
                    assert(has_endpoint_leq(self@, p.0));
                } else {
                    let i = choose|i: int|
                        0 <= i < self@.len() && active_at(#[trigger] self@[i], xstar) && self@[
                            i
                        ].1 == m;
                    // The stripe is active at x as well: its upper endpoint
                    // cannot lie in (xstar, x].
                    assert(self@[i].0.0 <= x);
                    if self@[i].0.1 <= x {
                        assert(is_endpoint(self@, self@[i].0.1));
                        assert(self@[i].0.1 <= xstar);
                        assert(false);
                    }
                    assert(stripe_covers(self@[i], p));
                }
            } else {
                // The arrangement answers false: no stripe covers p.
                assert forall|i: int| 0 <= i < self@.len() implies !stripe_covers(
                    #[trigger] self@[i],
                    p,
                ) by {
                    if self@[i].0.0 <= p.0 < self@[i].0.1 {
                        // The stripe is active at xstar, so its value is at
                        // least m > y.
                        assert(is_endpoint(self@, self@[i].0.0));
                        assert(self@[i].0.0 <= xstar);
                        if self@[i].0.1 <= xstar {
                            assert(is_endpoint(self@, self@[i].0.1));
                            assert(self@[i].0.1 <= x);
                            assert(self@[i].0.1 <= p.0);
                            assert(false);
                        }
                        assert(active_at(self@[i], xstar));
                        assert(self@[i].1 >= m);
                    }
                }
                if p.1 == u64::MAX {
                    assert(m <= u64::MAX);
                    assert(false);
                }
            }
        }
        r
    }

    /// Returns whether no stripes were given.
    pub fn is_empty(&self) -> (r: bool)
        requires
            self.wf(),
        ensures
            r == (self@.len() == 0),
    {
        let r = self.arranged_stripes.len() == 0;
        proof {
            if self@.len() > 0 {
                assert(is_endpoint(self@, self@[0].0.0));
            }
            if self.arranged_stripes@.len() > 0 {
                assert(is_endpoint(self@, self.arranged_stripes@[0].0));
            }
        }
        r
    }
}

} // verus!
