//! Precomputed table of legal successors for every point of the domain.
//!
//! For each point the table keeps a compact record — the first candidate x
//! and, per x offset, the y interval of the candidates with that x — instead
//! of a materialized pair list, to bound memory.

use vstd::prelude::*;
use crate::domain::{in_domain, valid_step, within_radius};
use crate::{FeedIdx, FeedPair};

verus! {

/// First legal next x from a point with coordinate `x`: `max(x - r, 0)`.
pub open spec fn x_lo(x: int, r: int) -> int {
    if x - r >= 0 {
        x - r
    } else {
        0
    }
}

/// Last legal next x: `min(x + r, n - 1)`.
pub open spec fn x_hi(n: int, x: int, r: int) -> int {
    if x + r <= n - 1 {
        x + r
    } else {
        n - 1
    }
}

/// First legal next y for next x `nx`: `max(nx, y - r, 0)`.
pub open spec fn y_lo(y: int, r: int, nx: int) -> int {
    let b = if y - r >= 0 {
        y - r
    } else {
        0
    };
    if b >= nx {
        b
    } else {
        nx
    }
}

/// Last legal next y: `min(y + r, n - 1)`.
pub open spec fn y_hi(n: int, y: int, r: int) -> int {
    if y + r <= n - 1 {
        y + r
    } else {
        n - 1
    }
}

/// Per-point record: the first candidate x, and for each x offset the
/// half-open interval of candidate y values.
pub struct PointRecord {
    /// Smallest legal next x.
    pub first_x: FeedIdx,
    /// `y_ranges[k]` is the `[lo, hi)` interval of next y for `first_x + k`.
    pub y_ranges: Vec<(FeedIdx, FeedIdx)>,
}

/// The record stored for point `(x, y)` describes exactly the intervals of
/// its legal successors.
pub open spec fn record_ok(n: int, r: int, x: int, y: int, rec: PointRecord) -> bool {
    &&& rec.first_x == x_lo(x, r)
    &&& rec.y_ranges@.len() == x_hi(n, x, r) + 1 - x_lo(x, r)
    &&& forall|k: int|
        0 <= k < rec.y_ranges@.len() ==> (#[trigger] rec.y_ranges@[k]).0 == y_lo(y, r, x_lo(x, r) + k)
            && rec.y_ranges@[k].1 == y_hi(n, y, r) + 1
}

/// Record stored at the linear index of point `(x, y)`.
pub open spec fn rec_at(n: int, recs: Seq<PointRecord>, x: int, y: int) -> PointRecord {
    recs[y * n + x]
}

/// Immutable adjacency table for a given feed count and step radius.
pub struct NeighborTable {
    /// Number of feeds of the domain.
    pub num_feeds: FeedIdx,
    /// Chebyshev step radius of the traversal.
    pub max_radius: FeedIdx,
    /// One record per `(x, y)` grid point, linearized row by row.
    pub records: Vec<PointRecord>,
}

impl NeighborTable {
    /// Every domain point's record is stored and correct.
    pub open spec fn wf(self) -> bool {
        &&& self.num_feeds >= 1
        &&& self.records@.len() == (self.num_feeds as int) * (self.num_feeds as int)
        &&& forall|x: int, y: int|
            0 <= x <= y < self.num_feeds ==> record_ok(
                self.num_feeds as int,
                self.max_radius as int,
                x,
                y,
                #[trigger] rec_at(self.num_feeds as int, self.records@, x, y),
            )
    }

    /// Precompute the neighbor intervals of every domain point.
    pub fn new(num_feeds: FeedIdx, max_radius: FeedIdx) -> (t: Self)
        requires
            num_feeds >= 1,
            max_radius >= 1,
            max_radius <= usize::MAX - num_feeds,
            (num_feeds as int) * (num_feeds as int) <= usize::MAX,
        ensures
            t.wf(),
            t.num_feeds == num_feeds,
            t.max_radius == max_radius,
    {
        let n = num_feeds;
        let ghost ni = num_feeds as int;
        let ghost ri = max_radius as int;
        let mut records: Vec<PointRecord> = Vec::new();
        let mut y: FeedIdx = 0;
        while y < n
            invariant
                y <= n,
                n == num_feeds,
                ni == num_feeds as int,
                ri == max_radius as int,
                num_feeds >= 1,
                max_radius >= 1,
                max_radius <= usize::MAX - num_feeds,
                ni * ni <= usize::MAX,
                records@.len() == y * ni,
                forall|a: int, b: int|
                    0 <= a <= b < ni && b < y ==> record_ok(
                        ni,
                        ri,
                        a,
                        b,
                        #[trigger] rec_at(ni, records@, a, b),
                    ),
            decreases n - y,
        {
            let mut x: FeedIdx = 0;
            while x < n
                invariant
                    x <= n,
                    y < n,
                    n == num_feeds,
                    ni == num_feeds as int,
                    ri == max_radius as int,
                    num_feeds >= 1,
                    max_radius >= 1,
                    max_radius <= usize::MAX - num_feeds,
                    ni * ni <= usize::MAX,
                    records@.len() == y * ni + x,
                    forall|a: int, b: int|
                        0 <= a <= b < ni && b < y ==> record_ok(
                            ni,
                            ri,
                            a,
                            b,
                            #[trigger] rec_at(ni, records@, a, b),
                        ),
                    forall|a: int|
                        0 <= a <= (y as int) && a < x ==> record_ok(
                            ni,
                            ri,
                            a,
                            y as int,
                            #[trigger] rec_at(ni, records@, a, y as int),
                        ),
                decreases n - x,
            {
                proof {
                    assert((y as int) * ni + x < ni * ni) by (nonlinear_arith)
                        requires
                            0 <= (x as int) < ni,
                            0 <= (y as int) < ni,
                    ;
                }
                let rec = build_record(n, max_radius, x, y);
                let ghost recs0 = records@;
                records.push(rec);
                proof {
                    assert(records@ == recs0.push(rec));
                    assert forall|a: int, b: int|
                        0 <= a <= b < ni && (b < y || (b == y && a < x + 1)) implies record_ok(
                        ni,
                        ri,
                        a,
                        b,
                        #[trigger] rec_at(ni, records@, a, b),
                    ) by {
                        if b == y && a == x {
                            assert(rec_at(ni, records@, a, b) == rec);
                        } else {
                            assert(0 <= b * ni + a < (y as int) * ni + x) by (nonlinear_arith)
                                requires
                                    0 <= a < ni,
                                    0 <= b < ni,
                                    0 <= (x as int) < ni,
                                    0 <= (y as int) < ni,
                                    b < y || (b == y && a < x),
                            ;
                            assert(rec_at(ni, records@, a, b) == rec_at(ni, recs0, a, b));
                        }
                    }
                }
                x = x + 1;
            }
            proof {
                assert(((y as int) + 1) * ni == (y as int) * ni + ni) by (nonlinear_arith);
            }
            y = y + 1;
        }
        NeighborTable { num_feeds, max_radius, records }
    }

    /// Enumerate the legal successors of the domain point `(x, y)`: exactly
    /// the in-domain points within the step radius.
    pub fn neighbors(&self, x: FeedIdx, y: FeedIdx) -> (v: Vec<FeedPair>)
        requires
            self.wf(),
            x <= y,
            (y as int) < self.num_feeds,
        ensures
            forall|q: FeedPair|
                #[trigger] v@.contains(q) <==> valid_step(
                    self.num_feeds as int,
                    self.max_radius as int,
                    (x, y),
                    q,
                ),
            v@.len() <= (self.num_feeds as int) * (self.num_feeds as int),
    {
        let ghost ni = self.num_feeds as int;
        let ghost ri = self.max_radius as int;
        let n = self.num_feeds;
        let total = self.records.len();
        proof {
            assert(0 <= (y as int) * ni + x < ni * ni) by (nonlinear_arith)
                requires
                    0 <= (x as int) < ni,
                    0 <= (y as int) < ni,
            ;
        }
        let rec = &self.records[y * n + x];
        proof {
            assert(*rec == rec_at(ni, self.records@, x as int, y as int));
            assert(record_ok(ni, ri, x as int, y as int, *rec));
        }
        let fx = rec.first_x;
        let mut v: Vec<FeedPair> = Vec::new();
        let mut k: usize = 0;
        while k < rec.y_ranges.len()
            invariant
                self.wf(),
                ni == self.num_feeds as int,
                ri == self.max_radius as int,
                n == self.num_feeds,
                x <= y,
                (y as int) < ni,
                record_ok(ni, ri, x as int, y as int, *rec),
                fx == rec.first_x,
                k <= rec.y_ranges@.len(),
                v@.len() <= k * ni,
                forall|q: FeedPair|
                    #[trigger] v@.contains(q) <==> (valid_step(ni, ri, (x, y), q) && (
                    q.0 as int) < fx + k),
            decreases rec.y_ranges@.len() - k,
        {
            let pair = rec.y_ranges[k];
            let lo = pair.0;
            let hi = pair.1;
            let nx = fx + k;
            let ghost len0 = v@.len() as int;
            let mut ny = lo;
            proof {
                assert(lo == y_lo(y as int, ri, fx + k));
                assert(hi == y_hi(ni, y as int, ri) + 1);
                assert(lo < hi);
                assert forall|q: FeedPair|
                    #[trigger] v@.contains(q) <==> (valid_step(ni, ri, (x, y), q) && ((
                    q.0 as int) < fx + k || ((q.0 as int) == fx + k && (q.1 as int) < lo))) by {
                    if valid_step(ni, ri, (x, y), q) && (q.0 as int) == fx + k {
                        assert((q.1 as int) >= y_lo(y as int, ri, fx + k));
                    }
                }
            }
            while ny < hi
                invariant
                    lo <= ny <= hi,
                    hi == y_hi(ni, y as int, ri) + 1,
                    lo == y_lo(y as int, ri, fx + k),
                    nx == fx + k,
                    x <= y,
                    (y as int) < ni,
                    ri == self.max_radius as int,
                    ni == self.num_feeds as int,
                    ni >= 1,
                    fx == x_lo(x as int, ri),
                    0 <= k < x_hi(ni, x as int, ri) + 1 - x_lo(x as int, ri),
                    v@.len() <= len0 + (ny - lo),
                    len0 <= k * ni,
                    forall|q: FeedPair|
                        #[trigger] v@.contains(q) <==> (valid_step(ni, ri, (x, y), q) && ((
                        q.0 as int) < fx + k || ((q.0 as int) == fx + k && (q.1 as int) < ny))),
                decreases hi - ny,
            {
                let ghost v0 = v@;
                v.push((nx, ny));
                proof {
                    let q0 = (nx, ny);
                    assert(v@ == v0.push(q0));
                    assert(in_domain(ni, q0));
                    assert(within_radius(ri, (x, y), q0));
                    lemma_push_contains(v0, q0);
                    assert forall|q: FeedPair|
                        #[trigger] v@.contains(q) <==> (valid_step(ni, ri, (x, y), q) && ((
                        q.0 as int) < fx + k || ((q.0 as int) == fx + k && (q.1 as int) < ny
                            + 1))) by {
                        assert(v@.contains(q) <==> (v0.contains(q) || q == q0));
                    }
                }
                ny = ny + 1;
            }
            proof {
                assert forall|q: FeedPair|
                    #[trigger] v@.contains(q) <==> (valid_step(ni, ri, (x, y), q) && (
                    q.0 as int) < fx + k + 1) by {
                    if valid_step(ni, ri, (x, y), q) && (q.0 as int) == fx + k {
                        assert((q.1 as int) <= y_hi(ni, y as int, ri));
                    }
                }
                assert(v@.len() <= (k + 1) * ni) by (nonlinear_arith)
                    requires
                        v@.len() <= len0 + ni,
                        len0 <= k * ni,
                        (k as int) >= 0,
                        ni >= 1,
                ;
            }
            k = k + 1;
        }
        proof {
            assert forall|q: FeedPair|
                #[trigger] v@.contains(q) <==> valid_step(ni, ri, (x, y), q) by {
                if valid_step(ni, ri, (x, y), q) {
                    assert((q.0 as int) <= x_hi(ni, x as int, ri));
                }
            }
            assert(v@.len() <= ni * ni) by (nonlinear_arith)
                requires
                    v@.len() <= (x_hi(ni, x as int, ri) + 1 - x_lo(x as int, ri)) * ni,
                    x_hi(ni, x as int, ri) + 1 - x_lo(x as int, ri) <= ni,
                    ni >= 1,
            ;
        }
        v
    }
}

/// Build the neighbor record of one domain point.
fn build_record(num_feeds: FeedIdx, max_radius: FeedIdx, x: FeedIdx, y: FeedIdx) -> (rec:
    PointRecord)
    requires
        num_feeds >= 1,
        max_radius >= 1,
        max_radius <= usize::MAX - num_feeds,
        x < num_feeds,
        y < num_feeds,
    ensures
        record_ok(num_feeds as int, max_radius as int, x as int, y as int, rec),
{
    let ghost ni = num_feeds as int;
    let ghost ri = max_radius as int;
    let first_x = if x >= max_radius {
        x - max_radius
    } else {
        0
    };
    let last_x = if x + max_radius <= num_feeds - 1 {
        x + max_radius
    } else {
        num_feeds - 1
    };
    let y_base = if y >= max_radius {
        y - max_radius
    } else {
        0
    };
    let last_y = if y + max_radius <= num_feeds - 1 {
        y + max_radius
    } else {
        num_feeds - 1
    };
    let mut y_ranges: Vec<(FeedIdx, FeedIdx)> = Vec::new();
    let mut nx = first_x;
    proof {
        assert(first_x == x_lo(x as int, ri));
        assert(last_x == x_hi(ni, x as int, ri));
        assert(last_y == y_hi(ni, y as int, ri));
    }
    while nx <= last_x
        invariant
            first_x <= nx <= last_x + 1,
            ni == num_feeds as int,
            ri == max_radius as int,
            first_x == x_lo(x as int, ri),
            last_x == x_hi(ni, x as int, ri),
            last_x < num_feeds,
            last_y == y_hi(ni, y as int, ri),
            last_y < num_feeds,
            (y as int) < ni,
            max_radius >= 1,
            y_base == if (y as int) - ri >= 0 {
                (y as int) - ri
            } else {
                0int
            },
            y_ranges@.len() == nx - first_x,
            forall|j: int|
                0 <= j < y_ranges@.len() ==> (#[trigger] y_ranges@[j]).0 == y_lo(
                    y as int,
                    ri,
                    x_lo(x as int, ri) + j,
                ) && y_ranges@[j].1 == y_hi(ni, y as int, ri) + 1,
        decreases last_x + 1 - nx,
    {
        let lo = if y_base >= nx {
            y_base
        } else {
            nx
        };
        y_ranges.push((lo, last_y + 1));
        nx = nx + 1;
    }
    PointRecord { first_x, y_ranges }
}

/// Membership in a pushed sequence.
proof fn lemma_push_contains(s: Seq<FeedPair>, x: FeedPair)
    ensures
        forall|q: FeedPair| s.push(x).contains(q) <==> (s.contains(q) || q == x),
{
    assert forall|q: FeedPair| s.push(x).contains(q) <==> (s.contains(q) || q == x) by {
        if s.contains(q) {
            let i = choose|i: int| 0 <= i < s.len() && s[i] == q;
            assert(s.push(x)[i] == q);
        }
        assert(s.push(x)[s.len() as int] == x);
        if s.push(x).contains(q) {
            let i = choose|i: int| 0 <= i < s.push(x).len() && s.push(x)[i] == q;
            if i < s.len() {
                assert(s[i] == q);
            }
        }
    }
}

} // verus!
