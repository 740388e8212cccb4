use vstd::prelude::*;

use crate::normalize::{interval_error, normalized_bin, Bin, BinError};

verus! {

/// `b` wholly covers the cell that starts at `lo` and ends at the next boundary `hi`.
pub open spec fn covers(b: Bin, lo: u64, hi: u64) -> bool {
    b.from <= lo && b.to >= hi
}

/// The bins that cover the cell `[lo, hi)`, in input order.
pub open spec fn covering(bins: Seq<Bin>, lo: u64, hi: u64) -> Seq<Bin> {
    bins.filter(|b: Bin| covers(b, lo, hi))
}

/// The bins that a linear scan attributes to the value `v`: those with
/// `from <= v < to`, in input order. A value equal to a bin's `to` falls in the
/// cell that starts there, which that bin does not cover.
pub open spec fn scan(bins: Seq<Bin>, v: u64) -> Seq<Bin> {
    bins.filter(|b: Bin| b.from <= v && v < b.to)
}

/// `v` is a boundary that the bins call for: zero, the sentinel, or a bound of a bin.
pub open spec fn is_endpoint(bins: Seq<Bin>, v: u64) -> bool {
    ||| v == 0
    ||| v == u64::MAX
    ||| exists|j: int| 0 <= j < bins.len() && (bins[j].from == v || bins[j].to == v)
}

/// A sequence of boundaries in strictly ascending order.
pub open spec fn strictly_ascending(s: Seq<u64>) -> bool {
    forall|i: int, j: int| 0 <= i < j < s.len() ==> s[i] < s[j]
}

/// Breakpoints of the number line, each with the bins covering the cell it starts.
pub struct BinTable {
    pub table: Vec<(u64, Vec<Bin>)>,
}

impl BinTable {
    pub open spec fn len(self) -> int {
        self.table@.len() as int
    }

    pub open spec fn boundary(self, i: int) -> u64 {
        self.table@[i].0
    }

    pub open spec fn cell(self, i: int) -> Seq<Bin> {
        self.table@[i].1@
    }

    /// Boundaries ascend strictly.
    pub open spec fn sorted(self) -> bool {
        forall|i: int, j: int| 0 <= i < j < self.len() ==> self.boundary(i) < self.boundary(j)
    }

    pub open spec fn has_boundary(self, v: u64) -> bool {
        exists|i: int| 0 <= i < self.len() && self.boundary(i) == v
    }

    /// The boundaries are exactly zero, the sentinel and the bins' bounds, sorted.
    pub open spec fn boundaries_exact(self, bins: Seq<Bin>) -> bool {
        &&& self.sorted()
        &&& self.len() >= 2
        &&& self.boundary(0) == 0
        &&& self.boundary(self.len() - 1) == u64::MAX
        &&& forall|i: int| 0 <= i < self.len() ==> is_endpoint(bins, #[trigger] self.boundary(i))
        &&& forall|j: int|
            0 <= j < bins.len() ==> self.has_boundary(#[trigger] bins[j].from) && self.has_boundary(
                bins[j].to,
            )
    }

    /// Each cell holds the bins covering it, in input order; the sentinel cell is empty.
    pub open spec fn coverage_exact(self, bins: Seq<Bin>) -> bool {
        &&& self.len() >= 1
        &&& forall|i: int|
            0 <= i < self.len() - 1 ==> #[trigger] self.cell(i) == covering(
                bins,
                self.boundary(i),
                self.boundary(i + 1),
            )
        &&& self.cell(self.len() - 1) == Seq::<Bin>::empty()
    }

    /// The table is the index built from `bins`.
    pub open spec fn indexes(self, bins: Seq<Bin>) -> bool {
        self.boundaries_exact(bins) && self.coverage_exact(bins)
    }

    /// Cell `i` is the one that holds `v`.
    pub open spec fn cell_holds(self, i: int, v: u64) -> bool {
        &&& 0 <= i < self.len()
        &&& self.boundary(i) <= v
        &&& (i == self.len() - 1 || v < self.boundary(i + 1))
    }

    /// `r` is the answer to a query for `v`: the covering set of the cell that
    /// holds `v`, or nothing when no cell does.
    pub open spec fn answers(self, v: u64, r: Seq<Bin>) -> bool {
        &&& (self.len() == 0 || v < self.boundary(0)) ==> r == Seq::<Bin>::empty()
        &&& forall|i: int| self.cell_holds(i, v) ==> r == #[trigger] self.cell(i)
    }

    /// Builds the index: breakpoints at zero, at every bound of `bin_ranges` and at
    /// the sentinel `u64::MAX`, each with the bins (in input order) that run from
    /// at or below it to at or beyond the next breakpoint.
    pub fn from(bin_ranges: Vec<Bin>) -> (r: BinTable)
        ensures
            r.indexes(bin_ranges@),
    {
        let bins = &bin_ranges;
        let mut bounds: Vec<u64> = vec![0, u64::MAX];
        let mut k: usize = 0;
        while k < bins.len()
            invariant
                strictly_ascending(bounds@),
                bounds@.len() >= 2,
                bounds@[0] == 0,
                bounds@.last() == u64::MAX,
                forall|y: u64| bounds@.contains(y) ==> is_endpoint(bins@, y),
                forall|j: int|
                    0 <= j < k ==> bounds@.contains(#[trigger] bins@[j].from) && bounds@.contains(
                        bins@[j].to,
                    ),
            decreases bins.len() - k,
        {
            let b = bins[k];
            assert(is_endpoint(bins@, b.from) && is_endpoint(bins@, b.to)) by {
                assert(bins@[k as int].from == b.from);
            }
            insert_sorted(&mut bounds, b.from);
            insert_sorted(&mut bounds, b.to);
            k += 1;
        }
        let n = bounds.len();
        let mut table: Vec<(u64, Vec<Bin>)> = Vec::new();
        let mut i: usize = 0;
        while i < n
            invariant
                n == bounds@.len(),
                i <= n,
                table@.len() == i,
                forall|t: int|
                    0 <= t < i ==> (#[trigger] table@[t]).0 == bounds@[t] && table@[t].1@ == (if t + 1
                        < n {
                        covering(bins@, bounds@[t], bounds@[t + 1])
                    } else {
                        Seq::<Bin>::empty()
                    }),
            decreases n - i,
        {
            let cell = if i + 1 < n {
                collect_covering(bins, bounds[i], bounds[i + 1])
            } else {
                Vec::new()
            };
            table.push((bounds[i], cell));
            i += 1;
        }
        let r = BinTable { table };
        assert forall|i: int| 0 <= i < r.len() implies is_endpoint(
            bins@,
            #[trigger] r.boundary(i),
        ) by {
            assert(bounds@.contains(bounds@[i]));
        }
        assert forall|j: int| 0 <= j < bins.len() implies r.has_boundary(
            #[trigger] bins@[j].from,
        ) && r.has_boundary(bins@[j].to) by {
            assert(bounds@.contains(bins@[j].from));
            assert(bounds@.contains(bins@[j].to));
            let a = choose|a: int| 0 <= a < bounds@.len() && bounds@[a] == bins@[j].from;
            let c = choose|c: int| 0 <= c < bounds@.len() && bounds@[c] == bins@[j].to;
            assert(r.boundary(a) == bins@[j].from);
            assert(r.boundary(c) == bins@[j].to);
        }
        assert forall|i: int| 0 <= i < r.len() - 1 implies #[trigger] r.cell(i) == covering(
            bins@,
            r.boundary(i),
            r.boundary(i + 1),
        ) by {
            assert(r.table@[i + 1].0 == bounds@[i + 1]);
        }
        assert(r.cell(r.len() - 1) == Seq::<Bin>::empty());
        r
    }

    /// Normalizes each raw `(from, to)` pair and builds the index over the
    /// resulting bins, in the same order. Fails with the error of the first pair
    /// that cannot be normalized; no index is produced then.
    pub fn build(intervals: &Vec<(u64, u64)>) -> (r: Result<BinTable, BinError>)
        ensures
            match r {
                Ok(t) => {
                    &&& forall|k: int|
                        0 <= k < intervals@.len() ==> interval_error(
                            (#[trigger] intervals@[k]).0 as nat,
                            intervals@[k].1 as nat,
                        ) is None
                    &&& t.indexes(
                        intervals@.map_values(|p: (u64, u64)| normalized_bin(p.0 as nat, p.1 as nat)),
                    )
                },
                Err(e) => exists|k: int|
                    {
                        &&& 0 <= k < intervals@.len()
                        &&& interval_error(intervals@[k].0 as nat, intervals@[k].1 as nat) == Some(
                            e,
                        )
                        &&& forall|m: int|
                            0 <= m < k ==> interval_error(
                                (#[trigger] intervals@[m]).0 as nat,
                                intervals@[m].1 as nat,
                            ) is None
                    },
            },
    {
        let mut bins: Vec<Bin> = Vec::new();
        let mut k: usize = 0;
        while k < intervals.len()
            invariant
                k <= intervals@.len(),
                bins@ == intervals@.take(k as int).map_values(
                    |p: (u64, u64)| normalized_bin(p.0 as nat, p.1 as nat),
                ),
                forall|m: int|
                    0 <= m < k ==> interval_error(
                        (#[trigger] intervals@[m]).0 as nat,
                        intervals@[m].1 as nat,
                    ) is None,
            decreases intervals.len() - k,
        {
            let (from, to) = intervals[k];
            match Bin::new(from, to) {
                Ok(b) => {
                    bins.push(b);
                    assert(intervals@.take(k + 1).map_values(
                        |p: (u64, u64)| normalized_bin(p.0 as nat, p.1 as nat),
                    ) =~= intervals@.take(k as int).map_values(
                        |p: (u64, u64)| normalized_bin(p.0 as nat, p.1 as nat),
                    ).push(b));
                },
                Err(e) => {
                    assert(intervals@[k as int] == (from, to));
                    return Err(e);
                },
            }
            k += 1;
        }
        assert(intervals@.take(intervals@.len() as int) =~= intervals@);
        Ok(BinTable::from(bins))
    }

    /// The bins covering the cell that holds `pan`, found by binary search over
    /// the boundaries; nothing when the table is empty or `pan` lies below its
    /// first boundary. `pan` is a value already normalized.
    pub fn locate(&self, pan: u64) -> (r: Vec<Bin>)
        requires
            self.sorted(),
        ensures
            self.answers(pan, r@),
    {
        let n = self.table.len();
        if n == 0 || pan < self.table[0].0 {
            assert forall|i: int| !self.cell_holds(i, pan) by {
                if 0 < i < n {
                    assert(self.boundary(0) < self.boundary(i));
                }
            }
            return Vec::new();
        }
        let mut lo: usize = 0;
        let mut hi: usize = n;
        while hi - lo > 1
            invariant
                n == self.len(),
                lo < hi <= n,
                self.boundary(lo as int) <= pan,
                hi == n || pan < self.boundary(hi as int),
            decreases hi - lo,
        {
            let mid = lo + (hi - lo) / 2;
            if self.table[mid].0 <= pan {
                lo = mid;
            } else {
                hi = mid;
            }
        }
        assert(self.cell_holds(lo as int, pan));
        assert forall|i: int| self.cell_holds(i, pan) implies i == lo by {
            lemma_cell_unique(*self, pan, i, lo as int);
        }
        copy_bins(&self.table[lo].1)
    }
}

/// `covering` grows by one bin at a time.
proof fn lemma_covering_push(s: Seq<Bin>, x: Bin, lo: u64, hi: u64)
    ensures
        covering(s.push(x), lo, hi) == if covers(x, lo, hi) {
            covering(s, lo, hi).push(x)
        } else {
            covering(s, lo, hi)
        },
{
    reveal(Seq::filter);
    assert(s.push(x).drop_last() =~= s);
}

/// The bins of `bins` that cover `[lo, hi)`, in order.
fn collect_covering(bins: &Vec<Bin>, lo: u64, hi: u64) -> (r: Vec<Bin>)
    ensures
        r@ == covering(bins@, lo, hi),
{
    let mut r: Vec<Bin> = Vec::new();
    let mut j: usize = 0;
    while j < bins.len()
        invariant
            j <= bins@.len(),
            r@ == covering(bins@.take(j as int), lo, hi),
        decreases bins.len() - j,
    {
        let b = bins[j];
        proof {
            assert(bins@.take(j + 1) =~= bins@.take(j as int).push(b));
            lemma_covering_push(bins@.take(j as int), b, lo, hi);
        }
        if b.from <= lo && b.to >= hi {
            r.push(b);
        }
        j += 1;
    }
    assert(bins@.take(bins@.len() as int) =~= bins@);
    r
}

/// A copy of `bins`.
fn copy_bins(bins: &Vec<Bin>) -> (r: Vec<Bin>)
    ensures
        r@ == bins@,
{
    let mut r: Vec<Bin> = Vec::new();
    let mut j: usize = 0;
    while j < bins.len()
        invariant
            j <= bins@.len(),
            r@ == bins@.take(j as int),
        decreases bins.len() - j,
    {
        r.push(bins[j]);
        j += 1;
        assert(r@ =~= bins@.take(j as int));
    }
    assert(bins@.take(bins@.len() as int) =~= bins@);
    r
}

/// Adds `x` to an ascending sequence of boundaries that ends at the sentinel,
/// unless it is there already.
fn insert_sorted(v: &mut Vec<u64>, x: u64)
    requires
        strictly_ascending(old(v)@),
        old(v)@.len() >= 1,
        old(v)@[0] <= x,
        old(v)@.last() == u64::MAX,
    ensures
        strictly_ascending(final(v)@),
        final(v)@.len() >= old(v)@.len(),
        final(v)@[0] == old(v)@[0],
        final(v)@.last() == u64::MAX,
        forall|y: u64| final(v)@.contains(y) <==> (old(v)@.contains(y) || y == x),
{
    let ghost before = v@;
    let len = v.len();
    let mut p: usize = 0;
    while v[p] < x
        invariant
            v@ == before,
            len == before.len(),
            p < v@.len(),
            before.last() == u64::MAX,
            forall|i: int| 0 <= i < p ==> v@[i] < x,
        decreases v@.len() - p,
    {
        p += 1;
    }
    if v[p] != x {
        v.insert(p, x);
        let ghost after = v@;
        assert(forall|k: int|
            0 <= k < after.len() ==> after[k] == if k < p {
                before[k]
            } else if k == p {
                x
            } else {
                before[k - 1]
            });
        assert forall|y: u64| after.contains(y) <==> (before.contains(y) || y == x) by {
            if after.contains(y) {
                let k = choose|k: int| 0 <= k < after.len() && after[k] == y;
                if k < p {
                    assert(before[k] == y);
                } else if k > p {
                    assert(before[k - 1] == y);
                }
            }
            if before.contains(y) {
                let k = choose|k: int| 0 <= k < before.len() && before[k] == y;
                if k < p {
                    assert(after[k] == y);
                } else {
                    assert(after[k + 1] == y);
                }
            }
            if y == x {
                assert(after[p as int] == y);
            }
        }
    }
}

} // verus!

verus! {

impl BinTable {
    /// In a sorted table whose first boundary is at most `v`, the cell holding
    /// `v` can be found by walking up from cell `i`.
    pub proof fn lemma_cell_exists(self, v: u64, i: int) -> (j: int)
        requires
            self.sorted(),
            0 <= i < self.len(),
            self.boundary(i) <= v,
        ensures
            self.cell_holds(j, v),
        decreases self.len() - i,
    {
        if i == self.len() - 1 || v < self.boundary(i + 1) {
            i
        } else {
            self.lemma_cell_exists(v, i + 1)
        }
    }
}

/// In a sorted table at most one cell holds a value.
pub proof fn lemma_cell_unique(t: BinTable, v: u64, i: int, j: int)
    requires
        t.sorted(),
        t.cell_holds(i, v),
        t.cell_holds(j, v),
    ensures
        i == j,
{
    if i < j {
        assert(t.boundary(i + 1) <= t.boundary(j));
    } else if j < i {
        assert(t.boundary(j + 1) <= t.boundary(i));
    }
}

/// Asking the same table twice for the same value gives the same bins in the
/// same order.
pub proof fn lemma_locate_deterministic(t: BinTable, v: u64, r1: Seq<Bin>, r2: Seq<Bin>)
    requires
        t.sorted(),
        t.answers(v, r1),
        t.answers(v, r2),
    ensures
        r1 == r2,
{
    if t.len() > 0 && t.boundary(0) <= v {
        let i = t.lemma_cell_exists(v, 0);
        assert(r1 == t.cell(i));
    }
}

/// Covering a cell and the linear scan agree when they agree on every bin.
proof fn lemma_covering_is_scan(s: Seq<Bin>, lo: u64, hi: u64, v: u64)
    requires
        forall|k: int|
            0 <= k < s.len() ==> covers(#[trigger] s[k], lo, hi) == (s[k].from <= v && v < s[k].to),
    ensures
        covering(s, lo, hi) == scan(s, v),
    decreases s.len(),
{
    reveal(Seq::filter);
    if s.len() > 0 {
        let rest = s.drop_last();
        assert forall|k: int| 0 <= k < rest.len() implies covers(#[trigger] rest[k], lo, hi) == (
        rest[k].from <= v && v < rest[k].to) by {
            assert(rest[k] == s[k]);
        }
        lemma_covering_is_scan(rest, lo, hi, v);
        assert(s.last() == s[s.len() - 1]);
    }
}

/// Nothing is in the scan at the sentinel value.
proof fn lemma_scan_at_max(s: Seq<Bin>)
    ensures
        scan(s, u64::MAX) == Seq::<Bin>::empty(),
    decreases s.len(),
{
    reveal(Seq::filter);
    if s.len() > 0 {
        lemma_scan_at_max(s.drop_last());
    }
}

/// A query on the index built from `bins` returns exactly the bins that a
/// linear scan finds for the value: those with `from <= v < to`, in input order.
pub proof fn lemma_locate_matches_scan(bins: Seq<Bin>, t: BinTable, v: u64, r: Seq<Bin>)
    requires
        t.indexes(bins),
        t.answers(v, r),
    ensures
        r == scan(bins, v),
{
    let i = t.lemma_cell_exists(v, 0);
    assert(r == t.cell(i));
    if i == t.len() - 1 {
        lemma_scan_at_max(bins);
    } else {
        let lo = t.boundary(i);
        let hi = t.boundary(i + 1);
        assert forall|k: int| 0 <= k < bins.len() implies covers(#[trigger] bins[k], lo, hi) == (
        bins[k].from <= v && v < bins[k].to) by {
            let b = bins[k];
            assert(t.boundaries_exact(bins));
            assert(0 <= k < bins.len());
            assert(t.has_boundary(bins[k].from));
            assert(t.has_boundary(bins[k].to));
            let a = choose|a: int| 0 <= a < t.len() && t.boundary(a) == b.from;
            let c = choose|c: int| 0 <= c < t.len() && t.boundary(c) == b.to;
            if a > i {
                assert(t.boundary(i + 1) <= t.boundary(a));
            } else if a < i {
                assert(t.boundary(a) < t.boundary(i));
            }
            if c < i + 1 {
                if c < i {
                    assert(t.boundary(c) < t.boundary(i));
                }
            } else if c > i + 1 {
                assert(t.boundary(i + 1) < t.boundary(c));
            }
        }
        lemma_covering_is_scan(bins, lo, hi, v);
    }
}

} // verus!
