//! Sensors, beacons, and unions of half-open integer ranges.
//!
//! Each sensor knows its own position and the position of the beacon nearest
//! to it.  Within the sensor's taxicab radius no other beacon can sit, so on
//! any horizontal line every sensor rules out one contiguous run of cells.
//! [`RangeUnion`] collects such runs and answers how many cells they cover
//! together, and whether exactly one cell of a line is left uncovered.

use vstd::prelude::*;

use std::ops::Range;

verus! {

/// The magnitude of an integer.
pub open spec fn abs_i(a: int) -> int {
    if a >= 0 {
        a
    } else {
        -a
    }
}

/// A position on the grid.
#[derive(Debug, PartialEq, Eq, Structural, Clone, Copy)]
pub struct Pos {
    pub x: isize,
    pub y: isize,
}

impl Pos {
    /// The taxicab distance between two positions.
    pub fn manhattan_distance(&self, other: &Pos) -> (r: isize)
        requires
            isize::MIN < self.x - other.x <= isize::MAX,
            isize::MIN < self.y - other.y <= isize::MAX,
            abs_i(self.x - other.x) + abs_i(self.y - other.y) <= isize::MAX,
        ensures
            r == abs_i(self.x - other.x) + abs_i(self.y - other.y),
    {
        let dx = self.x - other.x;
        let dy = self.y - other.y;
        let adx = if dx < 0 {
            -dx
        } else {
            dx
        };
        let ady = if dy < 0 {
            -dy
        } else {
            dy
        };
        adx + ady
    }
}

/// A sensor and the beacon nearest to it.
#[derive(Debug, PartialEq, Eq, Structural, Clone, Copy)]
pub struct SensorInfo {
    pub sensor: Pos,
    pub beacon: Pos,
}

/// The taxicab radius a sensor covers.
pub open spec fn radius(si: SensorInfo) -> int {
    abs_i(si.sensor.x - si.beacon.x) + abs_i(si.sensor.y - si.beacon.y)
}

/// The coordinates stay far enough from the machine limits for the range
/// arithmetic on line `y`.
pub open spec fn fits(si: SensorInfo, y: int) -> bool {
    &&& isize::MIN < si.sensor.x - si.beacon.x <= isize::MAX
    &&& isize::MIN < si.sensor.y - si.beacon.y <= isize::MAX
    &&& radius(si) <= isize::MAX
    &&& isize::MIN < si.sensor.y - y <= isize::MAX
    &&& isize::MIN <= si.sensor.x - radius(si)
    &&& si.sensor.x + radius(si) + 1 <= isize::MAX
}

impl SensorInfo {
    /// The run of cells on line `y` within the sensor's radius: no new
    /// beacon can sit there, though the known beacon itself may.  A cell is
    /// in the returned range exactly when it is within the radius.
    pub fn get_empty_range(&self, y: isize) -> (r: Range<isize>)
        requires
            fits(*self, y as int),
        ensures
            forall|x: int|
                r.start <= x < r.end <==> #[trigger] abs_i(x - self.sensor.x) + abs_i(
                    y - self.sensor.y,
                ) <= radius(*self),
    {
        let md = self.sensor.manhattan_distance(&self.beacon);
        let dyr = self.sensor.y - y;
        let dy = if dyr < 0 {
            -dyr
        } else {
            dyr
        };
        if dy > md {
            return 0isize..0isize;
        }
        let from = self.sensor.x - (md - dy);
        let to = self.sensor.x + (md - dy) + 1;
        from..to
    }

    /// The run of cells on line `y` where no beacon at all can sit: the
    /// covered run, with the known beacon taken off its end when it lies on
    /// this line.  A cell is in the returned range exactly when it is within
    /// the radius and is not the known beacon.
    pub fn get_no_beacon_range(&self, y: isize) -> (r: Range<isize>)
        requires
            fits(*self, y as int),
        ensures
            forall|x: int|
                r.start <= x < r.end <==> (#[trigger] abs_i(x - self.sensor.x) + abs_i(
                    y - self.sensor.y,
                ) <= radius(*self) && !(y == self.beacon.y && x == self.beacon.x)),
    {
        let r = self.get_empty_range(y);
        if self.beacon.y == y {
            if r.start == self.beacon.x {
                (r.start + 1)..r.end
            } else {
                proof {
                    let sx = self.sensor.x as int;
                    let sy = self.sensor.y as int;
                    let bx = self.beacon.x as int;
                    let yy = y as int;
                    let rad = radius(*self);
                    assert(abs_i(bx - sx) == abs_i(sx - bx));
                    assert(abs_i(yy - sy) == abs_i(sy - yy));
                    assert(abs_i(bx - sx) + abs_i(yy - sy) == rad);
                    assert(r.start <= bx < r.end);
                    if bx < r.end - 1 {
                        assert(abs_i((bx + 1) - sx) + abs_i(yy - sy) <= rad);
                        assert(abs_i((bx - 1) - sx) + abs_i(yy - sy) <= rad);
                        assert(false);
                    }
                    assert(r.end - 1 == self.beacon.x);
                }
                r.start..(r.end - 1)
            }
        } else {
            r
        }
    }
}

/// A cell is covered by one of the collected runs.
pub open spec fn covered(ranges: Seq<(isize, isize)>, x: int) -> bool {
    exists|i: int| 0 <= i < ranges.len() && (#[trigger] ranges[i]).0 <= x < ranges[i].1
}

/// The number of covered cells in `[lo, hi)`.
pub open spec fn covered_count(ranges: Seq<(isize, isize)>, lo: int, hi: int) -> nat
    decreases hi - lo,
{
    if hi <= lo {
        0
    } else {
        covered_count(ranges, lo, hi - 1) + if covered(ranges, hi - 1) {
            1nat
        } else {
            0nat
        }
    }
}

/// The smallest start among the first `n` runs.
pub open spec fn min_start_upto(ranges: Seq<(isize, isize)>, n: int) -> int
    decreases n,
{
    if ranges.len() == 0 {
        0
    } else if n <= 1 {
        ranges[0].0 as int
    } else if n > ranges.len() {
        min_start_upto(ranges, ranges.len() as int)
    } else if (ranges[n - 1].0 as int) < min_start_upto(ranges, n - 1) {
        ranges[n - 1].0 as int
    } else {
        min_start_upto(ranges, n - 1)
    }
}

/// The largest end among the first `n` runs.
pub open spec fn max_end_upto(ranges: Seq<(isize, isize)>, n: int) -> int
    decreases n,
{
    if ranges.len() == 0 {
        0
    } else if n <= 1 {
        ranges[0].1 as int
    } else if n > ranges.len() {
        max_end_upto(ranges, ranges.len() as int)
    } else if (ranges[n - 1].1 as int) > max_end_upto(ranges, n - 1) {
        ranges[n - 1].1 as int
    } else {
        max_end_upto(ranges, n - 1)
    }
}

/// Exactly the cell `p` is uncovered in `[lo, hi)`.
pub open spec fn sole_missing(ranges: Seq<(isize, isize)>, lo: int, hi: int, p: int) -> bool {
    &&& lo <= p < hi
    &&& !covered(ranges, p)
    &&& forall|y: int| lo <= y < hi && y != p ==> covered(ranges, y)
}

/// No covered cell lies outside `[min_start, max_end)`.
proof fn lemma_covered_inside(ranges: Seq<(isize, isize)>, x: int)
    requires
        covered(ranges, x),
        ranges.len() > 0,
    ensures
        min_start_upto(ranges, ranges.len() as int) <= x < max_end_upto(
            ranges,
            ranges.len() as int,
        ),
{
    let i = choose|i: int| 0 <= i < ranges.len() && (#[trigger] ranges[i]).0 <= x < ranges[i].1;
    lemma_min_start_le(ranges, ranges.len() as int, i);
    lemma_max_end_ge(ranges, ranges.len() as int, i);
}

/// The running minimum is a lower bound on every seen start.
proof fn lemma_min_start_le(ranges: Seq<(isize, isize)>, n: int, i: int)
    requires
        0 <= i < n <= ranges.len(),
    ensures
        min_start_upto(ranges, n) <= ranges[i].0 as int,
    decreases n,
{
    if n > 1 && i < n - 1 {
        lemma_min_start_le(ranges, n - 1, i);
    }
}

/// The running maximum is an upper bound on every seen end.
proof fn lemma_max_end_ge(ranges: Seq<(isize, isize)>, n: int, i: int)
    requires
        0 <= i < n <= ranges.len(),
    ensures
        max_end_upto(ranges, n) >= ranges[i].1 as int,
    decreases n,
{
    if n > 1 && i < n - 1 {
        lemma_max_end_ge(ranges, n - 1, i);
    }
}

/// At most `hi - lo` cells are covered in `[lo, hi)`.
proof fn lemma_covered_count_le(ranges: Seq<(isize, isize)>, lo: int, hi: int)
    requires
        lo <= hi,
    ensures
        covered_count(ranges, lo, hi) <= hi - lo,
    decreases hi - lo,
{
    if hi > lo {
        lemma_covered_count_le(ranges, lo, hi - 1);
    }
}

/// A union of half-open runs of cells, kept as the list of runs added so
/// far.  Empty runs are dropped on the way in.
#[derive(Debug)]
pub struct RangeUnion(pub Vec<(isize, isize)>);

impl View for RangeUnion {
    type V = Seq<(isize, isize)>;

    open spec fn view(&self) -> Seq<(isize, isize)> {
        self.0@
    }
}

impl Default for RangeUnion {
    /// An empty union.
    fn default() -> (r: RangeUnion)
        ensures
            r@ == Seq::<(isize, isize)>::empty(),
    {
        RangeUnion(Vec::new())
    }
}

impl RangeUnion {
    /// Collect one more run.  An empty run changes nothing.
    pub fn add(&mut self, r: Range<isize>)
        ensures
            final(self)@ == if r.start < r.end {
                old(self)@.push((r.start, r.end))
            } else {
                old(self)@
            },
    {
        if r.start >= r.end {
            return ;
        }
        self.0.push((r.start, r.end));
    }

    /// Whether some collected run covers the cell.
    pub fn covers(&self, x: isize) -> (r: bool)
        ensures
            r == covered(self@, x as int),
    {
        let mut i: usize = 0;
        while i < self.0.len()
            invariant
                i <= self@.len(),
                forall|k: int| 0 <= k < i ==> !((#[trigger] self@[k]).0 <= x < self@[k].1),
            decreases self@.len() - i,
        {
            let (a, b) = self.0[i];
            if a <= x && x < b {
                proof {
                    assert(self@[i as int].0 <= x < self@[i as int].1);
                }
                return true;
            }
            i += 1;
        }
        false
    }

    /// How many cells the collected runs cover together, each counted once
    /// however many runs cover it.
    pub fn count(&self) -> (r: usize)
        ensures
            self@.len() == 0 ==> r == 0,
            self@.len() > 0 ==> r == covered_count(
                self@,
                min_start_upto(self@, self@.len() as int),
                max_end_upto(self@, self@.len() as int),
            ),
            forall|x: int|
                covered(self@, x) ==> min_start_upto(self@, self@.len() as int) <= x
                    < max_end_upto(self@, self@.len() as int),
    {
        proof {
            assert forall|x: int| covered(self@, x) implies min_start_upto(
                self@,
                self@.len() as int,
            ) <= x < max_end_upto(self@, self@.len() as int) by {
                lemma_covered_inside(self@, x);
            }
        }
        if self.0.len() == 0 {
            return 0;
        }
        let mut lo = self.0[0].0;
        let mut hi = self.0[0].1;
        let mut i: usize = 1;
        while i < self.0.len()
            invariant
                1 <= i <= self@.len(),
                self@.len() > 0,
                lo as int == min_start_upto(self@, i as int),
                hi as int == max_end_upto(self@, i as int),
            decreases self@.len() - i,
        {
            let (a, b) = self.0[i];
            if a < lo {
                lo = a;
            }
            if b > hi {
                hi = b;
            }
            i += 1;
        }
        if lo >= hi {
            proof {
                lemma_covered_count_le(self@, hi as int, hi as int);
                assert(covered_count(self@, lo as int, hi as int) == 0);
            }
            return 0;
        }
        let mut c: usize = 0;
        let mut x = lo;
        while x < hi
            invariant
                lo <= x <= hi,
                c == covered_count(self@, lo as int, x as int),
                c <= x - lo,
            decreases hi - x,
        {
            if self.covers(x) {
                c += 1;
            }
            proof {
                lemma_covered_count_le(self@, lo as int, x + 1);
            }
            x += 1;
        }
        c
    }

    /// A cell where two runs leave exactly one gap of width one between or
    /// inside them: either the runs abut with one cell of the first past the
    /// start of the second, or one run is a single cell inside the other.
    pub fn get_singular_overlap(r1: &Range<isize>, r2: &Range<isize>) -> (r: Option<isize>)
        requires
            isize::MIN < r1.end - r2.start <= isize::MAX,
            isize::MIN < r2.end - r1.start <= isize::MAX,
            isize::MIN < r1.end - r1.start <= isize::MAX,
            isize::MIN < r2.end - r2.start <= isize::MAX,
            r1.end > isize::MIN,
            r2.end > isize::MIN,
        ensures
            r == spec_singular_overlap(
                r1.start as int,
                r1.end as int,
                r2.start as int,
                r2.end as int,
            ),
    {
        match Self::check_overlap(r1, r2) {
            Some(p) => Some(p),
            None => Self::check_overlap(r2, r1),
        }
    }

    /// One direction of the singular-overlap test.
    fn check_overlap(r1: &Range<isize>, r2: &Range<isize>) -> (r: Option<isize>)
        requires
            isize::MIN < r1.end - r2.start <= isize::MAX,
            isize::MIN < r1.end - r1.start <= isize::MAX,
            r1.end > isize::MIN,
        ensures
            r == spec_check_overlap(r1.start as int, r1.end as int, r2.start as int, r2.end as int),
    {
        if r1.end - r2.start == 1 {
            Some(r1.end - 1)
        } else if r1.end - r1.start == 1 && r2.start <= r1.start && r1.start < r2.end {
            Some(r1.start)
        } else {
            None
        }
    }

    /// The sole cell of `search_range` that no collected run covers, if
    /// there is exactly one such cell.
    pub fn find_singular_missing_item_in_range(&self, search_range: &Range<isize>) -> (r: Option<
        isize,
    >)
        ensures
            match r {
                Some(p) => sole_missing(
                    self@,
                    search_range.start as int,
                    search_range.end as int,
                    p as int,
                ),
                None => forall|p: int|
                    !sole_missing(self@, search_range.start as int, search_range.end as int, p),
            },
    {
        let mut x = search_range.start;
        let mut found: Option<isize> = None;
        let ghost lo = search_range.start as int;
        while x < search_range.end
            invariant
                lo == search_range.start as int,
                lo <= x as int <= search_range.end as int || (x == search_range.start
                    && search_range.end < search_range.start),
                match found {
                    Some(p) => lo <= p < x && !covered(self@, p as int) && forall|y: int|
                        lo <= y < x && y != p ==> covered(self@, y),
                    None => forall|y: int| lo <= y < x ==> covered(self@, y),
                },
            decreases search_range.end - x,
        {
            if !self.covers(x) {
                match found {
                    Some(_) => {
                        proof {
                            let p0 = found->Some_0;
                            assert forall|p: int|
                                !sole_missing(
                                    self@,
                                    search_range.start as int,
                                    search_range.end as int,
                                    p,
                                ) by {
                                if p != p0 as int {
                                    assert(!covered(self@, p0 as int));
                                } else {
                                    assert(!covered(self@, x as int));
                                }
                            }
                        }
                        return None;
                    },
                    None => {
                        found = Some(x);
                    },
                }
            }
            x += 1;
        }
        proof {
            if found is None {
                assert forall|p: int|
                    !sole_missing(self@, search_range.start as int, search_range.end as int, p) by {
                    if lo <= p < search_range.end as int {
                        assert(covered(self@, p));
                    }
                }
            }
        }
        found
    }
}

/// One direction of the singular-overlap test: a gap of one where the first
/// run reaches one past the second's start, or the first run is one lone
/// cell inside the second.
pub open spec fn spec_check_overlap(a1: int, a2: int, b1: int, b2: int) -> Option<isize> {
    if a2 - b1 == 1 {
        Some((a2 - 1) as isize)
    } else if a2 - a1 == 1 && b1 <= a1 < b2 {
        Some(a1 as isize)
    } else {
        None
    }
}

/// The singular-overlap test, tried in both directions.
pub open spec fn spec_singular_overlap(a1: int, a2: int, b1: int, b2: int) -> Option<isize> {
    if spec_check_overlap(a1, a2, b1, b2) is Some {
        spec_check_overlap(a1, a2, b1, b2)
    } else {
        spec_check_overlap(b1, b2, a1, a2)
    }
}

} // verus!
