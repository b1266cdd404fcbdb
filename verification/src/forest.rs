//! Tree visibility on a height grid.
//!
//! The grid is a rectangle of single-digit heights.  A tree is visible when
//! all trees between it and some edge, along its row or column, are
//! strictly lower.  A tree's scenic score multiplies, over the four
//! directions, how many trees it sees: the run of trees up to and including
//! the first one at least as tall, or up to the edge.

use vstd::prelude::*;
use vstd::string::StringSliceAdditionalSpecFns;

use crate::cpu::split_lines;

verus! {

/// A rectangle of heights, with a visibility mark per tree.
#[derive(Debug)]
pub struct Grid {
    pub rows: usize,
    pub cols: usize,
    pub map: Vec<Vec<u8>>,
    pub visible: Vec<Vec<bool>>,
}

/// The tree at `(r, c)` is taller than everything to its left in its row.
pub open spec fn vis_left(m: Seq<Seq<u8>>, r: int, c: int) -> bool {
    forall|c2: int| 0 <= c2 < c ==> #[trigger] m[r][c2] < m[r][c]
}

/// The tree at `(r, c)` is taller than everything to its right in its row.
pub open spec fn vis_right(m: Seq<Seq<u8>>, r: int, c: int) -> bool {
    forall|c2: int| c < c2 < m[r].len() ==> #[trigger] m[r][c2] < m[r][c]
}

/// The tree at `(r, c)` is taller than everything above it in its column.
pub open spec fn vis_up(m: Seq<Seq<u8>>, r: int, c: int) -> bool {
    forall|r2: int| 0 <= r2 < r ==> #[trigger] m[r2][c] < m[r][c]
}

/// The tree at `(r, c)` is taller than everything below it in its column.
pub open spec fn vis_down(m: Seq<Seq<u8>>, r: int, c: int) -> bool {
    forall|r2: int| r < r2 < m.len() ==> #[trigger] m[r2][c] < m[r][c]
}

/// The tree can be seen from some edge.
pub open spec fn visible_spec(m: Seq<Seq<u8>>, r: int, c: int) -> bool {
    vis_left(m, r, c) || vis_right(m, r, c) || vis_up(m, r, c) || vis_down(m, r, c)
}

/// How far the tree sees upward: to the first tree at least as tall, or to
/// the edge.  `d` is the distance about to be inspected.
pub open spec fn vd_up(m: Seq<Seq<u8>>, r: int, c: int, d: int) -> int
    decreases r - d,
{
    if d >= r {
        r
    } else if m[r - d][c] >= m[r][c] {
        d
    } else {
        vd_up(m, r, c, d + 1)
    }
}

/// How far the tree sees downward.
pub open spec fn vd_down(m: Seq<Seq<u8>>, r: int, c: int, d: int) -> int
    decreases m.len() - r - d,
{
    if d >= m.len() - 1 - r {
        m.len() - 1 - r
    } else if m[r + d][c] >= m[r][c] {
        d
    } else {
        vd_down(m, r, c, d + 1)
    }
}

/// How far the tree sees leftward.
pub open spec fn vd_left(m: Seq<Seq<u8>>, r: int, c: int, d: int) -> int
    decreases c - d,
{
    if d >= c {
        c
    } else if m[r][c - d] >= m[r][c] {
        d
    } else {
        vd_left(m, r, c, d + 1)
    }
}

/// How far the tree sees rightward.
pub open spec fn vd_right(m: Seq<Seq<u8>>, r: int, c: int, d: int) -> int
    decreases m[r].len() - c - d,
{
    if d >= m[r].len() - 1 - c {
        m[r].len() - 1 - c
    } else if m[r][c + d] >= m[r][c] {
        d
    } else {
        vd_right(m, r, c, d + 1)
    }
}

/// The scenic score: the four viewing distances multiplied.
pub open spec fn scenic_spec(m: Seq<Seq<u8>>, r: int, c: int) -> int {
    vd_up(m, r, c, 1) * vd_down(m, r, c, 1) * vd_left(m, r, c, 1) * vd_right(m, r, c, 1)
}

/// The number of marked trees in one row of marks.
pub open spec fn count_row(row: Seq<bool>, n: int) -> nat
    decreases n,
{
    if n <= 0 || n > row.len() {
        0
    } else {
        count_row(row, n - 1) + if row[n - 1] {
            1nat
        } else {
            0nat
        }
    }
}

/// The number of marked trees in the first `n` rows.
pub open spec fn count_all(vis: Seq<Seq<bool>>, n: int) -> nat
    decreases n,
{
    if n <= 0 || n > vis.len() {
        0
    } else {
        count_all(vis, n - 1) + count_row(vis[n - 1], vis[n - 1].len() as int)
    }
}

impl Grid {
    /// The grid is a non-empty rectangle, and the marks mirror its shape.
    pub open spec fn wf(&self) -> bool {
        &&& self.rows == self.map@.len()
        &&& self.rows > 0
        &&& self.cols > 0
        &&& forall|r: int| 0 <= r < self.rows ==> (#[trigger] self.map@[r])@.len() == self.cols
        &&& self.visible@.len() == self.rows
        &&& forall|r: int| 0 <= r < self.rows ==> (#[trigger] self.visible@[r])@.len() == self.cols
    }

    /// The heights, as a grid of numbers.
    pub open spec fn heights(&self) -> Seq<Seq<u8>> {
        self.map@.map_values(|row: Vec<u8>| row@)
    }

    /// Parse the grid: one line of digit heights per input line.  The input
    /// must be a non-empty rectangle of digits.
    pub fn parse(s: &str) -> (g: Grid)
        requires
            split_lines(s.spec_bytes(), Seq::empty()).len() > 0,
            split_lines(s.spec_bytes(), Seq::empty())[0].len() > 0,
            forall|i: int|
                0 <= i < split_lines(s.spec_bytes(), Seq::empty()).len() ==> (
                #[trigger] split_lines(s.spec_bytes(), Seq::empty())[i]).len() == split_lines(
                    s.spec_bytes(),
                    Seq::empty(),
                )[0].len(),
            forall|i: int, j: int|
                0 <= i < split_lines(s.spec_bytes(), Seq::empty()).len() && 0 <= j < split_lines(
                    s.spec_bytes(),
                    Seq::empty(),
                )[i].len() ==> ('0' as u8) <= (#[trigger] split_lines(s.spec_bytes(), Seq::empty())[
                i][j]) <= ('9' as u8),
        ensures
            g.wf(),
            g.rows == split_lines(s.spec_bytes(), Seq::empty()).len(),
            g.cols == split_lines(s.spec_bytes(), Seq::empty())[0].len(),
            forall|i: int, j: int|
                0 <= i < g.rows && 0 <= j < g.cols ==> (#[trigger] g.heights()[i][j]) + ('0' as u8)
                    == split_lines(s.spec_bytes(), Seq::empty())[i][j],
            forall|i: int, j: int|
                0 <= i < g.rows && 0 <= j < g.cols ==> !(#[trigger] g.visible@[i]@[j]),
    {
        let b = s.as_bytes();
        let ghost whole = split_lines(b@, Seq::<u8>::empty());
        let mut map: Vec<Vec<u8>> = Vec::new();
        let mut cur_row: Vec<u8> = Vec::new();
        let ghost mut done: Seq<Seq<u8>> = Seq::empty();
        let ghost mut curb: Seq<u8> = Seq::empty();
        let mut i: usize = 0;
        proof {
            assert(b@.skip(0) =~= b@);
            assert(whole =~= done + split_lines(b@.skip(0), curb));
        }
        while i < b.len()
            invariant
                i <= b@.len(),
                b@ == s.spec_bytes(),
                whole == split_lines(s.spec_bytes(), Seq::empty()),
                whole == done + split_lines(b@.skip(i as int), curb),
                map@.len() == done.len(),
                forall|k: int|
                    0 <= k < done.len() ==> (#[trigger] map@[k])@.len() == done[k].len(),
                forall|k: int, j: int|
                    #![trigger map@[k]@[j]]
                    0 <= k < done.len() && 0 <= j < done[k].len() ==> (map@[k]@[j]) + ('0' as u8)
                        == done[k][j],
                cur_row@.len() == curb.len(),
                forall|j: int| 0 <= j < curb.len() ==> (#[trigger] cur_row@[j]) + ('0' as u8) == curb[j],
                forall|i2: int, j: int|
                    0 <= i2 < whole.len() && 0 <= j < whole[i2].len() ==> ('0' as u8) <= (
                    #[trigger] whole[i2][j]) <= ('9' as u8),
            decreases b@.len() - i,
        {
            let c = b[i];
            proof {
                assert(b@.skip(i as int)[0] == b@[i as int]);
                assert(b@.skip(i as int).drop_first() =~= b@.skip(i + 1));
            }
            if c == ('\n' as u8) {
                proof {
                    assert(split_lines(b@.skip(i as int), curb) == seq![curb] + split_lines(
                        b@.skip(i + 1),
                        Seq::<u8>::empty(),
                    ));
                    assert(whole[done.len() as int] == curb);
                }
                map.push(cur_row);
                cur_row = Vec::new();
                proof {
                    done = done.push(curb);
                    curb = Seq::empty();
                    assert(whole =~= done + split_lines(b@.skip(i + 1), curb));
                }
            } else if c != ('\r' as u8) {
                proof {
                    assert(split_lines(b@.skip(i as int), curb) == split_lines(
                        b@.skip(i + 1),
                        curb.push(c),
                    ));
                    lemma_split_first_ge(b@.skip(i + 1), curb.push(c));
                    let line = whole[done.len() as int];
                    assert(line == split_lines(b@.skip(i + 1), curb.push(c))[0]);
                    assert(line.take(curb.push(c).len() as int) == curb.push(c));
                    assert(line.take(curb.len() as int + 1)[curb.len() as int] == line[curb.len() as int]);
                    assert(line[curb.len() as int] == c);
                    assert(0 <= done.len() < whole.len());
                    assert(('0' as u8) <= c <= ('9' as u8));
                }
                cur_row.push(c - ('0' as u8));
                proof {
                    curb = curb.push(c);
                }
            } else {
                proof {
                    assert(split_lines(b@.skip(i as int), curb) == split_lines(b@.skip(i + 1), curb));
                }
            }
            i += 1;
        }
        proof {
            assert(b@.skip(b@.len() as int) =~= Seq::<u8>::empty());
        }
        if cur_row.len() > 0 {
            proof {
                assert(split_lines(b@.skip(i as int), curb) == seq![curb]);
                assert(whole[done.len() as int] == curb);
            }
            map.push(cur_row);
            proof {
                done = done.push(curb);
                assert(whole =~= done);
            }
        } else {
            proof {
                assert(curb.len() == 0);
                assert(split_lines(b@.skip(i as int), curb) =~= Seq::<Seq<u8>>::empty());
                assert(whole =~= done);
            }
        }
        let rows = map.len();
        let cols = map[0].len();
        proof {
            assert(map@[0]@.len() == whole[0].len());
            assert forall|k: int|
                0 <= k < whole.len() implies (#[trigger] map@[k])@.len() == whole[0].len() by {
                assert(whole[k] == split_lines(s.spec_bytes(), Seq::empty())[k]);
                assert(whole[k].len() == whole[0].len());
            }
        }
        let mut visible: Vec<Vec<bool>> = Vec::new();
        let mut r: usize = 0;
        while r < rows
            invariant
                r <= rows,
                visible@.len() == r,
                forall|k: int| 0 <= k < r ==> (#[trigger] visible@[k])@.len() == cols,
                forall|k: int, j: int|
                    #![trigger visible@[k]@[j]]
                    0 <= k < r && 0 <= j < cols ==> !(visible@[k]@[j]),
            decreases rows - r,
        {
            let mut vrow: Vec<bool> = Vec::new();
            let mut c2: usize = 0;
            while c2 < cols
                invariant
                    c2 <= cols,
                    vrow@.len() == c2,
                    forall|j: int| 0 <= j < c2 ==> !(#[trigger] vrow@[j]),
                decreases cols - c2,
            {
                vrow.push(false);
                c2 += 1;
            }
            visible.push(vrow);
            r += 1;
        }
        Grid { rows, cols, map, visible }
    }

    /// Whether the tree at `(row, col)` can be seen from some edge.
    pub fn is_visible(&self, row: usize, col: usize) -> (r: bool)
        requires
            self.wf(),
            row < self.rows,
            col < self.cols,
        ensures
            r == visible_spec(self.heights(), row as int, col as int),
    {
        let h = self.map[row][col];
        let mut ok = true;
        let mut c2: usize = 0;
        while c2 < col
            invariant
                self.wf(),
                row < self.rows,
                col < self.cols,
                c2 <= col,
                h == self.heights()[row as int][col as int],
                ok == forall|k: int| 0 <= k < c2 ==> #[trigger] self.heights()[row as int][k] < h,
            decreases col - c2,
        {
            if self.map[row][c2] >= h {
                proof {
                    assert(self.heights()[row as int][c2 as int] >= h);
                }
                ok = false;
            }
            c2 += 1;
        }
        if ok {
            return true;
        }
        ok = true;
        let mut c3 = col + 1;
        while c3 < self.cols
            invariant
                self.wf(),
                row < self.rows,
                col < self.cols,
                col < c3 <= self.cols,
                h == self.heights()[row as int][col as int],
                ok == forall|k: int|
                    col < k < c3 ==> #[trigger] self.heights()[row as int][k] < h,
            decreases self.cols - c3,
        {
            if self.map[row][c3] >= h {
                proof {
                    assert(self.heights()[row as int][c3 as int] >= h);
                }
                ok = false;
            }
            c3 += 1;
        }
        if ok {
            return true;
        }
        ok = true;
        let mut r2: usize = 0;
        while r2 < row
            invariant
                self.wf(),
                row < self.rows,
                col < self.cols,
                r2 <= row,
                h == self.heights()[row as int][col as int],
                ok == forall|k: int| 0 <= k < r2 ==> #[trigger] self.heights()[k][col as int] < h,
            decreases row - r2,
        {
            if self.map[r2][col] >= h {
                proof {
                    assert(self.heights()[r2 as int][col as int] >= h);
                }
                ok = false;
            }
            r2 += 1;
        }
        if ok {
            return true;
        }
        ok = true;
        let mut r3 = row + 1;
        while r3 < self.rows
            invariant
                self.wf(),
                row < self.rows,
                col < self.cols,
                row < r3 <= self.rows,
                h == self.heights()[row as int][col as int],
                ok == forall|k: int|
                    row < k < r3 ==> #[trigger] self.heights()[k][col as int] < h,
            decreases self.rows - r3,
        {
            if self.map[r3][col] >= h {
                proof {
                    assert(self.heights()[r3 as int][col as int] >= h);
                }
                ok = false;
            }
            r3 += 1;
        }
        ok
    }

    /// Mark every tree that can be seen from some edge.  Marks already set
    /// stay set.
    pub fn calculate_visible(&mut self)
        requires
            old(self).wf(),
        ensures
            final(self).wf(),
            final(self).map == old(self).map,
            final(self).rows == old(self).rows,
            final(self).cols == old(self).cols,
            forall|r: int, c: int|
                0 <= r < old(self).rows && 0 <= c < old(self).cols ==> (
                #[trigger] final(self).visible@[r]@[c]) == (old(self).visible@[r]@[c]
                    || visible_spec(old(self).heights(), r, c)),
    {
        let mut r: usize = 0;
        while r < self.rows
            invariant
                self.wf(),
                self.map == old(self).map,
                self.rows == old(self).rows,
                self.cols == old(self).cols,
                r <= self.rows,
                forall|r2: int, c2: int|
                    0 <= r2 < r && 0 <= c2 < self.cols ==> (#[trigger] self.visible@[r2]@[c2]) == (
                    old(self).visible@[r2]@[c2] || visible_spec(old(self).heights(), r2, c2)),
                forall|r2: int, c2: int|
                    r <= r2 < self.rows && 0 <= c2 < self.cols ==> (#[trigger] self.visible@[r2]@[
                    c2]) == old(self).visible@[r2]@[c2],
            decreases self.rows - r,
        {
            let mut c: usize = 0;
            while c < self.cols
                invariant
                    self.wf(),
                    self.map == old(self).map,
                    self.rows == old(self).rows,
                    self.cols == old(self).cols,
                    r < self.rows,
                    c <= self.cols,
                    forall|r2: int, c2: int|
                        0 <= r2 < r && 0 <= c2 < self.cols ==> (#[trigger] self.visible@[r2]@[c2])
                            == (old(self).visible@[r2]@[c2] || visible_spec(
                            old(self).heights(),
                            r2,
                            c2,
                        )),
                    forall|c2: int|
                        0 <= c2 < c ==> (#[trigger] self.visible@[r as int]@[c2]) == (old(
                            self,
                        ).visible@[r as int]@[c2] || visible_spec(old(self).heights(), r as int, c2)),
                    forall|c2: int|
                        c <= c2 < self.cols ==> (#[trigger] self.visible@[r as int]@[c2]) == old(
                            self,
                        ).visible@[r as int]@[c2],
                    forall|r2: int, c2: int|
                        r < r2 < self.rows && 0 <= c2 < self.cols ==> (#[trigger] self.visible@[
                        r2]@[c2]) == old(self).visible@[r2]@[c2],
                decreases self.cols - c,
            {
                let vis = self.is_visible(r, c);
                proof {
                    assert(self.heights() =~= old(self).heights());
                }
                if vis && !self.visible[r][c] {
                    self.visible[r][c] = true;
                }
                c += 1;
            }
            r += 1;
        }
    }

    /// How many trees are marked visible.
    pub fn count_visible(&self) -> (r: usize)
        requires
            self.wf(),
            self.rows * self.cols <= usize::MAX,
        ensures
            r == count_all(self.visible@.map_values(|row: Vec<bool>| row@), self.rows as int),
    {
        let ghost vis = self.visible@.map_values(|row: Vec<bool>| row@);
        let mut total: usize = 0;
        let mut r: usize = 0;
        while r < self.rows
            invariant
                self.wf(),
                vis == self.visible@.map_values(|row: Vec<bool>| row@),
                r <= self.rows,
                self.rows * self.cols <= usize::MAX,
                total == count_all(vis, r as int),
                total <= r * self.cols,
            decreases self.rows - r,
        {
            let mut c: usize = 0;
            let mut row_count: usize = 0;
            while c < self.cols
                invariant
                    self.wf(),
                    vis == self.visible@.map_values(|row: Vec<bool>| row@),
                    r < self.rows,
                    c <= self.cols,
                    row_count == count_row(vis[r as int], c as int),
                    row_count <= c,
                decreases self.cols - c,
            {
                if self.visible[r][c] {
                    row_count += 1;
                }
                c += 1;
            }
            proof {
                assert(vis[r as int].len() == self.cols);
                assert((r + 1) * self.cols == r * self.cols + self.cols) by (nonlinear_arith);
                assert(r * self.cols + self.cols <= self.rows * self.cols) by (nonlinear_arith)
                    requires
                        r + 1 <= self.rows,
                        self.cols >= 0,
                ;
            }
            total = total + row_count;
            r += 1;
        }
        total
    }

    /// The tree's scenic score: its four viewing distances multiplied.
    pub fn calculate_scenic_score(&self, row: usize, col: usize) -> (r: usize)
        requires
            self.wf(),
            row < self.rows,
            col < self.cols,
            self.rows * self.rows * self.cols * self.cols <= usize::MAX,
        ensures
            r == scenic_spec(self.heights(), row as int, col as int),
    {
        let ghost m = self.heights();
        let h = self.map[row][col];
        let mut up: usize = 1;
        while up < row && self.map[row - up][col] < h
            invariant
                self.wf(),
                row < self.rows,
                col < self.cols,
                1 <= up <= if row >= 1 {
                    row as int
                } else {
                    1
                },
                m == self.heights(),
                h == m[row as int][col as int],
                vd_up(m, row as int, col as int, 1) == vd_up(m, row as int, col as int, up as int),
            decreases row - up,
        {
            up += 1;
        }
        let d_up = if row == 0 {
            0
        } else {
            up
        };
        proof {
            assert(d_up == vd_up(m, row as int, col as int, 1));
        }
        let down_edge = self.rows - 1 - row;
        let mut down: usize = 1;
        while down < down_edge && self.map[row + down][col] < h
            invariant
                self.wf(),
                row < self.rows,
                col < self.cols,
                down_edge == self.rows - 1 - row,
                1 <= down <= if down_edge >= 1 {
                    down_edge as int
                } else {
                    1
                },
                m == self.heights(),
                h == m[row as int][col as int],
                vd_down(m, row as int, col as int, 1) == vd_down(
                    m,
                    row as int,
                    col as int,
                    down as int,
                ),
            decreases down_edge - down,
        {
            down += 1;
        }
        let d_down = if down_edge == 0 {
            0
        } else {
            down
        };
        proof {
            assert(m.len() == self.rows);
            assert(d_down == vd_down(m, row as int, col as int, 1));
        }
        let mut left: usize = 1;
        while left < col && self.map[row][col - left] < h
            invariant
                self.wf(),
                row < self.rows,
                col < self.cols,
                1 <= left <= if col >= 1 {
                    col as int
                } else {
                    1
                },
                m == self.heights(),
                h == m[row as int][col as int],
                vd_left(m, row as int, col as int, 1) == vd_left(
                    m,
                    row as int,
                    col as int,
                    left as int,
                ),
            decreases col - left,
        {
            left += 1;
        }
        let d_left = if col == 0 {
            0
        } else {
            left
        };
        proof {
            assert(d_left == vd_left(m, row as int, col as int, 1));
        }
        let right_edge = self.cols - 1 - col;
        let mut right: usize = 1;
        while right < right_edge && self.map[row][col + right] < h
            invariant
                self.wf(),
                row < self.rows,
                col < self.cols,
                right_edge == self.cols - 1 - col,
                1 <= right <= if right_edge >= 1 {
                    right_edge as int
                } else {
                    1
                },
                m == self.heights(),
                h == m[row as int][col as int],
                vd_right(m, row as int, col as int, 1) == vd_right(
                    m,
                    row as int,
                    col as int,
                    right as int,
                ),
            decreases right_edge - right,
        {
            right += 1;
        }
        let d_right = if right_edge == 0 {
            0
        } else {
            right
        };
        proof {
            assert(m[row as int].len() == self.cols);
            assert(d_right == vd_right(m, row as int, col as int, 1));
            lemma_vd_bounds(m, row as int, col as int);
            assert(d_up * d_down <= self.rows * self.rows) by (nonlinear_arith)
                requires
                    0 <= d_up <= self.rows,
                    0 <= d_down <= self.rows,
            ;
            assert((d_up * d_down) * d_left <= (self.rows * self.rows) * self.cols) by (
            nonlinear_arith)
                requires
                    0 <= d_up * d_down <= self.rows * self.rows,
                    0 <= d_left <= self.cols,
                    self.rows * self.rows >= 0,
            ;
            assert(((d_up * d_down) * d_left) * d_right <= ((self.rows * self.rows) * self.cols)
                * self.cols) by (nonlinear_arith)
                requires
                    0 <= (d_up * d_down) * d_left <= (self.rows * self.rows) * self.cols,
                    0 <= d_right <= self.cols,
                    (self.rows * self.rows) * self.cols >= 0,
            ;
            assert(self.rows * self.rows <= (self.rows * self.rows) * self.cols && (self.rows
                * self.rows) * self.cols <= ((self.rows * self.rows) * self.cols) * self.cols) by (
            nonlinear_arith)
                requires
                    self.rows >= 0,
                    self.cols >= 1,
            ;
            assert(self.rows * self.rows * self.cols * self.cols <= usize::MAX);
        }
        d_up * d_down * d_left * d_right
    }

    /// The largest scenic score of any tree.
    pub fn find_highest_scenic_score(&self) -> (r: usize)
        requires
            self.wf(),
            self.rows * self.rows * self.cols * self.cols <= usize::MAX,
        ensures
            forall|r2: int, c2: int|
                0 <= r2 < self.rows && 0 <= c2 < self.cols ==> #[trigger] scenic_spec(
                    self.heights(),
                    r2,
                    c2,
                ) <= r,
            exists|r2: int, c2: int|
                0 <= r2 < self.rows && 0 <= c2 < self.cols && #[trigger] scenic_spec(
                    self.heights(),
                    r2,
                    c2,
                ) == r,
    {
        let mut max_score = self.calculate_scenic_score(0, 0);
        let mut r: usize = 0;
        while r < self.rows
            invariant
                self.wf(),
                self.rows * self.rows * self.cols * self.cols <= usize::MAX,
                r <= self.rows,
                forall|r2: int, c2: int|
                    0 <= r2 < r && 0 <= c2 < self.cols ==> #[trigger] scenic_spec(
                        self.heights(),
                        r2,
                        c2,
                    ) <= max_score,
                exists|r2: int, c2: int|
                    0 <= r2 < self.rows && 0 <= c2 < self.cols && #[trigger] scenic_spec(
                        self.heights(),
                        r2,
                        c2,
                    ) == max_score,
            decreases self.rows - r,
        {
            let mut c: usize = 0;
            while c < self.cols
                invariant
                    self.wf(),
                    self.rows * self.rows * self.cols * self.cols <= usize::MAX,
                    r < self.rows,
                    c <= self.cols,
                    forall|r2: int, c2: int|
                        0 <= r2 < r && 0 <= c2 < self.cols ==> #[trigger] scenic_spec(
                            self.heights(),
                            r2,
                            c2,
                        ) <= max_score,
                    forall|c2: int|
                        0 <= c2 < c ==> #[trigger] scenic_spec(self.heights(), r as int, c2)
                            <= max_score,
                    exists|r2: int, c2: int|
                        0 <= r2 < self.rows && 0 <= c2 < self.cols && #[trigger] scenic_spec(
                            self.heights(),
                            r2,
                            c2,
                        ) == max_score,
                decreases self.cols - c,
            {
                let s = self.calculate_scenic_score(r, c);
                if s > max_score {
                    max_score = s;
                }
                c += 1;
            }
            r += 1;
        }
        max_score
    }
}

/// The first line produced from a partial line `cur` and further bytes
/// starts with `cur`.
proof fn lemma_split_first_ge(b: Seq<u8>, cur: Seq<u8>)
    requires
        cur.len() > 0 || (b.len() > 0 && b[0] != ('\r' as u8)),
    ensures
        split_lines(b, cur).len() > 0,
        split_lines(b, cur)[0].len() >= cur.len(),
        split_lines(b, cur)[0].take(cur.len() as int) == cur,
    decreases b.len(),
{
    if b.len() == 0 {
        assert(split_lines(b, cur) == seq![cur]);
        assert(cur.take(cur.len() as int) =~= cur);
    } else if b[0] == ('\n' as u8) {
        assert(split_lines(b, cur)[0] == cur);
        assert(cur.take(cur.len() as int) =~= cur);
    } else if b[0] == ('\r' as u8) {
        lemma_split_first_ge(b.drop_first(), cur);
    } else {
        lemma_split_first_ge(b.drop_first(), cur.push(b[0]));
        let first = split_lines(b, cur)[0];
        assert(first.take(cur.push(b[0]).len() as int) == cur.push(b[0]));
        assert(first.take(cur.len() as int) =~= cur) by {
            assert(forall|k: int|
                0 <= k < cur.len() ==> first.take(cur.push(b[0]).len() as int)[k] == #[trigger] first[k]);
            assert(forall|k: int| 0 <= k < cur.len() ==> cur.push(b[0])[k] == #[trigger] cur[k]);
        }
    }
}

/// Viewing distances stay within the grid's sides.
proof fn lemma_vd_bounds(m: Seq<Seq<u8>>, r: int, c: int)
    requires
        0 <= r < m.len(),
        0 <= c < m[r].len(),
    ensures
        0 <= vd_up(m, r, c, 1) <= m.len(),
        0 <= vd_down(m, r, c, 1) <= m.len(),
        0 <= vd_left(m, r, c, 1) <= m[r].len(),
        0 <= vd_right(m, r, c, 1) <= m[r].len(),
{
    lemma_vd_up_bound(m, r, c, 1);
    lemma_vd_down_bound(m, r, c, 1);
    lemma_vd_left_bound(m, r, c, 1);
    lemma_vd_right_bound(m, r, c, 1);
}

proof fn lemma_vd_up_bound(m: Seq<Seq<u8>>, r: int, c: int, d: int)
    requires
        0 <= r < m.len(),
        1 <= d,
    ensures
        0 <= vd_up(m, r, c, d) <= m.len(),
    decreases r - d,
{
    if !(d >= r) && !(m[r - d][c] >= m[r][c]) {
        lemma_vd_up_bound(m, r, c, d + 1);
    }
}

proof fn lemma_vd_down_bound(m: Seq<Seq<u8>>, r: int, c: int, d: int)
    requires
        0 <= r < m.len(),
        1 <= d,
    ensures
        0 <= vd_down(m, r, c, d) <= m.len(),
    decreases m.len() - r - d,
{
    if !(d >= m.len() - 1 - r) && !(m[r + d][c] >= m[r][c]) {
        lemma_vd_down_bound(m, r, c, d + 1);
    }
}

proof fn lemma_vd_left_bound(m: Seq<Seq<u8>>, r: int, c: int, d: int)
    requires
        0 <= c < m[r].len(),
        1 <= d,
    ensures
        0 <= vd_left(m, r, c, d) <= m[r].len(),
    decreases c - d,
{
    if !(d >= c) && !(m[r][c - d] >= m[r][c]) {
        lemma_vd_left_bound(m, r, c, d + 1);
    }
}

proof fn lemma_vd_right_bound(m: Seq<Seq<u8>>, r: int, c: int, d: int)
    requires
        0 <= c < m[r].len(),
        1 <= d,
    ensures
        0 <= vd_right(m, r, c, d) <= m[r].len(),
    decreases m[r].len() - c - d,
{
    if !(d >= m[r].len() - 1 - c) && !(m[r][c + d] >= m[r][c]) {
        lemma_vd_right_bound(m, r, c, d + 1);
    }
}

} // verus!
