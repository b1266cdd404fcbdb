//! Parsing falling-piece shapes.
//!
//! A piece is drawn as lines of `#` and `.`; the drawing's bottom line is
//! the shape's first row, so the rows are stored bottom-up.

use vstd::prelude::*;
use vstd::string::StringSliceAdditionalSpecFns;

use crate::cpu::split_lines;

verus! {

/// A piece: its cells bottom-up, and its measured width and height.
#[derive(Debug)]
pub struct Piece {
    pub shape: Vec<Vec<bool>>,
    pub width: usize,
    pub height: usize,
}

impl Piece {
    /// Parse a drawing into a piece: one row per line, bottom line first,
    /// `#` a filled cell.  The drawing must be non-empty and hold only
    /// those two marks; the width is the bottom line's.
    pub fn parse(lines: &str) -> (p: Piece)
        requires
            split_lines(lines.spec_bytes(), Seq::empty()).len() > 0,
            forall|i: int, j: int|
                0 <= i < split_lines(lines.spec_bytes(), Seq::empty()).len() && 0 <= j
                    < split_lines(lines.spec_bytes(), Seq::empty())[i].len() ==> (
                #[trigger] split_lines(lines.spec_bytes(), Seq::empty())[i][j]) == ('#' as u8) || (
                split_lines(lines.spec_bytes(), Seq::empty())[i][j]) == ('.' as u8),
        ensures
            p.height == split_lines(lines.spec_bytes(), Seq::empty()).len(),
            p.shape@.len() == p.height,
            p.width == split_lines(lines.spec_bytes(), Seq::empty()).last().len(),
            forall|i: int, j: int|
                #![trigger p.shape@[i]@[j]]
                0 <= i < p.shape@.len() && 0 <= j < p.shape@[i]@.len() ==> p.shape@[i]@[j] == (
                split_lines(lines.spec_bytes(), Seq::empty())[p.shape@.len() - 1 - i][j] == (
                '#' as u8)),
            forall|i: int|
                0 <= i < p.shape@.len() ==> (#[trigger] p.shape@[i])@.len() == split_lines(
                    lines.spec_bytes(),
                    Seq::empty(),
                )[p.shape@.len() - 1 - i].len(),
    {
        let b = lines.as_bytes();
        let ghost whole = split_lines(b@, Seq::<u8>::empty());
        let mut rows: Vec<Vec<bool>> = Vec::new();
        let mut cur: Vec<bool> = Vec::new();
        let ghost mut done: Seq<Seq<u8>> = Seq::empty();
        let ghost mut curb: Seq<u8> = Seq::empty();
        let mut i: usize = 0;
        proof {
            assert(b@.skip(0) =~= b@);
            assert(whole =~= done + split_lines(b@.skip(0), curb));
        }
        while i < b.len()
            invariant
                i <= b@.len(),
                b@ == lines.spec_bytes(),
                whole == split_lines(lines.spec_bytes(), Seq::empty()),
                whole == done + split_lines(b@.skip(i as int), curb),
                rows@.len() == done.len(),
                forall|k: int|
                    0 <= k < done.len() ==> (#[trigger] rows@[k])@.len() == done[k].len(),
                forall|k: int, j: int|
                    #![trigger rows@[k]@[j]]
                    0 <= k < done.len() && 0 <= j < done[k].len() ==> rows@[k]@[j] == (done[k][j]
                        == ('#' as u8)),
                cur@.len() == curb.len(),
                forall|j: int| 0 <= j < curb.len() ==> (#[trigger] cur@[j]) == (curb[j] == ('#' as u8)),
            decreases b@.len() - i,
        {
            let c = b[i];
            proof {
                assert(b@.skip(i as int)[0] == b@[i as int]);
                assert(b@.skip(i as int).drop_first() =~= b@.skip(i + 1));
            }
            if c == ('\n' as u8) {
                proof {
                    assert(split_lines(b@.skip(i as int), curb) == seq![curb] + split_lines(
                        b@.skip(i + 1),
                        Seq::<u8>::empty(),
                    ));
                }
                rows.push(cur);
                cur = Vec::new();
                proof {
                    done = done.push(curb);
                    curb = Seq::empty();
                    assert(whole =~= done + split_lines(b@.skip(i + 1), curb));
                }
            } else if c != ('\r' as u8) {
                cur.push(c == ('#' as u8));
                proof {
                    assert(split_lines(b@.skip(i as int), curb) == split_lines(
                        b@.skip(i + 1),
                        curb.push(c),
                    ));
                    curb = curb.push(c);
                }
            } else {
                proof {
                    assert(split_lines(b@.skip(i as int), curb) == split_lines(b@.skip(i + 1), curb));
                }
            }
            i += 1;
        }
        proof {
            assert(b@.skip(b@.len() as int) =~= Seq::<u8>::empty());
        }
        if cur.len() > 0 {
            proof {
                assert(split_lines(b@.skip(i as int), curb) == seq![curb]);
            }
            rows.push(cur);
            proof {
                done = done.push(curb);
                assert(whole =~= done);
            }
        } else {
            proof {
                assert(curb.len() == 0);
                assert(split_lines(b@.skip(i as int), curb) =~= Seq::<Seq<u8>>::empty());
                assert(whole =~= done);
            }
        }
        // bottom line first: reverse the drawn order
        let n = rows.len();
        let mut shape: Vec<Vec<bool>> = Vec::new();
        let mut k: usize = 0;
        while k < n
            invariant
                k <= n == rows@.len(),
                whole.len() == n,
                shape@.len() == k,
                forall|t: int|
                    0 <= t < rows@.len() ==> (#[trigger] rows@[t])@.len() == whole[t].len(),
                forall|t: int, j: int|
                    #![trigger rows@[t]@[j]]
                    0 <= t < whole.len() && 0 <= j < whole[t].len() ==> rows@[t]@[j] == (whole[t][j]
                        == ('#' as u8)),
                forall|t: int|
                    0 <= t < k ==> (#[trigger] shape@[t])@.len() == whole[n - 1 - t].len(),
                forall|t: int, j: int|
                    #![trigger shape@[t]@[j]]
                    0 <= t < k && 0 <= j < whole[n - 1 - t].len() ==> shape@[t]@[j] == (whole[n - 1
                        - t][j] == ('#' as u8)),
            decreases n - k,
        {
            let mut row_copy: Vec<bool> = Vec::new();
            let src = n - 1 - k;
            let mut j: usize = 0;
            let w = rows[src].len();
            while j < w
                invariant
                    j <= w,
                    src < rows@.len(),
                    w == rows@[src as int]@.len(),
                    row_copy@.len() == j,
                    forall|t: int|
                        0 <= t < j ==> (#[trigger] row_copy@[t]) == rows@[src as int]@[t],
                decreases w - j,
            {
                row_copy.push(rows[src][j]);
                j += 1;
            }
            shape.push(row_copy);
            k += 1;
        }
        let width = shape[0].len();
        let height = n;
        proof {
            assert(shape@[0]@.len() == whole[n - 1].len());
            assert(whole.last() == whole[n - 1]);
        }
        Piece { shape, width, height }
    }
}

} // verus!
