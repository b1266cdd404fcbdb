//! Falling sand over rock paths.
//!
//! The input draws rock as polylines of grid points; sand grains drop one
//! at a time from a fixed spawn, falling straight down, then diagonally
//! left, then diagonally right, until they rest, fall past the lowest rock
//! into the abyss, or pile up on an optional floor.

use vstd::prelude::*;
use vstd::string::StringSliceAdditionalSpecFns;

use crate::cpu::{int_val, split_lines, valid_int};
use crate::sensors::abs_i;

use std::collections::HashMap;

verus! {

/// A grid position.
#[derive(Debug, PartialEq, Eq, Structural, Clone, Copy)]
pub struct Pos {
    pub x: isize,
    pub y: isize,
}

/// The position a point text denotes, split at its comma.
pub open spec fn pos_split(b: Seq<u8>, k: int) -> bool {
    &&& 0 < k < b.len()
    &&& b[k] == (',' as u8)
    &&& forall|t: int| 0 <= t < k ==> b[t] != (',' as u8)
    &&& valid_int(b.subrange(0, k))
    &&& valid_int(b.subrange(k + 1, b.len() as int))
}

impl Pos {
    /// Parse a point of the form `498,4`.
    pub fn parse(s: &str) -> (r: Pos)
        requires
            exists|k: int| pos_split(s.spec_bytes(), k),
        ensures
            forall|k: int|
                pos_split(s.spec_bytes(), k) ==> r.x as int == int_val(
                    s.spec_bytes().subrange(0, k),
                ) && r.y as int == int_val(
                    s.spec_bytes().subrange(k + 1, s.spec_bytes().len() as int),
                ),
    {
        let b = s.as_bytes();
        let v = parse_pos_bytes(b, 0, b.len());
        proof {
            assert(b@.subrange(0, b@.len() as int) =~= b@);
            assert forall|k: int| pos_split(s.spec_bytes(), k) implies r_matches(b@, k, v) by {
                assert(pos_split(b@.subrange(0, b@.len() as int), k));
            }
        }
        v
    }
}

/// The parsed point matches the split at `k`.
pub open spec fn r_matches(b: Seq<u8>, k: int, r: Pos) -> bool {
    r.x as int == int_val(b.subrange(0, k)) && r.y as int == int_val(
        b.subrange(k + 1, b.len() as int),
    )
}

/// Parse a point within a byte range.
fn parse_pos_bytes(b: &[u8], from: usize, to: usize) -> (r: Pos)
    requires
        from <= to <= b@.len(),
        exists|k: int| pos_split(b@.subrange(from as int, to as int), k),
    ensures
        forall|k: int| pos_split(b@.subrange(from as int, to as int), k) ==> r_matches(
            b@.subrange(from as int, to as int),
            k,
            r,
        ),
{
    let ghost part = b@.subrange(from as int, to as int);
    let ghost k0 = choose|k: int| pos_split(part, k);
    let mut j = from;
    while j < to && b[j] != (',' as u8)
        invariant
            from <= j <= to <= b@.len(),
            part == b@.subrange(from as int, to as int),
            pos_split(part, k0),
            forall|t: int| 0 <= t < j - from ==> part[t] != (',' as u8),
        decreases to - j,
    {
        proof {
            assert(part[j - from] == b@[j as int]);
        }
        j += 1;
    }
    proof {
        assert(j < to) by {
            if j == to {
                assert(part[k0] == (',' as u8));
            }
        }
        assert(part[j - from] == b@[j as int]);
        assert(j - from == k0) by {
            if j - from < k0 {
                assert(part[j - from] != (',' as u8));
                assert(false) by {
                    assert(part[j - from] == (',' as u8));
                }
            }
            if j - from > k0 {
                assert(part[k0] != (',' as u8));
            }
        }
        assert(part.subrange(0, k0) =~= b@.subrange(from as int, j as int));
        assert(part.subrange(k0 + 1, part.len() as int) =~= b@.subrange(j + 1, to as int));
    }
    let x = parse_int_range(b, from, j);
    let y = parse_int_range(b, j + 1, to);
    proof {
        assert forall|k: int| pos_split(part, k) implies k == k0 by {
            if k < k0 {
                assert(part[k] == (',' as u8));
            }
            if k > k0 {
                assert(part[k0] != (',' as u8));
            }
        }
    }
    Pos { x, y }
}

/// The signed number between `from` and `to`.
fn parse_int_range(b: &[u8], from: usize, to: usize) -> (r: isize)
    requires
        from <= to <= b@.len(),
        valid_int(b@.subrange(from as int, to as int)),
    ensures
        r as int == int_val(b@.subrange(from as int, to as int)),
{
    let mut part: Vec<u8> = Vec::new();
    let mut t = from;
    while t < to
        invariant
            from <= t <= to <= b@.len(),
            part@ =~= b@.subrange(from as int, t as int),
        decreases to - t,
    {
        part.push(b[t]);
        proof {
            assert(part@ =~= b@.subrange(from as int, t + 1));
        }
        t += 1;
    }
    proof {
        assert(part@ =~= b@.subrange(from as int, to as int));
    }
    let v = crate::cpu::parse_plain_int(part.as_slice());
    proof {
        let bb = b@.subrange(from as int, to as int);
        if bb.len() > 0 && bb[0] == ('-' as u8) {
            assert(crate::assignments::is_digits(bb.skip(1)));
            crate::assignments::lemma_digits_val_nonneg(bb.skip(1));
            assert(int_val(bb) <= 0);
        } else {
            crate::assignments::lemma_digits_val_nonneg(bb);
            assert(int_val(bb) >= 0);
        }
        assert(v as int >= isize::MIN && v as int <= isize::MAX);
    }
    v as isize
}

/// What fills a cell.
#[derive(Debug, PartialEq, Eq, Structural, Clone, Copy)]
pub enum What {
    Sand,
    Rock,
}

/// A cell key: both coordinates packed into one integer.
pub open spec fn cell_key(p: Pos) -> u128 {
    ((p.x as u64 as u128) << 64) | (p.y as u64 as u128)
}

/// Distinct cells pack to distinct keys.
pub proof fn lemma_cell_key_injective(a: Pos, b: Pos)
    requires
        cell_key(a) == cell_key(b),
    ensures
        a == b,
{
    let ax = a.x;
    let ay = a.y;
    let bx = b.x;
    let by = b.y;
    assert((((ax as u64 as u128) << 64) | (ay as u64 as u128)) == (((bx as u64 as u128) << 64) | (
    by as u64 as u128)) ==> ax == bx && ay == by) by (bit_vector);
}

/// The scan of rock and resting sand.
#[derive(Debug)]
pub struct Cave {
    pub loc: HashMap<u128, What>,
    pub largest_y: isize,
    pub abyss_y: isize,
    pub floor_y: isize,
}

impl Cave {
    /// Whether a cell is filled by rock or sand.
    pub open spec fn occupied(&self, p: Pos) -> bool {
        self.loc@.contains_key(cell_key(p))
    }

    /// Whether a cell is filled, computed.
    pub fn is_occupied(&self, p: Pos) -> (r: bool)
        ensures
            r == self.occupied(p),
    {
        let key = (((p.x as u64) as u128) << 64) | ((p.y as u64) as u128);
        proof {
            assert(key == cell_key(p));
        }
        self.loc.contains_key(&key)
    }

    /// Fill a cell.
    fn fill(&mut self, p: Pos, what: What)
        ensures
            final(self).loc@ == old(self).loc@.insert(cell_key(p), what),
            final(self).largest_y == old(self).largest_y,
            final(self).abyss_y == old(self).abyss_y,
            final(self).floor_y == old(self).floor_y,
    {
        let key = (((p.x as u64) as u128) << 64) | ((p.y as u64) as u128);
        proof {
            assert(key == cell_key(p));
        }
        self.loc.insert(key, what);
    }
}

/// The straight run of cells from one point toward the next, endpoint
/// excluded; each step moves by the coordinate signs of the difference.
pub open spec fn seg_points(from: Pos, to: Pos) -> Seq<Pos>
    decreases abs_i(to.x - from.x) + abs_i(to.y - from.y),
{
    if from == to {
        Seq::empty()
    } else {
        let dx: int = if to.x > from.x {
            1
        } else if to.x < from.x {
            -1
        } else {
            0
        };
        let dy: int = if to.y > from.y {
            1
        } else if to.y < from.y {
            -1
        } else {
            0
        };
        seq![from] + seg_points(
            Pos { x: (from.x + dx) as isize, y: (from.y + dy) as isize },
            to,
        )
    }
}

/// The points of a whole path: every segment's run, and the last point.
pub open spec fn path_points(pts: Seq<Pos>, i: int) -> Seq<Pos>
    decreases pts.len() - i,
{
    if i < 0 || i + 1 >= pts.len() {
        Seq::empty()
    } else {
        seg_points(pts[i], pts[i + 1]) + path_points(pts, i + 1)
    }
}

/// Segment endpoints that the sign-stepping walk reaches: aligned along an
/// axis or an exact diagonal, with coordinates clear of the machine edge.
pub open spec fn aligned(a: Pos, b: Pos) -> bool {
    &&& (a.x == b.x || a.y == b.y || abs_i(b.x - a.x) == abs_i(b.y - a.y))
    &&& isize::MIN < a.x - b.x <= isize::MAX
    &&& isize::MIN < a.y - b.y <= isize::MAX
    &&& isize::MIN < b.x - a.x <= isize::MAX
    &&& isize::MIN < b.y - a.y <= isize::MAX
}

/// One polyline of rock: the cells its runs cover.
#[verifier::rlimit(80)]
pub fn parse_rock_points(pts: &Vec<Pos>) -> (r: Vec<Pos>)
    requires
        forall|i: int| 0 <= i + 1 < pts@.len() ==> aligned(#[trigger] pts@[i], pts@[i + 1]),
    ensures
        r@ == path_points(pts@, 0) + if pts@.len() > 0 {
            seq![pts@[pts@.len() - 1]]
        } else {
            Seq::<Pos>::empty()
        },
{
    let mut out: Vec<Pos> = Vec::new();
    if pts.len() == 0 {
        proof {
            assert(out@ =~= path_points(pts@, 0));
            assert(out@ =~= path_points(pts@, 0) + Seq::<Pos>::empty());
        }
        return out;
    }
    let mut i: usize = 0;
    while i + 1 < pts.len()
        invariant
            pts@.len() > 0,
            pts@.len() <= usize::MAX,
            i < pts@.len(),
            forall|i2: int| 0 <= i2 + 1 < pts@.len() ==> aligned(#[trigger] pts@[i2], pts@[i2 + 1]),
            path_points(pts@, 0) == out@ + path_points(pts@, i as int),
        decreases pts@.len() - i,
    {
        let from = pts[i];
        let to = pts[i + 1];
        let ghost seg_start = out@;
        let mut cur = from;
        while cur != to
            invariant
                aligned(cur, to),
                out@.len() >= seg_start.len(),
                out@.take(seg_start.len() as int) == seg_start,
                seg_points(from, to) == out@.skip(seg_start.len() as int) + seg_points(cur, to),
            decreases abs_i(to.x - cur.x) + abs_i(to.y - cur.y),
        {
            let dx: isize = if to.x > cur.x {
                1
            } else if to.x < cur.x {
                -1
            } else {
                0
            };
            let dy: isize = if to.y > cur.y {
                1
            } else if to.y < cur.y {
                -1
            } else {
                0
            };
            let ghost out_before = out@;
            out.push(cur);
            let next = Pos { x: cur.x + dx, y: cur.y + dy };
            proof {
                assert(seg_points(cur, to) == seq![cur] + seg_points(next, to));
                assert(out@.skip(seg_start.len() as int) =~= out_before.skip(
                    seg_start.len() as int,
                ).push(cur));
                assert(out@.take(seg_start.len() as int) =~= seg_start);
                assert(seg_points(from, to) =~= out@.skip(seg_start.len() as int) + seg_points(
                    next,
                    to,
                ));
                assert(aligned(next, to));
            }
            cur = next;
        }
        proof {
            assert(seg_points(cur, to) =~= Seq::<Pos>::empty());
            assert(seg_points(from, to) =~= out@.skip(seg_start.len() as int));
            assert(out@ =~= seg_start + seg_points(from, to));
            assert(path_points(pts@, i as int) == seg_points(pts@[i as int], pts@[i + 1])
                + path_points(pts@, i + 1));
        }
        i += 1;
    }
    out.push(pts[pts.len() - 1]);
    proof {
        assert(path_points(pts@, pts@.len() - 1) =~= Seq::<Pos>::empty());
        assert(out@ =~= path_points(pts@, 0) + seq![pts@[pts@.len() - 1]]);
    }
    out
}

/// The bytes of the separator between points.
pub open spec fn arrow() -> Seq<u8> {
    seq![(' ' as u8), ('-' as u8), ('>' as u8), (' ' as u8)]
}

/// The point texts of a line, split on the arrow separator; `cur` is the
/// partial text already read.
pub open spec fn split_arrows(b: Seq<u8>, cur: Seq<u8>) -> Seq<Seq<u8>>
    decreases b.len(),
{
    if b.len() == 0 {
        seq![cur]
    } else if b.len() >= 4 && b.take(4) == arrow() {
        seq![cur] + split_arrows(b.skip(4), Seq::empty())
    } else {
        split_arrows(b.drop_first(), cur.push(b[0]))
    }
}

/// The point a point text denotes.
pub open spec fn point_of(b: Seq<u8>) -> Pos {
    let k = choose|k: int| pos_split(b, k);
    Pos {
        x: int_val(b.subrange(0, k)) as isize,
        y: int_val(b.subrange(k + 1, b.len() as int)) as isize,
    }
}

/// The points a line of point texts denotes.
pub open spec fn line_points(b: Seq<u8>) -> Seq<Pos> {
    split_arrows(b, Seq::empty()).map_values(|t: Seq<u8>| point_of(t))
}

/// A well-formed rock line: every point text parses, and consecutive
/// points line up for the walk.
pub open spec fn rock_line_ok(b: Seq<u8>) -> bool {
    &&& forall|i: int|
        0 <= i < split_arrows(b, Seq::empty()).len() ==> exists|k: int|
            pos_split(#[trigger] split_arrows(b, Seq::empty())[i], k)
    &&& forall|i: int|
        0 <= i + 1 < line_points(b).len() ==> aligned(#[trigger] line_points(b)[i], line_points(b)[i + 1])
}

impl Cave {
    /// The rock cells one input line covers.
    pub fn parse_input_line(line: &str) -> (r: Vec<Pos>)
        requires
            rock_line_ok(line.spec_bytes()),
        ensures
            r@ == rocks_of(line.spec_bytes()),
    {
        let b = line.as_bytes();
        let mut v: Vec<u8> = Vec::new();
        let mut i: usize = 0;
        while i < b.len()
            invariant
                i <= b@.len(),
                b@ == line.spec_bytes(),
                v@ =~= b@.take(i as int),
            decreases b@.len() - i,
        {
            v.push(b[i]);
            proof {
                assert(v@ =~= b@.take(i + 1));
            }
            i += 1;
        }
        proof {
            assert(v@ =~= b@);
        }
        rock_cells(&v)
    }
}

/// The rock cells a line covers.
pub open spec fn rocks_of(b: Seq<u8>) -> Seq<Pos> {
    path_points(line_points(b), 0) + seq![line_points(b).last()]
}

/// Some line's rock covers the cell.
pub open spec fn rock_in_lines(lines: Seq<Seq<u8>>, p: Pos) -> bool {
    exists|li: int, pi: int|
        #![trigger rocks_of(lines[li])[pi]]
        0 <= li < lines.len() && 0 <= pi < rocks_of(lines[li]).len() && rocks_of(lines[li])[pi]
            == p
}

impl Cave {
    /// Parse the scan: one rock polyline per line.  The scan must hold at
    /// least one line.  The abyss and floor start unset, at the far edge.
    pub fn parse(input: &str) -> (c: Cave)
        requires
            split_lines(input.spec_bytes(), Seq::empty()).len() > 0,
            forall|i: int|
                0 <= i < split_lines(input.spec_bytes(), Seq::empty()).len() ==> rock_line_ok(
                    #[trigger] split_lines(input.spec_bytes(), Seq::empty())[i],
                ),
        ensures
            c.abyss_y == isize::MAX,
            c.floor_y == isize::MAX,
            forall|p: Pos|
                c.loc@.contains_key(#[trigger] cell_key(p)) <==> rock_in_lines(
                    split_lines(input.spec_bytes(), Seq::empty()),
                    p,
                ),
            forall|p: Pos|
                c.loc@.contains_key(#[trigger] cell_key(p)) ==> c.loc@[cell_key(p)] == What::Rock,
            exists|p: Pos|
                rock_in_lines(split_lines(input.spec_bytes(), Seq::empty()), p) && p.y
                    == c.largest_y,
            forall|p: Pos|
                #![trigger p.y]
                rock_in_lines(split_lines(input.spec_bytes(), Seq::empty()), p) ==> p.y
                    <= c.largest_y,
    {
        let b = input.as_bytes();
        let ghost whole = split_lines(b@, Seq::<u8>::empty());
        let mut loc: HashMap<u128, What> = HashMap::new();
        let mut largest_y: isize = isize::MIN;
        let mut any = false;
        let ghost mut wit = Pos { x: 0, y: 0 };
        let mut cur: Vec<u8> = Vec::new();
        let ghost mut done: Seq<Seq<u8>> = Seq::empty();
        let mut i: usize = 0;
        proof {
            assert(b@.skip(0) =~= b@);
            assert(whole =~= done + split_lines(b@.skip(0), cur@));
        }
        while i < b.len()
            invariant
                i <= b@.len(),
                b@ == input.spec_bytes(),
                whole == split_lines(input.spec_bytes(), Seq::empty()),
                whole == done + split_lines(b@.skip(i as int), cur@),
                forall|i2: int|
                    0 <= i2 < split_lines(input.spec_bytes(), Seq::empty()).len()
                        ==> rock_line_ok(
                        #[trigger] split_lines(input.spec_bytes(), Seq::empty())[i2],
                    ),
                forall|p: Pos|
                    loc@.contains_key(#[trigger] cell_key(p)) <==> rock_in_lines(done, p),
                forall|p: Pos|
                    loc@.contains_key(#[trigger] cell_key(p)) ==> loc@[cell_key(p)] == What::Rock,
                any == (done.len() > 0),
                any ==> rock_in_lines(done, wit) && wit.y == largest_y,
                forall|p: Pos| #![trigger p.y] rock_in_lines(done, p) ==> p.y <= largest_y,
            decreases b@.len() - i,
        {
            let c = b[i];
            proof {
                assert(b@.skip(i as int)[0] == b@[i as int]);
                assert(b@.skip(i as int).drop_first() =~= b@.skip(i + 1));
            }
            if c == ('\n' as u8) {
                proof {
                    assert(split_lines(b@.skip(i as int), cur@) == seq![cur@] + split_lines(
                        b@.skip(i + 1),
                        Seq::<u8>::empty(),
                    ));
                    assert(whole[done.len() as int] == cur@);
                    assert(rock_line_ok(cur@));
                }
                let cells = rock_cells(&cur);
                let nw = add_rocks(&mut loc, &cells, &mut largest_y, any, Ghost(done), Ghost(cur@), Ghost(wit));
                proof {
                    wit = nw@;
                }
                any = true;
                proof {
                    done = done.push(cur@);
                    assert(whole =~= done + split_lines(b@.skip(i + 1), Seq::<u8>::empty()));
                }
                cur = Vec::new();
            } else if c != ('\r' as u8) {
                let ghost oldcur = cur@;
                cur.push(c);
                proof {
                    assert(split_lines(b@.skip(i as int), oldcur) == split_lines(
                        b@.skip(i + 1),
                        oldcur.push(c),
                    ));
                }
            } else {
                proof {
                    assert(split_lines(b@.skip(i as int), cur@) == split_lines(b@.skip(i + 1), cur@));
                }
            }
            i += 1;
        }
        proof {
            assert(b@.skip(b@.len() as int) =~= Seq::<u8>::empty());
        }
        if cur.len() > 0 {
            proof {
                assert(split_lines(b@.skip(i as int), cur@) == seq![cur@]);
                assert(whole[done.len() as int] == cur@);
                assert(rock_line_ok(cur@));
            }
            let cells = rock_cells(&cur);
            let nw = add_rocks(&mut loc, &cells, &mut largest_y, any, Ghost(done), Ghost(cur@), Ghost(wit));
            proof {
                wit = nw@;
            }
            any = true;
            proof {
                done = done.push(cur@);
                assert(whole =~= done);
            }
        } else {
            proof {
                assert(split_lines(b@.skip(i as int), cur@) =~= Seq::<Seq<u8>>::empty());
                assert(whole =~= done);
            }
        }
        proof {
            assert(any);
            assert(rock_in_lines(whole, wit) && wit.y == largest_y);
        }
        Cave { loc, largest_y, abyss_y: isize::MAX, floor_y: isize::MAX }
    }
}

/// Insert one line's rock cells and raise the running largest depth.
fn add_rocks(
    loc: &mut HashMap<u128, What>,
    cells: &Vec<Pos>,
    largest_y: &mut isize,
    any: bool,
    done: Ghost<Seq<Seq<u8>>>,
    line: Ghost<Seq<u8>>,
    wit: Ghost<Pos>,
) -> (nw: Ghost<Pos>)
    requires
        cells@ == rocks_of(line@),
        forall|p: Pos|
            old(loc)@.contains_key(#[trigger] cell_key(p)) <==> rock_in_lines(done@, p),
        forall|p: Pos|
            old(loc)@.contains_key(#[trigger] cell_key(p)) ==> old(loc)@[cell_key(p)]
                == What::Rock,
        any == (done@.len() > 0),
        any ==> rock_in_lines(done@, wit@) && wit@.y == *old(largest_y),
        forall|p: Pos| #![trigger p.y] rock_in_lines(done@, p) ==> p.y <= *old(largest_y),
        rock_line_ok(line@),
    ensures
        forall|p: Pos|
            final(loc)@.contains_key(#[trigger] cell_key(p)) <==> rock_in_lines(
                done@.push(line@),
                p,
            ),
        forall|p: Pos|
            final(loc)@.contains_key(#[trigger] cell_key(p)) ==> final(loc)@[cell_key(p)]
                == What::Rock,
        rock_in_lines(done@.push(line@), nw@) && nw@.y == *final(largest_y),
        forall|p: Pos| #![trigger p.y] rock_in_lines(done@.push(line@), p) ==> p.y <= *final(largest_y),
{
    proof {
        assert(cells@.len() > 0);
        assert forall|p: Pos| rock_in_lines(done@.push(line@), p) <==> (rock_in_lines(done@, p)
            || cells@.contains(p)) by {
            if rock_in_lines(done@.push(line@), p) {
                let (li, pi): (int, int) = choose|li: int, pi: int|
                    #![trigger rocks_of(done@.push(line@)[li])[pi]]
                    0 <= li < done@.push(line@).len() && 0 <= pi < rocks_of(
                        done@.push(line@)[li],
                    ).len() && rocks_of(done@.push(line@)[li])[pi] == p;
                if li < done@.len() {
                    assert(done@.push(line@)[li] == done@[li]);
                    assert(rock_in_lines(done@, p));
                } else {
                    assert(done@.push(line@)[li] == line@);
                    assert(cells@[pi] == p);
                    assert(cells@.contains(p));
                }
            }
            if rock_in_lines(done@, p) {
                let (li, pi): (int, int) = choose|li: int, pi: int|
                    #![trigger rocks_of(done@[li])[pi]]
                    0 <= li < done@.len() && 0 <= pi < rocks_of(done@[li]).len() && rocks_of(
                        done@[li],
                    )[pi] == p;
                assert(done@.push(line@)[li] == done@[li]);
                assert(rock_in_lines(done@.push(line@), p));
            }
            if cells@.contains(p) {
                let pi = choose|pi: int| 0 <= pi < cells@.len() && cells@[pi] == p;
                assert(done@.push(line@)[done@.len() as int] == line@);
                assert(rock_in_lines(done@.push(line@), p));
            }
        }
    }
    let mut ci: usize = 0;
    let mut have = any;
    let ghost mut w = wit@;
    while ci < cells.len()
        invariant
            ci <= cells@.len(),
            forall|p: Pos|
                loc@.contains_key(#[trigger] cell_key(p)) <==> (rock_in_lines(done@, p)
                    || cells@.take(ci as int).contains(p)),
            forall|p: Pos|
                loc@.contains_key(#[trigger] cell_key(p)) ==> loc@[cell_key(p)] == What::Rock,
            have == (any || ci > 0),
            have ==> (rock_in_lines(done@, w) || cells@.take(ci as int).contains(w)) && w.y
                == *largest_y,
            forall|p: Pos|
                #![trigger p.y]
                (rock_in_lines(done@, p) || cells@.take(ci as int).contains(p)) ==> p.y
                    <= *largest_y,
            any == (done@.len() > 0),
        decreases cells@.len() - ci,
    {
        let p = cells[ci];
        let key = (((p.x as u64) as u128) << 64) | ((p.y as u64) as u128);
        proof {
            assert(key == cell_key(p));
        }
        let ghost locprev = loc@;
        loc.insert(key, What::Rock);
        if !have || p.y > *largest_y {
            *largest_y = p.y;
        }
        have = true;
        proof {
            assert(cells@.take(ci + 1) =~= cells@.take(ci as int).push(p));
            assert forall|q: Pos|
                loc@.contains_key(#[trigger] cell_key(q)) <==> (rock_in_lines(done@, q)
                    || cells@.take(ci + 1).contains(q)) by {
                if loc@.contains_key(cell_key(q)) {
                    if cell_key(q) == key {
                        lemma_cell_key_injective(q, p);
                        assert(cells@.take(ci + 1)[ci as int] == q);
                    } else {
                        assert(locprev.contains_key(cell_key(q)));
                        if cells@.take(ci as int).contains(q) {
                            let pi = choose|pi: int|
                                0 <= pi < ci && #[trigger] cells@.take(ci as int)[pi] == q;
                            assert(cells@.take(ci + 1)[pi] == q);
                        }
                    }
                } else {
                    assert(!locprev.contains_key(cell_key(q)));
                    if cells@.take(ci + 1).contains(q) {
                        let pi = choose|pi: int|
                            0 <= pi < ci + 1 && #[trigger] cells@.take(ci + 1)[pi] == q;
                        if pi < ci {
                            assert(cells@.take(ci as int)[pi] == q);
                            assert(false);
                        } else {
                            assert(q == p);
                            assert(false);
                        }
                    }
                }
            }
            assert(cells@.take(ci + 1)[ci as int] == p);
            assert(cells@.take(ci + 1).contains(p));
            if p.y == *largest_y {
                w = p;
                assert((rock_in_lines(done@, w) || cells@.take(ci + 1).contains(w)) && w.y
                    == *largest_y);
            } else {
                if cells@.take(ci as int).contains(w) {
                    let pi = choose|pi: int|
                        0 <= pi < ci && #[trigger] cells@.take(ci as int)[pi] == w;
                    assert(cells@.take(ci + 1)[pi] == w);
                    assert(cells@.take(ci + 1).contains(w));
                }
                assert((rock_in_lines(done@, w) || cells@.take(ci + 1).contains(w)) && w.y
                    == *largest_y);
            }
            assert forall|q: Pos|
                #![trigger q.y]
                (rock_in_lines(done@, q) || cells@.take(ci + 1).contains(q)) implies q.y
                <= *largest_y by {
                if cells@.take(ci + 1).contains(q) {
                    let pi = choose|pi: int|
                        0 <= pi < ci + 1 && #[trigger] cells@.take(ci + 1)[pi] == q;
                    if pi < ci {
                        assert(cells@.take(ci as int)[pi] == q);
                        assert(cells@.take(ci as int).contains(q));
                    }
                }
            }
        }
        ci += 1;
    }
    proof {
        assert(cells@.take(cells@.len() as int) =~= cells@);
        assert(rock_in_lines(done@.push(line@), w));
    }
    Ghost(w)
}

/// The rock cells of one line, given as bytes.
fn rock_cells(cur: &Vec<u8>) -> (r: Vec<Pos>)
    requires
        rock_line_ok(cur@),
    ensures
        r@ == rocks_of(cur@),
{
    let b = cur;
    let ghost whole = split_arrows(b@, Seq::<u8>::empty());
    let mut pts: Vec<Pos> = Vec::new();
    let mut piece: Vec<u8> = Vec::new();
    let ghost mut done: Seq<Seq<u8>> = Seq::empty();
    let mut i: usize = 0;
    proof {
        assert(b@.skip(0) =~= b@);
        assert(whole =~= done + split_arrows(b@.skip(0), piece@));
    }
    while i < b.len()
        invariant
            i <= b@.len(),
            rock_line_ok(b@),
            whole == split_arrows(b@, Seq::empty()),
            whole == done + split_arrows(b@.skip(i as int), piece@),
            pts@.len() == done.len(),
            forall|k: int| 0 <= k < done.len() ==> (#[trigger] pts@[k]) == point_of(done[k]),
        decreases b@.len() - i,
    {
        proof {
            assert(b@.skip(i as int)[0] == b@[i as int]);
            assert(b@.skip(i as int).drop_first() =~= b@.skip(i + 1));
        }
        let is_arrow = b.len() - i >= 4 && b[i] == (' ' as u8) && b[i + 1] == ('-' as u8) && b[i
            + 2] == ('>' as u8) && b[i + 3] == (' ' as u8);
        proof {
            if is_arrow {
                assert(b@.skip(i as int).take(4) =~= arrow());
            } else {
                if b@.skip(i as int).len() >= 4 && b@.skip(i as int).take(4) == arrow() {
                    assert(b@.skip(i as int).take(4)[0] == b@[i as int]);
                    assert(b@.skip(i as int).take(4)[1] == b@[i + 1]);
                    assert(b@.skip(i as int).take(4)[2] == b@[i + 2]);
                    assert(b@.skip(i as int).take(4)[3] == b@[i + 3]);
                    assert(false);
                }
            }
        }
        if is_arrow {
            proof {
                assert(split_arrows(b@.skip(i as int), piece@) == seq![piece@] + split_arrows(
                    b@.skip(i as int).skip(4),
                    Seq::<u8>::empty(),
                ));
                assert(b@.skip(i as int).skip(4) =~= b@.skip(i + 4));
                assert(whole[done.len() as int] == piece@);
            }
            let p = parse_point(&piece);
            pts.push(p);
            proof {
                done = done.push(piece@);
                assert(whole =~= done + split_arrows(b@.skip(i + 4), Seq::<u8>::empty()));
            }
            piece = Vec::new();
            i += 4;
        } else {
            let ghost oldpiece = piece@;
            piece.push(b[i]);
            proof {
                assert(split_arrows(b@.skip(i as int), oldpiece) == split_arrows(
                    b@.skip(i + 1),
                    oldpiece.push(b@[i as int]),
                ));
            }
            i += 1;
        }
    }
    proof {
        assert(b@.skip(b@.len() as int) =~= Seq::<u8>::empty());
        assert(split_arrows(b@.skip(i as int), piece@) == seq![piece@]);
        assert(whole[done.len() as int] == piece@);
    }
    let p = parse_point(&piece);
    pts.push(p);
    proof {
        done = done.push(piece@);
        assert(whole =~= done);
        assert(pts@ =~= line_points(b@));
        assert forall|i2: int| 0 <= i2 + 1 < pts@.len() implies aligned(
            #[trigger] pts@[i2],
            pts@[i2 + 1],
        ) by {
            assert(line_points(b@)[i2] == pts@[i2]);
            assert(line_points(b@)[i2 + 1] == pts@[i2 + 1]);
        }
    }
    let r = parse_rock_points(&pts);
    proof {
        assert(pts@.len() > 0);
        assert(pts@[pts@.len() - 1] == line_points(b@).last());
    }
    r
}

/// A cell of the scan is filled, over unbounded coordinates: cells off the
/// machine grid count as empty.
pub open spec fn cell_occ(loc: Map<u128, What>, x: int, y: int) -> bool {
    &&& isize::MIN <= x <= isize::MAX
    &&& isize::MIN <= y <= isize::MAX
    &&& loc.contains_key(cell_key(Pos { x: x as isize, y: y as isize }))
}

/// Where a grain dropped at `(x, y)` ends: it falls straight down, else
/// diagonally left, else diagonally right; past the abyss line it is lost,
/// and one cell above the floor line it rests.
pub open spec fn drop_from(loc: Map<u128, What>, abyss: int, floor: int, x: int, y: int) -> Option<
    (int, int),
>
    decreases abyss + 2 - y,
{
    if y > abyss {
        None
    } else if y >= floor - 1 {
        Some((x, y))
    } else if !cell_occ(loc, x, y + 1) {
        drop_from(loc, abyss, floor, x, y + 1)
    } else if !cell_occ(loc, x - 1, y + 1) {
        drop_from(loc, abyss, floor, x - 1, y + 1)
    } else if !cell_occ(loc, x + 1, y + 1) {
        drop_from(loc, abyss, floor, x + 1, y + 1)
    } else {
        Some((x, y))
    }
}

impl Cave {
    /// Drop one grain of sand from the spawn cell and let it rest, telling
    /// whether it stayed in bounds.  A grain that cannot even spawn, or
    /// that falls past the abyss line, reports false and changes nothing;
    /// one that rests fills its cell.  One of the two lines must stand
    /// clear of the machine edge for the walk's arithmetic.
    pub fn drop_sand(&mut self) -> (r: bool)
        requires
            old(self).floor_y > isize::MIN,
            (old(self).abyss_y as int <= isize::MAX - 502) || (old(self).floor_y as int
                <= isize::MAX - 502),
        ensures
            final(self).largest_y == old(self).largest_y,
            final(self).abyss_y == old(self).abyss_y,
            final(self).floor_y == old(self).floor_y,
            old(self).occupied(Pos { x: 500, y: 0 }) ==> r == false && final(self).loc@ == old(
                self,
            ).loc@,
            !old(self).occupied(Pos { x: 500, y: 0 }) ==> match drop_from(
                old(self).loc@,
                old(self).abyss_y as int,
                old(self).floor_y as int,
                500,
                0,
            ) {
                None => r == false && final(self).loc@ == old(self).loc@,
                Some(p) => r == true && final(self).loc@ == old(self).loc@.insert(
                    cell_key(Pos { x: p.0 as isize, y: p.1 as isize }),
                    What::Sand,
                ),
            },
    {
        let spawn = Pos { x: 500, y: 0 };
        if self.is_occupied(spawn) {
            return false;
        }
        let mut px: isize = 500;
        let mut py: isize = 0;
        let ghost a = self.abyss_y as int;
        let ghost f = self.floor_y as int;
        let ghost minv: int = if a < f {
            a
        } else {
            f
        };
        loop
            invariant
                !old(self).occupied(Pos { x: 500, y: 0 }),
                self.loc@ == old(self).loc@,
                self.largest_y == old(self).largest_y,
                self.abyss_y == old(self).abyss_y,
                self.floor_y == old(self).floor_y,
                a == self.abyss_y as int,
                f == self.floor_y as int,
                f > isize::MIN,
                minv == if a < f {
                    a
                } else {
                    f
                },
                minv <= isize::MAX - 502,
                0 <= py,
                abs_i(px - 500) <= py,
                drop_from(self.loc@, a, f, px as int, py as int) == drop_from(
                    self.loc@,
                    a,
                    f,
                    500,
                    0,
                ),
            decreases minv + 2 - py,
        {
            if py > self.abyss_y {
                return false;
            }
            if py >= self.floor_y - 1 {
                let p = Pos { x: px, y: py };
                self.fill(p, What::Sand);
                return true;
            }
            let down = Pos { x: px, y: py + 1 };
            if !self.is_occupied(down) {
                proof {
                    assert(drop_from(self.loc@, a, f, px as int, py as int) == drop_from(
                        self.loc@,
                        a,
                        f,
                        px as int,
                        py + 1,
                    ));
                }
                py = py + 1;
            } else {
                proof {
                    assert(py <= a && py <= f - 2);
                    assert(py <= minv);
                }
                let dl = Pos { x: px - 1, y: py + 1 };
                if !self.is_occupied(dl) {
                    proof {
                        assert(drop_from(self.loc@, a, f, px as int, py as int) == drop_from(
                            self.loc@,
                            a,
                            f,
                            px - 1,
                            py + 1,
                        ));
                    }
                    px = px - 1;
                    py = py + 1;
                } else {
                    let dr = Pos { x: px + 1, y: py + 1 };
                    if !self.is_occupied(dr) {
                        proof {
                            assert(drop_from(self.loc@, a, f, px as int, py as int) == drop_from(
                                self.loc@,
                                a,
                                f,
                                px + 1,
                                py + 1,
                            ));
                        }
                        px = px + 1;
                        py = py + 1;
                    } else {
                        let p = Pos { x: px, y: py };
                        self.fill(p, What::Sand);
                        return true;
                    }
                }
            }
        }
    }
}

/// One point text parsed, with the marked split.
fn parse_point(cur: &Vec<u8>) -> (r: Pos)
    requires
        exists|k: int| pos_split(cur@, k),
    ensures
        r == point_of(cur@),
{
    let ghost b = cur@;
    proof {
        assert(b.subrange(0, b.len() as int) =~= b);
        let kw = choose|k: int| pos_split(b, k);
        assert(pos_split(b.subrange(0, b.len() as int), kw));
    }
    let r = parse_pos_bytes(cur.as_slice(), 0, cur.len());
    proof {
        let k0 = choose|k: int| pos_split(b, k);
        assert(pos_split(b.subrange(0, b.len() as int), k0));
        assert(r_matches(b, k0, r));
    }
    r
}

} // verus!
