//! Stacks of crates rearranged by a list of moves.
//!
//! The drawing gives the stacks column by column, bottom line above the
//! column numbers; each move line, `move 3 from 8 to 2`, lifts crates off
//! one stack onto another: one at a time under the older crane, all at once
//! under the newer one.

use vstd::prelude::*;
use vstd::string::StringSliceAdditionalSpecFns;

use crate::assignments::{digits_val, is_digits, parse_digits};
use crate::cpu::split_lines;

verus! {

/// The crates, one vector per stack, bottom first.
pub type CrateStack = Vec<Vec<u8>>;

/// The bytes of the prefix `move `.
pub open spec fn move_prefix() -> Seq<u8> {
    seq![('m' as u8), ('o' as u8), ('v' as u8), ('e' as u8), (' ' as u8)]
}

/// The bytes of the separator ` from `.
pub open spec fn from_sep() -> Seq<u8> {
    seq![(' ' as u8), ('f' as u8), ('r' as u8), ('o' as u8), ('m' as u8), (' ' as u8)]
}

/// The bytes of the separator ` to `.
pub open spec fn to_sep() -> Seq<u8> {
    seq![(' ' as u8), ('t' as u8), ('o' as u8), (' ' as u8)]
}

/// The line is a move command: three numbers at positions marked by `i` and
/// `j`, joined by the fixed words.
pub open spec fn move_split(b: Seq<u8>, i: int, j: int) -> bool {
    &&& 5 < i
    &&& i + 6 < j
    &&& j + 4 < b.len()
    &&& b.subrange(0, 5) == move_prefix()
    &&& b.subrange(i, i + 6) == from_sep()
    &&& b.subrange(j, j + 4) == to_sep()
    &&& is_digits(b.subrange(5, i))
    &&& is_digits(b.subrange(i + 6, j))
    &&& is_digits(b.subrange(j + 4, b.len() as int))
    &&& digits_val(b.subrange(5, i)) <= u32::MAX
    &&& digits_val(b.subrange(i + 6, j)) <= u32::MAX
    &&& digits_val(b.subrange(j + 4, b.len() as int)) <= u32::MAX
}

/// A move line marks its numbers in only one way.
pub proof fn lemma_move_split_unique(b: Seq<u8>, i: int, j: int, i2: int, j2: int)
    requires
        move_split(b, i, j),
        move_split(b, i2, j2),
    ensures
        i == i2,
        j == j2,
{
    assert(b.subrange(i, i + 6)[0] == b[i]);
    assert(b.subrange(i2, i2 + 6)[0] == b[i2]);
    assert(b[i] == (' ' as u8) && b[i2] == (' ' as u8));
    if i < i2 {
        assert(b.subrange(5, i2)[i - 5] == b[i]);
        assert(('0' as u8) <= b[i] <= ('9' as u8));
    }
    if i2 < i {
        assert(b.subrange(5, i)[i2 - 5] == b[i2]);
        assert(('0' as u8) <= b[i2] <= ('9' as u8));
    }
    assert(i == i2);
    assert(b.subrange(j, j + 4)[0] == b[j]);
    assert(b.subrange(j2, j2 + 4)[0] == b[j2]);
    assert(b[j] == (' ' as u8) && b[j2] == (' ' as u8));
    if j < j2 {
        assert(b.subrange(i + 6, j2)[j - i - 6] == b[j]);
        assert(('0' as u8) <= b[j] <= ('9' as u8));
    }
    if j2 < j {
        assert(b.subrange(i + 6, j)[j2 - i - 6] == b[j2]);
        assert(('0' as u8) <= b[j2] <= ('9' as u8));
    }
}

/// The three numbers of a move line: how many, from which stack, to which.
pub open spec fn move_params(b: Seq<u8>) -> (int, int, int) {
    let (i, j) = choose|i: int, j: int| move_split(b, i, j);
    (
        digits_val(b.subrange(5, i)),
        digits_val(b.subrange(i + 6, j)),
        digits_val(b.subrange(j + 4, b.len() as int)),
    )
}

/// Parse one move line.
pub fn parse_move(line: &str) -> (r: (usize, usize, usize))
    requires
        exists|i: int, j: int| move_split(line.spec_bytes(), i, j),
    ensures
        r.0 as int == move_params(line.spec_bytes()).0,
        r.1 as int == move_params(line.spec_bytes()).1,
        r.2 as int == move_params(line.spec_bytes()).2,
{
    let b = s_bytes(line);
    parse_move_bytes(&b)
}

/// Parse one move line, given as bytes.
fn parse_move_bytes(b: &Vec<u8>) -> (r: (usize, usize, usize))
    requires
        exists|i: int, j: int| move_split(b@, i, j),
    ensures
        r.0 as int == move_params(b@).0,
        r.1 as int == move_params(b@).1,
        r.2 as int == move_params(b@).2,
{
    let ghost (wi, wj): (int, int) = choose|i: int, j: int| move_split(b@, i, j);
    proof {
        assert(move_split(b@, wi, wj));
    }
    let mut i: usize = 5;
    while i < b.len() && b[i] >= ('0' as u8) && b[i] <= ('9' as u8)
        invariant
            5 <= i <= b@.len(),
            move_split(b@, wi, wj),
            forall|k: int| 5 <= k < i ==> ('0' as u8) <= #[trigger] b@[k] <= ('9' as u8),
        decreases b@.len() - i,
    {
        i += 1;
    }
    proof {
        assert(b@.subrange(wi, wi + 6)[0] == b@[wi]);
        assert(b@[wi] == (' ' as u8));
        assert(i as int == wi) by {
            if (i as int) < wi {
                assert(b@.subrange(5, wi)[i - 5] == b@[i as int]);
                assert(('0' as u8) <= b@[i as int] <= ('9' as u8));
            }
            if (i as int) > wi {
                assert(('0' as u8) <= b@[wi] <= ('9' as u8));
            }
        }
    }
    let mut j = i + 6;
    while j < b.len() && b[j] >= ('0' as u8) && b[j] <= ('9' as u8)
        invariant
            i + 6 <= j <= b@.len(),
            i as int == wi,
            move_split(b@, wi, wj),
            forall|k: int| i + 6 <= k < j ==> ('0' as u8) <= #[trigger] b@[k] <= ('9' as u8),
        decreases b@.len() - j,
    {
        j += 1;
    }
    proof {
        assert(b@.subrange(wj, wj + 4)[0] == b@[wj]);
        assert(b@[wj] == (' ' as u8));
        assert(j as int == wj) by {
            if (j as int) < wj {
                assert(b@.subrange(i + 6, wj)[j - i - 6] == b@[j as int]);
                assert(('0' as u8) <= b@[j as int] <= ('9' as u8));
            }
            if (j as int) > wj {
                assert(('0' as u8) <= b@[wj] <= ('9' as u8));
            }
        }
    }
    let count = parse_digits(b.as_slice(), 5, i);
    let from = parse_digits(b.as_slice(), i + 6, j);
    let to = parse_digits(b.as_slice(), j + 4, b.len());
    proof {
        assert forall|i2: int, j2: int| move_split(b@, i2, j2) implies i2 == wi && j2
            == wj by {
            lemma_move_split_unique(b@, i2, j2, wi, wj);
        }
        let (ci, cj) = choose|i2: int, j2: int| move_split(b@, i2, j2);
        assert(ci == wi && cj == wj);
        assert(b@.subrange(j + 4, b@.len() as int) == b@.subrange(wj + 4, b@.len() as int));
    }
    (count as usize, from as usize, to as usize)
}

/// The input's bytes, as a vector.
fn s_bytes(s: &str) -> (r: Vec<u8>)
    ensures
        r@ == s.spec_bytes(),
{
    let b = s.as_bytes();
    let mut out: Vec<u8> = Vec::new();
    let mut i: usize = 0;
    while i < b.len()
        invariant
            i <= b@.len(),
            b@ == s.spec_bytes(),
            out@ =~= b@.take(i as int),
        decreases b@.len() - i,
    {
        out.push(b[i]);
        proof {
            assert(out@ =~= b@.take(i + 1));
        }
        i += 1;
    }
    proof {
        assert(out@ =~= b@);
    }
    out
}

/// One crate lifted from the top of `from` onto `to`.
pub open spec fn move_one(st: Seq<Seq<u8>>, from: int, to: int) -> Seq<Seq<u8>> {
    let x = st[from].last();
    let st1 = st.update(from, st[from].drop_last());
    st1.update(to, st1[to].push(x))
}

/// `n` crates lifted one at a time; an emptied stack ends the move early.
pub open spec fn apply_reps(st: Seq<Seq<u8>>, n: int, from: int, to: int) -> Seq<Seq<u8>>
    decreases n,
{
    if n <= 0 {
        st
    } else if st[from].len() == 0 {
        st
    } else {
        apply_reps(move_one(st, from, to), n - 1, from, to)
    }
}

/// `n` crates lifted all at once, keeping their order.
pub open spec fn apply_bulk(st: Seq<Seq<u8>>, n: int, from: int, to: int) -> Seq<Seq<u8>> {
    let moved = st[from].skip(st[from].len() - n);
    let st1 = st.update(from, st[from].take(st[from].len() - n));
    st1.update(to, st1[to] + moved)
}

/// The stacks, as sequences of bytes.
pub open spec fn views(st: Seq<Vec<u8>>) -> Seq<Seq<u8>> {
    st.map_values(|v: Vec<u8>| v@)
}

/// The crate rows of the drawing, bottom row first, the numbers line
/// dropped.
pub open spec fn crate_rows(ls: Seq<Seq<u8>>) -> Seq<Seq<u8>> {
    ls.take(ls.len() - 1).reverse()
}

/// The crates of column `i` among the first `m` rows, bottom first: the
/// mark at the column's slot of each row, blanks skipped.
pub open spec fn stack_col(rows: Seq<Seq<u8>>, m: int, i: int) -> Seq<u8>
    decreases m,
{
    if m <= 0 {
        Seq::empty()
    } else {
        stack_col(rows, m - 1, i) + if rows[m - 1][4 * i + 1] != (' ' as u8) {
            seq![rows[m - 1][4 * i + 1]]
        } else {
            Seq::empty()
        }
    }
}

/// The lines of the input, as vectors of bytes.
fn collect_lines(text: &str) -> (r: Vec<Vec<u8>>)
    ensures
        r@.len() == split_lines(text.spec_bytes(), Seq::empty()).len(),
        forall|k: int|
            0 <= k < r@.len() ==> (#[trigger] r@[k])@ == split_lines(
                text.spec_bytes(),
                Seq::empty(),
            )[k],
{
    let b = text.as_bytes();
    let ghost whole = split_lines(b@, Seq::<u8>::empty());
    let mut out: Vec<Vec<u8>> = Vec::new();
    let mut cur: Vec<u8> = Vec::new();
    let ghost mut done: Seq<Seq<u8>> = Seq::empty();
    let mut i: usize = 0;
    proof {
        assert(b@.skip(0) =~= b@);
        assert(whole =~= done + split_lines(b@.skip(0), cur@));
    }
    while i < b.len()
        invariant
            i <= b@.len(),
            b@ == text.spec_bytes(),
            whole == split_lines(text.spec_bytes(), Seq::empty()),
            whole == done + split_lines(b@.skip(i as int), cur@),
            out@.len() == done.len(),
            forall|k: int| 0 <= k < done.len() ==> (#[trigger] out@[k])@ == done[k],
        decreases b@.len() - i,
    {
        let c = b[i];
        proof {
            assert(b@.skip(i as int)[0] == b@[i as int]);
            assert(b@.skip(i as int).drop_first() =~= b@.skip(i + 1));
        }
        if c == ('\n' as u8) {
            proof {
                assert(split_lines(b@.skip(i as int), cur@) == seq![cur@] + split_lines(
                    b@.skip(i + 1),
                    Seq::<u8>::empty(),
                ));
            }
            let ghost curb = cur@;
            out.push(cur);
            cur = Vec::new();
            proof {
                done = done.push(curb);
                assert(whole =~= done + split_lines(b@.skip(i + 1), Seq::<u8>::empty()));
            }
        } else if c != ('\r' as u8) {
            let ghost oldcur = cur@;
            cur.push(c);
            proof {
                assert(split_lines(b@.skip(i as int), oldcur) == split_lines(
                    b@.skip(i + 1),
                    oldcur.push(c),
                ));
            }
        } else {
            proof {
                assert(split_lines(b@.skip(i as int), cur@) == split_lines(b@.skip(i + 1), cur@));
            }
        }
        i += 1;
    }
    proof {
        assert(b@.skip(b@.len() as int) =~= Seq::<u8>::empty());
    }
    if cur.len() > 0 {
        proof {
            assert(split_lines(b@.skip(i as int), cur@) == seq![cur@]);
        }
        let ghost curb = cur@;
        out.push(cur);
        proof {
            done = done.push(curb);
            assert(whole =~= done);
        }
    } else {
        proof {
            assert(split_lines(b@.skip(i as int), cur@) =~= Seq::<Seq<u8>>::empty());
            assert(whole =~= done);
        }
    }
    out
}

/// Parse the stack drawing: the bottom-most line is the column numbers, the
/// lines above it hold one crate mark per column at every fourth slot.  The
/// column count comes from the bottom crate row, and every crate row must
/// reach the last column's slot.
pub fn parse_stack(text: &str) -> (r: CrateStack)
    requires
        split_lines(text.spec_bytes(), Seq::empty()).len() >= 2,
        forall|k: int|
            0 <= k < split_lines(text.spec_bytes(), Seq::empty()).len() - 1 ==> (
            #[trigger] split_lines(text.spec_bytes(), Seq::empty())[k]).len() + 2 >= 4 * ((
            split_lines(text.spec_bytes(), Seq::empty())[split_lines(
                text.spec_bytes(),
                Seq::empty(),
            ).len() - 2].len() + 1) / 4),
    ensures
        r@.len() == (split_lines(text.spec_bytes(), Seq::empty())[split_lines(
            text.spec_bytes(),
            Seq::empty(),
        ).len() - 2].len() + 1) / 4,
        forall|i: int|
            0 <= i < r@.len() ==> (#[trigger] r@[i])@ == stack_col(
                crate_rows(split_lines(text.spec_bytes(), Seq::empty())),
                split_lines(text.spec_bytes(), Seq::empty()).len() - 1,
                i,
            ),
{
    let lines = collect_lines(text);
    let ghost ls = split_lines(text.spec_bytes(), Seq::empty());
    let ghost rows = crate_rows(ls);
    let n = lines.len();
    let ll = lines[n - 2].len();
    let count = if ll % 4 == 3 {
        ll / 4 + 1
    } else {
        ll / 4
    };
    proof {
        assert(count as int == (ll + 1) / 4) by (nonlinear_arith)
            requires
                count as int == if ll % 4 == 3 {
                    ll / 4 + 1
                } else {
                    (ll as int) / 4
                },
        ;
    }
    proof {
        assert(rows.len() == n - 1);
        assert(forall|j: int| 0 <= j < n - 1 ==> (#[trigger] rows[j]) == ls[n - 2 - j]);
    }
    let mut out: CrateStack = Vec::new();
    let mut i: usize = 0;
    while i < count
        invariant
            i <= count,
            n == lines@.len(),
            n >= 2,
            ls == split_lines(text.spec_bytes(), Seq::empty()),
            rows == crate_rows(ls),
            rows.len() == n - 1,
            forall|j: int| 0 <= j < n - 1 ==> (#[trigger] rows[j]) == ls[n - 2 - j],
            forall|k: int| 0 <= k < lines@.len() ==> (#[trigger] lines@[k])@ == ls[k],
            forall|k: int| 0 <= k < n - 1 ==> (#[trigger] ls[k]).len() + 2 >= 4 * count,
            count == (ls[n - 2].len() + 1) / 4,
            out@.len() == i,
            forall|i2: int|
                0 <= i2 < i ==> (#[trigger] out@[i2])@ == stack_col(rows, n - 1, i2),
        decreases count - i,
    {
        let mut stack: Vec<u8> = Vec::new();
        let mut j: usize = 0;
        while j < n - 1
            invariant
                j <= n - 1,
                i < count,
                n == lines@.len(),
                n >= 2,
                rows.len() == n - 1,
                forall|j2: int| 0 <= j2 < n - 1 ==> (#[trigger] rows[j2]) == ls[n - 2 - j2],
                forall|k: int| 0 <= k < lines@.len() ==> (#[trigger] lines@[k])@ == ls[k],
                forall|k: int| 0 <= k < n - 1 ==> (#[trigger] ls[k]).len() + 2 >= 4 * count,
                count == (ls[n - 2].len() + 1) / 4,
                stack@ == stack_col(rows, j as int, i as int),
            decreases n - 1 - j,
        {
            let row = n - 2 - j;
            let row_len = lines[row].len();
            proof {
                assert(lines@[row as int]@ == ls[row as int]);
                assert(ls[row as int].len() + 2 >= 4 * count);
                assert(rows[j as int] == ls[row as int]);
                assert(row_len == ls[row as int].len());
                assert(4 * (i as int) + 1 <= row_len - 1);
            }
            let c = lines[row][4 * i + 1];
            if c != (' ' as u8) {
                stack.push(c);
            }
            proof {
                assert(stack@ =~= stack_col(rows, j + 1, i as int));
            }
            j += 1;
        }
        out.push(stack);
        i += 1;
    }
    out
}

/// A move line whose stacks exist.
pub open spec fn line_ok(b: Seq<u8>, nstacks: int) -> bool {
    &&& exists|i: int, j: int| move_split(b, i, j)
    &&& 1 <= move_params(b).1 <= nstacks
    &&& 1 <= move_params(b).2 <= nstacks
}

/// The stacks after the first `k` move lines, one crate at a time.
pub open spec fn apply_lines_single(st: Seq<Seq<u8>>, lines: Seq<Seq<u8>>, k: int) -> Seq<Seq<u8>>
    decreases k,
{
    if k <= 0 {
        st
    } else {
        let prev = apply_lines_single(st, lines, k - 1);
        apply_reps(prev, move_params(lines[k - 1]).0, move_params(lines[k - 1]).1 - 1, move_params(
            lines[k - 1],
        ).2 - 1)
    }
}

/// The stacks after the first `k` move lines, each move in bulk.
pub open spec fn apply_lines_bulk(st: Seq<Seq<u8>>, lines: Seq<Seq<u8>>, k: int) -> Seq<Seq<u8>>
    decreases k,
{
    if k <= 0 {
        st
    } else {
        let prev = apply_lines_bulk(st, lines, k - 1);
        apply_bulk(prev, move_params(lines[k - 1]).0, move_params(lines[k - 1]).1 - 1, move_params(
            lines[k - 1],
        ).2 - 1)
    }
}

/// Lifting one crate keeps the number of stacks.
proof fn lemma_apply_reps_len(st: Seq<Seq<u8>>, n: int, from: int, to: int)
    requires
        0 <= from < st.len(),
        0 <= to < st.len(),
    ensures
        apply_reps(st, n, from, to).len() == st.len(),
    decreases n,
{
    if n > 0 && st[from].len() > 0 {
        lemma_apply_reps_len(move_one(st, from, to), n - 1, from, to);
    }
}

/// Apply every move line, one crate at a time, as the older crane does.
pub fn parse_and_apply_moves_part1(crate_stack: &mut CrateStack, moves_text: &str)
    requires
        forall|k: int|
            0 <= k < split_lines(moves_text.spec_bytes(), Seq::empty()).len() ==> line_ok(
                #[trigger] split_lines(moves_text.spec_bytes(), Seq::empty())[k],
                old(crate_stack)@.len() as int,
            ),
    ensures
        views(final(crate_stack)@) == apply_lines_single(
            views(old(crate_stack)@),
            split_lines(moves_text.spec_bytes(), Seq::empty()),
            split_lines(moves_text.spec_bytes(), Seq::empty()).len() as int,
        ),
{
    let lines = collect_lines(moves_text);
    let ghost ls = split_lines(moves_text.spec_bytes(), Seq::empty());
    let ghost st0 = views(old(crate_stack)@);
    let nlines = lines.len();
    let mut k: usize = 0;
    while k < nlines
        invariant
            k <= nlines,
            nlines == lines@.len(),
            ls == split_lines(moves_text.spec_bytes(), Seq::empty()),
            lines@.len() == ls.len(),
            forall|k2: int| 0 <= k2 < lines@.len() ==> (#[trigger] lines@[k2])@ == ls[k2],
            forall|k2: int|
                0 <= k2 < ls.len() ==> line_ok(#[trigger] ls[k2], st0.len() as int),
            st0 == views(old(crate_stack)@),
            crate_stack@.len() == st0.len(),
            views(crate_stack@) == apply_lines_single(st0, ls, k as int),
        decreases nlines - k,
    {
        let (count, from, to) = parse_move_bytes(&lines[k]);
        proof {
            assert(lines@[k as int]@ == ls[k as int]);
            assert(line_ok(ls[k as int], st0.len() as int));
        }
        let from0 = from - 1;
        let to0 = to - 1;
        let ghost st_line = views(crate_stack@);
        let mut cnt = count;
        while cnt > 0 && crate_stack[from0].len() > 0
            invariant
                from0 < crate_stack@.len(),
                to0 < crate_stack@.len(),
                crate_stack@.len() == st0.len(),
                cnt <= count,
                apply_reps(views(crate_stack@), cnt as int, from0 as int, to0 as int)
                    == apply_reps(st_line, count as int, from0 as int, to0 as int),
            decreases cnt,
        {
            let ghost prev = views(crate_stack@);
            let x = match crate_stack[from0].pop() {
                Some(v) => v,
                None => {
                    proof {
                        assert(false);
                    }
                    0
                },
            };
            crate_stack[to0].push(x);
            proof {
                assert(views(crate_stack@) =~= move_one(prev, from0 as int, to0 as int));
                assert(apply_reps(prev, cnt as int, from0 as int, to0 as int) == apply_reps(
                    move_one(prev, from0 as int, to0 as int),
                    cnt - 1,
                    from0 as int,
                    to0 as int,
                ));
            }
            cnt -= 1;
        }
        proof {
            assert(apply_reps(views(crate_stack@), cnt as int, from0 as int, to0 as int) == views(
                crate_stack@,
            ));
            lemma_apply_reps_len(st_line, count as int, from0 as int, to0 as int);
            assert(views(crate_stack@) == apply_lines_single(st0, ls, k + 1));
        }
        k += 1;
    }
}

/// Apply every move line in bulk, as the newer crane does.  Each move must
/// lift no more crates than its source stack holds at that point.
#[verifier::rlimit(60)]
pub fn parse_and_apply_moves_part2(crate_stack: &mut CrateStack, moves_text: &str)
    requires
        forall|k: int|
            0 <= k < split_lines(moves_text.spec_bytes(), Seq::empty()).len() ==> line_ok(
                #[trigger] split_lines(moves_text.spec_bytes(), Seq::empty())[k],
                old(crate_stack)@.len() as int,
            ),
        forall|k: int|
            0 <= k < split_lines(moves_text.spec_bytes(), Seq::empty()).len()
                ==> move_params(
                #[trigger] split_lines(moves_text.spec_bytes(), Seq::empty())[k],
            ).0 <= apply_lines_bulk(
                views(old(crate_stack)@),
                split_lines(moves_text.spec_bytes(), Seq::empty()),
                k,
            )[move_params(split_lines(moves_text.spec_bytes(), Seq::empty())[k]).1 - 1].len(),
    ensures
        views(final(crate_stack)@) == apply_lines_bulk(
            views(old(crate_stack)@),
            split_lines(moves_text.spec_bytes(), Seq::empty()),
            split_lines(moves_text.spec_bytes(), Seq::empty()).len() as int,
        ),
{
    let lines = collect_lines(moves_text);
    let ghost ls = split_lines(moves_text.spec_bytes(), Seq::empty());
    let ghost st0 = views(old(crate_stack)@);
    let nlines = lines.len();
    let mut k: usize = 0;
    while k < nlines
        invariant
            k <= nlines,
            nlines == lines@.len(),
            ls == split_lines(moves_text.spec_bytes(), Seq::empty()),
            lines@.len() == ls.len(),
            forall|k2: int| 0 <= k2 < lines@.len() ==> (#[trigger] lines@[k2])@ == ls[k2],
            forall|k2: int|
                0 <= k2 < ls.len() ==> line_ok(#[trigger] ls[k2], st0.len() as int),
            forall|k2: int|
                0 <= k2 < ls.len() ==> move_params(#[trigger] ls[k2]).0 <= apply_lines_bulk(
                    st0,
                    ls,
                    k2,
                )[move_params(ls[k2]).1 - 1].len(),
            st0 == views(old(crate_stack)@),
            crate_stack@.len() == st0.len(),
            views(crate_stack@) == apply_lines_bulk(st0, ls, k as int),
        decreases nlines - k,
    {
        let (count, from, to) = parse_move_bytes(&lines[k]);
        proof {
            assert(lines@[k as int]@ == ls[k as int]);
            assert(line_ok(ls[k as int], st0.len() as int));
            assert(move_params(ls[k as int]).0 <= apply_lines_bulk(st0, ls, k as int)[move_params(
                ls[k as int],
            ).1 - 1].len());
        }
        let from0 = from - 1;
        let to0 = to - 1;
        let from_pos = crate_stack[from0].len() - count;
        let ghost prev = views(crate_stack@);
        let mut moved: Vec<u8> = Vec::new();
        let mut t: usize = 0;
        while t < count
            invariant
                t <= count,
                from0 < crate_stack@.len(),
                from_pos + count == crate_stack@[from0 as int]@.len(),
                crate_stack@[from0 as int]@.len() <= usize::MAX,
                moved@ =~= crate_stack@[from0 as int]@.subrange(
                    from_pos as int,
                    from_pos + t,
                ),
            decreases count - t,
        {
            moved.push(crate_stack[from0][from_pos + t]);
            proof {
                assert(moved@ =~= crate_stack@[from0 as int]@.subrange(
                    from_pos as int,
                    from_pos + t + 1,
                ));
            }
            t += 1;
        }
        crate_stack[from0].truncate(from_pos);
        crate_stack[to0].append(&mut moved);
        proof {
            assert(prev[from0 as int].skip(prev[from0 as int].len() - count) =~= prev[
                from0 as int].subrange(from_pos as int, from_pos + count));
            assert(prev[from0 as int].take(prev[from0 as int].len() - count) =~= prev[
                from0 as int].subrange(0, from_pos as int));
            assert(views(crate_stack@) =~= apply_bulk(prev, count as int, from0 as int, to0 as int));
            assert(views(crate_stack@) == apply_lines_bulk(st0, ls, k + 1));
        }
        k += 1;
    }
}

/// The top crate of every stack, in stack order.  Every stack must hold at
/// least one crate.
pub fn answer(crate_stack: &CrateStack) -> (r: Vec<u8>)
    requires
        forall|i: int| 0 <= i < crate_stack@.len() ==> (#[trigger] crate_stack@[i])@.len() > 0,
    ensures
        r@.len() == crate_stack@.len(),
        forall|i: int| 0 <= i < r@.len() ==> (#[trigger] r@[i]) == crate_stack@[i]@.last(),
{
    let mut out: Vec<u8> = Vec::new();
    let mut i: usize = 0;
    while i < crate_stack.len()
        invariant
            i <= crate_stack@.len(),
            forall|k: int| 0 <= k < crate_stack@.len() ==> (#[trigger] crate_stack@[k])@.len() > 0,
            out@.len() == i,
            forall|k: int| 0 <= k < i ==> (#[trigger] out@[k]) == crate_stack@[k]@.last(),
        decreases crate_stack@.len() - i,
    {
        let s = &crate_stack[i];
        out.push(s[s.len() - 1]);
        i += 1;
    }
    out
}

} // verus!
