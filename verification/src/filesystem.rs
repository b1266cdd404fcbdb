//! A directory tree with cached subtree sizes.
//!
//! A directory holds named files with sizes and named subdirectories.  Its
//! total size is its files' sizes plus its subdirectories' totals; the
//! totals are computed once over the whole tree and cached, and the two
//! report queries read them: the sum of all small directory totals, and the
//! smallest total at least a given size.

use vstd::prelude::*;
use vstd::string::StringSliceAdditionalSpecFns;

verus! {

/// A directory: subdirectories and files by name, and the cached total.
#[derive(Debug)]
pub struct Dir {
    pub dirs: Vec<(Vec<u8>, Dir)>,
    pub files: Vec<(Vec<u8>, u64)>,
    pub total_size: Option<u64>,
}

/// The sizes of a run of files, summed.
pub open spec fn files_sum(fs: Seq<(Vec<u8>, u64)>) -> nat
    decreases fs.len(),
{
    if fs.len() == 0 {
        0
    } else {
        (files_sum(fs.drop_last()) + fs.last().1) as nat
    }
}

/// The size of everything under a directory, files and subtrees.
pub open spec fn subtree_size(d: Dir) -> nat
    decreases d,
    via subtree_size_dec
{
    files_sum(d.files@) + dirs_sum(d.dirs@)
}

/// The sizes of a run of subtrees, summed.
pub open spec fn dirs_sum(ds: Seq<(Vec<u8>, Dir)>) -> nat
    decreases ds,
    via dirs_sum_dec
{
    if ds.len() == 0 {
        0
    } else {
        dirs_sum(ds.drop_last()) + subtree_size(ds.last().1)
    }
}

#[via_fn]
proof fn subtree_size_dec(d: Dir) {
    assert(decreases_to!(d => d.dirs));
    assert(decreases_to!(d.dirs => d.dirs@));
    assert(decreases_to!(d => d.dirs@));
}

#[via_fn]
proof fn dirs_sum_dec(ds: Seq<(Vec<u8>, Dir)>) {
    if ds.len() > 0 {
        assert(decreases_to!(ds => ds.subrange(0, ds.len() - 1)));
        assert(ds.drop_last() == ds.subrange(0, ds.len() - 1));
        assert(decreases_to!(ds => ds[ds.len() - 1]));
        assert(ds.last() == ds[ds.len() - 1]);
    }
}

/// Every cached total in the tree equals its subtree's size.
pub open spec fn totals_ok(d: Dir) -> bool
    decreases d,
    via totals_ok_dec
{
    &&& d.total_size == Some((subtree_size(d) as u64))
    &&& subtree_size(d) <= u64::MAX
    &&& dirs_totals_ok(d.dirs@)
}

/// Every cached total under a run of subtrees is correct.
pub open spec fn dirs_totals_ok(ds: Seq<(Vec<u8>, Dir)>) -> bool
    decreases ds,
    via dirs_totals_ok_dec
{
    if ds.len() == 0 {
        true
    } else {
        dirs_totals_ok(ds.drop_last()) && totals_ok(ds.last().1)
    }
}

#[via_fn]
proof fn totals_ok_dec(d: Dir) {
    assert(decreases_to!(d => d.dirs));
    assert(decreases_to!(d.dirs => d.dirs@));
    assert(decreases_to!(d => d.dirs@));
}

#[via_fn]
proof fn dirs_totals_ok_dec(ds: Seq<(Vec<u8>, Dir)>) {
    if ds.len() > 0 {
        assert(decreases_to!(ds => ds.subrange(0, ds.len() - 1)));
        assert(ds.drop_last() == ds.subrange(0, ds.len() - 1));
        assert(decreases_to!(ds => ds[ds.len() - 1]));
        assert(ds.last() == ds[ds.len() - 1]);
    }
}

/// Two directories share files and the whole subdirectory shape; only the
/// cached totals may differ.
pub open spec fn shape_eq(a: Dir, b: Dir) -> bool
    decreases a,
    via shape_eq_dec
{
    &&& a.files@.len() == b.files@.len()
    &&& forall|k: int|
        0 <= k < a.files@.len() ==> (#[trigger] a.files@[k]).0@ == b.files@[k].0@
            && a.files@[k].1 == b.files@[k].1
    &&& shape_eq_dirs(a.dirs@, b.dirs@)
}

/// Two runs of subdirectories share names and shapes entrywise.
pub open spec fn shape_eq_dirs(a: Seq<(Vec<u8>, Dir)>, b: Seq<(Vec<u8>, Dir)>) -> bool
    decreases a,
    via shape_eq_dirs_dec
{
    &&& a.len() == b.len()
    &&& (a.len() > 0 ==> shape_eq_dirs(a.drop_last(), b.drop_last()) && a.last().0@
        == b.last().0@ && shape_eq(a.last().1, b.last().1))
}

#[via_fn]
proof fn shape_eq_dec(a: Dir, b: Dir) {
    assert(decreases_to!(a => a.dirs));
    assert(decreases_to!(a.dirs => a.dirs@));
    assert(decreases_to!(a => a.dirs@));
}

#[via_fn]
proof fn shape_eq_dirs_dec(a: Seq<(Vec<u8>, Dir)>, b: Seq<(Vec<u8>, Dir)>) {
    if a.len() > 0 {
        assert(decreases_to!(a => a.subrange(0, a.len() - 1)));
        assert(a.drop_last() == a.subrange(0, a.len() - 1));
        assert(decreases_to!(a => a[a.len() - 1]));
        assert(a.last() == a[a.len() - 1]);
    }
}

/// Directories of one shape have subtrees of one size.
pub proof fn lemma_shape_size(a: Dir, b: Dir)
    requires
        shape_eq(a, b),
    ensures
        subtree_size(a) == subtree_size(b),
    decreases a,
{
    lemma_files_sum_match(a.files@, b.files@);
    lemma_shape_size_dirs(a.dirs@, b.dirs@);
}

/// Runs of files with equal sizes entrywise sum alike.
proof fn lemma_files_sum_match(a: Seq<(Vec<u8>, u64)>, b: Seq<(Vec<u8>, u64)>)
    requires
        a.len() == b.len(),
        forall|k: int| 0 <= k < a.len() ==> (#[trigger] a[k]).1 == b[k].1,
    ensures
        files_sum(a) == files_sum(b),
    decreases a.len(),
{
    if a.len() > 0 {
        assert(forall|k: int|
            0 <= k < a.drop_last().len() ==> (#[trigger] a.drop_last()[k]) == a[k]);
        assert(forall|k: int|
            0 <= k < b.drop_last().len() ==> (#[trigger] b.drop_last()[k]) == b[k]);
        lemma_files_sum_match(a.drop_last(), b.drop_last());
    }
}

/// Runs of one shape have subtree sums of one size.
pub proof fn lemma_shape_size_dirs(a: Seq<(Vec<u8>, Dir)>, b: Seq<(Vec<u8>, Dir)>)
    requires
        shape_eq_dirs(a, b),
    ensures
        dirs_sum(a) == dirs_sum(b),
    decreases a,
{
    if a.len() > 0 {
        assert(decreases_to!(a => a.subrange(0, a.len() - 1)));
        assert(a.drop_last() == a.subrange(0, a.len() - 1));
        lemma_shape_size_dirs(a.drop_last(), b.drop_last());
        assert(decreases_to!(a => a[a.len() - 1]));
        assert(a.last() == a[a.len() - 1]);
        lemma_shape_size(a.last().1, b.last().1);
    }
}

/// A prefix of a run of files sums to no more than the whole.
proof fn lemma_files_sum_prefix(fs: Seq<(Vec<u8>, u64)>, n: int)
    requires
        0 <= n <= fs.len(),
    ensures
        files_sum(fs.take(n)) <= files_sum(fs),
    decreases fs.len() - n,
{
    if n < fs.len() {
        lemma_files_sum_prefix(fs, n + 1);
        assert(fs.take(n + 1).drop_last() =~= fs.take(n));
        assert(fs.take(n + 1).last() == fs[n]);
        assert(files_sum(fs.take(n + 1)) == files_sum(fs.take(n)) + fs[n].1);
    } else {
        assert(fs.take(n) =~= fs);
    }
}

/// A prefix of a run of subtrees sums to no more than the whole.
proof fn lemma_dirs_sum_prefix(ds: Seq<(Vec<u8>, Dir)>, n: int)
    requires
        0 <= n <= ds.len(),
    ensures
        dirs_sum(ds.take(n)) <= dirs_sum(ds),
    decreases ds.len() - n,
{
    if n < ds.len() {
        lemma_dirs_sum_prefix(ds, n + 1);
        assert(ds.take(n + 1).drop_last() =~= ds.take(n));
        assert(ds.take(n + 1).last() == ds[n]);
        assert(dirs_sum(ds.take(n + 1)) == dirs_sum(ds.take(n)) + subtree_size(ds[n].1));
    } else {
        assert(ds.take(n) =~= ds);
    }
}

/// A copy of the tree with every total computed and cached.
fn with_sizes(d: &Dir) -> (r: Dir)
    requires
        subtree_size(*d) <= u64::MAX,
    ensures
        shape_eq(*d, r),
        totals_ok(r),
    decreases *d,
{
    let mut total: u64 = 0;
    let mut i: usize = 0;
    let n = d.files.len();
    while i < n
        invariant
            i <= n == d.files@.len(),
            subtree_size(*d) <= u64::MAX,
            total == files_sum(d.files@.take(i as int)),
        decreases n - i,
    {
        proof {
            assert(d.files@.take(i + 1).drop_last() =~= d.files@.take(i as int));
            assert(d.files@.take(i + 1).last() == d.files@[i as int]);
            lemma_files_sum_prefix(d.files@, i + 1);
        }
        total = total + d.files[i].1;
        i += 1;
    }
    proof {
        assert(d.files@.take(n as int) =~= d.files@);
    }
    let mut new_files: Vec<(Vec<u8>, u64)> = Vec::new();
    let mut i2: usize = 0;
    while i2 < n
        invariant
            i2 <= n == d.files@.len(),
            new_files@.len() == i2,
            forall|k: int|
                0 <= k < i2 ==> (#[trigger] new_files@[k]).0@ == d.files@[k].0@ && new_files@[k].1
                    == d.files@[k].1,
        decreases n - i2,
    {
        let name = clone_bytes(&d.files[i2].0);
        new_files.push((name, d.files[i2].1));
        i2 += 1;
    }
    let mut new_dirs: Vec<(Vec<u8>, Dir)> = Vec::new();
    let nd = d.dirs.len();
    let mut j: usize = 0;
    while j < nd
        invariant
            j <= nd == d.dirs@.len(),
            subtree_size(*d) <= u64::MAX,
            new_dirs@.len() == j,
            shape_eq_dirs(d.dirs@.take(j as int), new_dirs@),
            dirs_totals_ok(new_dirs@),
            total as nat == files_sum(d.files@) + dirs_sum(d.dirs@.take(j as int)),
        decreases nd - j,
    {
        proof {
            assert(decreases_to!(*d => d.dirs));
            assert(decreases_to!(d.dirs => d.dirs@));
            assert(decreases_to!(d.dirs@ => d.dirs@[j as int]));
            assert(decreases_to!(d.dirs@[j as int] => d.dirs@[j as int].1));
            assert(d.dirs@.take(j + 1).drop_last() =~= d.dirs@.take(j as int));
            assert(d.dirs@.take(j + 1).last() == d.dirs@[j as int]);
            lemma_dirs_sum_prefix(d.dirs@, j + 1);
        }
        let child = with_sizes(&d.dirs[j].1);
        let ghost before = new_dirs@;
        let name = clone_bytes(&d.dirs[j].0);
        proof {
            lemma_shape_size(d.dirs@[j as int].1, child);
        }
        let child_total = match child.total_size {
            Some(t) => t,
            None => {
                proof {
                    assert(false);
                }
                0
            },
        };
        new_dirs.push((name, child));
        total = total + child_total;
        proof {
            assert(new_dirs@.drop_last() =~= before);
            assert(shape_eq_dirs(d.dirs@.take(j + 1), new_dirs@));
            assert(dirs_totals_ok(new_dirs@));
        }
        j += 1;
    }
    proof {
        assert(d.dirs@.take(nd as int) =~= d.dirs@);
    }
    let r = Dir { dirs: new_dirs, files: new_files, total_size: Some(total) };
    proof {
        assert(shape_eq(*d, r));
        lemma_shape_size(*d, r);
        assert(totals_ok(r));
    }
    r
}

/// Whether two byte strings hold the same bytes, copying.
fn clone_bytes(a: &Vec<u8>) -> (r: Vec<u8>)
    ensures
        r@ == a@,
{
    let mut out: Vec<u8> = Vec::new();
    let mut i: usize = 0;
    while i < a.len()
        invariant
            i <= a@.len(),
            out@ =~= a@.take(i as int),
        decreases a@.len() - i,
    {
        out.push(a[i]);
        proof {
            assert(out@ =~= a@.take(i + 1));
        }
        i += 1;
    }
    proof {
        assert(out@ =~= a@);
    }
    out
}

/// The sum of the totals of every directory in the tree whose total is at
/// most the smallness bound.
pub open spec fn spec_part1(d: Dir) -> nat
    decreases d,
    via spec_part1_dec
{
    dirs_part1(d.dirs@) + if subtree_size(d) <= 100000 {
        subtree_size(d)
    } else {
        0
    }
}

/// The small-directory sums of a run of subtrees.
pub open spec fn dirs_part1(ds: Seq<(Vec<u8>, Dir)>) -> nat
    decreases ds,
    via dirs_part1_dec
{
    if ds.len() == 0 {
        0
    } else {
        dirs_part1(ds.drop_last()) + spec_part1(ds.last().1)
    }
}

#[via_fn]
proof fn spec_part1_dec(d: Dir) {
    assert(decreases_to!(d => d.dirs));
    assert(decreases_to!(d.dirs => d.dirs@));
    assert(decreases_to!(d => d.dirs@));
}

#[via_fn]
proof fn dirs_part1_dec(ds: Seq<(Vec<u8>, Dir)>) {
    if ds.len() > 0 {
        assert(decreases_to!(ds => ds.subrange(0, ds.len() - 1)));
        assert(ds.drop_last() == ds.subrange(0, ds.len() - 1));
        assert(decreases_to!(ds => ds[ds.len() - 1]));
        assert(ds.last() == ds[ds.len() - 1]);
    }
}

/// The smallest total in the tree at least `at_least`, or the far edge of
/// the machine word when none is.
pub open spec fn spec_part2(d: Dir, at_least: int) -> int
    decreases d,
    via spec_part2_dec
{
    let own: int = if subtree_size(d) >= at_least {
        subtree_size(d) as int
    } else {
        u64::MAX as int
    };
    let sub = dirs_part2(d.dirs@, at_least);
    if sub < own {
        sub
    } else {
        own
    }
}

/// The smallest qualifying total among a run of subtrees.
pub open spec fn dirs_part2(ds: Seq<(Vec<u8>, Dir)>, at_least: int) -> int
    decreases ds,
    via dirs_part2_dec
{
    if ds.len() == 0 {
        u64::MAX as int
    } else {
        let rest = dirs_part2(ds.drop_last(), at_least);
        let last = spec_part2(ds.last().1, at_least);
        if last < rest {
            last
        } else {
            rest
        }
    }
}

#[via_fn]
proof fn spec_part2_dec(d: Dir, at_least: int) {
    assert(decreases_to!(d => d.dirs));
    assert(decreases_to!(d.dirs => d.dirs@));
    assert(decreases_to!(d => d.dirs@));
}

#[via_fn]
proof fn dirs_part2_dec(ds: Seq<(Vec<u8>, Dir)>, at_least: int) {
    if ds.len() > 0 {
        assert(decreases_to!(ds => ds.subrange(0, ds.len() - 1)));
        assert(ds.drop_last() == ds.subrange(0, ds.len() - 1));
        assert(decreases_to!(ds => ds[ds.len() - 1]));
        assert(ds.last() == ds[ds.len() - 1]);
    }
}

/// A prefix's small-directory sum is at most the whole run's.
proof fn lemma_dirs_part1_prefix(ds: Seq<(Vec<u8>, Dir)>, n: int)
    requires
        0 <= n <= ds.len(),
    ensures
        dirs_part1(ds.take(n)) <= dirs_part1(ds),
    decreases ds.len() - n,
{
    if n < ds.len() {
        lemma_dirs_part1_prefix(ds, n + 1);
        assert(ds.take(n + 1).drop_last() =~= ds.take(n));
        assert(ds.take(n + 1).last() == ds[n]);
        assert(dirs_part1(ds.take(n + 1)) == dirs_part1(ds.take(n)) + spec_part1(ds[n].1));
    } else {
        assert(ds.take(n) =~= ds);
    }
}

impl Dir {
    /// Compute and cache every total in the tree.
    pub fn recalculate_total_sizes(&mut self)
        requires
            subtree_size(*old(self)) <= u64::MAX,
        ensures
            shape_eq(*old(self), *final(self)),
            totals_ok(*final(self)),
    {
        let r = with_sizes(self);
        *self = r;
    }

    /// The sum of the totals of every small directory in the tree.  The
    /// totals must be cached.
    pub fn part1(&self) -> (r: u64)
        requires
            totals_ok(*self),
            spec_part1(*self) <= u64::MAX,
        ensures
            r as nat == spec_part1(*self),
        decreases *self,
    {
        let mut acc: u64 = 0;
        let n = self.dirs.len();
        let mut j: usize = 0;
        while j < n
            invariant
                j <= n == self.dirs@.len(),
                totals_ok(*self),
                spec_part1(*self) <= u64::MAX,
                acc == dirs_part1(self.dirs@.take(j as int)),
            decreases n - j,
        {
            proof {
                assert(decreases_to!(*self => self.dirs));
                assert(decreases_to!(self.dirs => self.dirs@));
                assert(decreases_to!(self.dirs@ => self.dirs@[j as int]));
                assert(decreases_to!(self.dirs@[j as int] => self.dirs@[j as int].1));
                lemma_dirs_totals_ok_at(self.dirs@, j as int);
                assert(self.dirs@.take(j + 1).drop_last() =~= self.dirs@.take(j as int));
                assert(self.dirs@.take(j + 1).last() == self.dirs@[j as int]);
                lemma_dirs_part1_prefix(self.dirs@, j + 1);
            }
            let sub = self.dirs[j].1.part1();
            acc = acc + sub;
            j += 1;
        }
        proof {
            assert(self.dirs@.take(n as int) =~= self.dirs@);
        }
        let own = match self.total_size {
            Some(t) => t,
            None => {
                proof {
                    assert(false);
                }
                0
            },
        };
        if own <= 100000 {
            acc + own
        } else {
            acc
        }
    }

    /// The smallest cached total at least `at_least`, or the far edge of
    /// the machine word when no directory is that large.
    pub fn part2(&self, at_least: u64) -> (r: u64)
        requires
            totals_ok(*self),
        ensures
            r as int == spec_part2(*self, at_least as int),
        decreases *self,
    {
        let mut best: u64 = u64::MAX;
        let n = self.dirs.len();
        let mut j: usize = 0;
        while j < n
            invariant
                j <= n == self.dirs@.len(),
                totals_ok(*self),
                best as int == dirs_part2(self.dirs@.take(j as int), at_least as int),
            decreases n - j,
        {
            proof {
                assert(decreases_to!(*self => self.dirs));
                assert(decreases_to!(self.dirs => self.dirs@));
                assert(decreases_to!(self.dirs@ => self.dirs@[j as int]));
                assert(decreases_to!(self.dirs@[j as int] => self.dirs@[j as int].1));
                lemma_dirs_totals_ok_at(self.dirs@, j as int);
                assert(self.dirs@.take(j + 1).drop_last() =~= self.dirs@.take(j as int));
                assert(self.dirs@.take(j + 1).last() == self.dirs@[j as int]);
            }
            let sub = self.dirs[j].1.part2(at_least);
            if sub < best {
                best = sub;
            }
            j += 1;
        }
        proof {
            assert(self.dirs@.take(n as int) =~= self.dirs@);
        }
        let own = match self.total_size {
            Some(t) => t,
            None => {
                proof {
                    assert(false);
                }
                0
            },
        };
        if own >= at_least && own < best {
            best = own;
        }
        best
    }
}

/// The bytes of the prompt that opens each command.
pub open spec fn prompt() -> Seq<u8> {
    seq![('$' as u8), (' ' as u8)]
}

/// The bytes that separate commands: a line break and the next prompt.
pub open spec fn cmd_sep() -> Seq<u8> {
    seq![('\n' as u8), ('$' as u8), (' ' as u8)]
}

/// The input with every leading prompt stripped.
pub open spec fn strip_prompt(b: Seq<u8>) -> Seq<u8>
    decreases b.len(),
{
    if b.len() >= 2 && b.take(2) == prompt() {
        strip_prompt(b.skip(2))
    } else {
        b
    }
}

/// The command texts of the stripped input, split on the separator; `cur`
/// is the partial text already read.
pub open spec fn split_cmds(b: Seq<u8>, cur: Seq<u8>) -> Seq<Seq<u8>>
    decreases b.len(),
{
    if b.len() == 0 {
        seq![cur]
    } else if b.len() >= 3 && b.take(3) == cmd_sep() {
        seq![cur] + split_cmds(b.skip(3), Seq::empty())
    } else {
        split_cmds(b.drop_first(), cur.push(b[0]))
    }
}

/// The command texts of a terminal session: the leading prompt stripped,
/// the rest split at each later prompt.
pub fn split_into_commands(input: &str) -> (r: Vec<Vec<u8>>)
    ensures
        r@.len() == split_cmds(strip_prompt(input.spec_bytes()), Seq::empty()).len(),
        forall|k: int|
            0 <= k < r@.len() ==> (#[trigger] r@[k])@ == split_cmds(
                strip_prompt(input.spec_bytes()),
                Seq::empty(),
            )[k],
{
    let b = input.as_bytes();
    let mut pos: usize = 0;
    proof {
        assert(b@.skip(0) =~= b@);
    }
    while b.len() - pos >= 2 && b[pos] == ('$' as u8) && b[pos + 1] == (' ' as u8)
        invariant
            pos <= b@.len(),
            b@ == input.spec_bytes(),
            strip_prompt(b@.skip(pos as int)) == strip_prompt(b@),
        decreases b@.len() - pos,
    {
        proof {
            assert(b@.skip(pos as int).take(2) =~= prompt());
            assert(b@.skip(pos as int).skip(2) =~= b@.skip(pos + 2));
        }
        pos += 2;
    }
    proof {
        assert(strip_prompt(b@.skip(pos as int)) == b@.skip(pos as int)) by {
            if b@.skip(pos as int).len() >= 2 && b@.skip(pos as int).take(2) == prompt() {
                assert(b@.skip(pos as int).take(2)[0] == b@[pos as int]);
                assert(b@.skip(pos as int).take(2)[1] == b@[pos + 1]);
                assert(false);
            }
        }
    }
    let ghost stripped = b@.skip(pos as int);
    let ghost whole = split_cmds(stripped, Seq::<u8>::empty());
    let mut out: Vec<Vec<u8>> = Vec::new();
    let mut cur: Vec<u8> = Vec::new();
    let ghost mut done: Seq<Seq<u8>> = Seq::empty();
    let mut i = pos;
    proof {
        assert(whole =~= done + split_cmds(b@.skip(i as int), cur@));
    }
    while i < b.len()
        invariant
            pos <= i <= b@.len(),
            b@ == input.spec_bytes(),
            stripped == strip_prompt(input.spec_bytes()),
            whole == split_cmds(stripped, Seq::empty()),
            whole == done + split_cmds(b@.skip(i as int), cur@),
            out@.len() == done.len(),
            forall|k: int| 0 <= k < done.len() ==> (#[trigger] out@[k])@ == done[k],
        decreases b@.len() - i,
    {
        proof {
            assert(b@.skip(i as int)[0] == b@[i as int]);
            assert(b@.skip(i as int).drop_first() =~= b@.skip(i + 1));
        }
        let is_sep = b.len() - i >= 3 && b[i] == ('\n' as u8) && b[i + 1] == ('$' as u8) && b[i
            + 2] == (' ' as u8);
        proof {
            if is_sep {
                assert(b@.skip(i as int).take(3) =~= cmd_sep());
            } else {
                if b@.skip(i as int).len() >= 3 && b@.skip(i as int).take(3) == cmd_sep() {
                    assert(b@.skip(i as int).take(3)[0] == b@[i as int]);
                    assert(b@.skip(i as int).take(3)[1] == b@[i + 1]);
                    assert(b@.skip(i as int).take(3)[2] == b@[i + 2]);
                    assert(false);
                }
            }
        }
        if is_sep {
            proof {
                assert(split_cmds(b@.skip(i as int), cur@) == seq![cur@] + split_cmds(
                    b@.skip(i as int).skip(3),
                    Seq::<u8>::empty(),
                ));
                assert(b@.skip(i as int).skip(3) =~= b@.skip(i + 3));
            }
            let ghost curb = cur@;
            out.push(cur);
            cur = Vec::new();
            proof {
                done = done.push(curb);
                assert(whole =~= done + split_cmds(b@.skip(i + 3), Seq::<u8>::empty()));
            }
            i += 3;
        } else {
            let ghost oldcur = cur@;
            cur.push(b[i]);
            proof {
                assert(split_cmds(b@.skip(i as int), oldcur) == split_cmds(
                    b@.skip(i + 1),
                    oldcur.push(b@[i as int]),
                ));
            }
            i += 1;
        }
    }
    proof {
        assert(b@.skip(b@.len() as int) =~= Seq::<u8>::empty());
        assert(split_cmds(b@.skip(i as int), cur@) == seq![cur@]);
    }
    let ghost curb = cur@;
    out.push(cur);
    proof {
        done = done.push(curb);
        assert(whole =~= done);
    }
    out
}

/// The mathematical shape of a directory tree: runs as sequences.
pub struct DirView {
    pub dirs: Seq<(Seq<u8>, DirView)>,
    pub files: Seq<(Seq<u8>, u64)>,
    pub total_size: Option<u64>,
}

impl Dir {
    /// The mathematical shape of this tree.
    pub open spec fn dv(&self) -> DirView
        decreases self,
        via Dir::dv_dec
    {
        DirView {
            dirs: dirs_dv(self.dirs@),
            files: self.files@.map_values(|f: (Vec<u8>, u64)| (f.0@, f.1)),
            total_size: self.total_size,
        }
    }

    #[via_fn]
    proof fn dv_dec(&self) {
        assert(decreases_to!(self => self.dirs));
        assert(decreases_to!(self.dirs => self.dirs@));
        assert(decreases_to!(self => self.dirs@));
    }
}

/// The shapes of a run of subdirectories.
pub open spec fn dirs_dv(ds: Seq<(Vec<u8>, Dir)>) -> Seq<(Seq<u8>, DirView)>
    decreases ds,
    via dirs_dv_dec
{
    if ds.len() == 0 {
        Seq::empty()
    } else {
        dirs_dv(ds.drop_last()).push((ds.last().0@, ds.last().1.dv()))
    }
}

#[via_fn]
proof fn dirs_dv_dec(ds: Seq<(Vec<u8>, Dir)>) {
    if ds.len() > 0 {
        assert(decreases_to!(ds => ds.subrange(0, ds.len() - 1)));
        assert(ds.drop_last() == ds.subrange(0, ds.len() - 1));
        assert(decreases_to!(ds => ds[ds.len() - 1]));
        assert(ds.last() == ds[ds.len() - 1]);
    }
}

/// The shape of a run, entry by entry.
pub proof fn lemma_dirs_dv_index(ds: Seq<(Vec<u8>, Dir)>)
    ensures
        dirs_dv(ds).len() == ds.len(),
        forall|k: int|
            0 <= k < ds.len() ==> (#[trigger] dirs_dv(ds)[k]) == ((ds[k].0@, ds[k].1.dv())),
    decreases ds.len(),
{
    if ds.len() > 0 {
        lemma_dirs_dv_index(ds.drop_last());
        assert(forall|k: int|
            0 <= k < ds.drop_last().len() ==> (#[trigger] ds.drop_last()[k]) == ds[k]);
        assert(ds.last() == ds[ds.len() - 1]);
        assert(forall|k: int|
            0 <= k < ds.len() - 1 ==> (#[trigger] dirs_dv(ds)[k]) == dirs_dv(ds.drop_last())[k]);
    }
}

/// An empty directory, as a shape.
pub open spec fn empty_dv() -> DirView {
    DirView { dirs: Seq::empty(), files: Seq::empty(), total_size: None }
}

/// The position of the named subdirectory, or a negative value.
pub open spec fn find_child(ds: Seq<(Seq<u8>, DirView)>, name: Seq<u8>) -> int
    decreases ds.len(),
{
    if ds.len() == 0 {
        -1
    } else if ds[0].0 == name {
        0
    } else if find_child(ds.drop_first(), name) < 0 {
        -1
    } else {
        find_child(ds.drop_first(), name) + 1
    }
}

/// The tree with the named subdirectory present under the given path: it is
/// created empty when absent; a dangling path leaves the tree unchanged.
pub open spec fn ensure_child(d: DirView, path: Seq<Seq<u8>>, i: int, name: Seq<u8>) -> DirView
    decreases path.len() - i,
{
    if i < 0 || i >= path.len() {
        if find_child(d.dirs, name) >= 0 {
            d
        } else {
            DirView { dirs: d.dirs.push((name, empty_dv())), files: d.files, total_size: d.total_size }
        }
    } else {
        let j = find_child(d.dirs, path[i]);
        if j < 0 {
            d
        } else {
            DirView {
                dirs: d.dirs.update(j, (path[i], ensure_child(d.dirs[j].1, path, i + 1, name))),
                files: d.files,
                total_size: d.total_size,
            }
        }
    }
}

/// A run of files with one name set to one size: replaced when present,
/// appended when new.
pub open spec fn upsert_file(fs: Seq<(Seq<u8>, u64)>, name: Seq<u8>, size: u64) -> Seq<
    (Seq<u8>, u64),
>
    decreases fs.len(),
{
    if fs.len() == 0 {
        seq![(name, size)]
    } else if fs[0].0 == name {
        seq![(name, size)] + fs.drop_first()
    } else {
        seq![fs[0]] + upsert_file(fs.drop_first(), name, size)
    }
}

/// The first blank of a listing entry, or the length when none is.
pub open spec fn first_blank(e: Seq<u8>) -> int
    decreases e.len(),
{
    if e.len() == 0 {
        0
    } else if e[0] == (' ' as u8) {
        0
    } else {
        1 + first_blank(e.drop_first())
    }
}

/// The bytes of the word that marks a subdirectory entry.
pub open spec fn dir_word() -> Seq<u8> {
    seq![('d' as u8), ('i' as u8), ('r' as u8)]
}

/// A listing entry: a word, a blank, and a name; the word is the
/// subdirectory mark or a file size.
pub open spec fn entry_ok(e: Seq<u8>) -> bool {
    let k = first_blank(e);
    &&& 0 < k < e.len()
    &&& (e.subrange(0, k) == dir_word() || (crate::assignments::is_digits(e.subrange(0, k))
        && crate::assignments::digits_val(e.subrange(0, k)) <= u64::MAX))
}

/// The files after folding in a run of listing entries; subdirectory
/// entries change nothing.
pub open spec fn apply_entries(fs: Seq<(Seq<u8>, u64)>, entries: Seq<Seq<u8>>, j: int) -> Seq<
    (Seq<u8>, u64),
>
    decreases entries.len() - j,
{
    if j < 0 || j >= entries.len() {
        fs
    } else {
        let e = entries[j];
        let k = first_blank(e);
        if e.subrange(0, k) == dir_word() {
            apply_entries(fs, entries, j + 1)
        } else {
            apply_entries(
                upsert_file(
                    fs,
                    e.subrange(k + 1, e.len() as int),
                    crate::assignments::digits_val(e.subrange(0, k)) as u64,
                ),
                entries,
                j + 1,
            )
        }
    }
}

/// The tree with a listing's files folded in under the given path; a
/// dangling path leaves the tree unchanged.
pub open spec fn add_files(d: DirView, path: Seq<Seq<u8>>, i: int, entries: Seq<Seq<u8>>) -> DirView
    decreases path.len() - i,
{
    if i < 0 || i >= path.len() {
        DirView { dirs: d.dirs, files: apply_entries(d.files, entries, 0), total_size: d.total_size }
    } else {
        let j = find_child(d.dirs, path[i]);
        if j < 0 {
            d
        } else {
            DirView {
                dirs: d.dirs.update(j, (path[i], add_files(d.dirs[j].1, path, i + 1, entries))),
                files: d.files,
                total_size: d.total_size,
            }
        }
    }
}

/// The bytes of the command that returns to the root.
pub open spec fn cd_root() -> Seq<u8> {
    seq![('c' as u8), ('d' as u8), (' ' as u8), ('/' as u8)]
}

/// The bytes of the command that steps out of a directory.
pub open spec fn cd_up() -> Seq<u8> {
    seq![('c' as u8), ('d' as u8), (' ' as u8), ('.' as u8), ('.' as u8)]
}

/// The bytes of the listing command.
pub open spec fn ls_word() -> Seq<u8> {
    seq![('l' as u8), ('s' as u8)]
}

/// The bytes of the prefix of a step-into command.
pub open spec fn cd_prefix() -> Seq<u8> {
    seq![('c' as u8), ('d' as u8), (' ' as u8)]
}

/// A command the session accepts: a return to the root, a step out, a
/// listing of well-formed entries, or a step into a named directory.
pub open spec fn cmd_ok(c: Seq<u8>) -> bool {
    let lines = crate::cpu::split_lines(c, Seq::empty());
    &&& lines.len() >= 1
    &&& (lines[0] == cd_root() || lines[0] == cd_up() || (lines[0] == ls_word() && forall|j: int|
        1 <= j < lines.len() ==> entry_ok(#[trigger] lines[j])) || (lines[0].len() > 3
        && lines[0].take(3) == cd_prefix()))
}

/// The tree and working path after one command.
pub open spec fn sim_step(tree: DirView, path: Seq<Seq<u8>>, c: Seq<u8>) -> (DirView, Seq<Seq<u8>>) {
    let lines = crate::cpu::split_lines(c, Seq::empty());
    let first = lines[0];
    if first == cd_root() {
        (tree, Seq::empty())
    } else if first == cd_up() {
        if path.len() > 0 {
            (tree, path.drop_last())
        } else {
            (tree, path)
        }
    } else if first == ls_word() {
        (add_files(tree, path, 0, lines.drop_first()), path)
    } else {
        let name = first.skip(3);
        (ensure_child(tree, path, 0, name), path.push(name))
    }
}

/// The tree and working path after the first `k` commands, starting from an
/// empty root.
pub open spec fn sim(cmds: Seq<Seq<u8>>, k: int) -> (DirView, Seq<Seq<u8>>)
    decreases k,
{
    if k <= 0 {
        (empty_dv(), Seq::empty())
    } else {
        let prev = sim(cmds, k - 1);
        sim_step(prev.0, prev.1, cmds[k - 1])
    }
}

/// The shapes of a run of path names.
pub open spec fn path_views(p: Seq<Vec<u8>>) -> Seq<Seq<u8>> {
    p.map_values(|v: Vec<u8>| v@)
}

/// The shapes of a run of command texts.
pub open spec fn cmd_views(p: Seq<Vec<u8>>) -> Seq<Seq<u8>> {
    p.map_values(|v: Vec<u8>| v@)
}

/// Whether two byte strings hold the same bytes.
fn bytes_same(a: &Vec<u8>, b: &Vec<u8>) -> (r: bool)
    ensures
        r == (a@ == b@),
{
    if a.len() != b.len() {
        return false;
    }
    let mut i: usize = 0;
    while i < a.len()
        invariant
            a@.len() == b@.len(),
            i <= a@.len(),
            forall|k: int| 0 <= k < i ==> a@[k] == b@[k],
        decreases a@.len() - i,
    {
        if a[i] != b[i] {
            return false;
        }
        i += 1;
    }
    proof {
        assert(a@ =~= b@);
    }
    true
}

/// A found first matching child is what the search reports.
proof fn lemma_find_child_at(ds: Seq<(Seq<u8>, DirView)>, name: Seq<u8>, i: int)
    requires
        0 <= i < ds.len(),
        ds[i].0 == name,
        forall|k: int| 0 <= k < i ==> (#[trigger] ds[k]).0 != name,
    ensures
        find_child(ds, name) == i,
    decreases i,
{
    if i > 0 {
        assert(forall|k: int|
            0 <= k < ds.drop_first().len() ==> (#[trigger] ds.drop_first()[k]) == ds[k + 1]);
        lemma_find_child_at(ds.drop_first(), name, i - 1);
    }
}

/// With no matching child, the search reports none.
proof fn lemma_find_child_none(ds: Seq<(Seq<u8>, DirView)>, name: Seq<u8>)
    requires
        forall|k: int| 0 <= k < ds.len() ==> (#[trigger] ds[k]).0 != name,
    ensures
        find_child(ds, name) < 0,
    decreases ds.len(),
{
    if ds.len() > 0 {
        assert(forall|k: int|
            0 <= k < ds.drop_first().len() ==> (#[trigger] ds.drop_first()[k]) == ds[k + 1]);
        lemma_find_child_none(ds.drop_first(), name);
    }
}

/// The position of the named subdirectory, computed.
fn find_child_exec(ds: &Vec<(Vec<u8>, Dir)>, name: &Vec<u8>) -> (r: Option<usize>)
    ensures
        match r {
            Some(j) => j < ds@.len() && find_child(dirs_dv(ds@), name@) == j && dirs_dv(ds@)[
                j as int].0 == name@,
            None => find_child(dirs_dv(ds@), name@) < 0,
        },
{
    proof {
        lemma_dirs_dv_index(ds@);
    }
    let mut j: usize = 0;
    while j < ds.len()
        invariant
            j <= ds@.len(),
            dirs_dv(ds@).len() == ds@.len(),
            forall|k: int|
                0 <= k < ds@.len() ==> (#[trigger] dirs_dv(ds@)[k]) == ((ds@[k].0@, ds@[
                k].1.dv())),
            forall|k: int| 0 <= k < j ==> (#[trigger] dirs_dv(ds@)[k]).0 != name@,
        decreases ds@.len() - j,
    {
        if bytes_same(&ds[j].0, name) {
            proof {
                lemma_find_child_at(dirs_dv(ds@), name@, j as int);
            }
            return Some(j);
        }
        j += 1;
    }
    proof {
        lemma_find_child_none(dirs_dv(ds@), name@);
    }
    None
}

/// The tree with the named subdirectory ensured under the path, computed.
fn ensure_child_exec(d: Dir, path: &Vec<Vec<u8>>, i: usize, name: Vec<u8>) -> (r: Dir)
    requires
        i <= path@.len(),
    ensures
        r.dv() == ensure_child(d.dv(), path_views(path@), i as int, name@),
    decreases path@.len() - i,
{
    if i == path.len() {
        match find_child_exec(&d.dirs, &name) {
            Some(_) => d,
            None => {
                let ghost olddirs = d.dirs@;
                let mut d2 = d;
                let fresh = Dir { dirs: Vec::new(), files: Vec::new(), total_size: None };
                proof {
                    assert(fresh.dv().dirs =~= empty_dv().dirs);
                    assert(fresh.dv().files =~= empty_dv().files);
                    assert(fresh.dv() == empty_dv());
                }
                d2.dirs.push((name, fresh));
                proof {
                    assert(d2.dirs@.drop_last() =~= olddirs);
                    assert(d2.dirs@.last().1.dv() == empty_dv());
                    assert(d2.dv().dirs == dirs_dv(olddirs).push(
                        (d2.dirs@.last().0@, empty_dv()),
                    ));
                    assert(d2.dv().files =~= d.dv().files);
                }
                d2
            },
        }
    } else {
        match find_child_exec(&d.dirs, &path[i]) {
            None => {
                proof {
                    assert(path_views(path@)[i as int] == path@[i as int]@);
                }
                d
            },
            Some(j) => {
                let Dir { mut dirs, files, total_size } = d;
                let ghost oldds = dirs@;
                let (cname, child) = dirs.remove(j);
                let child2 = ensure_child_exec(child, path, i + 1, name);
                dirs.insert(j, (cname, child2));
                let r = Dir { dirs, files, total_size };
                proof {
                    lemma_dirs_dv_index(oldds);
                    lemma_dirs_dv_index(r.dirs@);
                    assert(r.dirs@ =~= oldds.update(j as int, (oldds[j as int].0, child2)));
                    assert(dirs_dv(r.dirs@) =~= dirs_dv(oldds).update(
                        j as int,
                        (oldds[j as int].0@, child2.dv()),
                    ));
                    assert(path_views(path@)[i as int] == path@[i as int]@);
                    assert(r.dv().files =~= files@.map_values(|f: (Vec<u8>, u64)| (f.0@, f.1)));
                    assert(r.dv() == ensure_child(
                        DirView {
                            dirs: dirs_dv(oldds),
                            files: files@.map_values(|f: (Vec<u8>, u64)| (f.0@, f.1)),
                            total_size,
                        },
                        path_views(path@),
                        i as int,
                        name@,
                    ));
                }
                r
            },
        }
    }
}

/// A found first blank is what the search reports.
proof fn lemma_first_blank_at(e: Seq<u8>, i: int)
    requires
        0 <= i < e.len(),
        e[i] == (' ' as u8),
        forall|k: int| 0 <= k < i ==> e[k] != (' ' as u8),
    ensures
        first_blank(e) == i,
    decreases i,
{
    if i > 0 {
        assert(forall|k: int|
            0 <= k < e.drop_first().len() ==> (#[trigger] e.drop_first()[k]) == e[k + 1]);
        lemma_first_blank_at(e.drop_first(), i - 1);
    }
}

/// A run of files with one name set to one size, in place at its first
/// occurrence.
proof fn lemma_upsert_file_at(fs: Seq<(Seq<u8>, u64)>, i: int, name: Seq<u8>, size: u64)
    requires
        0 <= i < fs.len(),
        fs[i].0 == name,
        forall|k: int| 0 <= k < i ==> (#[trigger] fs[k]).0 != name,
    ensures
        upsert_file(fs, name, size) == fs.update(i, (name, size)),
    decreases i,
{
    if i == 0 {
        assert(seq![(name, size)] + fs.drop_first() =~= fs.update(0, (name, size)));
    } else {
        assert(forall|k: int|
            0 <= k < fs.drop_first().len() ==> (#[trigger] fs.drop_first()[k]) == fs[k + 1]);
        lemma_upsert_file_at(fs.drop_first(), i - 1, name, size);
        assert(seq![fs[0]] + fs.drop_first().update(i - 1, (name, size)) =~= fs.update(
            i,
            (name, size),
        ));
    }
}

/// A new name appends.
proof fn lemma_upsert_file_absent(fs: Seq<(Seq<u8>, u64)>, name: Seq<u8>, size: u64)
    requires
        forall|k: int| 0 <= k < fs.len() ==> (#[trigger] fs[k]).0 != name,
    ensures
        upsert_file(fs, name, size) == fs.push((name, size)),
    decreases fs.len(),
{
    if fs.len() == 0 {
        assert(upsert_file(fs, name, size) =~= fs.push((name, size)));
    } else {
        assert(forall|k: int|
            0 <= k < fs.drop_first().len() ==> (#[trigger] fs.drop_first()[k]) == fs[k + 1]);
        lemma_upsert_file_absent(fs.drop_first(), name, size);
        assert(seq![fs[0]] + fs.drop_first().push((name, size)) =~= fs.push((name, size)));
    }
}

/// The files of a run, as shapes.
pub open spec fn files_views(fs: Seq<(Vec<u8>, u64)>) -> Seq<(Seq<u8>, u64)> {
    fs.map_values(|f: (Vec<u8>, u64)| (f.0@, f.1))
}

/// One listing entry folded into a run of files, computed.
fn apply_entry_exec(files: &mut Vec<(Vec<u8>, u64)>, e: &Vec<u8>)
    requires
        entry_ok(e@),
    ensures
        ({
            let k = first_blank(e@);
            files_views(final(files)@) == if e@.subrange(0, k) == dir_word() {
                files_views(old(files)@)
            } else {
                upsert_file(
                    files_views(old(files)@),
                    e@.subrange(k + 1, e@.len() as int),
                    crate::assignments::digits_val(e@.subrange(0, k)) as u64,
                )
            }
        }),
{
    let mut k: usize = 0;
    while k < e.len() && e[k] != (' ' as u8)
        invariant
            k <= e@.len(),
            entry_ok(e@),
            forall|t: int| 0 <= t < k ==> e@[t] != (' ' as u8),
        decreases e@.len() - k,
    {
        k += 1;
    }
    proof {
        assert(k < e@.len()) by {
            if k == e@.len() {
                let kb = first_blank(e@);
                assert(e@[kb] == (' ' as u8)) by {
                    lemma_first_blank_bounds(e@);
                }
            }
        }
        lemma_first_blank_at(e@, k as int);
    }
    let is_dir = k == 3 && e[0] == ('d' as u8) && e[1] == ('i' as u8) && e[2] == ('r' as u8);
    proof {
        if is_dir {
            assert(e@.subrange(0, 3) =~= dir_word());
        } else {
            if e@.subrange(0, k as int) == dir_word() {
                assert(e@.subrange(0, k as int).len() == 3);
                assert(e@.subrange(0, 3)[0] == e@[0]);
                assert(e@.subrange(0, 3)[1] == e@[1]);
                assert(e@.subrange(0, 3)[2] == e@[2]);
                assert(false);
            }
        }
    }
    if is_dir {
        return ;
    }
    let size = match assignments_digits(e, k) {
        Some(v) => v,
        None => {
            proof {
                assert(false);
            }
            0
        },
    };
    let mut name: Vec<u8> = Vec::new();
    let mut t = k + 1;
    while t < e.len()
        invariant
            k + 1 <= t <= e@.len(),
            name@ =~= e@.subrange(k + 1, t as int),
        decreases e@.len() - t,
    {
        name.push(e[t]);
        proof {
            assert(name@ =~= e@.subrange(k + 1, t + 1));
        }
        t += 1;
    }
    proof {
        assert(name@ =~= e@.subrange(k + 1, e@.len() as int));
    }
    let mut j: usize = 0;
    let n = files.len();
    while j < n && !bytes_same(&files[j].0, &name)
        invariant
            j <= n == files@.len(),
            files@ == old(files)@,
            name@ == e@.subrange(k + 1, e@.len() as int),
            forall|t2: int| 0 <= t2 < j ==> (#[trigger] files@[t2]).0@ != name@,
        decreases n - j,
    {
        j += 1;
    }
    let ghost prev = files_views(files@);
    proof {
        assert(forall|t2: int|
            0 <= t2 < prev.len() ==> (#[trigger] prev[t2]) == ((files@[t2].0@, files@[t2].1)));
        assert(forall|t2: int|
            0 <= t2 < j ==> (#[trigger] prev[t2]).0 != e@.subrange(k + 1, e@.len() as int));
    }
    if j < n {
        proof {
            assert(prev[j as int].0 == e@.subrange(k + 1, e@.len() as int));
            lemma_upsert_file_at(prev, j as int, e@.subrange(k + 1, e@.len() as int), size);
        }
        files[j] = (name, size);
        proof {
            assert(files_views(files@) =~= prev.update(
                j as int,
                (e@.subrange(k + 1, e@.len() as int), size),
            ));
        }
    } else {
        proof {
            lemma_upsert_file_absent(prev, e@.subrange(k + 1, e@.len() as int), size);
        }
        files.push((name, size));
        proof {
            assert(files_views(files@) =~= prev.push((e@.subrange(k + 1, e@.len() as int), size)));
        }
    }
}

/// The tree with a listing folded in under the path, computed.
fn add_files_exec(d: Dir, path: &Vec<Vec<u8>>, i: usize, entries: &Vec<Vec<u8>>) -> (r: Dir)
    requires
        i <= path@.len(),
        forall|k: int| 0 <= k < entries@.len() ==> entry_ok((#[trigger] entries@[k])@),
    ensures
        r.dv() == add_files(d.dv(), path_views(path@), i as int, cmd_views(entries@)),
    decreases path@.len() - i,
{
    if i == path.len() {
        let Dir { dirs, mut files, total_size } = d;
        let ghost origv = files_views(files@);
        let ghost evs = cmd_views(entries@);
        let m = entries.len();
        let mut j: usize = 0;
        proof {
            assert(apply_entries(origv, evs, 0) == apply_entries(files_views(files@), evs, 0));
        }
        while j < m
            invariant
                j <= m == entries@.len(),
                evs == cmd_views(entries@),
                forall|k: int| 0 <= k < entries@.len() ==> entry_ok((#[trigger] entries@[k])@),
                apply_entries(files_views(files@), evs, j as int) == apply_entries(origv, evs, 0),
            decreases m - j,
        {
            proof {
                assert(evs[j as int] == entries@[j as int]@);
                assert(entry_ok(evs[j as int]));
            }
            let ghost before = files_views(files@);
            apply_entry_exec(&mut files, &entries[j]);
            proof {
                let e = evs[j as int];
                let kb = first_blank(e);
                assert(apply_entries(before, evs, j as int) == (if e.subrange(0, kb) == dir_word() {
                    apply_entries(before, evs, j + 1)
                } else {
                    apply_entries(
                        upsert_file(
                            before,
                            e.subrange(kb + 1, e.len() as int),
                            crate::assignments::digits_val(e.subrange(0, kb)) as u64,
                        ),
                        evs,
                        j + 1,
                    )
                }));
            }
            j += 1;
        }
        let r = Dir { dirs, files, total_size };
        proof {
            assert(apply_entries(files_views(r.files@), evs, m as int) == files_views(r.files@));
            assert(r.dv().files == files_views(r.files@));
            assert(r.dv().dirs == d.dv().dirs);
            assert(r.dv() == add_files(d.dv(), path_views(path@), i as int, evs));
        }
        r
    } else {
        match find_child_exec(&d.dirs, &path[i]) {
            None => {
                proof {
                    assert(path_views(path@)[i as int] == path@[i as int]@);
                }
                d
            },
            Some(j) => {
                let Dir { mut dirs, files, total_size } = d;
                let ghost oldds = dirs@;
                let (cname, child) = dirs.remove(j);
                let child2 = add_files_exec(child, path, i + 1, entries);
                dirs.insert(j, (cname, child2));
                let r = Dir { dirs, files, total_size };
                proof {
                    lemma_dirs_dv_index(oldds);
                    lemma_dirs_dv_index(r.dirs@);
                    assert(r.dirs@ =~= oldds.update(j as int, (oldds[j as int].0, child2)));
                    assert(dirs_dv(r.dirs@) =~= dirs_dv(oldds).update(
                        j as int,
                        (oldds[j as int].0@, child2.dv()),
                    ));
                    assert(path_views(path@)[i as int] == path@[i as int]@);
                    assert(r.dv().files =~= files@.map_values(|f: (Vec<u8>, u64)| (f.0@, f.1)));
                    assert(r.dv() == add_files(
                        DirView {
                            dirs: dirs_dv(oldds),
                            files: files@.map_values(|f: (Vec<u8>, u64)| (f.0@, f.1)),
                            total_size,
                        },
                        path_views(path@),
                        i as int,
                        cmd_views(entries@),
                    ));
                }
                r
            },
        }
    }
}

/// The lines of a command, as vectors of bytes.
fn command_lines(c: &Vec<u8>) -> (r: Vec<Vec<u8>>)
    ensures
        r@.len() == crate::cpu::split_lines(c@, Seq::empty()).len(),
        forall|k: int|
            0 <= k < r@.len() ==> (#[trigger] r@[k])@ == crate::cpu::split_lines(
                c@,
                Seq::empty(),
            )[k],
{
    let ghost whole = crate::cpu::split_lines(c@, Seq::<u8>::empty());
    let mut out: Vec<Vec<u8>> = Vec::new();
    let mut cur: Vec<u8> = Vec::new();
    let ghost mut done: Seq<Seq<u8>> = Seq::empty();
    let mut i: usize = 0;
    proof {
        assert(c@.skip(0) =~= c@);
        assert(whole =~= done + crate::cpu::split_lines(c@.skip(0), cur@));
    }
    while i < c.len()
        invariant
            i <= c@.len(),
            whole == crate::cpu::split_lines(c@, Seq::empty()),
            whole == done + crate::cpu::split_lines(c@.skip(i as int), cur@),
            out@.len() == done.len(),
            forall|k: int| 0 <= k < done.len() ==> (#[trigger] out@[k])@ == done[k],
        decreases c@.len() - i,
    {
        let ch = c[i];
        proof {
            assert(c@.skip(i as int)[0] == c@[i as int]);
            assert(c@.skip(i as int).drop_first() =~= c@.skip(i + 1));
        }
        if ch == ('\n' as u8) {
            proof {
                assert(crate::cpu::split_lines(c@.skip(i as int), cur@) == seq![cur@]
                    + crate::cpu::split_lines(c@.skip(i + 1), Seq::<u8>::empty()));
            }
            let ghost curb = cur@;
            out.push(cur);
            cur = Vec::new();
            proof {
                done = done.push(curb);
                assert(whole =~= done + crate::cpu::split_lines(c@.skip(i + 1), Seq::<u8>::empty()));
            }
        } else if ch != ('\r' as u8) {
            let ghost oldcur = cur@;
            cur.push(ch);
            proof {
                assert(crate::cpu::split_lines(c@.skip(i as int), oldcur) == crate::cpu::split_lines(
                    c@.skip(i + 1),
                    oldcur.push(ch),
                ));
            }
        } else {
            proof {
                assert(crate::cpu::split_lines(c@.skip(i as int), cur@) == crate::cpu::split_lines(
                    c@.skip(i + 1),
                    cur@,
                ));
            }
        }
        i += 1;
    }
    proof {
        assert(c@.skip(c@.len() as int) =~= Seq::<u8>::empty());
    }
    if cur.len() > 0 {
        proof {
            assert(crate::cpu::split_lines(c@.skip(i as int), cur@) == seq![cur@]);
        }
        let ghost curb = cur@;
        out.push(cur);
        proof {
            done = done.push(curb);
            assert(whole =~= done);
        }
    } else {
        proof {
            assert(crate::cpu::split_lines(c@.skip(i as int), cur@) =~= Seq::<Seq<u8>>::empty());
            assert(whole =~= done);
        }
    }
    out
}

/// Replay a terminal session and return the directory tree it reveals:
/// each command either moves the working directory or lists one
/// directory's contents.  Every command must follow the session grammar.
pub fn simulate_commands(commands: &Vec<Vec<u8>>) -> (r: Dir)
    requires
        forall|k: int| 0 <= k < commands@.len() ==> cmd_ok((#[trigger] commands@[k])@),
    ensures
        r.dv() == sim(cmd_views(commands@), commands@.len() as int).0,
{
    let mut root = Dir { dirs: Vec::new(), files: Vec::new(), total_size: None };
    let mut stack: Vec<Vec<u8>> = Vec::new();
    proof {
        assert(root.dv().dirs =~= empty_dv().dirs);
        assert(root.dv().files =~= empty_dv().files);
        assert(root.dv() == empty_dv());
        assert(path_views(stack@) =~= Seq::<Seq<u8>>::empty());
    }
    let n = commands.len();
    let mut k: usize = 0;
    while k < n
        invariant
            k <= n == commands@.len(),
            forall|k2: int| 0 <= k2 < commands@.len() ==> cmd_ok((#[trigger] commands@[k2])@),
            root.dv() == sim(cmd_views(commands@), k as int).0,
            path_views(stack@) == sim(cmd_views(commands@), k as int).1,
        decreases n - k,
    {
        let lines = command_lines(&commands[k]);
        proof {
            assert(cmd_views(commands@)[k as int] == commands@[k as int]@);
            assert(cmd_ok(commands@[k as int]@));
            assert(lines@.len() >= 1);
        }
        let first = &lines[0];
        let ghost firstv = crate::cpu::split_lines(commands@[k as int]@, Seq::empty())[0];
        let is_root = first.len() == 4 && first[0] == ('c' as u8) && first[1] == ('d' as u8)
            && first[2] == (' ' as u8) && first[3] == ('/' as u8);
        let is_up = first.len() == 5 && first[0] == ('c' as u8) && first[1] == ('d' as u8)
            && first[2] == (' ' as u8) && first[3] == ('.' as u8) && first[4] == ('.' as u8);
        let is_ls = first.len() == 2 && first[0] == ('l' as u8) && first[1] == ('s' as u8);
        proof {
            assert(first@ == firstv);
            if is_root {
                assert(first@ =~= cd_root());
            } else {
                if firstv == cd_root() {
                    assert(first@[0] == ('c' as u8) && first@[1] == ('d' as u8) && first@[2] == (
                    ' ' as u8) && first@[3] == ('/' as u8));
                    assert(false);
                }
            }
            if is_up {
                assert(first@ =~= cd_up());
            } else {
                if firstv == cd_up() {
                    assert(false);
                }
            }
            if is_ls {
                assert(first@ =~= ls_word());
            } else {
                if firstv == ls_word() {
                    assert(false);
                }
            }
        }
        if is_root {
            stack = Vec::new();
            proof {
                assert(path_views(stack@) =~= Seq::<Seq<u8>>::empty());
            }
        } else if is_up {
            if stack.len() > 0 {
                let ghost before = path_views(stack@);
                stack.pop();
                proof {
                    assert(path_views(stack@) =~= before.drop_last());
                }
            }
        } else if is_ls {
            let mut entries: Vec<Vec<u8>> = Vec::new();
            let mut t: usize = 1;
            while t < lines.len()
                invariant
                    1 <= t <= lines@.len(),
                    entries@.len() == t - 1,
                    forall|k2: int|
                        0 <= k2 < t - 1 ==> (#[trigger] entries@[k2])@ == lines@[k2 + 1]@,
                decreases lines@.len() - t,
            {
                let mut line_copy: Vec<u8> = Vec::new();
                let w = lines[t].len();
                let mut b: usize = 0;
                while b < w
                    invariant
                        b <= w,
                        t < lines@.len(),
                        w == lines@[t as int]@.len(),
                        line_copy@ =~= lines@[t as int]@.take(b as int),
                    decreases w - b,
                {
                    line_copy.push(lines[t][b]);
                    proof {
                        assert(line_copy@ =~= lines@[t as int]@.take(b + 1));
                    }
                    b += 1;
                }
                proof {
                    assert(line_copy@ =~= lines@[t as int]@);
                }
                entries.push(line_copy);
                t += 1;
            }
            proof {
                let lv = crate::cpu::split_lines(commands@[k as int]@, Seq::empty());
                assert(cmd_views(entries@) =~= lv.drop_first()) by {
                    assert(forall|k2: int|
                        0 <= k2 < entries@.len() ==> (#[trigger] cmd_views(entries@)[k2])
                            == entries@[k2]@);
                    assert(forall|k2: int|
                        0 <= k2 < lv.drop_first().len() ==> (#[trigger] lv.drop_first()[k2]) == lv[
                        k2 + 1]);
                }
                assert(forall|k2: int|
                    0 <= k2 < entries@.len() ==> entry_ok((#[trigger] entries@[k2])@));
            }
            root = add_files_exec(root, &stack, 0, &entries);
        } else {
            proof {
                assert(firstv.len() > 3 && firstv.take(3) == cd_prefix());
            }
            let mut name: Vec<u8> = Vec::new();
            let w = first.len();
            let mut b: usize = 3;
            while b < w
                invariant
                    3 <= b <= w,
                    w == first@.len(),
                    name@ =~= first@.subrange(3, b as int),
                decreases w - b,
            {
                name.push(first[b]);
                proof {
                    assert(name@ =~= first@.subrange(3, b + 1));
                }
                b += 1;
            }
            proof {
                assert(name@ =~= first@.skip(3));
            }
            let name2 = clone_bytes(&name);
            root = ensure_child_exec(root, &stack, 0, name);
            stack.push(name2);
            proof {
                assert(path_views(stack@) =~= path_views(stack@.drop_last()).push(firstv.skip(3)));
            }
        }
        k += 1;
    }
    root
}

/// A well-formed entry has its blank inside the text.
proof fn lemma_first_blank_bounds(e: Seq<u8>)
    ensures
        0 <= first_blank(e) <= e.len(),
        first_blank(e) < e.len() ==> e[first_blank(e)] == (' ' as u8),
    decreases e.len(),
{
    if e.len() > 0 && e[0] != (' ' as u8) {
        lemma_first_blank_bounds(e.drop_first());
        assert(forall|t: int|
            0 <= t < e.drop_first().len() ==> (#[trigger] e.drop_first()[t]) == e[t + 1]);
    }
}

/// The digits before position `k`, as a number.
fn assignments_digits(e: &Vec<u8>, k: usize) -> (r: Option<u64>)
    requires
        k <= e@.len(),
    ensures
        match r {
            Some(v) => crate::assignments::is_digits(e@.subrange(0, k as int)) && v
                == crate::assignments::digits_val(e@.subrange(0, k as int)),
            None => !(crate::assignments::is_digits(e@.subrange(0, k as int))
                && crate::assignments::digits_val(e@.subrange(0, k as int)) <= u64::MAX),
        },
{
    crate::cpu::parse_digits_bounded(e.as_slice(), 0, k, u64::MAX)
}

/// Correct totals in a run mean correct totals at every member.
pub proof fn lemma_dirs_totals_ok_at(ds: Seq<(Vec<u8>, Dir)>, i: int)
    requires
        dirs_totals_ok(ds),
        0 <= i < ds.len(),
    ensures
        totals_ok(ds[i].1),
    decreases ds.len(),
{
    if i == ds.len() - 1 {
        assert(ds.last() == ds[i]);
    } else {
        assert(ds.drop_last()[i] == ds[i]);
        lemma_dirs_totals_ok_at(ds.drop_last(), i);
    }
}

} // verus!
