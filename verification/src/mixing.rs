//! Mixing a circular list of numbers.
//!
//! The list holds one number per input line, times a decryption key.  Each
//! element keeps its identity (its original position); mixing moves every
//! element, in original order, forward through the circle by its own value,
//! modulo one less than the list length (the number of slots an element can
//! move through once it is taken out).  The arrangement is kept as the
//! sequence of original positions in current order.

use vstd::prelude::*;
use vstd::string::StringSliceAdditionalSpecFns;

use crate::cpu::{int_val, split_lines, valid_int};

verus! {

/// The circular list: each element's value, by original position, and the
/// current arrangement as original positions in list order.
#[derive(Debug)]
pub struct ReorgList {
    pub values: Vec<i64>,
    pub order: Vec<usize>,
}

/// The number of steps element `i` moves: its value, reduced to the
/// `m = len - 1` slots it can land in, as a non-negative offset.
pub open spec fn offset_of(v: int, m: int) -> int {
    if v >= 0 {
        v % m
    } else if (-v) % m == 0 {
        0
    } else {
        m - ((-v) % m)
    }
}

/// Where element `i` (at position `p` of `n` positions) lands: forward by
/// its offset around the circle of the other `n - 1` elements; a landing on
/// slot zero wraps to the far end, as in a circle it is the same slot.
pub open spec fn landing(p: int, off: int, n: int) -> int {
    let q = (p + off) % (n - 1);
    if q == 0 {
        n - 1
    } else {
        q
    }
}

/// The position of `x` in `order`, or the length if it is absent.
pub open spec fn pos_of(order: Seq<usize>, x: usize) -> int
    decreases order.len(),
{
    if order.len() == 0 {
        0
    } else if order[0] == x {
        0
    } else {
        1 + pos_of(order.drop_first(), x)
    }
}

/// The arrangement after moving element `i` by its value.
pub open spec fn spec_move(order: Seq<usize>, values: Seq<i64>, i: usize) -> Seq<usize> {
    let p = pos_of(order, i);
    let off = offset_of(values[i as int] as int, order.len() - 1);
    let q = landing(p, off, order.len() as int);
    order.remove(p).insert(q, i)
}

/// The arrangement after mixing the first `n` elements, in original order.
pub open spec fn spec_mix(order: Seq<usize>, values: Seq<i64>, n: int) -> Seq<usize>
    decreases n,
{
    if n <= 0 {
        order
    } else {
        spec_move(spec_mix(order, values, n - 1), values, (n - 1) as usize)
    }
}

/// If `x` occurs in `order`, its position is in range and holds it.
proof fn lemma_pos_of(order: Seq<usize>, x: usize)
    ensures
        order.contains(x) ==> 0 <= pos_of(order, x) < order.len() && order[pos_of(order, x)] == x,
        !order.contains(x) ==> pos_of(order, x) == order.len(),
        forall|k: int| 0 <= k < pos_of(order, x) ==> order[k] != x,
    decreases order.len(),
{
    if order.len() > 0 && order[0] != x {
        lemma_pos_of(order.drop_first(), x);
        assert(forall|k: int|
            0 <= k < order.drop_first().len() ==> (#[trigger] order.drop_first()[k]) == order[k
                + 1]);
        if order.contains(x) {
            let w = choose|w: int| 0 <= w < order.len() && order[w] == x;
            assert(order.drop_first()[w - 1] == x);
            assert(order.drop_first().contains(x));
        }
        if order.drop_first().contains(x) {
            let w = choose|w: int| 0 <= w < order.drop_first().len() && order.drop_first()[w] == x;
            assert(order[w + 1] == x);
        }
        assert forall|k: int| 0 <= k < pos_of(order, x) implies order[k] != x by {
            if k > 0 {
                assert(order.drop_first()[k - 1] == order[k]);
            }
        }
    }
}

impl ReorgList {
    /// Every original position occurs exactly once in the arrangement.
    pub open spec fn wf(&self) -> bool {
        &&& self.order@.len() == self.values@.len()
        &&& forall|p: int|
            0 <= p < self.order@.len() ==> (#[trigger] self.order@[p]) < self.values@.len()
        &&& forall|p: int, q: int|
            #![trigger self.order@[p], self.order@[q]]
            0 <= p < q < self.order@.len() ==> self.order@[p] != self.order@[q]
    }

    /// Parse one number per line and scale each by the key; the arrangement
    /// starts in input order.  Every line must be a number, and every
    /// scaled value must fit the machine word.
    pub fn parse(input: &str, decryption_key: i64) -> (r: ReorgList)
        requires
            forall|i: int|
                0 <= i < split_lines(input.spec_bytes(), Seq::empty()).len() ==> valid_inst_line(
                    #[trigger] split_lines(input.spec_bytes(), Seq::empty())[i],
                    decryption_key as int,
                ),
        ensures
            r.wf(),
            r.values@.len() == split_lines(input.spec_bytes(), Seq::empty()).len(),
            forall|i: int|
                0 <= i < r.values@.len() ==> (#[trigger] r.values@[i]) as int == int_val(
                    split_lines(input.spec_bytes(), Seq::empty())[i],
                ) * decryption_key,
            forall|i: int| 0 <= i < r.order@.len() ==> (#[trigger] r.order@[i]) == i,
    {
        let b = input.as_bytes();
        let ghost whole = split_lines(b@, Seq::<u8>::empty());
        let mut values: Vec<i64> = Vec::new();
        let mut cur: Vec<u8> = Vec::new();
        let ghost mut done: Seq<Seq<u8>> = Seq::empty();
        let mut i: usize = 0;
        proof {
            assert(b@.skip(0) =~= b@);
            assert(whole =~= done + split_lines(b@.skip(0), cur@));
        }
        while i < b.len()
            invariant
                i <= b@.len(),
                b@ == input.spec_bytes(),
                whole == split_lines(input.spec_bytes(), Seq::empty()),
                whole == done + split_lines(b@.skip(i as int), cur@),
                values@.len() == done.len(),
                forall|k: int|
                    0 <= k < whole.len() ==> valid_inst_line(
                        #[trigger] whole[k],
                        decryption_key as int,
                    ),
                forall|k: int|
                    0 <= k < done.len() ==> (#[trigger] values@[k]) as int == int_val(done[k])
                        * decryption_key,
            decreases b@.len() - i,
        {
            let c = b[i];
            proof {
                assert(b@.skip(i as int)[0] == b@[i as int]);
                assert(b@.skip(i as int).drop_first() =~= b@.skip(i + 1));
            }
            if c == ('\n' as u8) {
                proof {
                    assert(split_lines(b@.skip(i as int), cur@) == seq![cur@] + split_lines(
                        b@.skip(i + 1),
                        Seq::<u8>::empty(),
                    ));
                    assert(whole[done.len() as int] == cur@);
                }
                let v = parse_valid_line(&cur, decryption_key);
                values.push(v);
                proof {
                    done = done.push(cur@);
                    assert(whole =~= done + split_lines(b@.skip(i + 1), Seq::<u8>::empty()));
                }
                cur = Vec::new();
            } else if c != ('\r' as u8) {
                let ghost oldcur = cur@;
                cur.push(c);
                proof {
                    assert(split_lines(b@.skip(i as int), oldcur) == split_lines(
                        b@.skip(i + 1),
                        oldcur.push(c),
                    ));
                }
            } else {
                proof {
                    assert(split_lines(b@.skip(i as int), cur@) == split_lines(b@.skip(i + 1), cur@));
                }
            }
            i += 1;
        }
        proof {
            assert(b@.skip(b@.len() as int) =~= Seq::<u8>::empty());
        }
        if cur.len() > 0 {
            proof {
                assert(split_lines(b@.skip(i as int), cur@) == seq![cur@]);
                assert(whole[done.len() as int] == cur@);
            }
            let v = parse_valid_line(&cur, decryption_key);
            values.push(v);
            proof {
                done = done.push(cur@);
                assert(whole =~= done);
            }
        } else {
            proof {
                assert(split_lines(b@.skip(i as int), cur@) =~= Seq::<Seq<u8>>::empty());
                assert(whole =~= done);
            }
        }
        let n = values.len();
        let mut order: Vec<usize> = Vec::new();
        let mut k: usize = 0;
        while k < n
            invariant
                k <= n,
                order@.len() == k,
                forall|p: int| 0 <= p < k ==> (#[trigger] order@[p]) == p,
            decreases n - k,
        {
            order.push(k);
            k += 1;
        }
        ReorgList { values, order }
    }

    /// The current position of the first element holding `value`, walking
    /// the arrangement from its anchor.  The value must be present.
    pub fn find_by_value(&self, value: i64) -> (r: usize)
        requires
            self.wf(),
            exists|p: int|
                0 <= p < self.order@.len() && self.values@[(#[trigger] self.order@[p]) as int]
                    == value,
        ensures
            r < self.order@.len(),
            self.values@[self.order@[r as int] as int] == value,
            forall|p: int|
                0 <= p < r ==> self.values@[(#[trigger] self.order@[p]) as int] != value,
    {
        let mut p: usize = 0;
        while p < self.order.len()
            invariant
                self.wf(),
                p <= self.order@.len(),
                exists|q: int|
                    0 <= q < self.order@.len() && self.values@[(#[trigger] self.order@[q]) as int]
                        == value,
                forall|q: int|
                    0 <= q < p ==> self.values@[(#[trigger] self.order@[q]) as int] != value,
            decreases self.order@.len() - p,
        {
            if self.values[self.order[p]] == value {
                return p;
            }
            p += 1;
        }
        proof {
            let q = choose|q: int|
                0 <= q < self.order@.len() && self.values@[(#[trigger] self.order@[q]) as int]
                    == value;
            assert(false);
        }
        0
    }

    /// The position `i` places further around the circle from `node`.
    pub fn skip(&self, node: usize, i: usize) -> (r: usize)
        requires
            self.wf(),
            node < self.order@.len(),
        ensures
            r as int == (node + (i as int) % (self.order@.len() as int)) % (
            self.order@.len() as int),
    {
        let len = self.order.len();
        let steps = i % len;
        let r = if steps < len - node {
            node + steps
        } else {
            steps - (len - node)
        };
        proof {
            assert((node + steps) % (len as int) == r) by (nonlinear_arith)
                requires
                    0 <= steps < len,
                    0 <= node < len,
                    r == if steps < len - node {
                        node + steps as int
                    } else {
                        steps - (len - node)
                    },
            ;
        }
        r
    }

    /// The value at position `p` of the arrangement.
    pub fn value_at(&self, p: usize) -> (r: i64)
        requires
            self.wf(),
            p < self.order@.len(),
        ensures
            r == self.values@[self.order@[p as int] as int],
    {
        self.values[self.order[p]]
    }

    /// Move element `i` (by original position) forward through the circle
    /// by its value: it leaves its slot and re-enters `offset_of` slots
    /// further on, the others closing ranks.  Needs at least two elements.
    pub fn move_node(&mut self, i: usize)
        requires
            old(self).wf(),
            i < old(self).values@.len(),
            old(self).order@.len() >= 2,
            old(self).values@[i as int] > i64::MIN,
        ensures
            final(self).wf(),
            final(self).values == old(self).values,
            final(self).order@ == spec_move(old(self).order@, old(self).values@, i),
    {
        let len = self.order.len();
        let mu = (len - 1) as u64;
        proof {
            assert(self.order@.contains(i)) by {
                lemma_perm_onto(self.order@, self.values@.len() as int, i);
            }
            lemma_pos_of(self.order@, i);
        }
        let mut p: usize = 0;
        while p < len && self.order[p] != i
            invariant
                self.wf(),
                len == self.order@.len(),
                i < self.values@.len(),
                p <= len,
                self.order@.contains(i),
                forall|k: int| 0 <= k < p ==> (#[trigger] self.order@[k]) != i,
            decreases len - p,
        {
            p += 1;
        }
        proof {
            lemma_pos_of(self.order@, i);
            assert(p < len) by {
                if p == len {
                    let w = choose|w: int| 0 <= w < self.order@.len() && self.order@[w] == i;
                }
            }
            assert(self.order@[p as int] == i);
            assert(p as int == pos_of(self.order@, i));
        }
        let v = self.values[i];
        let off: u64 = if v >= 0 {
            (v as u64) % mu
        } else {
            let a = ((-v) as u64) % mu;
            if a == 0 {
                0
            } else {
                mu - a
            }
        };
        proof {
            let vi = v as int;
            let mi = mu as int;
            assert(mi == self.order@.len() - 1);
            assert(off as int == offset_of(vi, mi));
            assert(off < mu);
        }
        let pu = p as u64;
        let pr = if pu >= mu {
            pu - mu
        } else {
            pu
        };
        let q0 = (if off < mu - pr {
            pr + off
        } else {
            off - (mu - pr)
        }) as usize;
        let q = if q0 == 0 {
            len - 1
        } else {
            q0
        };
        proof {
            assert(q0 as int == (p + off) % (mu as int)) by (nonlinear_arith)
                requires
                    0 <= pr < mu,
                    (p as int == pr as int || p as int == pr + mu),
                    0 <= off < mu,
                    q0 as int == if off < mu - pr {
                        pr + off as int
                    } else {
                        off - (mu - pr)
                    },
            ;
            assert(q as int == landing(p as int, off as int, len as int));
            assert(q0 < mu);
        }
        let elem = self.order.remove(p);
        proof {
            assert(elem == i);
        }
        self.order.insert(q, elem);
        proof {
            lemma_move_wf(old(self).order@, p as int, q as int, i, self.values@.len() as int);
            assert(self.order@ == spec_move(old(self).order@, old(self).values@, i));
        }
    }

    /// Mix every element once, in original order.
    pub fn mix(&mut self)
        requires
            old(self).wf(),
            old(self).order@.len() >= 2,
            forall|k: int|
                0 <= k < old(self).values@.len() ==> (#[trigger] old(self).values@[k]) > i64::MIN,
        ensures
            final(self).wf(),
            final(self).values == old(self).values,
            final(self).order@ == spec_mix(
                old(self).order@,
                old(self).values@,
                old(self).values@.len() as int,
            ),
    {
        let n = self.values.len();
        let mut i: usize = 0;
        while i < n
            invariant
                self.wf(),
                n == self.values@.len(),
                self.order@.len() == n,
                n >= 2,
                self.values == old(self).values,
                forall|k: int| 0 <= k < n ==> (#[trigger] self.values@[k]) > i64::MIN,
                i <= n,
                self.order@ == spec_mix(old(self).order@, old(self).values@, i as int),
            decreases n - i,
        {
            self.move_node(i);
            i += 1;
        }
    }
}

/// A permutation of `0..n` holds every original position.
proof fn lemma_perm_onto(order: Seq<usize>, n: int, x: usize)
    requires
        order.len() == n,
        forall|p: int| 0 <= p < order.len() ==> (#[trigger] order[p]) < n,
        forall|p: int, q: int| #![trigger order[p], order[q]] 0 <= p < q < order.len() ==> order[p] != order[q],
        (x as int) < n,
    ensures
        order.contains(x),
{
    let s = order.map_values(|u: usize| u as int);
    assert(forall|p: int| 0 <= p < s.len() ==> 0 <= (#[trigger] s[p]) < n);
    assert(forall|p: int, q: int| #![trigger s[p], s[q]] 0 <= p < q < s.len() ==> s[p] != s[q]);
    if !order.contains(x) {
        assert(forall|p: int| 0 <= p < order.len() ==> (#[trigger] order[p]) != x);
        let s2 = s.push(x as int);
        assert(forall|p: int| 0 <= p < s2.len() ==> 0 <= (#[trigger] s2[p]) < n) by {
            assert(forall|p: int| 0 <= p < s.len() ==> s2[p] == #[trigger] s[p]);
        }
        assert(forall|p: int, q: int| #![trigger s2[p], s2[q]] 0 <= p < q < s2.len() ==> s2[p] != s2[q]) by {
            assert(forall|p: int| 0 <= p < s.len() ==> s2[p] == #[trigger] s[p]);
            assert(forall|p: int| 0 <= p < s.len() ==> s[p] == order[p]);
        }
        lemma_distinct_bounded_len(s2, n);
        assert(false);
    }
}

/// Pigeonhole: distinct values all below `n` cannot number more than `n`.
pub(crate) proof fn lemma_distinct_bounded_len(s: Seq<int>, n: int)
    requires
        n >= 0,
        forall|p: int| 0 <= p < s.len() ==> 0 <= (#[trigger] s[p]) < n,
        forall|p: int, q: int| #![trigger s[p], s[q]] 0 <= p < q < s.len() ==> s[p] != s[q],
    ensures
        s.len() <= n,
{
    assert(s.no_duplicates());
    s.unique_seq_to_set();
    let r = vstd::set_lib::set_int_range(0, n);
    vstd::set_lib::lemma_int_range(0, n);
    assert(s.to_set().subset_of(r)) by {
        assert forall|x: int| s.to_set().contains(x) implies r.contains(x) by {
            let w = choose|w: int| 0 <= w < s.len() && s[w] == x;
        }
    }
    vstd::set_lib::lemma_len_subset(s.to_set(), r);
}

/// The moved arrangement is again a permutation.
proof fn lemma_move_wf(order: Seq<usize>, p: int, q: int, x: usize, n: int)
    requires
        0 <= p < order.len(),
        0 <= q <= order.len() - 1,
        order[p] == x,
        forall|k: int| 0 <= k < order.len() ==> (#[trigger] order[k]) < n,
        forall|k: int, l: int| #![trigger order[k], order[l]] 0 <= k < l < order.len() ==> order[k] != order[l],
    ensures
        ({
            let r = order.remove(p).insert(q, x);
            &&& r.len() == order.len()
            &&& forall|k: int| 0 <= k < r.len() ==> (#[trigger] r[k]) < n
            &&& forall|k: int, l: int| #![trigger r[k], r[l]] 0 <= k < l < r.len() ==> r[k] != r[l]
        }),
{
    let rem = order.remove(p);
    let r = rem.insert(q, x);
    assert(forall|k: int|
        0 <= k < rem.len() ==> (#[trigger] rem[k]) == if k < p {
            order[k]
        } else {
            order[k + 1]
        });
    assert(forall|k: int| 0 <= k < rem.len() ==> (#[trigger] rem[k]) < n);
    assert(forall|k: int, l: int| #![trigger rem[k], rem[l]] 0 <= k < l < rem.len() ==> rem[k] != rem[l]);
    assert(forall|k: int| 0 <= k < rem.len() ==> (#[trigger] rem[k]) != x);
    assert(forall|k: int|
        0 <= k < r.len() ==> (#[trigger] r[k]) == if k < q {
            rem[k]
        } else if k == q {
            x
        } else {
            rem[k - 1]
        });
    assert(forall|k: int| 0 <= k < r.len() ==> (#[trigger] r[k]) < n);
    assert(forall|k: int, l: int| #![trigger r[k], r[l]] 0 <= k < l < r.len() ==> r[k] != r[l]);
}

/// A line holds a number whose scaled value fits the machine word.
pub open spec fn valid_inst_line(s: Seq<u8>, key: int) -> bool {
    &&& valid_int(s)
    &&& i64::MIN < int_val(s) * key <= i64::MAX
    &&& i64::MIN < int_val(s) <= i64::MAX
}

/// The scaled number a valid line denotes.
fn parse_valid_line(cur: &Vec<u8>, decryption_key: i64) -> (r: i64)
    requires
        valid_inst_line(cur@, decryption_key as int),
    ensures
        r as int == int_val(cur@) * decryption_key,
{
    let v = crate::cpu::parse_plain_int(cur.as_slice());
    proof {
        assert((v as int) * (decryption_key as int) == int_val(cur@) * decryption_key);
    }
    v * decryption_key
}

} // verus!
