//! A troop of monkeys shouting numbers and arithmetic.
//!
//! Each line names a monkey and its job: either a number, or an operation
//! over two other monkeys' results, as in `root: pqrs + tuvw`.  Evaluating
//! a monkey resolves its operands recursively; a division that loses a
//! remainder anywhere marks the result as rounded.

use vstd::prelude::*;
use vstd::string::StringSliceAdditionalSpecFns;

use crate::assignments::{digits_val, is_digits};
use crate::cpu::{int_val, parse_plain_int, split_lines, valid_int};
use crate::sensors::abs_i;

verus! {

/// An operation over two monkeys, by name.
#[derive(Debug)]
pub struct Math {
    pub lhs: Vec<u8>,
    pub op: u8,
    pub rhs: Vec<u8>,
}

impl Math {
    /// Parse a job of the fixed shape `aaaa X bbbb`: two four-letter names
    /// around an operator.
    pub fn parse(input: &str) -> (m: Math)
        requires
            input.spec_bytes().len() == 11,
        ensures
            m.lhs@ == input.spec_bytes().subrange(0, 4),
            m.op == input.spec_bytes()[5],
            m.rhs@ == input.spec_bytes().subrange(7, 11),
    {
        let b = input.as_bytes();
        let mut lhs: Vec<u8> = Vec::new();
        lhs.push(b[0]);
        lhs.push(b[1]);
        lhs.push(b[2]);
        lhs.push(b[3]);
        let mut rhs: Vec<u8> = Vec::new();
        rhs.push(b[7]);
        rhs.push(b[8]);
        rhs.push(b[9]);
        rhs.push(b[10]);
        proof {
            assert(lhs@ =~= b@.subrange(0, 4));
            assert(rhs@ =~= b@.subrange(7, 11));
        }
        Math { lhs, op: b[5], rhs }
    }
}

/// One monkey: a ready number, or a job over two others.
#[derive(Debug)]
pub struct Monkey {
    pub value: Option<i64>,
    pub job: Option<Math>,
}

impl Monkey {
    /// Parse a monkey's side of a line: a number when the text is one,
    /// otherwise a job of the fixed shape.
    pub fn parse(input: &str) -> (m: Monkey)
        requires
            !valid_int(input.spec_bytes()) ==> input.spec_bytes().len() == 11,
        ensures
            valid_int(input.spec_bytes()) ==> m.value == Some(int_val(input.spec_bytes()) as i64)
                && m.job is None,
            !valid_int(input.spec_bytes()) ==> m.value is None && (m.job matches Some(j)
                && j.lhs@ == input.spec_bytes().subrange(0, 4) && j.op == input.spec_bytes()[5]
                && j.rhs@ == input.spec_bytes().subrange(7, 11)),
    {
        let b = input.as_bytes();
        if is_int_text(b) {
            Monkey { value: Some(parse_plain_int(b)), job: None }
        } else {
            Monkey { value: None, job: Some(Math::parse(input)) }
        }
    }
}

/// Whether the bytes are a signed decimal a machine word holds.
fn is_int_text(b: &[u8]) -> (r: bool)
    ensures
        r == valid_int(b@),
{
    let neg = b.len() > 0 && b[0] == ('-' as u8);
    let from: usize = if neg {
        1
    } else {
        0
    };
    let limit: u64 = if neg {
        (isize::MAX as u64) + 1
    } else {
        isize::MAX as u64
    };
    proof {
        if neg {
            assert(b@.skip(1) =~= b@.subrange(1, b@.len() as int));
        } else {
            assert(b@.subrange(0, b@.len() as int) =~= b@);
        }
    }
    match crate::cpu::parse_digits_bounded(b, from, b.len(), limit) {
        Some(_) => {
            proof {
                assert(isize::MIN as int == -(isize::MAX as int) - 1);
                if neg {
                    assert(is_digits(b@.subrange(1, b@.len() as int)));
                    assert(digits_val(b@.subrange(1, b@.len() as int)) <= limit);
                    assert(is_digits(b@.skip(1)) && digits_val(b@.skip(1)) <= limit);
                } else {
                    assert(is_digits(b@) && digits_val(b@) <= limit);
                }
            }
            true
        },
        None => {
            proof {
                assert(!valid_int(b@)) by {
                    if valid_int(b@) {
                        if neg {
                            assert(is_digits(b@.skip(1)) && digits_val(b@.skip(1)) <= limit);
                        } else {
                            assert(is_digits(b@) && digits_val(b@) <= limit);
                        }
                    }
                }
            }
            false
        },
    }
}

/// The position of the first monkey with the name, or a negative value.
pub open spec fn find_monkey(ms: Seq<(Vec<u8>, Monkey)>, who: Seq<u8>) -> int
    decreases ms.len(),
{
    if ms.len() == 0 {
        -1
    } else if ms[0].0@ == who {
        0
    } else if find_monkey(ms.drop_first(), who) < 0 {
        -1
    } else {
        find_monkey(ms.drop_first(), who) + 1
    }
}

/// Integer division truncated toward zero, as the machine divides.
pub open spec fn trunc_div(a: int, b: int) -> int {
    let q = abs_i(a) / abs_i(b);
    if (a < 0) != (b < 0) {
        -q
    } else {
        q
    }
}

/// The result a monkey shouts, with a flag marking any rounded division on
/// the way, or nothing when a name is missing, a reference loop or unknown
/// operator is hit, a division by zero occurs, the recursion outruns the
/// fuel, or a value leaves the machine word.
pub open spec fn eval(ms: Seq<(Vec<u8>, Monkey)>, who: Seq<u8>, fuel: nat) -> Option<(int, bool)>
    decreases fuel,
{
    if fuel == 0 {
        None
    } else {
        let i = find_monkey(ms, who);
        if i < 0 {
            None
        } else if ms[i].1.value is Some {
            Some((ms[i].1.value->0 as int, false))
        } else if ms[i].1.job is None {
            None
        } else {
            let math = ms[i].1.job->0;
            let l = eval(ms, math.lhs@, (fuel - 1) as nat);
            let r = eval(ms, math.rhs@, (fuel - 1) as nat);
            if l is None || r is None {
                None
            } else {
                let (lv, lr) = l->0;
                let (rv, rr) = r->0;
                if math.op == ('+' as u8) {
                    if i64::MIN <= lv + rv <= i64::MAX {
                        Some((lv + rv, lr || rr))
                    } else {
                        None
                    }
                } else if math.op == ('-' as u8) {
                    if i64::MIN <= lv - rv <= i64::MAX {
                        Some((lv - rv, lr || rr))
                    } else {
                        None
                    }
                } else if math.op == ('*' as u8) {
                    if i64::MIN <= lv * rv <= i64::MAX {
                        Some((lv * rv, lr || rr))
                    } else {
                        None
                    }
                } else if math.op == ('/' as u8) {
                    if rv == 0 || !(i64::MIN <= trunc_div(lv, rv) <= i64::MAX) {
                        None
                    } else if abs_i(lv) % abs_i(rv) != 0 {
                        Some((trunc_div(lv, rv), true))
                    } else {
                        Some((trunc_div(lv, rv), lr || rr))
                    }
                } else {
                    None
                }
            }
        }
    }
}

/// The troop, in input order.
#[derive(Debug)]
pub struct Maths {
    pub monkeys: Vec<(Vec<u8>, Monkey)>,
}

/// A line of the troop listing: a name, a colon and a space, and a monkey
/// text of one of the two shapes; the name holds no colon.
pub open spec fn monkey_line(b: Seq<u8>, k: int) -> bool {
    &&& 0 <= k
    &&& k + 2 <= b.len()
    &&& b[k] == (':' as u8)
    &&& b[k + 1] == (' ' as u8)
    &&& forall|t: int| 0 <= t < k ==> b[t] != (':' as u8)
    &&& (valid_int(b.subrange(k + 2, b.len() as int)) || b.len() - k - 2 == 11)
}

/// The line is a troop line for some split point.
pub open spec fn has_monkey_line(b: Seq<u8>) -> bool {
    exists|k: int| monkey_line(b, k)
}

impl Maths {
    /// Parse the troop: one monkey per line.
    pub fn parse(input: &str) -> (r: Maths)
        requires
            forall|i: int|
                0 <= i < split_lines(input.spec_bytes(), Seq::empty()).len() ==> has_monkey_line(
                    #[trigger] split_lines(input.spec_bytes(), Seq::empty())[i],
                ),
        ensures
            r.monkeys@.len() == split_lines(input.spec_bytes(), Seq::empty()).len(),
            forall|i: int, k: int|
                #![trigger monkey_line(split_lines(input.spec_bytes(), Seq::empty())[i], k)]
                0 <= i < r.monkeys@.len() && monkey_line(
                    split_lines(input.spec_bytes(), Seq::empty())[i],
                    k,
                ) ==> {
                    let line = split_lines(input.spec_bytes(), Seq::empty())[i];
                    let rest = line.subrange(k + 2, line.len() as int);
                    &&& r.monkeys@[i].0@ == line.subrange(0, k)
                    &&& (valid_int(rest) ==> r.monkeys@[i].1.value == Some(int_val(rest) as i64)
                        && r.monkeys@[i].1.job is None)
                    &&& (!valid_int(rest) ==> r.monkeys@[i].1.value is None
                        && (r.monkeys@[i].1.job matches Some(j) && j.lhs@ == rest.subrange(0, 4)
                        && j.op == rest[5] && j.rhs@ == rest.subrange(7, 11)))
                },
    {
        let b = input.as_bytes();
        let ghost whole = split_lines(b@, Seq::<u8>::empty());
        let mut monkeys: Vec<(Vec<u8>, Monkey)> = Vec::new();
        let mut cur: Vec<u8> = Vec::new();
        let ghost mut done: Seq<Seq<u8>> = Seq::empty();
        let mut i: usize = 0;
        proof {
            assert(b@.skip(0) =~= b@);
            assert(whole =~= done + split_lines(b@.skip(0), cur@));
        }
        while i < b.len()
            invariant
                i <= b@.len(),
                b@ == input.spec_bytes(),
                whole == split_lines(input.spec_bytes(), Seq::empty()),
                whole == done + split_lines(b@.skip(i as int), cur@),
                monkeys@.len() == done.len(),
                forall|i2: int|
                    0 <= i2 < split_lines(input.spec_bytes(), Seq::empty()).len()
                        ==> has_monkey_line(
                        #[trigger] split_lines(input.spec_bytes(), Seq::empty())[i2],
                    ),
                forall|i2: int, k: int|
                    #![trigger monkey_line(done[i2], k)]
                    0 <= i2 < done.len() && monkey_line(done[i2], k) ==> {
                        let line = done[i2];
                        let rest = line.subrange(k + 2, line.len() as int);
                        &&& monkeys@[i2].0@ == line.subrange(0, k)
                        &&& (valid_int(rest) ==> monkeys@[i2].1.value == Some(
                            int_val(rest) as i64,
                        ) && monkeys@[i2].1.job is None)
                        &&& (!valid_int(rest) ==> monkeys@[i2].1.value is None && (monkeys@[i2].1.job
                            matches Some(j) && j.lhs@ == rest.subrange(0, 4) && j.op == rest[5]
                            && j.rhs@ == rest.subrange(7, 11)))
                    },
            decreases b@.len() - i,
        {
            let c = b[i];
            proof {
                assert(b@.skip(i as int)[0] == b@[i as int]);
                assert(b@.skip(i as int).drop_first() =~= b@.skip(i + 1));
            }
            if c == ('\n' as u8) {
                proof {
                    assert(split_lines(b@.skip(i as int), cur@) == seq![cur@] + split_lines(
                        b@.skip(i + 1),
                        Seq::<u8>::empty(),
                    ));
                    assert(whole[done.len() as int] == cur@);
                }
                let m = parse_troop_line(&cur);
                monkeys.push(m);
                proof {
                    done = done.push(cur@);
                    assert(whole =~= done + split_lines(b@.skip(i + 1), Seq::<u8>::empty()));
                }
                cur = Vec::new();
            } else if c != ('\r' as u8) {
                let ghost oldcur = cur@;
                cur.push(c);
                proof {
                    assert(split_lines(b@.skip(i as int), oldcur) == split_lines(
                        b@.skip(i + 1),
                        oldcur.push(c),
                    ));
                }
            } else {
                proof {
                    assert(split_lines(b@.skip(i as int), cur@) == split_lines(b@.skip(i + 1), cur@));
                }
            }
            i += 1;
        }
        proof {
            assert(b@.skip(b@.len() as int) =~= Seq::<u8>::empty());
        }
        if cur.len() > 0 {
            proof {
                assert(split_lines(b@.skip(i as int), cur@) == seq![cur@]);
                assert(whole[done.len() as int] == cur@);
            }
            let m = parse_troop_line(&cur);
            monkeys.push(m);
            proof {
                done = done.push(cur@);
                assert(whole =~= done);
            }
        } else {
            proof {
                assert(split_lines(b@.skip(i as int), cur@) =~= Seq::<Seq<u8>>::empty());
                assert(whole =~= done);
            }
        }
        Maths { monkeys }
    }

    /// The number the named monkey shouts, with its rounded-division flag.
    /// The troop must let the evaluation finish: every name resolves within
    /// one pass per monkey, and every value fits the machine word.
    pub fn calculate(&self, who: &str) -> (r: (i64, bool))
        requires
            self.monkeys@.len() < usize::MAX,
            eval(self.monkeys@, who.spec_bytes(), self.monkeys@.len() + 1) is Some,
        ensures
            ({
                let e = eval(self.monkeys@, who.spec_bytes(), self.monkeys@.len() + 1);
                r.0 as int == (e->0).0 && r.1 == (e->0).1
            }),
    {
        let b = s_bytes_local(who);
        let fuel = self.monkeys.len() + 1;
        match self.calculate_fuel(&b, fuel) {
            Some(v) => v,
            None => {
                proof {
                    assert(false);
                }
                (0, false)
            },
        }
    }

    /// The fuelled evaluator: mirrors [`eval`] step for step.
    fn calculate_fuel(&self, who: &Vec<u8>, fuel: usize) -> (r: Option<(i64, bool)>)
        ensures
            match r {
                Some(v) => eval(self.monkeys@, who@, fuel as nat) == Some((v.0 as int, v.1)),
                None => eval(self.monkeys@, who@, fuel as nat) is None,
            },
        decreases fuel,
    {
        if fuel == 0 {
            return None;
        }
        let idx = match self.find(who) {
            Some(i) => i,
            None => {
                return None;
            },
        };
        let m = &self.monkeys[idx].1;
        match m.value {
            Some(v) => Some((v, false)),
            None => {
                match &m.job {
                    None => None,
                    Some(math) => {
                        let l = self.calculate_fuel(&math.lhs, fuel - 1);
                        let r = self.calculate_fuel(&math.rhs, fuel - 1);
                        match (l, r) {
                            (Some((lv, lr)), Some((rv, rr))) => {
                                if math.op == ('+' as u8) {
                                    match lv.checked_add(rv) {
                                        Some(s) => Some((s, lr || rr)),
                                        None => None,
                                    }
                                } else if math.op == ('-' as u8) {
                                    match lv.checked_sub(rv) {
                                        Some(s) => Some((s, lr || rr)),
                                        None => None,
                                    }
                                } else if math.op == ('*' as u8) {
                                    match lv.checked_mul(rv) {
                                        Some(s) => Some((s, lr || rr)),
                                        None => None,
                                    }
                                } else if math.op == ('/' as u8) {
                                    div_flagged(lv, rv, lr || rr)
                                } else {
                                    None
                                }
                            },
                            _ => None,
                        }
                    },
                }
            },
        }
    }

    /// The position of the named monkey.
    fn find(&self, who: &Vec<u8>) -> (r: Option<usize>)
        ensures
            match r {
                Some(i) => i < self.monkeys@.len() && find_monkey(self.monkeys@, who@) == i,
                None => find_monkey(self.monkeys@, who@) < 0,
            },
    {
        let mut i: usize = 0;
        while i < self.monkeys.len()
            invariant
                i <= self.monkeys@.len(),
                forall|k: int| 0 <= k < i ==> (#[trigger] self.monkeys@[k]).0@ != who@,
            decreases self.monkeys@.len() - i,
        {
            if bytes_eq_local(&self.monkeys[i].0, who) {
                proof {
                    lemma_find_monkey(self.monkeys@, who@, i as int);
                }
                return Some(i);
            }
            i += 1;
        }
        proof {
            lemma_find_monkey_none(self.monkeys@, who@);
        }
        None
    }
}

/// A found first match is what the search reports.
proof fn lemma_find_monkey(ms: Seq<(Vec<u8>, Monkey)>, who: Seq<u8>, i: int)
    requires
        0 <= i < ms.len(),
        ms[i].0@ == who,
        forall|k: int| 0 <= k < i ==> (#[trigger] ms[k]).0@ != who,
    ensures
        find_monkey(ms, who) == i,
    decreases i,
{
    if i > 0 {
        assert(forall|k: int|
            0 <= k < ms.drop_first().len() ==> (#[trigger] ms.drop_first()[k]) == ms[k + 1]);
        lemma_find_monkey(ms.drop_first(), who, i - 1);
    }
}

/// With no match, the search reports none.
proof fn lemma_find_monkey_none(ms: Seq<(Vec<u8>, Monkey)>, who: Seq<u8>)
    requires
        forall|k: int| 0 <= k < ms.len() ==> (#[trigger] ms[k]).0@ != who,
    ensures
        find_monkey(ms, who) < 0,
    decreases ms.len(),
{
    if ms.len() > 0 {
        assert(forall|k: int|
            0 <= k < ms.drop_first().len() ==> (#[trigger] ms.drop_first()[k]) == ms[k + 1]);
        lemma_find_monkey_none(ms.drop_first(), who);
    }
}

/// Whether two byte strings hold the same bytes.
fn bytes_eq_local(a: &Vec<u8>, b: &Vec<u8>) -> (r: bool)
    ensures
        r == (a@ == b@),
{
    if a.len() != b.len() {
        return false;
    }
    let mut i: usize = 0;
    while i < a.len()
        invariant
            a@.len() == b@.len(),
            i <= a@.len(),
            forall|k: int| 0 <= k < i ==> a@[k] == b@[k],
        decreases a@.len() - i,
    {
        if a[i] != b[i] {
            return false;
        }
        i += 1;
    }
    proof {
        assert(a@ =~= b@);
    }
    true
}

/// The input's bytes, as a vector.
fn s_bytes_local(s: &str) -> (r: Vec<u8>)
    ensures
        r@ == s.spec_bytes(),
{
    let b = s.as_bytes();
    let mut out: Vec<u8> = Vec::new();
    let mut i: usize = 0;
    while i < b.len()
        invariant
            i <= b@.len(),
            b@ == s.spec_bytes(),
            out@ =~= b@.take(i as int),
        decreases b@.len() - i,
    {
        out.push(b[i]);
        proof {
            assert(out@ =~= b@.take(i + 1));
        }
        i += 1;
    }
    proof {
        assert(out@ =~= b@);
    }
    out
}

/// One troop line parsed: the name and its monkey.
fn parse_troop_line(cur: &Vec<u8>) -> (r: (Vec<u8>, Monkey))
    requires
        has_monkey_line(cur@),
    ensures
        forall|k: int|
            monkey_line(cur@, k) ==> {
                let rest = cur@.subrange(k + 2, cur@.len() as int);
                &&& r.0@ == cur@.subrange(0, k)
                &&& (valid_int(rest) ==> r.1.value == Some(int_val(rest) as i64) && r.1.job is None)
                &&& (!valid_int(rest) ==> r.1.value is None && (r.1.job matches Some(j) && j.lhs@
                    == rest.subrange(0, 4) && j.op == rest[5] && j.rhs@ == rest.subrange(7, 11)))
            },
{
    let ghost k0 = choose|k: int| monkey_line(cur@, k);
    let mut k: usize = 0;
    while k < cur.len() && cur[k] != (':' as u8)
        invariant
            k <= cur@.len(),
            monkey_line(cur@, k0),
            forall|t: int| 0 <= t < k ==> cur@[t] != (':' as u8),
        decreases cur@.len() - k,
    {
        k += 1;
    }
    proof {
        assert(k < cur@.len()) by {
            if k == cur@.len() {
                assert(cur@[k0] == (':' as u8));
            }
        }
        assert(k as int == k0) by {
            if (k as int) < k0 {
                assert(cur@[k as int] != (':' as u8));
                assert(false) by {
                    assert(cur@[k as int] == (':' as u8));
                }
            }
            if (k as int) > k0 {
                assert(cur@[k0] != (':' as u8));
            }
        }
    }
    let mut name: Vec<u8> = Vec::new();
    let mut t: usize = 0;
    while t < k
        invariant
            t <= k,
            k < cur@.len(),
            name@ =~= cur@.subrange(0, t as int),
        decreases k - t,
    {
        name.push(cur[t]);
        proof {
            assert(name@ =~= cur@.subrange(0, t + 1));
        }
        t += 1;
    }
    let mut rest: Vec<u8> = Vec::new();
    let mut t2 = k + 2;
    while t2 < cur.len()
        invariant
            k + 2 <= t2 <= cur@.len(),
            rest@ =~= cur@.subrange(k + 2, t2 as int),
        decreases cur@.len() - t2,
    {
        rest.push(cur[t2]);
        proof {
            assert(rest@ =~= cur@.subrange(k + 2, t2 + 1));
        }
        t2 += 1;
    }
    proof {
        assert(rest@ =~= cur@.subrange(k + 2, cur@.len() as int));
    }
    let m = if is_int_text(rest.as_slice()) {
        Monkey { value: Some(parse_plain_int(rest.as_slice())), job: None }
    } else {
        proof {
            assert(cur@.len() - k - 2 == 11);
        }
        let mut lhs: Vec<u8> = Vec::new();
        lhs.push(rest[0]);
        lhs.push(rest[1]);
        lhs.push(rest[2]);
        lhs.push(rest[3]);
        let mut rhs: Vec<u8> = Vec::new();
        rhs.push(rest[7]);
        rhs.push(rest[8]);
        rhs.push(rest[9]);
        rhs.push(rest[10]);
        proof {
            assert(lhs@ =~= rest@.subrange(0, 4));
            assert(rhs@ =~= rest@.subrange(7, 11));
        }
        Monkey { value: None, job: Some(Math { lhs, op: rest[5], rhs }) }
    };
    proof {
        assert forall|k2: int| monkey_line(cur@, k2) implies k2 == k0 by {
            if k2 < k0 {
                assert(cur@[k2] == (':' as u8));
            }
            if k2 > k0 {
                assert(cur@[k0] != (':' as u8)) by {
                    assert(0 <= k0 < k2);
                }
                assert(false) by {
                    assert(cur@[k0] == (':' as u8));
                }
            }
        }
    }
    (name, m)
}

/// Division with the rounded flag: the quotient truncated toward zero; a
/// lost remainder sets the flag by itself.
fn div_flagged(lv: i64, rv: i64, child_flag: bool) -> (r: Option<(i64, bool)>)
    ensures
        r == (if rv == 0 || !(i64::MIN <= trunc_div(lv as int, rv as int) <= i64::MAX) {
            None
        } else if abs_i(lv as int) % abs_i(rv as int) != 0 {
            Some((trunc_div(lv as int, rv as int) as i64, true))
        } else {
            Some((trunc_div(lv as int, rv as int) as i64, child_flag))
        }),
{
    if rv == 0 {
        return None;
    }
    let am: u64 = if lv >= 0 {
        lv as u64
    } else {
        ((-(lv + 1)) as u64) + 1
    };
    let bm: u64 = if rv >= 0 {
        rv as u64
    } else {
        ((-(rv + 1)) as u64) + 1
    };
    let q = am / bm;
    let rem = am % bm;
    let neg = (lv < 0) != (rv < 0);
    proof {
        assert(am as int == abs_i(lv as int));
        assert(bm as int == abs_i(rv as int));
        assert(q as int == abs_i(lv as int) / abs_i(rv as int));
        assert((rem as int) == abs_i(lv as int) % abs_i(rv as int));
    }
    let v: i64 = if neg {
        if q > (i64::MAX as u64) {
            if q == (i64::MAX as u64) + 1 {
                i64::MIN
            } else {
                return None;
            }
        } else {
            -(q as i64)
        }
    } else {
        if q > (i64::MAX as u64) {
            return None;
        } else {
            q as i64
        }
    };
    proof {
        assert(v as int == trunc_div(lv as int, rv as int));
    }
    if rem != 0 {
        Some((v, true))
    } else {
        Some((v, child_flag))
    }
}

} // verus!
