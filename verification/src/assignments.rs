//! Parsing of paired section-assignment ranges.
//!
//! Each line holds two inclusive ranges, `"2-4,6-8"`: two numbers joined by
//! a dash, the pairs joined by a comma.

use vstd::prelude::*;
use vstd::string::StringSliceAdditionalSpecFns;

verus! {

/// A non-empty run of decimal digits.
pub open spec fn is_digits(s: Seq<u8>) -> bool {
    s.len() > 0 && forall|i: int| 0 <= i < s.len() ==> ('0' as u8) <= #[trigger] s[i] <= ('9' as u8)
}

/// The number a run of decimal digits denotes.
pub open spec fn digits_val(s: Seq<u8>) -> int
    decreases s.len(),
{
    if s.len() == 0 {
        0
    } else {
        digits_val(s.drop_last()) * 10 + (s.last() - ('0' as u8))
    }
}

/// A digit run denotes a non-negative number.
pub proof fn lemma_digits_val_nonneg(s: Seq<u8>)
    requires
        forall|i: int| 0 <= i < s.len() ==> ('0' as u8) <= #[trigger] s[i] <= ('9' as u8),
    ensures
        digits_val(s) >= 0,
    decreases s.len(),
{
    if s.len() > 0 {
        assert(forall|i: int| 0 <= i < s.drop_last().len() ==> s.drop_last()[i] == s[i]);
        lemma_digits_val_nonneg(s.drop_last());
    }
}

/// Each digit run prefix denotes at most what the whole run denotes.
pub proof fn lemma_digits_val_prefix_le(s: Seq<u8>, i: int)
    requires
        0 <= i <= s.len(),
        forall|k: int| 0 <= k < s.len() ==> ('0' as u8) <= #[trigger] s[k] <= ('9' as u8),
    ensures
        digits_val(s.take(i)) <= digits_val(s),
    decreases s.len() - i,
{
    if i < s.len() {
        lemma_digits_val_prefix_le(s, i + 1);
        assert(s.take(i + 1).drop_last() =~= s.take(i));
        assert(s.take(i + 1).last() == s[i]);
        assert(forall|k: int| 0 <= k < i ==> s.take(i)[k] == s[k]);
        lemma_digits_val_nonneg(s.take(i));
        assert(digits_val(s.take(i + 1)) == digits_val(s.take(i)) * 10 + (s[i] - ('0' as u8)));
    } else {
        assert(s.take(i) =~= s);
    }
}

/// The number the digits between `from` and `to` denote.
pub(crate) fn parse_digits(b: &[u8], from: usize, to: usize) -> (r: u32)
    requires
        from <= to <= b@.len(),
        is_digits(b@.subrange(from as int, to as int)),
        digits_val(b@.subrange(from as int, to as int)) <= u32::MAX,
    ensures
        r == digits_val(b@.subrange(from as int, to as int)),
{
    let ghost digits = b@.subrange(from as int, to as int);
    let mut acc: u32 = 0;
    let mut i = from;
    while i < to
        invariant
            from <= i <= to <= b@.len(),
            digits == b@.subrange(from as int, to as int),
            is_digits(digits),
            digits_val(digits) <= u32::MAX,
            acc == digits_val(digits.take(i - from)),
        decreases to - i,
    {
        let d = b[i];
        proof {
            assert(digits[i - from] == b@[i as int]);
            assert(('0' as u8) <= d <= ('9' as u8));
            assert(digits.take(i - from + 1).drop_last() =~= digits.take(i - from));
            assert(digits.take(i - from + 1).last() == digits[i - from]);
            lemma_digits_val_prefix_le(digits, i - from + 1);
            lemma_digits_val_nonneg(digits.take(i - from));
        }
        acc = acc * 10 + ((d - ('0' as u8)) as u32);
        i += 1;
    }
    proof {
        assert(digits.take(to - from) =~= digits);
    }
    acc
}

/// The bytes split at `k` into two digit runs joined by a dash, each
/// denoting a number a machine word holds.
pub open spec fn range_split(b: Seq<u8>, k: int) -> bool {
    &&& 0 < k < b.len()
    &&& b[k] == ('-' as u8)
    &&& is_digits(b.subrange(0, k))
    &&& is_digits(b.subrange(k + 1, b.len() as int))
    &&& digits_val(b.subrange(0, k)) <= u32::MAX
    &&& digits_val(b.subrange(k + 1, b.len() as int)) <= u32::MAX
}

/// The two numbers of a dash-joined range between `from` and `to`.
fn parse_range_bytes(b: &[u8], from: usize, to: usize) -> (r: (u32, u32))
    requires
        from <= to <= b@.len(),
        exists|k: int| range_split(b@.subrange(from as int, to as int), k),
    ensures
        forall|k: int|
            range_split(b@.subrange(from as int, to as int), k) ==> r.0 == digits_val(
                b@.subrange(from as int, to as int).subrange(0, k),
            ) && r.1 == digits_val(
                b@.subrange(from as int, to as int).subrange(
                    k + 1,
                    b@.subrange(from as int, to as int).len() as int,
                ),
            ),
{
    let ghost part = b@.subrange(from as int, to as int);
    let ghost k0 = choose|k: int| range_split(part, k);
    let mut j = from;
    while j < to && b[j] != ('-' as u8)
        invariant
            from <= j <= to <= b@.len(),
            part == b@.subrange(from as int, to as int),
            range_split(part, k0),
            forall|i: int| 0 <= i < j - from ==> part[i] != ('-' as u8),
        decreases to - j,
    {
        proof {
            assert(part[j - from] == b@[j as int]);
        }
        j += 1;
    }
    proof {
        assert(j < to) by {
            if j == to {
                assert(part[k0] == ('-' as u8));
            }
        }
        assert(part[j - from] == b@[j as int]);
        assert(j - from == k0) by {
            if j - from < k0 {
                assert(part.subrange(0, k0)[j - from] == part[j - from]);
                assert(('0' as u8) <= part[j - from] <= ('9' as u8));
            }
            if j - from > k0 {
                assert(part[k0] != ('-' as u8));
            }
        }
        assert(part.subrange(0, k0) =~= b@.subrange(from as int, j as int));
        assert(part.subrange(k0 + 1, part.len() as int) =~= b@.subrange(j + 1, to as int));
    }
    let lo = parse_digits(b, from, j);
    let hi = parse_digits(b, j + 1, to);
    proof {
        assert forall|k: int| range_split(part, k) implies k == k0 by {
            if k < k0 {
                assert(part.subrange(0, k0)[k] == part[k]);
                assert(('0' as u8) <= part[k] <= ('9' as u8));
            }
            if k > k0 {
                assert(part.subrange(0, k)[k0] == part[k0]);
                assert(('0' as u8) <= part[k0] <= ('9' as u8));
            }
        }
    }
    (lo, hi)
}

/// The two numbers of a dash-joined range, as in `"2-4"`.
pub fn parse_range(s: &str) -> (r: (u32, u32))
    requires
        exists|k: int| range_split(s.spec_bytes(), k),
    ensures
        forall|k: int|
            range_split(s.spec_bytes(), k) ==> r.0 == digits_val(s.spec_bytes().subrange(0, k))
                && r.1 == digits_val(
                s.spec_bytes().subrange(k + 1, s.spec_bytes().len() as int),
            ),
{
    let b = s.as_bytes();
    proof {
        assert(b@.subrange(0, b@.len() as int) =~= b@);
    }
    let r = parse_range_bytes(b, 0, b.len());
    r
}

/// The line splits at `k` into two dash-joined ranges joined by a comma.
pub open spec fn line_split(b: Seq<u8>, k: int) -> bool {
    &&& 0 < k < b.len()
    &&& b[k] == (',' as u8)
    &&& exists|k1: int| #[trigger] range_split(b.subrange(0, k), k1)
    &&& exists|k2: int| #[trigger] range_split(b.subrange(k + 1, b.len() as int), k2)
}

/// The four numbers of a line of two comma-joined ranges, as in
/// `"2-4,6-8"`.
pub fn parse_line(line: &str) -> (r: ((u32, u32), (u32, u32)))
    requires
        exists|k: int| line_split(line.spec_bytes(), k),
    ensures
        forall|k: int, k1: int, k2: int|
            #![trigger range_split(line.spec_bytes().subrange(0, k), k1), range_split(line.spec_bytes().subrange(k + 1, line.spec_bytes().len() as int), k2)]
            (line_split(line.spec_bytes(), k) && range_split(
                line.spec_bytes().subrange(0, k),
                k1,
            ) && range_split(
                line.spec_bytes().subrange(k + 1, line.spec_bytes().len() as int),
                k2,
            )) ==> {
                &&& r.0.0 == digits_val(line.spec_bytes().subrange(0, k).subrange(0, k1))
                &&& r.0.1 == digits_val(
                    line.spec_bytes().subrange(0, k).subrange(
                        k1 + 1,
                        line.spec_bytes().subrange(0, k).len() as int,
                    ),
                )
                &&& r.1.0 == digits_val(
                    line.spec_bytes().subrange(k + 1, line.spec_bytes().len() as int).subrange(
                        0,
                        k2,
                    ),
                )
                &&& r.1.1 == digits_val(
                    line.spec_bytes().subrange(k + 1, line.spec_bytes().len() as int).subrange(
                        k2 + 1,
                        line.spec_bytes().subrange(
                            k + 1,
                            line.spec_bytes().len() as int,
                        ).len() as int,
                    ),
                )
            },
{
    let b = line.as_bytes();
    let ghost k0 = choose|k: int| line_split(b@, k);
    let mut j: usize = 0;
    while j < b.len() && b[j] != (',' as u8)
        invariant
            j <= b@.len(),
            b@ == line.spec_bytes(),
            line_split(b@, k0),
            forall|i: int| 0 <= i < j ==> b@[i] != (',' as u8),
        decreases b@.len() - j,
    {
        j += 1;
    }
    proof {
        assert(j < b@.len()) by {
            if j == b@.len() {
                assert(b@[k0] == (',' as u8));
            }
        }
        assert(j as int == k0) by {
            if (j as int) < k0 {
                let first = b@.subrange(0, k0);
                let k1 = choose|k1: int| range_split(first, k1);
                assert(first[j as int] == b@[j as int]);
                if (j as int) < k1 {
                    assert(first.subrange(0, k1)[j as int] == first[j as int]);
                    assert(('0' as u8) <= first[j as int] <= ('9' as u8));
                } else if (j as int) == k1 {
                    assert(first[k1] == ('-' as u8));
                } else {
                    assert(first.subrange(k1 + 1, first.len() as int)[j - k1 - 1] == first[
                        j as int]);
                    assert(('0' as u8) <= first[j as int] <= ('9' as u8));
                }
            }
            if (j as int) > k0 {
                assert(b@[k0] != (',' as u8));
            }
        }
    }
    let first = parse_range_bytes(b, 0, j);
    let second = parse_range_bytes(b, j + 1, b.len());
    proof {
        assert forall|k: int| line_split(b@, k) implies k == k0 by {
            if k != k0 {
                let lo = if k < k0 {
                    k
                } else {
                    k0
                };
                let hi = if k < k0 {
                    k0
                } else {
                    k
                };
                let first_s = b@.subrange(0, hi);
                let k1 = choose|k1: int| range_split(first_s, k1);
                assert(first_s[lo] == b@[lo]);
                if lo < k1 {
                    assert(first_s.subrange(0, k1)[lo] == first_s[lo]);
                    assert(('0' as u8) <= first_s[lo] <= ('9' as u8));
                } else if lo == k1 {
                    assert(first_s[k1] == ('-' as u8));
                } else {
                    assert(first_s.subrange(k1 + 1, first_s.len() as int)[lo - k1 - 1] == first_s[
                        lo]);
                    assert(('0' as u8) <= first_s[lo] <= ('9' as u8));
                }
            }
        }
        assert(b@.subrange(0, j as int) == b@.subrange(0, k0));
        assert(b@.subrange(j + 1, b@.len() as int) == b@.subrange(k0 + 1, b@.len() as int));
    }
    (first, second)
}

} // verus!
