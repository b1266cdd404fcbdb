//! Balanced base-five numerals.
//!
//! A numeral is a string over the digits `2`, `1`, `0`, `-` (minus one) and
//! `=` (minus two), most significant first; each position weighs five times
//! the one to its right.

use vstd::prelude::*;

verus! {

/// The value of one digit character.
pub open spec fn snafu_digit(c: char) -> int {
    if c == '2' {
        2
    } else if c == '1' {
        1
    } else if c == '0' {
        0
    } else if c == '-' {
        -1
    } else {
        -2
    }
}

/// Every character is a digit of the numeral system.
pub open spec fn is_snafu(s: Seq<char>) -> bool {
    forall|i: int|
        0 <= i < s.len() ==> (#[trigger] s[i]) == '2' || s[i] == '1' || s[i] == '0' || s[i] == '-'
            || s[i] == '='
}

/// The number a numeral denotes.
pub open spec fn snafu_val(s: Seq<char>) -> int
    decreases s.len(),
{
    if s.len() == 0 {
        0
    } else {
        snafu_val(s.drop_last()) * 5 + snafu_digit(s.last())
    }
}

/// The number a numeral denotes.  Every prefix value must stay within the
/// machine word, which bounds the accumulator at each step.
pub fn parse_snafu(s: &str) -> (r: isize)
    requires
        is_snafu(s@),
        forall|i: int|
            0 <= i < s@.len() ==> isize::MIN <= #[trigger] snafu_val(s@.take(i)) * 5 - 2
                && snafu_val(s@.take(i)) * 5 + 2 <= isize::MAX,
    ensures
        r == snafu_val(s@),
{
    let n = s.unicode_len();
    let mut acc: isize = 0;
    let mut i: usize = 0;
    while i < n
        invariant
            i <= n == s@.len(),
            is_snafu(s@),
            forall|k: int|
                0 <= k < s@.len() ==> isize::MIN <= #[trigger] snafu_val(s@.take(k)) * 5 - 2
                    && snafu_val(s@.take(k)) * 5 + 2 <= isize::MAX,
            acc == snafu_val(s@.take(i as int)),
        decreases n - i,
    {
        let c = s.get_char(i);
        let d: isize = if c == '2' {
            2
        } else if c == '1' {
            1
        } else if c == '0' {
            0
        } else if c == '-' {
            -1
        } else {
            -2
        };
        proof {
            assert(s@.take(i + 1).drop_last() =~= s@.take(i as int));
            assert(s@.take(i + 1).last() == s@[i as int]);
        }
        acc = acc * 5 + d;
        i += 1;
    }
    proof {
        assert(s@.take(n as int) =~= s@);
    }
    acc
}

/// The weight of the `n`-th digit position.
pub open spec fn pow5(n: nat) -> int
    decreases n,
{
    if n == 0 {
        1
    } else {
        5 * pow5((n - 1) as nat)
    }
}

/// Prepending a digit adds its value at the weight of the new length.
proof fn lemma_snafu_val_prepend(c: char, rest: Seq<char>)
    ensures
        snafu_val(seq![c] + rest) == snafu_digit(c) * pow5(rest.len()) + snafu_val(rest),
    decreases rest.len(),
{
    if rest.len() == 0 {
        assert(seq![c] + rest =~= seq![c]);
        assert(snafu_val(seq![c]) == snafu_val(seq![c].drop_last()) * 5 + snafu_digit(c));
        assert(seq![c].drop_last() =~= Seq::<char>::empty());
        assert(snafu_val(Seq::<char>::empty()) == 0);
        assert(snafu_val(rest) == 0);
        assert(pow5(rest.len()) == 1);
    } else {
        let whole = seq![c] + rest;
        assert(whole.drop_last() =~= seq![c] + rest.drop_last());
        assert(whole.last() == rest.last());
        lemma_snafu_val_prepend(c, rest.drop_last());
        assert(snafu_val(whole) == (snafu_digit(c) * pow5(rest.drop_last().len()) + snafu_val(
            rest.drop_last(),
        )) * 5 + snafu_digit(rest.last()));
        assert(pow5(rest.len()) == 5 * pow5((rest.len() - 1) as nat));
        assert((snafu_digit(c) * pow5(rest.drop_last().len()) + snafu_val(rest.drop_last())) * 5
            == snafu_digit(c) * (5 * pow5(rest.drop_last().len())) + snafu_val(rest.drop_last())
            * 5) by (nonlinear_arith);
        assert(snafu_val(rest) == snafu_val(rest.drop_last()) * 5 + snafu_digit(rest.last()));
    }
}

/// The numeral of a positive number: its value reads back as the number,
/// every character is a digit, and the leading digit is not zero.
pub fn to_snafu(i: isize) -> (out: String)
    requires
        i > 0,
    ensures
        is_snafu(out@),
        snafu_val(out@) == i,
        out@.len() > 0,
        out@[0] != '0',
{
    let mut digits: Vec<char> = Vec::new();
    let mut rem = i;
    while rem > 0
        invariant
            0 <= rem,
            i > 0,
            is_snafu(digits@.reverse()),
            rem * pow5(digits@.len()) + snafu_val(digits@.reverse()) == i,
            rem == 0 ==> digits@.len() > 0 && digits@[digits@.len() - 1] != '0',
        decreases rem,
    {
        let d = rem % 5;
        let (c, next): (char, isize) = if d == 0 {
            ('0', rem / 5)
        } else if d == 1 {
            ('1', rem / 5)
        } else if d == 2 {
            ('2', rem / 5)
        } else if d == 3 {
            ('=', rem / 5 + 1)
        } else {
            ('-', rem / 5 + 1)
        };
        proof {
            let dv = snafu_digit(c);
            assert(rem == (rem / 5) * 5 + rem % 5 && 0 <= rem % 5 < 5 && rem / 5 >= 0) by (
            nonlinear_arith)
                requires
                    rem > 0,
            ;
            assert((d <= 2 ==> dv == d) && (d >= 3 ==> dv == d - 5));
            assert(next * 5 + dv == rem);
            assert(next >= 0) by (nonlinear_arith)
                requires
                    rem > 0,
                    next == rem / 5 || next == rem / 5 + 1,
            ;
            let old_rev = digits@.reverse();
            assert(digits@.push(c).reverse() =~= seq![c] + old_rev);
            lemma_snafu_val_prepend(c, old_rev);
            assert(old_rev.len() == digits@.len());
            assert(snafu_val(seq![c] + old_rev) == dv * pow5(digits@.len()) + snafu_val(old_rev));
            assert(pow5(digits@.len() + 1) == 5 * pow5(digits@.len()));
            let w = pow5(digits@.len());
            assert(next * (5 * w) + dv * w == rem * w) by (nonlinear_arith)
                requires
                    next * 5 + dv == rem,
            ;
            assert(is_snafu(seq![c] + old_rev)) by {
                assert forall|idx: int| 0 <= idx < (seq![c] + old_rev).len() implies ((
                #[trigger] (seq![c] + old_rev)[idx]) == '2' || (seq![c] + old_rev)[idx] == '1' || (
                seq![c] + old_rev)[idx] == '0' || (seq![c] + old_rev)[idx] == '-' || (seq![c]
                    + old_rev)[idx] == '=') by {
                    if idx == 0 {
                        assert((seq![c] + old_rev)[0] == c);
                    } else {
                        assert((seq![c] + old_rev)[idx] == old_rev[idx - 1]);
                    }
                }
            }
            if next == 0 {
                assert(dv == rem);
                assert(rem > 0);
                assert(c != '0');
            }
            assert(digits@.push(c)[digits@.push(c).len() - 1] == c);
        }
        let ghost prev = rem;
        digits.push(c);
        rem = next;
        proof {
            assert(rem < prev) by (nonlinear_arith)
                requires
                    prev > 0,
                    rem == prev / 5 || rem == prev / 5 + 1,
                    rem == prev / 5 + 1 ==> prev % 5 >= 3,
            ;
        }
    }
    let mut out = String::new();
    let n = digits.len();
    let mut k: usize = 0;
    proof {
        reveal_strlit("2");
        reveal_strlit("1");
        reveal_strlit("0");
        reveal_strlit("-");
        reveal_strlit("=");
    }
    while k < n
        invariant
            k <= n == digits@.len(),
            is_snafu(digits@.reverse()),
            out@ =~= digits@.reverse().take(k as int),
        decreases n - k,
    {
        let c = digits[n - 1 - k];
        proof {
            reveal_strlit("2");
            reveal_strlit("1");
            reveal_strlit("0");
            reveal_strlit("-");
            reveal_strlit("=");
            assert(digits@.reverse()[k as int] == digits@[n - 1 - k]);
        }
        if c == '2' {
            out.append("2");
        } else if c == '1' {
            out.append("1");
        } else if c == '0' {
            out.append("0");
        } else if c == '-' {
            out.append("-");
        } else {
            out.append("=");
        }
        proof {
            assert(out@ =~= digits@.reverse().take(k + 1));
        }
        k += 1;
    }
    proof {
        assert(out@ =~= digits@.reverse());
        assert(digits@.reverse()[0] == digits@[digits@.len() - 1]);
    }
    out
}

} // verus!
