//! Finding the first run of pairwise-distinct characters in a stream.
//!
//! A marker of width `w` ends at the first position whose last `w`
//! characters are all different.

use vstd::prelude::*;

verus! {

/// The `window` characters of `s` ending just before `i` are pairwise
/// distinct.
pub open spec fn distinct_window(s: Seq<char>, i: int, window: int) -> bool {
    forall|a: int, b: int| #![trigger s[a], s[b]] i - window <= a < b < i ==> s[a] != s[b]
}

/// Whether the `window` characters of `chars` ending just before `i` are
/// pairwise distinct.
fn window_is_distinct(chars: &Vec<char>, i: usize, window: usize) -> (r: bool)
    requires
        window <= i <= chars@.len(),
    ensures
        r == distinct_window(chars@, i as int, window as int),
{
    let mut a = i - window;
    while a < i
        invariant
            i - window <= a <= i <= chars@.len(),
            forall|x: int, y: int|
                #![trigger chars@[x], chars@[y]]
                i - window <= x < y < i && x < a ==> chars@[x] != chars@[y],
        decreases i - a,
    {
        let mut b = a + 1;
        while b < i
            invariant
                i - window <= a < b <= i <= chars@.len(),
                forall|y: int| a < y < b ==> chars@[a as int] != #[trigger] chars@[y],
            decreases i - b,
        {
            if chars[a] == chars[b] {
                return false;
            }
            b += 1;
        }
        a += 1;
    }
    true
}

/// The end of the first window of `window` pairwise-distinct characters.
/// Some such window must exist in the input.
pub fn find_first_unique_sequence(input: &str, window: usize) -> (r: usize)
    requires
        window >= 1,
        exists|i: int|
            window <= i <= input@.len() && #[trigger] distinct_window(input@, i, window as int),
    ensures
        window <= r <= input@.len(),
        distinct_window(input@, r as int, window as int),
        forall|j: int| window <= j < r ==> !distinct_window(input@, j, window as int),
{
    let n = input.unicode_len();
    let mut chars: Vec<char> = Vec::new();
    let mut k: usize = 0;
    while k < n
        invariant
            k <= n == input@.len(),
            chars@ =~= input@.take(k as int),
        decreases n - k,
    {
        chars.push(input.get_char(k));
        proof {
            assert(chars@ =~= input@.take(k + 1));
        }
        k += 1;
    }
    proof {
        assert(chars@ =~= input@);
    }
    let mut i = window;
    if window > n {
        proof {
            let w = choose|w: int|
                window <= w <= input@.len() && #[trigger] distinct_window(input@, w, window as int);
            assert(false);
        }
        return window;
    }
    while i <= n
        invariant
            window <= i,
            i <= n + 1,
            n == input@.len(),
            chars@ == input@,
            window >= 1,
            exists|w: int|
                window <= w <= input@.len() && #[trigger] distinct_window(
                    input@,
                    w,
                    window as int,
                ),
            forall|j: int| window <= j < i ==> !distinct_window(input@, j, window as int),
        decreases n + 1 - i,
    {
        if window_is_distinct(&chars, i, window) {
            return i;
        }
        proof {
            if i == n {
                let w = choose|w: int|
                    window <= w <= input@.len() && #[trigger] distinct_window(
                        input@,
                        w,
                        window as int,
                    );
                assert(false);
            }
        }
        i += 1;
    }
    proof {
        assert(false);
    }
    window
}

} // verus!
