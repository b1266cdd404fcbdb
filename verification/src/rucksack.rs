//! Item priorities and the common item of several packs.
//!
//! An item is a letter: `a` to `z` score 1 to 26, `A` to `Z` score 27 to 52.
//! Packs are byte strings; the one item that occurs in every pack of a group
//! determines the group's score.

use vstd::prelude::*;
use vstd::string::StringSliceAdditionalSpecFns;

use std::collections::HashSet;

verus! {

/// The bytes an item may be: a lower- or upper-case letter.
pub open spec fn is_item(item: u8) -> bool {
    (('a' as u8) <= item <= ('z' as u8)) || (('A' as u8) <= item <= ('Z' as u8))
}

/// The score of an item: 1 to 26 for `a` to `z`, 27 to 52 for `A` to `Z`.
pub open spec fn spec_priority(item: u8) -> u8 {
    if ('a' as u8) <= item <= ('z' as u8) {
        (item - ('a' as u8) + 1) as u8
    } else {
        (item - ('A' as u8) + 27) as u8
    }
}

/// The score of an item.
pub fn priority(item: u8) -> (r: u8)
    requires
        is_item(item),
    ensures
        r == spec_priority(item),
{
    if item >= ('a' as u8) && item <= ('z' as u8) {
        item - ('a' as u8) + 1
    } else {
        item - ('A' as u8) + 27
    }
}

/// The set of bytes a string holds.
pub fn str_to_u8_set(s: &str) -> (r: HashSet<u8>)
    ensures
        forall|x: u8| r@.contains(x) <==> s.spec_bytes().contains(x),
{
    let b = s.as_bytes();
    let mut out: HashSet<u8> = HashSet::new();
    let mut i: usize = 0;
    while i < b.len()
        invariant
            i <= b@.len(),
            forall|x: u8| out@.contains(x) <==> b@.take(i as int).contains(x),
        decreases b@.len() - i,
    {
        let c = b[i];
        out.insert(c);
        proof {
            assert forall|x: u8| out@.contains(x) <==> b@.take(i + 1).contains(x) by {
                assert(b@.take(i + 1) =~= b@.take(i as int).push(b@[i as int]));
                if out@.contains(x) {
                    if x == c {
                        assert(b@.take(i + 1)[i as int] == x);
                    } else {
                        let k = choose|k: int| 0 <= k < i && b@.take(i as int)[k] == x;
                        assert(b@.take(i + 1)[k] == x);
                    }
                }
                if b@.take(i + 1).contains(x) {
                    let k = choose|k: int| 0 <= k < i + 1 && #[trigger] b@.take(i + 1)[k] == x;
                    if k < i {
                        assert(b@.take(i as int)[k] == x);
                    }
                }
            }
        }
        i += 1;
    }
    proof {
        assert(b@.take(b@.len() as int) =~= b@);
    }
    out
}

/// The item occurs in every pack of the group.
pub open spec fn in_all(cont: Seq<&str>, x: u8) -> bool {
    forall|i: int| 0 <= i < cont.len() ==> (#[trigger] cont[i]).spec_bytes().contains(x)
}

/// Whether a string holds the byte.
fn str_contains_byte(s: &str, x: u8) -> (r: bool)
    ensures
        r == s.spec_bytes().contains(x),
{
    let b = s.as_bytes();
    let mut i: usize = 0;
    while i < b.len()
        invariant
            i <= b@.len(),
            b@ == s.spec_bytes(),
            forall|k: int| 0 <= k < i ==> b@[k] != x,
        decreases b@.len() - i,
    {
        if b[i] == x {
            proof {
                assert(b@[i as int] == x);
                assert(b@.contains(x));
            }
            return true;
        }
        i += 1;
    }
    proof {
        if b@.contains(x) {
            let k = choose|k: int| 0 <= k < b@.len() && b@[k] == x;
        }
    }
    false
}

/// The one item common to all the given packs.  The group must share
/// exactly one item.
pub fn common(cont: &[&str]) -> (r: u8)
    requires
        cont@.len() > 0,
        exists|x: u8| in_all(cont@, x),
        forall|x: u8, y: u8| in_all(cont@, x) && in_all(cont@, y) ==> x == y,
    ensures
        in_all(cont@, r),
{
    let set_common = str_to_u8_set(cont[0]);
    let mut v: u16 = 0;
    while v < 256
        invariant
            v <= 256,
            cont@.len() > 0,
            exists|x: u8| in_all(cont@, x),
            forall|x: u8| set_common@.contains(x) <==> cont@[0].spec_bytes().contains(x),
            forall|w: u16| w < v ==> !(#[trigger] in_all(cont@, w as u8)),
        decreases 256 - v,
    {
        let b = v as u8;
        if set_common.contains(&b) {
            let mut ok = true;
            let mut i: usize = 1;
            while i < cont.len()
                invariant
                    1 <= i <= cont@.len(),
                    cont@[0].spec_bytes().contains(b),
                    ok ==> forall|j: int| 0 <= j < i ==> (#[trigger] cont@[j]).spec_bytes().contains(
                        b,
                    ),
                    !ok ==> !in_all(cont@, b),
                decreases cont@.len() - i,
            {
                if !str_contains_byte(cont[i], b) {
                    ok = false;
                    proof {
                        assert(!cont@[i as int].spec_bytes().contains(b));
                    }
                }
                i += 1;
            }
            if ok {
                return b;
            }
        } else {
            proof {
                assert(!cont@[0].spec_bytes().contains(b));
                assert(!in_all(cont@, b));
            }
        }
        v += 1;
    }
    proof {
        let x = choose|x: u8| in_all(cont@, x);
        assert((x as u16) < 256);
        assert(((x as u16) as u8) == x);
        assert(!in_all(cont@, (x as u16) as u8));
        assert(false);
    }
    0
}

} // verus!
