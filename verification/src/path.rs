//! Parsing a path of walk-and-turn commands.
//!
//! The input is a run of numbers and turn letters, as in `10R5L5`: a number
//! is a count of steps to walk, `R` and `L` are quarter turns.

use vstd::prelude::*;
use vstd::string::StringSliceAdditionalSpecFns;

verus! {

/// One command of the path.
#[derive(Debug, PartialEq, Eq, Structural, Clone, Copy)]
pub enum Cmd {
    Move(isize),
    R,
    L,
}

/// A parsed path.
#[derive(Debug)]
pub struct Path(pub Vec<Cmd>);

/// Flush a pending count into the command list.
pub open spec fn flush(acc: int) -> Seq<Cmd> {
    if acc != 0 {
        seq![Cmd::Move(acc as isize)]
    } else {
        Seq::empty()
    }
}

/// The commands the remaining bytes denote, with `acc` the number read so
/// far.
pub open spec fn path_spec(s: Seq<u8>, acc: int) -> Seq<Cmd>
    decreases s.len(),
{
    if s.len() == 0 {
        flush(acc)
    } else if s[0] == ('L' as u8) {
        flush(acc) + seq![Cmd::L] + path_spec(s.drop_first(), 0)
    } else if s[0] == ('R' as u8) {
        flush(acc) + seq![Cmd::R] + path_spec(s.drop_first(), 0)
    } else {
        path_spec(s.drop_first(), acc * 10 + (s[0] - ('0' as u8)))
    }
}

/// The remaining bytes are digits and turn letters, and every intermediate
/// count stays within the machine word.
pub open spec fn path_ok(s: Seq<u8>, acc: int) -> bool
    decreases s.len(),
{
    if s.len() == 0 {
        true
    } else if s[0] == ('L' as u8) || s[0] == ('R' as u8) {
        path_ok(s.drop_first(), 0)
    } else {
        &&& ('0' as u8) <= s[0] <= ('9' as u8)
        &&& 0 <= acc * 10 + (s[0] - ('0' as u8)) <= isize::MAX
        &&& path_ok(s.drop_first(), acc * 10 + (s[0] - ('0' as u8)))
    }
}

impl Path {
    /// The commands of a path string.
    pub fn parse(input: &str) -> (r: Path)
        requires
            path_ok(input.spec_bytes(), 0),
        ensures
            r.0@ == path_spec(input.spec_bytes(), 0),
    {
        let b = input.as_bytes();
        let mut out: Vec<Cmd> = Vec::new();
        let mut acc: isize = 0;
        let mut i: usize = 0;
        proof {
            assert(b@.skip(0) =~= b@);
        }
        while i < b.len()
            invariant
                i <= b@.len(),
                b@ == input.spec_bytes(),
                0 <= acc,
                path_ok(b@.skip(i as int), acc as int),
                path_spec(b@, 0) == out@ + path_spec(b@.skip(i as int), acc as int),
            decreases b@.len() - i,
        {
            let c = b[i];
            proof {
                assert(b@.skip(i as int)[0] == b@[i as int]);
                assert(b@.skip(i as int).drop_first() =~= b@.skip(i + 1));
            }
            if c == ('L' as u8) || c == ('R' as u8) {
                if acc != 0 {
                    out.push(Cmd::Move(acc));
                    acc = 0;
                }
                if c == ('L' as u8) {
                    out.push(Cmd::L);
                } else {
                    out.push(Cmd::R);
                }
                proof {
                    assert(out@ + path_spec(b@.skip(i + 1), 0) =~= (out@ + path_spec(
                        b@.skip(i + 1),
                        0,
                    )));
                    assert(path_spec(b@, 0) =~= out@ + path_spec(b@.skip(i + 1), 0));
                }
            } else {
                acc = acc * 10 + ((c - ('0' as u8)) as isize);
            }
            i += 1;
        }
        proof {
            assert(b@.skip(b@.len() as int) =~= Seq::<u8>::empty());
        }
        if acc != 0 {
            out.push(Cmd::Move(acc));
        }
        proof {
            assert(path_spec(b@, 0) =~= out@);
        }
        Path(out)
    }
}

} // verus!
