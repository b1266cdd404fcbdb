//! A one-register processor driving a scan line.
//!
//! The program is a list of instructions, one per line: `noop` takes one
//! cycle and does nothing; `addx N` takes two cycles and then adds `N` to
//! the register.  During certain cycles the cycle number times the register
//! is recorded, and every cycle draws one pixel of a forty-pixel scan line:
//! lit when the register is within one of the pixel position.

use vstd::prelude::*;
use vstd::string::StringSliceAdditionalSpecFns;

use crate::assignments::{digits_val, is_digits, lemma_digits_val_prefix_le};

verus! {

/// One instruction of the program.
#[derive(Debug, PartialEq, Eq, Structural, Clone, Copy)]
pub enum Instruction {
    Addx(isize),
    Noop,
}

/// The bytes of the word `noop`.
pub open spec fn noop_bytes() -> Seq<u8> {
    seq![('n' as u8), ('o' as u8), ('o' as u8), ('p' as u8)]
}

/// The bytes of the prefix `addx `.
pub open spec fn addx_bytes() -> Seq<u8> {
    seq![('a' as u8), ('d' as u8), ('d' as u8), ('x' as u8), (' ' as u8)]
}

/// A signed decimal number a machine word holds.
pub open spec fn valid_int(s: Seq<u8>) -> bool {
    if s.len() > 0 && s[0] == ('-' as u8) {
        is_digits(s.skip(1)) && -digits_val(s.skip(1)) >= isize::MIN
    } else {
        is_digits(s) && digits_val(s) <= isize::MAX
    }
}

/// The number a signed decimal denotes.
pub open spec fn int_val(s: Seq<u8>) -> int {
    if s.len() > 0 && s[0] == ('-' as u8) {
        -digits_val(s.skip(1))
    } else {
        digits_val(s)
    }
}

/// A line that denotes an instruction.
pub open spec fn valid_inst(s: Seq<u8>) -> bool {
    s == noop_bytes() || (s.len() > addx_bytes().len() && s.take(addx_bytes().len() as int)
        == addx_bytes() && valid_int(s.skip(addx_bytes().len() as int)))
}

/// The instruction a line denotes.
pub open spec fn spec_instruction(s: Seq<u8>) -> Instruction {
    if s == noop_bytes() {
        Instruction::Noop
    } else {
        Instruction::Addx(int_val(s.skip(addx_bytes().len() as int)) as isize)
    }
}

/// The digits between `from` and `to`, as a number, when they are digits
/// denoting a number at most `bound`.
pub(crate) fn parse_digits_bounded(b: &[u8], from: usize, to: usize, bound: u64) -> (r: Option<
    u64,
>)
    requires
        from <= to <= b@.len(),
    ensures
        match r {
            Some(v) => is_digits(b@.subrange(from as int, to as int)) && v == digits_val(
                b@.subrange(from as int, to as int),
            ) && v <= bound,
            None => !(is_digits(b@.subrange(from as int, to as int)) && digits_val(
                b@.subrange(from as int, to as int),
            ) <= bound),
        },
{
    let ghost digits = b@.subrange(from as int, to as int);
    if from == to {
        proof {
            assert(digits.len() == 0);
        }
        return None;
    }
    let mut acc: u64 = 0;
    let mut i = from;
    while i < to
        invariant
            from <= i <= to <= b@.len(),
            digits == b@.subrange(from as int, to as int),
            from < to,
            bound <= u64::MAX,
            forall|k: int| 0 <= k < i - from ==> ('0' as u8) <= #[trigger] digits[k] <= ('9' as u8),
            acc == digits_val(digits.take(i - from)),
            acc <= bound,
        decreases to - i,
    {
        let d = b[i];
        if d < ('0' as u8) || d > ('9' as u8) {
            proof {
                assert(digits[i - from] == b@[i as int]);
            }
            return None;
        }
        proof {
            assert(digits[i - from] == b@[i as int]);
            assert(digits.take(i - from + 1).drop_last() =~= digits.take(i - from));
            assert(digits.take(i - from + 1).last() == digits[i - from]);
        }
        let dd = (d - ('0' as u8)) as u64;
        if acc > bound / 10 || dd > bound - acc * 10 {
            proof {
                let j = i - from + 1;
                assert(digits_val(digits.take(j)) > bound) by {
                    if acc > bound / 10 {
                        assert(acc * 10 + dd > bound) by (nonlinear_arith)
                            requires
                                acc > bound / 10,
                                bound == (bound / 10) * 10 + bound % 10,
                                0 <= bound % 10 < 10,
                                dd >= 0,
                        ;
                    }
                }
                assert(!(is_digits(digits) && digits_val(digits) <= bound)) by {
                    if is_digits(digits) {
                        lemma_digits_val_prefix_le(digits, j);
                    }
                }
            }
            return None;
        }
        acc = acc * 10 + dd;
        i += 1;
    }
    proof {
        assert(digits.take(to - from) =~= digits);
    }
    Some(acc)
}

/// The instruction a line denotes, when it denotes one.
fn parse_inst_bytes(b: &[u8]) -> (r: Option<Instruction>)
    ensures
        r == if valid_inst(b@) {
            Some(spec_instruction(b@))
        } else {
            None::<Instruction>
        },
{
    if b.len() == 4 && b[0] == ('n' as u8) && b[1] == ('o' as u8) && b[2] == ('o' as u8) && b[3]
        == ('p' as u8) {
        proof {
            assert(b@ =~= noop_bytes());
        }
        return Some(Instruction::Noop);
    }
    proof {
        assert(b@ != noop_bytes()) by {
            if b@ =~= noop_bytes() {
                assert(b@.len() == 4 && b@[0] == ('n' as u8) && b@[1] == ('o' as u8) && b@[2] == (
                'o' as u8) && b@[3] == ('p' as u8));
            }
        }
    }
    if b.len() < 6 || b[0] != ('a' as u8) || b[1] != ('d' as u8) || b[2] != ('d' as u8) || b[3]
        != ('x' as u8) || b[4] != (' ' as u8) {
        proof {
            if b@.len() > 5 && b@.take(5) == addx_bytes() {
                assert(b@[0] == ('a' as u8) && b@[1] == ('d' as u8) && b@[2] == ('d' as u8) && b@[3]
                    == ('x' as u8) && b@[4] == (' ' as u8));
            }
        }
        return None;
    }
    proof {
        assert(b@.take(5) =~= addx_bytes());
    }
    let ghost rest = b@.skip(5);
    let neg = b[5] == ('-' as u8);
    let from: usize = if neg {
        6
    } else {
        5
    };
    proof {
        if neg {
            assert(rest.skip(1) =~= b@.subrange(6, b@.len() as int));
        } else {
            assert(rest =~= b@.subrange(5, b@.len() as int));
        }
        assert(rest[0] == b@[5]);
    }
    let limit: u64 = if neg {
        (isize::MAX as u64) + 1
    } else {
        isize::MAX as u64
    };
    match parse_digits_bounded(b, from, b.len(), limit) {
        Some(v) => {
            if neg {
                proof {
                    assert(valid_int(rest));
                    assert(int_val(rest) == -digits_val(rest.skip(1)));
                }
                if v == (isize::MAX as u64) + 1 {
                    Some(Instruction::Addx(isize::MIN))
                } else {
                    Some(Instruction::Addx(-(v as isize)))
                }
            } else {
                proof {
                    assert(valid_int(rest));
                }
                Some(Instruction::Addx(v as isize))
            }
        },
        None => {
            proof {
                assert(!valid_int(rest)) by {
                    if valid_int(rest) {
                        if neg {
                            assert(is_digits(rest.skip(1)) && digits_val(rest.skip(1)) <= limit);
                        } else {
                            assert(is_digits(rest) && digits_val(rest) <= limit);
                        }
                    }
                }
            }
            None
        },
    }
}

/// The number a signed decimal line denotes.
pub(crate) fn parse_plain_int(b: &[u8]) -> (r: i64)
    requires
        valid_int(b@),
    ensures
        r as int == int_val(b@),
{
    let neg = b.len() > 0 && b[0] == ('-' as u8);
    if neg {
        proof {
            assert(b@.skip(1) =~= b@.subrange(1, b@.len() as int));
        }
        match parse_digits_bounded(b, 1, b.len(), (isize::MAX as u64) + 1) {
            Some(v) => {
                if v > (isize::MAX as u64) {
                    -(isize::MAX as i64) - 1
                } else {
                    -(v as i64)
                }
            },
            None => {
                proof {
                    assert(false);
                }
                0
            },
        }
    } else {
        proof {
            assert(b@.skip(0) =~= b@);
            assert(b@.subrange(0, b@.len() as int) =~= b@);
        }
        match parse_digits_bounded(b, 0, b.len(), isize::MAX as u64) {
            Some(v) => v as i64,
            None => {
                proof {
                    assert(false);
                }
                0
            },
        }
    }
}

impl Instruction {
    /// The instruction a line denotes.  The line must follow the grammar:
    /// `noop`, or `addx` and a signed number.
    pub fn parse(line: &str) -> (r: Instruction)
        requires
            valid_inst(line.spec_bytes()),
        ensures
            r == spec_instruction(line.spec_bytes()),
    {
        match parse_inst_bytes(line.as_bytes()) {
            Some(inst) => inst,
            None => {
                proof {
                    assert(false);
                }
                Instruction::Noop
            },
        }
    }
}

/// The processor: the current cycle, the register, the recorded signal sum,
/// and the forty pixels of the current scan line.
#[derive(Debug)]
pub struct Cpu {
    pub cycle: usize,
    pub x: isize,
    pub signal_strength_sum: isize,
    pub scan_line: Vec<char>,
}

/// The cycles whose signal strength is recorded: every fortieth, offset
/// twenty.
pub open spec fn records_at(cycle: int) -> bool {
    (cycle + 20) % 40 == 0
}

/// The sum after the recording step of one cycle.
pub open spec fn recorded_sum(c: Cpu) -> int {
    if records_at(c.cycle as int) {
        c.signal_strength_sum + c.cycle * c.x
    } else {
        c.signal_strength_sum as int
    }
}

/// The pixel one cycle draws.
pub open spec fn pixel_of(c: Cpu) -> int {
    (c.cycle - 1) % 40
}

/// A pixel is lit when the register is within one of its position.
pub open spec fn lit(pixel: int, x: int) -> bool {
    x - 1 <= pixel <= x + 1
}

/// The arithmetic of one cycle stays within the machine words.
pub open spec fn cycle_fits(c: Cpu) -> bool {
    &&& c.cycle + 20 <= usize::MAX
    &&& records_at(c.cycle as int) ==> isize::MIN <= c.signal_strength_sum + c.cycle * c.x
        <= isize::MAX && c.cycle <= isize::MAX && isize::MIN <= c.cycle * c.x <= isize::MAX
}

impl Cpu {
    /// The scan line holds exactly forty pixels.
    pub open spec fn wf(&self) -> bool {
        self.scan_line@.len() == 40
    }

    /// A fresh processor: cycle one, register one, empty sum, blank line.
    pub fn new() -> (c: Cpu)
        ensures
            c.wf(),
            c.cycle == 1,
            c.x == 1,
            c.signal_strength_sum == 0,
            forall|i: int| 0 <= i < 40 ==> c.scan_line@[i] == '.',
    {
        let mut scan_line: Vec<char> = Vec::new();
        let mut i: usize = 0;
        while i < 40
            invariant
                i <= 40,
                scan_line@.len() == i,
                forall|k: int| 0 <= k < i ==> scan_line@[k] == '.',
            decreases 40 - i,
        {
            scan_line.push('.');
            i += 1;
        }
        Cpu { cycle: 1, x: 1, signal_strength_sum: 0, scan_line }
    }

    /// Record the cycle's signal strength (cycle times register) when this
    /// is a recording cycle; otherwise change nothing.
    pub fn maybe_record_signal_strength(&mut self)
        requires
            cycle_fits(*old(self)),
        ensures
            final(self).signal_strength_sum == recorded_sum(*old(self)),
            final(self).cycle == old(self).cycle,
            final(self).x == old(self).x,
            final(self).scan_line == old(self).scan_line,
    {
        if (self.cycle + 20) % 40 == 0 {
            self.signal_strength_sum = self.signal_strength_sum + (self.cycle as isize) * self.x;
        }
    }

    /// One cycle's bookkeeping: record the signal strength when due, then
    /// draw this cycle's pixel, lit exactly when the register is within one
    /// of the pixel position.
    pub fn handle_cycle(&mut self)
        requires
            old(self).wf(),
            old(self).cycle >= 1,
            cycle_fits(*old(self)),
        ensures
            final(self).wf(),
            final(self).signal_strength_sum == recorded_sum(*old(self)),
            final(self).cycle == old(self).cycle,
            final(self).x == old(self).x,
            final(self).scan_line@ == old(self).scan_line@.update(
                pixel_of(*old(self)),
                if lit(pixel_of(*old(self)), old(self).x as int) {
                    '#'
                } else {
                    '.'
                },
            ),
    {
        self.maybe_record_signal_strength();
        let pixel_pos = (self.cycle - 1) % 40;
        let p = pixel_pos as isize;
        let ch = if p - 1 <= self.x && self.x <= p + 1 {
            '#'
        } else {
            '.'
        };
        self.scan_line[pixel_pos] = ch;
    }

    /// Run one instruction: one cycle for `noop`; for `addx` a second
    /// cycle, after which the operand is added to the register.
    pub fn execute(&mut self, inst: Instruction)
        requires
            old(self).wf(),
            old(self).cycle >= 1,
            old(self).cycle + 2 <= usize::MAX - 20,
            cycle_fits(*old(self)),
            inst matches Instruction::Addx(v) ==> {
                let mid = Cpu {
                    cycle: (old(self).cycle + 1) as usize,
                    x: old(self).x,
                    signal_strength_sum: recorded_sum(*old(self)) as isize,
                    scan_line: old(self).scan_line,
                };
                cycle_fits(mid) && isize::MIN <= old(self).x + v <= isize::MAX
            },
        ensures
            final(self).wf(),
            final(self).x == old(self).x + (match inst {
                Instruction::Addx(v) => v as int,
                Instruction::Noop => 0,
            }),
            final(self).cycle == old(self).cycle + (match inst {
                Instruction::Addx(_) => 2int,
                Instruction::Noop => 1int,
            }),
            final(self).signal_strength_sum == (match inst {
                Instruction::Addx(_) => recorded_sum(
                    Cpu {
                        cycle: (old(self).cycle + 1) as usize,
                        x: old(self).x,
                        signal_strength_sum: recorded_sum(*old(self)) as isize,
                        scan_line: old(self).scan_line,
                    },
                ),
                Instruction::Noop => recorded_sum(*old(self)),
            }),
    {
        self.handle_cycle();
        match inst {
            Instruction::Addx(v) => {
                self.cycle = self.cycle + 1;
                self.handle_cycle();
                self.x = self.x + v;
            },
            Instruction::Noop => {},
        }
        self.cycle = self.cycle + 1;
    }
}

/// The lines of a byte string, split on newlines, with an unterminated last
/// line kept and a wholly empty tail dropped; `cur` is the partial line
/// already read.
pub open spec fn split_lines(b: Seq<u8>, cur: Seq<u8>) -> Seq<Seq<u8>>
    decreases b.len(),
{
    if b.len() == 0 {
        if cur.len() == 0 {
            Seq::empty()
        } else {
            seq![cur]
        }
    } else if b[0] == ('\n' as u8) {
        seq![cur] + split_lines(b.drop_first(), Seq::empty())
    } else if b[0] == ('\r' as u8) {
        split_lines(b.drop_first(), cur)
    } else {
        split_lines(b.drop_first(), cur.push(b[0]))
    }
}

/// The program's instructions, one per input line, when every line follows
/// the grammar.
pub fn parse_input(input: &str) -> (r: Option<Vec<Instruction>>)
    ensures
        match r {
            Some(v) => {
                &&& v@.len() == split_lines(input.spec_bytes(), Seq::empty()).len()
                &&& forall|i: int|
                    0 <= i < v@.len() ==> valid_inst(
                        #[trigger] split_lines(input.spec_bytes(), Seq::empty())[i],
                    ) && v@[i] == spec_instruction(
                        split_lines(input.spec_bytes(), Seq::empty())[i],
                    )
            },
            None => exists|i: int|
                0 <= i < split_lines(input.spec_bytes(), Seq::empty()).len() && !valid_inst(
                    #[trigger] split_lines(input.spec_bytes(), Seq::empty())[i],
                ),
        },
{
    let b = input.as_bytes();
    let ghost whole = split_lines(b@, Seq::<u8>::empty());
    let mut out: Vec<Instruction> = Vec::new();
    let mut cur: Vec<u8> = Vec::new();
    let ghost mut done: Seq<Seq<u8>> = Seq::empty();
    let mut i: usize = 0;
    proof {
        assert(b@.skip(0) =~= b@);
        assert(whole =~= done + split_lines(b@.skip(0), cur@));
    }
    while i < b.len()
        invariant
            i <= b@.len(),
            b@ == input.spec_bytes(),
            whole == split_lines(b@, Seq::<u8>::empty()),
            whole == done + split_lines(b@.skip(i as int), cur@),
            out@.len() == done.len(),
            forall|k: int|
                0 <= k < done.len() ==> valid_inst(#[trigger] done[k]) && out@[k]
                    == spec_instruction(done[k]),
        decreases b@.len() - i,
    {
        let c = b[i];
        proof {
            assert(b@.skip(i as int)[0] == b@[i as int]);
            assert(b@.skip(i as int).drop_first() =~= b@.skip(i + 1));
        }
        if c == ('\n' as u8) {
            proof {
                assert(split_lines(b@.skip(i as int), cur@) == seq![cur@] + split_lines(
                    b@.skip(i + 1),
                    Seq::<u8>::empty(),
                ));
                assert(whole[done.len() as int] == cur@);
            }
            match parse_inst_bytes(cur.as_slice()) {
                Some(inst) => {
                    out.push(inst);
                    proof {
                        done = done.push(cur@);
                        assert(whole =~= done + split_lines(b@.skip(i + 1), Seq::<u8>::empty()));
                    }
                },
                None => {
                    proof {
                        assert(0 <= done.len() < whole.len() && !valid_inst(
                            whole[done.len() as int],
                        ));
                    }
                    return None;
                },
            }
            cur = Vec::new();
        } else if c != ('\r' as u8) {
            let ghost oldcur = cur@;
            cur.push(c);
            proof {
                assert(split_lines(b@.skip(i as int), oldcur) == split_lines(
                    b@.skip(i + 1),
                    oldcur.push(c),
                ));
            }
        } else {
            proof {
                assert(split_lines(b@.skip(i as int), cur@) == split_lines(b@.skip(i + 1), cur@));
            }
        }
        i += 1;
    }
    proof {
        assert(b@.skip(b@.len() as int) =~= Seq::<u8>::empty());
    }
    if cur.len() > 0 {
        proof {
            assert(split_lines(b@.skip(i as int), cur@) == seq![cur@]);
            assert(whole[done.len() as int] == cur@);
        }
        match parse_inst_bytes(cur.as_slice()) {
            Some(inst) => {
                out.push(inst);
                proof {
                    done = done.push(cur@);
                    assert(whole =~= done);
                }
            },
            None => {
                proof {
                    assert(0 <= done.len() < whole.len() && !valid_inst(whole[done.len() as int]));
                }
                return None;
            },
        }
    } else {
        proof {
            assert(split_lines(b@.skip(i as int), cur@) =~= Seq::<Seq<u8>>::empty());
            assert(whole =~= done);
        }
    }
    Some(out)
}

} // verus!
