//! Monkeys throwing items by worry level.
//!
//! Each monkey holds a queue of item worry levels, an inspection rule that
//! rewrites a level, and a divisibility test that decides which monkey
//! receives the item.

use vstd::prelude::*;

use std::collections::VecDeque;

verus! {

/// How a monkey rewrites a worry level on inspection.
#[derive(Debug, PartialEq, Eq, Structural, Clone, Copy)]
pub enum Operation {
    Add(u64),
    Mul(u64),
    Square,
}

/// The worry level after one inspection.
pub open spec fn spec_apply(op: Operation, old_level: u64) -> int {
    match op {
        Operation::Add(k) => old_level + k,
        Operation::Mul(k) => old_level * k,
        Operation::Square => old_level * old_level,
    }
}

impl Operation {
    /// The worry level after one inspection.
    pub fn apply(&self, old_level: u64) -> (r: u64)
        requires
            spec_apply(*self, old_level) <= u64::MAX,
        ensures
            r == spec_apply(*self, old_level),
    {
        match self {
            Operation::Add(k) => old_level + *k,
            Operation::Mul(k) => old_level * *k,
            Operation::Square => old_level * old_level,
        }
    }
}

/// Which monkey an item goes to: one target when the level divides evenly,
/// the other when it does not.
#[derive(Debug, PartialEq, Eq, Structural, Clone, Copy)]
pub struct ThrowTest {
    pub divisor: u64,
    pub if_true: usize,
    pub if_false: usize,
}

/// The receiving monkey for a worry level.
pub open spec fn spec_target(t: ThrowTest, level: u64) -> usize {
    if level as int % (t.divisor as int) == 0 {
        t.if_true
    } else {
        t.if_false
    }
}

impl ThrowTest {
    /// The receiving monkey for a worry level.
    pub fn target(&self, level: u64) -> (r: usize)
        requires
            self.divisor > 0,
        ensures
            r == spec_target(*self, level),
    {
        if level % self.divisor == 0 {
            self.if_true
        } else {
            self.if_false
        }
    }
}

/// One monkey: its queued items, its rules, and how many items it has
/// inspected.
#[derive(Debug)]
pub struct Monkey {
    pub items: VecDeque<u64>,
    pub operation: Operation,
    pub test: ThrowTest,
    pub inspect_count: usize,
}

impl Monkey {
    /// A monkey holding the given items, with no inspections yet.
    pub fn new(items: &Vec<u64>, operation: Operation, test: ThrowTest) -> (m: Monkey)
        ensures
            m.items@ == items@,
            m.operation == operation,
            m.test == test,
            m.inspect_count == 0,
    {
        let mut q: VecDeque<u64> = VecDeque::new();
        let mut i: usize = 0;
        while i < items.len()
            invariant
                i <= items@.len(),
                q@ =~= items@.take(i as int),
            decreases items@.len() - i,
        {
            q.push_back(items[i]);
            proof {
                assert(q@ =~= items@.take(i + 1));
            }
            i += 1;
        }
        proof {
            assert(q@ =~= items@);
        }
        Monkey { items: q, operation, test, inspect_count: 0 }
    }
}

} // verus!
