//! A bounded state-space search over a graph of valves.
//!
//! The graph is a fixed set of nodes; each node has a non-negative weight
//! (a flow rate) and unit-cost edges to other nodes.  One or two agents move
//! through the graph one discrete step at a time.  At each step every open
//! valve adds its flow rate to the accumulated score, and then each agent
//! either opens the valve where it stands (if the valve has non-zero rate and
//! is still shut), moves along an edge, or stays where it is.  [`plan`]
//! returns the largest score reachable in a given number of steps.
//!
//! The search keeps a frontier: a mapping from each distinct reachable state
//! to the best score seen for it so far ([`StateUnion`]).  Each step fully
//! consumes the previous frontier and produces the next.  Two refinements
//! keep the search tractable and are part of the design: states that differ
//! only by which of the two agents stands where are canonicalized to a single
//! representative, and the per-step score of an open-valve set is memoized in
//! the [`Cave`] so it is computed once per distinct set.
//!
//! Two deliberate choices settle corners that a step-by-step reading of the
//! rules leaves open.  First, an agent may always stay in place, so a state
//! whose node has no outgoing edges still persists from step to step and
//! keeps accruing its open valves' flow.  Second, when both agents act in one
//! step, the second agent's action is applied to the state the first agent's
//! action produced, so the two can never open the same valve twice in one
//! step: the second agent's redundant "open" is simply not offered.
//!
//! The mathematical meaning of the search is the spec function [`best`]: the
//! optimum over every sequence of joint actions of the given length.  `plan`
//! is proved to return exactly that optimum.

use vstd::prelude::*;
use vstd::string::StringSliceAdditionalSpecFns;

use std::collections::HashMap;

use crate::assignments::{digits_val, is_digits};
use crate::cpu::split_lines;

verus! {

/// A node of the graph: a weight (flow rate) and the indices of its
/// neighbours.
#[derive(Debug)]
pub struct Valve {
    pub flow_rate: u64,
    pub exits: Vec<u8>,
}

/// A well-formed graph: at most 64 nodes (so an open-valve set fits in one
/// `u64` mask) and every edge points at a node of the graph.
pub open spec fn valves_wf(valves: Seq<Valve>) -> bool {
    &&& valves.len() <= 64
    &&& forall|i: int, j: int|
        0 <= i < valves.len() && 0 <= j < valves[i].exits@.len() ==> (#[trigger] valves[i].exits@[j]
            as int) < valves.len()
}

/// True iff valve `i` is open in the mask.
pub open spec fn mask_has(mask: u64, i: u64) -> bool {
    mask & (1u64 << i) != 0
}

/// Sum of the flow rates of the open valves among the first `n` nodes.
pub open spec fn rate_sum_upto(valves: Seq<Valve>, mask: u64, n: int) -> nat
    decreases n,
{
    if n <= 0 || n > valves.len() {
        0
    } else {
        rate_sum_upto(valves, mask, n - 1) + if mask_has(mask, (n - 1) as u64) {
            valves[n - 1].flow_rate as nat
        } else {
            0
        }
    }
}

/// Sum of the flow rates of all open valves: the score one step contributes.
pub open spec fn rate_sum(valves: Seq<Valve>, mask: u64) -> nat {
    rate_sum_upto(valves, mask, valves.len() as int)
}

/// Sum of the flow rates of the first `n` nodes, open or not.
pub open spec fn total_flow_upto(valves: Seq<Valve>, n: int) -> nat
    decreases n,
{
    if n <= 0 || n > valves.len() {
        0
    } else {
        total_flow_upto(valves, n - 1) + valves[n - 1].flow_rate as nat
    }
}

/// Sum of the flow rates of all nodes: no step can contribute more.
pub open spec fn total_flow(valves: Seq<Valve>) -> nat {
    total_flow_upto(valves, valves.len() as int)
}

/// One step's contribution never exceeds the sum of all flow rates.
pub proof fn lemma_rate_sum_le_total_upto(valves: Seq<Valve>, mask: u64, n: int)
    ensures
        rate_sum_upto(valves, mask, n) <= total_flow_upto(valves, n),
    decreases n,
{
    if !(n <= 0 || n > valves.len()) {
        lemma_rate_sum_le_total_upto(valves, mask, n - 1);
    }
}

/// One step's contribution never exceeds the sum of all flow rates.
pub proof fn lemma_rate_sum_le_total(valves: Seq<Valve>, mask: u64)
    ensures
        rate_sum(valves, mask) <= total_flow(valves),
{
    lemma_rate_sum_le_total_upto(valves, mask, valves.len() as int);
}

/// A search state: where each of the two agents stands, and which valves are
/// open, as a bitmask over valve indices.  With a single agent the second
/// position is simply never moved.
#[derive(Debug, PartialEq, Eq, Structural, Clone, Copy)]
pub struct State {
    pub location: u8,
    pub elephant_location: u8,
    pub valves_open: u64,
}

/// Both agents stand at nodes of the graph.
pub open spec fn state_wf(valves: Seq<Valve>, s: State) -> bool {
    &&& (s.location as int) < valves.len()
    &&& (s.elephant_location as int) < valves.len()
}

impl State {
    /// The initial state: both agents at `location`, every valve shut.
    pub fn new(location: u8) -> (s: State)
        ensures
            s == (State { location, elephant_location: location, valves_open: 0u64 }),
    {
        State { location, elephant_location: location, valves_open: 0 }
    }

    /// A copy of this state with the valve at `loc` opened.
    pub fn open_valve(&self, loc: u8) -> (s: State)
        requires
            loc < 64,
            !mask_has(self.valves_open, loc as u64),
        ensures
            s == (State {
                location: self.location,
                elephant_location: self.elephant_location,
                valves_open: self.valves_open | (1u64 << (loc as u64)),
            }),
    {
        State { valves_open: self.valves_open | (1u64 << (loc as u64)), ..*self }
    }

    /// A copy of this state with the first agent moved to `location`.
    pub fn move_to(&self, location: u8) -> (s: State)
        ensures
            s == (State {
                location,
                elephant_location: self.elephant_location,
                valves_open: self.valves_open,
            }),
    {
        State { location, ..*self }
    }

    /// A copy of this state with the second agent moved to `elephant_location`.
    pub fn move_elephant_to(&self, elephant_location: u8) -> (s: State)
        ensures
            s == (State {
                location: self.location,
                elephant_location,
                valves_open: self.valves_open,
            }),
    {
        State { elephant_location, ..*self }
    }
}

/// The canonical representative of a state.  With two agents a state and its
/// mirror image (the two agents exchanged) describe the same situation, so
/// the frontier stores only the representative whose first position is the
/// larger one.
pub open spec fn canon(s: State, use_elephant: bool) -> State {
    if use_elephant && s.elephant_location > s.location {
        State {
            location: s.elephant_location,
            elephant_location: s.location,
            valves_open: s.valves_open,
        }
    } else {
        s
    }
}

/// The graph, together with the memoization table for per-step scores.
#[derive(Debug)]
pub struct Cave {
    pub valves: Vec<Valve>,
    pub starting_location: u8,
    pub max_pressure_per_minute: u64,
    pub pressure_per_minute_per_valve_state: HashMap<u64, u64>,
}

impl Cave {
    /// A well-formed cave: a well-formed graph, a start node inside it, the
    /// recorded maximum per-step score equal to the sum of all flow rates,
    /// and every memoized entry equal to the sum it stands for.
    pub open spec fn wf(&self) -> bool {
        &&& valves_wf(self.valves@)
        &&& (self.starting_location as int) < self.valves@.len()
        &&& self.max_pressure_per_minute as nat == total_flow(self.valves@)
        &&& forall|k: u64|
            self.pressure_per_minute_per_valve_state@.contains_key(k)
                ==> (#[trigger] self.pressure_per_minute_per_valve_state@[k]) as nat == rate_sum(
                self.valves@,
                k,
            )
    }

    /// The graph part of the cave is unchanged: only the memoization table
    /// may have grown.
    pub open spec fn same_graph(&self, other: &Cave) -> bool {
        &&& self.valves@ == other.valves@
        &&& self.starting_location == other.starting_location
        &&& self.max_pressure_per_minute == other.max_pressure_per_minute
    }

    /// The per-step score of the open-valve set `valves_open`: the sum of the
    /// flow rates of its open valves, memoized per distinct mask.
    pub fn get_pressure_per_minute(&mut self, valves_open: u64) -> (r: u64)
        requires
            old(self).wf(),
        ensures
            final(self).wf(),
            final(self).same_graph(old(self)),
            r as nat == rate_sum(old(self).valves@, valves_open),
    {
        match self.pressure_per_minute_per_valve_state.get(&valves_open) {
            Some(v) => *v,
            None => {
                let mut sum: u64 = 0;
                let mut i: usize = 0;
                proof {
                    lemma_rate_sum_le_total_upto(self.valves@, valves_open, self.valves@.len() as int);
                }
                while i < self.valves.len()
                    invariant
                        self.wf(),
                        i <= self.valves@.len(),
                        sum as nat == rate_sum_upto(self.valves@, valves_open, i as int),
                    decreases self.valves@.len() - i,
                {
                    proof {
                        lemma_rate_sum_le_total_upto(self.valves@, valves_open, i + 1 as int);
                        lemma_total_flow_upto_le(self.valves@, i + 1 as int);
                    }
                    if valves_open & (1u64 << (i as u64)) != 0 {
                        sum = sum + self.valves[i].flow_rate;
                    }
                    i = i + 1;
                }
                self.pressure_per_minute_per_valve_state.insert(valves_open, sum);
                sum
            },
        }
    }
}

/// The larger of two naturals.
pub open spec fn nat_max(a: nat, b: nat) -> nat {
    if a >= b {
        a
    } else {
        b
    }
}

/// An agent standing at `loc` may open that valve: it has non-zero rate and
/// is still shut.
pub open spec fn can_open(valves: Seq<Valve>, mask: u64, loc: u8) -> bool {
    valves[loc as int].flow_rate != 0 && !mask_has(mask, loc as u64)
}

/// The state `s` with the valve at `loc` opened.
pub open spec fn opened(s: State, loc: u8) -> State {
    State {
        location: s.location,
        elephant_location: s.elephant_location,
        valves_open: s.valves_open | (1u64 << (loc as u64)),
    }
}

/// Every state the first agent can reach from `s` in one action: open the
/// valve here (when legal), move along any edge, or stay.
pub open spec fn agent_cands(valves: Seq<Valve>, s: State) -> Seq<State> {
    let opens: Seq<State> = if can_open(valves, s.valves_open, s.location) {
        seq![opened(s, s.location)]
    } else {
        Seq::empty()
    };
    let moves = valves[s.location as int].exits@.map_values(
        |e: u8| State { location: e, elephant_location: s.elephant_location, valves_open: s.valves_open },
    );
    opens + moves + seq![s]
}

/// Every state the second agent, standing at `e_loc`, can produce from the
/// intermediate state `t` in one action: open the valve at `e_loc` (when
/// still legal in `t`), move along any edge, or stay.
pub open spec fn eleph_cands(valves: Seq<Valve>, e_loc: u8, t: State) -> Seq<State> {
    let opens: Seq<State> = if can_open(valves, t.valves_open, e_loc) {
        seq![opened(t, e_loc)]
    } else {
        Seq::empty()
    };
    let moves = valves[e_loc as int].exits@.map_values(
        |e: u8| State { location: t.location, elephant_location: e, valves_open: t.valves_open },
    );
    opens + moves + seq![t]
}

/// All joint outcomes: the second agent acts on each state the first agent's
/// action produced.
pub open spec fn joint_cands(valves: Seq<Valve>, e_loc: u8, ts: Seq<State>) -> Seq<State>
    decreases ts.len(),
{
    if ts.len() == 0 {
        Seq::empty()
    } else {
        eleph_cands(valves, e_loc, ts[0]) + joint_cands(valves, e_loc, ts.drop_first())
    }
}

/// Every state one step can produce from `s`, before canonicalization.
pub open spec fn cands(valves: Seq<Valve>, s: State, use_elephant: bool) -> Seq<State> {
    if use_elephant {
        joint_cands(valves, s.elephant_location, agent_cands(valves, s))
    } else {
        agent_cands(valves, s)
    }
}

/// The canonical successors of `s`: every one-step outcome, each replaced by
/// its canonical representative.
pub open spec fn succs(valves: Seq<Valve>, s: State, use_elephant: bool) -> Seq<State> {
    cands(valves, s, use_elephant).map_values(|t: State| canon(t, use_elephant))
}

/// The optimum: the largest score any sequence of `n` joint actions starting
/// from `s` can accumulate.  Each step first accrues the flow of the valves
/// open in the current state, then takes one of the successor states.
pub open spec fn best(valves: Seq<Valve>, s: State, n: nat, use_elephant: bool) -> nat
    decreases n, 0int, 0int,
{
    if n == 0 {
        0
    } else {
        rate_sum(valves, s.valves_open) + best_over(
            valves,
            succs(valves, s, use_elephant),
            (n - 1) as nat,
            use_elephant,
        )
    }
}

/// The largest optimum over a list of states.
pub open spec fn best_over(valves: Seq<Valve>, list: Seq<State>, n: nat, use_elephant: bool) -> nat
    decreases n, 1int, list.len(),
{
    if list.len() == 0 {
        0
    } else {
        nat_max(
            best(valves, list[0], n, use_elephant),
            best_over(valves, list.drop_first(), n, use_elephant),
        )
    }
}

/// A frontier, abstractly: a list of (state, best accumulated score) pairs.
/// Well-formed frontiers hold each state at most once.
pub open spec fn upsert_max(fr: Seq<(State, nat)>, s: State, p: nat) -> Seq<(State, nat)>
    decreases fr.len(),
{
    if fr.len() == 0 {
        seq![(s, p)]
    } else if fr[0].0 == s {
        seq![(s, nat_max(fr[0].1, p))] + fr.drop_first()
    } else {
        seq![fr[0]] + upsert_max(fr.drop_first(), s, p)
    }
}

/// Fold a list of successor states into a frontier, each with score `p`.
pub open spec fn apply_cands(fr: Seq<(State, nat)>, cs: Seq<State>, p: nat) -> Seq<(State, nat)>
    decreases cs.len(),
{
    if cs.len() == 0 {
        fr
    } else {
        apply_cands(upsert_max(fr, cs[0], p), cs.drop_first(), p)
    }
}

/// Expand the entries of `fr` from position `i` on into `acc`: each entry
/// contributes all its canonical successors, at its score plus one step's
/// flow.
pub open spec fn step_from(
    valves: Seq<Valve>,
    fr: Seq<(State, nat)>,
    i: int,
    acc: Seq<(State, nat)>,
    use_elephant: bool,
) -> Seq<(State, nat)>
    decreases fr.len() - i,
{
    if i < 0 || i >= fr.len() {
        acc
    } else {
        step_from(
            valves,
            fr,
            i + 1,
            apply_cands(
                acc,
                succs(valves, fr[i].0, use_elephant),
                fr[i].1 + rate_sum(valves, fr[i].0.valves_open),
            ),
            use_elephant,
        )
    }
}

/// One whole step: the frontier wholly derived from the previous one.
pub open spec fn step_seq(valves: Seq<Valve>, fr: Seq<(State, nat)>, use_elephant: bool) -> Seq<
    (State, nat),
> {
    step_from(valves, fr, 0, Seq::empty(), use_elephant)
}

/// The potential of a frontier with `n` steps left: the best total score any
/// of its entries can still reach.  This is the quantity each step of the
/// search preserves.
pub open spec fn gain(valves: Seq<Valve>, fr: Seq<(State, nat)>, n: nat, use_elephant: bool) -> nat
    decreases fr.len(),
{
    if fr.len() == 0 {
        0
    } else {
        nat_max(
            (fr[0].1 + best(valves, fr[0].0, n, use_elephant)) as nat,
            gain(valves, fr.drop_first(), n, use_elephant),
        )
    }
}

/// Every score in the frontier is at most `b`.
pub open spec fn values_le(fr: Seq<(State, nat)>, b: nat) -> bool {
    forall|i: int| 0 <= i < fr.len() ==> (#[trigger] fr[i].1) <= b
}

/// Every state in the frontier names nodes of the graph.
pub open spec fn states_wf(valves: Seq<Valve>, fr: Seq<(State, nat)>) -> bool {
    forall|i: int| 0 <= i < fr.len() ==> state_wf(valves, #[trigger] fr[i].0)
}

/// The partial sums of the flow rates grow towards the full sum.
pub proof fn lemma_total_flow_upto_le(valves: Seq<Valve>, n: int)
    ensures
        total_flow_upto(valves, n) <= total_flow(valves),
    decreases valves.len() - n,
{
    if n < valves.len() {
        if n < 0 {
        } else {
            lemma_total_flow_upto_le(valves, n + 1);
        }
    }
}

/// Every state has at least one successor: staying put is always offered.
pub proof fn lemma_succs_nonempty(valves: Seq<Valve>, s: State, use_elephant: bool)
    ensures
        succs(valves, s, use_elephant).len() > 0,
{
    let ts = agent_cands(valves, s);
    assert(ts.len() > 0);
    if use_elephant {
        assert(joint_cands(valves, s.elephant_location, ts) == eleph_cands(valves, s.elephant_location, ts[0]) + joint_cands(valves, s.elephant_location, ts.drop_first()));
        assert(eleph_cands(valves, s.elephant_location, ts[0]).len() > 0);
    }
}

/// Appending an entry to a frontier takes the potential to the larger of the
/// old potential and the new entry's.
pub proof fn lemma_gain_push(
    valves: Seq<Valve>,
    fr: Seq<(State, nat)>,
    e: (State, nat),
    n: nat,
    use_elephant: bool,
)
    ensures
        gain(valves, fr.push(e), n, use_elephant) == nat_max(
            gain(valves, fr, n, use_elephant),
            (e.1 + best(valves, e.0, n, use_elephant)) as nat,
        ),
    decreases fr.len(),
{
    if fr.len() == 0 {
        assert(fr.push(e).len() == 1);
        assert(fr.push(e)[0] == e);
        assert(fr.push(e).drop_first() =~= Seq::<(State, nat)>::empty());
        assert(gain(valves, fr.push(e).drop_first(), n, use_elephant) == 0);
        assert(gain(valves, fr.push(e), n, use_elephant) == nat_max(
            (e.1 + best(valves, e.0, n, use_elephant)) as nat,
            0,
        ));
        assert(gain(valves, fr, n, use_elephant) == 0);
    } else {
        assert(fr.push(e)[0] == fr[0]);
        assert(fr.push(e).len() == fr.len() + 1);
        assert(fr.push(e).drop_first() =~= fr.drop_first().push(e));
        lemma_gain_push(valves, fr.drop_first(), e, n, use_elephant);
        assert(gain(valves, fr.push(e), n, use_elephant) == nat_max(
            (fr[0].1 + best(valves, fr[0].0, n, use_elephant)) as nat,
            gain(valves, fr.drop_first().push(e), n, use_elephant),
        ));
        assert(gain(valves, fr, n, use_elephant) == nat_max(
            (fr[0].1 + best(valves, fr[0].0, n, use_elephant)) as nat,
            gain(valves, fr.drop_first(), n, use_elephant),
        ));
    }
}

/// Merging one (state, score) pair into a frontier takes the potential to
/// the larger of the old potential and the pair's.
pub proof fn lemma_upsert_gain(
    valves: Seq<Valve>,
    fr: Seq<(State, nat)>,
    s: State,
    p: nat,
    n: nat,
    use_elephant: bool,
)
    ensures
        gain(valves, upsert_max(fr, s, p), n, use_elephant) == nat_max(
            gain(valves, fr, n, use_elephant),
            (p + best(valves, s, n, use_elephant)) as nat,
        ),
    decreases fr.len(),
{
    let r = upsert_max(fr, s, p);
    if fr.len() == 0 {
        assert(r[0] == (s, p));
        assert(r.drop_first() =~= Seq::<(State, nat)>::empty());
        assert(gain(valves, r.drop_first(), n, use_elephant) == 0);
    } else if fr[0].0 == s {
        assert(r.len() == fr.len());
        assert(r[0] == (s, nat_max(fr[0].1, p)));
        assert(r.drop_first() =~= fr.drop_first());
        assert(gain(valves, r, n, use_elephant) == nat_max(
            (nat_max(fr[0].1, p) + best(valves, s, n, use_elephant)) as nat,
            gain(valves, r.drop_first(), n, use_elephant),
        ));
        assert(gain(valves, fr, n, use_elephant) == nat_max(
            (fr[0].1 + best(valves, fr[0].0, n, use_elephant)) as nat,
            gain(valves, fr.drop_first(), n, use_elephant),
        ));
    } else {
        assert(r[0] == fr[0]);
        assert(r.len() > 0);
        assert(r.drop_first() =~= upsert_max(fr.drop_first(), s, p));
        lemma_upsert_gain(valves, fr.drop_first(), s, p, n, use_elephant);
        assert(gain(valves, r, n, use_elephant) == nat_max(
            (fr[0].1 + best(valves, fr[0].0, n, use_elephant)) as nat,
            gain(valves, upsert_max(fr.drop_first(), s, p), n, use_elephant),
        ));
        assert(gain(valves, fr, n, use_elephant) == nat_max(
            (fr[0].1 + best(valves, fr[0].0, n, use_elephant)) as nat,
            gain(valves, fr.drop_first(), n, use_elephant),
        ));
    }
}

/// Folding a non-empty list of successors into a frontier, each at score
/// `p`, takes the potential to the larger of the old potential and `p` plus
/// the best optimum among the successors.
pub proof fn lemma_apply_gain(
    valves: Seq<Valve>,
    fr: Seq<(State, nat)>,
    cs: Seq<State>,
    p: nat,
    n: nat,
    use_elephant: bool,
)
    requires
        cs.len() > 0,
    ensures
        gain(valves, apply_cands(fr, cs, p), n, use_elephant) == nat_max(
            gain(valves, fr, n, use_elephant),
            (p + best_over(valves, cs, n, use_elephant)) as nat,
        ),
    decreases cs.len(),
{
    lemma_upsert_gain(valves, fr, cs[0], p, n, use_elephant);
    let up = upsert_max(fr, cs[0], p);
    assert(apply_cands(fr, cs, p) == apply_cands(up, cs.drop_first(), p));
    assert(best_over(valves, cs, n, use_elephant) == nat_max(
        best(valves, cs[0], n, use_elephant),
        best_over(valves, cs.drop_first(), n, use_elephant),
    ));
    if cs.len() == 1 {
        assert(cs.drop_first().len() == 0);
        assert(apply_cands(up, cs.drop_first(), p) == up);
        assert(best_over(valves, cs.drop_first(), n, use_elephant) == 0);
    } else {
        lemma_apply_gain(valves, up, cs.drop_first(), p, n, use_elephant);
    }
}

/// Expanding the remaining entries of `fr` into `acc` yields the larger of
/// `acc`'s potential one step later and the remaining entries' potential now.
pub proof fn lemma_step_gain(
    valves: Seq<Valve>,
    fr: Seq<(State, nat)>,
    i: int,
    acc: Seq<(State, nat)>,
    n: nat,
    use_elephant: bool,
)
    requires
        0 <= i <= fr.len(),
        n >= 1,
    ensures
        gain(valves, step_from(valves, fr, i, acc, use_elephant), (n - 1) as nat, use_elephant)
            == nat_max(
            gain(valves, acc, (n - 1) as nat, use_elephant),
            gain(valves, fr.skip(i), n, use_elephant),
        ),
    decreases fr.len() - i,
{
    if i == fr.len() {
        assert(fr.skip(i).len() == 0);
    } else {
        let p = fr[i].1 + rate_sum(valves, fr[i].0.valves_open);
        let cs = succs(valves, fr[i].0, use_elephant);
        let acc2 = apply_cands(acc, cs, p);
        lemma_succs_nonempty(valves, fr[i].0, use_elephant);
        lemma_apply_gain(valves, acc, cs, p, (n - 1) as nat, use_elephant);
        assert(best(valves, fr[i].0, n, use_elephant) == rate_sum(valves, fr[i].0.valves_open)
            + best_over(valves, cs, (n - 1) as nat, use_elephant));
        lemma_step_gain(valves, fr, i + 1, acc2, n, use_elephant);
        assert(fr.skip(i)[0] == fr[i]);
        assert(fr.skip(i).drop_first() =~= fr.skip(i + 1));
        assert(gain(valves, fr.skip(i), n, use_elephant) == nat_max(
            (fr[i].1 + best(valves, fr[i].0, n, use_elephant)) as nat,
            gain(valves, fr.skip(i + 1), n, use_elephant),
        ));
    }
}

/// The heart of the search: one whole step preserves the potential, with one
/// step fewer left.
pub proof fn lemma_step_preserves_gain(
    valves: Seq<Valve>,
    fr: Seq<(State, nat)>,
    n: nat,
    use_elephant: bool,
)
    requires
        n >= 1,
    ensures
        gain(valves, step_seq(valves, fr, use_elephant), (n - 1) as nat, use_elephant) == gain(
            valves,
            fr,
            n,
            use_elephant,
        ),
{
    lemma_step_gain(valves, fr, 0, Seq::<(State, nat)>::empty(), n, use_elephant);
    assert(fr.skip(0) =~= fr);
}

/// The largest score in a frontier.
pub open spec fn max_value(fr: Seq<(State, nat)>) -> nat
    decreases fr.len(),
{
    if fr.len() == 0 {
        0
    } else {
        nat_max(fr[0].1, max_value(fr.drop_first()))
    }
}

/// With no steps left, the potential of a frontier is just its largest score.
pub proof fn lemma_gain_zero(valves: Seq<Valve>, fr: Seq<(State, nat)>, use_elephant: bool)
    ensures
        gain(valves, fr, 0, use_elephant) == max_value(fr),
    decreases fr.len(),
{
    if fr.len() > 0 {
        assert(best(valves, fr[0].0, 0, use_elephant) == 0);
        lemma_gain_zero(valves, fr.drop_first(), use_elephant);
    }
}

/// Appending an entry to a frontier takes the largest score to the larger of
/// the old largest score and the entry's.
pub proof fn lemma_max_value_push(fr: Seq<(State, nat)>, e: (State, nat))
    ensures
        max_value(fr.push(e)) == nat_max(max_value(fr), e.1),
    decreases fr.len(),
{
    if fr.len() == 0 {
        assert(fr.push(e)[0] == e);
        assert(fr.push(e).drop_first() =~= Seq::<(State, nat)>::empty());
        assert(max_value(fr.push(e).drop_first()) == 0);
    } else {
        assert(fr.push(e)[0] == fr[0]);
        assert(fr.push(e).drop_first() =~= fr.drop_first().push(e));
        lemma_max_value_push(fr.drop_first(), e);
    }
}

/// Merging a pair into a frontier never shrinks it and never empties it.
pub proof fn lemma_upsert_len(fr: Seq<(State, nat)>, s: State, p: nat)
    ensures
        upsert_max(fr, s, p).len() >= fr.len(),
        upsert_max(fr, s, p).len() >= 1,
    decreases fr.len(),
{
    if fr.len() == 0 {
    } else if fr[0].0 == s {
    } else {
        lemma_upsert_len(fr.drop_first(), s, p);
    }
}

/// Folding successors into a frontier never shrinks it, and yields a
/// non-empty frontier whenever there is a successor to fold.
pub proof fn lemma_apply_len(fr: Seq<(State, nat)>, cs: Seq<State>, p: nat)
    ensures
        apply_cands(fr, cs, p).len() >= fr.len(),
        cs.len() > 0 ==> apply_cands(fr, cs, p).len() >= 1,
    decreases cs.len(),
{
    if cs.len() > 0 {
        lemma_upsert_len(fr, cs[0], p);
        lemma_apply_len(upsert_max(fr, cs[0], p), cs.drop_first(), p);
    }
}

/// Expanding entries into an accumulator never shrinks it, and yields a
/// non-empty frontier whenever there was an entry to expand.
pub proof fn lemma_stepfrom_len(
    valves: Seq<Valve>,
    fr: Seq<(State, nat)>,
    i: int,
    acc: Seq<(State, nat)>,
    use_elephant: bool,
)
    requires
        0 <= i <= fr.len(),
    ensures
        step_from(valves, fr, i, acc, use_elephant).len() >= acc.len(),
        i < fr.len() ==> step_from(valves, fr, i, acc, use_elephant).len() >= 1,
    decreases fr.len() - i,
{
    if i < fr.len() {
        let p = fr[i].1 + rate_sum(valves, fr[i].0.valves_open);
        let cs = succs(valves, fr[i].0, use_elephant);
        lemma_succs_nonempty(valves, fr[i].0, use_elephant);
        lemma_apply_len(acc, cs, p);
        lemma_stepfrom_len(valves, fr, i + 1, apply_cands(acc, cs, p), use_elephant);
    }
}

/// A step of a non-empty frontier is non-empty.
pub proof fn lemma_step_nonempty(valves: Seq<Valve>, fr: Seq<(State, nat)>, use_elephant: bool)
    requires
        fr.len() > 0,
    ensures
        step_seq(valves, fr, use_elephant).len() >= 1,
{
    lemma_stepfrom_len(valves, fr, 0, Seq::<(State, nat)>::empty(), use_elephant);
}

/// Merging a pair bounded by `b` into a frontier bounded by `b` keeps the
/// bound.
pub proof fn lemma_upsert_values_le(fr: Seq<(State, nat)>, s: State, p: nat, b: nat)
    requires
        values_le(fr, b),
        p <= b,
    ensures
        values_le(upsert_max(fr, s, p), b),
    decreases fr.len(),
{
    let r = upsert_max(fr, s, p);
    if fr.len() == 0 {
        assert(forall|i: int| 0 <= i < r.len() ==> (#[trigger] r[i].1) <= b);
    } else if fr[0].0 == s {
        assert(fr[0].1 <= b);
        assert(forall|i: int| 1 <= i < r.len() ==> r[i] == fr.drop_first()[i - 1] && (#[trigger] fr[
            i]).1 == fr[i].1);
        assert(forall|i: int| 0 <= i < r.len() ==> (#[trigger] r[i].1) <= b) by {
            assert(forall|j: int| 0 <= j < fr.drop_first().len() ==> (#[trigger] fr.drop_first()[
                j]).1 <= b) by {
                assert(forall|j: int|
                    0 <= j < fr.drop_first().len() ==> fr.drop_first()[j] == fr[j + 1]);
            }
        }
    } else {
        assert(values_le(fr.drop_first(), b)) by {
            assert(forall|j: int|
                0 <= j < fr.drop_first().len() ==> (#[trigger] fr.drop_first()[j]) == fr[j + 1]);
        }
        lemma_upsert_values_le(fr.drop_first(), s, p, b);
        assert(forall|i: int| 0 <= i < r.len() ==> (#[trigger] r[i].1) <= b) by {
            assert(r[0] == fr[0]);
            assert(forall|i: int|
                1 <= i < r.len() ==> (#[trigger] r[i]) == upsert_max(fr.drop_first(), s, p)[i - 1]);
        }
    }
}

/// Folding successors at a bounded score into a bounded frontier keeps the
/// bound.
pub proof fn lemma_apply_values_le(fr: Seq<(State, nat)>, cs: Seq<State>, p: nat, b: nat)
    requires
        values_le(fr, b),
        p <= b,
    ensures
        values_le(apply_cands(fr, cs, p), b),
    decreases cs.len(),
{
    if cs.len() > 0 {
        lemma_upsert_values_le(fr, cs[0], p, b);
        lemma_apply_values_le(upsert_max(fr, cs[0], p), cs.drop_first(), p, b);
    }
}

/// One step raises the bound on frontier scores by at most the sum of all
/// flow rates.
pub proof fn lemma_stepfrom_values_le(
    valves: Seq<Valve>,
    fr: Seq<(State, nat)>,
    i: int,
    acc: Seq<(State, nat)>,
    b: nat,
    use_elephant: bool,
)
    requires
        0 <= i <= fr.len(),
        values_le(fr, b),
        values_le(acc, (b + total_flow(valves)) as nat),
    ensures
        values_le(step_from(valves, fr, i, acc, use_elephant), (b + total_flow(valves)) as nat),
    decreases fr.len() - i,
{
    if i < fr.len() {
        let p = fr[i].1 + rate_sum(valves, fr[i].0.valves_open);
        let cs = succs(valves, fr[i].0, use_elephant);
        lemma_rate_sum_le_total(valves, fr[i].0.valves_open);
        assert(fr[i].1 <= b);
        lemma_apply_values_le(acc, cs, p as nat, (b + total_flow(valves)) as nat);
        lemma_stepfrom_values_le(valves, fr, i + 1, apply_cands(acc, cs, p as nat), b, use_elephant);
    }
}

/// One step raises the bound on frontier scores by at most the sum of all
/// flow rates.
pub proof fn lemma_step_values_le(
    valves: Seq<Valve>,
    fr: Seq<(State, nat)>,
    b: nat,
    use_elephant: bool,
)
    requires
        values_le(fr, b),
    ensures
        values_le(step_seq(valves, fr, use_elephant), (b + total_flow(valves)) as nat),
{
    lemma_stepfrom_values_le(valves, fr, 0, Seq::<(State, nat)>::empty(), b, use_elephant);
}

/// The first agent's candidate states stay inside the graph.
pub proof fn lemma_agent_cands_wf(valves: Seq<Valve>, s: State)
    requires
        valves_wf(valves),
        state_wf(valves, s),
    ensures
        forall|k: int|
            0 <= k < agent_cands(valves, s).len() ==> state_wf(
                valves,
                #[trigger] agent_cands(valves, s)[k],
            ),
{
    let cs = agent_cands(valves, s);
    let exits = valves[s.location as int].exits@;
    assert forall|k: int| 0 <= k < cs.len() implies state_wf(valves, #[trigger] cs[k]) by {
        let opens_len: int = if can_open(valves, s.valves_open, s.location) {
            1
        } else {
            0
        };
        if k < opens_len {
            assert(cs[k] == opened(s, s.location));
        } else if k < opens_len + exits.len() {
            assert(cs[k].location == exits[k - opens_len]);
            assert((exits[k - opens_len] as int) < valves.len());
        } else {
            assert(cs[k] == s);
        }
    }
}

/// The second agent's candidate states stay inside the graph.
pub proof fn lemma_eleph_cands_wf(valves: Seq<Valve>, e_loc: u8, t: State)
    requires
        valves_wf(valves),
        (e_loc as int) < valves.len(),
        state_wf(valves, t),
    ensures
        forall|k: int|
            0 <= k < eleph_cands(valves, e_loc, t).len() ==> state_wf(
                valves,
                #[trigger] eleph_cands(valves, e_loc, t)[k],
            ),
{
    let cs = eleph_cands(valves, e_loc, t);
    let exits = valves[e_loc as int].exits@;
    assert forall|k: int| 0 <= k < cs.len() implies state_wf(valves, #[trigger] cs[k]) by {
        let opens_len: int = if can_open(valves, t.valves_open, e_loc) {
            1
        } else {
            0
        };
        if k < opens_len {
            assert(cs[k] == opened(t, e_loc));
        } else if k < opens_len + exits.len() {
            assert(cs[k].elephant_location == exits[k - opens_len]);
            assert((exits[k - opens_len] as int) < valves.len());
        } else {
            assert(cs[k] == t);
        }
    }
}

/// All joint outcomes stay inside the graph.
pub proof fn lemma_joint_cands_wf(valves: Seq<Valve>, e_loc: u8, ts: Seq<State>)
    requires
        valves_wf(valves),
        (e_loc as int) < valves.len(),
        forall|k: int| 0 <= k < ts.len() ==> state_wf(valves, #[trigger] ts[k]),
    ensures
        forall|k: int|
            0 <= k < joint_cands(valves, e_loc, ts).len() ==> state_wf(
                valves,
                #[trigger] joint_cands(valves, e_loc, ts)[k],
            ),
    decreases ts.len(),
{
    if ts.len() > 0 {
        lemma_eleph_cands_wf(valves, e_loc, ts[0]);
        assert(forall|k: int|
            0 <= k < ts.drop_first().len() ==> state_wf(valves, #[trigger] ts.drop_first()[k]))
            by {
            assert(forall|k: int|
                0 <= k < ts.drop_first().len() ==> (#[trigger] ts.drop_first()[k]) == ts[k + 1]);
        }
        lemma_joint_cands_wf(valves, e_loc, ts.drop_first());
        let whole = joint_cands(valves, e_loc, ts);
        let head = eleph_cands(valves, e_loc, ts[0]);
        let rest = joint_cands(valves, e_loc, ts.drop_first());
        assert forall|k: int| 0 <= k < whole.len() implies state_wf(valves, #[trigger] whole[k]) by {
            if k < head.len() {
                assert(whole[k] == head[k]);
            } else {
                assert(whole[k] == rest[k - head.len()]);
            }
        }
    }
}

/// The canonical successors of a state inside the graph stay inside it.
pub proof fn lemma_succs_wf(valves: Seq<Valve>, s: State, use_elephant: bool)
    requires
        valves_wf(valves),
        state_wf(valves, s),
    ensures
        forall|k: int|
            0 <= k < succs(valves, s, use_elephant).len() ==> state_wf(
                valves,
                #[trigger] succs(valves, s, use_elephant)[k],
            ),
{
    lemma_agent_cands_wf(valves, s);
    if use_elephant {
        lemma_joint_cands_wf(valves, s.elephant_location, agent_cands(valves, s));
    }
    let raw = cands(valves, s, use_elephant);
    let cs = succs(valves, s, use_elephant);
    assert forall|k: int| 0 <= k < cs.len() implies state_wf(valves, #[trigger] cs[k]) by {
        assert(cs[k] == canon(raw[k], use_elephant));
        assert(state_wf(valves, raw[k]));
    }
}

/// Merging a state inside the graph into a frontier of such states keeps
/// them all inside.
pub proof fn lemma_upsert_states_wf(valves: Seq<Valve>, fr: Seq<(State, nat)>, s: State, p: nat)
    requires
        states_wf(valves, fr),
        state_wf(valves, s),
    ensures
        states_wf(valves, upsert_max(fr, s, p)),
    decreases fr.len(),
{
    let r = upsert_max(fr, s, p);
    if fr.len() == 0 {
        assert(forall|i: int| 0 <= i < r.len() ==> state_wf(valves, #[trigger] r[i].0));
    } else if fr[0].0 == s {
        assert(forall|i: int| 0 <= i < r.len() ==> state_wf(valves, #[trigger] r[i].0)) by {
            assert(forall|i: int| 1 <= i < r.len() ==> (#[trigger] r[i]) == fr[i]);
        }
    } else {
        assert(states_wf(valves, fr.drop_first())) by {
            assert(forall|j: int|
                0 <= j < fr.drop_first().len() ==> (#[trigger] fr.drop_first()[j]) == fr[j + 1]);
        }
        lemma_upsert_states_wf(valves, fr.drop_first(), s, p);
        assert(forall|i: int| 0 <= i < r.len() ==> state_wf(valves, #[trigger] r[i].0)) by {
            assert(r[0] == fr[0]);
            assert(forall|i: int|
                1 <= i < r.len() ==> (#[trigger] r[i]) == upsert_max(fr.drop_first(), s, p)[i - 1]);
        }
    }
}

/// Folding states inside the graph into such a frontier keeps them inside.
pub proof fn lemma_apply_states_wf(valves: Seq<Valve>, fr: Seq<(State, nat)>, cs: Seq<State>, p: nat)
    requires
        states_wf(valves, fr),
        forall|k: int| 0 <= k < cs.len() ==> state_wf(valves, #[trigger] cs[k]),
    ensures
        states_wf(valves, apply_cands(fr, cs, p)),
    decreases cs.len(),
{
    if cs.len() > 0 {
        lemma_upsert_states_wf(valves, fr, cs[0], p);
        assert(forall|k: int|
            0 <= k < cs.drop_first().len() ==> state_wf(valves, #[trigger] cs.drop_first()[k])) by {
            assert(forall|k: int|
                0 <= k < cs.drop_first().len() ==> (#[trigger] cs.drop_first()[k]) == cs[k + 1]);
        }
        lemma_apply_states_wf(valves, upsert_max(fr, cs[0], p), cs.drop_first(), p);
    }
}

/// Expanding a frontier of states inside the graph keeps them all inside.
pub proof fn lemma_stepfrom_states_wf(
    valves: Seq<Valve>,
    fr: Seq<(State, nat)>,
    i: int,
    acc: Seq<(State, nat)>,
    use_elephant: bool,
)
    requires
        0 <= i <= fr.len(),
        valves_wf(valves),
        states_wf(valves, fr),
        states_wf(valves, acc),
    ensures
        states_wf(valves, step_from(valves, fr, i, acc, use_elephant)),
    decreases fr.len() - i,
{
    if i < fr.len() {
        let p = fr[i].1 + rate_sum(valves, fr[i].0.valves_open);
        let cs = succs(valves, fr[i].0, use_elephant);
        lemma_succs_wf(valves, fr[i].0, use_elephant);
        lemma_apply_states_wf(valves, acc, cs, p as nat);
        lemma_stepfrom_states_wf(valves, fr, i + 1, apply_cands(acc, cs, p as nat), use_elephant);
    }
}

/// One whole step keeps every frontier state inside the graph.
pub proof fn lemma_step_states_wf(valves: Seq<Valve>, fr: Seq<(State, nat)>, use_elephant: bool)
    requires
        valves_wf(valves),
        states_wf(valves, fr),
    ensures
        states_wf(valves, step_seq(valves, fr, use_elephant)),
{
    lemma_stepfrom_states_wf(valves, fr, 0, Seq::<(State, nat)>::empty(), use_elephant);
}

/// Folding one more successor extends the fold by one merge.
pub proof fn lemma_apply_snoc(fr: Seq<(State, nat)>, cs: Seq<State>, k: int, p: nat)
    requires
        0 <= k < cs.len(),
    ensures
        apply_cands(fr, cs.take(k + 1), p) == upsert_max(apply_cands(fr, cs.take(k), p), cs[k], p),
    decreases k,
{
    if k == 0 {
        assert(cs.take(0).len() == 0);
        assert(cs.take(1)[0] == cs[0]);
        assert(cs.take(1).drop_first() =~= Seq::<State>::empty());
        assert(apply_cands(fr, cs.take(0), p) == fr);
        assert(apply_cands(upsert_max(fr, cs[0], p), cs.take(1).drop_first(), p) == upsert_max(
            fr,
            cs[0],
            p,
        ));
    } else {
        let up = upsert_max(fr, cs[0], p);
        assert(cs.take(k + 1)[0] == cs[0]);
        assert(cs.take(k)[0] == cs[0]);
        assert(cs.take(k + 1).drop_first() =~= cs.drop_first().take(k));
        assert(cs.take(k).drop_first() =~= cs.drop_first().take(k - 1));
        lemma_apply_snoc(up, cs.drop_first(), k - 1, p);
        assert(cs.drop_first()[k - 1] == cs[k]);
    }
}

/// Expanding one more first-agent candidate appends its joint outcomes.
pub proof fn lemma_joint_snoc(valves: Seq<Valve>, e_loc: u8, ts: Seq<State>, i: int)
    requires
        0 <= i < ts.len(),
    ensures
        joint_cands(valves, e_loc, ts.take(i + 1)) == joint_cands(valves, e_loc, ts.take(i))
            + eleph_cands(valves, e_loc, ts[i]),
    decreases i,
{
    if i == 0 {
        assert(ts.take(0).len() == 0);
        assert(ts.take(1)[0] == ts[0]);
        assert(ts.take(1).drop_first() =~= Seq::<State>::empty());
        assert(joint_cands(valves, e_loc, ts.take(1)) == eleph_cands(valves, e_loc, ts[0])
            + joint_cands(valves, e_loc, Seq::<State>::empty()));
        assert(joint_cands(valves, e_loc, ts.take(0)) + eleph_cands(valves, e_loc, ts[0]) =~= eleph_cands(
            valves,
            e_loc,
            ts[0],
        ) + joint_cands(valves, e_loc, Seq::<State>::empty()));
    } else {
        assert(ts.take(i + 1)[0] == ts[0]);
        assert(ts.take(i)[0] == ts[0]);
        assert(ts.take(i + 1).drop_first() =~= ts.drop_first().take(i));
        assert(ts.take(i).drop_first() =~= ts.drop_first().take(i - 1));
        lemma_joint_snoc(valves, e_loc, ts.drop_first(), i - 1);
        assert(ts.drop_first()[i - 1] == ts[i]);
        let head = eleph_cands(valves, e_loc, ts[0]);
        let a = joint_cands(valves, e_loc, ts.drop_first().take(i - 1));
        let b = eleph_cands(valves, e_loc, ts[i]);
        assert(head + (a + b) =~= (head + a) + b);
    }
}

/// A state packed into a single integer, for the frontier's index: the mask
/// in the low 64 bits, the two positions in the 16 bits above.
pub open spec fn key_of(s: State) -> u128 {
    (s.valves_open as u128) | ((s.location as u128) << 64) | ((s.elephant_location as u128) << 72)
}

/// Distinct states pack to distinct keys: the three fields occupy disjoint
/// bit ranges.
pub proof fn lemma_key_of_injective(a: State, b: State)
    requires
        key_of(a) == key_of(b),
    ensures
        a == b,
{
    let l1 = a.location;
    let e1 = a.elephant_location;
    let m1 = a.valves_open;
    let l2 = b.location;
    let e2 = b.elephant_location;
    let m2 = b.valves_open;
    assert(((m1 as u128) | ((l1 as u128) << 64) | ((e1 as u128) << 72)) == ((m2 as u128) | ((l2
        as u128) << 64) | ((e2 as u128) << 72)) ==> l1 == l2 && e1 == e2 && m1 == m2)
        by (bit_vector);
}

/// The frontier: at most one entry per distinct canonical state, each with
/// the best accumulated score seen for it.  The entries live in a vector (so
/// a step can walk them in order) and an index keyed by the packed state
/// gives each entry's position in constant time.
#[derive(Debug)]
pub struct StateUnion {
    pub entries: Vec<(State, u64)>,
    pub index: HashMap<u128, usize>,
}

impl View for StateUnion {
    type V = Seq<(State, nat)>;

    open spec fn view(&self) -> Seq<(State, nat)> {
        self.entries@.map_values(|pr: (State, u64)| (pr.0, pr.1 as nat))
    }
}

impl StateUnion {
    /// The index lists exactly the packed keys of the entries, each mapped
    /// to its position; so no state occurs twice.
    pub open spec fn wf(&self) -> bool {
        &&& forall|i: int|
            0 <= i < self.entries@.len() ==> {
                &&& self.index@.contains_key(key_of((#[trigger] self.entries@[i]).0))
                &&& self.index@[key_of(self.entries@[i].0)] == i
            }
        &&& forall|k: u128| #[trigger]
            self.index@.contains_key(k) ==> self.index@[k] < self.entries@.len() && key_of(
                self.entries@[self.index@[k] as int].0,
            ) == k
    }

    /// No state occurs twice in a well-formed frontier: two different paths
    /// that reach the same canonical state share one entry.
    pub proof fn lemma_dedup(&self)
        requires
            self.wf(),
        ensures
            forall|i: int, j: int|
                0 <= i < self@.len() && 0 <= j < self@.len() && i != j ==> (#[trigger] self@[i]).0
                    != (#[trigger] self@[j]).0,
    {
        assert forall|i: int, j: int|
            0 <= i < self@.len() && 0 <= j < self@.len() && i != j implies (#[trigger] self@[i]).0
            != (#[trigger] self@[j]).0 by {
            if self.entries@[i].0 == self.entries@[j].0 {
                assert(self.index@[key_of(self.entries@[i].0)] == i);
                assert(self.index@[key_of(self.entries@[j].0)] == j);
            }
        }
    }

    /// An empty frontier.
    pub fn new() -> (r: StateUnion)
        ensures
            r.wf(),
            r@ == Seq::<(State, nat)>::empty(),
    {
        let r = StateUnion { entries: Vec::new(), index: HashMap::new() };
        proof {
            assert(r@ =~= Seq::<(State, nat)>::empty());
        }
        r
    }

    /// The frontier of step zero: the start state alone, at score zero.
    pub fn new_start(starting_location: u8) -> (r: StateUnion)
        ensures
            r.wf(),
            r@ == seq![
                (
                    State {
                        location: starting_location,
                        elephant_location: starting_location,
                        valves_open: 0u64,
                    },
                    0nat,
                ),
            ],
    {
        let s = State::new(starting_location);
        let mut entries: Vec<(State, u64)> = Vec::new();
        entries.push((s, 0));
        let mut index: HashMap<u128, usize> = HashMap::new();
        index.insert(state_key(&s), 0);
        let r = StateUnion { entries, index };
        proof {
            assert(r@ =~= seq![(s, 0nat)]);
        }
        r
    }

    /// How many distinct states the frontier holds.
    pub fn len(&self) -> (n: usize)
        ensures
            n == self@.len(),
    {
        self.entries.len()
    }

    /// The canonical states the frontier holds, with their scores, in the
    /// frontier's own order.
    pub fn entry(&self, i: usize) -> (r: (State, u64))
        requires
            i < self@.len(),
        ensures
            r.0 == self@[i as int].0,
            r.1 as nat == self@[i as int].1,
    {
        self.entries[i]
    }

    /// Merge one reached state into the frontier: canonicalize it, then
    /// insert it at `pressure`, or raise its existing entry to `pressure` if
    /// that is larger (a max-merge; the score of an entry never decreases).
    pub fn maybe_update_state(&mut self, state: State, pressure: u64, use_elephant: bool)
        requires
            old(self).wf(),
        ensures
            final(self).wf(),
            final(self)@ == upsert_max(old(self)@, canon(state, use_elephant), pressure as nat),
    {
        let s = if use_elephant && state.elephant_location > state.location {
            State {
                location: state.elephant_location,
                elephant_location: state.location,
                valves_open: state.valves_open,
            }
        } else {
            state
        };
        proof {
            assert(s == canon(state, use_elephant));
        }
        let k = state_key(&s);
        let found = match self.index.get(&k) {
            Some(i) => Some(*i),
            None => None,
        };
        match found {
            Some(i) => {
                proof {
                    assert(self.index@.contains_key(k));
                    assert(key_of(self.entries@[i as int].0) == key_of(s));
                    lemma_key_of_injective(self.entries@[i as int].0, s);
                    assert forall|j: int|
                        0 <= j < self@.len() && j != i implies (#[trigger] self@[j]).0 != s by {
                        if self.entries@[j].0 == s {
                            assert(self.index@[key_of(self.entries@[j].0)] == j);
                        }
                    }
                }
                let cur = self.entries[i].1;
                let newv = if pressure > cur {
                    pressure
                } else {
                    cur
                };
                let ghost prev = self@;
                self.entries[i] = (s, newv);
                proof {
                    lemma_upsert_at(prev, i as int, s, pressure as nat);
                    assert(self@ =~= prev.update(i as int, (s, nat_max(prev[i as int].1, pressure as nat))));
                }
            },
            None => {
                proof {
                    assert(!self.index@.contains_key(k));
                    assert forall|j: int| 0 <= j < self@.len() implies (#[trigger] self@[j]).0
                        != s by {
                        if self.entries@[j].0 == s {
                            assert(self.index@.contains_key(key_of(self.entries@[j].0)));
                        }
                    }
                }
                let n = self.entries.len();
                let ghost prev = self@;
                self.entries.push((s, pressure));
                self.index.insert(k, n);
                proof {
                    lemma_upsert_absent(prev, s, pressure as nat);
                    assert(self@ =~= prev.push((s, pressure as nat)));
                    assert forall|j: int| 0 <= j < self.entries@.len() implies {
                        &&& self.index@.contains_key(key_of((#[trigger] self.entries@[j]).0))
                        &&& self.index@[key_of(self.entries@[j].0)] == j
                    } by {
                        if j < n {
                            assert(key_of(self.entries@[j].0) != k);
                        }
                    }
                }
            },
        }
    }
}

impl StateUnion {
    /// One whole step of the search: expand every state of this frontier by
    /// every joint action and max-merge the outcomes into a fresh frontier.
    /// The result is exactly the abstract step [`step_seq`] of this
    /// frontier.
    pub fn next_minute(&self, cave: &mut Cave, use_elephant: bool) -> (r: StateUnion)
        requires
            self.wf(),
            old(cave).wf(),
            states_wf(old(cave).valves@, self@),
            forall|i: int|
                0 <= i < self@.len() ==> (#[trigger] self@[i]).1 + total_flow(old(cave).valves@)
                    <= u64::MAX,
        ensures
            final(cave).wf(),
            final(cave).same_graph(old(cave)),
            r.wf(),
            r@ == step_seq(old(cave).valves@, self@, use_elephant),
    {
        let ghost valves = old(cave).valves@;
        let mut next = StateUnion::new();
        let mut idx: usize = 0;
        while idx < self.entries.len()
            invariant
                self.wf(),
                cave.wf(),
                cave.same_graph(old(cave)),
                cave.valves@ == valves,
                states_wf(valves, self@),
                forall|i: int|
                    0 <= i < self@.len() ==> (#[trigger] self@[i]).1 + total_flow(valves)
                        <= u64::MAX,
                idx <= self.entries@.len(),
                self@.len() == self.entries@.len(),
                next.wf(),
                step_from(valves, self@, idx as int, next@, use_elephant) == step_seq(
                    valves,
                    self@,
                    use_elephant,
                ),
            decreases self.entries@.len() - idx,
        {
            let (st, pres) = self.entries[idx];
            proof {
                assert(self@[idx as int] == (st, pres as nat));
                assert(state_wf(valves, self@[idx as int].0));
                assert(self@[idx as int].1 + total_flow(valves) <= u64::MAX);
            }
            let rate = cave.get_pressure_per_minute(st.valves_open);
            proof {
                lemma_rate_sum_le_total(valves, st.valves_open);
            }
            let new_pressure = pres + rate;
            let ghost a_cands = agent_cands(valves, st);
            let ghost opens_len: int = if can_open(valves, st.valves_open, st.location) {
                1int
            } else {
                0int
            };

            // candidate actions of the first agent: open here, each move, stay
            let mut new_states: Vec<State> = Vec::new();
            let flow_here = cave.valves[st.location as usize].flow_rate;
            if flow_here != 0 && (st.valves_open & (1u64 << (st.location as u64))) == 0 {
                new_states.push(st.open_valve(st.location));
            }
            proof {
                assert(new_states@ =~= a_cands.take(opens_len));
            }
            let exits_len = cave.valves[st.location as usize].exits.len();
            let mut j: usize = 0;
            while j < exits_len
                invariant
                    cave.valves@ == valves,
                    valves_wf(valves),
                    state_wf(valves, st),
                    a_cands == agent_cands(valves, st),
                    opens_len == if can_open(valves, st.valves_open, st.location) {
                        1int
                    } else {
                        0int
                    },
                    exits_len == valves[st.location as int].exits@.len(),
                    j <= exits_len,
                    new_states@ == a_cands.take(opens_len + j),
                decreases exits_len - j,
            {
                let e = cave.valves[st.location as usize].exits[j];
                new_states.push(st.move_to(e));
                proof {
                    assert(a_cands[opens_len + j] == (State {
                        location: e,
                        elephant_location: st.elephant_location,
                        valves_open: st.valves_open,
                    }));
                    assert(new_states@ =~= a_cands.take(opens_len + j + 1));
                }
                j += 1;
            }
            new_states.push(st);
            proof {
                assert(a_cands[opens_len + exits_len] == st);
                assert(new_states@ =~= a_cands.take(opens_len + exits_len + 1));
                assert(a_cands.take(a_cands.len() as int) =~= a_cands);
                assert(new_states@ == a_cands);
            }

            // with a second agent: act on each first-agent outcome in turn
            if use_elephant {
                let e_loc = st.elephant_location;
                let flow_e = cave.valves[e_loc as usize].flow_rate;
                let exits_e_len = cave.valves[e_loc as usize].exits.len();
                let mut new_states2: Vec<State> = Vec::new();
                let mut ti: usize = 0;
                while ti < new_states.len()
                    invariant
                        cave.valves@ == valves,
                        valves_wf(valves),
                        state_wf(valves, st),
                        e_loc == st.elephant_location,
                        flow_e == valves[e_loc as int].flow_rate,
                        exits_e_len == valves[e_loc as int].exits@.len(),
                        a_cands == agent_cands(valves, st),
                        new_states@ == a_cands,
                        ti <= new_states@.len(),
                        new_states2@ == joint_cands(valves, e_loc, a_cands.take(ti as int)),
                    decreases new_states@.len() - ti,
                {
                    let t = new_states[ti];
                    let ghost e_cands = eleph_cands(valves, e_loc, t);
                    let ghost base = new_states2@;
                    let ghost e_opens: int = if can_open(valves, t.valves_open, e_loc) {
                        1int
                    } else {
                        0int
                    };
                    if flow_e != 0 && (t.valves_open & (1u64 << (e_loc as u64))) == 0 {
                        new_states2.push(t.open_valve(e_loc));
                    }
                    proof {
                        assert(new_states2@ =~= base + e_cands.take(e_opens));
                    }
                    let mut j2: usize = 0;
                    while j2 < exits_e_len
                        invariant
                            cave.valves@ == valves,
                            valves_wf(valves),
                            (e_loc as int) < valves.len(),
                            flow_e == valves[e_loc as int].flow_rate,
                            exits_e_len == valves[e_loc as int].exits@.len(),
                            e_cands == eleph_cands(valves, e_loc, t),
                            e_opens == if can_open(valves, t.valves_open, e_loc) {
                                1int
                            } else {
                                0int
                            },
                            j2 <= exits_e_len,
                            new_states2@ == base + e_cands.take(e_opens + j2),
                        decreases exits_e_len - j2,
                    {
                        let e2 = cave.valves[e_loc as usize].exits[j2];
                        new_states2.push(t.move_elephant_to(e2));
                        proof {
                            assert(e_cands[e_opens + j2] == (State {
                                location: t.location,
                                elephant_location: e2,
                                valves_open: t.valves_open,
                            }));
                            assert(new_states2@ =~= base + e_cands.take(e_opens + j2 + 1));
                        }
                        j2 += 1;
                    }
                    new_states2.push(t);
                    proof {
                        assert(e_cands[e_opens + exits_e_len] == t);
                        assert(new_states2@ =~= base + e_cands.take(e_opens + exits_e_len + 1));
                        assert(e_cands.take(e_cands.len() as int) =~= e_cands);
                        lemma_joint_snoc(valves, e_loc, a_cands, ti as int);
                        assert(t == a_cands[ti as int]);
                        assert(new_states2@ == joint_cands(valves, e_loc, a_cands.take(ti + 1)));
                    }
                    ti += 1;
                }
                proof {
                    assert(a_cands.take(a_cands.len() as int) =~= a_cands);
                }
                new_states = new_states2;
            }
            proof {
                assert(new_states@ == cands(valves, st, use_elephant));
            }

            // max-merge every outcome into the next frontier
            let ghost acc0 = next@;
            let ghost cs = succs(valves, st, use_elephant);
            let mut k2: usize = 0;
            while k2 < new_states.len()
                invariant
                    next.wf(),
                    k2 <= new_states@.len(),
                    new_states@ == cands(valves, st, use_elephant),
                    cs == succs(valves, st, use_elephant),
                    next@ == apply_cands(acc0, cs.take(k2 as int), new_pressure as nat),
                decreases new_states@.len() - k2,
            {
                let c = new_states[k2];
                next.maybe_update_state(c, new_pressure, use_elephant);
                proof {
                    assert(cs[k2 as int] == canon(c, use_elephant));
                    lemma_apply_snoc(acc0, cs, k2 as int, new_pressure as nat);
                }
                k2 += 1;
            }
            proof {
                assert(cs.take(cs.len() as int) =~= cs);
                assert(next@ == apply_cands(acc0, cs, new_pressure as nat));
                assert(new_pressure as nat == self@[idx as int].1 + rate_sum(
                    valves,
                    self@[idx as int].0.valves_open,
                ));
                assert(step_from(valves, self@, idx as int, acc0, use_elephant) == step_from(
                    valves,
                    self@,
                    idx + 1,
                    apply_cands(
                        acc0,
                        succs(valves, self@[idx as int].0, use_elephant),
                        self@[idx as int].1 + rate_sum(valves, self@[idx as int].0.valves_open),
                    ),
                    use_elephant,
                ));
            }
            idx += 1;
        }
        proof {
            assert(step_from(valves, self@, self@.len() as int, next@, use_elephant) == next@);
        }
        next
    }
}

/// Run the search: the largest score reachable from the cave's start node in
/// `minutes` steps, with one agent, or two when `use_elephant` is set.  The
/// result is exactly the optimum [`best`] over every action sequence of that
/// length; in particular it is deterministic, and zero when `minutes` is
/// zero.
pub fn plan(cave: &mut Cave, minutes: u64, use_elephant: bool) -> (r: u64)
    requires
        old(cave).wf(),
        minutes * total_flow(old(cave).valves@) <= u64::MAX,
    ensures
        final(cave).wf(),
        final(cave).same_graph(old(cave)),
        r as nat == best(
            old(cave).valves@,
            State {
                location: old(cave).starting_location,
                elephant_location: old(cave).starting_location,
                valves_open: 0u64,
            },
            minutes as nat,
            use_elephant,
        ),
{
    let ghost valves = old(cave).valves@;
    let ghost s0 = State {
        location: old(cave).starting_location,
        elephant_location: old(cave).starting_location,
        valves_open: 0u64,
    };
    // the memoization table is scoped to this run: entries from earlier
    // runs are dropped, so repeated calls cannot grow it without bound
    cave.pressure_per_minute_per_valve_state.clear();
    let mut prev = StateUnion::new_start(cave.starting_location);
    proof {
        assert(prev@.drop_first() =~= Seq::<(State, nat)>::empty());
        assert(gain(valves, prev@.drop_first(), minutes as nat, use_elephant) == 0);
        assert(gain(valves, prev@, minutes as nat, use_elephant) == best(
            valves,
            s0,
            minutes as nat,
            use_elephant,
        ));
        assert(states_wf(valves, prev@));
        assert(values_le(prev@, (0 * total_flow(valves)) as nat));
    }
    let mut t: u64 = 0;
    while t < minutes
        invariant
            cave.wf(),
            cave.same_graph(old(cave)),
            cave.valves@ == valves,
            t <= minutes,
            minutes * total_flow(valves) <= u64::MAX,
            prev.wf(),
            states_wf(valves, prev@),
            values_le(prev@, (t * total_flow(valves)) as nat),
            gain(valves, prev@, (minutes - t) as nat, use_elephant) == best(
                valves,
                s0,
                minutes as nat,
                use_elephant,
            ),
        decreases minutes - t,
    {
        proof {
            assert((t + 1) * total_flow(valves) <= minutes * total_flow(valves)) by (nonlinear_arith)
                requires
                    t < minutes,
            ;
            assert((t + 1) * total_flow(valves) == t * total_flow(valves) + total_flow(valves))
                by (nonlinear_arith);
            assert(forall|i: int|
                0 <= i < prev@.len() ==> (#[trigger] prev@[i]).1 + total_flow(valves) <= u64::MAX);
        }
        let next = prev.next_minute(cave, use_elephant);
        proof {
            lemma_step_preserves_gain(valves, prev@, (minutes - t) as nat, use_elephant);
            lemma_step_states_wf(valves, prev@, use_elephant);
            lemma_step_values_le(valves, prev@, (t * total_flow(valves)) as nat, use_elephant);
            assert(values_le(next@, ((t + 1) * total_flow(valves)) as nat));
        }
        prev = next;
        t += 1;
    }
    proof {
        lemma_gain_zero(valves, prev@, use_elephant);
    }
    let n = prev.len();
    let mut m: u64 = 0;
    let mut i: usize = 0;
    proof {
        assert(prev@.take(0) =~= Seq::<(State, nat)>::empty());
    }
    while i < n
        invariant
            n == prev@.len(),
            i <= n,
            m as nat == max_value(prev@.take(i as int)),
        decreases n - i,
    {
        let e = prev.entry(i);
        if e.1 > m {
            m = e.1;
        }
        proof {
            assert(prev@.take(i + 1) =~= prev@.take(i as int).push(prev@[i as int]));
            lemma_max_value_push(prev@.take(i as int), prev@[i as int]);
        }
        i += 1;
    }
    proof {
        assert(prev@.take(n as int) =~= prev@);
    }
    m
}

/// With no steps left nothing can be scored: the optimum of zero steps is
/// zero, whatever the graph, the state and the agent count.
pub proof fn lemma_zero_steps(valves: Seq<Valve>, s: State, use_elephant: bool)
    ensures
        best(valves, s, 0, use_elephant) == 0,
{
}

/// Granting more steps never lowers the optimum: an agent can always repeat
/// its old plan and spend the extra step staying put.
pub proof fn lemma_monotone_steps(valves: Seq<Valve>, s: State, n: nat, use_elephant: bool)
    ensures
        best(valves, s, n, use_elephant) <= best(valves, s, (n + 1) as nat, use_elephant),
    decreases n, 0int, 0int,
{
    if n > 0 {
        lemma_monotone_steps_over(
            valves,
            succs(valves, s, use_elephant),
            (n - 1) as nat,
            use_elephant,
        );
    }
}

/// Granting more steps never lowers the optimum of any state in a list.
pub proof fn lemma_monotone_steps_over(
    valves: Seq<Valve>,
    list: Seq<State>,
    n: nat,
    use_elephant: bool,
)
    ensures
        best_over(valves, list, n, use_elephant) <= best_over(
            valves,
            list,
            (n + 1) as nat,
            use_elephant,
        ),
    decreases n, 1int, list.len(),
{
    if list.len() > 0 {
        lemma_monotone_steps(valves, list[0], n, use_elephant);
        lemma_monotone_steps_over(valves, list.drop_first(), n, use_elephant);
    }
}

/// In a one-node graph with no edges and nothing left to open, the only
/// action is to stay, so the optimum is the open valves' rate times the step
/// count.
pub proof fn lemma_single_node_stuck(v: Valve, s: State, n: nat)
    requires
        v.exits@.len() == 0,
        s.location == 0,
        s.elephant_location == 0,
        !can_open(seq![v], s.valves_open, 0),
    ensures
        best(seq![v], s, n, false) == n * rate_sum(seq![v], s.valves_open),
    decreases n,
{
    let valves = seq![v];
    if n == 0 {
    } else {
        let a = agent_cands(valves, s);
        assert(valves[s.location as int].exits@.len() == 0);
        assert(a =~= seq![s]);
        let cs = succs(valves, s, false);
        assert(cs =~= seq![s]);
        lemma_single_node_stuck(v, s, (n - 1) as nat);
        assert(cs.drop_first() =~= Seq::<State>::empty());
        assert(best_over(valves, cs.drop_first(), (n - 1) as nat, false) == 0);
        assert(best_over(valves, cs, (n - 1) as nat, false) == best(valves, s, (n - 1) as nat, false));
        assert(n * rate_sum(valves, s.valves_open) == rate_sum(valves, s.valves_open) + (n - 1)
            * rate_sum(valves, s.valves_open)) by (nonlinear_arith);
    }
}

/// A graph of a single node of weight `w` and no edges, one agent, `n`
/// steps: the optimum is exactly `w * (n - 1)` for positive `n` (one step
/// spent opening, the remaining steps each accrue `w`), and zero for zero
/// steps.
pub proof fn lemma_single_node(v: Valve, n: nat)
    requires
        v.exits@.len() == 0,
    ensures
        best(
            seq![v],
            State { location: 0, elephant_location: 0, valves_open: 0u64 },
            n,
            false,
        ) == v.flow_rate * (if n == 0 {
            0nat
        } else {
            (n - 1) as nat
        }),
    decreases n,
{
    let valves = seq![v];
    let s0 = State { location: 0, elephant_location: 0, valves_open: 0u64 };
    assert((0u64 & (1u64 << 0u64)) == 0u64) by (bit_vector);
    assert(!mask_has(0u64, 0u64));
    assert(rate_sum_upto(valves, 0u64, 0) == 0);
    assert(rate_sum_upto(valves, 0u64, 1) == 0);
    assert(rate_sum(valves, 0u64) == 0);
    if n == 0 {
    } else if v.flow_rate == 0 {
        lemma_single_node_stuck(v, s0, n);
        assert(n * 0 == 0) by (nonlinear_arith);
        assert(v.flow_rate * ((n - 1) as nat) == 0) by (nonlinear_arith)
            requires
                v.flow_rate == 0,
        ;
    } else {
        let s1 = opened(s0, 0);
        assert(s1.valves_open == (0u64 | (1u64 << 0u64)));
        assert(((0u64 | (1u64 << 0u64)) & (1u64 << 0u64)) != 0u64) by (bit_vector);
        assert(mask_has(s1.valves_open, 0u64));
        assert(rate_sum_upto(valves, s1.valves_open, 0) == 0);
        assert(rate_sum_upto(valves, s1.valves_open, 1) == v.flow_rate);
        assert(rate_sum(valves, s1.valves_open) == v.flow_rate);
        assert(can_open(valves, 0u64, 0));
        let a = agent_cands(valves, s0);
        assert(valves[0].exits@.len() == 0);
        assert(a =~= seq![s1, s0]);
        let cs = succs(valves, s0, false);
        assert(cs =~= seq![s1, s0]);
        // the opened state can only stay: it accrues w each remaining step
        lemma_single_node_stuck(v, s1, (n - 1) as nat);
        // the still-shut state follows this same formula, one step later
        lemma_single_node(v, (n - 1) as nat);
        assert(cs.drop_first() =~= seq![s0]);
        assert(cs.drop_first().drop_first() =~= Seq::<State>::empty());
        assert(best_over(valves, cs.drop_first().drop_first(), (n - 1) as nat, false) == 0);
        assert(best_over(valves, cs.drop_first(), (n - 1) as nat, false) == nat_max(
            best(valves, s0, (n - 1) as nat, false),
            0,
        ));
        assert(best_over(valves, cs, (n - 1) as nat, false) == nat_max(
            best(valves, s1, (n - 1) as nat, false),
            best(valves, s0, (n - 1) as nat, false),
        ));
        assert(best(valves, s1, (n - 1) as nat, false) == (n - 1) * v.flow_rate);
        let w: nat = v.flow_rate as nat;
        let m: nat = (n - 1) as nat;
        if n == 1 {
            assert(w * 0nat == 0) by (nonlinear_arith);
        } else {
            assert(best(valves, s0, (n - 1) as nat, false) == w * ((n - 2) as nat));
            let m2: nat = (n - 2) as nat;
            assert(m * w >= w * m2 && m * w == w * m) by (nonlinear_arith)
                requires
                    m == m2 + 1,
            ;
        }
    }
}

/// The optimum over a list is at least the optimum of any member.
pub proof fn lemma_best_over_ge(
    valves: Seq<Valve>,
    list: Seq<State>,
    k: int,
    n: nat,
    use_elephant: bool,
)
    requires
        0 <= k < list.len(),
    ensures
        best_over(valves, list, n, use_elephant) >= best(valves, list[k], n, use_elephant),
    decreases k,
{
    if k > 0 {
        assert(list.drop_first()[k - 1] == list[k]);
        lemma_best_over_ge(valves, list.drop_first(), k - 1, n, use_elephant);
    }
}

/// A bound on every member's optimum bounds the optimum over the list.
pub proof fn lemma_best_over_le(
    valves: Seq<Valve>,
    list: Seq<State>,
    n: nat,
    use_elephant: bool,
    b: nat,
)
    requires
        forall|k: int|
            0 <= k < list.len() ==> best(valves, #[trigger] list[k], n, use_elephant) <= b,
    ensures
        best_over(valves, list, n, use_elephant) <= b,
    decreases list.len(),
{
    if list.len() > 0 {
        assert(forall|k: int|
            0 <= k < list.drop_first().len() ==> (#[trigger] list.drop_first()[k]) == list[k + 1]);
        lemma_best_over_le(valves, list.drop_first(), n, use_elephant, b);
    }
}

/// Every one-action outcome of the second agent on every first-agent
/// outcome occurs among the joint outcomes.
pub proof fn lemma_joint_contains(valves: Seq<Valve>, e_loc: u8, ts: Seq<State>, k: int, j: int)
    requires
        0 <= k < ts.len(),
        0 <= j < eleph_cands(valves, e_loc, ts[k]).len(),
    ensures
        exists|k2: int|
            0 <= k2 < joint_cands(valves, e_loc, ts).len() && joint_cands(valves, e_loc, ts)[k2]
                == eleph_cands(valves, e_loc, ts[k])[j],
    decreases k,
{
    let whole = joint_cands(valves, e_loc, ts);
    let head = eleph_cands(valves, e_loc, ts[0]);
    if k == 0 {
        assert(whole[j] == head[j]);
    } else {
        assert(ts.drop_first()[k - 1] == ts[k]);
        lemma_joint_contains(valves, e_loc, ts.drop_first(), k - 1, j);
        let rest = joint_cands(valves, e_loc, ts.drop_first());
        let ecd = eleph_cands(valves, e_loc, ts.drop_first()[k - 1]);
        let k2r = choose|k2: int| 0 <= k2 < rest.len() && rest[k2] == ecd[j];
        assert(whole[head.len() + k2r] == rest[k2r]);
    }
}

/// Dominance of the two-agent search over the one-agent search: whatever a
/// single agent can reach from `s` in `n` steps, the pair can reach from the
/// canonical form of the same state, because the first agent can copy the
/// single agent's plan while the second stays put.
pub proof fn lemma_dominance(valves: Seq<Valve>, s: State, n: nat)
    ensures
        best(valves, s, n, false) <= best(valves, canon(s, true), n, true),
    decreases n,
{
    if n == 0 {
        return ;
    }
    let c = canon(s, true);
    let m = (n - 1) as nat;
    let cands1 = agent_cands(valves, s);
    let succs1 = succs(valves, s, false);
    assert(succs1 =~= cands1) by {
        assert(forall|i: int|
            0 <= i < cands1.len() ==> (#[trigger] succs1[i]) == canon(cands1[i], false));
    }
    let ts2 = agent_cands(valves, c);
    let joint = joint_cands(valves, c.elephant_location, ts2);
    let succs2 = succs(valves, c, true);
    let bound = best_over(valves, succs2, m, true);
    assert forall|k: int| 0 <= k < succs1.len() implies best(valves, #[trigger] succs1[k], m, false)
        <= bound by {
        let t = cands1[k];
        assert(succs1[k] == t);
        lemma_dominance(valves, t, m);
        if s.elephant_location <= s.location {
            assert(c == s);
            let e_loc = c.elephant_location;
            let ec = eleph_cands(valves, e_loc, t);
            let e_opens: int = if can_open(valves, t.valves_open, e_loc) {
                1int
            } else {
                0int
            };
            let exlen = valves[e_loc as int].exits@.len() as int;
            assert(ec[e_opens + exlen] == t);
            lemma_joint_contains(valves, e_loc, ts2, k, e_opens + exlen);
            let k2 = choose|k2: int|
                0 <= k2 < joint.len() && joint[k2] == eleph_cands(valves, e_loc, ts2[k])[e_opens
                    + exlen];
            assert(joint[k2] == t);
            assert(succs2[k2] == canon(t, true));
            lemma_best_over_ge(valves, succs2, k2, m, true);
        } else {
            let e_loc = c.elephant_location;
            assert(e_loc == s.location);
            let c_opens: int = if can_open(valves, c.valves_open, c.location) {
                1int
            } else {
                0int
            };
            let c_exlen = valves[c.location as int].exits@.len() as int;
            let k_stay = c_opens + c_exlen;
            assert(ts2[k_stay] == c);
            let ec = eleph_cands(valves, e_loc, c);
            let a_opens: int = if can_open(valves, s.valves_open, s.location) {
                1int
            } else {
                0int
            };
            let exlen = valves[s.location as int].exits@.len() as int;
            assert(cands1.len() == a_opens + exlen + 1);
            assert(ec.len() == a_opens + exlen + 1);
            if k < a_opens {
                assert(t == opened(s, s.location));
                assert(ec[k] == opened(c, e_loc));
                assert(canon(ec[k], true) == canon(t, true));
            } else if k < a_opens + exlen {
                let x = valves[s.location as int].exits@[k - a_opens];
                assert(t == (State {
                    location: x,
                    elephant_location: s.elephant_location,
                    valves_open: s.valves_open,
                }));
                assert(ec[k] == (State {
                    location: c.location,
                    elephant_location: x,
                    valves_open: c.valves_open,
                }));
                assert(canon(ec[k], true) == canon(t, true));
            } else {
                assert(t == s);
                assert(ec[k] == c);
                assert(canon(ec[k], true) == canon(t, true));
            }
            lemma_joint_contains(valves, e_loc, ts2, k_stay, k);
            let k2 = choose|k2: int|
                0 <= k2 < joint.len() && joint[k2] == eleph_cands(valves, e_loc, ts2[k_stay])[k];
            assert(joint[k2] == ec[k]);
            assert(succs2[k2] == canon(ec[k], true));
            assert(succs2[k2] == canon(t, true));
            lemma_best_over_ge(valves, succs2, k2, m, true);
        }
    }
    lemma_best_over_le(valves, succs1, m, false, bound);
    assert(c.valves_open == s.valves_open);
}

/// Two agents reach at least what one agent reaches, from any shared start:
/// the pair can always replicate the single agent's plan and let the second
/// agent stay put throughout.
pub proof fn lemma_two_agents_dominate(valves: Seq<Valve>, start: State, n: nat)
    requires
        start.elephant_location == start.location,
    ensures
        best(valves, start, n, false) <= best(valves, start, n, true),
{
    lemma_dominance(valves, start, n);
    assert(canon(start, true) == start);
}

/// Why a graph could not be built.
#[derive(Debug, PartialEq, Eq, Structural, Clone, Copy)]
pub enum ParseError {
    /// A line does not follow the input grammar.
    BadLine,
    /// More nodes than an open-valve mask can hold.
    TooManyValves,
    /// An edge names a node that no line defines.
    UnknownExit,
    /// No node has the start name.
    NoStart,
    /// The flow rates sum past the machine word.
    FlowOverflow,
}

/// One parsed input line: a node name, its flow rate, and the names of its
/// neighbours.
#[derive(Debug)]
pub struct ParsedValve {
    pub name: Vec<u8>,
    pub flow_rate: u64,
    pub exits: Vec<Vec<u8>>,
}

/// The names of the parsed nodes, in input order.
pub open spec fn names_of(parsed: Seq<ParsedValve>) -> Seq<Seq<u8>> {
    parsed.map_values(|pv: ParsedValve| pv.name@)
}

/// The position of the first name equal to `x`, or a negative value if none
/// is.
pub open spec fn index_of_name(names: Seq<Seq<u8>>, x: Seq<u8>) -> int
    decreases names.len(),
{
    if names.len() == 0 {
        -1
    } else if names[0] == x {
        0
    } else if index_of_name(names.drop_first(), x) < 0 {
        -1
    } else {
        index_of_name(names.drop_first(), x) + 1
    }
}

/// Every edge names some parsed node.
pub open spec fn exits_known(parsed: Seq<ParsedValve>) -> bool {
    forall|i: int, j: int|
        0 <= i < parsed.len() && 0 <= j < parsed[i].exits@.len() ==> index_of_name(
            names_of(parsed),
            (#[trigger] parsed[i].exits@[j])@,
        ) >= 0
}

/// The name of the start node.
pub open spec fn start_name() -> Seq<u8> {
    seq![('A' as u8), ('A' as u8)]
}

/// The sum of the first `n` parsed flow rates.
pub open spec fn flows_total_upto(parsed: Seq<ParsedValve>, n: int) -> nat
    decreases n,
{
    if n <= 0 || n > parsed.len() {
        0
    } else {
        flows_total_upto(parsed, n - 1) + parsed[n - 1].flow_rate as nat
    }
}

/// The sum of all parsed flow rates.
pub open spec fn flows_total(parsed: Seq<ParsedValve>) -> nat {
    flows_total_upto(parsed, parsed.len() as int)
}

/// If a name first occurs at `i`, the search finds `i`.
proof fn lemma_index_of_found(names: Seq<Seq<u8>>, x: Seq<u8>, i: int)
    requires
        0 <= i < names.len(),
        names[i] == x,
        forall|j: int| 0 <= j < i ==> names[j] != x,
    ensures
        index_of_name(names, x) == i,
    decreases i,
{
    if i > 0 {
        assert(names.drop_first()[i - 1] == names[i]);
        assert(forall|j: int| 0 <= j < i - 1 ==> (#[trigger] names.drop_first()[j]) == names[j + 1]);
        lemma_index_of_found(names.drop_first(), x, i - 1);
    }
}

/// If no name matches, the search reports none.
proof fn lemma_index_of_none(names: Seq<Seq<u8>>, x: Seq<u8>)
    requires
        forall|j: int| 0 <= j < names.len() ==> (#[trigger] names[j]) != x,
    ensures
        index_of_name(names, x) < 0,
    decreases names.len(),
{
    if names.len() > 0 {
        assert(forall|j: int|
            0 <= j < names.drop_first().len() ==> (#[trigger] names.drop_first()[j]) == names[j
                + 1]);
        lemma_index_of_none(names.drop_first(), x);
    }
}

/// Whether two byte strings hold the same bytes.
fn bytes_eq(a: &Vec<u8>, b: &Vec<u8>) -> (r: bool)
    ensures
        r == (a@ == b@),
{
    if a.len() != b.len() {
        return false;
    }
    let mut i: usize = 0;
    while i < a.len()
        invariant
            a@.len() == b@.len(),
            i <= a@.len(),
            forall|k: int| 0 <= k < i ==> a@[k] == b@[k],
        decreases a@.len() - i,
    {
        if a[i] != b[i] {
            return false;
        }
        i += 1;
    }
    proof {
        assert(a@ =~= b@);
    }
    true
}

/// The position of the first parsed node whose name is `x`, if any.
fn find_name(parsed: &Vec<ParsedValve>, x: &Vec<u8>) -> (r: Option<usize>)
    ensures
        match r {
            Some(i) => i < parsed@.len() && index_of_name(names_of(parsed@), x@) == i,
            None => index_of_name(names_of(parsed@), x@) < 0,
        },
{
    let mut i: usize = 0;
    while i < parsed.len()
        invariant
            i <= parsed@.len(),
            forall|j: int| 0 <= j < i ==> names_of(parsed@)[j] != x@,
        decreases parsed@.len() - i,
    {
        if bytes_eq(&parsed[i].name, x) {
            proof {
                lemma_index_of_found(names_of(parsed@), x@, i as int);
            }
            return Some(i);
        }
        i += 1;
    }
    proof {
        lemma_index_of_none(names_of(parsed@), x@);
    }
    None
}

/// The two totals agree when the flows agree entrywise.
proof fn lemma_totals_match(valves: Seq<Valve>, parsed: Seq<ParsedValve>, n: int)
    requires
        valves.len() == parsed.len(),
        forall|i: int| 0 <= i < parsed.len() ==> (#[trigger] valves[i]).flow_rate == parsed[i].flow_rate,
    ensures
        total_flow_upto(valves, n) == flows_total_upto(parsed, n),
    decreases n,
{
    if !(n <= 0 || n > parsed.len()) {
        lemma_totals_match(valves, parsed, n - 1);
    }
}

impl Cave {
    /// Build the graph from parsed lines, resolving every neighbour name to
    /// its node index.  Fails fast, before any search can run: when there
    /// are more nodes than a mask can hold, when an edge names an undefined
    /// node, when no node carries the start name, and when the flow rates
    /// overflow a machine word — each condition reported if and only if it
    /// holds, in that order.
    pub fn from_parsed(parsed: &Vec<ParsedValve>) -> (r: Result<Cave, ParseError>)
        ensures
            match r {
                Ok(c) => {
                    &&& parsed@.len() <= 64
                    &&& exits_known(parsed@)
                    &&& index_of_name(names_of(parsed@), start_name()) >= 0
                    &&& flows_total(parsed@) <= u64::MAX
                    &&& c.wf()
                    &&& c.valves@.len() == parsed@.len()
                    &&& forall|i: int|
                        0 <= i < parsed@.len() ==> (#[trigger] c.valves@[i]).flow_rate
                            == parsed@[i].flow_rate && c.valves@[i].exits@.len()
                            == parsed@[i].exits@.len()
                    &&& forall|i: int, j: int|
                        0 <= i < parsed@.len() && 0 <= j < parsed@[i].exits@.len() ==> (
                        #[trigger] c.valves@[i].exits@[j]) as int == index_of_name(
                            names_of(parsed@),
                            parsed@[i].exits@[j]@,
                        )
                    &&& c.starting_location as int == index_of_name(
                        names_of(parsed@),
                        start_name(),
                    )
                },
                Err(ParseError::TooManyValves) => parsed@.len() > 64,
                Err(ParseError::UnknownExit) => parsed@.len() <= 64 && !exits_known(parsed@),
                Err(ParseError::NoStart) => {
                    &&& parsed@.len() <= 64
                    &&& exits_known(parsed@)
                    &&& index_of_name(names_of(parsed@), start_name()) < 0
                },
                Err(ParseError::FlowOverflow) => {
                    &&& parsed@.len() <= 64
                    &&& exits_known(parsed@)
                    &&& index_of_name(names_of(parsed@), start_name()) >= 0
                    &&& flows_total(parsed@) > u64::MAX
                },
                Err(ParseError::BadLine) => false,
            },
    {
        if parsed.len() > 64 {
            return Err(ParseError::TooManyValves);
        }
        let mut valves: Vec<Valve> = Vec::new();
        let mut i: usize = 0;
        while i < parsed.len()
            invariant
                parsed@.len() <= 64,
                i <= parsed@.len(),
                valves@.len() == i,
                forall|i2: int|
                    0 <= i2 < i ==> (#[trigger] valves@[i2]).flow_rate == parsed@[i2].flow_rate
                        && valves@[i2].exits@.len() == parsed@[i2].exits@.len(),
                forall|i2: int, j: int|
                    0 <= i2 < i && 0 <= j < parsed@[i2].exits@.len() ==> (#[trigger] valves@[
                    i2].exits@[j]) as int == index_of_name(
                        names_of(parsed@),
                        parsed@[i2].exits@[j]@,
                    ) && (valves@[i2].exits@[j] as int) < parsed@.len(),
                forall|i2: int, j: int|
                    0 <= i2 < i && 0 <= j < parsed@[i2].exits@.len() ==> index_of_name(
                        names_of(parsed@),
                        (#[trigger] parsed@[i2].exits@[j])@,
                    ) >= 0,
            decreases parsed@.len() - i,
        {
            let mut exits: Vec<u8> = Vec::new();
            let mut j: usize = 0;
            while j < parsed[i].exits.len()
                invariant
                    parsed@.len() <= 64,
                    i < parsed@.len(),
                    j <= parsed@[i as int].exits@.len(),
                    exits@.len() == j,
                    forall|j2: int|
                        0 <= j2 < j ==> (#[trigger] exits@[j2]) as int == index_of_name(
                            names_of(parsed@),
                            parsed@[i as int].exits@[j2]@,
                        ) && (exits@[j2] as int) < parsed@.len(),
                    forall|j2: int|
                        0 <= j2 < j ==> index_of_name(
                            names_of(parsed@),
                            (#[trigger] parsed@[i as int].exits@[j2])@,
                        ) >= 0,
                decreases parsed@[i as int].exits@.len() - j,
            {
                match find_name(parsed, &parsed[i].exits[j]) {
                    Some(t) => {
                        exits.push(t as u8);
                    },
                    None => {
                        proof {
                            assert(!exits_known(parsed@));
                        }
                        return Err(ParseError::UnknownExit);
                    },
                }
                j += 1;
            }
            let flow_rate = parsed[i].flow_rate;
            valves.push(Valve { flow_rate, exits });
            i += 1;
        }
        let mut aa: Vec<u8> = Vec::new();
        aa.push('A' as u8);
        aa.push('A' as u8);
        proof {
            assert(aa@ =~= start_name());
        }
        let starting_location = match find_name(parsed, &aa) {
            Some(t) => t as u8,
            None => {
                return Err(ParseError::NoStart);
            },
        };
        let mut total: u64 = 0;
        let mut k: usize = 0;
        while k < valves.len()
            invariant
                k <= valves@.len(),
                valves@.len() == parsed@.len(),
                parsed@.len() <= 64,
                exits_known(parsed@),
                index_of_name(names_of(parsed@), start_name()) >= 0,
                (starting_location as int) == index_of_name(names_of(parsed@), start_name()),
                starting_location < parsed@.len(),
                forall|i2: int|
                    0 <= i2 < parsed@.len() ==> (#[trigger] valves@[i2]).exits@.len()
                        == parsed@[i2].exits@.len(),
                forall|i2: int, j: int|
                    0 <= i2 < parsed@.len() && 0 <= j < parsed@[i2].exits@.len() ==> (
                    #[trigger] valves@[i2].exits@[j]) as int == index_of_name(
                        names_of(parsed@),
                        parsed@[i2].exits@[j]@,
                    ) && (valves@[i2].exits@[j] as int) < parsed@.len(),
                forall|i2: int|
                    0 <= i2 < parsed@.len() ==> (#[trigger] valves@[i2]).flow_rate
                        == parsed@[i2].flow_rate,
                total as nat == total_flow_upto(valves@, k as int),
            decreases valves@.len() - k,
        {
            let f = valves[k].flow_rate;
            if total > u64::MAX - f {
                proof {
                    assert(total_flow_upto(valves@, k + 1) == total_flow_upto(valves@, k as int)
                        + valves@[k as int].flow_rate);
                    lemma_total_flow_upto_le(valves@, k + 1);
                    lemma_totals_match(valves@, parsed@, valves@.len() as int);
                }
                return Err(ParseError::FlowOverflow);
            }
            total = total + f;
            k += 1;
        }
        proof {
            lemma_totals_match(valves@, parsed@, valves@.len() as int);
        }
        Ok(
            Cave {
                valves,
                starting_location,
                max_pressure_per_minute: total,
                pressure_per_minute_per_valve_state: HashMap::new(),
            },
        )
    }
}

/// The mathematical shape of a parsed line: a node name, its flow rate,
/// and its neighbours' names.
pub struct ParsedValveView {
    pub name: Seq<u8>,
    pub flow_rate: u64,
    pub exits: Seq<Seq<u8>>,
}

impl ParsedValve {
    /// The mathematical shape of this parsed line.
    pub open spec fn dv(&self) -> ParsedValveView {
        ParsedValveView {
            name: self.name@,
            flow_rate: self.flow_rate,
            exits: self.exits@.map_values(|e: Vec<u8>| e@),
        }
    }
}

/// The bytes of the word that opens a line.
pub open spec fn valve_word() -> Seq<u8> {
    seq![('V' as u8), ('a' as u8), ('l' as u8), ('v' as u8), ('e' as u8), (' ' as u8)]
}

/// The bytes between the name and the flow rate.
pub open spec fn rate_words() -> Seq<u8> {
    seq![
        (' ' as u8),
        ('h' as u8),
        ('a' as u8),
        ('s' as u8),
        (' ' as u8),
        ('f' as u8),
        ('l' as u8),
        ('o' as u8),
        ('w' as u8),
        (' ' as u8),
        ('r' as u8),
        ('a' as u8),
        ('t' as u8),
        ('e' as u8),
        ('=' as u8),
    ]
}

/// The bytes after the flow rate.
pub open spec fn tunnel_word() -> Seq<u8> {
    seq![
        (';' as u8),
        (' ' as u8),
        ('t' as u8),
        ('u' as u8),
        ('n' as u8),
        ('n' as u8),
        ('e' as u8),
        ('l' as u8),
    ]
}

/// The bytes of the verb between the tunnel word and the exits.
pub open spec fn lead_word() -> Seq<u8> {
    seq![(' ' as u8), ('l' as u8), ('e' as u8), ('a' as u8), ('d' as u8)]
}

/// The bytes naming the exits' kind.
pub open spec fn to_valve_word() -> Seq<u8> {
    seq![
        (' ' as u8),
        ('t' as u8),
        ('o' as u8),
        (' ' as u8),
        ('v' as u8),
        ('a' as u8),
        ('l' as u8),
        ('v' as u8),
        ('e' as u8),
    ]
}

/// The literal stands in the bytes at the position.
pub open spec fn lit_at(b: Seq<u8>, pos: int, lit: Seq<u8>) -> bool {
    0 <= pos && pos + lit.len() <= b.len() && b.subrange(pos, pos + lit.len()) == lit
}

/// The first position at or after `pos` holding the stop byte, or the
/// length when none does.
pub open spec fn scan_to(b: Seq<u8>, pos: int, stop: u8) -> int
    decreases b.len() - pos,
{
    if pos < 0 || pos >= b.len() {
        b.len() as int
    } else if b[pos] == stop {
        pos
    } else {
        scan_to(b, pos + 1, stop)
    }
}

/// The scan lands on the first stop byte, within bounds.
pub proof fn lemma_scan_to_bounds(b: Seq<u8>, pos: int, stop: u8)
    requires
        0 <= pos <= b.len(),
    ensures
        pos <= scan_to(b, pos, stop) <= b.len(),
        scan_to(b, pos, stop) < b.len() ==> b[scan_to(b, pos, stop)] == stop,
        forall|i: int| pos <= i < scan_to(b, pos, stop) ==> b[i] != stop,
    decreases b.len() - pos,
{
    if pos < b.len() && b[pos] != stop {
        lemma_scan_to_bounds(b, pos + 1, stop);
    }
}

/// A found first stop byte is where the scan lands.
proof fn lemma_scan_to_at(b: Seq<u8>, pos: int, stop: u8, p: int)
    requires
        0 <= pos <= p <= b.len(),
        forall|i: int| pos <= i < p ==> b[i] != stop,
        p == b.len() || b[p] == stop,
    ensures
        scan_to(b, pos, stop) == p,
    decreases p - pos,
{
    if pos < p {
        lemma_scan_to_at(b, pos + 1, stop, p);
    }
}

/// The first position at or after `pos` holding a non-digit, or the length
/// when the digits run out the bytes.
pub open spec fn digits_end(b: Seq<u8>, pos: int) -> int
    decreases b.len() - pos,
{
    if pos < 0 || pos >= b.len() {
        b.len() as int
    } else if ('0' as u8) <= b[pos] <= ('9' as u8) {
        digits_end(b, pos + 1)
    } else {
        pos
    }
}

/// A found first non-digit is where the digits end.
proof fn lemma_digits_end_at(b: Seq<u8>, pos: int, p: int)
    requires
        0 <= pos <= p <= b.len(),
        forall|i: int| pos <= i < p ==> ('0' as u8) <= #[trigger] b[i] <= ('9' as u8),
        p == b.len() || !(('0' as u8) <= b[p] <= ('9' as u8)),
    ensures
        digits_end(b, pos) == p,
    decreases p - pos,
{
    if pos < p {
        lemma_digits_end_at(b, pos + 1, p);
    }
}

/// The position past an optional plural marker.
pub open spec fn opt_s(b: Seq<u8>, pos: int) -> int {
    if 0 <= pos < b.len() && b[pos] == ('s' as u8) {
        pos + 1
    } else {
        pos
    }
}

/// The tail from `q` is a well-formed exits listing: non-empty names free
/// of commas, joined by a comma and a blank, reaching the end of the line.
pub open spec fn exits_ok(b: Seq<u8>, q: int) -> bool
    decreases b.len() - q,
    via exits_ok_dec
{
    let e = scan_to(b, q, (',' as u8));
    &&& 0 <= q < b.len()
    &&& e > q
    &&& (e >= b.len() || (e + 1 < b.len() && b[e + 1] == (' ' as u8) && e + 2 < b.len()
        && exits_ok(b, e + 2)))
}

#[via_fn]
proof fn exits_ok_dec(b: Seq<u8>, q: int) {
    if 0 <= q <= b.len() {
        lemma_scan_to_bounds(b, q, (',' as u8));
    }
}

/// The exit names of a well-formed exits listing, in order.
pub open spec fn exits_names(b: Seq<u8>, q: int) -> Seq<Seq<u8>>
    decreases b.len() - q,
    via exits_names_dec
{
    let e = scan_to(b, q, (',' as u8));
    if q < 0 || q >= b.len() {
        Seq::empty()
    } else if e >= b.len() {
        seq![b.subrange(q, b.len() as int)]
    } else if e + 2 < b.len() {
        seq![b.subrange(q, e)] + exits_names(b, e + 2)
    } else {
        seq![b.subrange(q, e)]
    }
}

#[via_fn]
proof fn exits_names_dec(b: Seq<u8>, q: int) {
    if 0 <= q <= b.len() {
        lemma_scan_to_bounds(b, q, (',' as u8));
    }
}

/// The parsed shape a line denotes, or nothing when the line does not
/// follow the grammar: the opening word, a non-empty name, the flow-rate
/// words, a digit run denoting a machine word, the tunnel words with their
/// optional plural markers, and the exits listing.
pub open spec fn valve_line(b: Seq<u8>) -> Option<ParsedValveView> {
    let ne = scan_to(b, 6, (' ' as u8));
    let ds = ne + rate_words().len();
    let de = digits_end(b, ds);
    let p1 = opt_s(b, de + tunnel_word().len());
    let p2 = opt_s(b, p1 + lead_word().len());
    let p3 = opt_s(b, p2 + to_valve_word().len());
    let q = p3 + 1;
    if lit_at(b, 0, valve_word()) && ne > 6 && lit_at(b, ne, rate_words()) && de > ds
        && digits_val(b.subrange(ds, de)) <= u64::MAX && lit_at(b, de, tunnel_word()) && lit_at(
        b,
        p1,
        lead_word(),
    ) && lit_at(b, p2, to_valve_word()) && p3 < b.len() && b[p3] == (' ' as u8) && exits_ok(
        b,
        q,
    ) {
        Some(
            ParsedValveView {
                name: b.subrange(6, ne),
                flow_rate: digits_val(b.subrange(ds, de)) as u64,
                exits: exits_names(b, q),
            },
        )
    } else {
        None
    }
}

/// Whether the literal stands in the bytes at the position.
fn match_lit(b: &Vec<u8>, pos: usize, lit: &Vec<u8>) -> (r: bool)
    ensures
        r == lit_at(b@, pos as int, lit@),
{
    if pos > b.len() || b.len() - pos < lit.len() {
        return false;
    }
    let mut i: usize = 0;
    while i < lit.len()
        invariant
            i <= lit@.len(),
            pos + lit@.len() <= b@.len(),
            b@.len() <= usize::MAX,
            forall|k: int| 0 <= k < i ==> b@[pos + k] == lit@[k],
        decreases lit@.len() - i,
    {
        if b[pos + i] != lit[i] {
            proof {
                assert(b@.subrange(pos as int, pos + lit@.len())[i as int] == b@[pos + i]);
            }
            return false;
        }
        i += 1;
    }
    proof {
        assert(b@.subrange(pos as int, pos + lit@.len()) =~= lit@);
    }
    true
}

/// Where the first stop byte at or after `pos` stands, computed.
fn scan_until(b: &Vec<u8>, pos: usize, stop: u8) -> (r: usize)
    requires
        pos <= b@.len(),
    ensures
        r as int == scan_to(b@, pos as int, stop),
        pos <= r <= b@.len(),
{
    let mut p = pos;
    while p < b.len() && b[p] != stop
        invariant
            pos <= p <= b@.len(),
            forall|i: int| pos <= i < p ==> b@[i] != stop,
        decreases b@.len() - p,
    {
        p += 1;
    }
    proof {
        lemma_scan_to_at(b@, pos as int, stop, p as int);
    }
    p
}

/// Where the digit run starting at `pos` ends, computed.
fn scan_digits_end(b: &Vec<u8>, pos: usize) -> (r: usize)
    requires
        pos <= b@.len(),
    ensures
        r as int == digits_end(b@, pos as int),
        pos <= r <= b@.len(),
        forall|i: int| pos <= i < r ==> ('0' as u8) <= #[trigger] b@[i] <= ('9' as u8),
    decreases b@.len() - pos,
{
    let mut p = pos;
    while p < b.len() && b[p] >= ('0' as u8) && b[p] <= ('9' as u8)
        invariant
            pos <= p <= b@.len(),
            forall|i: int| pos <= i < p ==> ('0' as u8) <= #[trigger] b@[i] <= ('9' as u8),
        decreases b@.len() - p,
    {
        p += 1;
    }
    proof {
        lemma_digits_end_at(b@, pos as int, p as int);
    }
    p
}

/// The bytes between two positions, copied.
fn copy_range(b: &Vec<u8>, from: usize, to: usize) -> (r: Vec<u8>)
    requires
        from <= to <= b@.len(),
    ensures
        r@ == b@.subrange(from as int, to as int),
{
    let mut out: Vec<u8> = Vec::new();
    let mut t = from;
    while t < to
        invariant
            from <= t <= to <= b@.len(),
            out@ =~= b@.subrange(from as int, t as int),
        decreases to - t,
    {
        out.push(b[t]);
        proof {
            assert(out@ =~= b@.subrange(from as int, t + 1));
        }
        t += 1;
    }
    proof {
        assert(out@ =~= b@.subrange(from as int, to as int));
    }
    out
}

/// The views of a run of exit names.
pub open spec fn exit_views(es: Seq<Vec<u8>>) -> Seq<Seq<u8>> {
    es.map_values(|e: Vec<u8>| e@)
}

impl ParsedValve {
    /// Parse one input line of the form
    /// `Valve XY has flow rate=9; tunnels lead to valves AB, CD`
    /// (with the singular words for a single tunnel).  The result is the
    /// line's shape under the grammar, and nothing exactly when the line
    /// does not follow it.
    pub fn parse(line: &Vec<u8>) -> (r: Option<ParsedValve>)
        ensures
            match r {
                Some(pv) => valve_line(line@) == Some(pv.dv()),
                None => valve_line(line@) is None,
            },
    {
        let llen = line.len();
        let mut lit_valve: Vec<u8> = Vec::new();
        lit_valve.push('V' as u8);
        lit_valve.push('a' as u8);
        lit_valve.push('l' as u8);
        lit_valve.push('v' as u8);
        lit_valve.push('e' as u8);
        lit_valve.push(' ' as u8);
        let mut lit_rate: Vec<u8> = Vec::new();
        lit_rate.push(' ' as u8);
        lit_rate.push('h' as u8);
        lit_rate.push('a' as u8);
        lit_rate.push('s' as u8);
        lit_rate.push(' ' as u8);
        lit_rate.push('f' as u8);
        lit_rate.push('l' as u8);
        lit_rate.push('o' as u8);
        lit_rate.push('w' as u8);
        lit_rate.push(' ' as u8);
        lit_rate.push('r' as u8);
        lit_rate.push('a' as u8);
        lit_rate.push('t' as u8);
        lit_rate.push('e' as u8);
        lit_rate.push('=' as u8);
        let mut lit_tunnel: Vec<u8> = Vec::new();
        lit_tunnel.push(';' as u8);
        lit_tunnel.push(' ' as u8);
        lit_tunnel.push('t' as u8);
        lit_tunnel.push('u' as u8);
        lit_tunnel.push('n' as u8);
        lit_tunnel.push('n' as u8);
        lit_tunnel.push('e' as u8);
        lit_tunnel.push('l' as u8);
        let mut lit_lead: Vec<u8> = Vec::new();
        lit_lead.push(' ' as u8);
        lit_lead.push('l' as u8);
        lit_lead.push('e' as u8);
        lit_lead.push('a' as u8);
        lit_lead.push('d' as u8);
        let mut lit_to_valve: Vec<u8> = Vec::new();
        lit_to_valve.push(' ' as u8);
        lit_to_valve.push('t' as u8);
        lit_to_valve.push('o' as u8);
        lit_to_valve.push(' ' as u8);
        lit_to_valve.push('v' as u8);
        lit_to_valve.push('a' as u8);
        lit_to_valve.push('l' as u8);
        lit_to_valve.push('v' as u8);
        lit_to_valve.push('e' as u8);
        proof {
            assert(lit_valve@ =~= valve_word());
            assert(lit_rate@ =~= rate_words());
            assert(lit_tunnel@ =~= tunnel_word());
            assert(lit_lead@ =~= lead_word());
            assert(lit_to_valve@ =~= to_valve_word());
        }
        if !match_lit(line, 0, &lit_valve) {
            return None;
        }
        let ne = scan_until(line, 6, ' ' as u8);
        if ne == 6 {
            return None;
        }
        let name = copy_range(line, 6, ne);
        if !match_lit(line, ne, &lit_rate) {
            return None;
        }
        let ds = ne + 15;
        let de = scan_digits_end(line, ds);
        if de == ds {
            return None;
        }
        let flow_rate = match crate::cpu::parse_digits_bounded(
            line.as_slice(),
            ds,
            de,
            u64::MAX,
        ) {
            Some(v) => v,
            None => {
                proof {
                    assert(is_digits(line@.subrange(ds as int, de as int)));
                }
                return None;
            },
        };
        if !match_lit(line, de, &lit_tunnel) {
            return None;
        }
        let mut pp = de + 8;
        if pp < line.len() && line[pp] == ('s' as u8) {
            pp = pp + 1;
        }
        proof {
            assert(pp as int == opt_s(line@, de + tunnel_word().len()));
        }
        if !match_lit(line, pp, &lit_lead) {
            return None;
        }
        let mut p2 = pp + 5;
        if p2 < line.len() && line[p2] == ('s' as u8) {
            p2 = p2 + 1;
        }
        proof {
            assert(p2 as int == opt_s(line@, pp + lead_word().len()));
        }
        if !match_lit(line, p2, &lit_to_valve) {
            return None;
        }
        let mut p3 = p2 + 9;
        if p3 < line.len() && line[p3] == ('s' as u8) {
            p3 = p3 + 1;
        }
        proof {
            assert(p3 as int == opt_s(line@, p2 + to_valve_word().len()));
        }
        if p3 >= line.len() || line[p3] != (' ' as u8) {
            return None;
        }
        let q0 = p3 + 1;
        if q0 >= line.len() {
            return None;
        }
        let ghost gname = line@.subrange(6, ne as int);
        let ghost gflow = digits_val(line@.subrange(ds as int, de as int)) as u64;
        proof {
            assert(name@ == gname);
            assert(flow_rate == gflow);
            if exits_ok(line@, q0 as int) {
                assert(valve_line(line@) == Some(
                    ParsedValveView {
                        name: gname,
                        flow_rate: gflow,
                        exits: exits_names(line@, q0 as int),
                    },
                ));
            } else {
                assert(valve_line(line@) is None);
            }
        }
        let mut exits: Vec<Vec<u8>> = Vec::new();
        let mut p = q0;
        while p < line.len()
            invariant
                q0 <= p < line@.len(),
                name@ == gname,
                flow_rate == gflow,
                exits_ok(line@, q0 as int) == exits_ok(line@, p as int),
                exits_ok(line@, p as int) ==> exits_names(line@, q0 as int) == exit_views(exits@)
                    + exits_names(line@, p as int),
                exits_ok(line@, q0 as int) ==> valve_line(line@) == Some(
                    (ParsedValveView {
                        name: gname,
                        flow_rate: gflow,
                        exits: exits_names(line@, q0 as int),
                    }),
                ),
                !exits_ok(line@, q0 as int) ==> valve_line(line@) is None,
            decreases line@.len() - p,
        {
            let e = scan_until(line, p, ',' as u8);
            if e == p {
                proof {
                    assert(!exits_ok(line@, p as int));
                }
                return None;
            }
            let ex = copy_range(line, p, e);
            let ghost before = exit_views(exits@);
            exits.push(ex);
            proof {
                assert(exit_views(exits@) =~= before.push(line@.subrange(p as int, e as int)));
            }
            if e >= line.len() {
                proof {
                    assert(exits_ok(line@, p as int));
                    assert(exits_names(line@, p as int) == seq![
                        line@.subrange(p as int, line@.len() as int),
                    ]);
                    assert(exits_names(line@, q0 as int) =~= exit_views(exits@));
                }
                let pv = ParsedValve { name, flow_rate, exits };
                proof {
                    assert(pv.dv().name == gname);
                    assert(pv.dv().flow_rate == gflow);
                    assert(pv.dv().exits =~= exits_names(line@, q0 as int));
                    assert(pv.dv() == (ParsedValveView {
                        name: gname,
                        flow_rate: gflow,
                        exits: exits_names(line@, q0 as int),
                    }));
                    assert(valve_line(line@) == Some(pv.dv()));
                }
                return Some(pv);
            }
            if e + 1 >= line.len() || line[e + 1] != (' ' as u8) {
                proof {
                    assert(!exits_ok(line@, p as int));
                }
                return None;
            }
            if e + 2 >= line.len() {
                proof {
                    assert(!exits_ok(line@, p as int));
                }
                return None;
            }
            proof {
                assert(exits_ok(line@, p as int) == exits_ok(line@, e + 2));
                if exits_ok(line@, e + 2) {
                    assert(exits_names(line@, p as int) == seq![line@.subrange(p as int, e as int)]
                        + exits_names(line@, e + 2));
                    assert(exit_views(exits@) + exits_names(line@, e + 2) =~= before + (seq![
                        line@.subrange(p as int, e as int),
                    ] + exits_names(line@, e + 2)));
                }
            }
            p = e + 2;
        }
        proof {
            assert(false);
        }
        None
    }
}

/// The shapes of a run of parsed lines.
pub open spec fn parsed_views(p: Seq<ParsedValve>) -> Seq<ParsedValveView> {
    p.map_values(|pv: ParsedValve| pv.dv())
}

/// The names of a run of shapes, in order.
pub open spec fn vnames(vs: Seq<ParsedValveView>) -> Seq<Seq<u8>> {
    vs.map_values(|v: ParsedValveView| v.name)
}

/// Every edge of the shapes names some shape.
pub open spec fn vexits_known(vs: Seq<ParsedValveView>) -> bool {
    forall|i: int, j: int|
        0 <= i < vs.len() && 0 <= j < vs[i].exits.len() ==> index_of_name(
            vnames(vs),
            #[trigger] vs[i].exits[j],
        ) >= 0
}

/// The sum of the first `n` shapes' flow rates.
pub open spec fn vflows_upto(vs: Seq<ParsedValveView>, n: int) -> nat
    decreases n,
{
    if n <= 0 || n > vs.len() {
        0
    } else {
        vflows_upto(vs, n - 1) + vs[n - 1].flow_rate as nat
    }
}

/// The sum of all the shapes' flow rates.
pub open spec fn vflows_total(vs: Seq<ParsedValveView>) -> nat {
    vflows_upto(vs, vs.len() as int)
}

/// What graph construction returns for given shapes: the built cave's
/// fields resolve the shapes' names, or the first failing condition's
/// error, in a fixed order.
pub open spec fn construction_post(vs: Seq<ParsedValveView>, r: Result<Cave, ParseError>) -> bool {
    match r {
        Ok(c) => {
            &&& vs.len() <= 64
            &&& vexits_known(vs)
            &&& index_of_name(vnames(vs), start_name()) >= 0
            &&& vflows_total(vs) <= u64::MAX
            &&& c.wf()
            &&& c.valves@.len() == vs.len()
            &&& forall|i: int|
                0 <= i < vs.len() ==> (#[trigger] c.valves@[i]).flow_rate == vs[i].flow_rate
                    && c.valves@[i].exits@.len() == vs[i].exits.len()
            &&& forall|i: int, j: int|
                0 <= i < vs.len() && 0 <= j < vs[i].exits.len() ==> (#[trigger] c.valves@[
                i].exits@[j]) as int == index_of_name(vnames(vs), vs[i].exits[j])
            &&& c.starting_location as int == index_of_name(vnames(vs), start_name())
        },
        Err(ParseError::TooManyValves) => vs.len() > 64,
        Err(ParseError::UnknownExit) => vs.len() <= 64 && !vexits_known(vs),
        Err(ParseError::NoStart) => {
            &&& vs.len() <= 64
            &&& vexits_known(vs)
            &&& index_of_name(vnames(vs), start_name()) < 0
        },
        Err(ParseError::FlowOverflow) => {
            &&& vs.len() <= 64
            &&& vexits_known(vs)
            &&& index_of_name(vnames(vs), start_name()) >= 0
            &&& vflows_total(vs) > u64::MAX
        },
        Err(ParseError::BadLine) => false,
    }
}

/// The shapes of parsed lines carry the same names, edges and flows as the
/// lines themselves.
pub proof fn lemma_parsed_views(p: Seq<ParsedValve>)
    ensures
        parsed_views(p).len() == p.len(),
        forall|i: int|
            0 <= i < p.len() ==> (#[trigger] parsed_views(p)[i]).name == p[i].name@
                && parsed_views(p)[i].flow_rate == p[i].flow_rate && parsed_views(p)[i].exits.len()
                == p[i].exits@.len(),
        forall|i: int, j: int|
            0 <= i < p.len() && 0 <= j < p[i].exits@.len() ==> parsed_views(p)[i].exits[j] == (
            #[trigger] p[i].exits@[j])@,
        vnames(parsed_views(p)) == names_of(p),
        vexits_known(parsed_views(p)) == exits_known(p),
        vflows_total(parsed_views(p)) == flows_total(p),
{
    let vs = parsed_views(p);
    assert(vnames(vs) =~= names_of(p));
    assert forall|i: int, j: int|
        0 <= i < p.len() && 0 <= j < p[i].exits@.len() implies vs[i].exits[j] == (#[trigger] p[
    i].exits@[j])@ by {
        assert(vs[i] == p[i].dv());
    }
    if exits_known(p) {
        assert forall|i: int, j: int|
            0 <= i < vs.len() && 0 <= j < vs[i].exits.len() implies index_of_name(
            vnames(vs),
            #[trigger] vs[i].exits[j],
        ) >= 0 by {
            assert(index_of_name(names_of(p), (p[i].exits@[j])@) >= 0);
        }
    }
    if vexits_known(vs) {
        assert forall|i: int, j: int|
            0 <= i < p.len() && 0 <= j < p[i].exits@.len() implies index_of_name(
            names_of(p),
            (#[trigger] p[i].exits@[j])@,
        ) >= 0 by {
            assert(index_of_name(vnames(vs), vs[i].exits[j]) >= 0);
        }
    }
    lemma_vflows_match(p, p.len() as int);
}

/// The two flow sums agree prefix by prefix.
proof fn lemma_vflows_match(p: Seq<ParsedValve>, n: int)
    ensures
        vflows_upto(parsed_views(p), n) == flows_total_upto(p, n),
    decreases n,
{
    if !(n <= 0 || n > p.len()) {
        lemma_vflows_match(p, n - 1);
        assert(parsed_views(p)[n - 1] == p[n - 1].dv());
    }
}

/// The shapes of well-formed lines, in order.
pub open spec fn line_views(ls: Seq<Seq<u8>>) -> Seq<ParsedValveView> {
    ls.map_values(|l: Seq<u8>| valve_line(l)->0)
}

impl Cave {
    /// Parse the whole input, one node per line, and build the graph.  When
    /// every line follows the grammar, the result is the construction on
    /// the lines' shapes — the cave whose rates, resolved edges and start
    /// index come from the text, or the first failing graph condition —
    /// and when some line does not, the grammar error, fail-fast either
    /// way, never mid-search.
    pub fn parse(input: &str) -> (r: Result<Cave, ParseError>)
        ensures
            (forall|i: int|
                0 <= i < split_lines(input.spec_bytes(), Seq::empty()).len() ==> (
                #[trigger] valve_line(split_lines(input.spec_bytes(), Seq::empty())[i]))
                    is Some) ==> construction_post(
                line_views(split_lines(input.spec_bytes(), Seq::empty())),
                r,
            ),
            !(forall|i: int|
                0 <= i < split_lines(input.spec_bytes(), Seq::empty()).len() ==> (
                #[trigger] valve_line(split_lines(input.spec_bytes(), Seq::empty())[i]))
                    is Some) ==> r == Err::<Cave, ParseError>(ParseError::BadLine),
    {
        let bytes = input.as_bytes();
        let ghost whole = split_lines(bytes@, Seq::<u8>::empty());
        let mut parsed: Vec<ParsedValve> = Vec::new();
        let mut cur: Vec<u8> = Vec::new();
        let ghost mut done: Seq<Seq<u8>> = Seq::empty();
        let mut i: usize = 0;
        proof {
            assert(bytes@.skip(0) =~= bytes@);
            assert(whole =~= done + split_lines(bytes@.skip(0), cur@));
        }
        while i < bytes.len()
            invariant
                i <= bytes@.len(),
                bytes@ == input.spec_bytes(),
                whole == split_lines(input.spec_bytes(), Seq::empty()),
                whole == done + split_lines(bytes@.skip(i as int), cur@),
                parsed@.len() == done.len(),
                forall|k: int|
                    0 <= k < done.len() ==> (#[trigger] valve_line(done[k])) == Some(
                        parsed@[k].dv(),
                    ),
            decreases bytes@.len() - i,
        {
            let c = bytes[i];
            proof {
                assert(bytes@.skip(i as int)[0] == bytes@[i as int]);
                assert(bytes@.skip(i as int).drop_first() =~= bytes@.skip(i + 1));
            }
            if c == ('\n' as u8) {
                proof {
                    assert(split_lines(bytes@.skip(i as int), cur@) == seq![cur@] + split_lines(
                        bytes@.skip(i + 1),
                        Seq::<u8>::empty(),
                    ));
                    assert(whole[done.len() as int] == cur@);
                }
                match ParsedValve::parse(&cur) {
                    Some(pv) => {
                        let ghost curb = cur@;
                        parsed.push(pv);
                        proof {
                            done = done.push(curb);
                            assert(whole =~= done + split_lines(
                                bytes@.skip(i + 1),
                                Seq::<u8>::empty(),
                            ));
                        }
                    },
                    None => {
                        proof {
                            assert(0 <= done.len() < whole.len());
                            assert(valve_line(whole[done.len() as int]) is None);
                        }
                        return Err(ParseError::BadLine);
                    },
                }
                cur = Vec::new();
            } else if c != ('\r' as u8) {
                let ghost oldcur = cur@;
                cur.push(c);
                proof {
                    assert(split_lines(bytes@.skip(i as int), oldcur) == split_lines(
                        bytes@.skip(i + 1),
                        oldcur.push(c),
                    ));
                }
            } else {
                proof {
                    assert(split_lines(bytes@.skip(i as int), cur@) == split_lines(
                        bytes@.skip(i + 1),
                        cur@,
                    ));
                }
            }
            i += 1;
        }
        proof {
            assert(bytes@.skip(bytes@.len() as int) =~= Seq::<u8>::empty());
        }
        if cur.len() > 0 {
            proof {
                assert(split_lines(bytes@.skip(i as int), cur@) == seq![cur@]);
                assert(whole[done.len() as int] == cur@);
            }
            match ParsedValve::parse(&cur) {
                Some(pv) => {
                    let ghost curb = cur@;
                    parsed.push(pv);
                    proof {
                        done = done.push(curb);
                        assert(whole =~= done);
                    }
                },
                None => {
                    proof {
                        assert(0 <= done.len() < whole.len());
                        assert(valve_line(whole[done.len() as int]) is None);
                    }
                    return Err(ParseError::BadLine);
                },
            }
        } else {
            proof {
                assert(split_lines(bytes@.skip(i as int), cur@) =~= Seq::<Seq<u8>>::empty());
                assert(whole =~= done);
            }
        }
        let r = Cave::from_parsed(&parsed);
        proof {
            lemma_parsed_views(parsed@);
            assert(parsed_views(parsed@) =~= line_views(whole)) by {
                assert(forall|k: int|
                    0 <= k < whole.len() ==> (#[trigger] line_views(whole)[k]) == valve_line(
                        whole[k],
                    )->0);
                assert(forall|k: int|
                    0 <= k < parsed@.len() ==> (#[trigger] parsed_views(parsed@)[k]) == parsed@[
                    k].dv());
            }
            assert(construction_post(line_views(whole), r));
        }
        r
    }
}

/// The packed key of a state, computed.
pub fn state_key(s: &State) -> (k: u128)
    ensures
        k == key_of(*s),
{
    (s.valves_open as u128) | ((s.location as u128) << 64u128) | ((s.elephant_location as u128)
        << 72u128)
}

/// Merging a state already present at position `i` (and nowhere else) is an
/// in-place max of that entry's score.
pub proof fn lemma_upsert_at(fr: Seq<(State, nat)>, i: int, s: State, p: nat)
    requires
        0 <= i < fr.len(),
        fr[i].0 == s,
        forall|j: int| 0 <= j < fr.len() && j != i ==> (#[trigger] fr[j]).0 != s,
    ensures
        upsert_max(fr, s, p) == fr.update(i, (s, nat_max(fr[i].1, p))),
    decreases i,
{
    if i == 0 {
        assert(upsert_max(fr, s, p) == seq![(s, nat_max(fr[0].1, p))] + fr.drop_first());
        assert(seq![(s, nat_max(fr[0].1, p))] + fr.drop_first() =~= fr.update(
            0,
            (s, nat_max(fr[0].1, p)),
        ));
    } else {
        assert(fr[0].0 != s);
        assert(forall|j: int|
            0 <= j < fr.drop_first().len() && j != i - 1 ==> (#[trigger] fr.drop_first()[j]).0
                != s) by {
            assert(forall|j: int|
                0 <= j < fr.drop_first().len() ==> (#[trigger] fr.drop_first()[j]) == fr[j + 1]);
        }
        assert(fr.drop_first()[i - 1] == fr[i]);
        lemma_upsert_at(fr.drop_first(), i - 1, s, p);
        assert(seq![fr[0]] + fr.drop_first().update(i - 1, (s, nat_max(fr[i].1, p))) =~= fr.update(
            i,
            (s, nat_max(fr[i].1, p)),
        ));
    }
}

/// Merging a state not yet present appends it.
pub proof fn lemma_upsert_absent(fr: Seq<(State, nat)>, s: State, p: nat)
    requires
        forall|j: int| 0 <= j < fr.len() ==> (#[trigger] fr[j]).0 != s,
    ensures
        upsert_max(fr, s, p) == fr.push((s, p)),
    decreases fr.len(),
{
    if fr.len() == 0 {
        assert(upsert_max(fr, s, p) =~= fr.push((s, p)));
    } else {
        assert(fr[0].0 != s);
        assert(forall|j: int|
            0 <= j < fr.drop_first().len() ==> (#[trigger] fr.drop_first()[j]).0 != s) by {
            assert(forall|j: int|
                0 <= j < fr.drop_first().len() ==> (#[trigger] fr.drop_first()[j]) == fr[j + 1]);
        }
        lemma_upsert_absent(fr.drop_first(), s, p);
        assert(seq![fr[0]] + fr.drop_first().push((s, p)) =~= fr.push((s, p)));
    }
}

} // verus!
