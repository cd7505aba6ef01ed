//! The mathematical model of the search: abstract states, the candidate
//! moves of a turn, the recursive definition of the best achievable
//! pressure, and the arithmetic facts that keep the executable search
//! within machine bounds.

use vstd::prelude::*;

use crate::network::{flow_of, has_valve, NetV};
use crate::parse::Valve;

verus! {

/// A candidate move: the valve to open and the hop path to it, as dense
/// indices.
#[verifier::ext_equal]
pub struct MoveM {
    pub target: int,
    pub path: Seq<(int, int)>,
}

/// A move in progress: the move and how many turns of it have elapsed.
#[verifier::ext_equal]
pub struct ProgM {
    pub mv: MoveM,
    pub turns: int,
}

/// One actor: its position and its move in progress, if any.
#[verifier::ext_equal]
pub struct ActorM {
    pub position: int,
    pub prog: Option<ProgM>,
}

/// A search state: the turn budget and counter, the pressure released so
/// far, the pressure released per turn, which valves stand open, and the
/// actor.
#[verifier::ext_equal]
pub struct StateM {
    pub max_turns: int,
    pub turn: int,
    pub pressure: int,
    pub ppt: int,
    pub opened: Seq<bool>,
    pub actor: ActorM,
}

/// The hop pairs of a path, as dense indices.
pub open spec fn hops_of(p: Seq<(crate::parse::Name, crate::parse::Name)>) -> Seq<(int, int)> {
    p.map_values(|h: (crate::parse::Name, crate::parse::Name)| (h.0.idx(), h.1.idx()))
}

/// Which valves an open-valve table marks as open.
pub open spec fn opened_of(m: Seq<Option<()>>) -> Seq<bool> {
    m.map_values(|o: Option<()>| o is Some)
}

/// The cost of a move in turns: its travel hops plus the one turn spent
/// opening the valve.
pub open spec fn cost_m(mv: MoveM) -> int {
    mv.path.len() + 1int
}

/// The turns that remain before the budget runs out.
pub open spec fn rem(s: StateM) -> int {
    if s.max_turns - s.turn >= 0 {
        s.max_turns - s.turn
    } else {
        0
    }
}

/// One turn passes: the per-turn pressure accrues and the counter
/// advances.
pub open spec fn accrue(s: StateM) -> StateM {
    StateM { pressure: s.pressure + s.ppt, turn: s.turn + 1, ..s }
}

/// One simulated step of the move `p`: either the move completes, which
/// opens the target valve, registers its flow and frees the actor, or
/// the actor advances one hop and the elapsed-turn counter grows.
pub open spec fn apply_move(vs: Seq<Option<Valve>>, s: StateM, p: ProgM) -> StateM {
    if p.turns + 1 >= cost_m(p.mv) {
        StateM {
            ppt: s.ppt + flow_of(vs, p.mv.target),
            opened: s.opened.update(p.mv.target, true),
            actor: ActorM { position: p.mv.target, prog: None },
            ..s
        }
    } else {
        StateM {
            actor: ActorM {
                position: p.mv.path[p.turns].1,
                prog: Some(ProgM { turns: p.turns + 1, ..p }),
            },
            ..s
        }
    }
}

/// The move toward `t` that the connection table of `pos` holds.
pub open spec fn move_at(n: NetV, pos: int, t: int) -> MoveM {
    MoveM { target: t, path: hops_of(n.conns[pos]->Some_0[t]->Some_0.0@) }
}

/// The moves from `pos` toward the first `k` possible names whose valves
/// the connection table reaches and that are not yet open, in index
/// order.
pub open spec fn open_cands(n: NetV, opened: Seq<bool>, pos: int, k: int) -> Seq<MoveM>
    decreases k,
{
    if k <= 0 {
        Seq::empty()
    } else {
        let rest = open_cands(n, opened, pos, k - 1);
        if n.conns[pos] is Some && n.conns[pos]->Some_0[k - 1] is Some && !opened[k - 1] {
            rest.push(move_at(n, pos, k - 1))
        } else {
            rest
        }
    }
}

/// The moves whose whole cost fits within `budget` turns, each turned
/// into a move in progress with no turns elapsed, in order.
pub open spec fn cost_filter(budget: int, ms: Seq<MoveM>) -> Seq<ProgM>
    decreases ms.len(),
{
    if ms.len() == 0 {
        Seq::empty()
    } else {
        let rest = cost_filter(budget, ms.drop_last());
        if cost_m(ms.last()) <= budget {
            rest.push(ProgM { mv: ms.last(), turns: 0 })
        } else {
            rest
        }
    }
}

/// The candidate moves of a turn: a move already in progress must be
/// continued and is the only candidate; otherwise every unopened
/// reachable valve whose cost fits the remaining budget.
pub open spec fn cands(n: NetV, s: StateM) -> Seq<ProgM> {
    match s.actor.prog {
        Some(p) => seq![p],
        None => cost_filter(
            s.max_turns - s.turn,
            open_cands(n, s.opened, s.actor.position, 676),
        ),
    }
}

/// The best pressure reachable from `s`: one turn accrues, and either
/// the budget is exhausted, or the best candidate branch is taken, or,
/// with no candidate, the turns idle away.
pub open spec fn best(n: NetV, s: StateM) -> int
    decreases rem(s), 0int, 0int,
{
    let s1 = accrue(s);
    if s1.turn >= s1.max_turns {
        s1.pressure
    } else {
        let cs = cands(n, s1);
        if cs.len() == 0 {
            best(n, s1)
        } else {
            best_over(n, s1, cs)
        }
    }
}

/// The outcome of taking candidate `c` from the already-accrued state
/// `s1`.
pub open spec fn branch_best(n: NetV, s1: StateM, c: ProgM) -> int
    decreases rem(s1), 1int, 1int,
{
    best(n, apply_move(n.valves, s1, c))
}

/// The largest outcome among the candidate branches.
pub open spec fn best_over(n: NetV, s1: StateM, cs: Seq<ProgM>) -> int
    decreases rem(s1), 2int, cs.len(),
{
    if cs.len() <= 1 {
        branch_best(n, s1, cs[0])
    } else {
        let prev = best_over(n, s1, cs.drop_last());
        let last = branch_best(n, s1, cs.last());
        if last > prev {
            last
        } else {
            prev
        }
    }
}

/// The flow still locked in the closed valves among the first `k`.
pub open spec fn closed_flow_upto(vs: Seq<Option<Valve>>, opened: Seq<bool>, k: int) -> int
    decreases k,
{
    if k <= 0 {
        0
    } else {
        closed_flow_upto(vs, opened, k - 1) + if vs[k - 1] is Some && !opened[k - 1] {
            flow_of(vs, k - 1)
        } else {
            0int
        }
    }
}

/// The flow still locked in all closed valves.
pub open spec fn closed_flow(vs: Seq<Option<Valve>>, opened: Seq<bool>) -> int {
    closed_flow_upto(vs, opened, 676)
}

/// An upper bound on every pressure total the search can reach from
/// `s`: what has accrued plus, for each remaining turn, the current rate
/// and everything that could still be unlocked.
pub open spec fn potential(vs: Seq<Option<Valve>>, s: StateM) -> int {
    s.pressure + rem(s) * (s.ppt + closed_flow(vs, s.opened))
}

/// A well-formed move in progress: turns elapsed within the cost, the
/// target a real unopened valve, and every remaining hop landing on a
/// real valve.
pub open spec fn prog_wf(vs: Seq<Option<Valve>>, opened: Seq<bool>, p: ProgM) -> bool {
    &&& 0 <= p.turns
    &&& p.turns + 1 <= cost_m(p.mv)
    &&& p.mv.path.len() + 1 <= u64::MAX
    &&& has_valve(vs, p.mv.target)
    &&& !opened[p.mv.target]
    &&& forall|j: int| p.turns <= j < p.mv.path.len() ==> has_valve(vs, #[trigger] p.mv.path[j].1)
}

/// A well-formed search state over the valve table `vs`.
pub open spec fn state_wf(vs: Seq<Option<Valve>>, s: StateM) -> bool {
    &&& 0 <= s.turn <= s.max_turns
    &&& s.pressure >= 0
    &&& s.ppt >= 0
    &&& s.opened.len() == 676
    &&& has_valve(vs, s.actor.position)
    &&& potential(vs, s) <= u64::MAX
    &&& match s.actor.prog {
        Some(p) => prog_wf(vs, s.opened, p),
        None => true,
    }
}

/// No valve open at all.
pub open spec fn all_closed() -> Seq<bool> {
    Seq::new(676, |i: int| false)
}

/// The state a search starts from: no pressure, no rate, nothing open,
/// the actor idle at `start`.
pub open spec fn init_state_m(max_turns: int, start: int) -> StateM {
    StateM {
        max_turns,
        turn: 0,
        pressure: 0,
        ppt: 0,
        opened: all_closed(),
        actor: ActorM { position: start, prog: None },
    }
}

/// Every move the connection table offers is toward a real unopened
/// positive-flow valve along real hops.
pub proof fn lemma_open_cands_wf(n: NetV, opened: Seq<bool>, pos: int, k: int)
    requires
        k <= 676,
        n.conns[pos] is Some ==> crate::network::conn_table_ok(n.valves, pos, n.conns[pos]->Some_0),
    ensures
        forall|i: int| #![trigger open_cands(n, opened, pos, k)[i]]
            0 <= i < open_cands(n, opened, pos, k).len() ==> {
                let m = open_cands(n, opened, pos, k)[i];
                &&& has_valve(n.valves, m.target)
                &&& !opened[m.target]
                &&& 1 <= m.path.len() <= 676
                &&& forall|j: int| 0 <= j < m.path.len() ==> has_valve(
                    n.valves,
                    #[trigger] m.path[j].1,
                )
                &&& flow_of(n.valves, m.target) > 0
            },
    decreases k,
{
    if k > 0 {
        lemma_open_cands_wf(n, opened, pos, k - 1);
        let full = open_cands(n, opened, pos, k);
        let prev = open_cands(n, opened, pos, k - 1);
        assert forall|i: int| 0 <= i < full.len() implies {
            let m = #[trigger] full[i];
            &&& has_valve(n.valves, m.target)
            &&& !opened[m.target]
            &&& 1 <= m.path.len() <= 676
            &&& forall|j: int| 0 <= j < m.path.len() ==> has_valve(n.valves, #[trigger] m.path[j].1)
            &&& flow_of(n.valves, m.target) > 0
        } by {
            if n.conns[pos] is Some && n.conns[pos]->Some_0[k - 1] is Some && !opened[k - 1] {
                if i < prev.len() {
                    assert(full[i] == prev[i]);
                } else {
                    let e = n.conns[pos]->Some_0[k - 1]->Some_0;
                    let m = move_at(n, pos, k - 1);
                    assert(full[i] == m);
                    assert(crate::network::conn_entry_ok(n.valves, pos, k - 1, e));
                    assert(m.path.len() == e.0@.len());
                    assert forall|j: int| 0 <= j < m.path.len() implies has_valve(
                        n.valves,
                        #[trigger] m.path[j].1,
                    ) by {
                        assert(m.path[j] == (e.0@[j].0.idx(), e.0@[j].1.idx()));
                    }
                }
            } else {
                assert(full[i] == prev[i]);
            }
        }
    }
}

/// Every candidate the cost filter keeps starts a listed move afresh
/// and fits the budget.
pub proof fn lemma_cost_filter_wf(budget: int, ms: Seq<MoveM>)
    ensures
        forall|i: int| #![trigger cost_filter(budget, ms)[i]]
            0 <= i < cost_filter(budget, ms).len() ==> {
                let c = cost_filter(budget, ms)[i];
                &&& c.turns == 0
                &&& cost_m(c.mv) <= budget
                &&& exists|j: int| 0 <= j < ms.len() && c.mv == ms[#[trigger] trigger_int(j)]
            },
    decreases ms.len(),
{
    if ms.len() > 0 {
        lemma_cost_filter_wf(budget, ms.drop_last());
        assert forall|i: int|
            0 <= i < cost_filter(budget, ms).len() implies {
            let c = #[trigger] cost_filter(budget, ms)[i];
            &&& c.turns == 0
            &&& cost_m(c.mv) <= budget
            &&& exists|j: int| 0 <= j < ms.len() && c.mv == ms[trigger_int(j)]
        } by {
            let prev = cost_filter(budget, ms.drop_last());
            if i < prev.len() {
                let c = prev[i];
                let j = choose|j: int|
                    0 <= j < ms.drop_last().len() && c.mv == ms.drop_last()[trigger_int(j)];
                assert(ms.drop_last()[j] == ms[j]);
                assert(trigger_int(j) == j);
                assert(cost_filter(budget, ms)[i] == c);
            } else {
                assert(cost_filter(budget, ms)[i] == (ProgM { mv: ms.last(), turns: 0 }));
                assert(trigger_int(ms.len() - 1) == ms.len() - 1);
                assert(ms[ms.len() - 1] == ms.last());
            }
        }
    }
}

/// An identity marker used to pick quantifier instantiations.
pub open spec fn trigger_int(j: int) -> int {
    j
}

/// Locked flow is never negative.
pub proof fn lemma_closed_flow_nonneg(vs: Seq<Option<Valve>>, opened: Seq<bool>, k: int)
    ensures
        closed_flow_upto(vs, opened, k) >= 0,
    decreases k,
{
    if k > 0 {
        lemma_closed_flow_nonneg(vs, opened, k - 1);
    }
}

/// Opening the closed valve `t` moves exactly its flow out of the
/// locked sum.
pub proof fn lemma_closed_flow_open(vs: Seq<Option<Valve>>, opened: Seq<bool>, t: int, k: int)
    requires
        0 <= t < opened.len(),
        k <= opened.len(),
        vs[t] is Some,
        !opened[t],
    ensures
        closed_flow_upto(vs, opened.update(t, true), k) == closed_flow_upto(vs, opened, k) - if t
            < k {
            flow_of(vs, t)
        } else {
            0int
        },
    decreases k,
{
    if k > 0 {
        lemma_closed_flow_open(vs, opened, t, k - 1);
    }
}

/// After a turn accrues from a well-formed non-terminal state, the sum
/// fits the machine and the state stays well formed.
pub proof fn lemma_accrue_wf(vs: Seq<Option<Valve>>, s: StateM)
    requires
        state_wf(vs, s),
        s.turn < s.max_turns,
    ensures
        s.pressure + s.ppt <= u64::MAX,
        state_wf(vs, accrue(s)),
        potential(vs, accrue(s)) <= potential(vs, s),
{
    let cf = closed_flow(vs, s.opened);
    lemma_closed_flow_nonneg(vs, s.opened, 676);
    let r = rem(s);
    assert(r >= 1);
    assert(s.ppt <= r * (s.ppt + cf)) by (nonlinear_arith)
        requires r >= 1, s.ppt >= 0, cf >= 0;
    assert((r - 1) * (s.ppt + cf) == r * (s.ppt + cf) - (s.ppt + cf)) by (nonlinear_arith);
    assert(rem(accrue(s)) == r - 1);
    assert(potential(vs, accrue(s)) == potential(vs, s) - cf);
}

/// Applying a well-formed candidate to a well-formed accrued state
/// keeps the state well formed, never raises the potential, and keeps
/// the new per-turn rate within the machine.
pub proof fn lemma_apply_wf(vs: Seq<Option<Valve>>, s1: StateM, c: ProgM)
    requires
        state_wf(vs, s1),
        s1.turn < s1.max_turns,
        prog_wf(vs, s1.opened, c),
    ensures
        state_wf(vs, apply_move(vs, s1, c)),
        potential(vs, apply_move(vs, s1, c)) <= potential(vs, s1),
        c.turns + 1 >= cost_m(c.mv) ==> s1.ppt + flow_of(vs, c.mv.target) <= u64::MAX,
{
    let cf = closed_flow(vs, s1.opened);
    lemma_closed_flow_nonneg(vs, s1.opened, 676);
    let r = rem(s1);
    assert(r >= 1);
    if c.turns + 1 >= cost_m(c.mv) {
        let t = c.mv.target;
        let f = flow_of(vs, t);
        lemma_closed_flow_open(vs, s1.opened, t, 676);
        lemma_closed_flow_nonneg(vs, s1.opened.update(t, true), 676);
        assert(closed_flow(vs, s1.opened.update(t, true)) == cf - f);
        assert(f <= cf);
        assert(s1.ppt + cf <= r * (s1.ppt + cf)) by (nonlinear_arith)
            requires r >= 1, s1.ppt >= 0, cf >= 0;
        let s2 = apply_move(vs, s1, c);
        assert(s2.ppt + closed_flow(vs, s2.opened) == s1.ppt + cf);
        assert(rem(s2) == r);
        assert(potential(vs, s2) == potential(vs, s1));
    } else {
        let s2 = apply_move(vs, s1, c);
        assert(s2.opened == s1.opened);
        assert(potential(vs, s2) == potential(vs, s1));
        assert(c.turns < c.mv.path.len());
        assert(has_valve(vs, c.mv.path[c.turns].1));
    }
}

/// Shrinking the budget cannot create candidates: a cost filter that
/// keeps nothing at a budget keeps nothing at any smaller one.
proof fn lemma_cost_filter_empty_mono(b1: int, b2: int, ms: Seq<MoveM>)
    requires
        b1 <= b2,
        cost_filter(b2, ms).len() == 0,
    ensures
        cost_filter(b1, ms).len() == 0,
    decreases ms.len(),
{
    if ms.len() > 0 {
        lemma_cost_filter_empty_mono(b1, b2, ms.drop_last());
    }
}

/// A move that fits the budget appears in the cost filter's output.
proof fn lemma_cost_filter_member(b: int, ms: Seq<MoveM>, j: int)
    requires
        0 <= j < ms.len(),
        cost_m(ms[j]) <= b,
    ensures
        exists|idx: int|
            0 <= idx < cost_filter(b, ms).len() && cost_filter(b, ms)[trigger_int(idx)] == (ProgM {
                mv: ms[j],
                turns: 0,
            }),
    decreases ms.len(),
{
    let full = cost_filter(b, ms);
    let prev = cost_filter(b, ms.drop_last());
    if j == ms.len() - 1 {
        assert(trigger_int(full.len() - 1) == full.len() - 1);
        assert(full[full.len() - 1] == (ProgM { mv: ms.last(), turns: 0 }));
    } else {
        assert(ms.drop_last()[j] == ms[j]);
        lemma_cost_filter_member(b, ms.drop_last(), j);
        let idx = choose|idx: int|
            0 <= idx < prev.len() && prev[trigger_int(idx)] == (ProgM { mv: ms[j], turns: 0 });
        assert(prev[idx] == (ProgM { mv: ms[j], turns: 0 }));
        assert(full[idx] == prev[idx]);
        assert(trigger_int(idx) == idx);
    }
}

/// The pressure the idle branch alone accrues is a lower bound on the
/// best: from any state the search releases at least the current rate
/// for every remaining turn.
pub proof fn lemma_best_lower(n: NetV, s: StateM)
    requires
        s.ppt >= 0,
        s.turn <= s.max_turns,
    ensures
        best(n, s) >= s.pressure + rem(s) * s.ppt,
    decreases rem(s),
{
    let s1 = accrue(s);
    if s1.turn >= s1.max_turns {
        assert(rem(s) * s.ppt <= 1 * s.ppt) by (nonlinear_arith)
            requires rem(s) <= 1, s.ppt >= 0;
    } else {
        assert(rem(s1) == rem(s) - 1);
        let cs = cands(n, s1);
        if cs.len() == 0 {
            lemma_best_lower(n, s1);
            assert((rem(s) - 1) * s.ppt == rem(s) * s.ppt - s.ppt) by (nonlinear_arith);
        } else {
            let s2 = apply_move(n.valves, s1, cs[0]);
            assert(s2.ppt >= s1.ppt);
            lemma_best_lower(n, s2);
            lemma_best_over_ge(n, s1, cs, 0);
            assert((rem(s) - 1) * s2.ppt >= (rem(s) - 1) * s.ppt) by (nonlinear_arith)
                requires rem(s) >= 1, s2.ppt >= s.ppt;
            assert((rem(s) - 1) * s.ppt == rem(s) * s.ppt - s.ppt) by (nonlinear_arith);
            assert(rem(s2) == rem(s) - 1);
        }
    }
}

/// The best over a candidate list is at least each single branch.
pub proof fn lemma_best_over_ge(n: NetV, s1: StateM, cs: Seq<ProgM>, i: int)
    requires
        0 <= i < cs.len(),
    ensures
        best_over(n, s1, cs) >= branch_best(n, s1, cs[i]),
    decreases cs.len(),
{
    if cs.len() > 1 {
        if i < cs.len() - 1 {
            assert(cs.drop_last()[i] == cs[i]);
            lemma_best_over_ge(n, s1, cs.drop_last(), i);
        }
    }
}

/// The best over a non-empty candidate list is attained by one of its
/// branches.
pub proof fn lemma_best_over_attained(n: NetV, s1: StateM, cs: Seq<ProgM>)
    requires
        cs.len() >= 1,
    ensures
        exists|i: int|
            0 <= i < cs.len() && best_over(n, s1, cs) == branch_best(n, s1, cs[trigger_int(i)]),
    decreases cs.len(),
{
    if cs.len() == 1 {
        assert(trigger_int(0) == 0);
        assert(best_over(n, s1, cs) == branch_best(n, s1, cs[0]));
    } else {
        let prev = best_over(n, s1, cs.drop_last());
        let last = branch_best(n, s1, cs.last());
        if last > prev {
            assert(trigger_int(cs.len() - 1) == cs.len() - 1);
            assert(best_over(n, s1, cs) == branch_best(n, s1, cs[cs.len() - 1]));
        } else {
            lemma_best_over_attained(n, s1, cs.drop_last());
            let i = choose|i: int|
                0 <= i < cs.drop_last().len() && prev == branch_best(
                    n,
                    s1,
                    cs.drop_last()[trigger_int(i)],
                );
            assert(cs.drop_last()[i] == cs[i]);
            assert(trigger_int(i) == i);
        }
    }
}

/// Idling terminates and only accrues: from a state whose actor is free
/// and that has no legal candidate move, the recursion reaches the end
/// of the budget and the best pressure is exactly the current total
/// plus the current rate for every remaining turn.
pub proof fn lemma_idle_run(n: NetV, s: StateM)
    requires
        s.turn < s.max_turns,
        s.actor.prog is None,
        cands(n, accrue(s)).len() == 0,
    ensures
        best(n, s) == s.pressure + rem(s) * s.ppt,
    decreases rem(s),
{
    let s1 = accrue(s);
    if s1.turn >= s1.max_turns {
        assert(rem(s) == 1);
        assert(1 * s.ppt == s.ppt) by (nonlinear_arith);
    } else {
        let ms = open_cands(n, s1.opened, s1.actor.position, 676);
        lemma_cost_filter_empty_mono(
            s1.max_turns - s1.turn - 1,
            s1.max_turns - s1.turn,
            ms,
        );
        assert(accrue(s1).opened == s1.opened && accrue(s1).actor == s1.actor);
        assert(cands(n, accrue(s1)).len() == 0);
        lemma_idle_run(n, s1);
        assert((rem(s) - 1) * s.ppt == rem(s) * s.ppt - s.ppt) by (nonlinear_arith);
    }
}

/// Raising the turn budget never lowers the best achievable pressure:
/// for two states equal in everything but the budget, the larger budget
/// achieves at least as much.
pub proof fn lemma_best_monotonic(n: NetV, sa: StateM, sb: StateM)
    requires
        sa.ppt >= 0,
        0 <= sa.turn <= sa.max_turns,
        sb == (StateM { max_turns: sb.max_turns, ..sa }),
        sa.max_turns <= sb.max_turns,
    ensures
        best(n, sa) <= best(n, sb),
    decreases rem(sa),
{
    let a1 = accrue(sa);
    let b1 = accrue(sb);
    assert(b1 == (StateM { max_turns: sb.max_turns, ..a1 }));
    if a1.turn >= sa.max_turns {
        if b1.turn >= sb.max_turns {
        } else {
            lemma_best_lower(n, sb);
            assert(rem(sb) * sb.ppt >= 1 * sb.ppt) by (nonlinear_arith)
                requires rem(sb) >= 1, sb.ppt >= 0;
        }
    } else {
        let csa = cands(n, a1);
        let csb = cands(n, b1);
        if csa.len() == 0 {
            assert(sa.actor.prog is None);
            lemma_cost_filter_empty_mono(
                a1.max_turns - a1.turn - 1,
                a1.max_turns - a1.turn,
                open_cands(n, a1.opened, a1.actor.position, 676),
            );
            assert(accrue(a1).opened == a1.opened && accrue(a1).actor == a1.actor);
            lemma_idle_run(n, sa);
            lemma_best_lower(n, sb);
            assert(rem(sb) * sb.ppt >= rem(sa) * sa.ppt) by (nonlinear_arith)
                requires rem(sb) >= rem(sa) >= 0, sa.ppt >= 0, sb.ppt == sa.ppt;
        } else {
            lemma_best_over_attained(n, a1, csa);
            let i = choose|i: int|
                0 <= i < csa.len() && best_over(n, a1, csa) == branch_best(
                    n,
                    a1,
                    csa[trigger_int(i)],
                );
            assert(trigger_int(i) == i);
            let c = csa[i];
            let a2 = apply_move(n.valves, a1, c);
            let b2 = apply_move(n.valves, b1, c);
            assert(b2 == (StateM { max_turns: sb.max_turns, ..a2 }));
            assert(a2.ppt >= 0);
            assert(rem(a2) == rem(sa) - 1);
            lemma_best_monotonic(n, a2, b2);
            match a1.actor.prog {
                Some(p) => {
                    assert(csb[0] == c);
                    lemma_best_over_ge(n, b1, csb, 0);
                },
                None => {
                    let ms = open_cands(n, a1.opened, a1.actor.position, 676);
                    lemma_cost_filter_wf(a1.max_turns - a1.turn, ms);
                    assert(cost_filter(a1.max_turns - a1.turn, ms)[i] == c);
                    let j = choose|j: int| 0 <= j < ms.len() && c.mv == ms[trigger_int(j)];
                    assert(trigger_int(j) == j);
                    lemma_cost_filter_member(b1.max_turns - b1.turn, ms, j);
                    let idx = choose|idx: int|
                        0 <= idx < csb.len() && csb[trigger_int(idx)] == (ProgM {
                            mv: ms[j],
                            turns: 0,
                        });
                    assert(trigger_int(idx) == idx);
                    assert(csb[idx] == c);
                    lemma_best_over_ge(n, b1, csb, idx);
                },
            }
        }
    }
}

/// Search monotonicity at the start state: for one network and start
/// valve, raising the turn budget never lowers the best achievable
/// pressure.
pub proof fn lemma_search_monotonic(n: NetV, start: int, m1: int, m2: int)
    requires
        0 <= m1 <= m2,
    ensures
        best(n, init_state_m(m1, start)) <= best(n, init_state_m(m2, start)),
{
    lemma_best_monotonic(n, init_state_m(m1, start), init_state_m(m2, start));
}

} // verus!
