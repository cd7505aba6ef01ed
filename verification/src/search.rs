//! The search engine: exhaustive recursive exploration of the legal
//! move sequences over a fixed turn budget, returning a terminal state
//! whose pressure is the best achievable.

use vstd::prelude::*;

use crate::model::{
    accrue, all_closed, apply_move, best, best_over, branch_best, cands, closed_flow, cost_filter,
    cost_m, hops_of, init_state_m, lemma_accrue_wf, lemma_apply_wf, lemma_cost_filter_wf,
    lemma_open_cands_wf, move_at, open_cands, opened_of, prog_wf, rem, state_wf, ActorM, MoveM,
    ProgM, StateM,
};
use crate::network::{copy_path, flow_of, has_valve, Network, Path};
use crate::parse::{Name, NameMap};

verus! {

/// A candidate action: a target valve and the precomputed path to it.
pub struct Move {
    pub target: Name,
    pub path: Path,
}

impl View for Move {
    type V = MoveM;

    open spec fn view(&self) -> MoveM {
        MoveM { target: self.target.idx(), path: hops_of(self.path@) }
    }
}

impl Move {
    /// All names the move carries are well formed.
    pub open spec fn names_wf(self) -> bool {
        &&& self.target.wf()
        &&& forall|j: int| #![trigger self.path@[j]]
            0 <= j < self.path@.len() ==> self.path@[j].0.wf() && self.path@[j].1.wf()
    }

    /// The number of turns the move takes: its travel turns plus the
    /// one turn spent opening the valve.
    pub fn cost(&self) -> (r: u64)
        requires
            self.path@.len() + 1 <= u64::MAX,
        ensures
            r == cost_m(self@),
    {
        let travel_turns = self.path.len() as u64;
        let open_turns = 1u64;
        travel_turns + open_turns
    }

    /// A fresh move with the same target and path.
    fn duplicate(&self) -> (r: Move)
        ensures
            r@ == self@,
            r.names_wf() == self.names_wf(),
            r.target == self.target,
            r.path@ == self.path@,
    {
        Move { target: self.target, path: copy_path(&self.path) }
    }
}

/// A move an actor is in the middle of: the move plus the turns already
/// spent on it.
pub struct InProgressMove {
    pub mv: Move,
    pub turns: u64,
}

impl View for InProgressMove {
    type V = ProgM;

    open spec fn view(&self) -> ProgM {
        ProgM { mv: self.mv@, turns: self.turns as int }
    }
}

impl InProgressMove {
    /// Starts a move with no turns elapsed.
    pub fn new(mv: Move) -> (r: Self)
        ensures
            r.mv == mv,
            r.turns == 0,
            r@ == (ProgM { mv: mv@, turns: 0 }),
    {
        Self { mv, turns: 0 }
    }

    /// A fresh in-progress move with the same contents.
    fn duplicate(&self) -> (r: InProgressMove)
        ensures
            r@ == self@,
            r.mv.names_wf() == self.mv.names_wf(),
            r.turns == self.turns,
            r.mv.target == self.mv.target,
            r.mv.path@ == self.mv.path@,
    {
        InProgressMove { mv: self.mv.duplicate(), turns: self.turns }
    }
}

/// One actor: where it stands and what it is doing.
pub struct Actor {
    pub position: Name,
    pub in_progress_move: Option<InProgressMove>,
}

impl View for Actor {
    type V = ActorM;

    open spec fn view(&self) -> ActorM {
        ActorM {
            position: self.position.idx(),
            prog: match self.in_progress_move {
                Some(p) => Some(p@),
                None => None,
            },
        }
    }
}

impl Actor {
    /// All names the actor carries are well formed.
    pub open spec fn names_wf(self) -> bool {
        &&& self.position.wf()
        &&& match self.in_progress_move {
            Some(p) => p.mv.names_wf(),
            None => true,
        }
    }
}

/// The per-branch mutable part of the state shared by the actors: the
/// pressure released each turn and the set of opened valves.
pub struct StateInner {
    pub pressure_per_turn: u64,
    pub open_valves: NameMap<()>,
}

/// A fresh open-valve table with the same contents.
fn copy_open(m: &NameMap<()>) -> (r: NameMap<()>)
    requires
        m.wf(),
    ensures
        r.wf(),
        r@ == m@,
{
    let mut r: NameMap<()> = NameMap::new();
    let mut k: usize = 0;
    while k < 676
        invariant
            m.wf(),
            r.wf(),
            k <= 676,
            forall|i: int| 0 <= i < k ==> r@[i] == m@[i],
            forall|i: int| k <= i < 676 ==> r@[i] is None,
        decreases 676 - k,
    {
        let nm = Name::from_usize(k);
        if m.contains(nm) {
            r.insert(nm, ());
        }
        k += 1;
    }
    proof {
        assert(forall|i: int| 0 <= i < 676 && m@[i] is Some ==> m@[i] == Some(()));
        assert(r@ =~= m@);
    }
    r
}

impl Actor {
    /// Advances this actor by one simulated step of its move in
    /// progress, if it has one: the move either completes, opening the
    /// target valve and raising the per-turn rate permanently, or
    /// advances one hop along its path.
    fn step(&mut self, net: &Network, state: &mut StateInner)
        requires
            net.wf(),
            old(self).names_wf(),
            old(state).open_valves.wf(),
            match old(self)@.prog {
                Some(p) => prog_wf(net@.valves, opened_of(old(state).open_valves@), p) && (p.turns
                    + 1 >= cost_m(p.mv) ==> old(state).pressure_per_turn + flow_of(
                    net@.valves,
                    p.mv.target,
                ) <= u64::MAX),
                None => true,
            },
        ensures
            final(self).names_wf(),
            final(state).open_valves.wf(),
            ({
                let s0 = StateM {
                    max_turns: 0,
                    turn: 0,
                    pressure: 0,
                    ppt: old(state).pressure_per_turn as int,
                    opened: opened_of(old(state).open_valves@),
                    actor: old(self)@,
                };
                let s2 = match old(self)@.prog {
                    Some(p) => apply_move(net@.valves, s0, p),
                    None => s0,
                };
                &&& final(self)@ == s2.actor
                &&& final(state).pressure_per_turn == s2.ppt
                &&& opened_of(final(state).open_valves@) == s2.opened
            }),
    {
        let opt = self.in_progress_move.take();
        match opt {
            Some(im) => {
                let target = im.mv.target;
                if im.turns + 1 >= im.mv.cost() {
                    self.position = target;
                    let ghost mold = state.open_valves@;
                    state.open_valves.insert(target, ());
                    proof {
                        assert(opened_of(state.open_valves@) =~= opened_of(mold).update(
                            target.idx(),
                            true,
                        ));
                    }
                    let f = net.valve(target).unwrap().flow;
                    state.pressure_per_turn = state.pressure_per_turn + f;
                } else {
                    let plen = im.mv.path.len();
                    proof {
                        assert(im.turns < plen);
                        assert(im.turns as usize == im.turns);
                    }
                    let hop = im.mv.path[im.turns as usize];
                    self.position = hop.1;
                    self.in_progress_move = Some(
                        InProgressMove { mv: im.mv, turns: im.turns + 1 },
                    );
                }
            },
            None => {},
        }
    }
}

/// The search frontier's snapshot: budget, turn counter, accumulated
/// pressure, the shared inner state, and the actor.
pub struct State {
    max_turns: u64,
    turn: u64,
    pressure: u64,
    inner: StateInner,
    actor: Actor,
}

impl View for State {
    type V = StateM;

    closed spec fn view(&self) -> StateM {
        StateM {
            max_turns: self.max_turns as int,
            turn: self.turn as int,
            pressure: self.pressure as int,
            ppt: self.inner.pressure_per_turn as int,
            opened: opened_of(self.inner.open_valves@),
            actor: self.actor@,
        }
    }
}

impl State {
    /// The state invariant: every name it carries is well formed, the
    /// open-valve table has its full size, and the abstract state is
    /// well formed over the network's valves.
    pub closed spec fn wf(self, net: Network) -> bool {
        &&& self.actor.names_wf()
        &&& self.inner.open_valves.wf()
        &&& state_wf(net@.valves, self@)
    }

    /// A fresh search state: no turns spent, no pressure, no rate,
    /// every valve closed, the actor idle at `start`.
    pub fn new(net: &Network, max_turns: u64, start: Name) -> (r: State)
        requires
            net.wf(),
            start.wf(),
            has_valve(net@.valves, start.idx()),
            1 <= max_turns,
            (max_turns as int) * closed_flow(net@.valves, all_closed()) <= u64::MAX,
        ensures
            r.wf(*net),
            r@ == init_state_m(max_turns as int, start.idx()),
    {
        let r = State {
            max_turns,
            turn: 0,
            pressure: 0,
            inner: StateInner { pressure_per_turn: 0, open_valves: NameMap::new() },
            actor: Actor { position: start, in_progress_move: None },
        };
        proof {
            assert(opened_of(r.inner.open_valves@) =~= all_closed());
            assert(r@ =~= init_state_m(max_turns as int, start.idx()));
            assert(rem(r@) == max_turns as int);
        }
        r
    }

    /// The pressure released so far.
    pub fn pressure(&self) -> (r: u64)
        ensures
            r == self@.pressure,
    {
        self.pressure
    }

    /// The turns already spent.
    pub fn turn(&self) -> (r: u64)
        ensures
            r == self@.turn,
    {
        self.turn
    }

    /// The whole turn budget.
    pub fn max_turns(&self) -> (r: u64)
        ensures
            r == self@.max_turns,
    {
        self.max_turns
    }

    /// The turns that remain before the budget runs out.
    pub fn turns_left(&self) -> (r: u64)
        requires
            self@.turn <= self@.max_turns,
        ensures
            r == self@.max_turns - self@.turn,
    {
        self.max_turns - self.turn
    }

    /// Applies one turn: the per-turn pressure accrues and the counter
    /// advances. Returns whether any turns remain.
    fn step(&mut self) -> (r: bool)
        requires
            old(self)@.pressure + old(self)@.ppt <= u64::MAX,
            old(self)@.turn < old(self)@.max_turns,
        ensures
            final(self)@ == accrue(old(self)@),
            final(self).actor == old(self).actor,
            final(self).inner == old(self).inner,
            r == (final(self)@.turn < final(self)@.max_turns),
    {
        self.pressure = self.pressure + self.inner.pressure_per_turn;
        self.turn = self.turn + 1;
        proof {
            assert(self@ =~= accrue(old(self)@));
        }
        if self.turn >= self.max_turns {
            return false;
        }
        true
    }

    /// A fresh state with the same contents.
    fn duplicate(&self) -> (r: State)
        requires
            self.inner.open_valves.wf(),
        ensures
            r@ == self@,
            r.actor.names_wf() == self.actor.names_wf(),
            r.inner.open_valves.wf(),
            r.actor.position == self.actor.position,
    {
        let r = State {
            max_turns: self.max_turns,
            turn: self.turn,
            pressure: self.pressure,
            inner: StateInner {
                pressure_per_turn: self.inner.pressure_per_turn,
                open_valves: copy_open(&self.inner.open_valves),
            },
            actor: Actor {
                position: self.actor.position,
                in_progress_move: match &self.actor.in_progress_move {
                    Some(p) => Some(p.duplicate()),
                    None => None,
                },
            },
        };
        proof {
            assert(r@ =~= self@);
        }
        r
    }

    /// Computes every move from `position` toward an unopened reachable
    /// positive-flow valve, in index order, regardless of cost.
    #[verifier::loop_isolation(false)]
    pub fn moves(&self, net: &Network, position: Name) -> (r: Vec<Move>)
        requires
            net.wf(),
            self.wf(*net),
            position.wf(),
            has_valve(net@.valves, position.idx()),
        ensures
            r@.map_values(|m: Move| m@) == open_cands(net@, self@.opened, position.idx(), 676),
            forall|i: int| 0 <= i < r@.len() ==> (#[trigger] r@[i]).names_wf(),
    {
        let ct = net.conns_of(position).unwrap();
        let ghost pos = position.idx();
        let mut r: Vec<Move> = Vec::new();
        let mut k: usize = 0;
        while k < 676
            invariant
                k <= 676,
                ct@ == net@.conns[pos]->Some_0,
                r@.map_values(|m: Move| m@) == open_cands(net@, self@.opened, pos, k as int),
                forall|i: int| 0 <= i < r@.len() ==> (#[trigger] r@[i]).names_wf(),
            decreases 676 - k,
        {
            let nm = Name::from_usize(k);
            let ghost rold = r@;
            if let Some(e) = ct.get(nm) {
                if !self.inner.open_valves.contains(nm) {
                    let m = Move { target: nm, path: copy_path(&e.0) };
                    proof {
                        assert(net@.conns[pos]->Some_0[k as int] == Some(*e));
                        assert(crate::network::conn_entry_ok(net@.valves, pos, k as int, *e));
                        assert(m@ == move_at(net@, pos, k as int));
                        assert forall|j: int| 0 <= j < m.path@.len() implies (
                        #[trigger] m.path@[j]).0.wf() && m.path@[j].1.wf() by {
                            assert(crate::network::path_ok(net@.valves, pos, k as int, e.0@));
                            assert(e.0@[j].0.wf() && e.0@[j].1.wf());
                        }
                        assert(m.names_wf());
                    }
                    r.push(m);
                    proof {
                        assert(r@.map_values(|mm: Move| mm@) =~= rold.map_values(
                            |mm: Move| mm@,
                        ).push(m@));
                    }
                }
            }
            k += 1;
        }
        r
    }
}

impl State {
    /// Collects the candidate moves of the already-accrued state
    /// `state`: the forced continuation of a move in progress, or every
    /// unopened reachable valve whose cost fits the remaining turns.
    #[verifier::loop_isolation(false)]
    fn collect_candidates(&self, net: &Network, state: &State) -> (r: Vec<InProgressMove>)
        requires
            net.wf(),
            self.wf(*net),
            state.wf(*net),
            state@ == accrue(self@),
            state@.turn <= state@.max_turns,
        ensures
            r@.map_values(|c: InProgressMove| c@) == cands(net@, state@),
            forall|i: int| 0 <= i < r@.len() ==> (#[trigger] r@[i]).mv.names_wf(),
    {
        let ghost s1v = state@;
        let mut cands_v: Vec<InProgressMove> = Vec::new();
        match &state.actor.in_progress_move {
            Some(p) => {
                cands_v.push(p.duplicate());
                proof {
                    assert(cands_v@.map_values(|c: InProgressMove| c@) =~= cands(net@, s1v));
                }
            },
            None => {
                let mvs = self.moves(net, self.actor.position);
                let budget = state.turns_left();
                let ghost msm = mvs@.map_values(|m: Move| m@);
                proof {
                    assert(self@.opened == s1v.opened);
                    assert(self@.actor == s1v.actor);
                    assert(msm == open_cands(net@, s1v.opened, s1v.actor.position, 676));
                    lemma_open_cands_wf(net@, s1v.opened, s1v.actor.position, 676);
                }
                let mut j: usize = 0;
                while j < mvs.len()
                    invariant
                        j <= mvs@.len(),
                        cands_v@.map_values(|c: InProgressMove| c@) == cost_filter(
                            budget as int,
                            msm.take(j as int),
                        ),
                        forall|i: int| 0 <= i < cands_v@.len()
                            ==> (#[trigger] cands_v@[i]).mv.names_wf(),
                    decreases mvs@.len() - j,
                {
                    proof {
                        assert(msm[j as int] == mvs@[j as int]@);
                        assert(open_cands(net@, s1v.opened, s1v.actor.position, 676)[j as int]
                            == msm[j as int]);
                    }
                    let c = mvs[j].cost();
                    let ghost cvold = cands_v@;
                    if c <= budget {
                        cands_v.push(InProgressMove::new(mvs[j].duplicate()));
                    }
                    proof {
                        assert(msm.take(j as int + 1).drop_last() =~= msm.take(j as int));
                        assert(msm.take(j as int + 1).last() == msm[j as int]);
                        if c <= budget {
                            assert(cands_v@.map_values(|cc: InProgressMove| cc@) =~= cvold
                                .map_values(|cc: InProgressMove| cc@).push(
                                ProgM { mv: msm[j as int], turns: 0 },
                            ));
                        }
                    }
                    j += 1;
                }
                proof {
                    assert(msm.take(msm.len() as int) =~= msm);
                }
            },
        }
        cands_v
    }

    /// Every candidate the collection yields is a well-formed move in
    /// progress for the accrued state.
    proof fn lemma_candidates_wf(net: Network, s1v: StateM)
        requires
            net.wf(),
            state_wf(net@.valves, s1v),
        ensures
            forall|i: int| 0 <= i < cands(net@, s1v).len() ==> prog_wf(
                net@.valves,
                s1v.opened,
                #[trigger] cands(net@, s1v)[i],
            ),
    {
        let vs = net@.valves;
        let csm = cands(net@, s1v);
        assert forall|i: int| 0 <= i < csm.len() implies prog_wf(
            vs,
            s1v.opened,
            #[trigger] csm[i],
        ) by {
            match s1v.actor.prog {
                Some(p) => {
                    assert(csm[i] == p);
                },
                None => {
                    let ms = open_cands(net@, s1v.opened, s1v.actor.position, 676);
                    lemma_open_cands_wf(net@, s1v.opened, s1v.actor.position, 676);
                    lemma_cost_filter_wf(s1v.max_turns - s1v.turn, ms);
                    let c = csm[i];
                    let jj = choose|j: int|
                        0 <= j < ms.len() && c.mv == ms[crate::model::trigger_int(j)];
                    assert(crate::model::trigger_int(jj) == jj);
                    assert(c.mv == ms[jj]);
                },
            }
        }
    }

    /// Recursively explores the remaining turns for one actor and
    /// returns a terminal state with the best achievable accumulated
    /// pressure, tracking the best branch seen so far and keeping the
    /// first among branches of equal pressure.
    #[verifier::loop_isolation(false)]
    #[verifier::rlimit(100)]
    pub fn run_manual(&self, net: &Network) -> (r: State)
        requires
            net.wf(),
            self.wf(*net),
            self@.turn < self@.max_turns,
        ensures
            r.wf(*net),
            r@.max_turns == self@.max_turns,
            r@.turn == r@.max_turns,
            r@.pressure == best(net@, self@),
        decreases self@.max_turns - self@.turn,
    {
        let ghost vs = net@.valves;
        proof {
            lemma_accrue_wf(vs, self@);
        }
        let mut state = self.duplicate();
        let cont = state.step();
        let ghost s1v = state@;
        proof {
            assert(s1v == accrue(self@));
            assert(state.wf(*net));
        }
        if !cont {
            return state;
        }
        let cands_v = self.collect_candidates(net, &state);
        let ghost csm = cands_v@.map_values(|c: InProgressMove| c@);
        proof {
            assert(csm == cands(net@, s1v));
            Self::lemma_candidates_wf(*net, s1v);
        }
        if cands_v.len() == 0 {
            let r = state.run_manual(net);
            return r;
        }
        let mut best_st: Option<State> = None;
        let mut i: usize = 0;
        while i < cands_v.len()
            invariant
                i <= cands_v@.len(),
                match best_st {
                    Some(b) => {
                        &&& i > 0
                        &&& b.wf(*net)
                        &&& b@.max_turns == s1v.max_turns
                        &&& b@.turn == b@.max_turns
                        &&& b@.pressure == best_over(net@, s1v, csm.take(i as int))
                    },
                    None => i == 0,
                },
            decreases cands_v@.len() - i,
        {
            let c = &cands_v[i];
            let mut next = state.duplicate();
            next.actor.in_progress_move = Some(c.duplicate());
            proof {
                assert(prog_wf(vs, s1v.opened, csm[i as int]));
                lemma_apply_wf(vs, s1v, csm[i as int]);
            }
            next.actor.step(net, &mut next.inner);
            proof {
                assert(next@ =~= apply_move(vs, s1v, csm[i as int]));
                assert(next.wf(*net));
            }
            let end = next.run_manual(net);
            proof {
                assert(end@.pressure == branch_best(net@, s1v, csm[i as int]));
            }
            let take_it = match &best_st {
                Some(b) => end.pressure > b.pressure,
                None => true,
            };
            if take_it {
                best_st = Some(end);
            }
            proof {
                assert(csm.take(i as int + 1).drop_last() =~= csm.take(i as int));
                assert(csm.take(i as int + 1).last() == csm[i as int]);
            }
            i += 1;
        }
        proof {
            assert(csm.take(csm.len() as int) =~= csm);
        }
        best_st.unwrap()
    }

    /// Recursively explores the remaining turns for one actor and
    /// returns a terminal state with the best achievable accumulated
    /// pressure, folding the branches as a single maximum-by-pressure
    /// pass that keeps the last among branches of equal pressure. Both
    /// strategies return the same maximal pressure.
    #[verifier::loop_isolation(false)]
    #[verifier::rlimit(100)]
    pub fn run_max_by_key(&self, net: &Network) -> (r: State)
        requires
            net.wf(),
            self.wf(*net),
            self@.turn < self@.max_turns,
        ensures
            r.wf(*net),
            r@.max_turns == self@.max_turns,
            r@.turn == r@.max_turns,
            r@.pressure == best(net@, self@),
        decreases self@.max_turns - self@.turn,
    {
        let ghost vs = net@.valves;
        proof {
            lemma_accrue_wf(vs, self@);
        }
        let mut state = self.duplicate();
        let cont = state.step();
        let ghost s1v = state@;
        proof {
            assert(s1v == accrue(self@));
            assert(state.wf(*net));
        }
        if !cont {
            return state;
        }
        let cands_v = self.collect_candidates(net, &state);
        let ghost csm = cands_v@.map_values(|c: InProgressMove| c@);
        proof {
            assert(csm == cands(net@, s1v));
            Self::lemma_candidates_wf(*net, s1v);
        }
        if cands_v.len() == 0 {
            let r = state.run_max_by_key(net);
            return r;
        }
        let mut best_st: Option<State> = None;
        let mut i: usize = 0;
        while i < cands_v.len()
            invariant
                i <= cands_v@.len(),
                match best_st {
                    Some(b) => {
                        &&& i > 0
                        &&& b.wf(*net)
                        &&& b@.max_turns == s1v.max_turns
                        &&& b@.turn == b@.max_turns
                        &&& b@.pressure == best_over(net@, s1v, csm.take(i as int))
                    },
                    None => i == 0,
                },
            decreases cands_v@.len() - i,
        {
            let c = &cands_v[i];
            let mut next = state.duplicate();
            next.actor.in_progress_move = Some(c.duplicate());
            proof {
                assert(prog_wf(vs, s1v.opened, csm[i as int]));
                lemma_apply_wf(vs, s1v, csm[i as int]);
            }
            next.actor.step(net, &mut next.inner);
            proof {
                assert(next@ =~= apply_move(vs, s1v, csm[i as int]));
                assert(next.wf(*net));
            }
            let end = next.run_max_by_key(net);
            proof {
                assert(end@.pressure == branch_best(net@, s1v, csm[i as int]));
            }
            let take_it = match &best_st {
                Some(b) => end.pressure >= b.pressure,
                None => true,
            };
            if take_it {
                best_st = Some(end);
            }
            proof {
                assert(csm.take(i as int + 1).drop_last() =~= csm.take(i as int));
                assert(csm.take(i as int + 1).last() == csm[i as int]);
            }
            i += 1;
        }
        proof {
            assert(csm.take(csm.len() as int) =~= csm);
        }
        best_st.unwrap()
    }
}

/// Builds the conventional starting state — the full thirty-turn budget,
/// the actor idle at valve `AA`, nothing open — and hands it to `f`,
/// which is called exactly once with that state.
pub fn with_state<F: FnOnce(State)>(net: &Network, f: F)
    requires
        net.wf(),
        has_valve(net@.valves, 0),
        30 * closed_flow(net@.valves, all_closed()) <= u64::MAX,
        forall|s: State| s.wf(*net) && s@ == init_state_m(30, 0) ==> call_requires(f, (s,)),
    ensures
        exists|s: State| s@ == init_state_m(30, 0) && s.wf(*net) && call_ensures(f, (s,), ()),
{
    let start = Name(65, 65);
    proof {
        assert(start.idx() == 0);
    }
    let s = State::new(net, 30, start);
    let ghost sg = s;
    f(s);
    proof {
        assert(sg@ == init_state_m(30, 0) && sg.wf(*net) && call_ensures(f, (sg,), ()));
    }
}

} // verus!
