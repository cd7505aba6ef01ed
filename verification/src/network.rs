//! The valve network: the parsed valve table and, for every valve, the
//! breadth-first summary of shortest routes to every reachable
//! positive-flow valve.

use vstd::prelude::*;

use crate::model::{all_closed, closed_flow, closed_flow_upto};
use crate::parse::{spec_name_of, spec_parse_line, Name, NameMap, Valve};

verus! {

/// A route through the tunnels, hop by hop, as (from, to) pairs.
pub type Path = Vec<(Name, Name)>;

/// For one valve: every reachable positive-flow valve, with the shortest
/// hop path to it and its flow rate.
pub type Connections = NameMap<(Path, u64)>;

/// The abstract value of a `Network`: the valve slots and the connection
/// tables, both indexed densely by name.
pub struct NetV {
    pub valves: Seq<Option<Valve>>,
    pub conns: Seq<Option<Seq<Option<(Path, u64)>>>>,
}

/// The network owns the valve table and the per-valve connection tables.
/// Built once, read-only afterwards.
pub struct Network {
    valves: NameMap<Valve>,
    conns: NameMap<Connections>,
}

impl View for Network {
    type V = NetV;

    closed spec fn view(&self) -> NetV {
        NetV {
            valves: self.valves@,
            conns: self.conns@.map_values(
                |o: Option<Connections>|
                    match o {
                        Some(c) => Some(c@),
                        None => None,
                    },
            ),
        }
    }
}

/// Whether `v` is the index of a valve of the network.
pub open spec fn has_valve(vs: Seq<Option<Valve>>, v: int) -> bool {
    0 <= v < 676 && vs[v] is Some
}

/// The valve with index `v`.
pub open spec fn valve_of(vs: Seq<Option<Valve>>, v: int) -> Valve {
    vs[v]->Some_0
}

/// The flow rate of the valve with index `v`.
pub open spec fn flow_of(vs: Seq<Option<Valve>>, v: int) -> int {
    valve_of(vs, v).flow as int
}

/// Whether a tunnel leads directly from valve `a` to valve `b`.
pub open spec fn link_of(vs: Seq<Option<Valve>>, a: int, b: int) -> bool {
    has_valve(vs, a) && exists|j: int|
        0 <= j < valve_of(vs, a).links@.len() && valve_of(vs, a).links@[j].idx() == b
}

/// Whether `p` is a hop path through the tunnels from valve `from` to
/// valve `to`: non-empty, chained, and each hop a real tunnel.
pub open spec fn path_ok(vs: Seq<Option<Valve>>, from: int, to: int, p: Seq<(Name, Name)>) -> bool {
    &&& p.len() >= 1
    &&& p[0].0.idx() == from
    &&& p[p.len() - 1].1.idx() == to
    &&& forall|q: int| #![trigger p[q]]
        0 <= q < p.len() ==> p[q].0.wf() && p[q].1.wf() && has_valve(vs, p[q].1.idx()) && link_of(
            vs,
            p[q].0.idx(),
            p[q].1.idx(),
        )
    &&& forall|q: int| #![trigger p[q]] 0 <= q < p.len() - 1 ==> p[q + 1].0 == p[q].1
}

/// The valve table is well formed: one slot per possible name, every
/// stored valve filed under its own name, and every link naming a valve
/// that is present.
pub open spec fn valves_wf(vs: Seq<Option<Valve>>) -> bool {
    &&& vs.len() == 676
    &&& forall|v: int| #![trigger vs[v]]
        0 <= v < 676 && vs[v] is Some ==> {
            &&& valve_of(vs, v).name.wf()
            &&& valve_of(vs, v).name.idx() == v
            &&& forall|j: int| #![trigger valve_of(vs, v).links@[j]]
                0 <= j < valve_of(vs, v).links@.len() ==> valve_of(vs, v).links@[j].wf() && has_valve(
                    vs,
                    valve_of(vs, v).links@[j].idx(),
                )
        }
}

/// One connection entry for start valve `v`: a positive-flow valve other
/// than `v` itself, its true flow rate, and a tunnel path from `v` to it
/// of bounded length.
pub open spec fn conn_entry_ok(vs: Seq<Option<Valve>>, v: int, t: int, e: (Path, u64)) -> bool {
    &&& t != v
    &&& has_valve(vs, t)
    &&& e.1 == flow_of(vs, t)
    &&& e.1 > 0
    &&& e.0@.len() <= 676
    &&& path_ok(vs, v, t, e.0@)
}

/// Every entry of a connection table is a valid connection entry.
pub open spec fn conn_table_ok(vs: Seq<Option<Valve>>, v: int, c: Seq<Option<(Path, u64)>>) -> bool {
    &&& c.len() == 676
    &&& forall|t: int| #![trigger c[t]]
        0 <= t < 676 && c[t] is Some ==> conn_entry_ok(vs, v, t, c[t]->Some_0)
}

/// A connection table for `v` misses nothing: every positive-flow valve
/// other than `v` that any tunnel path reaches from `v` has an entry.
pub open spec fn conn_table_complete(vs: Seq<Option<Valve>>, v: int, c: Seq<Option<(Path, u64)>>) -> bool {
    forall|t: int, p: Seq<(Name, Name)>| #![trigger path_ok(vs, v, t, p)]
        path_ok(vs, v, t, p) && flow_of(vs, t) > 0 && t != v ==> 0 <= t < 676 && c[t] is Some
}

/// No tunnel path beats a stored one: every entry of a connection
/// table for `v` carries a path no longer than any tunnel path from
/// `v` to that valve.
pub open spec fn conn_table_shortest(vs: Seq<Option<Valve>>, v: int, c: Seq<Option<(Path, u64)>>) -> bool {
    forall|t: int, p: Seq<(Name, Name)>| #![trigger path_ok(vs, v, t, p)]
        0 <= t < 676 && c[t] is Some && path_ok(vs, v, t, p) ==> p.len()
            >= c[t]->Some_0.0@.len()
}

/// The whole network is well formed: the valve table is, and every valve
/// has a connection table whose entries are valid.
pub open spec fn net_wf(n: NetV) -> bool {
    &&& valves_wf(n.valves)
    &&& n.conns.len() == 676
    &&& forall|v: int| #![trigger n.conns[v]]
        0 <= v < 676 ==> ((n.conns[v] is Some) <==> (n.valves[v] is Some))
    &&& forall|v: int| #![trigger n.conns[v]]
        0 <= v < 676 && n.conns[v] is Some ==> conn_table_ok(n.valves, v, n.conns[v]->Some_0)
}

impl Network {
    /// The network invariant that every constructed network establishes.
    pub open spec fn wf(self) -> bool {
        net_wf(self@)
    }

    /// Every connection table of the network is also complete.
    pub open spec fn complete(self) -> bool {
        forall|v: int| #![trigger self@.conns[v]]
            0 <= v < 676 && self@.conns[v] is Some ==> conn_table_complete(
                self@.valves,
                v,
                self@.conns[v]->Some_0,
            )
    }

    /// Every connection table of the network stores shortest paths.
    pub open spec fn shortest(self) -> bool {
        forall|v: int| #![trigger self@.conns[v]]
            0 <= v < 676 && self@.conns[v] is Some ==> conn_table_shortest(
                self@.valves,
                v,
                self@.conns[v]->Some_0,
            )
    }

    /// The flow locked in the network before anything opens: the sum of
    /// every valve's flow rate. Lets callers test the arithmetic bound
    /// that the search constructors require of the turn budget.
    pub fn total_flow(&self) -> (r: u128)
        requires
            self.wf(),
        ensures
            r == closed_flow(self@.valves, all_closed()),
    {
        let mut total: u128 = 0;
        let mut k: usize = 0;
        while k < 676
            invariant
                self.wf(),
                k <= 676,
                total == closed_flow_upto(self@.valves, all_closed(), k as int),
                total <= (k as int) * (u64::MAX as int),
            decreases 676 - k,
        {
            let nm = Name::from_usize(k);
            proof {
                assert(all_closed()[k as int] == false);
                assert((k as int + 1) * (u64::MAX as int) == (k as int) * (u64::MAX as int)
                    + u64::MAX) by (nonlinear_arith);
            }
            if let Some(v) = self.valve(nm) {
                total = total + v.flow as u128;
            }
            k += 1;
        }
        total
    }

    /// The valve stored under `name`, if any.
    pub fn valve(&self, name: Name) -> (r: Option<&Valve>)
        requires
            self.wf(),
            name.wf(),
        ensures
            match r {
                Some(v) => self@.valves[name.idx()] == Some(*v),
                None => self@.valves[name.idx()] is None,
            },
    {
        self.valves.get(name)
    }

    /// The connection table of the valve stored under `name`, if any.
    pub fn conns_of(&self, name: Name) -> (r: Option<&Connections>)
        requires
            self.wf(),
            name.wf(),
        ensures
            match r {
                Some(c) => self@.conns[name.idx()] == Some(c@),
                None => self@.conns[name.idx()] is None,
            },
    {
        let r = self.conns.get(name);
        proof {
            assert(self@.conns[name.idx()] == match self.conns@[name.idx()] {
                Some(c) => Some(c@),
                None => None::<Seq<Option<(Path, u64)>>>,
            });
        }
        r
    }
}

/// One breadth-first table entry for start `s`: the stored flow is the
/// valve's own, and any valve other than `s` carries a tunnel path from
/// `s` of length at most `bound`.
spec fn bfs_entry_ok(vs: Seq<Option<Valve>>, s: int, t: int, e: (Path, u64), bound: int) -> bool {
    &&& e.1 == flow_of(vs, t)
    &&& if t == s {
        e.0@.len() == 0
    } else {
        path_ok(vs, s, t, e.0@) && e.0@.len() <= bound
    }
}

/// Every valve that some tunnel path of at most `d` hops reaches from
/// `s` already has an entry in `c`.
#[verifier::opaque]
spec fn depth_complete(vs: Seq<Option<Valve>>, s: int, c: Seq<Option<(Path, u64)>>, d: int) -> bool {
    forall|t: int, p: Seq<(Name, Name)>| #![trigger path_ok(vs, s, t, p)]
        path_ok(vs, s, t, p) && p.len() <= d ==> 0 <= t < 676 && c[t] is Some
}

/// No tunnel path from `s` is shorter than the path its entry stores.
#[verifier::opaque]
spec fn table_minimal(vs: Seq<Option<Valve>>, s: int, c: Seq<Option<(Path, u64)>>) -> bool {
    forall|t: int, p: Seq<(Name, Name)>| #![trigger path_ok(vs, s, t, p)]
        0 <= t < 676 && c[t] is Some && path_ok(vs, s, t, p) ==> p.len()
            >= c[t]->Some_0.0@.len()
}

/// Dropping the last hop of a path of two or more hops leaves a path to
/// that hop's source.
proof fn lemma_path_prefix(vs: Seq<Option<Valve>>, s: int, t: int, p: Seq<(Name, Name)>)
    requires
        path_ok(vs, s, t, p),
        p.len() >= 2,
    ensures
        path_ok(vs, s, p[p.len() - 2].1.idx(), p.drop_last()),
{
    let p2 = p.drop_last();
    assert(p2[0] == p[0]);
    assert(forall|q: int| 0 <= q < p2.len() ==> p2[q] == p[q]);
}

/// Two table slots hold entries with the same contents: both filled,
/// with equal hop sequences and equal flows.
spec fn entry_eq(a: Option<(Path, u64)>, b: Option<(Path, u64)>) -> bool {
    &&& a is Some
    &&& b is Some
    &&& a->Some_0.0@ == b->Some_0.0@
    &&& a->Some_0.1 == b->Some_0.1
}

/// An all-empty table has count zero.
proof fn lemma_count_some_none<T>(m: Seq<Option<T>>, k: int)
    requires
        forall|i: int| 0 <= i < k ==> m[i] is None,
    ensures
        count_some(m, k) == 0,
    decreases k,
{
    if k > 0 {
        lemma_count_some_none(m, k - 1);
    }
}

/// Every link of valve `t` already has an entry in `c`.
spec fn links_closed(vs: Seq<Option<Valve>>, c: Seq<Option<(Path, u64)>>, t: int) -> bool {
    forall|j: int| #![trigger valve_of(vs, t).links@[j]]
        0 <= j < valve_of(vs, t).links@.len() ==> c[valve_of(vs, t).links@[j].idx()] is Some
}

/// A table that contains the start and is closed under links contains
/// the end of every tunnel path from the start.
proof fn lemma_closed_reach(vs: Seq<Option<Valve>>, c: Seq<Option<(Path, u64)>>, s: int, t: int, p: Seq<(Name, Name)>)
    requires
        valves_wf(vs),
        c.len() == 676,
        0 <= s < 676,
        c[s] is Some,
        forall|x: int| #![trigger c[x]] 0 <= x < 676 && c[x] is Some ==> links_closed(vs, c, x),
        path_ok(vs, s, t, p),
    ensures
        0 <= t < 676,
        c[t] is Some,
    decreases p.len(),
{
    if p.len() == 1 {
        lemma_name_idx_inj(p[0].1);
        assert(link_of(vs, s, t));
        let j = choose|j: int|
            0 <= j < valve_of(vs, s).links@.len() && valve_of(vs, s).links@[j].idx() == t;
        assert(c[valve_of(vs, s).links@[j].idx()] is Some);
    } else {
        let len = p.len() as int;
        let p2 = p.drop_last();
        let mid = p[len - 2].1.idx();
        assert(p2[0] == p[0]);
        assert(forall|q: int| 0 <= q < p2.len() ==> p2[q] == p[q]);
        assert(path_ok(vs, s, mid, p2));
        lemma_closed_reach(vs, c, s, mid, p2);
        lemma_name_idx_inj(p[len - 1].1);
        assert(p[len - 1].0 == p[len - 2].1);
        assert(link_of(vs, mid, t));
        let j = choose|j: int|
            0 <= j < valve_of(vs, mid).links@.len() && valve_of(vs, mid).links@[j].idx() == t;
        assert(c[valve_of(vs, mid).links@[j].idx()] is Some);
    }
}

/// A filled slot makes the count positive.
proof fn lemma_count_some_pos<T>(m: Seq<Option<T>>, k: int, t: int)
    requires
        0 <= t < k,
        m[t] is Some,
    ensures
        count_some(m, k) >= 1,
    decreases k,
{
    lemma_count_some_bounds(m, t);
    if t < k - 1 {
        lemma_count_some_pos(m, k - 1, t);
    }
}

impl Network {
    /// Given a valve name, computes the table of valves that can be
    /// reached from it through the tunnels, each with a hop path there
    /// and its flow rate, by breadth-first layered expansion. Valves
    /// with a flow of 0 are excluded from the result, as is the start
    /// valve itself, but both are traversed as pass-through hops.
    ///
    /// Only the shortest paths are considered, so the expansion ends.
    #[verifier::rlimit(100)]
    pub fn connections(&self, start: Name) -> (r: Connections)
        requires
            valves_wf(self@.valves),
            start.wf(),
            has_valve(self@.valves, start.idx()),
        ensures
            r.wf(),
            conn_table_ok(self@.valves, start.idx(), r@),
            conn_table_complete(self@.valves, start.idx(), r@),
            conn_table_shortest(self@.valves, start.idx(), r@),
    {
        let ghost vs = self@.valves;
        let ghost s = start.idx();
        proof {
            lemma_name_idx_inj(start);
        }
        let start_flow = self.valves.get(start).unwrap().flow;

        let mut connections: Connections = NameMap::new();
        connections.insert(start, (Vec::new(), start_flow));
        let mut current: Connections = NameMap::new();
        current.insert(start, (Vec::new(), start_flow));
        let ghost mut depth: int = 0;
        proof {
            assert(depth_complete(vs, s, connections@, 0)) by {
                reveal(depth_complete);
            }
            assert(table_minimal(vs, s, connections@)) by {
                reveal(table_minimal);
            }
        }

        while !current.is_empty()
            invariant
                vs == self@.valves,
                self.valves.wf(),
                valves_wf(vs),
                start.wf(),
                s == start.idx(),
                0 <= s < 676,
                connections.wf(),
                current.wf(),
                connections@[s] is Some,
                forall|t: int| #![trigger connections@[t]]
                    0 <= t < 676 && connections@[t] is Some ==> has_valve(vs, t) && bfs_entry_ok(
                        vs,
                        s,
                        t,
                        connections@[t]->Some_0,
                        count_some(connections@, 676) - 1,
                    ),
                forall|t: int| #![trigger current@[t]]
                    0 <= t < 676 && current@[t] is Some ==> entry_eq(connections@[t], current@[t]),
                forall|t: int| #![trigger connections@[t]]
                    0 <= t < 676 && connections@[t] is Some && current@[t] is None ==> links_closed(
                        vs,
                        connections@,
                        t,
                    ),
                0 <= depth,
                forall|t: int| #![trigger current@[t]]
                    0 <= t < 676 && current@[t] is Some ==> current@[t]->Some_0.0@.len() == depth,
                forall|t: int| #![trigger connections@[t]]
                    0 <= t < 676 && connections@[t] is Some ==> connections@[t]->Some_0.0@.len()
                        <= depth,
                depth_complete(vs, s, connections@, depth),
                table_minimal(vs, s, connections@),
            decreases 676 - count_some(connections@, 676), count_some(current@, 676),
        {
            let ghost conns0 = connections@;
            let ghost cnt0 = count_some(connections@, 676);
            proof {
                lemma_count_some_bounds(connections@, 676);
                let w = choose|t: int| 0 <= t < 676 && current@[t] is Some;
                lemma_count_some_pos(current@, 676, w);
            }
            let mut next: Connections = NameMap::new();
            proof {
                lemma_count_some_none(next@, 676);
            }
            let mut k: usize = 0;
            while k < 676
                invariant
                    vs == self@.valves,
                    self.valves.wf(),
                    valves_wf(vs),
                    start.wf(),
                    s == start.idx(),
                    0 <= s < 676,
                    k <= 676,
                    connections.wf(),
                    current.wf(),
                    next.wf(),
                    connections@[s] is Some,
                    count_some(connections@, 676) == cnt0 + count_some(next@, 676),
                    forall|t: int| #![trigger connections@[t]]
                        0 <= t < 676 && conns0[t] is Some ==> connections@[t] == conns0[t],
                    forall|t: int| #![trigger connections@[t]]
                        0 <= t < 676 && connections@[t] is Some ==> has_valve(vs, t)
                            && bfs_entry_ok(
                            vs,
                            s,
                            t,
                            connections@[t]->Some_0,
                            count_some(connections@, 676) - 1,
                        ),
                    forall|t: int| #![trigger current@[t]]
                        0 <= t < 676 && current@[t] is Some ==> entry_eq(
                            connections@[t],
                            current@[t],
                        ),
                    forall|t: int| #![trigger next@[t]]
                        0 <= t < 676 && next@[t] is Some ==> entry_eq(connections@[t], next@[t])
                            && conns0[t] is None,
                    forall|t: int| #![trigger connections@[t]]
                        0 <= t < 676 && connections@[t] is Some && next@[t] is None && (current@[t]
                            is None || t < k) ==> links_closed(vs, connections@, t),
                    0 <= depth,
                    forall|t: int| #![trigger current@[t]]
                        0 <= t < 676 && current@[t] is Some ==> current@[t]->Some_0.0@.len()
                            == depth,
                    forall|t: int| #![trigger next@[t]]
                        0 <= t < 676 && next@[t] is Some ==> connections@[t]->Some_0.0@.len()
                            == depth + 1,
                    forall|t: int| #![trigger connections@[t]]
                        0 <= t < 676 && connections@[t] is Some ==> connections@[t]->Some_0.0@.len()
                            <= depth + 1,
                    depth_complete(vs, s, conns0, depth),
                    table_minimal(vs, s, connections@),
                decreases 676 - k,
            {
                let nm = Name::from_usize(k);
                let entry = current.get(nm);
                if let Some(e) = entry {
                    let valve = self.valves.get(nm).unwrap();
                    let mut li: usize = 0;
                    while li < valve.links.len()
                        invariant
                            vs == self@.valves,
                            self.valves.wf(),
                            valves_wf(vs),
                            start.wf(),
                            s == start.idx(),
                            0 <= s < 676,
                            k < 676,
                            li <= valve.links@.len(),
                            connections.wf(),
                            current.wf(),
                            next.wf(),
                            connections@[s] is Some,
                            nm == spec_name_of(k as int),
                            nm.wf(),
                            nm.idx() == k,
                            current@[k as int] is Some,
                            vs[k as int] == Some(*valve),
                            entry_eq(connections@[k as int], current@[k as int]),
                            current@[k as int]->Some_0 == *e,
                            count_some(connections@, 676) == cnt0 + count_some(next@, 676),
                            forall|j: int| #![trigger valve.links@[j]]
                                0 <= j < li ==> connections@[valve.links@[j].idx()] is Some,
                            forall|t: int| #![trigger connections@[t]]
                                0 <= t < 676 && conns0[t] is Some ==> connections@[t] == conns0[t],
                            forall|t: int| #![trigger connections@[t]]
                                0 <= t < 676 && connections@[t] is Some ==> has_valve(vs, t)
                                    && bfs_entry_ok(
                                    vs,
                                    s,
                                    t,
                                    connections@[t]->Some_0,
                                    count_some(connections@, 676) - 1,
                                ),
                            forall|t: int| #![trigger current@[t]]
                                0 <= t < 676 && current@[t] is Some ==> entry_eq(
                                    connections@[t],
                                    current@[t],
                                ),
                            forall|t: int| #![trigger next@[t]]
                                0 <= t < 676 && next@[t] is Some ==> entry_eq(
                                    connections@[t],
                                    next@[t],
                                ) && conns0[t] is None,
                            forall|t: int| #![trigger connections@[t]]
                                0 <= t < 676 && connections@[t] is Some && next@[t] is None && (
                                current@[t] is None || t < k) ==> links_closed(vs, connections@, t),
                            0 <= depth,
                            forall|t: int| #![trigger current@[t]]
                                0 <= t < 676 && current@[t] is Some ==> current@[t]->Some_0.0@.len()
                                    == depth,
                            forall|t: int| #![trigger next@[t]]
                                0 <= t < 676 && next@[t] is Some
                                    ==> connections@[t]->Some_0.0@.len() == depth + 1,
                            forall|t: int| #![trigger connections@[t]]
                                0 <= t < 676 && connections@[t] is Some
                                    ==> connections@[t]->Some_0.0@.len() <= depth + 1,
                            depth_complete(vs, s, conns0, depth),
                            table_minimal(vs, s, connections@),
                        decreases valve.links@.len() - li,
                    {
                        let link = valve.links[li];
                        if !connections.contains(link) {
                            proof {
                                lemma_name_idx_inj(link);
                            }
                            let lv = self.valves.get(link).unwrap();
                            let mut conn_path = copy_path(&e.0);
                            conn_path.push((nm, link));
                            let conn_path2 = copy_path(&conn_path);
                            let ghost before = connections@;
                            let ghost nbefore = next@;
                            connections.insert(link, (conn_path, lv.flow));
                            next.insert(link, (conn_path2, lv.flow));
                            proof {
                                lemma_count_some_set(before, connections@, 676, link.idx());
                                lemma_count_some_set(nbefore, next@, 676, link.idx());
                                lemma_count_some_pos(before, 676, s);
                                let parent = current@[k as int]->Some_0;
                                let p2 = parent.0@.push((nm, link));
                                assert(conn_path@ == p2);
                                if k as int == s {
                                    lemma_name_idx_inj(start);
                                    assert(nm == start);
                                    assert(p2[0].0.idx() == s);
                                } else {
                                    assert(path_ok(vs, s, k as int, parent.0@));
                                    lemma_name_idx_inj(parent.0@[parent.0@.len() - 1].1);
                                    assert(p2[p2.len() - 2].1 == nm);
                                }
                                assert(link_of(vs, k as int, link.idx()));
                                assert(path_ok(vs, s, link.idx(), p2));
                                assert(parent.0@.len() == depth);
                                assert(connections@[link.idx()]->Some_0.0@.len() == depth + 1);
                                assert(table_minimal(vs, s, connections@)) by {
                                    reveal(table_minimal);
                                    reveal(depth_complete);
                                    assert forall|t2: int, p: Seq<(Name, Name)>|
                                        #![trigger path_ok(vs, s, t2, p)]
                                        0 <= t2 < 676 && connections@[t2] is Some && path_ok(
                                            vs,
                                            s,
                                            t2,
                                            p,
                                        ) implies p.len() >= connections@[t2]->Some_0.0@.len() by {
                                        if t2 == link.idx() {
                                            if p.len() <= depth {
                                                assert(conns0[t2] is Some);
                                                assert(before[t2] == conns0[t2]);
                                                assert(false);
                                            }
                                        } else {
                                            assert(connections@[t2] == before[t2]);
                                        }
                                    }
                                }
                            }
                        }
                        li += 1;
                    }
                    proof {
                        assert(links_closed(vs, connections@, k as int));
                    }
                }
                k += 1;
            }
            proof {
                if count_some(next@, 676) == 0 {
                    if exists|t: int| 0 <= t < 676 && next@[t] is Some {
                        let w = choose|t: int| 0 <= t < 676 && next@[t] is Some;
                        lemma_count_some_pos(next@, 676, w);
                    }
                }
                lemma_count_some_bounds(next@, 676);
                lemma_count_some_bounds(connections@, 676);
                assert(depth_complete(vs, s, connections@, depth + 1)) by {
                    reveal(depth_complete);
                    assert forall|t: int, p: Seq<(Name, Name)>| #![trigger path_ok(vs, s, t, p)]
                        path_ok(vs, s, t, p) && p.len() <= depth + 1 implies 0 <= t < 676
                        && connections@[t] is Some by {
                        reveal(depth_complete);
                        lemma_name_idx_inj(p[p.len() - 1].1);
                        if p.len() <= depth {
                            assert(conns0[t] is Some);
                        } else {
                            let tp = if p.len() == 1 {
                                s
                            } else {
                                p[p.len() - 2].1.idx()
                            };
                            if p.len() >= 2 {
                                lemma_path_prefix(vs, s, t, p);
                                assert(path_ok(vs, s, tp, p.drop_last()));
                                assert(conns0[tp] is Some);
                            } else {
                                assert(p[0].0.idx() == s);
                                assert(conns0[s] is Some);
                            }
                            assert(connections@[tp] is Some);
                            assert(next@[tp] is None);
                            assert(links_closed(vs, connections@, tp));
                            assert(link_of(vs, tp, t));
                            let j = choose|j: int|
                                0 <= j < valve_of(vs, tp).links@.len() && valve_of(
                                    vs,
                                    tp,
                                ).links@[j].idx() == t;
                            assert(connections@[valve_of(vs, tp).links@[j].idx()] is Some);
                        }
                    }
                }
                depth = depth + 1;
            }
            current = next;
        }

        proof {
            lemma_count_some_bounds(connections@, 676);
        }
        let mut result: Connections = NameMap::new();
        let mut k: usize = 0;
        let start_idx = start.as_usize();
        while k < 676
            invariant
                vs == self@.valves,
                valves_wf(vs),
                s == start.idx(),
                start_idx == s,
                0 <= s < 676,
                k <= 676,
                connections.wf(),
                result.wf(),
                connections@[s] is Some,
                forall|t: int| #![trigger connections@[t]]
                    0 <= t < 676 && connections@[t] is Some ==> has_valve(vs, t) && bfs_entry_ok(
                        vs,
                        s,
                        t,
                        connections@[t]->Some_0,
                        count_some(connections@, 676) - 1,
                    ),
                forall|t: int| #![trigger connections@[t]]
                    0 <= t < 676 && connections@[t] is Some ==> links_closed(vs, connections@, t),
                forall|t: int| #![trigger result@[t]]
                    0 <= t < 676 ==> ((result@[t] is Some) <==> (t < k && connections@[t] is Some
                        && connections@[t]->Some_0.1 > 0 && t != s)),
                count_some(connections@, 676) <= 676,
                table_minimal(vs, s, connections@),
                forall|t: int| #![trigger result@[t]]
                    0 <= t < 676 && result@[t] is Some ==> conn_entry_ok(
                        vs,
                        s,
                        t,
                        result@[t]->Some_0,
                    ) && result@[t]->Some_0.0@.len() == connections@[t]->Some_0.0@.len(),
            decreases 676 - k,
        {
            let nm = Name::from_usize(k);
            if k != start_idx {
                if let Some(e) = connections.get(nm) {
                    if e.1 > 0 {
                        let pc = copy_path(&e.0);
                        result.insert(nm, (pc, e.1));
                    }
                }
            }
            k += 1;
        }
        proof {
            lemma_count_some_bounds(connections@, 676);
            assert forall|t: int, p: Seq<(Name, Name)>|
                path_ok(vs, s, t, p) && flow_of(vs, t) > 0 && t != s implies 0 <= t < 676
                && result@[t] is Some by {
                lemma_closed_reach(vs, connections@, s, t, p);
            }
            assert(conn_table_shortest(vs, s, result@)) by {
                reveal(table_minimal);
            }
        }
        result
    }
}

/// A failure while building a network.
#[derive(Debug)]
pub enum NetworkError {
    /// A line did not match the valve grammar; holds the offending line.
    ParseLine(Vec<u8>),
    /// A tunnel names a valve that no line defines.
    UnknownValve(Name),
}

/// How many bytes the line starting at `i` holds before its newline or
/// the end of the input.
pub open spec fn line_len(s: Seq<u8>, i: int) -> nat
    decreases s.len() - i,
{
    if i < s.len() && s[i] != 10 {
        1 + line_len(s, i + 1)
    } else {
        0
    }
}

/// Drops one trailing carriage return, so that both `\n` and `\r\n`
/// line endings are accepted.
pub open spec fn strip_cr(l: Seq<u8>) -> Seq<u8> {
    if l.len() > 0 && l[l.len() - 1] == 13 {
        l.drop_last()
    } else {
        l
    }
}

/// The newline-separated lines of the input from position `i` on. A
/// final newline ends the last line rather than opening an empty one.
pub open spec fn lines_from(s: Seq<u8>, i: int) -> Seq<Seq<u8>>
    decreases s.len() - i,
{
    if i < 0 || i >= s.len() {
        Seq::empty()
    } else {
        let j = i + line_len(s, i);
        seq![strip_cr(s.subrange(i, j))] + if j < s.len() {
            lines_from(s, j + 1)
        } else {
            Seq::empty()
        }
    }
}

/// The line starting at `i` runs to the first newline at or after `i`.
proof fn lemma_line_len(s: Seq<u8>, i: int)
    requires
        0 <= i <= s.len(),
    ensures
        i + line_len(s, i) <= s.len(),
        i + line_len(s, i) == s.len() || s[i + line_len(s, i)] == 10,
        forall|q: int| i <= q < i + line_len(s, i) ==> s[q] != 10,
    decreases s.len() - i,
{
    if i < s.len() && s[i] != 10 {
        lemma_line_len(s, i + 1);
    }
}

/// Every line parses as a valve description.
pub open spec fn all_lines_ok(lines: Seq<Seq<u8>>) -> bool {
    forall|i: int| 0 <= i < lines.len() ==> spec_parse_line(lines[i]) is Some
}

/// The index of the first line at or after `i` that fails to parse, or
/// the number of lines when all parse.
pub open spec fn first_bad_from(lines: Seq<Seq<u8>>, i: int) -> int
    decreases lines.len() - i,
{
    if i < 0 || i >= lines.len() {
        lines.len() as int
    } else if spec_parse_line(lines[i]) is None {
        i
    } else {
        first_bad_from(lines, i + 1)
    }
}

/// Skipping over lines that parse does not move the first failure.
proof fn lemma_first_bad_skip(lines: Seq<Seq<u8>>, i: int, li: int)
    requires
        0 <= i <= li <= lines.len(),
        forall|m: int| i <= m < li ==> spec_parse_line(lines[m]) is Some,
    ensures
        first_bad_from(lines, i) == first_bad_from(lines, li),
    decreases li - i,
{
    if i < li {
        lemma_first_bad_skip(lines, i + 1, li);
    }
}

/// The valve slots that the first `k` lines fill: each parsed line files
/// its (name, flow, links) triple under its name, later lines replacing
/// earlier ones of the same name.
pub open spec fn parsed_upto(lines: Seq<Seq<u8>>, k: int) -> Seq<Option<(Name, int, Seq<Name>)>>
    decreases k,
{
    if k <= 0 {
        Seq::new(676, |i: int| None)
    } else {
        match spec_parse_line(lines[k - 1]) {
            Some(e) => parsed_upto(lines, k - 1).update(e.0.idx(), Some(e)),
            None => parsed_upto(lines, k - 1),
        }
    }
}

/// The parsed-slot table always has one slot per possible name.
proof fn lemma_parsed_upto_len(lines: Seq<Seq<u8>>, k: int)
    ensures
        parsed_upto(lines, k).len() == 676,
    decreases k,
{
    if k > 0 {
        lemma_parsed_upto_len(lines, k - 1);
    }
}

/// A stored valve slot holds exactly the data of a parsed slot.
pub open spec fn valve_matches(o: Option<Valve>, e: Option<(Name, int, Seq<Name>)>) -> bool {
    match (o, e) {
        (Some(v), Some(pe)) => v.name == pe.0 && v.flow == pe.1 && v.links@ == pe.2,
        (None, None) => true,
        _ => false,
    }
}

/// Every link of every parsed valve names a valve that was also parsed.
pub open spec fn parsed_links_ok(pv: Seq<Option<(Name, int, Seq<Name>)>>) -> bool {
    forall|v: int, q: int| #![trigger pv[v]->Some_0.2[q]]
        0 <= v < 676 && pv[v] is Some && 0 <= q < pv[v]->Some_0.2.len() ==> 0 <= pv[v]->Some_0.2[q].idx() < 676 && pv[pv[v]->Some_0.2[q].idx()] is Some
}

impl Network {
    /// Parses one valve description per line of `input` and builds the
    /// network, precomputing every valve's connection table. Fails with
    /// the offending line if any line does not match the grammar
    /// exactly, and with the offending name if a tunnel leads to a
    /// valve that no line defines.
    #[verifier::loop_isolation(false)]
    #[verifier::rlimit(100)]
    pub fn new(input: &[u8]) -> (r: Result<Network, NetworkError>)
        ensures
            ({
                let lines = lines_from(input@, 0);
                let pv = parsed_upto(lines, lines.len() as int);
                match r {
                    Ok(net) => {
                        &&& all_lines_ok(lines)
                        &&& parsed_links_ok(pv)
                        &&& net.wf()
                        &&& net.complete()
                        &&& net.shortest()
                        &&& forall|v: int| 0 <= v < 676 ==> valve_matches(net@.valves[v], pv[v])
                    },
                    Err(NetworkError::ParseLine(l)) => {
                        &&& !all_lines_ok(lines)
                        &&& l@ == lines[first_bad_from(lines, 0)]
                    },
                    Err(NetworkError::UnknownValve(nm)) => {
                        &&& all_lines_ok(lines)
                        &&& !parsed_links_ok(pv)
                        &&& nm.wf()
                        &&& pv[nm.idx()] is None
                        &&& exists|v: int, q: int|
                            0 <= v < 676 && pv[v] is Some && 0 <= q < pv[v]->Some_0.2.len() && pv[v]->Some_0.2[q] == nm
                    },
                }
            }),
    {
        let ghost lines = lines_from(input@, 0);
        let mut valves: NameMap<Valve> = NameMap::new();
        let mut pos: usize = 0;
        let ghost mut li: int = 0;
        while pos < input.len()
            invariant
                lines == lines_from(input@, 0),
                0 <= li <= lines.len(),
                pos <= input@.len(),
                lines_from(input@, pos as int) == lines.skip(li),
                forall|m: int| 0 <= m < li ==> spec_parse_line(lines[m]) is Some,
                valves.wf(),
                forall|v: int| 0 <= v < 676 ==> valve_matches(valves@[v], parsed_upto(lines, li)[v]),
                forall|v: int| #![trigger valves@[v]]
                    0 <= v < 676 && valves@[v] is Some ==> valves@[v]->Some_0.name.wf()
                        && valves@[v]->Some_0.name.idx() == v,
                forall|v: int, q: int| #![trigger valves@[v]->Some_0.links@[q]]
                    0 <= v < 676 && valves@[v] is Some && 0 <= q < valves@[v]->Some_0.links@.len()
                        ==> valves@[v]->Some_0.links@[q].wf(),
            decreases input@.len() - pos,
        {
            let mut e: usize = pos;
            while e < input.len() && input[e] != 10
                invariant
                    pos <= e <= input@.len(),
                    forall|q: int| pos <= q < e ==> input@[q] != 10,
                decreases input@.len() - e,
            {
                e += 1;
            }
            proof {
                lemma_line_len(input@, pos as int);
                assert(e as int == pos + line_len(input@, pos as int));
                assert(lines_from(input@, pos as int).len() >= 1);
                assert(lines.skip(li).len() >= 1);
                assert(li < lines.len());
                assert(lines.skip(li)[0] == lines[li]);
            }
            let line_end = if e > pos && input[e - 1] == 13 {
                e - 1
            } else {
                e
            };
            let line = vstd::slice::slice_subrange(input, pos, line_end);
            proof {
                assert(line@ =~= strip_cr(input@.subrange(pos as int, e as int)));
                assert(line@ == lines[li]);
            }
            match Valve::parse(line) {
                None => {
                    proof {
                        lemma_first_bad_skip(lines, 0, li);
                    }
                    let bad = vstd::slice::slice_to_vec(line);
                    return Err(NetworkError::ParseLine(bad));
                },
                Some(v) => {
                    let ghost vold = valves@;
                    let ghost nmidx = v.name.idx();
                    valves.insert(v.name, v);
                    proof {
                        lemma_name_idx_inj(spec_parse_line(lines[li])->Some_0.0);
                        lemma_parsed_upto_len(lines, li);
                        lemma_parsed_upto_len(lines, li + 1);
                        assert(parsed_upto(lines, li + 1) == parsed_upto(lines, li).update(
                            nmidx,
                            Some(spec_parse_line(lines[li])->Some_0),
                        ));
                        li = li + 1;
                        assert(valve_matches(valves@[nmidx], parsed_upto(lines, li)[nmidx]));
                    }
                },
            }
            proof {
                let lprev = li - 1;
                assert(lines.skip(lprev) == lines_from(input@, pos as int));
                assert(lines.skip(lprev).skip(1) =~= lines.skip(li));
                if e < input@.len() {
                    assert(lines_from(input@, pos as int) == seq![lines[lprev]] + lines_from(
                        input@,
                        e as int + 1,
                    ));
                    assert((seq![lines[lprev]] + lines_from(input@, e as int + 1)).skip(1)
                        =~= lines_from(input@, e as int + 1));
                } else {
                    assert(lines_from(input@, pos as int) == seq![lines[lprev]]
                        + Seq::<Seq<u8>>::empty());
                    assert((seq![lines[lprev]] + Seq::<Seq<u8>>::empty()).skip(1)
                        =~= Seq::<Seq<u8>>::empty());
                    assert(lines.skip(li) =~= Seq::<Seq<u8>>::empty());
                }
            }
            pos = if e < input.len() {
                e + 1
            } else {
                e
            };
        }
        proof {
            assert(lines.skip(li).len() == 0);
            assert(li == lines.len());
        }
        let ghost pv = parsed_upto(lines, lines.len() as int);
        proof {
            lemma_parsed_upto_len(lines, lines.len() as int);
        }

        let mut v: usize = 0;
        while v < 676
            invariant
                valves.wf(),
                pv == parsed_upto(lines, lines.len() as int),
                all_lines_ok(lines),
                forall|x: int| 0 <= x < 676 ==> valve_matches(valves@[x], pv[x]),
                forall|x: int, q: int| #![trigger valves@[x]->Some_0.links@[q]]
                    0 <= x < 676 && valves@[x] is Some && 0 <= q < valves@[x]->Some_0.links@.len()
                        ==> valves@[x]->Some_0.links@[q].wf(),
                forall|x: int| #![trigger valves@[x]]
                    0 <= x < 676 && valves@[x] is Some ==> valves@[x]->Some_0.name.wf()
                        && valves@[x]->Some_0.name.idx() == x,
                forall|x: int, q: int| #![trigger valves@[x]->Some_0.links@[q]]
                    0 <= x < v && valves@[x] is Some && 0 <= q < valves@[x]->Some_0.links@.len()
                        ==> valves@[x]->Some_0.links@[q].wf() && 0 <= valves@[x]->Some_0.links@[q].idx() < 676 && valves@[valves@[x]->Some_0.links@[q].idx()] is Some,
            decreases 676 - v,
        {
            let nm = Name::from_usize(v);
            if let Some(valve) = valves.get(nm) {
                let mut q: usize = 0;
                while q < valve.links.len()
                    invariant
                        valves.wf(),
                        v < 676,
                        q <= valve.links@.len(),
                        valves@[v as int] == Some(*valve),
                        pv[v as int] is Some,
                        valve.links@ == pv[v as int]->Some_0.2,
                        all_lines_ok(lines),
                        pv == parsed_upto(lines, lines.len() as int),
                        forall|x: int| 0 <= x < 676 ==> valve_matches(valves@[x], pv[x]),
                        forall|j: int| #![trigger valve.links@[j]]
                            0 <= j < valve.links@.len() ==> valve.links@[j].wf(),
                        forall|j: int| #![trigger valve.links@[j]]
                            0 <= j < q ==> valve.links@[j].wf() && 0 <= valve.links@[j].idx() < 676
                                && valves@[valve.links@[j].idx()] is Some,
                    decreases valve.links@.len() - q,
                {
                    let link = valve.links[q];
                    proof {
                        lemma_name_idx_inj(link);
                    }
                    if !valves.contains(link) {
                        proof {
                            assert(pv[v as int]->Some_0.2[q as int] == link);
                            assert(valve_matches(valves@[link.idx()], pv[link.idx()]));
                            assert(pv[link.idx()] is None);
                            assert(!parsed_links_ok(pv));
                            assert(exists|vv: int, qq: int|
                                0 <= vv < 676 && pv[vv] is Some && 0 <= qq < pv[vv]->Some_0.2.len()
                                    && pv[vv]->Some_0.2[qq] == link);
                        }
                        return Err(NetworkError::UnknownValve(link));
                    }
                    q += 1;
                }
            }
            v += 1;
        }

        proof {
            assert forall|vv: int, q: int|
                0 <= vv < 676 && pv[vv] is Some && 0 <= q < pv[vv]->Some_0.2.len() implies 0 <= pv[vv]->Some_0.2[q].idx() < 676 && pv[pv[vv]->Some_0.2[q].idx()] is Some by {
                assert(valve_matches(valves@[vv], pv[vv]));
                assert(valves@[vv]->Some_0.links@[q] == pv[vv]->Some_0.2[q]);
                assert(valve_matches(valves@[pv[vv]->Some_0.2[q].idx()], pv[pv[vv]->Some_0.2[q].idx()]));
            };
            assert(parsed_links_ok(pv));
        }
        let ghost vseq = valves@;
        let mut net = Network { valves, conns: NameMap::new() };
        proof {
            assert(net@.valves == vseq);
            assert(valves_wf(vseq));
        }
        let mut v: usize = 0;
        while v < 676
            invariant
                net@.valves == vseq,
                valves_wf(vseq),
                net.valves.wf(),
                net.conns.wf(),
                forall|x: int| #![trigger net@.conns[x]]
                    0 <= x < 676 ==> ((net@.conns[x] is Some) <==> (x < v && vseq[x] is Some)),
                forall|x: int| #![trigger net@.conns[x]]
                    0 <= x < 676 && net@.conns[x] is Some ==> conn_table_ok(
                        vseq,
                        x,
                        net@.conns[x]->Some_0,
                    ) && conn_table_complete(vseq, x, net@.conns[x]->Some_0)
                        && conn_table_shortest(vseq, x, net@.conns[x]->Some_0),
            decreases 676 - v,
        {
            let nm = Name::from_usize(v);
            if net.valves.contains(nm) {
                let c = net.connections(nm);
                let ghost oldc = net@.conns;
                let ghost cview = c@;
                net.conns.insert(nm, c);
                proof {
                    assert(net@.conns =~= oldc.update(v as int, Some(cview)));
                }
            }
            v += 1;
        }
        proof {
            assert(net.wf());
        }
        Ok(net)
    }
}

/// A fresh copy of a hop path with the same contents.
pub fn copy_path(p: &Path) -> (r: Path)
    ensures
        r@ == p@,
{
    let mut r: Path = Vec::new();
    let mut q: usize = 0;
    while q < p.len()
        invariant
            q <= p@.len(),
            r@ == p@.take(q as int),
        decreases p@.len() - q,
    {
        r.push(p[q]);
        proof {
            assert(p@.take(q as int).push(p@[q as int]) =~= p@.take(q as int + 1));
        }
        q += 1;
    }
    proof {
        assert(p@.take(p@.len() as int) =~= p@);
    }
    r
}

/// How many of the first `k` slots are filled.
pub open spec fn count_some<T>(m: Seq<Option<T>>, k: int) -> int
    decreases k,
{
    if k <= 0 {
        0
    } else {
        count_some(m, k - 1) + if m[k - 1] is Some {
            1int
        } else {
            0int
        }
    }
}

/// The filled-slot count lies between 0 and `k`.
proof fn lemma_count_some_bounds<T>(m: Seq<Option<T>>, k: int)
    ensures
        0 <= count_some(m, k) <= if k <= 0 {
            0int
        } else {
            k
        },
    decreases k,
{
    if k > 0 {
        lemma_count_some_bounds(m, k - 1);
    }
}

/// Filling one empty slot raises the count by one; slots outside `[0, k)`
/// leave it unchanged.
proof fn lemma_count_some_set<T>(m1: Seq<Option<T>>, m2: Seq<Option<T>>, k: int, i: int)
    requires
        0 <= i < m1.len(),
        k <= m1.len(),
        m2.len() == m1.len(),
        m2[i] is Some,
        forall|j: int| 0 <= j < m1.len() && j != i ==> m2[j] == m1[j],
    ensures
        count_some(m2, k) == count_some(m1, k) + if 0 <= i < k && m1[i] is None {
            1int
        } else {
            0int
        },
    decreases k,
{
    if k > 0 {
        lemma_count_some_set(m1, m2, k - 1, i);
    }
}

/// A well-formed name is determined by its dense index.
pub proof fn lemma_name_idx_inj(n: Name)
    requires
        n.wf(),
    ensures
        0 <= n.idx() < 676,
        spec_name_of(n.idx()) == n,
{
    let a = n.0 as int;
    let b = n.1 as int;
    assert(((a - 65) * 26 + (b - 65)) / 26 == a - 65 && ((a - 65) * 26 + (b - 65)) % 26 == b - 65)
        by (nonlinear_arith)
        requires 65 <= a <= 90, 65 <= b <= 90;
    assert(0 <= (a - 65) * 26 + (b - 65) < 676) by (nonlinear_arith)
        requires 65 <= a <= 90, 65 <= b <= 90;
}

} // verus!
