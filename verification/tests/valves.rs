use valves::{with_state, InProgressMove, Move, Name, NameMap, Network, NetworkError, State, Valve};

fn nm(s: &str) -> Name {
    let b = s.as_bytes();
    Name(b[0], b[1])
}

#[test]
fn name_round_trip() {
    for i in 0..676 {
        assert!(Name::from_usize(i).as_usize() == i);
    }
}

#[test]
fn name_encoding_examples() {
    assert!(nm("AA").as_usize() == 0);
    assert!(nm("AB").as_usize() == 1);
    assert!(nm("BA").as_usize() == 26);
    assert!(nm("ZZ").as_usize() == 675);
    assert!(Name::from_usize(675) == nm("ZZ"));
}

#[test]
fn name_map_basics() {
    let mut m: NameMap<u64> = NameMap::new();
    assert!(m.is_empty());
    assert!(!m.contains(nm("QQ")));
    assert!(m.get(nm("QQ")).is_none());
    m.insert(nm("QQ"), 7);
    m.insert(nm("AB"), 9);
    assert!(!m.is_empty());
    assert!(m.contains(nm("QQ")));
    assert!(*m.get(nm("QQ")).unwrap() == 7);
    m.insert(nm("QQ"), 8);
    assert!(*m.get(nm("QQ")).unwrap() == 8);
    let keys = m.keys();
    assert!(keys == vec![nm("AB"), nm("QQ")]);
    let entries = m.into_iter();
    assert!(entries == vec![(nm("AB"), 9), (nm("QQ"), 8)]);
}

#[test]
fn name_map_get_mut_and_iter() {
    let mut m: NameMap<u64> = NameMap::new();
    m.insert(nm("AB"), 1);
    m.insert(nm("ZZ"), 2);
    assert!(m.get_mut(nm("CD")).is_none());
    *m.get_mut(nm("ZZ")).unwrap() = 5;
    assert!(*m.get(nm("ZZ")).unwrap() == 5);
    let pairs = m.iter();
    assert!(pairs.len() == 2);
    assert!(pairs[0].0 == nm("AB") && *pairs[0].1 == 1);
    assert!(pairs[1].0 == nm("ZZ") && *pairs[1].1 == 5);
}

#[test]
fn parse_plural_line() {
    let v = Valve::parse(b"Valve AA has flow rate=0; tunnels lead to valves DD, II, BB").unwrap();
    assert!(v.name == nm("AA"));
    assert!(v.flow == 0);
    assert!(v.links == vec![nm("DD"), nm("II"), nm("BB")]);
}

#[test]
fn parse_singular_line() {
    let v = Valve::parse(b"Valve HH has flow rate=22; tunnel leads to valve GG").unwrap();
    assert!(v.name == nm("HH"));
    assert!(v.flow == 22);
    assert!(v.links == vec![nm("GG")]);
}

#[test]
fn parse_rejects_missing_flow_clause() {
    assert!(Valve::parse(b"Valve AA has flow; tunnels lead to valves BB").is_none());
    assert!(Valve::parse(b"Valve AA has flow rate=; tunnels lead to valves BB").is_none());
}

#[test]
fn parse_rejects_missing_tunnel_clause() {
    assert!(Valve::parse(b"Valve AA has flow rate=3").is_none());
    assert!(Valve::parse(b"Valve AA has flow rate=3; ").is_none());
}

#[test]
fn parse_rejects_trailing_bytes() {
    assert!(Valve::parse(b"Valve AA has flow rate=3; tunnel leads to valve BB ").is_none());
    assert!(Valve::parse(b"Valve AA has flow rate=3; tunnels lead to valves BB, CC x").is_none());
}

#[test]
fn parse_rejects_lowercase_names() {
    assert!(Valve::parse(b"Valve aa has flow rate=3; tunnel leads to valve BB").is_none());
    assert!(Valve::parse(b"Valve AA has flow rate=3; tunnel leads to valve bb").is_none());
}

#[test]
fn parse_flow_bounds() {
    let v = Valve::parse(
        b"Valve AA has flow rate=18446744073709551615; tunnel leads to valve BB",
    )
    .unwrap();
    assert!(v.flow == u64::MAX);
    assert!(Valve::parse(
        b"Valve AA has flow rate=18446744073709551616; tunnel leads to valve BB"
    )
    .is_none());
    let v = Valve::parse(b"Valve AA has flow rate=007; tunnel leads to valve BB").unwrap();
    assert!(v.flow == 7);
}

#[test]
fn network_reports_first_bad_line() {
    let input = b"Valve AA has flow rate=0; tunnel leads to valve AA\ngarbage";
    match Network::new(input) {
        Err(NetworkError::ParseLine(l)) => assert!(l == b"garbage".to_vec()),
        _ => panic!("expected a parse failure"),
    }
}

#[test]
fn network_reports_unknown_valve() {
    let input = b"Valve AA has flow rate=0; tunnel leads to valve BB";
    match Network::new(input) {
        Err(NetworkError::UnknownValve(n)) => assert!(n == nm("BB")),
        _ => panic!("expected an unknown-valve failure"),
    }
}

#[test]
fn network_accepts_crlf_and_final_newline() {
    let input = b"Valve AA has flow rate=0; tunnel leads to valve BB\r\nValve BB has flow rate=3; tunnel leads to valve AA\n";
    let net = Network::new(input).unwrap();
    assert!(net.valve(nm("BB")).unwrap().flow == 3);
    assert!(net.valve(nm("CC")).is_none());
}

#[test]
fn connections_three_node_chain() {
    let input = b"Valve AA has flow rate=0; tunnel leads to valve BB\n\
Valve BB has flow rate=0; tunnels lead to valves AA, CC\n\
Valve CC has flow rate=5; tunnel leads to valve BB";
    let net = Network::new(input).unwrap();
    let conns = net.connections(nm("AA"));
    let keys = conns.keys();
    assert!(keys == vec![nm("CC")]);
    assert!(!conns.contains(nm("AA")));
    assert!(!conns.contains(nm("BB")));
    let entry = conns.get(nm("CC")).unwrap();
    assert!(entry.0 == vec![(nm("AA"), nm("BB")), (nm("BB"), nm("CC"))]);
    assert!(entry.1 == 5);
}

#[test]
fn connections_exclude_start_even_with_flow() {
    let input = b"Valve AA has flow rate=9; tunnel leads to valve BB\n\
Valve BB has flow rate=3; tunnel leads to valve AA";
    let net = Network::new(input).unwrap();
    let conns = net.connections(nm("AA"));
    assert!(!conns.contains(nm("AA")));
    assert!(conns.contains(nm("BB")));
}

#[test]
fn move_cost_counts_travel_and_opening() {
    let m = Move { target: nm("CC"), path: vec![(nm("AA"), nm("BB")), (nm("BB"), nm("CC"))] };
    assert!(m.cost() == 3);
    let p = InProgressMove::new(m);
    assert!(p.turns == 0);
}

#[test]
fn search_single_valve_no_candidates() {
    let input = b"Valve AA has flow rate=0; tunnel leads to valve AA";
    let net = Network::new(input).unwrap();
    let s = State::new(&net, 5, nm("AA"));
    let r = s.run_manual(&net);
    assert!(r.pressure() == 0);
    assert!(r.turn() == 5);
    assert!(r.max_turns() == 5);
}

#[test]
fn search_two_valves_exact_pressure() {
    let input = b"Valve AA has flow rate=0; tunnel leads to valve BB\n\
Valve BB has flow rate=3; tunnel leads to valve AA";
    let net = Network::new(input).unwrap();
    let s = State::new(&net, 4, nm("AA"));
    let r = s.run_manual(&net);
    assert!(r.pressure() == 6);
    assert!(r.turn() == 4);
    let r2 = State::new(&net, 4, nm("AA")).run_max_by_key(&net);
    assert!(r2.pressure() == 6);
}

#[test]
fn search_monotonic_in_budget() {
    let input = b"Valve AA has flow rate=0; tunnel leads to valve BB\n\
Valve BB has flow rate=3; tunnel leads to valve AA";
    let net = Network::new(input).unwrap();
    let mut last = 0u64;
    for budget in 1..10u64 {
        let r = State::new(&net, budget, nm("AA")).run_manual(&net);
        assert!(r.pressure() >= last);
        last = r.pressure();
    }
    assert!(State::new(&net, 2, nm("AA")).run_manual(&net).pressure() == 0);
    assert!(State::new(&net, 3, nm("AA")).run_manual(&net).pressure() == 3);
}

#[test]
fn both_strategies_agree() {
    let input = b"Valve AA has flow rate=0; tunnels lead to valves BB, CC\n\
Valve BB has flow rate=13; tunnels lead to valves AA, CC\n\
Valve CC has flow rate=2; tunnels lead to valves AA, BB";
    let net = Network::new(input).unwrap();
    for budget in 1..12u64 {
        let a = State::new(&net, budget, nm("AA")).run_manual(&net).pressure();
        let b = State::new(&net, budget, nm("AA")).run_max_by_key(&net).pressure();
        assert!(a == b);
    }
}

#[test]
fn with_state_starts_at_aa_with_thirty_turns() {
    let input = b"Valve AA has flow rate=0; tunnel leads to valve BB\n\
Valve BB has flow rate=3; tunnel leads to valve AA";
    let net = Network::new(input).unwrap();
    with_state(&net, |s: State| {
        assert!(s.max_turns() == 30);
        assert!(s.turn() == 0);
        assert!(s.pressure() == 0);
        let r = s.run_manual(&net);
        assert!(r.pressure() == 84);
    });
}

#[test]
fn sample_network_search() {
    let input = b"Valve AA has flow rate=0; tunnels lead to valves DD, II, BB\n\
Valve BB has flow rate=13; tunnels lead to valves CC, AA\n\
Valve CC has flow rate=2; tunnels lead to valves DD, BB\n\
Valve DD has flow rate=20; tunnels lead to valves CC, AA, EE\n\
Valve EE has flow rate=3; tunnels lead to valves FF, DD\n\
Valve FF has flow rate=0; tunnels lead to valves EE, GG\n\
Valve GG has flow rate=0; tunnels lead to valves FF, HH\n\
Valve HH has flow rate=22; tunnel leads to valve GG\n\
Valve II has flow rate=0; tunnels lead to valves AA, JJ\n\
Valve JJ has flow rate=21; tunnel leads to valve II";
    let net = Network::new(input).unwrap();
    let r = State::new(&net, 10, nm("AA")).run_manual(&net);
    let r2 = State::new(&net, 10, nm("AA")).run_max_by_key(&net);
    assert!(r.pressure() == r2.pressure());
    assert!(r.turn() == 10);
}

#[test]
fn total_flow_sums_every_valve() {
    let input = b"Valve AA has flow rate=0; tunnel leads to valve BB\n\
Valve BB has flow rate=3; tunnel leads to valve AA";
    let net = Network::new(input).unwrap();
    assert!(net.total_flow() == 3);
}
