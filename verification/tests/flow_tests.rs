use std::collections::HashMap;

use tree_of_stars::area::AreaGraph;
use tree_of_stars::error::{or_die, Error};
use tree_of_stars::mode::{after_layer, after_top, EventAction, Step, TopAction};
use tree_of_stars::pull::{group_offers, pull_all, pull_for_sink, pull_worker, soonest_index, Candidate, PACKET_NANOS_PER_STEP};
use tree_of_stars::reactor::{finish_reaction, ready_to_react, start_reaction, waste_targets, Progress, Reactor, WASTE_RANGE};
use tree_of_stars::resource::{Pool, Resource, Sink, Source};
use tree_of_stars::hex::Coord;
use tree_of_stars::time::{DrawDelta, UpdateDelta};
use tree_of_stars::util::{sorted_keys, try_get};
use tree_of_stars::world::Network;

fn c(x: i32, y: i32) -> Coord {
    Coord::new(x, y)
}

fn cand(source: u64, route_time: u64, on_cooldown: bool) -> Candidate {
    Candidate { source, route: vec![], route_time, on_cooldown }
}

/// Nodes 1 (0,0), 2 (6,0), 3 (12,0) in a row; 1 is a source of H2 whose
/// area covers all three; 2 and 3 are sinks wanting H2.
fn flow_net() -> Network {
    let mut net = Network::new();
    net.make_node(1, c(0, 0));
    net.make_node(2, c(6, 0));
    net.make_node(3, c(12, 0));
    net.make_link(10, 1, 2);
    net.make_link(11, 2, 3);
    tree_of_stars::resource::Source::add(&mut net, 1, Pool::from(vec![(Resource::H2, 4)]), 20);
    for e in [2u64, 3u64] {
        let mut s = Sink::new();
        s.want = Pool::from(vec![(Resource::H2, 2)]);
        net.sinks.insert(e, s);
    }
    net
}

#[test]
fn worker_offers_nearest_sink() {
    let mut net = flow_net();
    let source = net.sources.remove(&1).unwrap();
    let mut ag = net.graphs.remove(&1).unwrap();
    let offer = pull_worker(&net.sinks, &net.links, &net.nodes, 0, 1, &source, &mut ag).expect("an offer");
    assert_eq!(offer.0, 2);
    assert_eq!(offer.1.source, 1);
    assert_eq!(offer.1.route, vec![(10, tree_of_stars::graph::PathDir::Fwd)]);
    assert!(!offer.1.on_cooldown);
    assert_eq!(offer.1.route_time % PACKET_NANOS_PER_STEP, 0);
    assert!(offer.1.route_time > 0);
}

#[test]
fn worker_skips_excluded_and_served_sinks() {
    let mut net = flow_net();
    let source = net.sources.remove(&1).unwrap();
    let mut ag = net.graphs.remove(&1).unwrap();
    ag.toggle_exclude(2);
    let offer = pull_worker(&net.sinks, &net.links, &net.nodes, 0, 1, &source, &mut ag).expect("an offer");
    assert_eq!(offer.0, 3);
    net.sinks.get_mut(&3).unwrap().in_transit.set(Resource::H2, 2);
    assert!(pull_worker(&net.sinks, &net.links, &net.nodes, 0, 1, &source, &mut ag).is_none());
}

#[test]
fn soonest_offer_first_on_tie() {
    assert_eq!(soonest_index(&vec![]), None);
    assert_eq!(soonest_index(&vec![cand(1, 5, false), cand(2, 3, false), cand(3, 3, false)]), Some(1));
}

#[test]
fn offers_grouped_by_sink() {
    let offers = vec![(7, cand(1, 5, false)), (8, cand(2, 3, false)), (7, cand(3, 1, false))];
    let (sinks, groups) = group_offers(offers);
    assert_eq!(sinks, vec![7, 8]);
    assert_eq!(groups[0].iter().map(|c| c.source).collect::<Vec<_>>(), vec![1, 3]);
    assert_eq!(groups[1].iter().map(|c| c.source).collect::<Vec<_>>(), vec![2]);
}

#[test]
fn sink_takes_soonest_offer_unless_cooling_down() {
    let mut net = flow_net();
    let cands = vec![cand(1, 9, false), cand(1, 2, true)];
    assert!(pull_for_sink(&mut net.sources, &mut net.sinks, &net.nodes, 0, 2, &cands).is_none());
    assert_eq!(net.sources[&1].has.get(Resource::H2), 4);
    let cands = vec![cand(1, 9, false)];
    let d = pull_for_sink(&mut net.sources, &mut net.sinks, &net.nodes, 5, 2, &cands).expect("a packet");
    assert_eq!(d.resource, Resource::H2);
    assert_eq!(d.sink, 2);
    assert_eq!(d.from, c(0, 0));
    assert_eq!(net.sources[&1].has.get(Resource::H2), 3);
    assert_eq!(net.sinks[&2].in_transit.get(Resource::H2), 1);
    assert_eq!(net.sources[&1].last_send(2), Some(5));
    assert!(pull_for_sink(&mut net.sources, &mut net.sinks, &net.nodes, 5, 2, &vec![]).is_none());
    assert!(pull_for_sink(&mut net.sources, &mut net.sinks, &net.nodes, 5, 99, &cands).is_none());
}

#[test]
fn pull_round_sends_one_packet_per_source() {
    let mut net = flow_net();
    let sent = pull_all(&mut net.sources, &mut net.graphs, &mut net.sinks, &net.links, &net.nodes, 0);
    assert_eq!(sent.len(), 1);
    assert_eq!(sent[0].sink, 2);
    assert_eq!(net.sources[&1].has.get(Resource::H2), 3);
    assert_eq!(net.sinks[&2].in_transit.get(Resource::H2), 1);
    // Right after, the nearest sink is cooling down: its offer is skipped.
    let again = pull_all(&mut net.sources, &mut net.graphs, &mut net.sinks, &net.links, &net.nodes, 1);
    assert!(again.is_empty());
    // Once the cooldown is over it pulls again.
    let later = pull_all(&mut net.sources, &mut net.graphs, &mut net.sinks, &net.links, &net.nodes, 1_000_000_000);
    assert_eq!(later.len(), 1);
    assert_eq!(net.sinks[&2].in_transit.get(Resource::H2), 2);
    let _ = AreaGraph::new;
}

#[test]
fn progress_finishes_after_its_length() {
    let mut p = Progress::new();
    assert!(!p.is_done());
    p.start(10, "Work".to_string());
    assert!(!p.is_done());
    p.advance(4);
    assert!(!p.is_done());
    p.advance(6);
    assert!(p.is_done());
    p.advance(100);
    assert_eq!(p.made.as_ref().unwrap().at, 10);
    p.clear();
    assert!(p.made.is_none());
    let mut zero = Progress::new();
    zero.start(0, "Nothing".to_string());
    zero.advance(5);
    assert!(!zero.is_done());
}

#[test]
fn reactor_cycle() {
    let input = Pool::from(vec![(Resource::H2O, 2)]);
    let output = Pool::from(vec![(Resource::O2, 1), (Resource::H2, 2)]);
    let reactor = Reactor::new(input, 5, output);
    for id in 0..6 {
        assert!(reactor.targets().contains(id));
    }
    assert!(!reactor.targets().contains(6));
    let mut progress = Progress::new();
    let mut source = Source::new(Pool::new());
    let mut sink = Sink::new();
    assert!(!ready_to_react(&reactor, &progress, &source, &sink));
    sink.has.set(Resource::H2O, 3);
    assert!(ready_to_react(&reactor, &progress, &source, &sink));
    start_reaction(&reactor, &mut progress, &mut sink);
    assert_eq!(sink.has.get(Resource::H2O), 1);
    assert!(!ready_to_react(&reactor, &progress, &source, &sink));
    assert!(finish_reaction(&reactor, &mut progress, &mut source).is_none());
    progress.advance(5);
    let waste = finish_reaction(&reactor, &mut progress, &mut source).expect("finished");
    assert!(waste.is_empty());
    assert_eq!(source.has.get(Resource::O2), 1);
    assert_eq!(source.has.get(Resource::H2), 2);
    assert!(progress.made.is_none());
    // A full source does not need more.
    source.has.set(Resource::O2, 6);
    source.has.set(Resource::H2, 6);
    assert!(!ready_to_react(&reactor, &progress, &source, &sink));
    // What does not fit goes to waste.
    progress.start(1, "Reaction".to_string());
    progress.advance(1);
    let waste = finish_reaction(&reactor, &mut progress, &mut source).expect("finished");
    assert_eq!(waste, vec![(Resource::H2, 2), (Resource::O2, 1)]);
}

#[test]
fn reactor_add_sets_up_node() {
    let mut net = Network::new();
    net.make_node(1, c(0, 0));
    let mut reactors = HashMap::new();
    let mut progs = HashMap::new();
    Reactor::add(&mut net, &mut reactors, &mut progs, 1, Pool::from(vec![(Resource::C, 1)]), 7, Pool::from(vec![(Resource::CO2, 1)]), 20);
    assert_eq!(reactors[&1].input().get(Resource::C), 1);
    assert_eq!(reactors[&1].output().get(Resource::CO2), 1);
    assert_eq!(net.sinks[&1].want.get(Resource::C), 1);
    assert!(net.sources.contains_key(&1));
    assert!(net.graphs.contains_key(&1));
    assert!(progs[&1].made.is_none());
}

#[test]
fn waste_lands_on_the_ring() {
    let center = c(3, -2);
    let targets = waste_targets(center, 20);
    assert_eq!(targets.len(), 20);
    for t in targets {
        assert_eq!(center.distance(t), WASTE_RANGE);
    }
    assert!(waste_targets(center, 0).is_empty());
}

#[test]
fn mode_walk_steps() {
    assert!(matches!(after_top::<u8>(3, TopAction::AsEvent), Step::Ask(2)));
    assert!(matches!(after_top::<u8>(3, TopAction::done()), Step::Stop));
    assert!(matches!(after_top::<u8>(3, TopAction::continue_()), Step::Ask(1)));
    assert!(matches!(after_top::<u8>(1, TopAction::continue_()), Step::Stop));
    assert!(matches!(after_top::<u8>(2, TopAction::Pop), Step::Pop));
    assert!(matches!(after_top(2, TopAction::swap(9u8)), Step::Swap(9)));
    assert!(matches!(after_top(2, TopAction::push(4u8)), Step::Push(4)));
    assert!(matches!(after_layer::<u8>(0, EventAction::Continue), Step::Stop));
    assert!(matches!(after_layer::<u8>(3, EventAction::Continue), Step::Ask(2)));
    assert!(matches!(after_layer::<u8>(3, EventAction::Done), Step::Stop));
    assert!(matches!(after_layer(3, EventAction::push(1u8)), Step::Push(1)));
}

#[test]
fn or_die_returns_the_value() {
    assert_eq!(or_die(|| Ok::<u32, Error>(7)), 7);
}

#[test]
fn lookups_and_key_order() {
    let mut m = HashMap::new();
    m.insert(30u64, "c");
    m.insert(10u64, "a");
    m.insert(20u64, "b");
    assert_eq!(try_get(&m, 10), Ok(&"a"));
    assert_eq!(try_get(&m, 11), Err(Error::NoSuchComponent));
    assert_eq!(sorted_keys(&m), vec![10, 20, 30]);
    let u = UpdateDelta::new(std::time::Duration::from_millis(16));
    let d = DrawDelta::new(std::time::Duration::from_millis(20));
    assert_eq!(u.0.as_millis(), 16);
    assert_eq!(d.0.as_millis(), 20);
}

#[test]
fn one_packet_per_sink_per_round() {
    let mut net = Network::new();
    net.make_node(1, c(0, 0));
    net.make_node(2, c(6, 0));
    net.make_node(3, c(12, 0));
    net.make_link(10, 1, 2);
    net.make_link(11, 2, 3);
    tree_of_stars::resource::Source::add(&mut net, 1, Pool::from(vec![(Resource::H2, 4)]), 20);
    tree_of_stars::resource::Source::add(&mut net, 3, Pool::from(vec![(Resource::H2, 4)]), 20);
    let mut s = Sink::new();
    s.want = Pool::from(vec![(Resource::H2, 3)]);
    net.sinks.insert(2, s);
    let sent = pull_all(&mut net.sources, &mut net.graphs, &mut net.sinks, &net.links, &net.nodes, 0);
    assert_eq!(sent.len(), 1);
    assert_eq!(sent[0].sink, 2);
    assert_eq!(net.sinks[&2].in_transit.get(Resource::H2), 1);
    assert_eq!(net.sources[&1].has.get(Resource::H2) + net.sources[&3].has.get(Resource::H2), 7);
}
